use vstd::prelude::*;

use crate::bytes::{le_bytes, lemma_le_bytes_len, ord_bytes, val_of_bytes};
use crate::error::ErrorKind;
use crate::order::ByteOrder;
use crate::value::{Shape, SpecValue};
use crate::width::PrefixWidth;

verus! {

/// The unsigned wire representation of a signed 8-bit value: two's
/// complement.
pub open spec fn u_rep8(x: i8) -> nat {
    if x >= 0 {
        x as nat
    } else {
        (x + 0x100) as nat
    }
}

/// The signed value of an 8-bit wire field.
pub open spec fn i8_of(n: nat) -> i8 {
    if n < 0x80 {
        n as i8
    } else {
        (n - 0x100) as i8
    }
}

/// The unsigned wire representation of a signed 16-bit value.
pub open spec fn u_rep16(x: i16) -> nat {
    if x >= 0 {
        x as nat
    } else {
        (x + 0x1_0000) as nat
    }
}

/// The signed value of a 16-bit wire field.
pub open spec fn i16_of(n: nat) -> i16 {
    if n < 0x8000 {
        n as i16
    } else {
        (n - 0x1_0000) as i16
    }
}

/// The unsigned wire representation of a signed 32-bit value.
pub open spec fn u_rep32(x: i32) -> nat {
    if x >= 0 {
        x as nat
    } else {
        (x + 0x1_0000_0000) as nat
    }
}

/// The signed value of a 32-bit wire field.
pub open spec fn i32_of(n: nat) -> i32 {
    if n < 0x8000_0000 {
        n as i32
    } else {
        (n - 0x1_0000_0000) as i32
    }
}

/// The unsigned wire representation of a signed 64-bit value.
pub open spec fn u_rep64(x: i64) -> nat {
    if x >= 0 {
        x as nat
    } else {
        (x + 0x1_0000_0000_0000_0000) as nat
    }
}

/// The signed value of a 64-bit wire field.
pub open spec fn i64_of(n: nat) -> i64 {
    if n < 0x8000_0000_0000_0000 {
        n as i64
    } else {
        (n - 0x1_0000_0000_0000_0000) as i64
    }
}

/// The exact number of bytes `v` occupies on the wire. The byte size
/// does not depend on the ordering; `laws::lemma_wire_size_fidelity`
/// proves it equal to the length of `enc` under both.
pub open spec fn enc_len(v: SpecValue) -> nat
    decreases v,
{
    match v {
        SpecValue::U8(_) => 1,
        SpecValue::U16(_) => 2,
        SpecValue::U32(_) => 4,
        SpecValue::U64(_) => 8,
        SpecValue::I8(_) => 1,
        SpecValue::I16(_) => 2,
        SpecValue::I32(_) => 4,
        SpecValue::I64(_) => 8,
        SpecValue::Bool(_) => 1,
        SpecValue::Char(_) => 4,
        SpecValue::Text(b, w) => w.nbytes() + b.len(),
        SpecValue::Tuple(vs) => enc_len_list(vs),
        SpecValue::List(vs, w) => w.nbytes() + enc_len_list(vs),
        SpecValue::SizedList(vs, w) => w.nbytes() + enc_len_list(vs),
        SpecValue::Union(_, p) => 1 + enc_len(*p),
    }
}

/// The total number of bytes the elements `vs` occupy on the wire.
pub open spec fn enc_len_list(vs: Seq<SpecValue>) -> nat
    decreases vs,
{
    if vs.len() == 0 {
        0
    } else {
        enc_len(vs[0]) + enc_len_list(vs.drop_first())
    }
}

/// The encoding of `v` in the given ordering: the wire format itself.
///
/// Length prefixes are written modulo their width; whether the true
/// count or size fits the width is the separate condition [`fits`],
/// which the encoder checks before writing.
pub open spec fn enc(v: SpecValue, order: ByteOrder) -> Seq<u8>
    decreases v,
{
    match v {
        SpecValue::U8(x) => seq![x],
        SpecValue::U16(x) => ord_bytes(x as nat, 2, order),
        SpecValue::U32(x) => ord_bytes(x as nat, 4, order),
        SpecValue::U64(x) => ord_bytes(x as nat, 8, order),
        SpecValue::I8(x) => ord_bytes(u_rep8(x), 1, order),
        SpecValue::I16(x) => ord_bytes(u_rep16(x), 2, order),
        SpecValue::I32(x) => ord_bytes(u_rep32(x), 4, order),
        SpecValue::I64(x) => ord_bytes(u_rep64(x), 8, order),
        SpecValue::Bool(b) => seq![if b { 1u8 } else { 0u8 }],
        SpecValue::Char(c) => ord_bytes((c as u32) as nat, 4, order),
        SpecValue::Text(b, w) => ord_bytes(b.len(), w.nbytes(), order) + b,
        SpecValue::Tuple(vs) => enc_list(vs, order),
        SpecValue::List(vs, w) => ord_bytes(vs.len(), w.nbytes(), order) + enc_list(vs, order),
        SpecValue::SizedList(vs, w) => ord_bytes(enc_len_list(vs), w.nbytes(), order) + enc_list(
            vs,
            order,
        ),
        SpecValue::Union(t, p) => seq![t] + enc(*p, order),
    }
}

/// The encodings of the elements `vs`, one after the other.
pub open spec fn enc_list(vs: Seq<SpecValue>, order: ByteOrder) -> Seq<u8>
    decreases vs,
{
    if vs.len() == 0 {
        Seq::empty()
    } else {
        enc(vs[0], order) + enc_list(vs.drop_first(), order)
    }
}

/// True when every count and byte size in `v` fits its prefix width.
/// Encoding succeeds exactly on fitting values and fails with
/// `PrefixOverflow` on the rest.
pub open spec fn fits(v: SpecValue) -> bool
    decreases v,
{
    match v {
        SpecValue::Text(b, w) => b.len() <= w.max(),
        SpecValue::Tuple(vs) => fits_all(vs),
        SpecValue::List(vs, w) => vs.len() <= w.max() && fits_all(vs),
        SpecValue::SizedList(vs, w) => enc_len_list(vs) <= w.max() && fits_all(vs),
        SpecValue::Union(_, p) => fits(*p),
        _ => true,
    }
}

/// True when every element of `vs` fits.
pub open spec fn fits_all(vs: Seq<SpecValue>) -> bool
    decreases vs,
{
    vs.len() == 0 || (fits(vs[0]) && fits_all(vs.drop_first()))
}

/// True when `v` describes data the wire format can carry faithfully:
/// text fields hold valid UTF-8, and no element of a size-prefixed list
/// encodes to zero bytes (the decoder of a size-prefixed list must make
/// progress inside its byte budget, so a zero-size element could never
/// be recovered).
pub open spec fn wf(v: SpecValue) -> bool
    decreases v,
{
    match v {
        SpecValue::Text(b, _) => vstd::utf8::valid_utf8(b),
        SpecValue::Tuple(vs) => wf_all(vs),
        SpecValue::List(vs, _) => wf_all(vs),
        SpecValue::SizedList(vs, _) => wf_all(vs) && (forall|i: int|
            0 <= i < vs.len() ==> enc_len(#[trigger] vs[i]) >= 1),
        SpecValue::Union(_, p) => wf(*p),
        _ => true,
    }
}

/// True when every element of `vs` is well-formed.
pub open spec fn wf_all(vs: Seq<SpecValue>) -> bool
    decreases vs,
{
    vs.len() == 0 || (wf(vs[0]) && wf_all(vs.drop_first()))
}

/// The unsigned value of the `k`-byte field at `pos`.
pub open spec fn rd(data: Seq<u8>, pos: int, k: nat, order: ByteOrder) -> nat {
    val_of_bytes(data.subrange(pos, pos + k), order)
}

/// The result of decoding one value of shape `shape` from `data` at
/// `pos`, never reading at or past `limit`: the value and the position
/// just after it, or the kind of the failure.
///
/// This is the decoder's specification; `decode` is proved to return
/// exactly this. Decoding a size-prefixed list reads its byte budget,
/// then decodes elements until the budget is consumed exactly; a budget
/// that a whole element steps over, or an element that consumes no
/// bytes, is a `SizeMismatch`.
pub open spec fn dec(shape: Shape, data: Seq<u8>, pos: int, limit: int, order: ByteOrder) -> Result<
    (SpecValue, int),
    ErrorKind,
>
    decreases shape, 0int,
{
    match shape {
        Shape::U8 => if pos + 1 <= limit {
            Ok((SpecValue::U8(rd(data, pos, 1, order) as u8), pos + 1))
        } else {
            Err(ErrorKind::Truncated)
        },
        Shape::U16 => if pos + 2 <= limit {
            Ok((SpecValue::U16(rd(data, pos, 2, order) as u16), pos + 2))
        } else {
            Err(ErrorKind::Truncated)
        },
        Shape::U32 => if pos + 4 <= limit {
            Ok((SpecValue::U32(rd(data, pos, 4, order) as u32), pos + 4))
        } else {
            Err(ErrorKind::Truncated)
        },
        Shape::U64 => if pos + 8 <= limit {
            Ok((SpecValue::U64(rd(data, pos, 8, order) as u64), pos + 8))
        } else {
            Err(ErrorKind::Truncated)
        },
        Shape::I8 => if pos + 1 <= limit {
            Ok((SpecValue::I8(i8_of(rd(data, pos, 1, order))), pos + 1))
        } else {
            Err(ErrorKind::Truncated)
        },
        Shape::I16 => if pos + 2 <= limit {
            Ok((SpecValue::I16(i16_of(rd(data, pos, 2, order))), pos + 2))
        } else {
            Err(ErrorKind::Truncated)
        },
        Shape::I32 => if pos + 4 <= limit {
            Ok((SpecValue::I32(i32_of(rd(data, pos, 4, order))), pos + 4))
        } else {
            Err(ErrorKind::Truncated)
        },
        Shape::I64 => if pos + 8 <= limit {
            Ok((SpecValue::I64(i64_of(rd(data, pos, 8, order))), pos + 8))
        } else {
            Err(ErrorKind::Truncated)
        },
        Shape::Bool => if pos + 1 <= limit {
            if data[pos] == 0 {
                Ok((SpecValue::Bool(false), pos + 1))
            } else if data[pos] == 1 {
                Ok((SpecValue::Bool(true), pos + 1))
            } else {
                Err(ErrorKind::InvalidDiscriminant)
            }
        } else {
            Err(ErrorKind::Truncated)
        },
        Shape::Char => if pos + 4 <= limit {
            if vstd::utf8::is_scalar(rd(data, pos, 4, order) as u32) {
                Ok((SpecValue::Char((rd(data, pos, 4, order) as u32) as char), pos + 4))
            } else {
                Err(ErrorKind::InvalidDiscriminant)
            }
        } else {
            Err(ErrorKind::Truncated)
        },
        Shape::Text(w) => if pos + w.nbytes() <= limit {
            let n = rd(data, pos, w.nbytes(), order) as int;
            let p = pos + w.nbytes();
            if p + n <= limit {
                if vstd::utf8::valid_utf8(data.subrange(p, p + n)) {
                    Ok((SpecValue::Text(data.subrange(p, p + n), w), p + n))
                } else {
                    Err(ErrorKind::InvalidUtf8)
                }
            } else {
                Err(ErrorKind::Truncated)
            }
        } else {
            Err(ErrorKind::Truncated)
        },
        Shape::Tuple(ss) => match dec_tuple(ss@, data, pos, limit, order) {
            Ok((vs, p)) => Ok((SpecValue::Tuple(vs), p)),
            Err(e) => Err(e),
        },
        Shape::List(es, w) => if pos + w.nbytes() <= limit {
            let n = rd(data, pos, w.nbytes(), order);
            match dec_count(*es, n, data, pos + w.nbytes(), limit, order) {
                Ok((vs, p)) => Ok((SpecValue::List(vs, w), p)),
                Err(e) => Err(e),
            }
        } else {
            Err(ErrorKind::Truncated)
        },
        Shape::SizedList(es, w) => if pos + w.nbytes() <= limit {
            let n = rd(data, pos, w.nbytes(), order) as int;
            let p = pos + w.nbytes();
            if p + n <= limit {
                match dec_sized(*es, data, p, p + n, order) {
                    Ok((vs, q)) => Ok((SpecValue::SizedList(vs, w), q)),
                    Err(e) => Err(e),
                }
            } else {
                Err(ErrorKind::Truncated)
            }
        } else {
            Err(ErrorKind::Truncated)
        },
        Shape::Union(ss) => if pos + 1 <= limit {
            let t = data[pos];
            if (t as int) < ss@.len() {
                match dec(ss@[t as int], data, pos + 1, limit, order) {
                    Ok((v, p)) => Ok((SpecValue::Union(t, Box::new(v)), p)),
                    Err(e) => Err(e),
                }
            } else {
                Err(ErrorKind::InvalidDiscriminant)
            }
        } else {
            Err(ErrorKind::Truncated)
        },
    }
}

/// Decodes the fields of a tuple, one shape after the other.
pub open spec fn dec_tuple(
    ss: Seq<Shape>,
    data: Seq<u8>,
    pos: int,
    limit: int,
    order: ByteOrder,
) -> Result<(Seq<SpecValue>, int), ErrorKind>
    decreases ss, 0int,
{
    if ss.len() == 0 {
        Ok((Seq::empty(), pos))
    } else {
        match dec(ss[0], data, pos, limit, order) {
            Ok((v, p)) => match dec_tuple(ss.drop_first(), data, p, limit, order) {
                Ok((vs, q)) => Ok((seq![v] + vs, q)),
                Err(e) => Err(e),
            },
            Err(e) => Err(e),
        }
    }
}

/// Decodes exactly `n` elements of shape `es`, as a count prefix
/// demands.
pub open spec fn dec_count(
    es: Shape,
    n: nat,
    data: Seq<u8>,
    pos: int,
    limit: int,
    order: ByteOrder,
) -> Result<(Seq<SpecValue>, int), ErrorKind>
    decreases es, n as int,
{
    if n == 0 {
        Ok((Seq::empty(), pos))
    } else {
        match dec(es, data, pos, limit, order) {
            Ok((v, p)) => match dec_count(es, (n - 1) as nat, data, p, limit, order) {
                Ok((vs, q)) => Ok((seq![v] + vs, q)),
                Err(e) => Err(e),
            },
            Err(e) => Err(e),
        }
    }
}

/// Decodes elements of shape `es` until the byte budget ending at `end`
/// is consumed exactly. An element that steps past `end`, or one that
/// consumes no bytes at all, means the budget does not align with whole
/// elements.
pub open spec fn dec_sized(
    es: Shape,
    data: Seq<u8>,
    pos: int,
    end: int,
    order: ByteOrder,
) -> Result<(Seq<SpecValue>, int), ErrorKind>
    decreases es, end - pos,
{
    if pos >= end {
        Ok((Seq::empty(), pos))
    } else {
        match dec(es, data, pos, end, order) {
            Ok((v, p)) => if pos < p <= end {
                match dec_sized(es, data, p, end, order) {
                    Ok((vs, q)) => Ok((seq![v] + vs, q)),
                    Err(e) => Err(e),
                }
            } else {
                Err(ErrorKind::SizeMismatch)
            },
            Err(e) => Err(e),
        }
    }
}

/// The encoded length of `v` equals the length of its encoding, under
/// either ordering.
pub proof fn lemma_enc_len(v: SpecValue, order: ByteOrder)
    ensures
        enc(v, order).len() == enc_len(v),
    decreases v,
{
    match v {
        SpecValue::U8(_) | SpecValue::Bool(_) => {},
        SpecValue::U16(x) => {
            lemma_ord_len(order);
        },
        SpecValue::U32(_) | SpecValue::U64(_) | SpecValue::I8(_) | SpecValue::I16(_)
            | SpecValue::I32(_) | SpecValue::I64(_) | SpecValue::Char(_) => {
            lemma_ord_len(order);
        },
        SpecValue::Text(b, w) => {
            lemma_ord_len(order);
        },
        SpecValue::Tuple(vs) => {
            lemma_enc_len_list(vs, order);
        },
        SpecValue::List(vs, w) => {
            lemma_ord_len(order);
            lemma_enc_len_list(vs, order);
        },
        SpecValue::SizedList(vs, w) => {
            lemma_ord_len(order);
            lemma_enc_len_list(vs, order);
        },
        SpecValue::Union(t, p) => {
            lemma_enc_len(*p, order);
        },
    }
}

/// The summed encoded length of `vs` equals the length of their joined
/// encodings.
pub proof fn lemma_enc_len_list(vs: Seq<SpecValue>, order: ByteOrder)
    ensures
        enc_list(vs, order).len() == enc_len_list(vs),
    decreases vs,
{
    if vs.len() > 0 {
        lemma_enc_len(vs[0], order);
        lemma_enc_len_list(vs.drop_first(), order);
    }
}

/// Every `ord_bytes` layout is as long as its width asks.
proof fn lemma_ord_len(order: ByteOrder)
    ensures
        forall|n: nat, k: nat| (#[trigger] ord_bytes(n, k, order)).len() == k,
{
    assert forall|n: nat, k: nat| (#[trigger] ord_bytes(n, k, order)).len() == k by {
        lemma_le_bytes_len(n, k);
    }
}

/// Joined encodings split at any element boundary.
pub proof fn lemma_enc_list_split(vs: Seq<SpecValue>, i: int, order: ByteOrder)
    requires
        0 <= i <= vs.len(),
    ensures
        enc_list(vs, order) == enc_list(vs.take(i), order) + enc_list(vs.skip(i), order),
    decreases i,
{
    if i == 0 {
        assert(vs.take(0) =~= Seq::<SpecValue>::empty());
        assert(vs.skip(0) =~= vs);
        assert(enc_list(vs, order) =~= enc_list(vs.take(0), order) + enc_list(
            vs.skip(0),
            order,
        ));
    } else {
        let t = vs.take(i);
        assert(t.len() == i && t[0] == vs[0]);
        lemma_enc_list_split(vs.drop_first(), i - 1, order);
        assert(vs.drop_first().take(i - 1) =~= t.drop_first());
        assert(vs.drop_first().skip(i - 1) =~= vs.skip(i));
        assert(enc_list(vs, order) =~= enc_list(vs.take(i), order) + enc_list(
            vs.skip(i),
            order,
        ));
    }
}

/// `fits_all` says exactly that every element fits.
pub proof fn lemma_fits_all_iff(vs: Seq<SpecValue>)
    ensures
        fits_all(vs) <==> (forall|i: int| 0 <= i < vs.len() ==> fits(#[trigger] vs[i])),
    decreases vs,
{
    if vs.len() > 0 {
        lemma_fits_all_iff(vs.drop_first());
        if fits(vs[0]) && fits_all(vs.drop_first()) {
            assert forall|i: int| 0 <= i < vs.len() implies fits(#[trigger] vs[i]) by {
                if i > 0 {
                    assert(vs[i] == vs.drop_first()[i - 1]);
                }
            }
        }
        if forall|i: int| 0 <= i < vs.len() ==> fits(#[trigger] vs[i]) {
            assert forall|i: int|
                0 <= i < vs.drop_first().len() implies fits(
                #[trigger] vs.drop_first()[i],
            ) by {
                assert(vs.drop_first()[i] == vs[i + 1]);
            }
        }
    }
}

/// No element occupies more bytes than the whole list.
pub proof fn lemma_enc_len_list_ge_elem(vs: Seq<SpecValue>, i: int)
    requires
        0 <= i < vs.len(),
    ensures
        enc_len_list(vs) >= enc_len(vs[i]),
        enc_len_list(vs) >= enc_len_list(vs.take(i)),
    decreases vs,
{
    lemma_enc_len_list_split(vs, i);
    assert(vs.skip(i).len() > 0);
    assert(vs.skip(i)[0] == vs[i]);
    assert(enc_len_list(vs.skip(i)) >= enc_len(vs[i]));
}

/// One more element extends the joined encodings on the right.
pub proof fn lemma_enc_list_snoc(vs: Seq<SpecValue>, j: int, order: ByteOrder)
    requires
        0 <= j < vs.len(),
    ensures
        enc_list(vs.take(j + 1), order) == enc_list(vs.take(j), order) + enc(vs[j], order),
{
    lemma_enc_list_split(vs.take(j + 1), j, order);
    assert(vs.take(j + 1).take(j) =~= vs.take(j));
    assert(vs.take(j + 1).skip(j) =~= seq![vs[j]]);
    assert(enc_list(seq![vs[j]], order) == enc(vs[j], order) + enc_list(
        seq![vs[j]].drop_first(),
        order,
    ));
    assert(seq![vs[j]].drop_first() =~= Seq::<SpecValue>::empty());
    assert(enc_list(Seq::<SpecValue>::empty(), order) =~= Seq::<u8>::empty());
    assert(enc_list(vs.take(j + 1), order) =~= enc_list(vs.take(j), order) + enc(
        vs[j],
        order,
    ));
}

/// Summed encoded lengths split at any element boundary.
pub proof fn lemma_enc_len_list_split(vs: Seq<SpecValue>, i: int)
    requires
        0 <= i <= vs.len(),
    ensures
        enc_len_list(vs) == enc_len_list(vs.take(i)) + enc_len_list(vs.skip(i)),
    decreases i,
{
    if i == 0 {
        assert(vs.take(0) =~= Seq::<SpecValue>::empty());
        assert(vs.skip(0) =~= vs);
    } else {
        let t = vs.take(i);
        assert(t.len() == i && t[0] == vs[0]);
        lemma_enc_len_list_split(vs.drop_first(), i - 1);
        assert(vs.drop_first().take(i - 1) =~= t.drop_first());
        assert(vs.drop_first().skip(i - 1) =~= vs.skip(i));
    }
}

} // verus!
