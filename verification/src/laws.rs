use vstd::prelude::*;

use crate::bytes::{lemma_le_bytes_len, lemma_val_of_ord_bytes, ord_bytes, pow256};
use crate::error::ErrorKind;
use crate::order::ByteOrder;
use crate::value::{
    matches_all, matches_shape, matches_tuple, Shape, SpecValue,
};
use crate::width::PrefixWidth;
use crate::wire::{
    dec, dec_count, dec_sized, dec_tuple, enc, enc_len, enc_len_list, enc_list, fits, fits_all,
    i16_of, i32_of, i64_of, i8_of, lemma_enc_len, lemma_enc_len_list, rd, u_rep16, u_rep32,
    u_rep64, u_rep8, wf, wf_all,
};

verus! {

/// A prefix of the given width can hold every value below
/// `pow256(nbytes)`.
proof fn lemma_width_max(w: PrefixWidth)
    ensures
        w.max() + 1 == pow256(w.nbytes()),
        1 <= w.nbytes() <= 8,
{
    reveal_with_fuel(pow256, 9);
}

/// Reading the `k`-byte field that was written as `n` yields `n`.
proof fn lemma_rd_at(data: Seq<u8>, pos: int, k: nat, n: nat, order: ByteOrder)
    requires
        0 <= pos,
        pos + k <= data.len(),
        data.subrange(pos, pos + k) == ord_bytes(n, k, order),
        n < pow256(k),
    ensures
        rd(data, pos, k, order) == n,
{
    lemma_val_of_ord_bytes(n, k, order);
}

/// A window into bytes that hold `e` from `pos` on shows the matching
/// part of `e`.
proof fn lemma_subrange_of_prefix(data: Seq<u8>, pos: int, e: Seq<u8>, a: int, b: int)
    requires
        0 <= pos,
        pos + e.len() <= data.len(),
        data.subrange(pos, pos + e.len()) == e,
        0 <= a <= b <= e.len(),
    ensures
        data.subrange(pos + a, pos + b) == e.subrange(a, b),
{
    let w = data.subrange(pos, pos + e.len() as int);
    assert forall|i: int| 0 <= i < b - a implies data.subrange(pos + a, pos + b)[i]
        == e.subrange(a, b)[i] by {
        assert(data.subrange(pos + a, pos + b)[i] == data[pos + a + i]);
        assert(w[a + i] == data[pos + a + i]);
        assert(e[a + i] == e.subrange(a, b)[i]);
    }
    assert(data.subrange(pos + a, pos + b) =~= e.subrange(a, b));
}

/// A single byte is its own one-byte layout in either ordering.
proof fn lemma_byte_ord(x: u8, order: ByteOrder)
    ensures
        ord_bytes(x as nat, 1, order) == seq![x],
{
    reveal_with_fuel(crate::bytes::le_bytes, 3);
    assert(crate::bytes::le_bytes(x as nat, 1) =~= seq![x]);
    if order is BigEndian {
        assert(seq![x].reverse() =~= seq![x]);
    }
}

/// As [`lemma_rt`], for the fixed-width leaves.
#[verifier::spinoff_prover]
proof fn lemma_rt_atom(
    v: SpecValue,
    shape: Shape,
    data: Seq<u8>,
    pos: int,
    limit: int,
    order: ByteOrder,
)
    requires
        matches_shape(v, shape),
        v is U8 || v is U16 || v is U32 || v is U64 || v is I8 || v is I16 || v is I32
            || v is I64 || v is Bool || v is Char,
        0 <= pos <= limit <= data.len(),
        enc(v, order).len() <= limit - pos,
        data.subrange(pos, pos + enc(v, order).len()) == enc(v, order),
    ensures
        dec(shape, data, pos, limit, order) == Ok::<_, ErrorKind>((v, pos + enc_len(v))),
{
    lemma_enc_len(v, order);
    let e = enc(v, order);
    reveal_with_fuel(pow256, 9);
    match v {
        SpecValue::U8(x) => {
            lemma_byte_ord(x, order);
            assert(data.subrange(pos, pos + 1) =~= e);
            lemma_rd_at(data, pos, 1, x as nat, order);
        },
        SpecValue::U16(x) => {
            lemma_rd_at(data, pos, 2, x as nat, order);
        },
        SpecValue::U32(x) => {
            lemma_rd_at(data, pos, 4, x as nat, order);
        },
        SpecValue::U64(x) => {
            lemma_rd_at(data, pos, 8, x as nat, order);
        },
        SpecValue::I8(x) => {
            lemma_rd_at(data, pos, 1, u_rep8(x), order);
            assert(i8_of(u_rep8(x)) == x);
        },
        SpecValue::I16(x) => {
            lemma_rd_at(data, pos, 2, u_rep16(x), order);
            assert(i16_of(u_rep16(x)) == x);
        },
        SpecValue::I32(x) => {
            lemma_rd_at(data, pos, 4, u_rep32(x), order);
            assert(i32_of(u_rep32(x)) == x);
        },
        SpecValue::I64(x) => {
            lemma_rd_at(data, pos, 8, u_rep64(x), order);
            assert(i64_of(u_rep64(x)) == x);
        },
        SpecValue::Bool(b) => {
            assert(data[pos] == e[0]);
        },
        SpecValue::Char(c) => {
            lemma_rd_at(data, pos, 4, (c as u32) as nat, order);
            vstd::utf8::char_is_scalar(c);
            vstd::utf8::char_u32_cast(c, c as u32);
        },
        _ => {},
    }
}

/// Decoding an encoding in place: if the bytes from `pos` begin with
/// `enc(v, order)` and `v` matches `shape`, decoding returns `v` and
/// stops right after it.
#[verifier::rlimit(100)]
#[verifier::spinoff_prover]
proof fn lemma_rt(
    v: SpecValue,
    shape: Shape,
    data: Seq<u8>,
    pos: int,
    limit: int,
    order: ByteOrder,
)
    requires
        wf(v),
        fits(v),
        matches_shape(v, shape),
        0 <= pos <= limit <= data.len(),
        enc(v, order).len() <= limit - pos,
        data.subrange(pos, pos + enc(v, order).len()) == enc(v, order),
    ensures
        dec(shape, data, pos, limit, order) == Ok::<_, ErrorKind>((v, pos + enc_len(v))),
    decreases v, 0int,
{
    lemma_enc_len(v, order);
    let e = enc(v, order);
    match v {
        SpecValue::U8(_) | SpecValue::U16(_) | SpecValue::U32(_) | SpecValue::U64(_)
            | SpecValue::I8(_) | SpecValue::I16(_) | SpecValue::I32(_) | SpecValue::I64(_)
            | SpecValue::Bool(_) | SpecValue::Char(_) => {
            lemma_rt_atom(v, shape, data, pos, limit, order);
        },
        SpecValue::Text(b, w) => {
            lemma_rt_text_arm(b, w, shape, data, pos, limit, order);
        },
        SpecValue::Tuple(vs) => {
            let ss = shape->Tuple_0;
            lemma_rt_tuple(vs, ss@, data, pos, limit, order);
        },
        SpecValue::List(vs, w) => {
            lemma_rt_list_arm(vs, w, shape, data, pos, limit, order);
        },
        SpecValue::SizedList(vs, w) => {
            lemma_rt_sizedlist_arm(vs, w, shape, data, pos, limit, order);
        },
        SpecValue::Union(t, p) => {
            assert(data[pos] == e[0]);
            let ss = shape->Union_0;
            let pe = enc(*p, order);
            lemma_enc_len(*p, order);
            lemma_subrange_of_prefix(data, pos, e, 1, 1 + pe.len() as int);
            assert(e.subrange(1, 1 + pe.len() as int) =~= pe);
            lemma_rt(*p, ss@[t as int], data, pos + 1, limit, order);
            assert(SpecValue::Union(t, Box::new(*p)) == v);
        },
    }
}

/// As [`lemma_rt`], for a text field.
#[verifier::spinoff_prover]
proof fn lemma_rt_text_arm(
    b: Seq<u8>,
    w: PrefixWidth,
    shape: Shape,
    data: Seq<u8>,
    pos: int,
    limit: int,
    order: ByteOrder,
)
    requires
        wf(SpecValue::Text(b, w)),
        fits(SpecValue::Text(b, w)),
        matches_shape(SpecValue::Text(b, w), shape),
        0 <= pos <= limit <= data.len(),
        enc(SpecValue::Text(b, w), order).len() <= limit - pos,
        data.subrange(pos, pos + enc(SpecValue::Text(b, w), order).len()) == enc(
            SpecValue::Text(b, w),
            order,
        ),
    ensures
        dec(shape, data, pos, limit, order) == Ok::<_, ErrorKind>(
            (SpecValue::Text(b, w), pos + enc_len(SpecValue::Text(b, w))),
        ),
{
    let e = enc(SpecValue::Text(b, w), order);
    lemma_width_max(w);
    let k = w.nbytes() as int;
    lemma_le_bytes_len(b.len(), w.nbytes());
    assert(data.subrange(pos, pos + k) =~= ord_bytes(b.len(), w.nbytes(), order));
    lemma_rd_at(data, pos, k as nat, b.len(), order);
    lemma_subrange_of_prefix(data, pos, e, k, k + b.len() as int);
    assert(e.subrange(k, k + b.len() as int) =~= b);
}

/// As [`lemma_rt`], for a count-prefixed list.
#[verifier::spinoff_prover]
proof fn lemma_rt_list_arm(
    vs: Seq<SpecValue>,
    w: PrefixWidth,
    shape: Shape,
    data: Seq<u8>,
    pos: int,
    limit: int,
    order: ByteOrder,
)
    requires
        wf(SpecValue::List(vs, w)),
        fits(SpecValue::List(vs, w)),
        matches_shape(SpecValue::List(vs, w), shape),
        0 <= pos <= limit <= data.len(),
        enc(SpecValue::List(vs, w), order).len() <= limit - pos,
        data.subrange(pos, pos + enc(SpecValue::List(vs, w), order).len()) == enc(
            SpecValue::List(vs, w),
            order,
        ),
    ensures
        dec(shape, data, pos, limit, order) == Ok::<_, ErrorKind>(
            (SpecValue::List(vs, w), pos + enc_len(SpecValue::List(vs, w))),
        ),
    decreases vs, 1int,
{
    let e = enc(SpecValue::List(vs, w), order);
    lemma_enc_len(SpecValue::List(vs, w), order);
    let es = shape->List_0;
    lemma_width_max(w);
    let k = w.nbytes() as int;
    lemma_le_bytes_len(vs.len(), w.nbytes());
    lemma_enc_len_list(vs, order);
    assert(data.subrange(pos, pos + k) =~= ord_bytes(vs.len(), w.nbytes(), order));
    lemma_rd_at(data, pos, k as nat, vs.len(), order);
    lemma_subrange_of_prefix(data, pos, e, k, k + enc_list(vs, order).len() as int);
    assert(e.subrange(k, k + enc_list(vs, order).len() as int) =~= enc_list(vs, order));
    lemma_rt_count(vs, *es, data, pos + k, limit, order);
}

/// As [`lemma_rt`], for a size-prefixed list.
#[verifier::spinoff_prover]
proof fn lemma_rt_sizedlist_arm(
    vs: Seq<SpecValue>,
    w: PrefixWidth,
    shape: Shape,
    data: Seq<u8>,
    pos: int,
    limit: int,
    order: ByteOrder,
)
    requires
        wf(SpecValue::SizedList(vs, w)),
        fits(SpecValue::SizedList(vs, w)),
        matches_shape(SpecValue::SizedList(vs, w), shape),
        0 <= pos <= limit <= data.len(),
        enc(SpecValue::SizedList(vs, w), order).len() <= limit - pos,
        data.subrange(pos, pos + enc(SpecValue::SizedList(vs, w), order).len()) == enc(
            SpecValue::SizedList(vs, w),
            order,
        ),
    ensures
        dec(shape, data, pos, limit, order) == Ok::<_, ErrorKind>(
            (SpecValue::SizedList(vs, w), pos + enc_len(SpecValue::SizedList(vs, w))),
        ),
    decreases vs, 1int,
{
    let e = enc(SpecValue::SizedList(vs, w), order);
    lemma_enc_len(SpecValue::SizedList(vs, w), order);
    let es = shape->SizedList_0;
    lemma_width_max(w);
    let k = w.nbytes() as int;
    lemma_le_bytes_len(enc_len_list(vs), w.nbytes());
    lemma_enc_len_list(vs, order);
    assert(data.subrange(pos, pos + k) =~= ord_bytes(enc_len_list(vs), w.nbytes(), order));
    lemma_rd_at(data, pos, k as nat, enc_len_list(vs), order);
    lemma_subrange_of_prefix(data, pos, e, k, k + enc_list(vs, order).len() as int);
    assert(e.subrange(k, k + enc_list(vs, order).len() as int) =~= enc_list(vs, order));
    lemma_rt_sized(vs, *es, data, pos + k, order);
}

/// As [`lemma_rt`], for the fields of a tuple.
proof fn lemma_rt_tuple(
    vs: Seq<SpecValue>,
    ss: Seq<Shape>,
    data: Seq<u8>,
    pos: int,
    limit: int,
    order: ByteOrder,
)
    requires
        wf_all(vs),
        fits_all(vs),
        matches_tuple(vs, ss),
        0 <= pos <= limit <= data.len(),
        enc_list(vs, order).len() <= limit - pos,
        data.subrange(pos, pos + enc_list(vs, order).len()) == enc_list(vs, order),
    ensures
        dec_tuple(ss, data, pos, limit, order) == Ok::<_, ErrorKind>(
            (vs, pos + enc_len_list(vs)),
        ),
    decreases vs, 0int,
{
    lemma_enc_len_list(vs, order);
    if vs.len() == 0 {
        assert(vs =~= Seq::<SpecValue>::empty());
    } else {
        let e0 = enc(vs[0], order);
        let rest = enc_list(vs.drop_first(), order);
        lemma_enc_len(vs[0], order);
        lemma_enc_len_list(vs.drop_first(), order);
        let el = enc_list(vs, order);
        lemma_subrange_of_prefix(data, pos, el, 0, e0.len() as int);
        assert(el.subrange(0, e0.len() as int) =~= e0);
        lemma_rt(vs[0], ss[0], data, pos, limit, order);
        let p = pos + e0.len() as int;
        lemma_subrange_of_prefix(data, pos, el, e0.len() as int, el.len() as int);
        assert(el.subrange(e0.len() as int, el.len() as int) =~= rest);
        lemma_rt_tuple(vs.drop_first(), ss.drop_first(), data, p, limit, order);
        assert(seq![vs[0]] + vs.drop_first() =~= vs);
    }
}

/// As [`lemma_rt`], for a counted run of `vs.len()` elements.
proof fn lemma_rt_count(
    vs: Seq<SpecValue>,
    es: Shape,
    data: Seq<u8>,
    pos: int,
    limit: int,
    order: ByteOrder,
)
    requires
        wf_all(vs),
        fits_all(vs),
        matches_all(vs, es),
        0 <= pos <= limit <= data.len(),
        enc_list(vs, order).len() <= limit - pos,
        data.subrange(pos, pos + enc_list(vs, order).len()) == enc_list(vs, order),
    ensures
        dec_count(es, vs.len(), data, pos, limit, order) == Ok::<_, ErrorKind>(
            (vs, pos + enc_len_list(vs)),
        ),
    decreases vs, 0int,
{
    lemma_enc_len_list(vs, order);
    if vs.len() == 0 {
        assert(vs =~= Seq::<SpecValue>::empty());
    } else {
        let e0 = enc(vs[0], order);
        let rest = enc_list(vs.drop_first(), order);
        lemma_enc_len(vs[0], order);
        lemma_enc_len_list(vs.drop_first(), order);
        let el = enc_list(vs, order);
        lemma_subrange_of_prefix(data, pos, el, 0, e0.len() as int);
        assert(el.subrange(0, e0.len() as int) =~= e0);
        lemma_rt(vs[0], es, data, pos, limit, order);
        let p = pos + e0.len() as int;
        lemma_subrange_of_prefix(data, pos, el, e0.len() as int, el.len() as int);
        assert(el.subrange(e0.len() as int, el.len() as int) =~= rest);
        lemma_rt_count(vs.drop_first(), es, data, p, limit, order);
        assert(seq![vs[0]] + vs.drop_first() =~= vs);
    }
}

/// As [`lemma_rt`], for a size-prefixed run: the byte budget is the
/// exact summed size, so decoding consumes it exactly.
proof fn lemma_rt_sized(
    vs: Seq<SpecValue>,
    es: Shape,
    data: Seq<u8>,
    pos: int,
    order: ByteOrder,
)
    requires
        wf_all(vs),
        fits_all(vs),
        matches_all(vs, es),
        forall|i: int| 0 <= i < vs.len() ==> enc_len(#[trigger] vs[i]) >= 1,
        0 <= pos,
        pos + enc_list(vs, order).len() <= data.len(),
        data.subrange(pos, pos + enc_list(vs, order).len()) == enc_list(vs, order),
    ensures
        dec_sized(es, data, pos, pos + enc_len_list(vs), order) == Ok::<_, ErrorKind>(
            (vs, pos + enc_len_list(vs)),
        ),
    decreases vs, 0int,
{
    lemma_enc_len_list(vs, order);
    let end = pos + enc_len_list(vs);
    if vs.len() == 0 {
        assert(vs =~= Seq::<SpecValue>::empty());
    } else {
        let e0 = enc(vs[0], order);
        let rest = enc_list(vs.drop_first(), order);
        lemma_enc_len(vs[0], order);
        lemma_enc_len_list(vs.drop_first(), order);
        assert(enc_len(vs[0]) >= 1);
        assert(pos < end);
        let el = enc_list(vs, order);
        lemma_subrange_of_prefix(data, pos, el, 0, e0.len() as int);
        assert(el.subrange(0, e0.len() as int) =~= e0);
        lemma_rt(vs[0], es, data, pos, end, order);
        let p = pos + e0.len() as int;
        lemma_subrange_of_prefix(data, pos, el, e0.len() as int, el.len() as int);
        assert(el.subrange(e0.len() as int, el.len() as int) =~= rest);
        assert forall|i: int| 0 <= i < vs.drop_first().len() implies enc_len(
            #[trigger] vs.drop_first()[i],
        ) >= 1 by {
            assert(vs.drop_first()[i] == vs[i + 1]);
        }
        lemma_rt_sized(vs.drop_first(), es, data, p, order);
        assert(seq![vs[0]] + vs.drop_first() =~= vs);
    }
}

/// The head of a window that holds a prefix of `e` shows the head of
/// `e`.
proof fn lemma_window_head(data: Seq<u8>, pos: int, limit: int, e: Seq<u8>, k: int)
    requires
        0 <= pos <= limit <= data.len(),
        limit - pos <= e.len(),
        data.subrange(pos, limit) == e.take(limit - pos),
        0 <= k <= limit - pos,
    ensures
        data.subrange(pos, pos + k) == e.take(k),
{
    let w = data.subrange(pos, limit);
    assert forall|i: int| 0 <= i < k implies data.subrange(pos, pos + k)[i] == e.take(k)[i] by {
        assert(data.subrange(pos, pos + k)[i] == data[pos + i]);
        assert(w[i] == data[pos + i]);
    }
    assert(data.subrange(pos, pos + k) =~= e.take(k));
}

/// Stepping a window that holds a prefix of `e` forward by `a` bytes
/// leaves a window that holds a prefix of `e.skip(a)`.
proof fn lemma_window_shift(data: Seq<u8>, pos: int, limit: int, e: Seq<u8>, a: int)
    requires
        0 <= pos <= limit <= data.len(),
        limit - pos <= e.len(),
        data.subrange(pos, limit) == e.take(limit - pos),
        0 <= a <= limit - pos,
    ensures
        data.subrange(pos + a, limit) == e.skip(a).take(limit - pos - a),
{
    let w = data.subrange(pos, limit);
    assert forall|i: int| 0 <= i < limit - pos - a implies #[trigger] data.subrange(
        pos + a,
        limit,
    )[i] == e.skip(a).take(limit - pos - a)[i] by {
        assert(data.subrange(pos + a, limit)[i] == data[pos + a + i]);
        assert(w[a + i] == data[pos + a + i]);
        assert(e.skip(a)[i] == e[a + i]);
    }
    assert(data.subrange(pos + a, limit) =~= e.skip(a).take(limit - pos - a));
}

/// Decoding against a window that cuts the encoding of `v` short is
/// `Truncated`: never another error, never a value built from the part
/// that is there.
#[verifier::rlimit(100)]
#[verifier::spinoff_prover]
proof fn lemma_tr(
    v: SpecValue,
    shape: Shape,
    data: Seq<u8>,
    pos: int,
    limit: int,
    order: ByteOrder,
)
    requires
        wf(v),
        fits(v),
        matches_shape(v, shape),
        0 <= pos <= limit <= data.len(),
        limit - pos < enc(v, order).len(),
        data.subrange(pos, limit) == enc(v, order).take(limit - pos),
    ensures
        dec(shape, data, pos, limit, order) == Err::<(SpecValue, int), _>(ErrorKind::Truncated),
    decreases v, 0int,
{
    lemma_enc_len(v, order);
    let e = enc(v, order);
    let m = limit - pos;
    match v {
        SpecValue::U8(_) | SpecValue::I8(_) | SpecValue::Bool(_) => {},
        SpecValue::U16(_) | SpecValue::I16(_) => {},
        SpecValue::U32(_) | SpecValue::I32(_) => {},
        SpecValue::U64(_) | SpecValue::I64(_) => {},
        SpecValue::Char(_) => {},
        SpecValue::Text(b, w) => {
            lemma_width_max(w);
            let k = w.nbytes() as int;
            if m >= k {
                lemma_window_head(data, pos, limit, e, k);
                assert(e.take(k) =~= ord_bytes(b.len(), w.nbytes(), order)) by {
                    lemma_le_bytes_len(b.len(), w.nbytes());
                }
                lemma_rd_at(data, pos, k as nat, b.len(), order);
            }
        },
        SpecValue::Tuple(vs) => {
            let ss = shape->Tuple_0;
            lemma_tr_tuple(vs, ss@, data, pos, limit, order);
        },
        SpecValue::List(vs, w) => {
            let es = shape->List_0;
            lemma_width_max(w);
            let k = w.nbytes() as int;
            lemma_enc_len_list(vs, order);
            if m >= k {
                lemma_window_head(data, pos, limit, e, k);
                assert(e.take(k) =~= ord_bytes(vs.len(), w.nbytes(), order)) by {
                    lemma_le_bytes_len(vs.len(), w.nbytes());
                }
                lemma_rd_at(data, pos, k as nat, vs.len(), order);
                lemma_window_shift(data, pos, limit, e, k);
                assert(e.skip(k) =~= enc_list(vs, order)) by {
                    lemma_le_bytes_len(vs.len(), w.nbytes());
                }
                lemma_tr_count(vs, *es, data, pos + k, limit, order);
            }
        },
        SpecValue::SizedList(vs, w) => {
            lemma_width_max(w);
            let k = w.nbytes() as int;
            lemma_enc_len_list(vs, order);
            if m >= k {
                lemma_window_head(data, pos, limit, e, k);
                assert(e.take(k) =~= ord_bytes(enc_len_list(vs), w.nbytes(), order)) by {
                    lemma_le_bytes_len(enc_len_list(vs), w.nbytes());
                }
                lemma_rd_at(data, pos, k as nat, enc_len_list(vs), order);
            }
        },
        SpecValue::Union(t, p) => {
            let ss = shape->Union_0;
            let pe = enc(*p, order);
            lemma_enc_len(*p, order);
            if m >= 1 {
                assert(data[pos] == e[0]);
                lemma_window_shift(data, pos, limit, e, 1);
                assert(e.skip(1) =~= pe);
                lemma_tr(*p, ss@[t as int], data, pos + 1, limit, order);
            }
        },
    }
}

/// As [`lemma_tr`], for the fields of a tuple: the cut falls inside
/// some field, and decoding reaches it and reports `Truncated`.
proof fn lemma_tr_tuple(
    vs: Seq<SpecValue>,
    ss: Seq<Shape>,
    data: Seq<u8>,
    pos: int,
    limit: int,
    order: ByteOrder,
)
    requires
        wf_all(vs),
        fits_all(vs),
        matches_tuple(vs, ss),
        0 <= pos <= limit <= data.len(),
        limit - pos < enc_list(vs, order).len(),
        data.subrange(pos, limit) == enc_list(vs, order).take(limit - pos),
    ensures
        dec_tuple(ss, data, pos, limit, order) == Err::<(Seq<SpecValue>, int), _>(
            ErrorKind::Truncated,
        ),
    decreases vs, 0int,
{
    let el = enc_list(vs, order);
    let m = limit - pos;
    let e0 = enc(vs[0], order);
    let rest = enc_list(vs.drop_first(), order);
    lemma_enc_len(vs[0], order);
    if m < e0.len() {
        assert(el.take(m) =~= e0.take(m));
        lemma_tr(vs[0], ss[0], data, pos, limit, order);
    } else {
        lemma_window_head(data, pos, limit, el, e0.len() as int);
        assert(el.take(e0.len() as int) =~= e0);
        assert(data.subrange(pos, pos + e0.len() as int) =~= e0);
        lemma_rt(vs[0], ss[0], data, pos, limit, order);
        let p = pos + e0.len() as int;
        lemma_window_shift(data, pos, limit, el, e0.len() as int);
        assert(el.skip(e0.len() as int) =~= rest);
        lemma_tr_tuple(vs.drop_first(), ss.drop_first(), data, p, limit, order);
    }
}

/// As [`lemma_tr`], for a counted run of `vs.len()` elements.
proof fn lemma_tr_count(
    vs: Seq<SpecValue>,
    es: Shape,
    data: Seq<u8>,
    pos: int,
    limit: int,
    order: ByteOrder,
)
    requires
        wf_all(vs),
        fits_all(vs),
        matches_all(vs, es),
        0 <= pos <= limit <= data.len(),
        limit - pos < enc_list(vs, order).len(),
        data.subrange(pos, limit) == enc_list(vs, order).take(limit - pos),
    ensures
        dec_count(es, vs.len(), data, pos, limit, order) == Err::<(Seq<SpecValue>, int), _>(
            ErrorKind::Truncated,
        ),
    decreases vs, 0int,
{
    let el = enc_list(vs, order);
    let m = limit - pos;
    let e0 = enc(vs[0], order);
    let rest = enc_list(vs.drop_first(), order);
    lemma_enc_len(vs[0], order);
    if m < e0.len() {
        assert(el.take(m) =~= e0.take(m));
        lemma_tr(vs[0], es, data, pos, limit, order);
    } else {
        lemma_window_head(data, pos, limit, el, e0.len() as int);
        assert(el.take(e0.len() as int) =~= e0);
        assert(data.subrange(pos, pos + e0.len() as int) =~= e0);
        lemma_rt(vs[0], es, data, pos, limit, order);
        let p = pos + e0.len() as int;
        lemma_window_shift(data, pos, limit, el, e0.len() as int);
        assert(el.skip(e0.len() as int) =~= rest);
        lemma_tr_count(vs.drop_first(), es, data, p, limit, order);
        assert(vs.drop_first().len() == vs.len() - 1);
    }
}

/// Truncation: decoding any strict prefix of the encoding of a
/// well-formed, fitting value against its shape reports `Truncated` —
/// never another error and never a value built from the part that is
/// there.
pub proof fn lemma_decode_truncated(v: SpecValue, shape: Shape, cut: int, order: ByteOrder)
    requires
        wf(v),
        fits(v),
        matches_shape(v, shape),
        0 <= cut < enc(v, order).len(),
    ensures
        dec(shape, enc(v, order).take(cut), 0, cut, order) == Err::<(SpecValue, int), _>(
            ErrorKind::Truncated,
        ),
{
    let data = enc(v, order).take(cut);
    assert(data.subrange(0, cut) =~= enc(v, order).take(cut));
    lemma_tr(v, shape, data, 0, cut, order);
}

/// Round-trip: decoding the encoding of any well-formed, fitting value
/// against its own shape, under the same ordering and with any bytes
/// following it, returns exactly that value and consumes exactly its
/// encoding.
pub proof fn lemma_decode_encoded(v: SpecValue, shape: Shape, rest: Seq<u8>, order: ByteOrder)
    requires
        wf(v),
        fits(v),
        matches_shape(v, shape),
    ensures
        dec(shape, enc(v, order) + rest, 0, (enc(v, order) + rest).len() as int, order)
            == Ok::<_, ErrorKind>((v, enc_len(v) as int)),
{
    let data = enc(v, order) + rest;
    lemma_enc_len(v, order);
    assert(data.subrange(0, enc(v, order).len() as int) =~= enc(v, order));
    lemma_rt(v, shape, data, 0, data.len() as int, order);
}

/// What a read field looks like written back: the bytes are canonical.
proof fn lemma_rd_canon(data: Seq<u8>, pos: int, k: nat, order: ByteOrder)
    requires
        0 <= pos,
        pos + k <= data.len(),
    ensures
        ord_bytes(rd(data, pos, k, order), k, order) == data.subrange(pos, pos + k),
        rd(data, pos, k, order) < pow256(k),
{
    let s = data.subrange(pos, pos + k);
    crate::bytes::lemma_ord_bytes_val_of(s, order);
    match order {
        ByteOrder::LittleEndian => {
            crate::bytes::lemma_le_val_bound(s);
        },
        ByteOrder::BigEndian => {
            crate::bytes::lemma_le_val_bound(s.reverse());
        },
    }
}

/// Adjacent windows join.
proof fn lemma_subrange_concat(data: Seq<u8>, a: int, b: int, c: int)
    requires
        0 <= a <= b <= c <= data.len(),
    ensures
        data.subrange(a, c) == data.subrange(a, b) + data.subrange(b, c),
{
    assert(data.subrange(a, c) =~= data.subrange(a, b) + data.subrange(b, c));
}

/// What it means for one decoding step to be sound: a success stands
/// for a well-formed, fitting value of the expected shape whose
/// encoding is exactly the bytes consumed.
pub open spec fn sound_at(
    shape: Shape,
    data: Seq<u8>,
    pos: int,
    limit: int,
    order: ByteOrder,
) -> bool {
    match dec(shape, data, pos, limit, order) {
        Ok((v, p)) => {
            &&& pos <= p <= limit
            &&& matches_shape(v, shape)
            &&& wf(v)
            &&& fits(v)
            &&& p - pos == enc_len(v)
            &&& data.subrange(pos, p) == enc(v, order)
        },
        Err(_) => true,
    }
}

/// As [`sound_at`], for a run of elements.
pub open spec fn sound_list_at(
    d: Result<(Seq<SpecValue>, int), ErrorKind>,
    data: Seq<u8>,
    pos: int,
    limit: int,
    order: ByteOrder,
) -> bool {
    match d {
        Ok((vs, p)) => {
            &&& pos <= p <= limit
            &&& wf_all(vs)
            &&& fits_all(vs)
            &&& p - pos == enc_len_list(vs)
            &&& data.subrange(pos, p) == enc_list(vs, order)
        },
        Err(_) => true,
    }
}

/// As [`lemma_decode_sound`], for the fixed-width leaves.
#[verifier::rlimit(100)]
#[verifier::spinoff_prover]
proof fn lemma_sound_atom(shape: Shape, data: Seq<u8>, pos: int, limit: int, order: ByteOrder)
    requires
        shape is U8 || shape is U16 || shape is U32 || shape is U64 || shape is I8
            || shape is I16 || shape is I32 || shape is I64 || shape is Bool || shape is Char,
        0 <= pos <= limit <= data.len(),
    ensures
        sound_at(shape, data, pos, limit, order),
{
    reveal_with_fuel(pow256, 9);
    match shape {
        Shape::U8 => {
            if pos + 1 <= limit {
                lemma_rd_canon(data, pos, 1, order);
                let n = rd(data, pos, 1, order);
                lemma_byte_ord(n as u8, order);
            }
        },
        Shape::U16 => {
            if pos + 2 <= limit {
                lemma_rd_canon(data, pos, 2, order);
            }
        },
        Shape::U32 => {
            if pos + 4 <= limit {
                lemma_rd_canon(data, pos, 4, order);
            }
        },
        Shape::U64 => {
            if pos + 8 <= limit {
                lemma_rd_canon(data, pos, 8, order);
            }
        },
        Shape::I8 => {
            if pos + 1 <= limit {
                lemma_rd_canon(data, pos, 1, order);
                let n = rd(data, pos, 1, order);
                assert(u_rep8(i8_of(n)) == n);
            }
        },
        Shape::I16 => {
            if pos + 2 <= limit {
                lemma_rd_canon(data, pos, 2, order);
                let n = rd(data, pos, 2, order);
                assert(u_rep16(i16_of(n)) == n);
            }
        },
        Shape::I32 => {
            if pos + 4 <= limit {
                lemma_rd_canon(data, pos, 4, order);
                let n = rd(data, pos, 4, order);
                assert(u_rep32(i32_of(n)) == n);
            }
        },
        Shape::I64 => {
            if pos + 8 <= limit {
                lemma_rd_canon(data, pos, 8, order);
                let n = rd(data, pos, 8, order);
                assert(u_rep64(i64_of(n)) == n);
            }
        },
        Shape::Bool => {
            if pos + 1 <= limit {
                if data[pos] == 0 || data[pos] == 1 {
                    assert(data.subrange(pos, pos + 1) =~= seq![data[pos]]);
                }
            }
        },
        Shape::Char => {
            if pos + 4 <= limit {
                lemma_rd_canon(data, pos, 4, order);
                let n = rd(data, pos, 4, order);
                if vstd::utf8::is_scalar(n as u32) {
                    assert(((n as u32) as char) as u32 == n as u32);
                }
            }
        },
        _ => {},
    }
}

/// Soundness: whatever bytes are handed to the decoder, a decoded
/// value re-encodes to exactly the bytes that were consumed — decoding
/// never builds a value from misaligned or partial input.
#[verifier::rlimit(100)]
#[verifier::spinoff_prover]
pub proof fn lemma_decode_sound(
    shape: Shape,
    data: Seq<u8>,
    pos: int,
    limit: int,
    order: ByteOrder,
)
    requires
        0 <= pos <= limit <= data.len(),
    ensures
        sound_at(shape, data, pos, limit, order),
    decreases shape, 0int,
{
    match shape {
        Shape::U8 | Shape::U16 | Shape::U32 | Shape::U64 | Shape::I8 | Shape::I16 | Shape::I32
            | Shape::I64 | Shape::Bool | Shape::Char => {
            lemma_sound_atom(shape, data, pos, limit, order);
        },
        Shape::Text(w) => {
            lemma_width_max(w);
            let k = w.nbytes() as int;
            if pos + k <= limit {
                lemma_rd_canon(data, pos, k as nat, order);
                let n = rd(data, pos, k as nat, order) as int;
                let p = pos + k;
                if p + n <= limit {
                    lemma_subrange_concat(data, pos, p, p + n);
                }
            }
        },
        Shape::Tuple(ss) => {
            lemma_decode_sound_tuple(ss@, data, pos, limit, order);
        },
        Shape::List(es, w) => {
            lemma_width_max(w);
            let k = w.nbytes() as int;
            if pos + k <= limit {
                lemma_rd_canon(data, pos, k as nat, order);
                let n = rd(data, pos, k as nat, order);
                lemma_decode_sound_count(*es, n, data, pos + k, limit, order);
                match dec_count(*es, n, data, pos + k, limit, order) {
                    Ok((vs, p)) => {
                        lemma_count_len(*es, n, data, pos + k, limit, order);
                        lemma_subrange_concat(data, pos, pos + k, p);
                    },
                    Err(_) => {},
                }
            }
        },
        Shape::SizedList(es, w) => {
            lemma_width_max(w);
            let k = w.nbytes() as int;
            if pos + k <= limit {
                lemma_rd_canon(data, pos, k as nat, order);
                let n = rd(data, pos, k as nat, order) as int;
                let p = pos + k;
                if p + n <= limit {
                    lemma_decode_sound_sized(*es, data, p, p + n, order);
                    match dec_sized(*es, data, p, p + n, order) {
                        Ok((vs, q)) => {
                            lemma_subrange_concat(data, pos, p, q);
                        },
                        Err(_) => {},
                    }
                }
            }
        },
        Shape::Union(ss) => {
            if pos + 1 <= limit {
                let t = data[pos];
                if (t as int) < ss@.len() {
                    lemma_decode_sound(ss@[t as int], data, pos + 1, limit, order);
                    match dec(ss@[t as int], data, pos + 1, limit, order) {
                        Ok((v, p)) => {
                            lemma_subrange_concat(data, pos, pos + 1, p);
                            assert(data.subrange(pos, pos + 1) =~= seq![t]);
                        },
                        Err(_) => {},
                    }
                }
            }
        },
    }
}

/// As [`lemma_decode_sound`], for the fields of a tuple. A success also
/// matches the shapes field for field.
proof fn lemma_decode_sound_tuple(
    ss: Seq<Shape>,
    data: Seq<u8>,
    pos: int,
    limit: int,
    order: ByteOrder,
)
    requires
        0 <= pos <= limit <= data.len(),
    ensures
        sound_list_at(dec_tuple(ss, data, pos, limit, order), data, pos, limit, order),
        dec_tuple(ss, data, pos, limit, order) matches Ok((vs, p)) ==> matches_tuple(vs, ss),
    decreases ss, 0int,
{
    if ss.len() == 0 {
        assert(data.subrange(pos, pos) =~= Seq::<u8>::empty());
        assert(enc_list(Seq::<SpecValue>::empty(), order) =~= Seq::<u8>::empty());
    } else {
        lemma_decode_sound(ss[0], data, pos, limit, order);
        match dec(ss[0], data, pos, limit, order) {
            Ok((v, p)) => {
                lemma_decode_sound_tuple(ss.drop_first(), data, p, limit, order);
                match dec_tuple(ss.drop_first(), data, p, limit, order) {
                    Ok((vs, q)) => {
                        let all = seq![v] + vs;
                        assert(all[0] == v && all.drop_first() =~= vs);
                        lemma_subrange_concat(data, pos, p, q);
                    },
                    Err(_) => {},
                }
            },
            Err(_) => {},
        }
    }
}

/// As [`lemma_decode_sound`], for a counted run. A success also has the
/// demanded element count, each element of the element shape.
proof fn lemma_decode_sound_count(
    es: Shape,
    n: nat,
    data: Seq<u8>,
    pos: int,
    limit: int,
    order: ByteOrder,
)
    requires
        0 <= pos <= limit <= data.len(),
    ensures
        sound_list_at(dec_count(es, n, data, pos, limit, order), data, pos, limit, order),
        dec_count(es, n, data, pos, limit, order) matches Ok((vs, p)) ==> matches_all(vs, es),
    decreases es, n as int,
{
    if n == 0 {
        assert(data.subrange(pos, pos) =~= Seq::<u8>::empty());
        assert(enc_list(Seq::<SpecValue>::empty(), order) =~= Seq::<u8>::empty());
    } else {
        lemma_decode_sound(es, data, pos, limit, order);
        match dec(es, data, pos, limit, order) {
            Ok((v, p)) => {
                lemma_decode_sound_count(es, (n - 1) as nat, data, p, limit, order);
                match dec_count(es, (n - 1) as nat, data, p, limit, order) {
                    Ok((vs, q)) => {
                        let all = seq![v] + vs;
                        assert(all[0] == v && all.drop_first() =~= vs);
                        lemma_subrange_concat(data, pos, p, q);
                    },
                    Err(_) => {},
                }
            },
            Err(_) => {},
        }
    }
}

/// A counted run that succeeds holds exactly the demanded number of
/// elements.
proof fn lemma_count_len(
    es: Shape,
    n: nat,
    data: Seq<u8>,
    pos: int,
    limit: int,
    order: ByteOrder,
)
    ensures
        dec_count(es, n, data, pos, limit, order) matches Ok((vs, p)) ==> vs.len() == n,
    decreases es, n as int,
{
    if n > 0 {
        match dec(es, data, pos, limit, order) {
            Ok((v, p)) => {
                lemma_count_len(es, (n - 1) as nat, data, p, limit, order);
            },
            Err(_) => {},
        }
    }
}

/// As [`lemma_decode_sound`], for a size-prefixed run: a success also
/// consumed the byte budget exactly, with whole elements of at least
/// one byte each.
proof fn lemma_decode_sound_sized(
    es: Shape,
    data: Seq<u8>,
    pos: int,
    end: int,
    order: ByteOrder,
)
    requires
        0 <= pos <= end <= data.len(),
    ensures
        sound_list_at(dec_sized(es, data, pos, end, order), data, pos, end, order),
        dec_sized(es, data, pos, end, order) matches Ok((vs, p)) ==> {
            &&& matches_all(vs, es)
            &&& p == end
            &&& forall|i: int| 0 <= i < vs.len() ==> enc_len(#[trigger] vs[i]) >= 1
        },
    decreases es, end - pos,
{
    if pos >= end {
        assert(data.subrange(pos, pos) =~= Seq::<u8>::empty());
        assert(enc_list(Seq::<SpecValue>::empty(), order) =~= Seq::<u8>::empty());
    } else {
        lemma_decode_sound(es, data, pos, end, order);
        match dec(es, data, pos, end, order) {
            Ok((v, p)) => {
                if pos < p <= end {
                    lemma_decode_sound_sized(es, data, p, end, order);
                    match dec_sized(es, data, p, end, order) {
                        Ok((vs, q)) => {
                            let all = seq![v] + vs;
                            assert(all[0] == v && all.drop_first() =~= vs);
                            lemma_subrange_concat(data, pos, p, q);
                            assert forall|i: int| 0 <= i < all.len() implies enc_len(
                                #[trigger] all[i],
                            ) >= 1 by {
                                if i > 0 {
                                    assert(all[i] == vs[i - 1]);
                                }
                            }
                        },
                        Err(_) => {},
                    }
                }
            },
            Err(_) => {},
        }
    }
}

/// Wire-size fidelity: the byte size a value reports is the length of
/// its encoding, under both orderings.
pub proof fn lemma_wire_size_fidelity(v: SpecValue)
    ensures
        enc(v, ByteOrder::BigEndian).len() == enc_len(v),
        enc(v, ByteOrder::LittleEndian).len() == enc_len(v),
{
    lemma_enc_len(v, ByteOrder::BigEndian);
    lemma_enc_len(v, ByteOrder::LittleEndian);
}

} // verus!

