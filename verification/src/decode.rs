use vstd::prelude::*;

use vstd::slice::{slice_subrange, slice_to_vec};

use crate::bytes::{pow256, read_uint};
use crate::error::{corresponds, error_of, Error, ErrorKind};
use crate::order::ByteOrder;
use crate::text::is_utf8_text;
use crate::value::{lemma_vals_of_push, val_of, vals_of, Shape, SpecValue, Value};
use crate::wire::{dec, dec_count, dec_sized, dec_tuple};

verus! {

/// Relies on `char::from_u32`: it returns the `char` with the given
/// code point exactly when the value is a Unicode scalar (at most
/// 0x10FFFF and not a surrogate), and `None` otherwise.
pub assume_specification[ char::from_u32 ](i: u32) -> (r: Option<char>)
    ensures
        vstd::utf8::is_scalar(i) <==> r is Some,
        r matches Some(c) ==> c as u32 == i,
;

/// True when the decoder's result `r` is what the wire-format
/// specification `d` demands: the same value and end position on
/// success, an error of the demanded kind on failure.
pub open spec fn mirrors(r: Result<(Value, usize), Error>, d: Result<
    (SpecValue, int),
    ErrorKind,
>) -> bool {
    match r {
        Ok((v, p)) => d matches Ok((sv, sp)) && val_of(v) == sv && p == sp,
        Err(e) => d matches Err(k) && corresponds(e, k),
    }
}

/// As [`mirrors`], for a list of decoded elements.
pub open spec fn mirrors_list(r: Result<(Vec<Value>, usize), Error>, d: Result<
    (Seq<SpecValue>, int),
    ErrorKind,
>) -> bool {
    match r {
        Ok((vs, p)) => d matches Ok((svs, sp)) && vals_of(vs@) == svs && p == sp,
        Err(e) => d matches Err(k) && corresponds(e, k),
    }
}

/// Decodes one value of shape `shape` from `data` at `pos`, never
/// reading at or past `limit`: exactly what the specification `dec`
/// names, value for value and error kind for error kind.
#[verifier::rlimit(100)]
#[verifier::spinoff_prover]
pub fn decode_value(data: &[u8], pos: usize, limit: usize, shape: &Shape, order: ByteOrder) -> (r:
    Result<(Value, usize), Error>)
    requires
        pos <= limit <= data@.len(),
    ensures
        mirrors(r, dec(*shape, data@, pos as int, limit as int, order)),
        r matches Ok((v, p)) ==> pos <= p <= limit,
    decreases *shape, 0int,
{
    match shape {
        Shape::U8 => {
            if limit - pos < 1 {
                return Err(Error::Truncated);
            }
            let n = read_uint(data, pos, 1, order);
            Ok((Value::U8(n as u8), pos + 1))
        },
        Shape::U16 => {
            if limit - pos < 2 {
                return Err(Error::Truncated);
            }
            let n = read_uint(data, pos, 2, order);
            Ok((Value::U16(n as u16), pos + 2))
        },
        Shape::U32 => {
            if limit - pos < 4 {
                return Err(Error::Truncated);
            }
            let n = read_uint(data, pos, 4, order);
            Ok((Value::U32(n as u32), pos + 4))
        },
        Shape::U64 => {
            if limit - pos < 8 {
                return Err(Error::Truncated);
            }
            let n = read_uint(data, pos, 8, order);
            Ok((Value::U64(n), pos + 8))
        },
        Shape::I8 => {
            if limit - pos < 1 {
                return Err(Error::Truncated);
            }
            let n = read_uint(data, pos, 1, order);
            let x: i8 = if n < 0x80 {
                n as i8
            } else {
                ((n as i16) - 0x100) as i8
            };
            Ok((Value::I8(x), pos + 1))
        },
        Shape::I16 => {
            if limit - pos < 2 {
                return Err(Error::Truncated);
            }
            let n = read_uint(data, pos, 2, order);
            let x: i16 = if n < 0x8000 {
                n as i16
            } else {
                ((n as i32) - 0x1_0000) as i16
            };
            Ok((Value::I16(x), pos + 2))
        },
        Shape::I32 => {
            if limit - pos < 4 {
                return Err(Error::Truncated);
            }
            let n = read_uint(data, pos, 4, order);
            let x: i32 = if n < 0x8000_0000 {
                n as i32
            } else {
                ((n as i64) - 0x1_0000_0000) as i32
            };
            Ok((Value::I32(x), pos + 4))
        },
        Shape::I64 => {
            if limit - pos < 8 {
                return Err(Error::Truncated);
            }
            let n = read_uint(data, pos, 8, order);
            let x: i64 = if n < 0x8000_0000_0000_0000 {
                n as i64
            } else {
                ((n as i128) - 0x1_0000_0000_0000_0000) as i64
            };
            Ok((Value::I64(x), pos + 8))
        },
        Shape::Bool => {
            if limit - pos < 1 {
                return Err(Error::Truncated);
            }
            let b = data[pos];
            if b == 0 {
                Ok((Value::Bool(false), pos + 1))
            } else if b == 1 {
                Ok((Value::Bool(true), pos + 1))
            } else {
                Err(Error::InvalidDiscriminant)
            }
        },
        Shape::Char => {
            if limit - pos < 4 {
                return Err(Error::Truncated);
            }
            let n = read_uint(data, pos, 4, order);
            proof {
                assert(pow256(4) == 0x1_0000_0000) by {
                    reveal_with_fuel(pow256, 5);
                }
            }
            let u = n as u32;
            match char::from_u32(u) {
                Some(c) => {
                    proof {
                        vstd::utf8::char_u32_cast(c, u);
                    }
                    Ok((Value::Char(c), pos + 4))
                },
                None => Err(Error::InvalidDiscriminant),
            }
        },
        Shape::Text(w) => {
            let k = w.byte_count();
            if limit - pos < k {
                return Err(Error::Truncated);
            }
            let n64 = read_uint(data, pos, k, order);
            let p = pos + k;
            if n64 > (limit - p) as u64 {
                return Err(Error::Truncated);
            }
            let n = n64 as usize;
            let sub = slice_subrange(data, p, p + n);
            if is_utf8_text(sub) {
                let bytes = slice_to_vec(sub);
                Ok((Value::Text(bytes, *w), p + n))
            } else {
                Err(Error::InvalidUtf8)
            }
        },
        Shape::Tuple(ss) => {
            match decode_tuple(data, pos, limit, ss, order) {
                Ok((vs, p)) => Ok((Value::Tuple(vs), p)),
                Err(e) => Err(e),
            }
        },
        Shape::List(es, w) => {
            let k = w.byte_count();
            if limit - pos < k {
                return Err(Error::Truncated);
            }
            let n = read_uint(data, pos, k, order);
            match decode_count(data, pos + k, limit, es, n, order) {
                Ok((vs, p)) => Ok((Value::List(vs, *w), p)),
                Err(e) => Err(e),
            }
        },
        Shape::SizedList(es, w) => {
            let k = w.byte_count();
            if limit - pos < k {
                return Err(Error::Truncated);
            }
            let n64 = read_uint(data, pos, k, order);
            let p = pos + k;
            if n64 > (limit - p) as u64 {
                return Err(Error::Truncated);
            }
            let end = p + (n64 as usize);
            match decode_sized_elems(data, p, end, es, order) {
                Ok((vs, q)) => Ok((Value::SizedList(vs, *w), q)),
                Err(e) => Err(e),
            }
        },
        Shape::Union(ss) => {
            if limit - pos < 1 {
                return Err(Error::Truncated);
            }
            let t = data[pos];
            if (t as usize) < ss.len() {
                match decode_value(data, pos + 1, limit, &ss[t as usize], order) {
                    Ok((v, p)) => Ok((Value::Union(t, Box::new(v)), p)),
                    Err(e) => Err(e),
                }
            } else {
                Err(Error::InvalidDiscriminant)
            }
        },
    }
}

/// Decodes the fields of a tuple, one shape after the other.
fn decode_tuple(data: &[u8], pos: usize, limit: usize, ss: &Vec<Shape>, order: ByteOrder) -> (r:
    Result<(Vec<Value>, usize), Error>)
    requires
        pos <= limit <= data@.len(),
    ensures
        mirrors_list(r, dec_tuple(ss@, data@, pos as int, limit as int, order)),
        r matches Ok((vs, p)) ==> pos <= p <= limit,
    decreases *ss, 0int,
{
    let ghost whole = dec_tuple(ss@, data@, pos as int, limit as int, order);
    let mut acc: Vec<Value> = Vec::new();
    let mut cur: usize = pos;
    let mut i: usize = 0;
    proof {
        assert(ss@.skip(0) =~= ss@);
        assert(vals_of(acc@) =~= Seq::<SpecValue>::empty());
    }
    while i < ss.len()
        invariant
            pos <= cur <= limit <= data@.len(),
            i <= ss@.len(),
            whole == dec_tuple(ss@, data@, pos as int, limit as int, order),
            (match dec_tuple(ss@.skip(i as int), data@, cur as int, limit as int, order) {
                Ok((vs2, p2)) => whole == Ok::<_, ErrorKind>(
                    (vals_of(acc@) + vs2, p2),
                ),
                Err(k) => whole == Err::<(Seq<SpecValue>, int), _>(k),
            }),
        decreases ss@.len() - i,
    {
        let ghost tailshapes = ss@.skip(i as int);
        proof {
            assert(tailshapes[0] == ss@[i as int]);
            assert(tailshapes.drop_first() =~= ss@.skip(i + 1));
        }
        match decode_value(data, cur, limit, &ss[i], order) {
            Ok((v, p)) => {
                proof {
                    lemma_vals_of_push(acc@, v);
                    assert(vals_of(acc@.push(v)) =~= vals_of(acc@) + seq![val_of(v)]);
                }
                let ghost oldacc = vals_of(acc@);
                acc.push(v);
                cur = p;
                proof {
                    match dec_tuple(ss@.skip(i + 1), data@, cur as int, limit as int, order) {
                        Ok((vs2, p2)) => {
                            assert(oldacc + (seq![val_of(v)] + vs2) =~= vals_of(acc@) + vs2);
                        },
                        Err(_) => {},
                    }
                }
            },
            Err(e) => {
                return Err(e);
            },
        }
        i = i + 1;
    }
    proof {
        assert(ss@.skip(ss@.len() as int).len() == 0);
        assert(vals_of(acc@) + Seq::<SpecValue>::empty() =~= vals_of(acc@));
    }
    Ok((acc, cur))
}

/// Decodes exactly `n` elements of shape `es`, as a count prefix
/// demands.
fn decode_count(
    data: &[u8],
    pos: usize,
    limit: usize,
    es: &Shape,
    n: u64,
    order: ByteOrder,
) -> (r: Result<(Vec<Value>, usize), Error>)
    requires
        pos <= limit <= data@.len(),
    ensures
        mirrors_list(r, dec_count(*es, n as nat, data@, pos as int, limit as int, order)),
        r matches Ok((vs, p)) ==> pos <= p <= limit,
    decreases *es, 1int,
{
    let ghost whole = dec_count(*es, n as nat, data@, pos as int, limit as int, order);
    let mut acc: Vec<Value> = Vec::new();
    let mut cur: usize = pos;
    let mut i: u64 = 0;
    proof {
        assert(vals_of(acc@) =~= Seq::<SpecValue>::empty());
    }
    while i < n
        invariant
            pos <= cur <= limit <= data@.len(),
            i <= n,
            whole == dec_count(*es, n as nat, data@, pos as int, limit as int, order),
            (match dec_count(*es, (n - i) as nat, data@, cur as int, limit as int, order) {
                Ok((vs2, p2)) => whole == Ok::<_, ErrorKind>(
                    (vals_of(acc@) + vs2, p2),
                ),
                Err(k) => whole == Err::<(Seq<SpecValue>, int), _>(k),
            }),
        decreases n - i,
    {
        match decode_value(data, cur, limit, es, order) {
            Ok((v, p)) => {
                proof {
                    lemma_vals_of_push(acc@, v);
                }
                let ghost oldacc = vals_of(acc@);
                acc.push(v);
                cur = p;
                proof {
                    match dec_count(
                        *es,
                        (n - i - 1) as nat,
                        data@,
                        cur as int,
                        limit as int,
                        order,
                    ) {
                        Ok((vs2, p2)) => {
                            assert(oldacc + (seq![val_of(v)] + vs2) =~= vals_of(acc@) + vs2);
                        },
                        Err(_) => {},
                    }
                }
            },
            Err(e) => {
                return Err(e);
            },
        }
        i = i + 1;
    }
    proof {
        assert(vals_of(acc@) + Seq::<SpecValue>::empty() =~= vals_of(acc@));
    }
    Ok((acc, cur))
}

/// Decodes elements of shape `es` until the byte budget ending at `end`
/// is consumed exactly.
fn decode_sized_elems(data: &[u8], pos: usize, end: usize, es: &Shape, order: ByteOrder) -> (r:
    Result<(Vec<Value>, usize), Error>)
    requires
        pos <= end <= data@.len(),
    ensures
        mirrors_list(r, dec_sized(*es, data@, pos as int, end as int, order)),
        r matches Ok((vs, p)) ==> pos <= p <= end,
    decreases *es, 1int,
{
    let ghost whole = dec_sized(*es, data@, pos as int, end as int, order);
    let mut acc: Vec<Value> = Vec::new();
    let mut cur: usize = pos;
    proof {
        assert(vals_of(acc@) =~= Seq::<SpecValue>::empty());
    }
    while cur < end
        invariant
            pos <= cur <= end <= data@.len(),
            whole == dec_sized(*es, data@, pos as int, end as int, order),
            (match dec_sized(*es, data@, cur as int, end as int, order) {
                Ok((vs2, p2)) => whole == Ok::<_, ErrorKind>(
                    (vals_of(acc@) + vs2, p2),
                ),
                Err(k) => whole == Err::<(Seq<SpecValue>, int), _>(k),
            }),
        decreases end - cur,
    {
        match decode_value(data, cur, end, es, order) {
            Ok((v, p)) => {
                if p <= cur {
                    return Err(error_of(ErrorKind::SizeMismatch));
                }
                proof {
                    lemma_vals_of_push(acc@, v);
                }
                let ghost oldacc = vals_of(acc@);
                acc.push(v);
                cur = p;
                proof {
                    match dec_sized(*es, data@, cur as int, end as int, order) {
                        Ok((vs2, p2)) => {
                            assert(oldacc + (seq![val_of(v)] + vs2) =~= vals_of(acc@) + vs2);
                        },
                        Err(_) => {},
                    }
                }
            },
            Err(e) => {
                return Err(e);
            },
        }
    }
    proof {
        assert(vals_of(acc@) + Seq::<SpecValue>::empty() =~= vals_of(acc@));
    }
    Ok((acc, cur))
}

/// Decodes one value of shape `shape` from the whole of `data` in the
/// given ordering: the decoded value and the number of bytes consumed,
/// or the failure the wire-format specification `dec` names for this
/// input.
pub fn decode(data: &[u8], shape: &Shape, order: ByteOrder) -> (r: Result<(Value, usize), Error>)
    ensures
        mirrors(r, dec(*shape, data@, 0, data@.len() as int, order)),
{
    let len = data.len();
    decode_value(data, 0, len, shape, order)
}

/// Decodes from big-endian ("network") order, the default ordering.
pub fn from_bytes(data: &[u8], shape: &Shape) -> (r: Result<(Value, usize), Error>)
    ensures
        mirrors(r, dec(*shape, data@, 0, data@.len() as int, ByteOrder::BigEndian)),
{
    decode(data, shape, ByteOrder::BigEndian)
}

/// Decodes from little-endian order.
pub fn from_bytes_le(data: &[u8], shape: &Shape) -> (r: Result<(Value, usize), Error>)
    ensures
        mirrors(r, dec(*shape, data@, 0, data@.len() as int, ByteOrder::LittleEndian)),
{
    decode(data, shape, ByteOrder::LittleEndian)
}

} // verus!
