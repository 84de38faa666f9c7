use vstd::prelude::*;

use crate::bytes::push_uint;
use crate::error::Error;
use crate::order::ByteOrder;
use crate::value::{lemma_vals_of_index, lemma_vals_of_len, val_of, vals_of, Value};
use crate::width::PrefixWidth;
use crate::wire::{
    enc, enc_len, enc_len_list, enc_list, fits, fits_all, lemma_enc_len_list_ge_elem,
    lemma_enc_len_list_split, lemma_fits_all_iff, u_rep16, u_rep32, u_rep64, u_rep8,
};

verus! {

/// The capability a type needs to take part in a size-prefixed list:
/// reporting the exact number of bytes it will occupy on the wire,
/// without encoding it.
pub trait WireSize {
    /// The byte size this value claims.
    spec fn wire_size_spec(&self) -> nat;

    /// The exact number of bytes this value occupies when encoded, in
    /// either ordering.
    fn wire_size(&self) -> (n: usize)
        requires
            self.wire_size_spec() <= usize::MAX,
        ensures
            n == self.wire_size_spec(),
    ;
}

impl WireSize for Value {
    open spec fn wire_size_spec(&self) -> nat {
        enc_len(val_of(*self))
    }

    fn wire_size(&self) -> (n: usize) {
        match wire_size_checked(self) {
            Some(n) => n as usize,
            None => {
                proof {
                    assert(usize::MAX <= u64::MAX);
                }
                vstd::pervasive::unreached()
            },
        }
    }
}

/// The encoded byte size of `v`, or `None` where it does not even fit
/// in 64 bits (no length prefix could carry it).
pub fn wire_size_checked(v: &Value) -> (r: Option<u64>)
    ensures
        match r {
            Some(n) => n == enc_len(v@),
            None => enc_len(v@) > u64::MAX,
        },
    decreases *v,
{
    match v {
        Value::U8(_) => Some(1),
        Value::U16(_) => Some(2),
        Value::U32(_) => Some(4),
        Value::U64(_) => Some(8),
        Value::I8(_) => Some(1),
        Value::I16(_) => Some(2),
        Value::I32(_) => Some(4),
        Value::I64(_) => Some(8),
        Value::Bool(_) => Some(1),
        Value::Char(_) => Some(4),
        Value::Text(b, w) => {
            let k = w.byte_count() as u64;
            let n = b.len() as u64;
            if n > u64::MAX - k {
                None
            } else {
                Some(k + n)
            }
        },
        Value::Tuple(vs) => wire_size_list(vs, 0),
        Value::List(vs, w) => {
            let k = w.byte_count() as u64;
            match wire_size_list(vs, k) {
                Some(n) => Some(n),
                None => None,
            }
        },
        Value::SizedList(vs, w) => {
            let k = w.byte_count() as u64;
            match wire_size_list(vs, k) {
                Some(n) => Some(n),
                None => None,
            }
        },
        Value::Union(_, p) => match wire_size_checked(p) {
            Some(n) => if n > u64::MAX - 1 {
                None
            } else {
                Some(1 + n)
            },
            None => None,
        },
    }
}

/// `base` plus the summed encoded byte sizes of `vs`, or `None` on
/// overflow past 64 bits.
fn wire_size_list(vs: &Vec<Value>, base: u64) -> (r: Option<u64>)
    ensures
        match r {
            Some(n) => n == base + enc_len_list(vals_of(vs@)),
            None => base + enc_len_list(vals_of(vs@)) > u64::MAX,
        },
    decreases *vs,
{
    let ghost all = vals_of(vs@);
    proof {
        lemma_vals_of_len(vs@);
    }
    let mut total: u64 = base;
    let mut j: usize = 0;
    proof {
        assert(all.take(0) =~= Seq::<crate::value::SpecValue>::empty());
    }
    while j < vs.len()
        invariant
            j <= vs.len(),
            all == vals_of(vs@),
            all.len() == vs@.len(),
            total == base + enc_len_list(all.take(j as int)),
        decreases vs.len() - j,
    {
        proof {
            lemma_vals_of_index(vs@, j as int);
            lemma_enc_len_list_split(all, j as int);
            assert(all.skip(j as int)[0] == all[j as int]);
            assert(all.skip(j as int).len() > 0);
        }
        let s = wire_size_checked(&vs[j]);
        match s {
            Some(n) => {
                if n > u64::MAX - total {
                    proof {
                        lemma_step_ge(all, j as int);
                    }
                    return None;
                }
                total = total + n;
                proof {
                    assert(all.take(j + 1).drop_last() =~= all.take(j as int));
                    lemma_enc_len_list_split(all.take(j + 1), j as int);
                    assert(all.take(j + 1).take(j as int) =~= all.take(j as int));
                    assert(all.take(j + 1).skip(j as int) =~= seq![all[j as int]]);
                    assert(enc_len_list(seq![all[j as int]]) == enc_len(all[j as int])) by {
                        reveal_with_fuel(enc_len_list, 3);
                        assert(seq![all[j as int]].drop_first() =~= Seq::<
                            crate::value::SpecValue,
                        >::empty());
                    }
                }
            },
            None => {
                proof {
                    lemma_enc_len_list_ge_elem(all, j as int);
                }
                return None;
            },
        }
        j = j + 1;
    }
    proof {
        assert(all.take(vs@.len() as int) =~= all);
    }
    Some(total)
}

/// Encodes `v` after the bytes already in `out`. Returns
/// `PrefixOverflow`, writing nothing further of meaning, exactly when
/// some count or byte size in `v` does not fit its prefix width.
#[verifier::rlimit(100)]
#[verifier::spinoff_prover]
pub fn encode_value(v: &Value, order: ByteOrder, out: &mut Vec<u8>) -> (r: Result<(), Error>)
    ensures
        r is Ok ==> fits(v@) && final(out)@ == old(out)@ + enc(v@, order),
        r is Err ==> !fits(v@) && (r matches Err(e) && e is PrefixOverflow),
    decreases *v, 0int,
{
    match v {
        Value::U8(x) => {
            out.push(*x);
            proof {
                assert(final(out)@ =~= old(out)@ + enc(v@, order));
            }
            Ok(())
        },
        Value::U16(x) => {
            push_uint(out, *x as u64, 2, order);
            Ok(())
        },
        Value::U32(x) => {
            push_uint(out, *x as u64, 4, order);
            Ok(())
        },
        Value::U64(x) => {
            push_uint(out, *x, 8, order);
            Ok(())
        },
        Value::I8(x) => {
            let u: u8 = if *x >= 0 {
                *x as u8
            } else {
                ((*x as i16) + 0x100) as u8
            };
            proof {
                assert(u as nat == u_rep8(*x));
            }
            push_uint(out, u as u64, 1, order);
            Ok(())
        },
        Value::I16(x) => {
            let u: u16 = if *x >= 0 {
                *x as u16
            } else {
                ((*x as i32) + 0x1_0000) as u16
            };
            proof {
                assert(u as nat == u_rep16(*x));
            }
            push_uint(out, u as u64, 2, order);
            Ok(())
        },
        Value::I32(x) => {
            let u: u32 = if *x >= 0 {
                *x as u32
            } else {
                ((*x as i64) + 0x1_0000_0000) as u32
            };
            proof {
                assert(u as nat == u_rep32(*x));
            }
            push_uint(out, u as u64, 4, order);
            Ok(())
        },
        Value::I64(x) => {
            let u: u64 = if *x >= 0 {
                *x as u64
            } else {
                ((*x as i128) + 0x1_0000_0000_0000_0000) as u64
            };
            proof {
                assert(u as nat == u_rep64(*x));
            }
            push_uint(out, u, 8, order);
            Ok(())
        },
        Value::Bool(b) => {
            out.push(if *b { 1 } else { 0 });
            proof {
                assert(final(out)@ =~= old(out)@ + enc(v@, order));
            }
            Ok(())
        },
        Value::Char(c) => {
            let u: u32 = *c as u32;
            push_uint(out, u as u64, 4, order);
            Ok(())
        },
        Value::Text(b, w) => {
            match encode_text(b, *w, order, out) {
                Ok(()) => {
                    proof {
                        assert(out@ =~= old(out)@ + enc(v@, order));
                    }
                    Ok(())
                },
                Err(e) => Err(e),
            }
        },
        Value::Tuple(vs) => {
            match encode_list(vs, order, out) {
                Ok(()) => Ok(()),
                Err(e) => Err(e),
            }
        },
        Value::List(vs, w) => {
            proof {
                lemma_vals_of_len(vs@);
            }
            match encode_counted(vs, *w, order, out) {
                Ok(()) => {
                    proof {
                        assert(out@ =~= old(out)@ + enc(v@, order));
                    }
                    Ok(())
                },
                Err(e) => Err(e),
            }
        },
        Value::SizedList(vs, w) => {
            proof {
                lemma_vals_of_len(vs@);
            }
            match encode_sized(vs, *w, order, out) {
                Ok(()) => {
                    proof {
                        assert(out@ =~= old(out)@ + enc(v@, order));
                    }
                    Ok(())
                },
                Err(e) => Err(e),
            }
        },
        Value::Union(t, p) => {
            out.push(*t);
            let ghost mid = out@;
            match encode_value(p, order, out) {
                Ok(()) => {
                    proof {
                        assert(out@ =~= old(out)@ + enc(v@, order));
                    }
                    Ok(())
                },
                Err(e) => Err(e),
            }
        },
    }
}

/// Writes the byte count of `b`, then `b` itself.
fn encode_text(b: &Vec<u8>, w: PrefixWidth, order: ByteOrder, out: &mut Vec<u8>) -> (r: Result<
    (),
    Error,
>)
    ensures
        r is Ok ==> b@.len() <= w.max() && final(out)@ == old(out)@ + crate::bytes::ord_bytes(
            b@.len(),
            w.nbytes(),
            order,
        ) + b@,
        r is Err ==> b@.len() > w.max() && (r matches Err(e) && e is PrefixOverflow),
{
    let n = b.len();
    if n as u64 > w.max_value() {
        return Err(Error::PrefixOverflow);
    }
    push_uint(out, n as u64, w.byte_count(), order);
    let ghost mid = out@;
    let mut j: usize = 0;
    proof {
        assert(out@ =~= mid + b@.take(0));
    }
    while j < n
        invariant
            j <= n,
            n == b@.len(),
            out@ == mid + b@.take(j as int),
        decreases n - j,
    {
        let byte = b[j];
        out.push(byte);
        proof {
            assert(mid + b@.take(j as int) + seq![b@[j as int]] =~= mid + b@.take(j + 1));
        }
        j = j + 1;
    }
    proof {
        assert(b@.take(n as int) =~= b@);
        assert(mid + b@ =~= old(out)@ + crate::bytes::ord_bytes(b@.len(), w.nbytes(), order)
            + b@);
    }
    Ok(())
}

/// Writes the element count of `vs`, then the elements.
fn encode_counted(vs: &Vec<Value>, w: PrefixWidth, order: ByteOrder, out: &mut Vec<u8>) -> (r:
    Result<(), Error>)
    ensures
        r is Ok ==> vs@.len() <= w.max() && fits_all(vals_of(vs@)) && final(out)@ == old(out)@
            + crate::bytes::ord_bytes(vs@.len(), w.nbytes(), order) + enc_list(
            vals_of(vs@),
            order,
        ),
        r is Err ==> !(vs@.len() <= w.max() && fits_all(vals_of(vs@))) && (r matches Err(e)
            && e is PrefixOverflow),
    decreases *vs, 1int,
{
    proof {
        lemma_vals_of_len(vs@);
    }
    let n = vs.len();
    if n as u64 > w.max_value() {
        return Err(Error::PrefixOverflow);
    }
    push_uint(out, n as u64, w.byte_count(), order);
    match encode_list(vs, order, out) {
        Ok(()) => {
            proof {
                assert(out@ =~= old(out)@ + crate::bytes::ord_bytes(
                    vs@.len(),
                    w.nbytes(),
                    order,
                ) + enc_list(vals_of(vs@), order));
            }
            Ok(())
        },
        Err(e) => Err(e),
    }
}

/// Writes the total encoded byte size of the elements of `vs`, found
/// without encoding them, then the elements.
fn encode_sized(vs: &Vec<Value>, w: PrefixWidth, order: ByteOrder, out: &mut Vec<u8>) -> (r:
    Result<(), Error>)
    ensures
        r is Ok ==> enc_len_list(vals_of(vs@)) <= w.max() && fits_all(vals_of(vs@))
            && final(out)@ == old(out)@ + crate::bytes::ord_bytes(
            enc_len_list(vals_of(vs@)),
            w.nbytes(),
            order,
        ) + enc_list(vals_of(vs@), order),
        r is Err ==> !(enc_len_list(vals_of(vs@)) <= w.max() && fits_all(vals_of(vs@))) && (
        r matches Err(e) && e is PrefixOverflow),
    decreases *vs, 1int,
{
    proof {
        lemma_vals_of_len(vs@);
    }
    let total = match wire_size_list(vs, 0) {
        Some(t) => t,
        None => {
            return Err(Error::PrefixOverflow);
        },
    };
    if total > w.max_value() {
        return Err(Error::PrefixOverflow);
    }
    push_uint(out, total, w.byte_count(), order);
    match encode_list(vs, order, out) {
        Ok(()) => {
            proof {
                assert(out@ =~= old(out)@ + crate::bytes::ord_bytes(
                    enc_len_list(vals_of(vs@)),
                    w.nbytes(),
                    order,
                ) + enc_list(vals_of(vs@), order));
            }
            Ok(())
        },
        Err(e) => Err(e),
    }
}

/// Encodes the elements of `vs` one after the other, after the bytes
/// already in `out`.
fn encode_list(vs: &Vec<Value>, order: ByteOrder, out: &mut Vec<u8>) -> (r: Result<(), Error>)
    ensures
        r is Ok ==> fits_all(vals_of(vs@)) && final(out)@ == old(out)@ + enc_list(
            vals_of(vs@),
            order,
        ),
        r is Err ==> !fits_all(vals_of(vs@)) && (r matches Err(e) && e is PrefixOverflow),
    decreases *vs, 0int,
{
    let ghost all = vals_of(vs@);
    proof {
        lemma_vals_of_len(vs@);
        lemma_fits_all_iff(all);
        assert(all.take(0) =~= Seq::<crate::value::SpecValue>::empty());
        assert(out@ =~= old(out)@ + enc_list(all.take(0), order));
    }
    let mut j: usize = 0;
    while j < vs.len()
        invariant
            j <= vs.len(),
            all == vals_of(vs@),
            all.len() == vs@.len(),
            out@ == old(out)@ + enc_list(all.take(j as int), order),
            forall|i: int| 0 <= i < j ==> fits(#[trigger] all[i]),
        decreases vs.len() - j,
    {
        proof {
            lemma_vals_of_index(vs@, j as int);
        }
        match encode_value(&vs[j], order, out) {
            Ok(()) => {
                proof {
                    crate::wire::lemma_enc_list_snoc(all, j as int, order);
                    assert(out@ =~= old(out)@ + enc_list(all.take(j + 1), order));
                }
            },
            Err(e) => {
                proof {
                    lemma_fits_all_iff(all);
                }
                return Err(e);
            },
        }
        j = j + 1;
    }
    proof {
        assert(all.take(vs@.len() as int) =~= all);
        lemma_fits_all_iff(all);
    }
    Ok(())
}

/// Encodes `v` in the given ordering into a fresh buffer. Succeeds with
/// exactly the bytes of `enc` when every count and size in `v` fits its
/// prefix width, and fails with `PrefixOverflow` otherwise.
pub fn encode(v: &Value, order: ByteOrder) -> (r: Result<Vec<u8>, Error>)
    ensures
        match r {
            Ok(b) => fits(v@) && b@ == enc(v@, order),
            Err(e) => !fits(v@) && e is PrefixOverflow,
        },
{
    let mut out: Vec<u8> = Vec::new();
    match encode_value(v, order, &mut out) {
        Ok(()) => {
            proof {
                assert(out@ =~= enc(v@, order));
            }
            Ok(out)
        },
        Err(e) => Err(e),
    }
}

/// Encodes `v` in big-endian ("network") order, the default ordering.
pub fn to_bytes(v: &Value) -> (r: Result<Vec<u8>, Error>)
    ensures
        match r {
            Ok(b) => fits(v@) && b@ == enc(v@, ByteOrder::BigEndian),
            Err(e) => !fits(v@) && e is PrefixOverflow,
        },
{
    encode(v, ByteOrder::BigEndian)
}

/// Encodes `v` in little-endian order.
pub fn to_bytes_le(v: &Value) -> (r: Result<Vec<u8>, Error>)
    ensures
        match r {
            Ok(b) => fits(v@) && b@ == enc(v@, ByteOrder::LittleEndian),
            Err(e) => !fits(v@) && e is PrefixOverflow,
        },
{
    encode(v, ByteOrder::LittleEndian)
}

/// The summed size from `j` on is at least the size of element `j`.
proof fn lemma_step_ge(all: Seq<crate::value::SpecValue>, j: int)
    requires
        0 <= j < all.len(),
    ensures
        enc_len_list(all) >= enc_len_list(all.take(j)) + enc_len(all[j]),
{
    lemma_enc_len_list_split(all, j);
    assert(all.skip(j)[0] == all[j]);
    assert(all.skip(j).len() > 0);
    assert(enc_len_list(all.skip(j)) >= enc_len(all[j]));
}

} // verus!
