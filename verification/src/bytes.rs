use vstd::prelude::*;

use crate::order::ByteOrder;

verus! {

/// 256 raised to the power `k`: the number of values a `k`-byte unsigned
/// field can hold.
pub open spec fn pow256(k: nat) -> nat
    decreases k,
{
    if k == 0 {
        1
    } else {
        256 * pow256((k - 1) as nat)
    }
}

/// The `k` low-order bytes of `n`, least significant first. When `n`
/// does not fit in `k` bytes the high-order part is cut off; encoding
/// checks the bound before it comes here.
pub open spec fn le_bytes(n: nat, k: nat) -> Seq<u8>
    decreases k,
{
    if k == 0 {
        Seq::empty()
    } else {
        seq![(n % 256) as u8] + le_bytes(n / 256, (k - 1) as nat)
    }
}

/// The unsigned value of a byte sequence read least significant first.
pub open spec fn le_val(s: Seq<u8>) -> nat
    decreases s.len(),
{
    if s.len() == 0 {
        0
    } else {
        (s[0] + 256 * le_val(s.drop_first())) as nat
    }
}

/// The `k` low-order bytes of `n` in the given ordering: big-endian is
/// the little-endian layout reversed.
pub open spec fn ord_bytes(n: nat, k: nat, order: ByteOrder) -> Seq<u8> {
    match order {
        ByteOrder::LittleEndian => le_bytes(n, k),
        ByteOrder::BigEndian => le_bytes(n, k).reverse(),
    }
}

/// The unsigned value of a byte sequence read in the given ordering.
pub open spec fn val_of_bytes(s: Seq<u8>, order: ByteOrder) -> nat {
    match order {
        ByteOrder::LittleEndian => le_val(s),
        ByteOrder::BigEndian => le_val(s.reverse()),
    }
}

pub proof fn lemma_pow256_pos(k: nat)
    ensures
        pow256(k) >= 1,
    decreases k,
{
    if k > 0 {
        lemma_pow256_pos((k - 1) as nat);
    }
}

pub proof fn lemma_le_bytes_len(n: nat, k: nat)
    ensures
        le_bytes(n, k).len() == k,
    decreases k,
{
    if k > 0 {
        lemma_le_bytes_len(n / 256, (k - 1) as nat);
    }
}

/// Reading back the bytes of `n` yields `n`, provided `n` fits.
pub proof fn lemma_le_val_le_bytes(n: nat, k: nat)
    requires
        n < pow256(k),
    ensures
        le_val(le_bytes(n, k)) == n,
    decreases k,
{
    if k > 0 {
        let s = le_bytes(n, k);
        let rest = le_bytes(n / 256, (k - 1) as nat);
        assert(n / 256 < pow256((k - 1) as nat)) by {
            lemma_pow256_pos((k - 1) as nat);
        }
        lemma_le_val_le_bytes(n / 256, (k - 1) as nat);
        assert(s.drop_first() =~= rest);
        assert(le_val(s) == (n % 256) + 256 * (n / 256));
    }
}

/// A byte sequence is the byte layout of its own value: byte layouts of
/// a fixed width are canonical.
pub proof fn lemma_le_bytes_le_val(s: Seq<u8>)
    ensures
        le_bytes(le_val(s), s.len()) == s,
    decreases s.len(),
{
    if s.len() > 0 {
        let n = le_val(s);
        lemma_le_bytes_le_val(s.drop_first());
        assert(n == s[0] + 256 * le_val(s.drop_first()));
        assert(n % 256 == s[0] && n / 256 == le_val(s.drop_first())) by {
            assert(0 <= s[0] < 256);
        }
        assert(le_bytes(n, s.len()) =~= s);
    }
}

/// The value of `s` fits in `s.len()` bytes.
pub proof fn lemma_le_val_bound(s: Seq<u8>)
    ensures
        le_val(s) < pow256(s.len()),
    decreases s.len(),
{
    if s.len() > 0 {
        lemma_le_val_bound(s.drop_first());
    }
}

/// Reading back in the same ordering yields `n`, whichever the ordering.
pub proof fn lemma_val_of_ord_bytes(n: nat, k: nat, order: ByteOrder)
    requires
        n < pow256(k),
    ensures
        val_of_bytes(ord_bytes(n, k, order), order) == n,
{
    lemma_le_val_le_bytes(n, k);
    if order is BigEndian {
        assert(le_bytes(n, k).reverse().reverse() =~= le_bytes(n, k));
    }
}

/// The value read from `s` written back over `s.len()` bytes is `s`,
/// whichever the ordering.
pub proof fn lemma_ord_bytes_val_of(s: Seq<u8>, order: ByteOrder)
    ensures
        ord_bytes(val_of_bytes(s, order), s.len(), order) == s,
{
    match order {
        ByteOrder::LittleEndian => {
            lemma_le_bytes_le_val(s);
        },
        ByteOrder::BigEndian => {
            lemma_le_bytes_le_val(s.reverse());
            assert(s.reverse().len() == s.len());
            assert(le_bytes(le_val(s.reverse()), s.len()).reverse() =~= s);
        },
    }
}

/// One more low-order byte extends the layout on the right.
pub proof fn lemma_le_bytes_snoc(n: nat, i: nat)
    ensures
        le_bytes(n, i + 1) == le_bytes(n, i) + seq![((n / pow256(i)) % 256) as u8],
    decreases i,
{
    if i == 0 {
        assert(le_bytes(n, 1) =~= le_bytes(n, 0) + seq![(n % 256) as u8]) by {
            reveal_with_fuel(le_bytes, 3);
        }
        assert(pow256(0) == 1);
        assert(n / 1 == n);
        assert(n / pow256(0) == n);
    } else {
        lemma_le_bytes_snoc(n / 256, (i - 1) as nat);
        assert((n / 256) / pow256((i - 1) as nat) == n / pow256(i)) by {
            lemma_pow256_pos((i - 1) as nat);
            vstd::arithmetic::div_mod::lemma_div_denominator(
                n as int,
                256,
                pow256((i - 1) as nat) as int,
            );
        }
        assert(le_bytes(n, i + 1) =~= le_bytes(n, i) + seq![((n / pow256(i)) % 256) as u8]);
    }
}

/// Appends the `k`-byte layout of `n` in the given ordering.
pub fn push_uint(out: &mut Vec<u8>, n: u64, k: usize, order: ByteOrder)
    requires
        k == 1 || k == 2 || k == 4 || k == 8,
    ensures
        final(out)@ == old(out)@ + ord_bytes(n as nat, k as nat, order),
{
    let mut tmp: Vec<u8> = Vec::new();
    let mut cur: u64 = n;
    let mut i: usize = 0;
    proof {
        assert(pow256(0) == 1);
        assert((n as nat) / 1 == n as nat);
    }
    while i < k
        invariant
            i <= k,
            k <= 8,
            cur as nat == (n as nat) / pow256(i as nat),
            tmp@ =~= le_bytes(n as nat, i as nat),
        decreases k - i,
    {
        proof {
            lemma_le_bytes_snoc(n as nat, i as nat);
            lemma_pow256_pos(i as nat);
            vstd::arithmetic::div_mod::lemma_div_denominator(
                n as int,
                pow256(i as nat) as int,
                256,
            );
        }
        tmp.push((cur % 256) as u8);
        cur = cur / 256;
        i = i + 1;
        proof {
            lemma_le_bytes_len(n as nat, i as nat);
        }
    }
    proof {
        lemma_le_bytes_len(n as nat, k as nat);
    }
    match order {
        ByteOrder::LittleEndian => {
            let mut j: usize = 0;
            while j < k
                invariant
                    j <= k,
                    tmp@ == le_bytes(n as nat, k as nat),
                    tmp@.len() == k,
                    out@ =~= old(out)@ + tmp@.subrange(0, j as int),
                decreases k - j,
            {
                let b = tmp[j];
                out.push(b);
                j = j + 1;
            }
            assert(tmp@.subrange(0, k as int) =~= tmp@);
        },
        ByteOrder::BigEndian => {
            let mut j: usize = 0;
            while j < k
                invariant
                    j <= k,
                    tmp@ == le_bytes(n as nat, k as nat),
                    tmp@.len() == k,
                    out@ =~= old(out)@ + tmp@.reverse().subrange(0, j as int),
                decreases k - j,
            {
                let b = tmp[k - 1 - j];
                out.push(b);
                assert(tmp@.reverse()[j as int] == tmp@[k - 1 - j]);
                j = j + 1;
            }
            assert(tmp@.reverse().subrange(0, k as int) =~= tmp@.reverse());
        },
    }
}

/// Reads the `k`-byte unsigned field at `pos` in the given ordering.
pub fn read_uint(data: &[u8], pos: usize, k: usize, order: ByteOrder) -> (n: u64)
    requires
        k == 1 || k == 2 || k == 4 || k == 8,
        pos + k <= data@.len(),
    ensures
        n as nat == val_of_bytes(data@.subrange(pos as int, pos + k), order),
        (n as nat) < pow256(k as nat),
        k == 1 ==> n < 0x100,
        k == 2 ==> n < 0x1_0000,
        k == 4 ==> n < 0x1_0000_0000,
{
    proof {
        assert(pow256(1) == 0x100 && pow256(2) == 0x1_0000 && pow256(4) == 0x1_0000_0000) by {
            reveal_with_fuel(pow256, 5);
        }
    }
    let ghost window = data@.subrange(pos as int, pos + k);
    let ghost s_le: Seq<u8> = match order {
        ByteOrder::LittleEndian => window,
        ByteOrder::BigEndian => window.reverse(),
    };
    proof {
        assert(s_le.len() == k);
        assert(val_of_bytes(window, order) == le_val(s_le)) by {
            if order is BigEndian {
                assert(window.reverse().reverse() =~= window);
            }
        }
    }
    let dlen: usize = data.len();
    let mut val: u64 = 0;
    let mut j: usize = k;
    while j > 0
        invariant
            j <= k,
            k <= 8,
            pos + k <= data@.len(),
            data@.len() <= usize::MAX,
            s_le.len() == k,
            (match order {
                ByteOrder::LittleEndian => forall|t: int|
                    0 <= t < k ==> s_le[t] == data@[pos + t],
                ByteOrder::BigEndian => forall|t: int|
                    0 <= t < k ==> s_le[t] == data@[pos + k - 1 - t],
            }),
            val as nat == le_val(s_le.subrange(j as int, k as int)),
            (val as nat) < pow256((k - j) as nat),
        decreases j,
    {
        let b: u8 = match order {
            ByteOrder::LittleEndian => data[pos + (j - 1)],
            ByteOrder::BigEndian => data[pos + k - j],
        };
        proof {
            assert(s_le[j - 1] == b);
            let tail = s_le.subrange(j as int, k as int);
            let whole = s_le.subrange(j - 1, k as int);
            assert(whole[0] == s_le[j - 1]);
            assert(whole.drop_first() =~= tail);
            assert(le_val(whole) == s_le[j - 1] + 256 * le_val(tail));
            assert(pow256((k - j + 1) as nat) == 256 * pow256((k - j) as nat));
            assert(pow256((k - j + 1) as nat) <= pow256(8)) by {
                lemma_pow256_mono((k - j + 1) as nat, 8);
            }
            assert(pow256(8) == 0x1_0000_0000_0000_0000) by {
                reveal_with_fuel(pow256, 9);
            }
        }
        val = val * 256 + (b as u64);
        j = j - 1;
    }
    proof {
        assert(s_le.subrange(0, k as int) =~= s_le);
        lemma_le_val_bound(s_le);
    }
    val
}

/// `pow256` grows with its exponent.
pub proof fn lemma_pow256_mono(a: nat, b: nat)
    requires
        a <= b,
    ensures
        pow256(a) <= pow256(b),
    decreases b,
{
    if a < b {
        lemma_pow256_mono(a, (b - 1) as nat);
        lemma_pow256_pos((b - 1) as nat);
    }
}

} // verus!
