//! Fixed-width big-endian integer fields: the primitive layer of the
//! canonical encoding.  Every multi-byte number in the chain's encodings is
//! written most-significant byte first into a fixed number of bytes.

use vstd::prelude::*;
use vstd::arithmetic::div_mod::lemma_fundamental_div_mod;
use vstd::arithmetic::mul::lemma_mul_inequality;

verus! {

/// 256 raised to `k`: how many values a `k`-byte field can hold.
pub open spec fn pow256(k: nat) -> nat
    decreases k,
{
    if k == 0 {
        1
    } else {
        256 * pow256((k - 1) as nat)
    }
}

/// Big-endian bytes of `n`, exactly `width` of them (high bytes beyond the
/// width are dropped; callers keep `n < pow256(width)`).
pub open spec fn to_be(n: nat, width: nat) -> Seq<u8>
    decreases width,
{
    if width == 0 {
        Seq::empty()
    } else {
        to_be(n / 256, (width - 1) as nat) + seq![(n % 256) as u8]
    }
}

/// The number a big-endian byte string denotes.
pub open spec fn from_be(s: Seq<u8>) -> nat
    decreases s.len(),
{
    if s.len() == 0 {
        0
    } else {
        from_be(s.drop_last()) * 256 + s.last() as nat
    }
}

pub proof fn lemma_to_be_len(n: nat, width: nat)
    ensures
        to_be(n, width).len() == width,
    decreases width,
{
    if width > 0 {
        lemma_to_be_len(n / 256, (width - 1) as nat);
    }
}

pub proof fn lemma_from_be_bound(s: Seq<u8>)
    ensures
        from_be(s) < pow256(s.len()),
    decreases s.len(),
{
    if s.len() > 0 {
        let d = s.drop_last();
        lemma_from_be_bound(d);
        lemma_mul_inequality(from_be(d) as int, pow256(d.len()) as int - 1, 256);
    }
}

/// A number below the field's capacity survives the encode/decode pair.
pub proof fn lemma_be_round_trip(n: nat, width: nat)
    requires
        n < pow256(width),
    ensures
        to_be(n, width).len() == width,
        from_be(to_be(n, width)) == n,
    decreases width,
{
    lemma_to_be_len(n, width);
    if width > 0 {
        let w1 = (width - 1) as nat;
        lemma_fundamental_div_mod(n as int, 256);
        if n / 256 >= pow256(w1) {
            lemma_mul_inequality(pow256(w1) as int, (n / 256) as int, 256);
            assert(false);
        }
        lemma_be_round_trip(n / 256, w1);
        let s = to_be(n, width);
        assert(s.drop_last() =~= to_be(n / 256, w1));
        assert(s.last() == (n % 256) as u8);
    }
}

pub proof fn lemma_pow256_mono(a: nat, b: nat)
    requires
        a <= b,
    ensures
        pow256(a) <= pow256(b),
    decreases b,
{
    if a < b && b > 0 {
        lemma_pow256_mono(a, (b - 1) as nat);
    }
}

/// The capacities of the field widths the encodings use.
pub proof fn lemma_pow256_vals()
    ensures
        pow256(1) == 0x100,
        pow256(4) == 0x1_0000_0000,
        pow256(8) == 0x1_0000_0000_0000_0000,
        pow256(16) == 0x1_0000_0000_0000_0000_0000_0000_0000_0000,
{
    reveal_with_fuel(pow256, 17);
}

pub proof fn lemma_pow256_16()
    ensures
        pow256(16) == 0x1_0000_0000_0000_0000_0000_0000_0000_0000,
{
    reveal_with_fuel(pow256, 17);
}

/// Writes `n` into `width` big-endian bytes.
pub fn nat_to_be(n: u128, width: usize) -> (r: Vec<u8>)
    ensures
        r@ == to_be(n as nat, width as nat),
    decreases width,
{
    if width == 0 {
        let r: Vec<u8> = Vec::new();
        proof {
            assert(r@ =~= to_be(n as nat, 0));
        }
        r
    } else {
        let mut r = nat_to_be(n / 256, width - 1);
        let b: u8 = (n % 256) as u8;
        r.push(b);
        proof {
            assert(r@ =~= to_be(n as nat, width as nat));
        }
        r
    }
}

/// Reads the big-endian number in `s[start..end]`; at most 16 bytes, so the
/// value fits in a `u128`.
pub fn read_be(s: &[u8], start: usize, end: usize) -> (r: u128)
    requires
        start <= end <= s@.len(),
        end - start <= 16,
    ensures
        r as nat == from_be(s@.subrange(start as int, end as int)),
{
    let mut acc: u128 = 0;
    let mut i: usize = start;
    while i < end
        invariant
            start <= i <= end <= s@.len(),
            end - start <= 16,
            acc as nat == from_be(s@.subrange(start as int, i as int)),
        decreases end - i,
    {
        proof {
            let cur = s@.subrange(start as int, i as int);
            let next = s@.subrange(start as int, i as int + 1);
            assert(next.drop_last() =~= cur);
            assert(next.last() == s@[i as int]);
            lemma_from_be_bound(next);
            lemma_pow256_mono(next.len(), 16);
            lemma_pow256_16();
        }
        acc = acc * 256 + (s[i] as u128);
        i += 1;
    }
    acc
}

/// Copies `s[start..end]` out as an owned vector.
pub fn take_range(s: &[u8], start: usize, end: usize) -> (r: Vec<u8>)
    requires
        start <= end <= s@.len(),
    ensures
        r@ == s@.subrange(start as int, end as int),
{
    let mut r: Vec<u8> = Vec::new();
    let mut i: usize = start;
    while i < end
        invariant
            start <= i <= end <= s@.len(),
            r@ =~= s@.subrange(start as int, i as int),
        decreases end - i,
    {
        r.push(s[i]);
        i += 1;
        proof {
            assert(r@ =~= s@.subrange(start as int, i as int));
        }
    }
    proof {
        assert(r@ =~= s@.subrange(start as int, end as int));
    }
    r
}

/// Compares two byte strings.
pub fn bytes_eq(a: &[u8], b: &[u8]) -> (r: bool)
    ensures
        r == (a@ == b@),
{
    if a.len() != b.len() {
        proof {
            assert(a@.len() != b@.len());
        }
        return false;
    }
    let mut i: usize = 0;
    while i < a.len()
        invariant
            0 <= i <= a@.len(),
            a@.len() == b@.len(),
            forall|j: int| 0 <= j < i ==> a@[j] == b@[j],
        decreases a@.len() - i,
    {
        if a[i] != b[i] {
            return false;
        }
        i += 1;
    }
    proof {
        assert(a@ =~= b@);
    }
    true
}

} // verus!
