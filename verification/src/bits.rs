//! Single bits of a `u64` and the number of ones among them.

use vstd::prelude::*;

verus! {

/// Whether bit `i` of `x` is set.
pub open spec fn bit(x: u64, i: int) -> bool {
    0 <= i < 64 && (x >> (i as u64)) & 1 == 1
}

/// The number of set bits of `x` at positions below `n`.
pub open spec fn ones_below(x: u64, n: nat) -> nat
    decreases n,
{
    if n == 0 {
        0
    } else {
        ones_below(x, (n - 1) as nat) + if bit(x, n - 1) { 1nat } else { 0nat }
    }
}

/// The number of set bits of `x`.
pub open spec fn ones(x: u64) -> nat {
    ones_below(x, 64)
}

pub proof fn lemma_bit_or(x: u64, y: u64, i: int)
    ensures
        bit(x | y, i) == (bit(x, i) || bit(y, i)),
{
    if 0 <= i < 64 {
        let k = i as u64;
        assert((((x | y) >> k) & 1 == 1) == ((x >> k) & 1 == 1 || (y >> k) & 1 == 1))
            by (bit_vector)
            requires
                k < 64,
        ;
    }
}

pub proof fn lemma_bit_single(k: u64, i: int)
    requires
        k < 64,
    ensures
        bit(1u64 << k, i) == (i == k),
{
    if 0 <= i < 64 {
        let j = i as u64;
        assert((((1u64 << k) >> j) & 1 == 1) == (j == k)) by (bit_vector)
            requires
                k < 64,
                j < 64,
        ;
    }
}

pub proof fn lemma_bit_zero(i: int)
    ensures
        !bit(0, i),
{
    if 0 <= i < 64 {
        let j = i as u64;
        assert((0u64 >> j) & 1 == 0) by (bit_vector)
            requires
                j < 64,
        ;
    }
}

pub proof fn lemma_ones_below_zero(n: nat)
    ensures
        ones_below(0, n) == 0,
    decreases n,
{
    if n > 0 {
        lemma_ones_below_zero((n - 1) as nat);
        lemma_bit_zero(n - 1);
    }
}

pub proof fn lemma_ones_below_monotone(x: u64, m: nat, n: nat)
    requires
        m <= n,
    ensures
        ones_below(x, m) <= ones_below(x, n),
        ones_below(x, n) - ones_below(x, m) <= n - m,
    decreases n - m,
{
    if m < n {
        lemma_ones_below_monotone(x, m, (n - 1) as nat);
    }
}

/// The rank of a set bit is below the number of set bits, and ranks of two set
/// bits differ.
pub proof fn lemma_rank(x: u64, b: int, c: int)
    requires
        bit(x, b),
        bit(x, c),
    ensures
        ones_below(x, b as nat) < ones(x) <= 64,
        b < c ==> ones_below(x, b as nat) < ones_below(x, c as nat),
        b != c ==> ones_below(x, b as nat) != ones_below(x, c as nat),
{
    lemma_ones_below_monotone(x, (b + 1) as nat, 64);
    lemma_ones_below_monotone(x, 0, 64);
    if b < c {
        lemma_ones_below_monotone(x, (b + 1) as nat, c as nat);
    }
    if c < b {
        lemma_ones_below_monotone(x, (c + 1) as nat, b as nat);
    }
}

/// Clearing one set bit takes one from the count.
pub proof fn lemma_ones_clear(x: u64, y: u64, k: int, n: nat)
    requires
        bit(x, k),
        forall|i: int| 0 <= i < 64 ==> bit(y, i) == (bit(x, i) && i != k),
        n <= 64,
    ensures
        ones_below(x, n) == ones_below(y, n) + if k < n { 1nat } else { 0nat },
    decreases n,
{
    if n > 0 {
        lemma_ones_clear(x, y, k, (n - 1) as nat);
    }
}

pub proof fn lemma_ones_or(x: u64, y: u64, n: nat)
    ensures
        ones_below(x | y, n) <= ones_below(x, n) + ones_below(y, n),
        ones_below(x, n) <= ones_below(x | y, n),
        ones_below(y, n) <= ones_below(x | y, n),
    decreases n,
{
    if n > 0 {
        lemma_ones_or(x, y, (n - 1) as nat);
        lemma_bit_or(x, y, n - 1);
    }
}

/// `u64::count_ones`, one step per set bit.
pub fn count_ones(x: u64) -> (n: u32)
    ensures
        n == ones(x),
        n <= 64,
{
    let mut rest: u64 = x;
    let mut n: u32 = 0;
    proof {
        lemma_ones_below_monotone(x, 0, 64);
    }
    while rest != 0
        invariant
            ones(rest) + n == ones(x),
            ones(x) <= 64,
        decreases rest,
    {
        let k: u32 = rest.trailing_zeros();
        proof {
            vstd::std_specs::bits::axiom_u64_trailing_zeros(rest);
        }
        let next: u64 = rest ^ (1u64 << k);
        proof {
            let kk = k as u64;
            let one: u64 = 1u64 << k;
            assert(one == 1u64 << kk);
            assert(bit(rest, k as int));
            assert forall|i: int| 0 <= i < 64 implies bit(next, i) == (bit(rest, i) && i != k) by {
                let j = i as u64;
                assert((next >> j) & 1 == if j == kk { 0 } else { (rest >> j) & 1 }) by (bit_vector)
                    requires
                        next == rest ^ (1u64 << kk),
                        kk < 64,
                        j < 64,
                        (rest >> kk) & 1 == 1,
                ;
            }
            lemma_ones_clear(rest, next, k as int, 64);
            assert(next < rest) by (bit_vector)
                requires
                    kk < 64,
                    (rest >> kk) & 1 == 1,
                    next == rest ^ (1u64 << kk),
            ;
        }
        n = n + 1;
        rest = next;
    }
    proof {
        lemma_ones_below_zero(64);
    }
    n
}

proof fn lemma_masked(x: u64, y: u64, b: nat, n: nat)
    requires
        forall|i: int| 0 <= i < 64 ==> bit(y, i) == (bit(x, i) && i < b),
        b <= 64,
        n <= 64,
    ensures
        ones_below(y, n) == if n < b {
            ones_below(x, n)
        } else {
            ones_below(x, b)
        },
    decreases n,
{
    if n > 0 {
        lemma_masked(x, y, b, (n - 1) as nat);
    }
}

/// The number of set bits of `x` below position `b`.
pub fn rank(x: u64, b: u8) -> (n: u32)
    requires
        b < 64,
    ensures
        n == ones_below(x, b as nat),
        n <= 64,
{
    let k: u64 = b as u64;
    assert(1u64 << k >= 1) by (bit_vector)
        requires
            k < 64,
    ;
    let mask: u64 = (1u64 << k) - 1;
    let low: u64 = x & mask;
    proof {
        assert forall|i: int| 0 <= i < 64 implies bit(low, i) == (bit(x, i) && i < b) by {
            let j = i as u64;
            assert(((low >> j) & 1 == 1) == ((x >> j) & 1 == 1 && j < k)) by (bit_vector)
                requires
                    low == x & mask,
                    mask == (1u64 << k) - 1,
                    j < 64,
                    k < 64,
            ;
        }
        lemma_masked(x, low, b as nat, 64);
    }
    count_ones(low)
}

} // verus!
