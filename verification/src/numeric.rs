use vstd::prelude::*;
use vstd::arithmetic::power2::{
    pow2, lemma_pow2_unfold, lemma_pow2_pos, lemma_pow2_strictly_increases, lemma2_to64,
};
use vstd::bits::{lemma_usize_shl_is_mul, lemma_usize_shr_is_div};

verus! {

/// Position of the most significant set bit of `v`, counted from zero;
/// zero for `v == 0` and `v == 1`.
pub open spec fn first1(v: nat) -> nat
    decreases v,
{
    if v <= 1 {
        0
    } else {
        1 + first1(v / 2)
    }
}

/// `first1(v)` is the exponent of the largest power of two that is at most `v`.
pub proof fn lemma_first1_bounds(v: nat)
    requires
        v >= 1,
    ensures
        pow2(first1(v)) <= v < 2 * pow2(first1(v)),
    decreases v,
{
    if v == 1 {
        lemma2_to64();
    } else {
        lemma_first1_bounds(v / 2);
        lemma_pow2_unfold(first1(v));
    }
}

/// The exponent `k` with `2^k <= v < 2^(k+1)` is `first1(v)`.
pub proof fn lemma_first1_unique(v: nat, k: nat)
    requires
        pow2(k) <= v < 2 * pow2(k),
    ensures
        first1(v) == k,
{
    lemma_pow2_pos(k);
    lemma_first1_bounds(v);
    let f = first1(v);
    if f < k {
        lemma_pow2_unfold(f + 1);
        if f + 1 < k {
            lemma_pow2_strictly_increases(f + 1, k);
        }
    } else if f > k {
        lemma_pow2_unfold(k + 1);
        if k + 1 < f {
            lemma_pow2_strictly_increases(k + 1, f);
        }
    }
}

/// Returns the position of the most significant set bit of `val`.
pub fn first1_index(val: usize) -> (index: usize)
    ensures
        index == first1(val as nat),
        index < usize::BITS,
{
    let mut val = val;
    let mut counter: usize = 0;
    let ghost start = val;
    proof {
        lemma2_to64();
    }
    while val > 1
        invariant
            first1(start as nat) == counter + first1(val as nat),
            (val as nat) * pow2(counter as nat) <= start,
            counter < usize::BITS,
        decreases val,
    {
        proof {
            let v = val;
            assert(v >> 1 == v / 2) by (bit_vector);
            lemma_pow2_unfold((counter + 1) as nat);
            assert(((v / 2) as nat) * (2 * pow2(counter as nat)) <= (v as nat) * pow2(
                counter as nat,
            )) by (nonlinear_arith)
                requires
                    2 * (v / 2) <= v,
            ;
            if counter + 1 >= usize::BITS {
                lemma_pow2_strictly_increases(counter as nat, (counter + 1) as nat);
                lemma2_to64();
                vstd::arithmetic::power2::lemma2_to64_rest();
                if usize::BITS == 32 {
                    if counter + 1 > 32 {
                        lemma_pow2_strictly_increases(32, (counter + 1) as nat);
                    }
                } else {
                    if counter + 1 > 64 {
                        lemma_pow2_strictly_increases(64, (counter + 1) as nat);
                    }
                }
                assert(((v / 2) as nat) * pow2((counter + 1) as nat) >= pow2((counter + 1) as nat))
                    by (nonlinear_arith)
                    requires
                        v / 2 >= 1,
                ;
            }
        }
        counter += 1;
        val = val >> 1;
    }
    counter
}

/// `2^a <= 2^b` for `a <= b`.
pub proof fn lemma_pow2_increases(a: nat, b: nat)
    requires
        a <= b,
    ensures
        pow2(a) <= pow2(b),
{
    if a < b {
        lemma_pow2_strictly_increases(a, b);
    }
}

/// `x * 2^k`, for a product that fits in 32 bits.
pub(crate) fn shift_left(x: usize, k: usize) -> (r: usize)
    requires
        k < 32,
        x * pow2(k as nat) <= u32::MAX,
    ensures
        r == x * pow2(k as nat),
{
    proof {
        lemma_usize_shl_is_mul(x, k);
    }
    x << k
}

/// `x * 2^16`: a bit count as a 16.16 fixed-point number.
pub(crate) fn fixed_point(x: usize) -> (r: usize)
    requires
        x <= 16,
    ensures
        r == x * 65536,
{
    proof {
        lemma2_to64();
        assert(x * pow2(16) == x * 65536);
    }
    shift_left(x, 16)
}

/// `x / 2^k`, rounded down.
pub(crate) fn shift_right(x: usize, k: usize) -> (r: usize)
    requires
        k < 32,
    ensures
        r == x as nat / pow2(k as nat),
{
    proof {
        lemma_usize_shr_is_div(x, k);
    }
    x >> k
}

} // verus!
