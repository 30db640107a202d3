use vstd::prelude::*;
use vstd::arithmetic::power2::{
    pow2, lemma_pow2_unfold, lemma_pow2_pos, lemma_pow2_strictly_increases, lemma2_to64,
    lemma2_to64_rest,
};
use vstd::arithmetic::div_mod::{lemma_mod_breakdown, lemma_div_denominator, lemma_basic_div};
use vstd::bits::lemma_usize_shr_is_div;
use vstd::slice::slice_subrange;
use crate::error::CodecError;

verus! {

/// The `k` low bits of `value`, most significant first.
pub open spec fn low_bits(value: nat, k: nat) -> Seq<bool>
    decreases k,
{
    if k == 0 {
        Seq::empty()
    } else {
        low_bits(value / 2, (k - 1) as nat).push(value % 2 == 1)
    }
}

/// The number that a bit sequence spells, most significant bit first.
pub open spec fn bits_value(bits: Seq<bool>) -> nat
    decreases bits.len(),
{
    if bits.len() == 0 {
        0
    } else {
        2 * bits_value(bits.drop_last()) + if bits.last() {
            1nat
        } else {
            0nat
        }
    }
}

/// `low_bits(value, k)` has `k` bits.
pub proof fn lemma_low_bits_len(value: nat, k: nat)
    ensures
        low_bits(value, k).len() == k,
    decreases k,
{
    if k > 0 {
        lemma_low_bits_len(value / 2, (k - 1) as nat);
    }
}

/// Reading back the `k` low bits of `value` gives `value` modulo `2^k`.
pub proof fn lemma_low_bits_value(value: nat, k: nat)
    ensures
        bits_value(low_bits(value, k)) == value % pow2(k),
    decreases k,
{
    lemma_pow2_pos(k);
    if k == 0 {
        lemma2_to64();
    } else {
        let shorter = low_bits(value / 2, (k - 1) as nat);
        let bits = low_bits(value, k);
        lemma_low_bits_value(value / 2, (k - 1) as nat);
        assert(bits.drop_last() =~= shorter);
        lemma_pow2_unfold(k);
        lemma_pow2_pos((k - 1) as nat);
        lemma_mod_breakdown(value as int, 2, pow2((k - 1) as nat) as int);
    }
}

/// A sequence of `n` bits spells a number below `2^n`.
pub proof fn lemma_bits_value_bound(bits: Seq<bool>)
    ensures
        bits_value(bits) < pow2(bits.len()),
    decreases bits.len(),
{
    if bits.len() == 0 {
        lemma2_to64();
    } else {
        lemma_bits_value_bound(bits.drop_last());
        lemma_pow2_unfold(bits.len());
    }
}

/// A leading part of a bit sequence spells no larger a number than the whole.
pub proof fn lemma_bits_value_prefix(bits: Seq<bool>, n: int)
    requires
        0 <= n <= bits.len(),
    ensures
        bits_value(bits.take(n)) <= bits_value(bits),
    decreases bits.len(),
{
    if n == bits.len() {
        assert(bits.take(n) =~= bits);
    } else {
        lemma_bits_value_prefix(bits.drop_last(), n);
        assert(bits.drop_last().take(n) =~= bits.take(n));
    }
}

/// `2^BITS` is beyond every `usize`.
proof fn lemma_usize_below_pow2(x: usize, k: nat)
    requires
        k >= usize::BITS,
    ensures
        x < pow2(k),
{
    lemma2_to64();
    lemma2_to64_rest();
    if k > usize::BITS {
        lemma_pow2_strictly_increases(usize::BITS as nat, k);
    }
}

/// Appends the `nb_bits` low bits of `state` to `bit_stream`, most
/// significant first. Nothing is appended when `nb_bits` is zero.
pub fn output_nb_bits(bit_stream: &mut Vec<bool>, state: usize, nb_bits: usize)
    ensures
        final(bit_stream)@ == old(bit_stream)@ + low_bits(state as nat, nb_bits as nat),
{
    let mut i: usize = nb_bits;
    proof {
        lemma_pow2_pos(nb_bits as nat);
        assert(bit_stream@ =~= old(bit_stream)@ + low_bits(
            state as nat / pow2(nb_bits as nat),
            0,
        ));
    }
    while i > 0
        invariant
            i <= nb_bits,
            bit_stream@ == old(bit_stream)@ + low_bits(
                state as nat / pow2(i as nat),
                (nb_bits - i) as nat,
            ),
        decreases i,
    {
        proof {
            lemma_pow2_pos(i as nat);
            lemma_pow2_pos((i - 1) as nat);
        }
        let ghost upper = state as nat / pow2(i as nat);
        i -= 1;
        let ghost shifted = state as nat / pow2(i as nat);
        let bit = if i >= usize::BITS as usize {
            proof {
                lemma_usize_below_pow2(state, i as nat);
                lemma_basic_div(state as int, pow2(i as nat) as int);
            }
            false
        } else {
            let top = state >> i;
            proof {
                lemma_usize_shr_is_div(state, i);
                assert(top & 1 == top % 2) by (bit_vector);
            }
            top & 1 == 1
        };
        bit_stream.push(bit);
        proof {
            lemma_pow2_unfold((i + 1) as nat);
            lemma_pow2_pos(i as nat);
            lemma_div_denominator(state as int, pow2(i as nat) as int, 2);
            assert(shifted / 2 == upper);
            assert(bit == (shifted % 2 == 1));
            assert(low_bits(shifted, (nb_bits - i) as nat) == low_bits(
                upper,
                (nb_bits - i - 1) as nat,
            ).push(bit));
            assert(bit_stream@ =~= old(bit_stream)@ + low_bits(shifted, (nb_bits - i) as nat));
        }
    }
    proof {
        lemma2_to64();
        let unit = pow2(i as nat);
        assert(state as nat / unit == state as nat) by (nonlinear_arith)
            requires
                unit == 1,
        ;
    }
}

/// Takes the last `nb_bits` bits off `bit_stream` and reads them as a
/// number, most significant bit first. Returns the number and what is left
/// of the sequence; for `nb_bits == 0` that is zero and the whole sequence.
pub fn bits_to_state<'a>(bit_stream: &'a [bool], nb_bits: usize) -> (r: Result<
    (usize, &'a [bool]),
    CodecError,
>)
    requires
        nb_bits <= bit_stream@.len() ==> bits_value(
            bit_stream@.skip(bit_stream@.len() - nb_bits),
        ) <= usize::MAX,
    ensures
        match r {
            Ok((value, rest)) => {
                &&& nb_bits <= bit_stream@.len()
                &&& value == bits_value(bit_stream@.skip(bit_stream@.len() - nb_bits))
                &&& rest@ == bit_stream@.take(bit_stream@.len() - nb_bits)
            },
            Err(e) => e == CodecError::TruncatedStream && nb_bits > bit_stream@.len(),
        },
{
    let len = bit_stream.len();
    if nb_bits > len {
        return Err(CodecError::TruncatedStream);
    }
    let start = len - nb_bits;
    let ghost tail = bit_stream@.skip(start as int);
    let mut value: usize = 0;
    let mut i: usize = start;
    proof {
        assert(tail.take(0) =~= Seq::<bool>::empty());
    }
    while i < len
        invariant
            start <= i <= len,
            len == bit_stream@.len(),
            tail == bit_stream@.skip(start as int),
            value == bits_value(tail.take(i - start)),
            bits_value(tail) <= usize::MAX,
        decreases len - i,
    {
        proof {
            let longer = tail.take(i + 1 - start);
            assert(longer.drop_last() =~= tail.take(i - start));
            assert(longer.last() == bit_stream@[i as int]);
            lemma_bits_value_prefix(tail, i + 1 - start);
        }
        let low: usize = if bit_stream[i] {
            1
        } else {
            0
        };
        value = 2 * value + low;
        i += 1;
    }
    proof {
        assert(tail.take(len - start) =~= tail);
    }
    Ok((value, slice_subrange(bit_stream, 0, start)))
}

} // verus!
