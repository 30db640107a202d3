use vstd::prelude::*;
use vstd::arithmetic::power2::lemma2_to64;
use crate::bitio::{bits_to_state, bits_value, lemma_bits_value_bound};
use crate::builder::Tables;
use crate::error::CodecError;
use crate::numeric::lemma_pow2_increases;
use crate::table_proofs::lemma_decode_entry_bounds;
use crate::tables::TableSet;

verus! {

/// `tail` appended to a decoded sequence; an error stays as it is.
pub open spec fn append_to(r: Result<Seq<u8>, CodecError>, tail: Seq<u8>) -> Result<
    Seq<u8>,
    CodecError,
> {
    match r {
        Ok(front) => Ok(front + tail),
        Err(e) => Err(e),
    }
}

/// What the decoder recovers from `stream` when it is in `state`.
///
/// With the bit sequence used up, nothing more is recovered. Otherwise the
/// state names a symbol, which was encoded last and so comes last; the
/// state's step takes bits off the end of the sequence and leads to the
/// state from which the rest is recovered. A step that takes no bits must
/// lead to a lower state: one that does not would never end, and the bit
/// sequence is refused as corrupt.
pub open spec fn decode_from(t: TableSet, stream: Seq<bool>, state: nat) -> Result<
    Seq<u8>,
    CodecError,
>
    decreases stream.len(), state,
{
    if stream.len() == 0 {
        Ok(Seq::empty())
    } else {
        let step = t.decode_table[state as int];
        if step.nb_bits == 0 {
            if step.new_x >= state {
                Err(CodecError::CorruptStream)
            } else {
                append_to(decode_from(t, stream, step.new_x), seq![step.symbol])
            }
        } else if step.nb_bits > stream.len() {
            Err(CodecError::TruncatedStream)
        } else {
            let kept = stream.len() - step.nb_bits;
            append_to(
                decode_from(t, stream.take(kept), step.new_x + bits_value(stream.skip(kept))),
                seq![step.symbol],
            )
        }
    }
}

/// What the decoder recovers from `stream`: the last `table_log` bits name
/// the state in which it starts on the rest.
pub open spec fn decoded(t: TableSet, stream: Seq<bool>) -> Result<Seq<u8>, CodecError> {
    if stream.len() < t.table_log {
        Err(CodecError::TruncatedStream)
    } else {
        let kept = stream.len() - t.table_log;
        decode_from(t, stream.take(kept), bits_value(stream.skip(kept)))
    }
}

/// Appending twice is appending the two tails joined.
pub proof fn lemma_append_twice(r: Result<Seq<u8>, CodecError>, a: Seq<u8>, b: Seq<u8>)
    ensures
        append_to(append_to(r, a), b) == append_to(r, a + b),
{
    match r {
        Ok(front) => {
            assert((front + a) + b =~= front + (a + b));
        },
        Err(e) => {},
    }
}

/// Decodes one symbol: looks up the step of `state`, takes its bits off
/// the end of `bit_stream`, and returns the symbol, the next state and
/// what is left of the bit sequence.
pub fn decode_symbol<'a>(state: usize, bit_stream: &'a [bool], tables: &Tables) -> (r: Result<
    (u8, usize, &'a [bool]),
    CodecError,
>)
    requires
        tables.wf(),
        state < tables@.table_size,
    ensures
        match r {
            Ok((symbol, next, rest)) => {
                let step = tables@.decode_table[state as int];
                &&& step.nb_bits <= bit_stream@.len()
                &&& symbol == step.symbol
                &&& next == step.new_x + bits_value(
                    bit_stream@.skip(bit_stream@.len() - step.nb_bits),
                )
                &&& rest@ == bit_stream@.take(bit_stream@.len() - step.nb_bits)
                &&& next < tables@.table_size
            },
            Err(e) => {
                &&& e == CodecError::TruncatedStream
                &&& tables@.decode_table[state as int].nb_bits > bit_stream@.len()
            },
        },
{
    let ghost d = tables.distribution();
    let ghost log = tables@.table_log;
    let step = tables.decode_table()[state];
    proof {
        lemma_decode_entry_bounds(d, log, state as int);
        lemma2_to64();
        lemma_pow2_increases(log, 16);
        lemma_pow2_increases(step.nb_bits as nat, log);
        if step.nb_bits <= bit_stream@.len() {
            lemma_bits_value_bound(bit_stream@.skip(bit_stream@.len() - step.nb_bits));
        }
    }
    match bits_to_state(bit_stream, step.nb_bits) {
        Ok((read, rest)) => Ok((step.symbol, step.new_x + read, rest)),
        Err(e) => Err(e),
    }
}

/// Returns the elements of `v` in reverse order.
fn reversed(v: &Vec<u8>) -> (r: Vec<u8>)
    ensures
        r@ == v@.reverse(),
{
    let mut r: Vec<u8> = Vec::new();
    let mut i: usize = v.len();
    while i > 0
        invariant
            i <= v@.len(),
            r@.len() == v@.len() - i,
            forall|k: int| 0 <= k < r@.len() ==> #[trigger] r@[k] == v@[v@.len() - 1 - k],
        decreases i,
    {
        i -= 1;
        r.push(v[i]);
    }
    proof {
        assert(r@ =~= v@.reverse());
    }
    r
}

/// Decodes a bit sequence into the bytes it was encoded from.
///
/// The last `table_log` bits name the state in which the decoder starts.
/// While bits are left it emits the symbol of its state and takes the
/// state's step; with the bits used up it stops without emitting the
/// symbol of the state it is in. The symbols come out last first and are
/// returned in the order of the input.
pub fn decode_data(bit_stream: &[bool], tables: &Tables) -> (r: Result<Vec<u8>, CodecError>)
    requires
        tables.wf(),
    ensures
        match r {
            Ok(output) => decoded(tables@, bit_stream@) == Ok::<Seq<u8>, CodecError>(output@),
            Err(e) => decoded(tables@, bit_stream@) == Err::<Seq<u8>, CodecError>(e),
        },
{
    let ghost t = tables@;
    let ghost d = tables.distribution();
    let ghost log = tables@.table_log;
    let table_log = tables.table_log();
    proof {
        lemma2_to64();
        lemma_pow2_increases(log, 16);
        if table_log <= bit_stream@.len() {
            lemma_bits_value_bound(bit_stream@.skip(bit_stream@.len() - table_log));
        }
    }
    let (first, body) = match bits_to_state(bit_stream, table_log) {
        Ok(parts) => parts,
        Err(e) => {
            return Err(e);
        },
    };
    let mut state: usize = first;
    let mut rest: &[bool] = body;
    let mut emitted: Vec<u8> = Vec::new();
    let ghost whole = decode_from(t, body@, first as nat);
    proof {
        assert(emitted@.reverse() =~= Seq::<u8>::empty());
        lemma_append_empty(whole);
    }
    while rest.len() > 0
        invariant
            t == tables@,
            d == tables.distribution(),
            log == t.table_log,
            tables.wf(),
            state < t.table_size,
            whole == decoded(t, bit_stream@),
            whole == append_to(decode_from(t, rest@, state as nat), emitted@.reverse()),
        decreases rest@.len(), state,
    {
        let step = tables.decode_table()[state];
        if step.nb_bits == 0 && step.new_x >= state {
            return Err(CodecError::CorruptStream);
        }
        let ghost before = emitted@;
        let ghost inner = decode_from(t, rest@, state as nat);
        match decode_symbol(state, rest, tables) {
            Ok((symbol, next, shorter)) => {
                proof {
                    if step.nb_bits == 0 {
                        assert(rest@.take(rest@.len() as int) =~= rest@);
                        assert(rest@.skip(rest@.len() as int) =~= Seq::<bool>::empty());
                    }
                    let deeper = decode_from(t, shorter@, next as nat);
                    assert(inner == append_to(deeper, seq![symbol]));
                    lemma_append_twice(deeper, seq![symbol], before.reverse());
                    assert(before.push(symbol).reverse() =~= seq![symbol] + before.reverse());
                }
                emitted.push(symbol);
                state = next;
                rest = shorter;
            },
            Err(e) => {
                return Err(e);
            },
        }
    }
    proof {
        lemma_append_empty_front(emitted@.reverse());
    }
    Ok(reversed(&emitted))
}

/// Appending nothing changes nothing.
pub proof fn lemma_append_empty(r: Result<Seq<u8>, CodecError>)
    ensures
        append_to(r, Seq::empty()) == r,
{
    match r {
        Ok(front) => {
            assert(front + Seq::<u8>::empty() =~= front);
        },
        Err(e) => {},
    }
}

/// Appending to a decoded sequence that is empty gives the tail.
pub proof fn lemma_append_empty_front(tail: Seq<u8>)
    ensures
        append_to(Ok(Seq::empty()), tail) == Ok::<Seq<u8>, CodecError>(tail),
{
    assert(Seq::<u8>::empty() + tail =~= tail);
}

} // verus!
