use vstd::prelude::*;
use vstd::arithmetic::power2::{
    pow2, lemma_pow2_adds, lemma_pow2_pos, lemma_pow2_unfold, lemma2_to64,
};
use vstd::arithmetic::div_mod::{
    lemma_div_by_multiple, lemma_div_is_ordered, lemma_fundamental_div_mod_converse,
    lemma_mod_bound, lemma_multiply_divide_lt,
};
use crate::bitio::{low_bits, output_nb_bits};
use crate::builder::Tables;
use crate::distribution::{
    has_symbol, index_of, lemma_index_of_entry, lemma_index_of_listed, lemma_run_within_total,
};
use crate::error::CodecError;
use crate::numeric::{first1, lemma_first1_bounds, lemma_pow2_increases, shift_right};
use crate::table_proofs::{lemma_coding_range, lemma_running_total_bound, lemma_width_threshold};
use crate::tables::{buildable, running_total, tables_of, transform_of, TableSet};

verus! {

broadcast use vstd::std_specs::hash::group_hash_axioms;

/// The number of bits that the encoder emits for `symbol` in `state`.
pub open spec fn emitted_width(t: TableSet, symbol: u8, state: int) -> int {
    (state + t.symbol_tt[symbol].delta_nb_bits) / 65536
}

/// The state that the encoder reaches from `state` on `symbol`.
pub open spec fn next_state(t: TableSet, symbol: u8, state: int) -> nat {
    t.coding_table[state / (pow2(emitted_width(t, symbol, state) as nat) as int)
        + t.symbol_tt[symbol].delta_find_state]
}

/// The state in which the encoder starts on an input whose first byte is
/// `symbol`: the transition out of the all-zero state. That state has no
/// bits to shift out, so the lookup index is the symbol's offset alone; it
/// is taken modulo the table size, and what the transition would emit is
/// dropped.
pub open spec fn primed_state(t: TableSet, symbol: u8) -> nat {
    t.coding_table[t.symbol_tt[symbol].delta_find_state % (t.table_size as int)]
}

/// The encoder's state after the first `k` bytes of `input`.
pub open spec fn state_after(t: TableSet, input: Seq<u8>, k: nat) -> nat
    decreases k,
{
    if k == 0 {
        primed_state(t, input[0])
    } else {
        next_state(t, input[k - 1], state_after(t, input, (k - 1) as nat) as int)
    }
}

/// The bits that the encoder has emitted after the first `k` bytes of `input`.
pub open spec fn stream_after(t: TableSet, input: Seq<u8>, k: nat) -> Seq<bool>
    decreases k,
{
    if k == 0 {
        Seq::empty()
    } else {
        let state = state_after(t, input, (k - 1) as nat);
        stream_after(t, input, (k - 1) as nat) + low_bits(
            state,
            emitted_width(t, input[k - 1], state as int) as nat,
        )
    }
}

/// The bit sequence for `input`: what the encoder emits byte by byte, then
/// the final state, counted from the table size, in `table_log` bits.
pub open spec fn encoded(t: TableSet, input: Seq<u8>) -> Seq<bool> {
    stream_after(t, input, input.len()) + low_bits(
        (state_after(t, input, input.len()) - t.table_size) as nat,
        t.table_log,
    )
}

/// Every byte of `input` has an entry in the encoder's offsets.
pub open spec fn all_listed(t: TableSet, input: Seq<u8>) -> bool {
    forall|k: int| 0 <= k < input.len() ==> t.symbol_tt.contains_key(#[trigger] input[k])
}

/// One step of the encoder on the symbol at `j` of the distribution, from
/// a state of the table: it emits at most `log` bits, what is left of the
/// state lies between the symbol's occurrences and twice that, the lookup
/// stays inside the coding table, and the next state is a state of the table.
pub proof fn lemma_encoder_step(d: Seq<(u8, usize)>, log: nat, j: int, state: int)
    requires
        buildable(d, log),
        0 <= j < d.len(),
        pow2(log) <= state < 2 * pow2(log),
    ensures
        tables_of(d, log).symbol_tt.contains_key(d[j].0),
        tables_of(d, log).symbol_tt[d[j].0] == transform_of(d, log, j),
        state + transform_of(d, log, j).delta_nb_bits >= 0,
        0 <= emitted_width(tables_of(d, log), d[j].0, state) <= log,
        d[j].1 <= state / (pow2(emitted_width(tables_of(d, log), d[j].0, state) as nat) as int) < 2
            * d[j].1,
        state / (pow2(emitted_width(tables_of(d, log), d[j].0, state) as nat) as int)
            + transform_of(d, log, j).delta_find_state == running_total(d, j) + state / (pow2(
            emitted_width(tables_of(d, log), d[j].0, state) as nat,
        ) as int) - d[j].1,
        0 <= state / (pow2(emitted_width(tables_of(d, log), d[j].0, state) as nat) as int)
            + transform_of(d, log, j).delta_find_state < pow2(log),
        pow2(log) <= next_state(tables_of(d, log), d[j].0, state) < 2 * pow2(log),
{
    let t = tables_of(d, log);
    let n = d[j].1 as int;
    let size = pow2(log) as int;
    lemma_index_of_entry(d, j);
    lemma2_to64();
    lemma_pow2_increases(log, 16);
    lemma_pow2_pos(log);
    lemma_running_total_bound(d, j);
    lemma_run_within_total(d, j);
    assert(n >= 1);
    let tr = transform_of(d, log, j);
    assert(t.symbol_tt[d[j].0] == tr);
    let w = emitted_width(t, d[j].0, state);
    if n == 1 {
        assert(w == log);
        lemma_fundamental_div_mod_converse(state, size, 1, state - size);
    } else {
        lemma_width_threshold(n as nat, log);
        let k = first1((n - 1) as nat);
        let mbo = (log - k) as nat;
        lemma_first1_bounds((n - 1) as nat);
        lemma_pow2_adds(k, mbo);
        lemma_pow2_pos(mbo);
        let wide = pow2(mbo) as int;
        assert(tr.delta_nb_bits == mbo * 65536 - n * wide);
        if state >= n * wide {
            assert(w == mbo);
            lemma_div_is_ordered(n * wide, state, wide);
            lemma_div_by_multiple(n, wide);
            assert(state < wide * (2 * n)) by (nonlinear_arith)
                requires
                    state < 2 * size,
                    size < n * wide,
            ;
            lemma_multiply_divide_lt(state, wide, 2 * n);
        } else {
            assert(w == mbo - 1);
            let narrow = pow2((mbo - 1) as nat) as int;
            lemma_pow2_unfold(mbo);
            lemma_pow2_pos((mbo - 1) as nat);
            assert(state < narrow * (2 * n)) by (nonlinear_arith)
                requires
                    state < n * wide,
                    wide == 2 * narrow,
            ;
            lemma_multiply_divide_lt(state, narrow, 2 * n);
            assert(n * narrow <= size) by (nonlinear_arith)
                requires
                    size == pow2(k) * wide,
                    wide == 2 * narrow,
                    n <= 2 * pow2(k),
                    narrow > 0,
            ;
            lemma_div_is_ordered(n * narrow, state, narrow);
            lemma_div_by_multiple(n, narrow);
        }
    }
    let q = state / (pow2(w as nat) as int);
    let index = q + tr.delta_find_state;
    assert(index == running_total(d, j) + q - n);
    lemma_coding_range(d, log, index);
}

/// The state in which the encoder starts is a state of the table.
pub proof fn lemma_primed_state(d: Seq<(u8, usize)>, log: nat, j: int)
    requires
        buildable(d, log),
        0 <= j < d.len(),
    ensures
        tables_of(d, log).symbol_tt.contains_key(d[j].0),
        tables_of(d, log).symbol_tt[d[j].0] == transform_of(d, log, j),
        -pow2(log) <= transform_of(d, log, j).delta_find_state < pow2(log),
        pow2(log) <= primed_state(tables_of(d, log), d[j].0) < 2 * pow2(log),
{
    lemma_index_of_entry(d, j);
    lemma_pow2_pos(log);
    lemma_running_total_bound(d, j);
    lemma_run_within_total(d, j);
    let offset = transform_of(d, log, j).delta_find_state;
    lemma_mod_bound(offset, pow2(log) as int);
    lemma_coding_range(d, log, offset % (pow2(log) as int));
}

/// Looks up the state in which the encoder starts on an input whose first
/// byte is `symbol`.
pub fn prime_state(symbol: u8, tables: &Tables) -> (r: Result<usize, CodecError>)
    requires
        tables.wf(),
    ensures
        match r {
            Ok(state) => {
                &&& tables@.symbol_tt.contains_key(symbol)
                &&& state == primed_state(tables@, symbol)
                &&& tables@.table_size <= state < 2 * tables@.table_size
            },
            Err(e) => e == CodecError::UnknownSymbol && !tables@.symbol_tt.contains_key(symbol),
        },
{
    let ghost d = tables.distribution();
    let ghost log = tables@.table_log;
    let transform = match tables.symbol_tt().get(&symbol) {
        Some(transform) => *transform,
        None => {
            return Err(CodecError::UnknownSymbol);
        },
    };
    let table_size = tables.table_size();
    proof {
        assert(has_symbol(d, symbol));
        lemma_index_of_listed(d, symbol);
        lemma_primed_state(d, log, index_of(d, symbol));
        lemma2_to64();
        lemma_pow2_increases(log, 16);
        let offset = transform.delta_find_state as int;
        let size = table_size as int;
        if offset < 0 {
            lemma_fundamental_div_mod_converse(offset, size, -1, offset + size);
        } else {
            lemma_fundamental_div_mod_converse(offset, size, 0, offset);
        }
    }
    let index = if transform.delta_find_state < 0 {
        (transform.delta_find_state + table_size as isize) as usize
    } else {
        transform.delta_find_state as usize
    };
    Ok(tables.coding_table()[index])
}

/// Encodes one symbol: appends to `bit_stream` the low bits of `state`
/// that the symbol pushes out, and returns the next state. At most
/// `table_log` bits are appended.
pub fn encode_symbol(symbol: u8, state: usize, tables: &Tables, bit_stream: &mut Vec<bool>) -> (r:
    Result<usize, CodecError>)
    requires
        tables.wf(),
        tables@.table_size <= state < 2 * tables@.table_size,
    ensures
        match r {
            Ok(next) => {
                &&& tables@.symbol_tt.contains_key(symbol)
                &&& next == next_state(tables@, symbol, state as int)
                &&& tables@.table_size <= next < 2 * tables@.table_size
                &&& 0 <= emitted_width(tables@, symbol, state as int) <= tables@.table_log
                &&& final(bit_stream)@ == old(bit_stream)@ + low_bits(
                    state as nat,
                    emitted_width(tables@, symbol, state as int) as nat,
                )
            },
            Err(e) => {
                &&& e == CodecError::UnknownSymbol
                &&& !tables@.symbol_tt.contains_key(symbol)
                &&& final(bit_stream)@ == old(bit_stream)@
            },
        },
{
    let ghost d = tables.distribution();
    let ghost log = tables@.table_log;
    let transform = match tables.symbol_tt().get(&symbol) {
        Some(transform) => *transform,
        None => {
            return Err(CodecError::UnknownSymbol);
        },
    };
    proof {
        assert(has_symbol(d, symbol));
        lemma_index_of_listed(d, symbol);
        lemma_encoder_step(d, log, index_of(d, symbol), state as int);
        lemma2_to64();
        lemma_pow2_increases(log, 16);
    }
    let sum = (state as isize + transform.delta_nb_bits) as usize;
    proof {
        assert(sum >> 16 == sum / 65536) by (bit_vector);
    }
    let nb_bits_out = sum >> 16;
    output_nb_bits(bit_stream, state, nb_bits_out);
    let index = (shift_right(state, nb_bits_out) as isize + transform.delta_find_state) as usize;
    Ok(tables.coding_table()[index])
}

/// Encodes `input` into a bit sequence.
///
/// The encoder starts in the state that the first byte leads to from the
/// all-zero state, then takes every byte of the input in order, the first
/// one again included, and at last appends the state it ends in.
pub fn encode_data(input: &[u8], tables: &Tables) -> (r: Result<Vec<bool>, CodecError>)
    requires
        tables.wf(),
    ensures
        match r {
            Ok(bits) => {
                &&& input@.len() > 0
                &&& all_listed(tables@, input@)
                &&& bits@ == encoded(tables@, input@)
            },
            Err(e) => {
                ||| e == CodecError::EmptyInput && input@.len() == 0
                ||| e == CodecError::UnknownSymbol && input@.len() > 0 && !all_listed(
                    tables@,
                    input@,
                )
            },
        },
{
    let ghost t = tables@;
    if input.len() == 0 {
        return Err(CodecError::EmptyInput);
    }
    let mut state = match prime_state(input[0], tables) {
        Ok(state) => state,
        Err(e) => {
            return Err(e);
        },
    };
    let mut bit_stream: Vec<bool> = Vec::new();
    let mut k: usize = 0;
    while k < input.len()
        invariant
            t == tables@,
            tables.wf(),
            k <= input@.len(),
            input@.len() > 0,
            t.table_size <= state < 2 * t.table_size,
            state == state_after(t, input@, k as nat),
            bit_stream@ == stream_after(t, input@, k as nat),
            forall|i: int| 0 <= i < k ==> t.symbol_tt.contains_key(#[trigger] input@[i]),
        decreases input.len() - k,
    {
        match encode_symbol(input[k], state, tables, &mut bit_stream) {
            Ok(next) => {
                state = next;
            },
            Err(e) => {
                return Err(e);
            },
        }
        k += 1;
    }
    output_nb_bits(&mut bit_stream, state - tables.table_size(), tables.table_log());
    Ok(bit_stream)
}

} // verus!
