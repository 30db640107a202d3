use vstd::prelude::*;
use vstd::arithmetic::power2::{pow2, lemma_pow2_adds, lemma_pow2_pos, lemma_pow2_unfold};
use vstd::arithmetic::div_mod::{
    lemma_div_by_multiple, lemma_div_is_ordered, lemma_fundamental_div_mod,
    lemma_multiply_divide_lt, lemma_small_mod,
};
use crate::bitio::{low_bits, lemma_low_bits_len, lemma_low_bits_value};
use crate::builder::Tables;
use crate::decoder::{append_to, decode_from, decoded};
use crate::distribution::{
    cumulative, has_symbol, index_of, lemma_cumulative_ends, lemma_cumulative_monotonic,
    lemma_cumulative_step, lemma_index_of_entry, lemma_index_of_listed, lemma_owner_unique,
    lemma_run_within_total,
};
use crate::error::CodecError;
use crate::encoder::{
    all_listed, emitted_width, encoded, next_state, primed_state, state_after, stream_after,
    lemma_encoder_step, lemma_primed_state,
};
use crate::numeric::lemma_first1_unique;
use crate::spread::{occurrences_in, spread_table, lemma_occurrences_bound};
use crate::table_proofs::{
    lemma_coding_range, lemma_decode_entry_bounds, lemma_spread_table_len, lemma_state_for_slot,
};
use crate::tables::{
    buildable, decode_entry, rank, running_total, state_for_slot, tables_of, transform_of,
    TableSet,
};

verus! {

/// The encoder looks the symbol at `j` up where its run in the coding
/// table begins: no symbol before it occurs only once.
pub open spec fn aligned(d: Seq<(u8, usize)>, j: int) -> bool {
    running_total(d, j) == cumulative(d, j)
}

/// The input is not empty, and the encoder looks each of its bytes up
/// where the byte's run begins.
pub open spec fn lookups_aligned(d: Seq<(u8, usize)>, input: Seq<u8>) -> bool {
    &&& input.len() > 0
    &&& forall|k: int|
        0 <= k < input.len() ==> has_symbol(d, #[trigger] input[k]) && aligned(
            d,
            index_of(d, input[k]),
        )
}

/// How many leading bytes of `input` the encoder has taken without
/// emitting a bit, among the first `k`.
pub open spec fn silent_prefix(t: TableSet, input: Seq<u8>, k: nat) -> nat
    decreases k,
{
    if k == 0 {
        0
    } else if stream_after(t, input, k).len() == 0 {
        k
    } else {
        silent_prefix(t, input, (k - 1) as nat)
    }
}

/// Where one symbol has fewer occurrences than the table has states,
/// every symbol has.
proof fn lemma_not_alone(d: Seq<(u8, usize)>, log: nat, j: int, other: int)
    requires
        buildable(d, log),
        0 <= j < d.len(),
        0 <= other < d.len(),
        d[other].1 < pow2(log),
    ensures
        d[j].1 < pow2(log),
{
    lemma_run_within_total(d, j);
    lemma_run_within_total(d, other);
    lemma_cumulative_step(d, j);
    lemma_cumulative_step(d, other);
    lemma_cumulative_ends(d);
    if other < j {
        lemma_cumulative_monotonic(d, other + 1, j);
        lemma_cumulative_monotonic(d, 0, other);
    } else if other > j {
        lemma_cumulative_monotonic(d, j + 1, other);
    }
}

/// The encoder's states are states of the table, whatever the input.
pub proof fn lemma_state_in_table(d: Seq<(u8, usize)>, log: nat, input: Seq<u8>, k: nat)
    requires
        buildable(d, log),
        input.len() > 0,
        k <= input.len(),
        forall|i: int| 0 <= i < input.len() ==> has_symbol(d, #[trigger] input[i]),
    ensures
        pow2(log) <= state_after(tables_of(d, log), input, k) < 2 * pow2(log),
    decreases k,
{
    if k == 0 {
        lemma_index_of_listed(d, input[0]);
        lemma_primed_state(d, log, index_of(d, input[0]));
    } else {
        lemma_state_in_table(d, log, input, (k - 1) as nat);
        lemma_index_of_listed(d, input[k - 1]);
        lemma_encoder_step(
            d,
            log,
            index_of(d, input[k - 1]),
            state_after(tables_of(d, log), input, (k - 1) as nat) as int,
        );
    }
}

/// The decoder undoes one step of the encoder: from the state that the
/// encoder reached it emits the encoded symbol, takes back the bits that
/// the encoder appended, and arrives at the state that the encoder left.
proof fn lemma_step_undone(d: Seq<(u8, usize)>, log: nat, j: int, state: int)
    requires
        buildable(d, log),
        0 <= j < d.len(),
        aligned(d, j),
        pow2(log) <= state < 2 * pow2(log),
    ensures
        ({
            let t = tables_of(d, log);
            let width = emitted_width(t, d[j].0, state);
            let next = next_state(t, d[j].0, state);
            let step = t.decode_table[next - pow2(log)];
            &&& 0 <= width <= log
            &&& pow2(log) <= next < 2 * pow2(log)
            &&& step.symbol == d[j].0
            &&& step.nb_bits == width
            &&& step.new_x + state % (pow2(width as nat) as int) == state - pow2(log)
            &&& width == 0 && d[j].1 < pow2(log) ==> step.new_x < next - pow2(log)
        }),
{
    let t = tables_of(d, log);
    let table = spread_table(d, log);
    let size = pow2(log) as int;
    let n = d[j].1 as int;
    let width = emitted_width(t, d[j].0, state);
    lemma_encoder_step(d, log, j, state);
    lemma_pow2_pos(log);
    lemma_pow2_pos(width as nat);
    let unit = pow2(width as nat) as int;
    let q = state / unit;
    let slot = cumulative(d, j) + q - n;
    assert(slot == q + transform_of(d, log, j).delta_find_state);
    lemma_cumulative_step(d, j);
    lemma_owner_unique(d, slot as nat, j);
    lemma_state_for_slot(d, log, slot);
    let i = state_for_slot(d, table, slot);
    assert(next_state(t, d[j].0, state) == size + i);
    lemma_index_of_entry(d, j);
    assert(table[i] == d[j].0);
    assert(rank(table, i) == q - n);
    // the top bit of what is left of the state stands `width` below the table's.
    let high = pow2((log - width) as nat) as int;
    lemma_pow2_adds((log - width) as nat, width as nat);
    lemma_pow2_pos((log - width) as nat);
    lemma_div_is_ordered(high * unit, state, unit);
    lemma_div_by_multiple(high, unit);
    assert(state < unit * (2 * high)) by (nonlinear_arith)
        requires
            state < 2 * size,
            size == high * unit,
    ;
    lemma_multiply_divide_lt(state, unit, 2 * high);
    lemma_first1_unique(q as nat, (log - width) as nat);
    lemma_decode_entry_bounds(d, log, i);
    let step = decode_entry(d, log, i);
    assert(t.decode_table[i] == step);
    assert(step.nb_bits == width);
    lemma_fundamental_div_mod(state, unit);
    assert(unit * q == q * unit) by (nonlinear_arith);
    lemma_occurrences_bound(table.take(i), table[i]);
    lemma_spread_table_len(d, log);
    assert(step.new_x + pow2(log) == q * unit);
    if width == 0 {
        assert(pow2(0) == 1) by {
            vstd::arithmetic::power2::lemma2_to64();
        }
        assert(q * unit == q) by (nonlinear_arith)
            requires
                unit == 1,
        ;
        assert(rank(table, i) <= i);
    }
}

/// A step that emits a bit is a step on a symbol that does not fill the table.
proof fn lemma_width_means_room(d: Seq<(u8, usize)>, log: nat, j: int, state: int)
    requires
        buildable(d, log),
        0 <= j < d.len(),
        pow2(log) <= state < 2 * pow2(log),
        emitted_width(tables_of(d, log), d[j].0, state) >= 1,
    ensures
        d[j].1 < pow2(log),
{
    let width = emitted_width(tables_of(d, log), d[j].0, state);
    lemma_encoder_step(d, log, j, state);
    lemma_pow2_pos(log);
    lemma_pow2_unfold(width as nat);
    lemma_pow2_pos((width - 1) as nat);
    let unit = pow2(width as nat) as int;
    assert(state < unit * pow2(log)) by (nonlinear_arith)
        requires
            state < 2 * pow2(log),
            unit >= 2,
            pow2(log) > 0,
    ;
    lemma_multiply_divide_lt(state, unit, pow2(log) as int);
}

/// What the encoder has emitted after `k` bytes, the decoder turns back
/// into those bytes, but for the leading ones that left no bit, when it
/// starts in the state that the encoder is in.
proof fn lemma_prefix_recovered(d: Seq<(u8, usize)>, log: nat, input: Seq<u8>, k: nat)
    requires
        buildable(d, log),
        lookups_aligned(d, input),
        k <= input.len(),
    ensures
        pow2(log) <= state_after(tables_of(d, log), input, k) < 2 * pow2(log),
        silent_prefix(tables_of(d, log), input, k) <= k,
        stream_after(tables_of(d, log), input, k).len() >= 1 ==> forall|j: int|
            0 <= j < d.len() ==> (#[trigger] d[j]).1 < pow2(log),
        decode_from(
            tables_of(d, log),
            stream_after(tables_of(d, log), input, k),
            (state_after(tables_of(d, log), input, k) - pow2(log)) as nat,
        ) == Ok::<Seq<u8>, CodecError>(
            input.subrange(silent_prefix(tables_of(d, log), input, k) as int, k as int),
        ),
    decreases k,
{
    let t = tables_of(d, log);
    lemma_state_in_table(d, log, input, k);
    if k == 0 {
        assert(input.subrange(0, 0) =~= Seq::<u8>::empty());
    } else {
        let before = (k - 1) as nat;
        lemma_prefix_recovered(d, log, input, before);
        let state = state_after(t, input, before) as int;
        let symbol = input[k - 1];
        lemma_index_of_listed(d, symbol);
        let j = index_of(d, symbol);
        let width = emitted_width(t, symbol, state);
        lemma_step_undone(d, log, j, state);
        let emitted = low_bits(state as nat, width as nat);
        lemma_low_bits_len(state as nat, width as nat);
        lemma_low_bits_value(state as nat, width as nat);
        let earlier = stream_after(t, input, before);
        let stream = stream_after(t, input, k);
        assert(stream == earlier + emitted);
        let next = state_after(t, input, k);
        if stream.len() == 0 {
            assert(input.subrange(k as int, k as int) =~= Seq::<u8>::empty());
        } else {
            if earlier.len() == 0 {
                lemma_width_means_room(d, log, j, state);
            }
            assert forall|other: int| 0 <= other < d.len() implies (#[trigger] d[other]).1 < pow2(
                log,
            ) by {
                lemma_not_alone(d, log, other, j);
            }
            let kept = stream.len() - width;
            assert(stream.take(kept) =~= earlier);
            assert(stream.skip(kept) =~= emitted);
            if width == 0 {
                assert(stream =~= earlier);
                assert(pow2(0) == 1) by {
                    vstd::arithmetic::power2::lemma2_to64();
                }
            }
            let deeper = decode_from(t, earlier, (state - pow2(log)) as nat);
            assert(decode_from(t, stream, (next - pow2(log)) as nat) == append_to(
                deeper,
                seq![symbol],
            ));
            let from = silent_prefix(t, input, before) as int;
            assert(input.subrange(from, before as int) + seq![symbol] =~= input.subrange(
                from,
                k as int,
            ));
        }
    }
}

/// Once the encoder has emitted a bit, no leading byte is counted as silent.
proof fn lemma_silent_prefix(t: TableSet, input: Seq<u8>, k: nat)
    requires
        1 <= k,
    ensures
        stream_after(t, input, 1).len() <= stream_after(t, input, k).len(),
        stream_after(t, input, 1).len() >= 1 ==> silent_prefix(t, input, k) == 0,
        stream_after(t, input, 1).len() == 0 ==> silent_prefix(t, input, k) >= 1,
    decreases k,
{
    if k > 1 {
        lemma_silent_prefix(t, input, (k - 1) as nat);
    } else {
        assert(silent_prefix(t, input, 0) == 0);
    }
}

/// What the decoder recovers from an encoded input: the input without
/// the leading bytes for which the encoder emitted no bit.
///
/// This holds of every distribution from which tables can be built and of
/// every input that is not empty and whose bytes the encoder looks up
/// where their runs begin.
pub proof fn lemma_decoded_suffix(d: Seq<(u8, usize)>, log: nat, input: Seq<u8>)
    requires
        buildable(d, log),
        lookups_aligned(d, input),
    ensures
        silent_prefix(tables_of(d, log), input, input.len()) <= input.len(),
        decoded(tables_of(d, log), encoded(tables_of(d, log), input)) == Ok::<
            Seq<u8>,
            CodecError,
        >(input.skip(silent_prefix(tables_of(d, log), input, input.len()) as int)),
{
    let t = tables_of(d, log);
    let n = input.len();
    lemma_prefix_recovered(d, log, input, n);
    let last = state_after(t, input, n);
    let body = stream_after(t, input, n);
    let tail = low_bits((last - pow2(log)) as nat, log);
    lemma_low_bits_len((last - pow2(log)) as nat, log);
    lemma_low_bits_value((last - pow2(log)) as nat, log);
    lemma_pow2_pos(log);
    lemma_small_mod((last - pow2(log)) as nat, pow2(log));
    let stream = encoded(t, input);
    assert(stream == body + tail);
    let kept = stream.len() - log;
    assert(stream.take(kept) =~= body);
    assert(stream.skip(kept) =~= tail);
    let from = silent_prefix(t, input, n) as int;
    assert(input.subrange(from, n as int) =~= input.skip(from));
}

/// Decoding what was encoded gives the input back if and only if the
/// first byte makes the encoder emit a bit.
///
/// This holds of every distribution from which tables can be built and of
/// every input that is not empty and whose bytes the encoder looks up
/// where their runs begin.
pub proof fn lemma_round_trip(d: Seq<(u8, usize)>, log: nat, input: Seq<u8>)
    requires
        buildable(d, log),
        lookups_aligned(d, input),
    ensures
        decoded(tables_of(d, log), encoded(tables_of(d, log), input)) == Ok::<
            Seq<u8>,
            CodecError,
        >(input) <==> emitted_width(
            tables_of(d, log),
            input[0],
            primed_state(tables_of(d, log), input[0]) as int,
        ) >= 1,
{
    let t = tables_of(d, log);
    let n = input.len();
    lemma_decoded_suffix(d, log, input);
    lemma_silent_prefix(t, input, n);
    let start = primed_state(t, input[0]);
    let width = emitted_width(t, input[0], start as int);
    lemma_index_of_listed(d, input[0]);
    lemma_primed_state(d, log, index_of(d, input[0]));
    lemma_encoder_step(d, log, index_of(d, input[0]), start as int);
    lemma_low_bits_len(start, width as nat);
    assert(stream_after(t, input, 0).len() == 0);
    assert(stream_after(t, input, 1).len() == width);
    let from = silent_prefix(t, input, n) as int;
    if from == 0 {
        assert(input.skip(0) =~= input);
    } else {
        assert(input.skip(from).len() < input.len());
    }
}

/// The same for the tables that `build_tables` returns.
pub proof fn lemma_round_trip_tables(tables: Tables, input: Seq<u8>)
    requires
        tables.wf(),
        lookups_aligned(tables.distribution(), input),
    ensures
        decoded(tables@, encoded(tables@, input)) == Ok::<Seq<u8>, CodecError>(input)
            <==> emitted_width(tables@, input[0], primed_state(tables@, input[0]) as int) >= 1,
{
    lemma_round_trip(tables.distribution(), tables@.table_log, input);
}

/// The slots of `table` that hold `symbol`.
pub open spec fn slots_holding(table: Seq<u8>, symbol: u8) -> Set<int> {
    Set::new(|i: int| 0 <= i < table.len() && table[i] == symbol)
}

/// The states in which the decoder emits `symbol`.
pub open spec fn states_emitting(t: TableSet, symbol: u8) -> Set<int> {
    Set::new(|i: int| 0 <= i < t.decode_table.len() && t.decode_table[i].symbol == symbol)
}

/// The slots that hold a symbol are as many as the symbol's occurrences in the table.
pub proof fn lemma_slots_holding_len(table: Seq<u8>, symbol: u8)
    ensures
        slots_holding(table, symbol).finite(),
        slots_holding(table, symbol).len() == occurrences_in(table, symbol),
    decreases table.len(),
{
    if table.len() == 0 {
        assert(slots_holding(table, symbol) =~= Set::<int>::empty());
    } else {
        let front = table.drop_last();
        let last = table.len() - 1;
        lemma_slots_holding_len(front, symbol);
        if table.last() == symbol {
            assert(slots_holding(table, symbol) =~= slots_holding(front, symbol).insert(last));
        } else {
            assert(slots_holding(table, symbol) =~= slots_holding(front, symbol));
        }
    }
}

/// In the state table every symbol of the distribution holds exactly as
/// many slots as it has occurrences.
pub proof fn lemma_spread_covers(tables: Tables, j: int)
    requires
        tables.wf(),
        0 <= j < tables.distribution().len(),
    ensures
        slots_holding(
            spread_table(tables.distribution(), tables@.table_log),
            tables.distribution()[j].0,
        ).finite(),
        slots_holding(
            spread_table(tables.distribution(), tables@.table_log),
            tables.distribution()[j].0,
        ).len() == tables.distribution()[j].1,
{
    let d = tables.distribution();
    let log = tables@.table_log;
    lemma_slots_holding_len(spread_table(d, log), d[j].0);
    assert(occurrences_in(spread_table(d, log), d[j].0) == d[j].1);
}

/// The decoder emits every symbol of the distribution in exactly as many
/// states as the symbol has occurrences.
pub proof fn lemma_decode_table_covers(tables: Tables, j: int)
    requires
        tables.wf(),
        0 <= j < tables.distribution().len(),
    ensures
        states_emitting(tables@, tables.distribution()[j].0).finite(),
        states_emitting(tables@, tables.distribution()[j].0).len() == tables.distribution()[j].1,
{
    let d = tables.distribution();
    let log = tables@.table_log;
    let table = spread_table(d, log);
    lemma_spread_table_len(d, log);
    lemma_spread_covers(tables, j);
    assert(states_emitting(tables@, d[j].0) =~= slots_holding(table, d[j].0));
}

/// Every entry of the coding table is a state: it lies between the table
/// size and twice the table size.
pub proof fn lemma_coding_table_range(tables: Tables, c: int)
    requires
        tables.wf(),
        0 <= c < tables@.table_size,
    ensures
        tables@.coding_table.len() == tables@.table_size,
        tables@.table_size <= tables@.coding_table[c] < 2 * tables@.table_size,
{
    lemma_coding_range(tables.distribution(), tables@.table_log, c);
}

/// Whatever the input, the encoder emits at most `table_log` bits for a byte.
pub proof fn lemma_bit_count_bound(tables: Tables, input: Seq<u8>, k: int)
    requires
        tables.wf(),
        all_listed(tables@, input),
        0 <= k < input.len(),
    ensures
        0 <= emitted_width(tables@, input[k], state_after(tables@, input, k as nat) as int)
            <= tables@.table_log,
{
    let d = tables.distribution();
    let log = tables@.table_log;
    assert forall|i: int| 0 <= i < input.len() implies has_symbol(d, #[trigger] input[i]) by {
        assert(tables@.symbol_tt.contains_key(input[i]));
    }
    lemma_state_in_table(d, log, input, k as nat);
    lemma_index_of_listed(d, input[k]);
    lemma_encoder_step(d, log, index_of(d, input[k]), state_after(tables@, input, k as nat) as int);
}

/// The tables are a function of the distribution and the table size: two
/// sets of tables built from the same distribution for the same size are equal.
pub proof fn lemma_tables_determined(a: Tables, b: Tables)
    requires
        a.wf(),
        b.wf(),
        a.distribution() == b.distribution(),
        a@.table_log == b@.table_log,
    ensures
        a@ == b@,
{
}

} // verus!
