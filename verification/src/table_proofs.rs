use vstd::prelude::*;
use vstd::arithmetic::power2::{pow2, lemma_pow2_unfold, lemma_pow2_pos, lemma_pow2_adds};
use vstd::arithmetic::mul::{lemma_mul_inequality, lemma_mul_strict_inequality};
use crate::distribution::{
    cumulative, has_symbol, index_of, owner, symbols_distinct, total_occurrences,
    lemma_cumulative_ends, lemma_cumulative_monotonic, lemma_cumulative_step, lemma_index_of_entry,
    lemma_index_of_listed, lemma_owner_range, lemma_run_within_total,
};
use crate::numeric::{first1, lemma_first1_bounds, lemma_first1_unique, lemma_pow2_increases};
use crate::spread::{
    occurrences_in, spread_table, lemma_occurrences_take_monotonic, lemma_occurrences_take_step,
    lemma_spread_prefix_len,
};
use crate::tables::{
    buildable, coding_slot, coding_table_of, decode_entry, output_bits_of, rank, running_total,
    state_for_slot,
};

verus! {

/// The state table has `2^log` slots.
pub proof fn lemma_spread_table_len(d: Seq<(u8, usize)>, log: nat)
    ensures
        spread_table(d, log).len() == pow2(log),
{
    lemma_spread_prefix_len(d, log, total_occurrences(d));
}

/// Shifting `x` up to the table's range: with `f` the position of its top
/// bit, `x * 2^(log - f)` lies in `[2^log, 2^(log + 1))`, and so does the
/// whole block of numbers that share those leading bits.
pub proof fn lemma_scale_to_table(x: nat, log: nat)
    requires
        1 <= x < 2 * pow2(log),
    ensures
        first1(x) <= log,
        pow2(log) <= x * pow2((log - first1(x)) as nat),
        x * pow2((log - first1(x)) as nat) + pow2((log - first1(x)) as nat) <= 2 * pow2(log),
{
    let f = first1(x);
    lemma_first1_bounds(x);
    lemma_pow2_unfold(log + 1);
    if f > log {
        lemma_pow2_increases(log + 1, f);
    }
    let nb = (log - f) as nat;
    lemma_pow2_adds(f, nb);
    lemma_pow2_pos(nb);
    lemma_mul_inequality(pow2(f) as int, x as int, pow2(nb) as int);
    lemma_mul_inequality((x + 1) as int, 2 * pow2(f) as int, pow2(nb) as int);
    assert((x + 1) * pow2(nb) == x * pow2(nb) + pow2(nb)) by (nonlinear_arith);
    assert((2 * pow2(f)) * pow2(nb) == 2 * (pow2(f) * pow2(nb))) by (nonlinear_arith);
}

/// For a symbol that occurs `n >= 2` times, `n` shifted left by
/// `log - first1(n - 1)` bits lies in `(2^log, 2^(log + 1)]`.
pub proof fn lemma_width_threshold(n: nat, log: nat)
    requires
        2 <= n <= pow2(log),
    ensures
        first1((n - 1) as nat) < log,
        pow2(log) < n * pow2((log - first1((n - 1) as nat)) as nat) <= 2 * pow2(log),
{
    let k = first1((n - 1) as nat);
    lemma_first1_bounds((n - 1) as nat);
    if k >= log {
        lemma_pow2_increases(log, k);
    }
    let width = (log - k) as nat;
    lemma_pow2_adds(k, width);
    lemma_pow2_pos(width);
    lemma_mul_strict_inequality(pow2(k) as int, n as int, pow2(width) as int);
    lemma_mul_inequality(n as int, 2 * pow2(k) as int, pow2(width) as int);
    assert((2 * pow2(k)) * pow2(width) == 2 * (pow2(k) * pow2(width))) by (nonlinear_arith);
}

/// Every state of the table has its top bit at position `log`.
pub proof fn lemma_output_bits_zero(log: nat, i: int)
    requires
        0 <= i < pow2(log),
    ensures
        first1((pow2(log) + i) as nat) == log,
        output_bits_of(log)[i] == 0,
{
    lemma_first1_unique((pow2(log) + i) as nat, log);
}

/// The sum that the encoder's offsets are taken from never runs ahead of
/// the start of the symbol's run.
pub proof fn lemma_running_total_bound(d: Seq<(u8, usize)>, j: int)
    requires
        0 <= j <= d.len(),
    ensures
        running_total(d, j) <= cumulative(d, j),
    decreases j,
{
    if j > 0 {
        lemma_running_total_bound(d, j - 1);
        lemma_cumulative_step(d, j - 1);
    } else {
        lemma_cumulative_ends(d);
    }
}

/// Sum, over the first `m` symbols, of how often each stands in `table`.
pub open spec fn listed_total(table: Seq<u8>, d: Seq<(u8, usize)>, m: int) -> nat
    decreases m,
{
    if m <= 0 {
        0
    } else {
        listed_total(table, d, m - 1) + occurrences_in(table, d[m - 1].0)
    }
}

/// `symbol` is one of the first `m` symbols.
pub open spec fn listed_before(d: Seq<(u8, usize)>, m: int, symbol: u8) -> bool {
    exists|j: int| 0 <= j < m && (#[trigger] d[j]).0 == symbol
}

/// In an empty table no symbol fills a slot.
proof fn lemma_listed_total_empty(d: Seq<(u8, usize)>, m: int)
    ensures
        listed_total(Seq::empty(), d, m) == 0,
    decreases m,
{
    if m > 0 {
        lemma_listed_total_empty(d, m - 1);
    }
}

/// One more slot adds one to the sum if it holds one of the first `m`
/// symbols, and nothing otherwise.
proof fn lemma_listed_total_push(table: Seq<u8>, x: u8, d: Seq<(u8, usize)>, m: int)
    requires
        symbols_distinct(d),
        0 <= m <= d.len(),
    ensures
        listed_total(table.push(x), d, m) == listed_total(table, d, m) + if listed_before(
            d,
            m,
            x,
        ) {
            1nat
        } else {
            0nat
        },
    decreases m,
{
    if m > 0 {
        lemma_listed_total_push(table, x, d, m - 1);
        assert(table.push(x).drop_last() =~= table);
        if d[m - 1].0 == x {
            assert(listed_before(d, m, x));
            if listed_before(d, m - 1, x) {
                let j = choose|j: int| 0 <= j < m - 1 && (#[trigger] d[j]).0 == x;
                assert(d[j].0 != d[m - 1].0);
            }
        } else {
            if listed_before(d, m, x) {
                let j = choose|j: int| 0 <= j < m && (#[trigger] d[j]).0 == x;
                assert(j < m - 1);
                assert(listed_before(d, m - 1, x));
            }
            if listed_before(d, m - 1, x) {
                let j = choose|j: int| 0 <= j < m - 1 && (#[trigger] d[j]).0 == x;
                assert(0 <= j < m && d[j].0 == x);
            }
        }
    }
}

/// The listed symbols cannot fill more slots than the table has, and where
/// they fill all of them, every slot holds a listed symbol.
proof fn lemma_listed_total_bound(table: Seq<u8>, d: Seq<(u8, usize)>)
    requires
        symbols_distinct(d),
    ensures
        listed_total(table, d, d.len() as int) <= table.len(),
        listed_total(table, d, d.len() as int) == table.len() ==> forall|i: int|
            0 <= i < table.len() ==> has_symbol(d, #[trigger] table[i]),
    decreases table.len(),
{
    if table.len() == 0 {
        assert(table =~= Seq::empty());
        lemma_listed_total_empty(d, d.len() as int);
    } else {
        let front = table.drop_last();
        let x = table.last();
        assert(table =~= front.push(x));
        lemma_listed_total_bound(front, d);
        lemma_listed_total_push(front, x, d, d.len() as int);
        if listed_total(table, d, d.len() as int) == table.len() {
            assert(listed_before(d, d.len() as int, x));
            let j = choose|j: int| 0 <= j < d.len() && (#[trigger] d[j]).0 == x;
            assert(has_symbol(d, x));
            assert forall|i: int| 0 <= i < table.len() implies has_symbol(
                d,
                #[trigger] table[i],
            ) by {
                if i < front.len() {
                    assert(front[i] == table[i]);
                }
            }
        }
    }
}

/// Where every symbol stands in the table as often as it occurs, the
/// first `m` symbols fill as many slots as their runs are long.
proof fn lemma_listed_total_cumulative(table: Seq<u8>, d: Seq<(u8, usize)>, m: int)
    requires
        0 <= m <= d.len(),
        forall|j: int| 0 <= j < d.len() ==> occurrences_in(table, (#[trigger] d[j]).0) == d[j].1,
    ensures
        listed_total(table, d, m) == cumulative(d, m),
    decreases m,
{
    if m > 0 {
        lemma_listed_total_cumulative(table, d, m - 1);
        lemma_cumulative_step(d, m - 1);
        assert(occurrences_in(table, d[m - 1].0) == d[m - 1].1);
    } else {
        lemma_cumulative_ends(d);
    }
}

/// Every state belongs to a symbol of the distribution.
pub proof fn lemma_states_listed(d: Seq<(u8, usize)>, log: nat)
    requires
        buildable(d, log),
    ensures
        forall|i: int| 0 <= i < pow2(log) ==> has_symbol(d, #[trigger] spread_table(d, log)[i]),
{
    let table = spread_table(d, log);
    lemma_spread_table_len(d, log);
    lemma_listed_total_cumulative(table, d, d.len() as int);
    lemma_cumulative_ends(d);
    lemma_listed_total_bound(table, d);
}

/// A state's rank is below the number of states of its symbol.
pub proof fn lemma_rank_below_occurrences(table: Seq<u8>, i: int)
    requires
        0 <= i < table.len(),
    ensures
        rank(table, i) < occurrences_in(table, table[i]),
{
    lemma_occurrences_take_step(table, i, table[i]);
    lemma_occurrences_take_monotonic(table, i + 1, table.len() as int, table[i]);
    assert(table.take(table.len() as int) =~= table);
}

/// Among two states of one symbol the later has the higher rank.
pub proof fn lemma_rank_increases(table: Seq<u8>, a: int, b: int)
    requires
        0 <= a < b < table.len(),
        table[a] == table[b],
    ensures
        rank(table, a) < rank(table, b),
{
    lemma_occurrences_take_step(table, a, table[a]);
    lemma_occurrences_take_monotonic(table, a + 1, b, table[a]);
}

/// A symbol that stands more than `r` times in `table` has a slot of rank `r`.
pub proof fn lemma_find_occurrence(table: Seq<u8>, symbol: u8, r: nat) -> (i: int)
    requires
        r < occurrences_in(table, symbol),
    ensures
        0 <= i < table.len(),
        table[i] == symbol,
        rank(table, i) == r,
    decreases table.len(),
{
    let front = table.drop_last();
    if table.last() == symbol && occurrences_in(front, symbol) == r {
        assert(table.take(table.len() - 1) =~= front);
        table.len() - 1
    } else {
        let i = lemma_find_occurrence(front, symbol, r);
        assert(front.take(i) =~= table.take(i));
        i
    }
}

/// A state's place in the coding table lies in the run of its symbol.
pub proof fn lemma_coding_slot_range(d: Seq<(u8, usize)>, log: nat, i: int)
    requires
        buildable(d, log),
        0 <= i < pow2(log),
    ensures
        has_symbol(d, spread_table(d, log)[i]),
        0 <= index_of(d, spread_table(d, log)[i]) < d.len(),
        d[index_of(d, spread_table(d, log)[i])].0 == spread_table(d, log)[i],
        rank(spread_table(d, log), i) < d[index_of(d, spread_table(d, log)[i])].1,
        cumulative(d, index_of(d, spread_table(d, log)[i])) <= coding_slot(
            d,
            spread_table(d, log),
            i,
        ) < cumulative(d, index_of(d, spread_table(d, log)[i]) + 1) <= pow2(log),
{
    let table = spread_table(d, log);
    lemma_spread_table_len(d, log);
    lemma_states_listed(d, log);
    assert(has_symbol(d, table[i]));
    lemma_index_of_listed(d, table[i]);
    let j = index_of(d, table[i]);
    lemma_rank_below_occurrences(table, i);
    assert(occurrences_in(table, d[j].0) == d[j].1);
    lemma_cumulative_step(d, j);
    lemma_run_within_total(d, j);
}

/// No two states share a place in the coding table.
pub proof fn lemma_coding_slot_injective(d: Seq<(u8, usize)>, log: nat, a: int, b: int)
    requires
        buildable(d, log),
        0 <= a < b < pow2(log),
    ensures
        coding_slot(d, spread_table(d, log), a) != coding_slot(d, spread_table(d, log), b),
{
    let table = spread_table(d, log);
    lemma_spread_table_len(d, log);
    lemma_coding_slot_range(d, log, a);
    lemma_coding_slot_range(d, log, b);
    let ja = index_of(d, table[a]);
    let jb = index_of(d, table[b]);
    if table[a] == table[b] {
        lemma_rank_increases(table, a, b);
    } else if ja < jb {
        lemma_cumulative_monotonic(d, ja + 1, jb);
    } else {
        assert(ja != jb);
        lemma_cumulative_monotonic(d, jb + 1, ja);
    }
}

/// Every place of the coding table belongs to exactly one state: the one
/// of rank `c - start` among the states of the symbol whose run holds `c`.
pub proof fn lemma_state_for_slot(d: Seq<(u8, usize)>, log: nat, c: int)
    requires
        buildable(d, log),
        0 <= c < pow2(log),
    ensures
        0 <= state_for_slot(d, spread_table(d, log), c) < pow2(log),
        coding_slot(d, spread_table(d, log), state_for_slot(d, spread_table(d, log), c)) == c,
        spread_table(d, log)[state_for_slot(d, spread_table(d, log), c)] == d[owner(
            d,
            c as nat,
        )].0,
        rank(spread_table(d, log), state_for_slot(d, spread_table(d, log), c)) == c - cumulative(
            d,
            owner(d, c as nat),
        ),
{
    let table = spread_table(d, log);
    lemma_spread_table_len(d, log);
    lemma_owner_range(d, c as nat);
    let j = owner(d, c as nat);
    lemma_cumulative_step(d, j);
    assert(occurrences_in(table, d[j].0) == d[j].1);
    let i = lemma_find_occurrence(table, d[j].0, (c - cumulative(d, j)) as nat);
    lemma_index_of_entry(d, j);
    assert(coding_slot(d, table, i) == c);
    let chosen = state_for_slot(d, table, c);
    assert(0 <= chosen < table.len() && coding_slot(d, table, chosen) == c);
    if chosen < i {
        lemma_coding_slot_injective(d, log, chosen, i);
    } else if chosen > i {
        lemma_coding_slot_injective(d, log, i, chosen);
    }
}

/// Every entry of the coding table is a state: it lies in `[2^log, 2^(log + 1))`.
pub proof fn lemma_coding_range(d: Seq<(u8, usize)>, log: nat, c: int)
    requires
        buildable(d, log),
        0 <= c < pow2(log),
    ensures
        pow2(log) <= coding_table_of(d, log)[c] < 2 * pow2(log),
{
    lemma_state_for_slot(d, log, c);
}

/// The decoder's step in a state takes at most `log` bits and leads to a
/// state of the table whatever those bits are.
pub proof fn lemma_decode_entry_bounds(d: Seq<(u8, usize)>, log: nat, i: int)
    requires
        buildable(d, log),
        0 <= i < pow2(log),
    ensures
        decode_entry(d, log, i).nb_bits <= log,
        decode_entry(d, log, i).nb_bits + first1(
            d[index_of(d, spread_table(d, log)[i])].1 as nat + rank(spread_table(d, log), i),
        ) == log,
        decode_entry(d, log, i).new_x + pow2(log) == (d[index_of(
            d,
            spread_table(d, log)[i],
        )].1 as nat + rank(spread_table(d, log), i)) * pow2(decode_entry(d, log, i).nb_bits),
        decode_entry(d, log, i).new_x + pow2(decode_entry(d, log, i).nb_bits) <= pow2(log),
{
    let table = spread_table(d, log);
    lemma_coding_slot_range(d, log, i);
    let j = index_of(d, table[i]);
    lemma_run_within_total(d, j);
    let x = d[j].1 as nat + rank(table, i);
    lemma_scale_to_table(x, log);
}

} // verus!
