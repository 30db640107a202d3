use std::collections::HashMap;
use vstd::prelude::*;
use vstd::arithmetic::power2::{pow2, lemma_pow2_pos, lemma2_to64};
use vstd::arithmetic::div_mod::lemma_mod_multiples_basic;
use crate::distribution::{
    cumulative, has_symbol, index_of, symbols_distinct, total_occurrences, valid_distribution,
    lemma_cumulative_ends, lemma_cumulative_monotonic, lemma_cumulative_step,
    lemma_run_within_total,
};
use crate::error::CodecError;
use crate::numeric::{first1_index, fixed_point, lemma_pow2_increases, shift_left};
use crate::spread::{
    occurrences_in, spread_complete, spread_position, spread_step, spread_symbols, spread_table,
    lemma_occurrences_bound, lemma_occurrences_take_step, lemma_spread_complete,
};
use crate::table_proofs::{
    listed_before, lemma_coding_slot_injective, lemma_coding_slot_range, lemma_decode_entry_bounds,
    lemma_output_bits_zero, lemma_running_total_bound, lemma_spread_table_len,
    lemma_state_for_slot, lemma_width_threshold,
};
use crate::tables::{
    buildable, coding_slot, coding_table_of, decode_entry, output_bits_of, running_total,
    state_for_slot, tables_of, transform_of, SymbolDecoding, TableSet, Transformation,
};

verus! {

broadcast use vstd::std_specs::hash::group_hash_axioms;

/// The encoder's offsets, by symbol.
pub type SymbolTT = HashMap<u8, Transformation>;

/// The tables of a codec, built once from a distribution and read by the
/// encoder and the decoder.
pub struct Tables {
    table_log: usize,
    table_size: usize,
    coding_table: Vec<usize>,
    output_bits: Vec<usize>,
    symbol_tt: SymbolTT,
    decode_table: Vec<SymbolDecoding>,
    distribution: Ghost<Seq<(u8, usize)>>,
}

impl View for Tables {
    type V = TableSet;

    closed spec fn view(&self) -> TableSet {
        TableSet {
            table_log: self.table_log as nat,
            table_size: self.table_size as nat,
            coding_table: Seq::new(
                self.coding_table@.len(),
                |i: int| self.coding_table@[i] as nat,
            ),
            output_bits: Seq::new(self.output_bits@.len(), |i: int| self.output_bits@[i] as nat),
            symbol_tt: Map::new(
                |s: u8| self.symbol_tt@.contains_key(s),
                |s: u8| self.symbol_tt@[s]@,
            ),
            decode_table: Seq::new(self.decode_table@.len(), |i: int| self.decode_table@[i]@),
        }
    }
}

impl Tables {
    /// The distribution that the tables were built from.
    pub closed spec fn distribution(&self) -> Seq<(u8, usize)> {
        self.distribution@
    }

    /// The tables are those of a distribution from which tables can be built.
    pub open spec fn wf(&self) -> bool {
        &&& buildable(self.distribution(), self@.table_log)
        &&& self@ == tables_of(self.distribution(), self@.table_log)
    }

    /// Base-2 logarithm of the table size.
    pub fn table_log(&self) -> (r: usize)
        ensures
            r == self@.table_log,
    {
        self.table_log
    }

    /// Number of states.
    pub fn table_size(&self) -> (r: usize)
        ensures
            r == self@.table_size,
    {
        self.table_size
    }

    /// The coding table.
    pub fn coding_table(&self) -> (r: &Vec<usize>)
        ensures
            r@.len() == self@.coding_table.len(),
            forall|i: int| 0 <= i < r@.len() ==> #[trigger] r@[i] == self@.coding_table[i],
    {
        &self.coding_table
    }

    /// The output-bits table.
    pub fn output_bits(&self) -> (r: &Vec<usize>)
        ensures
            r@.len() == self@.output_bits.len(),
            forall|i: int| 0 <= i < r@.len() ==> #[trigger] r@[i] == self@.output_bits[i],
    {
        &self.output_bits
    }

    /// The encoder's offsets, by symbol.
    pub fn symbol_tt(&self) -> (r: &SymbolTT)
        ensures
            forall|s: u8| #[trigger] r@.contains_key(s) == self@.symbol_tt.contains_key(s),
            forall|s: u8| r@.contains_key(s) ==> (#[trigger] r@[s])@ == self@.symbol_tt[s],
    {
        &self.symbol_tt
    }

    /// The decoding table.
    pub fn decode_table(&self) -> (r: &Vec<SymbolDecoding>)
        ensures
            r@.len() == self@.decode_table.len(),
            forall|i: int| 0 <= i < r@.len() ==> (#[trigger] r@[i])@ == self@.decode_table[i],
    {
        &self.decode_table
    }
}

/// `index` maps every byte to its place in the distribution, and a byte
/// that the distribution does not list to the distribution's length.
pub open spec fn index_table_for(d: Seq<(u8, usize)>, index: Seq<usize>) -> bool {
    &&& index.len() == 256
    &&& forall|s: u8| has_symbol(d, s) ==> #[trigger] index[s as int] == index_of(d, s)
    &&& forall|s: u8| !has_symbol(d, s) ==> #[trigger] index[s as int] == d.len()
}

/// `starts` holds the start of every symbol's run and, last, the total.
pub open spec fn start_table_for(d: Seq<(u8, usize)>, starts: Seq<usize>) -> bool {
    &&& starts.len() == d.len() + 1
    &&& forall|j: int| 0 <= j <= d.len() ==> #[trigger] starts[j] == cumulative(d, j)
}

/// Builds the table from byte to place in the distribution, or finds that
/// a symbol is listed twice.
fn symbol_index_table(distribution: &[(u8, usize)]) -> (r: Option<Vec<usize>>)
    ensures
        match r {
            Some(index) => symbols_distinct(distribution@) && index_table_for(
                distribution@,
                index@,
            ),
            None => !symbols_distinct(distribution@),
        },
{
    let ghost d = distribution@;
    let len = distribution.len();
    let mut index: Vec<usize> = vec![len; 256];
    let mut j: usize = 0;
    while j < len
        invariant
            d == distribution@,
            len == d.len(),
            j <= len,
            index@.len() == 256,
            forall|s: u8|
                #[trigger] index@[s as int] == len || (index@[s as int] < j && d[index@[s as int] as int].0
                    == s),
            forall|i: int| 0 <= i < j ==> index@[(#[trigger] d[i]).0 as int] == i,
        decreases len - j,
    {
        let symbol = distribution[j].0;
        if index[symbol as usize] != len {
            proof {
                let earlier = index@[symbol as int] as int;
                assert(d[earlier].0 == d[j as int].0);
            }
            return None;
        }
        index.set(symbol as usize, j);
        proof {
            assert forall|i: int| 0 <= i < j + 1 implies index@[(#[trigger] d[i]).0 as int]
                == i by {
                if i < j {
                    assert(d[i].0 != symbol);
                }
            }
        }
        j += 1;
    }
    proof {
        assert forall|a: int, b: int| 0 <= a < b < d.len() implies (#[trigger] d[a]).0 != (
        #[trigger] d[b]).0 by {
            assert(index@[d[a].0 as int] == a);
            assert(index@[d[b].0 as int] == b);
        }
        assert forall|s: u8| has_symbol(d, s) implies #[trigger] index@[s as int] == index_of(
            d,
            s,
        ) by {
            let at = index_of(d, s);
            assert(index@[d[at].0 as int] == at);
        }
        assert forall|s: u8| !has_symbol(d, s) implies #[trigger] index@[s as int]
            == d.len() by {
            if index@[s as int] != len {
                assert(d[index@[s as int] as int].0 == s);
            }
        }
    }
    Some(index)
}

/// Builds the table of run starts: entry `j` is the sum of the occurrences
/// of the first `j` symbols, and the last entry is the total. Returns
/// nothing if the occurrences sum to more than `limit`.
pub fn cumulative_table(distribution: &[(u8, usize)], limit: usize) -> (r: Option<Vec<usize>>)
    ensures
        match r {
            Some(starts) => start_table_for(distribution@, starts@) && total_occurrences(
                distribution@,
            ) <= limit,
            None => total_occurrences(distribution@) > limit,
        },
{
    let ghost d = distribution@;
    let len = distribution.len();
    let mut starts: Vec<usize> = Vec::new();
    starts.push(0);
    let mut sum: usize = 0;
    let mut j: usize = 0;
    proof {
        lemma_cumulative_ends(d);
    }
    while j < len
        invariant
            d == distribution@,
            len == d.len(),
            j <= len,
            sum == cumulative(d, j as int),
            sum <= limit,
            starts@.len() == j + 1,
            forall|i: int| 0 <= i <= j ==> #[trigger] starts@[i] == cumulative(d, i),
        decreases len - j,
    {
        let occurrences = distribution[j].1;
        proof {
            lemma_cumulative_step(d, j as int);
            lemma_cumulative_monotonic(d, j + 1, len as int);
            lemma_cumulative_ends(d);
        }
        if occurrences > limit - sum {
            return None;
        }
        sum = sum + occurrences;
        starts.push(sum);
        j += 1;
    }
    proof {
        lemma_cumulative_ends(d);
    }
    Some(starts)
}

/// Tells whether every symbol occurs at least once.
fn occurrences_positive(distribution: &[(u8, usize)]) -> (r: bool)
    ensures
        r == forall|j: int| 0 <= j < distribution@.len() ==> (#[trigger] distribution@[j]).1 >= 1,
{
    let mut j: usize = 0;
    while j < distribution.len()
        invariant
            j <= distribution.len(),
            forall|i: int| 0 <= i < j ==> (#[trigger] distribution@[i]).1 >= 1,
        decreases distribution.len() - j,
    {
        if distribution[j].1 == 0 {
            return false;
        }
        j += 1;
    }
    true
}

/// Tells whether `state_table` holds every symbol as often as it occurs.
fn holds_every_occurrence(distribution: &[(u8, usize)], state_table: &Vec<u8>) -> (r: bool)
    ensures
        r == forall|j: int|
            0 <= j < distribution@.len() ==> occurrences_in(
                state_table@,
                (#[trigger] distribution@[j]).0,
            ) == distribution@[j].1,
{
    let ghost d = distribution@;
    let ghost table = state_table@;
    let mut counts: Vec<usize> = vec![0; 256];
    let mut i: usize = 0;
    proof {
        assert(table.take(0) =~= Seq::<u8>::empty());
    }
    while i < state_table.len()
        invariant
            table == state_table@,
            i <= table.len(),
            counts@.len() == 256,
            forall|s: u8| #[trigger] counts@[s as int] == occurrences_in(table.take(i as int), s),
        decreases state_table.len() - i,
    {
        let symbol = state_table[i];
        let seen = counts[symbol as usize];
        proof {
            lemma_occurrences_bound(table.take(i as int), symbol);
            assert forall|s: u8|
                occurrences_in(table.take(i + 1), s) == occurrences_in(table.take(i as int), s) + (
                if s == symbol {
                    1nat
                } else {
                    0nat
                }) by {
                lemma_occurrences_take_step(table, i as int, s);
            }
        }
        counts.set(symbol as usize, seen + 1);
        i += 1;
    }
    proof {
        assert(table.take(table.len() as int) =~= table);
    }
    let mut j: usize = 0;
    while j < distribution.len()
        invariant
            d == distribution@,
            table == state_table@,
            j <= d.len(),
            counts@.len() == 256,
            forall|s: u8| #[trigger] counts@[s as int] == occurrences_in(table, s),
            forall|k: int| 0 <= k < j ==> occurrences_in(table, (#[trigger] d[k]).0) == d[k].1,
        decreases distribution.len() - j,
    {
        if counts[distribution[j].0 as usize] != distribution[j].1 {
            proof {
                assert(occurrences_in(table, d[j as int].0) != d[j as int].1);
            }
            return false;
        }
        j += 1;
    }
    true
}

/// Builds the coding table: walks the states in rising order and puts
/// each in the next free place of its symbol's run.
fn build_coding_table(
    distribution: &[(u8, usize)],
    state_table: &Vec<u8>,
    index: &Vec<usize>,
    starts: &Vec<usize>,
    table_log: usize,
    table_size: usize,
) -> (coding: Vec<usize>)
    requires
        buildable(distribution@, table_log as nat),
        table_size == pow2(table_log as nat),
        state_table@ == spread_table(distribution@, table_log as nat),
        index_table_for(distribution@, index@),
        start_table_for(distribution@, starts@),
    ensures
        coding@.len() == table_size,
        forall|c: int|
            0 <= c < table_size ==> #[trigger] coding@[c] == coding_table_of(
                distribution@,
                table_log as nat,
            )[c],
{
    let ghost d = distribution@;
    let ghost log = table_log as nat;
    let ghost table = state_table@;
    let len = distribution.len();
    proof {
        lemma2_to64();
        lemma_pow2_increases(log, 16);
        lemma_spread_table_len(d, log);
    }
    let mut cursor: Vec<usize> = Vec::new();
    let mut j: usize = 0;
    while j < len
        invariant
            len == d.len(),
            j <= len,
            start_table_for(d, starts@),
            cursor@.len() == j,
            forall|k: int| 0 <= k < j ==> #[trigger] cursor@[k] == cumulative(d, k),
        decreases len - j,
    {
        cursor.push(starts[j]);
        j += 1;
    }
    let mut coding: Vec<usize> = vec![0; table_size];
    let mut i: usize = 0;
    proof {
        assert(table.take(0) =~= Seq::<u8>::empty());
    }
    while i < table_size
        invariant
            d == distribution@,
            log == table_log as nat,
            table == state_table@,
            table == spread_table(d, log),
            buildable(d, log),
            table_size == pow2(log),
            table_size <= 65536,
            table.len() == table_size,
            len == d.len(),
            index_table_for(d, index@),
            i <= table_size,
            cursor@.len() == len,
            forall|k: int|
                0 <= k < len ==> #[trigger] cursor@[k] == cumulative(d, k) + occurrences_in(
                    table.take(i as int),
                    d[k].0,
                ),
            coding@.len() == table_size,
            forall|e: int|
                0 <= e < i ==> coding@[#[trigger] coding_slot(d, table, e)] == table_size + e,
        decreases table_size - i,
    {
        let symbol = state_table[i];
        proof {
            lemma_coding_slot_range(d, log, i as int);
        }
        let at = index[symbol as usize];
        let place = cursor[at];
        proof {
            assert(place == coding_slot(d, table, i as int));
            assert forall|e: int| 0 <= e < i implies 0 <= #[trigger] coding_slot(d, table, e)
                < table_size && coding_slot(d, table, e) != place by {
                lemma_coding_slot_injective(d, log, e, i as int);
                lemma_coding_slot_range(d, log, e);
            }
            assert forall|k: int| 0 <= k < len implies occurrences_in(
                table.take(i + 1),
                (#[trigger] d[k]).0,
            ) == occurrences_in(table.take(i as int), d[k].0) + (if k == at {
                1nat
            } else {
                0nat
            }) by {
                lemma_occurrences_take_step(table, i as int, d[k].0);
                if k < at {
                    assert(d[k].0 != d[at as int].0);
                } else if k > at {
                    assert(d[at as int].0 != d[k].0);
                }
            }
        }
        coding.set(place, table_size + i);
        cursor.set(at, place + 1);
        i += 1;
    }
    proof {
        assert forall|c: int| 0 <= c < table_size implies #[trigger] coding@[c]
            == coding_table_of(d, log)[c] by {
            lemma_state_for_slot(d, log, c);
            let e = state_for_slot(d, table, c);
            assert(coding@[coding_slot(d, table, e)] == table_size + e);
        }
    }
    coding
}

/// Builds the output-bits table.
fn build_output_bits(table_log: usize, table_size: usize) -> (bits: Vec<usize>)
    requires
        1 <= table_log <= 16,
        table_size == pow2(table_log as nat),
    ensures
        bits@.len() == table_size,
        forall|i: int|
            0 <= i < table_size ==> #[trigger] bits@[i] == output_bits_of(table_log as nat)[i],
{
    let ghost log = table_log as nat;
    proof {
        lemma2_to64();
        lemma_pow2_increases(log, 16);
    }
    let mut bits: Vec<usize> = Vec::new();
    let mut i: usize = 0;
    while i < table_size
        invariant
            log == table_log as nat,
            table_size == pow2(log),
            table_size <= 65536,
            i <= table_size,
            bits@.len() == i,
            forall|e: int| 0 <= e < i ==> #[trigger] bits@[e] == output_bits_of(log)[e],
        decreases table_size - i,
    {
        proof {
            lemma_output_bits_zero(log, i as int);
        }
        let top = first1_index(table_size + i);
        bits.push(table_log - top);
        i += 1;
    }
    bits
}

/// Builds the encoder's offsets for every symbol.
fn build_symbol_tt(distribution: &[(u8, usize)], table_log: usize, table_size: usize) -> (tt:
    SymbolTT)
    requires
        buildable(distribution@, table_log as nat),
        table_size == pow2(table_log as nat),
    ensures
        forall|s: u8| #[trigger] tt@.contains_key(s) == has_symbol(distribution@, s),
        forall|j: int|
            0 <= j < distribution@.len() ==> tt@[(#[trigger] distribution@[j]).0]@ == transform_of(
                distribution@,
                table_log as nat,
                j,
            ),
{
    let ghost d = distribution@;
    let ghost log = table_log as nat;
    let len = distribution.len();
    proof {
        lemma2_to64();
        lemma_pow2_increases(log, 16);
        lemma_pow2_pos(log);
    }
    let mut tt: SymbolTT = HashMap::new();
    let mut total: usize = 0;
    let mut j: usize = 0;
    while j < len
        invariant
            d == distribution@,
            log == table_log as nat,
            buildable(d, log),
            table_size == pow2(log),
            1 <= table_size <= 65536,
            len == d.len(),
            j <= len,
            total == running_total(d, j as int),
            forall|s: u8| #[trigger] tt@.contains_key(s) == listed_before(d, j as int, s),
            forall|i: int| 0 <= i < j ==> tt@[(#[trigger] d[i]).0]@ == transform_of(d, log, i),
        decreases len - j,
    {
        let symbol = distribution[j].0;
        let occurrences = distribution[j].1;
        proof {
            lemma_running_total_bound(d, j as int);
            lemma_run_within_total(d, j as int);
            assert(d[j as int].1 >= 1);
        }
        let transform = if occurrences == 1 {
            let scaled = fixed_point(table_log);
            Transformation {
                delta_nb_bits: (scaled - table_size) as isize,
                delta_find_state: total as isize - 1,
            }
        } else {
            proof {
                lemma_width_threshold(occurrences as nat, log);
            }
            let max_bits_out = table_log - first1_index(occurrences - 1);
            let min_state_plus = shift_left(occurrences, max_bits_out);
            let scaled = fixed_point(max_bits_out);
            Transformation {
                delta_nb_bits: scaled as isize - min_state_plus as isize,
                delta_find_state: total as isize - occurrences as isize,
            }
        };
        if occurrences > 1 {
            total = total + occurrences;
        }
        tt.insert(symbol, transform);
        proof {
            assert(transform@ == transform_of(d, log, j as int));
            assert forall|s: u8| #[trigger] tt@.contains_key(s) == listed_before(
                d,
                j + 1,
                s,
            ) by {
                if listed_before(d, j + 1, s) {
                    let at = choose|at: int| 0 <= at < j + 1 && (#[trigger] d[at]).0 == s;
                    if at < j {
                        assert(listed_before(d, j as int, s));
                    }
                }
                if listed_before(d, j as int, s) {
                    let at = choose|at: int| 0 <= at < j && (#[trigger] d[at]).0 == s;
                    assert(0 <= at < j + 1 && d[at].0 == s);
                }
                if s == symbol {
                    assert(d[j as int].0 == s);
                }
            }
            assert forall|i: int| 0 <= i < j + 1 implies tt@[(#[trigger] d[i]).0]@
                == transform_of(d, log, i) by {
                if i < j {
                    assert(d[i].0 != d[j as int].0);
                }
            }
        }
        j += 1;
    }
    proof {
        assert forall|s: u8| #[trigger] tt@.contains_key(s) == has_symbol(d, s) by {
            if has_symbol(d, s) {
                let at = choose|at: int| 0 <= at < d.len() && (#[trigger] d[at]).0 == s;
                assert(listed_before(d, len as int, s));
            }
            if listed_before(d, len as int, s) {
                let at = choose|at: int| 0 <= at < len && (#[trigger] d[at]).0 == s;
                assert(has_symbol(d, s));
            }
        }
    }
    tt
}

/// Builds the decoding table: walks the states in rising order and gives
/// each the next number of its symbol, starting from the symbol's occurrences.
fn build_decode_table(
    distribution: &[(u8, usize)],
    state_table: &Vec<u8>,
    index: &Vec<usize>,
    table_log: usize,
    table_size: usize,
) -> (decoding: Vec<SymbolDecoding>)
    requires
        buildable(distribution@, table_log as nat),
        table_size == pow2(table_log as nat),
        state_table@ == spread_table(distribution@, table_log as nat),
        index_table_for(distribution@, index@),
    ensures
        decoding@.len() == table_size,
        forall|i: int|
            0 <= i < table_size ==> (#[trigger] decoding@[i])@ == decode_entry(
                distribution@,
                table_log as nat,
                i,
            ),
{
    let ghost d = distribution@;
    let ghost log = table_log as nat;
    let ghost table = state_table@;
    let len = distribution.len();
    proof {
        lemma2_to64();
        lemma_pow2_increases(log, 16);
        lemma_spread_table_len(d, log);
    }
    let mut next: Vec<usize> = Vec::new();
    let mut j: usize = 0;
    while j < len
        invariant
            d == distribution@,
            len == d.len(),
            j <= len,
            next@.len() == j,
            forall|k: int| 0 <= k < j ==> #[trigger] next@[k] == d[k].1,
        decreases len - j,
    {
        next.push(distribution[j].1);
        j += 1;
    }
    let mut decoding: Vec<SymbolDecoding> = Vec::new();
    let mut i: usize = 0;
    proof {
        assert(table.take(0) =~= Seq::<u8>::empty());
    }
    while i < table_size
        invariant
            d == distribution@,
            log == table_log as nat,
            1 <= log <= 16,
            table == state_table@,
            table == spread_table(d, log),
            buildable(d, log),
            table_size == pow2(log),
            table_size <= 65536,
            table.len() == table_size,
            len == d.len(),
            index_table_for(d, index@),
            i <= table_size,
            next@.len() == len,
            forall|k: int|
                0 <= k < len ==> #[trigger] next@[k] == d[k].1 + occurrences_in(
                    table.take(i as int),
                    d[k].0,
                ),
            decoding@.len() == i,
            forall|e: int| 0 <= e < i ==> (#[trigger] decoding@[e])@ == decode_entry(d, log, e),
        decreases table_size - i,
    {
        let symbol = state_table[i];
        proof {
            lemma_coding_slot_range(d, log, i as int);
            lemma_decode_entry_bounds(d, log, i as int);
        }
        let at = index[symbol as usize];
        let x = next[at];
        proof {
            lemma_run_within_total(d, at as int);
            assert forall|k: int| 0 <= k < len implies occurrences_in(
                table.take(i + 1),
                (#[trigger] d[k]).0,
            ) == occurrences_in(table.take(i as int), d[k].0) + (if k == at {
                1nat
            } else {
                0nat
            }) by {
                lemma_occurrences_take_step(table, i as int, d[k].0);
                if k < at {
                    assert(d[k].0 != d[at as int].0);
                } else if k > at {
                    assert(d[at as int].0 != d[k].0);
                }
            }
        }
        next.set(at, x + 1);
        let nb_bits = table_log - first1_index(x);
        let scaled = shift_left(x, nb_bits);
        decoding.push(SymbolDecoding { symbol, nb_bits, new_x: scaled - table_size });
        i += 1;
    }
    decoding
}

/// Builds the tables of a codec from a distribution and the base-2
/// logarithm of the table size.
///
/// The distribution must be valid for that size, and the spread must give
/// each symbol as many states as it has occurrences; otherwise the
/// distribution is refused. A valid distribution is never refused for a
/// table size other than 2 and 8. For those two sizes the stride of the
/// spread is even and every occurrence lands in the first slot, so a
/// distribution is accepted only where the bytes left in the untouched
/// slots complete it.
pub fn build_tables(distribution: &[(u8, usize)], table_log: usize) -> (r: Result<
    Tables,
    CodecError,
>)
    ensures
        match r {
            Ok(tables) => {
                &&& buildable(distribution@, table_log as nat)
                &&& tables.wf()
                &&& tables.distribution() == distribution@
                &&& tables@ == tables_of(distribution@, table_log as nat)
            },
            Err(e) => {
                &&& e == CodecError::InvalidDistribution
                &&& !buildable(distribution@, table_log as nat)
            },
        },
        valid_distribution(distribution@, table_log as nat) && table_log != 1 && table_log != 3
            ==> r is Ok,
        total_occurrences(distribution@) != pow2(table_log as nat) ==> r == Err::<
            Tables,
            CodecError,
        >(CodecError::InvalidDistribution),
{
    let ghost d = distribution@;
    let ghost log = table_log as nat;
    if table_log < 1 || table_log > 16 {
        return Err(CodecError::InvalidDistribution);
    }
    proof {
        lemma2_to64();
        lemma_pow2_increases(log, 16);
        lemma_pow2_pos(log);
    }
    let table_size: usize = shift_left(1, table_log);
    if !occurrences_positive(distribution) {
        return Err(CodecError::InvalidDistribution);
    }
    let index = match symbol_index_table(distribution) {
        Some(index) => index,
        None => {
            return Err(CodecError::InvalidDistribution);
        },
    };
    let starts = match cumulative_table(distribution, table_size) {
        Some(starts) => starts,
        None => {
            return Err(CodecError::InvalidDistribution);
        },
    };
    proof {
        lemma_cumulative_ends(d);
    }
    if starts[distribution.len()] != table_size {
        return Err(CodecError::InvalidDistribution);
    }
    assert(valid_distribution(d, log));
    let state_table = match spread_symbols(distribution, table_log) {
        Ok(state_table) => state_table,
        Err(e) => {
            proof {
                let size = pow2(log) as int;
                let stride = spread_step(log) as int;
                lemma_mod_multiples_basic(stride, size);
                assert(stride * size == size * stride) by (nonlinear_arith);
                assert(spread_position(log, total_occurrences(d)) == 0);
            }
            return Err(e);
        },
    };
    if !holds_every_occurrence(distribution, &state_table) {
        proof {
            assert(!spread_complete(d, log));
            if table_log != 1 && table_log != 3 {
                lemma_spread_complete(d, log);
            }
        }
        return Err(CodecError::InvalidDistribution);
    }
    assert(spread_complete(d, log));
    let coding_table = build_coding_table(
        distribution,
        &state_table,
        &index,
        &starts,
        table_log,
        table_size,
    );
    let output_bits = build_output_bits(table_log, table_size);
    let symbol_tt = build_symbol_tt(distribution, table_log, table_size);
    let decode_table = build_decode_table(distribution, &state_table, &index, table_log, table_size);
    let tables = Tables {
        table_log,
        table_size,
        coding_table,
        output_bits,
        symbol_tt,
        decode_table,
        distribution: Ghost(d),
    };
    proof {
        let built = tables@;
        let wanted = tables_of(d, log);
        assert(built.coding_table =~= wanted.coding_table);
        assert(built.output_bits =~= wanted.output_bits);
        assert(built.decode_table =~= wanted.decode_table);
        assert(built.symbol_tt =~= wanted.symbol_tt) by {
            assert forall|s: u8| built.symbol_tt.contains_key(s) implies built.symbol_tt[s]
                == wanted.symbol_tt[s] by {
                let at = index_of(d, s);
                assert(built.symbol_tt[s] == tables.symbol_tt@[d[at].0]@);
            }
        }
        assert(built == wanted);
    }
    Ok(tables)
}

} // verus!
