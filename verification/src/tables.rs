use vstd::prelude::*;
use vstd::arithmetic::power2::pow2;
use crate::distribution::{cumulative, has_symbol, index_of, valid_distribution};
use crate::numeric::first1;
use crate::spread::{occurrences_in, spread_complete, spread_table};

verus! {

/// What the encoder needs to know of a symbol: two offsets from which it
/// computes, for any state, how many bits to emit and where in the coding
/// table the next state stands.
#[derive(Clone, Copy, Debug, PartialEq, Eq)]
pub struct Transformation {
    /// Added to the state and divided by `2^16`, this gives the number of bits to emit.
    pub delta_nb_bits: isize,
    /// Added to the state with the emitted bits shifted out, this gives the
    /// index of the next state in the coding table.
    pub delta_find_state: isize,
}

/// What the decoder does in one state.
#[derive(Clone, Copy, Debug, PartialEq, Eq)]
pub struct SymbolDecoding {
    /// The symbol to emit.
    pub symbol: u8,
    /// The number of bits to take off the end of the bit sequence.
    pub nb_bits: usize,
    /// The next state is this plus the number that those bits spell.
    pub new_x: usize,
}

/// A [`Transformation`] over the integers.
pub struct TransformModel {
    pub delta_nb_bits: int,
    pub delta_find_state: int,
}

/// A [`SymbolDecoding`] over the integers.
pub struct DecodingModel {
    pub symbol: u8,
    pub nb_bits: nat,
    pub new_x: nat,
}

impl View for Transformation {
    type V = TransformModel;

    open spec fn view(&self) -> TransformModel {
        TransformModel {
            delta_nb_bits: self.delta_nb_bits as int,
            delta_find_state: self.delta_find_state as int,
        }
    }
}

impl View for SymbolDecoding {
    type V = DecodingModel;

    open spec fn view(&self) -> DecodingModel {
        DecodingModel {
            symbol: self.symbol,
            nb_bits: self.nb_bits as nat,
            new_x: self.new_x as nat,
        }
    }
}

/// The tables of a codec, over the integers.
pub struct TableSet {
    /// Base-2 logarithm of the table size.
    pub table_log: nat,
    /// Number of states.
    pub table_size: nat,
    /// The states, grouped by symbol in the order of the distribution and,
    /// within a symbol, in rising order.
    pub coding_table: Seq<nat>,
    /// For each state, how far its most significant bit is below the top bit of the table.
    pub output_bits: Seq<nat>,
    /// The encoder's offsets for each symbol of the distribution.
    pub symbol_tt: Map<u8, TransformModel>,
    /// The decoder's step for each state.
    pub decode_table: Seq<DecodingModel>,
}

/// How many earlier slots of `table` hold the same symbol as slot `i`.
pub open spec fn rank(table: Seq<u8>, i: int) -> nat {
    occurrences_in(table.take(i), table[i])
}

/// The place of state `i` in the coding table: the start of its symbol's
/// run plus its rank among the states of that symbol.
pub open spec fn coding_slot(d: Seq<(u8, usize)>, table: Seq<u8>, i: int) -> int {
    (cumulative(d, index_of(d, table[i])) + rank(table, i)) as int
}

/// The state whose place in the coding table is `c`.
pub open spec fn state_for_slot(d: Seq<(u8, usize)>, table: Seq<u8>, c: int) -> int {
    choose|i: int| 0 <= i < table.len() && coding_slot(d, table, i) == c
}

/// The coding table: entry `c` is the table size plus the index of the
/// state whose place is `c`.
pub open spec fn coding_table_of(d: Seq<(u8, usize)>, log: nat) -> Seq<nat> {
    Seq::new(
        pow2(log),
        |c: int| (pow2(log) + state_for_slot(d, spread_table(d, log), c)) as nat,
    )
}

/// Entry `i` is `log` less the position of the top bit of `2^log + i`.
pub open spec fn output_bits_of(log: nat) -> Seq<nat> {
    Seq::new(pow2(log), |i: int| (log - first1((pow2(log) + i) as nat)) as nat)
}

/// The occurrences of the symbols before `j` that occur more than once.
/// The encoder's offsets are taken from this sum, not from the start of
/// the symbol's run in the coding table: a symbol that occurs once does
/// not move it.
pub open spec fn running_total(d: Seq<(u8, usize)>, j: int) -> nat
    decreases j,
{
    if j <= 0 {
        0
    } else {
        running_total(d, j - 1) + if d[j - 1].1 > 1 {
            d[j - 1].1 as nat
        } else {
            0nat
        }
    }
}

/// The encoder's offsets for the symbol at `j`.
pub open spec fn transform_of(d: Seq<(u8, usize)>, log: nat, j: int) -> TransformModel {
    let n = d[j].1 as int;
    let total = running_total(d, j) as int;
    if n == 1 {
        TransformModel { delta_nb_bits: log * 65536 - pow2(log), delta_find_state: total - 1 }
    } else {
        let max_bits_out = (log - first1((n - 1) as nat)) as nat;
        TransformModel {
            delta_nb_bits: max_bits_out * 65536 - n * pow2(max_bits_out),
            delta_find_state: total - n,
        }
    }
}

/// The encoder's offsets for every symbol of the distribution.
pub open spec fn symbol_tt_of(d: Seq<(u8, usize)>, log: nat) -> Map<u8, TransformModel> {
    Map::new(|s: u8| has_symbol(d, s), |s: u8| transform_of(d, log, index_of(d, s)))
}

/// The decoder's step in state `i`. With `x` the occurrences of the
/// state's symbol plus the state's rank, the step takes as many bits as
/// bring `x` up to the table's range, and goes on from `x` shifted left
/// by that many bits, counted from the table size.
pub open spec fn decode_entry(d: Seq<(u8, usize)>, log: nat, i: int) -> DecodingModel {
    let table = spread_table(d, log);
    let x = d[index_of(d, table[i])].1 as nat + rank(table, i);
    let nb_bits = (log - first1(x)) as nat;
    DecodingModel { symbol: table[i], nb_bits, new_x: (x * pow2(nb_bits) - pow2(log)) as nat }
}

/// The decoding table.
pub open spec fn decode_table_of(d: Seq<(u8, usize)>, log: nat) -> Seq<DecodingModel> {
    Seq::new(pow2(log), |i: int| decode_entry(d, log, i))
}

/// A distribution from which tables can be built: it is valid and the
/// spread gives every one of its symbols as many states as it has occurrences.
pub open spec fn buildable(d: Seq<(u8, usize)>, log: nat) -> bool {
    valid_distribution(d, log) && spread_complete(d, log)
}

/// The tables of a distribution.
pub open spec fn tables_of(d: Seq<(u8, usize)>, log: nat) -> TableSet {
    TableSet {
        table_log: log,
        table_size: pow2(log),
        coding_table: coding_table_of(d, log),
        output_bits: output_bits_of(log),
        symbol_tt: symbol_tt_of(d, log),
        decode_table: decode_table_of(d, log),
    }
}

} // verus!
