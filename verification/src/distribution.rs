use vstd::prelude::*;
use vstd::arithmetic::power2::pow2;

verus! {

/// Sum of the occurrences of a distribution.
pub open spec fn total_occurrences(d: Seq<(u8, usize)>) -> nat
    decreases d.len(),
{
    if d.len() == 0 {
        0
    } else {
        total_occurrences(d.drop_last()) + d.last().1 as nat
    }
}

/// Sum of the occurrences of the first `j` symbols: where the run of
/// symbol `j` begins when the symbols are laid out one after another.
pub open spec fn cumulative(d: Seq<(u8, usize)>, j: int) -> nat {
    total_occurrences(d.take(j))
}

/// No symbol is listed twice.
pub open spec fn symbols_distinct(d: Seq<(u8, usize)>) -> bool {
    forall|i: int, j: int| 0 <= i < j < d.len() ==> (#[trigger] d[i]).0 != (#[trigger] d[j]).0
}

/// The distribution lists `symbol`.
pub open spec fn has_symbol(d: Seq<(u8, usize)>, symbol: u8) -> bool {
    exists|j: int| 0 <= j < d.len() && (#[trigger] d[j]).0 == symbol
}

/// Where the distribution lists `symbol`.
pub open spec fn index_of(d: Seq<(u8, usize)>, symbol: u8) -> int {
    choose|j: int| 0 <= j < d.len() && (#[trigger] d[j]).0 == symbol
}

/// Index of the symbol whose run holds position `k` when the symbols are
/// laid out one after another, each as often as it occurs.
pub open spec fn owner(d: Seq<(u8, usize)>, k: nat) -> int
    decreases d.len(),
{
    if d.len() == 0 {
        0
    } else if k >= total_occurrences(d.drop_last()) {
        d.len() - 1
    } else {
        owner(d.drop_last(), k)
    }
}

/// A distribution fit for a table of `2^log` states: the size is in range,
/// the symbols are distinct, each occurs at least once, and the occurrences
/// sum to the table size.
pub open spec fn valid_distribution(d: Seq<(u8, usize)>, log: nat) -> bool {
    &&& 1 <= log <= 16
    &&& symbols_distinct(d)
    &&& forall|j: int| 0 <= j < d.len() ==> (#[trigger] d[j]).1 >= 1
    &&& total_occurrences(d) == pow2(log)
}

/// The first run starts at zero and the last ends at the total.
pub proof fn lemma_cumulative_ends(d: Seq<(u8, usize)>)
    ensures
        cumulative(d, 0) == 0,
        cumulative(d, d.len() as int) == total_occurrences(d),
{
    assert(d.take(d.len() as int) =~= d);
}

/// Each run starts where the run before it ends.
pub proof fn lemma_cumulative_step(d: Seq<(u8, usize)>, j: int)
    requires
        0 <= j < d.len(),
    ensures
        cumulative(d, j + 1) == cumulative(d, j) + d[j].1,
{
    assert(d.take(j + 1).drop_last() =~= d.take(j));
}

/// Later runs start no earlier.
pub proof fn lemma_cumulative_monotonic(d: Seq<(u8, usize)>, a: int, b: int)
    requires
        0 <= a <= b <= d.len(),
    ensures
        cumulative(d, a) <= cumulative(d, b),
    decreases b - a,
{
    if a < b {
        lemma_cumulative_monotonic(d, a, b - 1);
        lemma_cumulative_step(d, b - 1);
    }
}

/// The run of `owner(d, k)` holds position `k`.
pub proof fn lemma_owner_range(d: Seq<(u8, usize)>, k: nat)
    requires
        k < total_occurrences(d),
    ensures
        0 <= owner(d, k) < d.len(),
        cumulative(d, owner(d, k)) <= k < cumulative(d, owner(d, k) + 1),
    decreases d.len(),
{
    if d.len() > 0 {
        let front = d.drop_last();
        if k >= total_occurrences(front) {
            assert(d.take(d.len() - 1) =~= front);
            assert(d.take(d.len() as int) =~= d);
        } else {
            lemma_owner_range(front, k);
            let o = owner(front, k);
            assert(front.take(o) =~= d.take(o));
            assert(front.take(o + 1) =~= d.take(o + 1));
        }
    }
}

/// The symbol whose run holds position `k` is the owner of `k`.
pub proof fn lemma_owner_unique(d: Seq<(u8, usize)>, k: nat, j: int)
    requires
        0 <= j < d.len(),
        cumulative(d, j) <= k < cumulative(d, j + 1),
    ensures
        owner(d, k) == j,
{
    lemma_cumulative_ends(d);
    lemma_cumulative_monotonic(d, j + 1, d.len() as int);
    lemma_owner_range(d, k);
    let o = owner(d, k);
    if o < j {
        lemma_cumulative_monotonic(d, o + 1, j);
    } else if o > j {
        lemma_cumulative_monotonic(d, j + 1, o);
    }
}

/// In a distribution of distinct symbols, `index_of` finds each entry.
pub proof fn lemma_index_of_entry(d: Seq<(u8, usize)>, j: int)
    requires
        symbols_distinct(d),
        0 <= j < d.len(),
    ensures
        has_symbol(d, d[j].0),
        index_of(d, d[j].0) == j,
{
    let found = index_of(d, d[j].0);
    assert(0 <= found < d.len() && d[found].0 == d[j].0);
    if found < j {
        assert(d[found].0 != d[j].0);
    } else if found > j {
        assert(d[j].0 != d[found].0);
    }
}

/// `index_of` points at the entry of a listed symbol.
pub proof fn lemma_index_of_listed(d: Seq<(u8, usize)>, symbol: u8)
    requires
        has_symbol(d, symbol),
    ensures
        0 <= index_of(d, symbol) < d.len(),
        d[index_of(d, symbol)].0 == symbol,
{
}

/// Every run ends within the total.
pub proof fn lemma_run_within_total(d: Seq<(u8, usize)>, j: int)
    requires
        0 <= j < d.len(),
    ensures
        cumulative(d, j) + d[j].1 <= total_occurrences(d),
{
    lemma_cumulative_step(d, j);
    lemma_cumulative_monotonic(d, j + 1, d.len() as int);
    lemma_cumulative_ends(d);
}

} // verus!
