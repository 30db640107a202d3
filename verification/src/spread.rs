use vstd::prelude::*;
use vstd::arithmetic::power2::{pow2, lemma_pow2_unfold, lemma_pow2_pos, lemma2_to64};
use vstd::arithmetic::div_mod::{
    lemma_add_mod_noop_right, lemma_fundamental_div_mod, lemma_mod_equivalence,
    lemma_mod_multiples_basic, lemma_mod_pos_bound, lemma_small_mod,
};
use vstd::bits::{low_bits_mask, lemma_usize_low_bits_mask_is_mod};
use crate::distribution::{
    cumulative, owner, symbols_distinct, total_occurrences, valid_distribution,
    lemma_cumulative_ends, lemma_cumulative_monotonic, lemma_cumulative_step, lemma_owner_range,
    lemma_owner_unique,
};
use crate::error::CodecError;
use crate::numeric::{lemma_pow2_increases, shift_left};

verus! {

/// The byte that a slot of the state table holds until a symbol is placed in it.
pub const UNASSIGNED: u8 = 97;

/// The stride of the spread for a table of `2^log` states.
pub open spec fn spread_step(log: nat) -> nat {
    pow2(log) / 2 + pow2(log) / 8 + 3
}

/// The slot that receives the occurrence number `k`.
pub open spec fn spread_position(log: nat, k: nat) -> nat {
    (k * spread_step(log)) % pow2(log)
}

/// The state table after the first `k` occurrences have been placed.
pub open spec fn spread_prefix(d: Seq<(u8, usize)>, log: nat, k: nat) -> Seq<u8>
    decreases k,
{
    if k == 0 {
        Seq::new(pow2(log), |i: int| UNASSIGNED)
    } else {
        spread_prefix(d, log, (k - 1) as nat).update(
            spread_position(log, (k - 1) as nat) as int,
            d[owner(d, (k - 1) as nat)].0,
        )
    }
}

/// The state table: the symbols laid out one after another, each as often
/// as it occurs, and occurrence number `k` placed in slot `k * step mod 2^log`.
pub open spec fn spread_table(d: Seq<(u8, usize)>, log: nat) -> Seq<u8> {
    spread_prefix(d, log, total_occurrences(d))
}

/// How often `symbol` stands in `table`.
pub open spec fn occurrences_in(table: Seq<u8>, symbol: u8) -> nat
    decreases table.len(),
{
    if table.len() == 0 {
        0
    } else {
        occurrences_in(table.drop_last(), symbol) + if table.last() == symbol {
            1nat
        } else {
            0nat
        }
    }
}

/// The state table holds every symbol exactly as often as it occurs.
pub open spec fn spread_complete(d: Seq<(u8, usize)>, log: nat) -> bool {
    forall|j: int|
        0 <= j < d.len() ==> occurrences_in(spread_table(d, log), (#[trigger] d[j]).0) == d[j].1
}

/// No occurrence before number `k` is placed in slot `i`.
pub open spec fn slot_untouched(log: nat, k: nat, i: int) -> bool {
    forall|m: nat| m < k ==> #[trigger] spread_position(log, m) != i
}

/// How many of the first `k` occurrences belong to `symbol`.
pub open spec fn placed(d: Seq<(u8, usize)>, k: nat, symbol: u8) -> nat
    decreases k,
{
    if k == 0 {
        0
    } else {
        placed(d, (k - 1) as nat, symbol) + if d[owner(d, (k - 1) as nat)].0 == symbol {
            1nat
        } else {
            0nat
        }
    }
}

/// The state table has `2^log` slots at every stage of the spread.
pub proof fn lemma_spread_prefix_len(d: Seq<(u8, usize)>, log: nat, k: nat)
    ensures
        spread_prefix(d, log, k).len() == pow2(log),
    decreases k,
{
    if k > 0 {
        lemma_spread_prefix_len(d, log, (k - 1) as nat);
        lemma_position_in_table(log, (k - 1) as nat);
    }
}

/// Every occurrence is placed inside the table.
pub proof fn lemma_position_in_table(log: nat, k: nat)
    ensures
        spread_position(log, k) < pow2(log),
{
    lemma_pow2_pos(log);
    lemma_mod_pos_bound((k * spread_step(log)) as int, pow2(log) as int);
}

/// A symbol stands in a table at most as often as the table has slots.
pub proof fn lemma_occurrences_bound(table: Seq<u8>, symbol: u8)
    ensures
        occurrences_in(table, symbol) <= table.len(),
    decreases table.len(),
{
    if table.len() > 0 {
        lemma_occurrences_bound(table.drop_last(), symbol);
    }
}

/// Writing to a slot takes one occurrence from the symbol that the slot
/// held and gives one to the symbol written.
pub proof fn lemma_occurrences_update(table: Seq<u8>, i: int, value: u8, symbol: u8)
    requires
        0 <= i < table.len(),
    ensures
        occurrences_in(table.update(i, value), symbol) + (if table[i] == symbol {
            1nat
        } else {
            0nat
        }) == occurrences_in(table, symbol) + (if value == symbol {
            1nat
        } else {
            0nat
        }),
    decreases table.len(),
{
    let changed = table.update(i, value);
    if i == table.len() - 1 {
        assert(changed.drop_last() =~= table.drop_last());
    } else {
        lemma_occurrences_update(table.drop_last(), i, value, symbol);
        assert(changed.drop_last() =~= table.drop_last().update(i, value));
    }
}

/// A table filled with one byte holds that byte in every slot and no other.
pub proof fn lemma_occurrences_uniform(n: nat, value: u8, symbol: u8)
    ensures
        occurrences_in(Seq::new(n, |i: int| value), symbol) == if value == symbol {
            n
        } else {
            0
        },
    decreases n,
{
    if n > 0 {
        lemma_occurrences_uniform((n - 1) as nat, value, symbol);
        assert(Seq::new(n, |i: int| value).drop_last() =~= Seq::new(
            (n - 1) as nat,
            |i: int| value,
        ));
    }
}

/// Taking one more slot into account adds one occurrence for the symbol in it.
pub proof fn lemma_occurrences_take_step(table: Seq<u8>, i: int, symbol: u8)
    requires
        0 <= i < table.len(),
    ensures
        occurrences_in(table.take(i + 1), symbol) == occurrences_in(table.take(i), symbol) + (
        if table[i] == symbol {
            1nat
        } else {
            0nat
        }),
{
    assert(table.take(i + 1).drop_last() =~= table.take(i));
}

/// A longer leading part of a table holds a symbol no less often.
pub proof fn lemma_occurrences_take_monotonic(table: Seq<u8>, a: int, b: int, symbol: u8)
    requires
        0 <= a <= b <= table.len(),
    ensures
        occurrences_in(table.take(a), symbol) <= occurrences_in(table.take(b), symbol),
    decreases b - a,
{
    if a < b {
        lemma_occurrences_take_monotonic(table, a, b - 1, symbol);
        lemma_occurrences_take_step(table, b - 1, symbol);
    }
}

/// The stride is odd for every table size in range but 2 and 8.
pub proof fn lemma_stride_parity(log: nat)
    requires
        1 <= log <= 16,
    ensures
        spread_step(log) % 2 == 1 <==> log != 1 && log != 3,
{
    lemma2_to64();
}

/// An odd factor takes no part in divisibility by a power of two.
proof fn lemma_odd_factor(e: nat, a: int, m: int)
    requires
        0 <= a,
        0 <= m,
        m % 2 == 1,
        (a * m) % (pow2(e) as int) == 0,
    ensures
        a % (pow2(e) as int) == 0,
    decreases e,
{
    if e == 0 {
        lemma2_to64();
    } else {
        let half = pow2((e - 1) as nat) as int;
        let whole = pow2(e) as int;
        lemma_pow2_unfold(e);
        lemma_pow2_pos((e - 1) as nat);
        let product = a * m;
        let q = product / whole;
        lemma_fundamental_div_mod(product, whole);
        assert(whole * q == 2 * (half * q)) by (nonlinear_arith)
            requires
                whole == 2 * half,
        ;
        if a % 2 == 1 {
            let a2 = a / 2;
            let m2 = m / 2;
            assert(a * m == 2 * (2 * a2 * m2 + a2 + m2) + 1) by (nonlinear_arith)
                requires
                    a == 2 * a2 + 1,
                    m == 2 * m2 + 1,
            ;
            assert(false);
        }
        let a2 = a / 2;
        assert(a2 * m == half * q) by (nonlinear_arith)
            requires
                a == 2 * a2,
                a * m == 2 * (half * q),
        ;
        lemma_mod_multiples_basic(q, half);
        assert(half * q == q * half) by (nonlinear_arith);
        lemma_odd_factor((e - 1) as nat, a2, m);
        let r = a2 / half;
        lemma_fundamental_div_mod(a2, half);
        assert(a == r * whole) by (nonlinear_arith)
            requires
                a == 2 * a2,
                a2 == half * r,
                whole == 2 * half,
        ;
        lemma_mod_multiples_basic(r, whole);
    }
}

/// With an odd stride no two occurrences share a slot.
pub proof fn lemma_stride_injective(log: nat, a: nat, b: nat)
    requires
        spread_step(log) % 2 == 1,
        a < b < pow2(log),
    ensures
        spread_position(log, a) != spread_position(log, b),
{
    let step = spread_step(log) as int;
    let size = pow2(log) as int;
    if spread_position(log, a) == spread_position(log, b) {
        lemma_mod_equivalence(b * step, a * step, size);
        assert((b - a) * step == b * step - a * step) by (nonlinear_arith);
        lemma_odd_factor(log, b - a, step);
        lemma_small_mod((b - a) as nat, size as nat);
    }
}

/// How many of the first `k` occurrences belong to the symbol at `j`: as
/// much of its run as lies below `k`.
pub proof fn lemma_placed_run(d: Seq<(u8, usize)>, k: nat, j: int)
    requires
        symbols_distinct(d),
        0 <= j < d.len(),
        k <= total_occurrences(d),
    ensures
        placed(d, k, d[j].0) == if k <= cumulative(d, j) {
            0
        } else if k >= cumulative(d, j) + d[j].1 {
            d[j].1 as int
        } else {
            k - cumulative(d, j)
        },
    decreases k,
{
    if k > 0 {
        let at = (k - 1) as nat;
        lemma_placed_run(d, at, j);
        lemma_owner_range(d, at);
        lemma_cumulative_step(d, j);
        let o = owner(d, at);
        if o == j {
        } else {
            if o < j {
                assert(d[o].0 != d[j].0);
            } else {
                assert(d[j].0 != d[o].0);
            }
            if cumulative(d, j) <= at < cumulative(d, j + 1) {
                lemma_owner_unique(d, at, j);
            }
        }
    }
}

/// While the stride is odd, placing an occurrence takes one slot from the
/// unassigned ones and gives it to the occurrence's symbol.
pub proof fn lemma_spread_counts(d: Seq<(u8, usize)>, log: nat, k: nat, symbol: u8)
    requires
        spread_step(log) % 2 == 1,
        k <= pow2(log),
    ensures
        occurrences_in(spread_prefix(d, log, k), symbol) == placed(d, k, symbol) + (if symbol
            == UNASSIGNED {
            pow2(log) - k
        } else {
            0
        }),
        forall|i: int|
            0 <= i < pow2(log) && slot_untouched(log, k, i) ==> #[trigger] spread_prefix(d, log, k)[i]
                == UNASSIGNED,
    decreases k,
{
    lemma_pow2_pos(log);
    if k == 0 {
        lemma_occurrences_uniform(pow2(log), UNASSIGNED, symbol);
    } else {
        let at = (k - 1) as nat;
        let before = spread_prefix(d, log, at);
        let slot = spread_position(log, at) as int;
        lemma_spread_counts(d, log, at, symbol);
        lemma_spread_prefix_len(d, log, at);
        assert(slot_untouched(log, at, slot)) by {
            assert forall|m: nat| m < at implies #[trigger] spread_position(log, m) != slot by {
                lemma_stride_injective(log, m, at);
            }
        }
        assert(before[slot] == UNASSIGNED);
        lemma_occurrences_update(before, slot, d[owner(d, at)].0, symbol);
        assert forall|i: int| 0 <= i < pow2(log) && slot_untouched(log, k, i) implies #[trigger] spread_prefix(
            d,
            log,
            k,
        )[i] == UNASSIGNED by {
            assert(spread_position(log, at) != i);
            assert(slot_untouched(log, at, i));
            assert(before[i] == UNASSIGNED);
        }
    }
}

/// For every table size in range but 2 and 8 the spread gives each symbol
/// of a valid distribution exactly as many slots as it has occurrences.
pub proof fn lemma_spread_complete(d: Seq<(u8, usize)>, log: nat)
    requires
        valid_distribution(d, log),
        log != 1,
        log != 3,
    ensures
        spread_complete(d, log),
{
    lemma_stride_parity(log);
    assert forall|j: int| 0 <= j < d.len() implies occurrences_in(
        spread_table(d, log),
        (#[trigger] d[j]).0,
    ) == d[j].1 by {
        lemma_spread_counts(d, log, pow2(log), d[j].0);
        lemma_placed_run(d, pow2(log), j);
        lemma_cumulative_step(d, j);
        lemma_cumulative_monotonic(d, j + 1, d.len() as int);
        lemma_cumulative_ends(d);
    }
}

/// Spreads the symbols of `distribution` over a table of `2^table_log`
/// slots: the occurrences are taken in the order of the distribution and
/// each is placed one stride after the one before, wrapping at the end of
/// the table. Fails unless the walk ends where it began.
pub fn spread_symbols(distribution: &[(u8, usize)], table_log: usize) -> (r: Result<
    Vec<u8>,
    CodecError,
>)
    ensures
        match r {
            Ok(table) => {
                &&& 1 <= table_log <= 16
                &&& spread_position(table_log as nat, total_occurrences(distribution@)) == 0
                &&& table@ == spread_table(distribution@, table_log as nat)
            },
            Err(e) => {
                &&& e == CodecError::InvalidDistribution
                &&& !(1 <= table_log <= 16 && spread_position(
                    table_log as nat,
                    total_occurrences(distribution@),
                ) == 0)
            },
        },
{
    if table_log < 1 || table_log > 16 {
        return Err(CodecError::InvalidDistribution);
    }
    let ghost d = distribution@;
    let ghost log = table_log as nat;
    proof {
        lemma2_to64();
        lemma_pow2_increases(log, 16);
        lemma_pow2_pos(log);
    }
    let table_size: usize = shift_left(1, table_log);
    let mask: usize = table_size - 1;
    proof {
        assert(table_size >> 1 == table_size / 2) by (bit_vector);
        assert(table_size >> 3 == table_size / 8) by (bit_vector);
    }
    let step: usize = (table_size >> 1) + (table_size >> 3) + 3;
    proof {
        assert(step == spread_step(log));
        assert(mask == low_bits_mask(log));
    }
    let mut state_table: Vec<u8> = vec![UNASSIGNED; table_size];
    let mut pos: usize = 0;
    let ghost mut k: nat = 0;
    proof {
        assert(state_table@ =~= spread_prefix(d, log, 0));
        lemma_cumulative_ends(d);
        assert(0 * spread_step(log) == 0) by (nonlinear_arith);
        lemma_small_mod(0, pow2(log));
    }
    let mut j: usize = 0;
    while j < distribution.len()
        invariant
            d == distribution@,
            log == table_log as nat,
            1 <= log <= 16,
            table_size == pow2(log),
            table_size <= 65536,
            mask == low_bits_mask(log),
            mask == table_size - 1,
            step == spread_step(log),
            step <= 65536,
            j <= distribution.len(),
            k == cumulative(d, j as int),
            pos == spread_position(log, k),
            pos < table_size,
            state_table@ == spread_prefix(d, log, k),
        decreases distribution.len() - j,
    {
        let symbol = distribution[j].0;
        let occurrences = distribution[j].1;
        let mut m: usize = 0;
        proof {
            lemma_cumulative_step(d, j as int);
        }
        while m < occurrences
            invariant
                d == distribution@,
                log == table_log as nat,
                1 <= log <= 16,
                table_size == pow2(log),
                table_size <= 65536,
                mask == low_bits_mask(log),
                mask == table_size - 1,
                step == spread_step(log),
                step <= 65536,
                j < distribution.len(),
                symbol == d[j as int].0,
                occurrences == d[j as int].1,
                cumulative(d, j + 1) == cumulative(d, j as int) + occurrences,
                m <= occurrences,
                k == cumulative(d, j as int) + m,
                pos == spread_position(log, k),
                pos < table_size,
                state_table@ == spread_prefix(d, log, k),
            decreases occurrences - m,
        {
            proof {
                lemma_owner_unique(d, k, j as int);
                lemma_spread_prefix_len(d, log, k);
            }
            state_table.set(pos, symbol);
            let sum: usize = pos + step;
            proof {
                lemma_usize_low_bits_mask_is_mod(sum, log);
                let stride = spread_step(log) as int;
                let size = pow2(log) as int;
                lemma_add_mod_noop_right(stride, k * stride, size);
                assert((k + 1) * stride == stride + k * stride) by (nonlinear_arith);
            }
            pos = sum & mask;
            m += 1;
            proof {
                k = k + 1;
            }
        }
        j += 1;
    }
    proof {
        lemma_cumulative_ends(d);
    }
    if pos != 0 {
        Err(CodecError::InvalidDistribution)
    } else {
        Ok(state_table)
    }
}

} // verus!
