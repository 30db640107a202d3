use tans::spread::UNASSIGNED;
use tans::{
    build_tables, cumulative_table, spread_symbols, CodecError, SymbolDecoding, Transformation,
};

const STANDARD: [(u8, usize); 3] = [(b'0', 10), (b'1', 10), (b'2', 12)];

fn count_of(table: &[u8], symbol: u8) -> usize {
    table.iter().filter(|s| **s == symbol).count()
}

fn is_invalid<T>(r: &Result<T, CodecError>) -> bool {
    matches!(r, Err(CodecError::InvalidDistribution))
}

#[test]
fn spread_of_the_standard_distribution() {
    let table = spread_symbols(&STANDARD, 5).unwrap();
    let expected: Vec<u8> = vec![
        48, 48, 49, 50, 50, 48, 49, 49, 50, 50, 48, 49, 50, 50, 48, 48, 49, 50, 50, 48, 49, 49,
        50, 48, 48, 49, 50, 50, 48, 49, 49, 50,
    ];
    assert_eq!(table, expected);
}

#[test]
fn spread_fails_where_the_walk_does_not_close() {
    assert!(is_invalid(&spread_symbols(&[(b'0', 10), (b'1', 10), (b'2', 11)], 5)));
    assert!(is_invalid(&spread_symbols(&STANDARD, 0)));
    assert!(is_invalid(&spread_symbols(&STANDARD, 17)));
}

#[test]
fn spread_gives_each_symbol_its_occurrences() {
    let cases: Vec<(Vec<(u8, usize)>, usize)> = vec![
        (STANDARD.to_vec(), 5),
        (vec![(1, 1), (2, 1), (3, 2)], 2),
        (vec![(7, 16)], 4),
        (vec![(10, 1), (20, 15)], 4),
        (vec![(0, 100), (1, 28), (2, 1), (3, 127)], 8),
        (vec![(0, 40000), (1, 25536)], 16),
    ];
    for (distribution, log) in cases {
        let table = spread_symbols(&distribution, log).unwrap();
        assert_eq!(table.len(), 1 << log);
        for (symbol, occurrences) in &distribution {
            assert_eq!(count_of(&table, *symbol), *occurrences);
        }
    }
}

#[test]
fn spread_of_eight_slots_touches_only_the_first() {
    let table = spread_symbols(&[(b'0', 4), (b'1', 4)], 3).unwrap();
    let mut expected = vec![UNASSIGNED; 8];
    expected[0] = b'1';
    assert_eq!(table, expected);
}

#[test]
fn cumulative_table_holds_the_run_starts() {
    assert_eq!(cumulative_table(&STANDARD, 32), Some(vec![0, 10, 20, 32]));
    assert_eq!(cumulative_table(&STANDARD, 100), Some(vec![0, 10, 20, 32]));
    assert_eq!(cumulative_table(&[], 0), Some(vec![0]));
}

#[test]
fn cumulative_table_stops_at_the_limit() {
    assert_eq!(cumulative_table(&STANDARD, 31), None);
    assert_eq!(cumulative_table(&[(1, usize::MAX), (2, usize::MAX)], usize::MAX), None);
}

#[test]
fn tables_of_the_standard_distribution() {
    let tables = build_tables(&STANDARD, 5).unwrap();
    assert_eq!(tables.table_log(), 5);
    assert_eq!(tables.table_size(), 32);
    let coding: Vec<usize> = vec![
        32, 33, 37, 42, 46, 47, 51, 55, 56, 60, 34, 38, 39, 43, 48, 52, 53, 57, 61, 62, 35, 36,
        40, 41, 44, 45, 49, 50, 54, 58, 59, 63,
    ];
    assert_eq!(tables.coding_table(), &coding);
    assert_eq!(tables.output_bits(), &vec![0usize; 32]);
    let tt = tables.symbol_tt();
    assert_eq!(tt.len(), 3);
    assert_eq!(
        tt.get(&b'0'),
        Some(&Transformation { delta_nb_bits: 131032, delta_find_state: -10 })
    );
    assert_eq!(tt.get(&b'1'), Some(&Transformation { delta_nb_bits: 131032, delta_find_state: 0 }));
    assert_eq!(tt.get(&b'2'), Some(&Transformation { delta_nb_bits: 131024, delta_find_state: 8 }));
    let steps: [(u8, usize, usize); 32] = [
        (48, 2, 8), (48, 2, 12), (49, 2, 8), (50, 2, 16), (50, 2, 20), (48, 2, 16), (49, 2, 12),
        (49, 2, 16), (50, 2, 24), (50, 2, 28), (48, 2, 20), (49, 2, 20), (50, 1, 0), (50, 1, 2),
        (48, 2, 24), (48, 2, 28), (49, 2, 24), (50, 1, 4), (50, 1, 6), (48, 1, 0), (49, 2, 28),
        (49, 1, 0), (50, 1, 8), (48, 1, 2), (48, 1, 4), (49, 1, 2), (50, 1, 10), (50, 1, 12),
        (48, 1, 6), (49, 1, 4), (49, 1, 6), (50, 1, 14),
    ];
    let expected: Vec<SymbolDecoding> = steps
        .iter()
        .map(|(symbol, nb_bits, new_x)| SymbolDecoding {
            symbol: *symbol,
            nb_bits: *nb_bits,
            new_x: *new_x,
        })
        .collect();
    assert_eq!(tables.decode_table(), &expected);
}

#[test]
fn a_symbol_that_occurs_once_does_not_move_the_running_total() {
    let tables = build_tables(&[(b'a', 2), (b'b', 1), (b'c', 1)], 2).unwrap();
    let tt = tables.symbol_tt();
    assert_eq!(
        tt.get(&b'a'),
        Some(&Transformation { delta_nb_bits: 131064, delta_find_state: -2 })
    );
    assert_eq!(tt.get(&b'b'), Some(&Transformation { delta_nb_bits: 131068, delta_find_state: 1 }));
    assert_eq!(tt.get(&b'c'), Some(&Transformation { delta_nb_bits: 131068, delta_find_state: 1 }));
    assert_eq!(tables.coding_table(), &vec![4usize, 5, 6, 7]);
}

#[test]
fn tables_of_a_lone_occurrence_beside_a_full_run() {
    let tables = build_tables(&[(10, 1), (20, 15)], 4).unwrap();
    let tt = tables.symbol_tt();
    assert_eq!(tt.get(&10), Some(&Transformation { delta_nb_bits: 262128, delta_find_state: -1 }));
    assert_eq!(tt.get(&20), Some(&Transformation { delta_nb_bits: 65506, delta_find_state: -15 }));
    let decode = tables.decode_table();
    assert_eq!(decode[0], SymbolDecoding { symbol: 10, nb_bits: 4, new_x: 0 });
    assert_eq!(decode[1], SymbolDecoding { symbol: 20, nb_bits: 1, new_x: 14 });
    assert_eq!(decode[2], SymbolDecoding { symbol: 20, nb_bits: 0, new_x: 0 });
    assert_eq!(decode[15], SymbolDecoding { symbol: 20, nb_bits: 0, new_x: 13 });
}

#[test]
fn the_largest_table_has_a_negative_offset_for_a_frequent_symbol() {
    let tables = build_tables(&[(0, 40000), (1, 25536)], 16).unwrap();
    assert_eq!(tables.table_size(), 65536);
    let tt = tables.symbol_tt();
    assert_eq!(
        tt.get(&0),
        Some(&Transformation { delta_nb_bits: -14464, delta_find_state: -40000 })
    );
    assert_eq!(
        tt.get(&1),
        Some(&Transformation { delta_nb_bits: 28928, delta_find_state: 14464 })
    );
    assert_eq!(tables.decode_table()[1], SymbolDecoding { symbol: 0, nb_bits: 1, new_x: 14466 });
}

#[test]
fn occurrences_that_do_not_sum_to_the_table_size_are_invalid() {
    assert!(is_invalid(&build_tables(&[(b'0', 10), (b'1', 10), (b'2', 11)], 5)));
    assert!(is_invalid(&build_tables(&[(b'0', 10), (b'1', 10), (b'2', 13)], 5)));
    assert!(is_invalid(&build_tables(&[(b'0', 32), (b'1', 32)], 5)));
    assert!(is_invalid(&build_tables(&[(b'0', usize::MAX), (b'1', 33)], 5)));
    assert!(is_invalid(&build_tables(&[], 5)));
}

#[test]
fn a_table_log_out_of_range_is_invalid() {
    assert!(is_invalid(&build_tables(&[(b'0', 1)], 0)));
    assert!(is_invalid(&build_tables(&STANDARD, 17)));
    assert!(is_invalid(&build_tables(&STANDARD, usize::MAX)));
}

#[test]
fn a_symbol_without_occurrences_is_invalid() {
    assert!(is_invalid(&build_tables(&[(b'0', 16), (b'1', 0), (b'2', 16)], 5)));
}

#[test]
fn a_symbol_listed_twice_is_invalid() {
    assert!(is_invalid(&build_tables(&[(b'0', 10), (b'1', 10), (b'0', 12)], 5)));
}

#[test]
fn tables_of_two_and_eight_states_are_refused_when_slots_stay_unassigned() {
    assert!(is_invalid(&build_tables(&[(b'0', 4), (b'1', 4)], 3)));
    assert!(is_invalid(&build_tables(&[(b'0', 8)], 3)));
    assert!(is_invalid(&build_tables(&[(b'0', 1), (b'1', 1)], 1)));
    assert!(is_invalid(&build_tables(&[(b'0', 2)], 1)));
    assert!(is_invalid(&build_tables(&[(b'b', 1), (UNASSIGNED, 7)], 3)));
}

#[test]
fn tables_of_eight_states_are_built_where_the_untouched_slots_fit() {
    let tables = build_tables(&[(UNASSIGNED, 7), (b'b', 1)], 3).unwrap();
    assert_eq!(tables.coding_table(), &vec![9usize, 10, 11, 12, 13, 14, 15, 8]);
    let tables = build_tables(&[(UNASSIGNED, 8)], 3).unwrap();
    assert_eq!(tables.coding_table(), &vec![8usize, 9, 10, 11, 12, 13, 14, 15]);
}

#[test]
fn valid_distributions_are_accepted_for_every_other_size() {
    for log in 1..=16usize {
        if log == 1 || log == 3 {
            continue;
        }
        let size = 1usize << log;
        let distribution = [(b'x', size / 4), (b'y', size - size / 4 - 1), (b'z', 1)];
        assert!(build_tables(&distribution, log).is_ok());
    }
}

#[test]
fn coding_table_entries_are_states() {
    let cases: Vec<(Vec<(u8, usize)>, usize)> = vec![
        (STANDARD.to_vec(), 5),
        (vec![(1, 1), (2, 1), (3, 2)], 2),
        (vec![(0, 100), (1, 28), (2, 1), (3, 127)], 8),
    ];
    for (distribution, log) in cases {
        let tables = build_tables(&distribution, log).unwrap();
        let size = 1usize << log;
        let mut seen = vec![false; size];
        assert_eq!(tables.coding_table().len(), size);
        for entry in tables.coding_table() {
            assert!(size <= *entry && *entry < 2 * size);
            assert!(!seen[*entry - size]);
            seen[*entry - size] = true;
        }
    }
}

#[test]
fn decode_table_emits_each_symbol_in_as_many_states_as_it_occurs() {
    let distribution = [(0u8, 100usize), (1, 28), (2, 1), (3, 127)];
    let tables = build_tables(&distribution, 8).unwrap();
    for (symbol, occurrences) in distribution {
        let states = tables.decode_table().iter().filter(|step| step.symbol == symbol).count();
        assert_eq!(states, occurrences);
    }
}

#[test]
fn building_twice_gives_the_same_tables() {
    let first = build_tables(&STANDARD, 5).unwrap();
    let second = build_tables(&STANDARD, 5).unwrap();
    assert_eq!(first.table_log(), second.table_log());
    assert_eq!(first.table_size(), second.table_size());
    assert_eq!(first.coding_table(), second.coding_table());
    assert_eq!(first.output_bits(), second.output_bits());
    assert_eq!(first.symbol_tt(), second.symbol_tt());
    assert_eq!(first.decode_table(), second.decode_table());
}
