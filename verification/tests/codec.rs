use tans::{
    build_tables, decode_data, decode_symbol, encode_data, encode_symbol, prime_state,
    CodecError, Tables,
};

fn standard_tables() -> Tables {
    build_tables(&[(b'0', 10), (b'1', 10), (b'2', 12)], 5).unwrap()
}

fn bit_seq(text: &str) -> Vec<bool> {
    text.chars().map(|c| c == '1').collect()
}

#[test]
fn a_mixed_input_round_trips() {
    let tables = standard_tables();
    let input = b"1102010120";
    let stream = encode_data(input, &tables).unwrap();
    assert!(!stream.is_empty());
    assert!(stream.len() < 8 * input.len());
    assert_eq!(stream, bit_seq("001110001011000100001"));
    assert_eq!(decode_data(&stream, &tables).unwrap(), input.to_vec());
    assert_eq!(
        decode_data(&stream, &tables).unwrap(),
        vec![49, 49, 48, 50, 48, 49, 48, 49, 50, 48]
    );
}

#[test]
fn a_single_byte_round_trips() {
    let tables = standard_tables();
    let stream = encode_data(b"0", &tables).unwrap();
    assert_eq!(stream, bit_seq("0000000"));
    assert_eq!(decode_data(&stream, &tables).unwrap(), vec![48]);
}

#[test]
fn a_run_of_one_symbol_round_trips() {
    let tables = standard_tables();
    let input = b"2222222222222";
    let stream = encode_data(input, &tables).unwrap();
    assert_eq!(stream, bit_seq("000100011111010001101101"));
    assert_eq!(decode_data(&stream, &tables).unwrap(), input.to_vec());

    let mut state = prime_state(input[0], &tables).unwrap();
    let mut emitted = 0;
    for byte in input {
        let mut bits = Vec::new();
        state = encode_symbol(*byte, state, &tables, &mut bits).unwrap();
        emitted += bits.len();
    }
    assert_eq!(emitted, 19);
    assert_eq!(stream.len(), tables.table_log() + emitted);
}

#[test]
fn a_byte_outside_the_distribution_is_unknown() {
    let tables = standard_tables();
    assert_eq!(encode_data(b"3", &tables), Err(CodecError::UnknownSymbol));
    assert_eq!(encode_data(b"0123", &tables), Err(CodecError::UnknownSymbol));
    assert_eq!(encode_data(b"1102310120", &tables), Err(CodecError::UnknownSymbol));
    assert_eq!(prime_state(b'3', &tables), Err(CodecError::UnknownSymbol));
    let mut bits = bit_seq("01");
    assert_eq!(encode_symbol(b'3', 32, &tables, &mut bits), Err(CodecError::UnknownSymbol));
    assert_eq!(bits, bit_seq("01"));
}

#[test]
fn an_empty_input_is_refused() {
    let tables = standard_tables();
    assert_eq!(encode_data(b"", &tables), Err(CodecError::EmptyInput));
}

#[test]
fn a_stream_of_zeros_and_one_more_bit_ends_with_a_typed_outcome() {
    let tables = standard_tables();
    for text in ["000000", "100000", "000001"] {
        assert_eq!(decode_data(&bit_seq(text), &tables), Err(CodecError::TruncatedStream));
    }
}

#[test]
fn a_stream_shorter_than_the_final_state_is_truncated() {
    let tables = standard_tables();
    assert_eq!(decode_data(&bit_seq(""), &tables), Err(CodecError::TruncatedStream));
    assert_eq!(decode_data(&bit_seq("1010"), &tables), Err(CodecError::TruncatedStream));
}

#[test]
fn a_stream_that_holds_only_a_state_decodes_to_nothing() {
    let tables = standard_tables();
    assert_eq!(decode_data(&bit_seq("10101"), &tables), Ok(Vec::new()));
}

#[test]
fn a_step_that_makes_no_progress_is_corrupt() {
    let tables = build_tables(&[(b'x', 4)], 2).unwrap();
    assert_eq!(decode_data(&bit_seq("100"), &tables), Err(CodecError::CorruptStream));
    assert_eq!(decode_data(&bit_seq("00"), &tables), Ok(Vec::new()));
}

#[test]
fn the_encoder_starts_where_the_first_byte_leads_from_zero() {
    let tables = standard_tables();
    assert_eq!(prime_state(b'0', &tables), Ok(40));
    assert_eq!(prime_state(b'1', &tables), Ok(32));
    assert_eq!(prime_state(b'2', &tables), Ok(56));
}

#[test]
fn encode_symbol_appends_the_low_bits_and_moves_on() {
    let tables = standard_tables();
    let mut bits = bit_seq("1");
    assert_eq!(encode_symbol(b'0', 40, &tables, &mut bits), Ok(32));
    assert_eq!(bits, bit_seq("100"));
    let mut bits = Vec::new();
    assert_eq!(encode_symbol(b'2', 35, &tables, &mut bits), Ok(45));
    assert_eq!(bits, bit_seq("1"));
}

#[test]
fn no_step_emits_more_bits_than_the_table_log() {
    let cases: Vec<(Vec<(u8, usize)>, usize)> = vec![
        (vec![(b'0', 10), (b'1', 10), (b'2', 12)], 5),
        (vec![(1, 1), (2, 1), (3, 2)], 2),
        (vec![(10, 1), (20, 15)], 4),
        (vec![(0, 100), (1, 28), (2, 1), (3, 127)], 8),
    ];
    for (distribution, log) in cases {
        let tables = build_tables(&distribution, log).unwrap();
        let size = tables.table_size();
        for (symbol, _) in &distribution {
            for state in size..2 * size {
                let mut bits = Vec::new();
                let next = encode_symbol(*symbol, state, &tables, &mut bits).unwrap();
                assert!(bits.len() <= log);
                assert!(size <= next && next < 2 * size);
            }
        }
    }
}

#[test]
fn decode_symbol_takes_the_bits_of_its_state() {
    let tables = standard_tables();
    let stream = bit_seq("0110");
    let (symbol, next, rest) = decode_symbol(12, &stream, &tables).unwrap();
    assert_eq!(symbol, b'2');
    assert_eq!(next, 0);
    assert_eq!(rest.to_vec(), bit_seq("011"));
    let (symbol, next, rest) = decode_symbol(0, &stream, &tables).unwrap();
    assert_eq!(symbol, b'0');
    assert_eq!(next, 10);
    assert_eq!(rest.to_vec(), bit_seq("01"));
    let short = bit_seq("1");
    assert_eq!(decode_symbol(0, &short, &tables), Err(CodecError::TruncatedStream));
}

#[test]
fn every_short_input_round_trips() {
    let tables = standard_tables();
    let alphabet = [b'0', b'1', b'2'];
    let mut inputs: Vec<Vec<u8>> = alphabet.iter().map(|s| vec![*s]).collect();
    let mut start = 0;
    for _ in 0..4 {
        let end = inputs.len();
        for i in start..end {
            for symbol in alphabet {
                let mut longer = inputs[i].clone();
                longer.push(symbol);
                inputs.push(longer);
            }
        }
        start = end;
    }
    assert_eq!(inputs.len(), 3 + 9 + 27 + 81 + 243);
    for input in inputs {
        let stream = encode_data(&input, &tables).unwrap();
        assert_eq!(decode_data(&stream, &tables), Ok(input));
    }
}

#[test]
fn the_largest_table_round_trips() {
    let tables = build_tables(&[(0, 40000), (1, 25536)], 16).unwrap();
    let input = vec![1, 0, 0, 1, 1, 0];
    let stream = encode_data(&input, &tables).unwrap();
    assert_eq!(stream.len(), 22);
    assert_eq!(decode_data(&stream, &tables), Ok(input));
}

#[test]
fn a_symbol_behind_a_lone_occurrence_is_not_recovered() {
    let tables = build_tables(&[(b'a', 2), (b'b', 1), (b'c', 1)], 2).unwrap();
    let stream = encode_data(b"c", &tables).unwrap();
    assert_eq!(stream, bit_seq("0110"));
    assert_eq!(decode_data(&stream, &tables), Ok(b"b".to_vec()));
    let stream = encode_data(b"ab", &tables).unwrap();
    assert_eq!(decode_data(&stream, &tables), Ok(b"ab".to_vec()));
}

#[test]
fn leading_bytes_that_emit_no_bits_are_not_recovered() {
    let tables = build_tables(&[(b'a', 3), (b'b', 1)], 2).unwrap();
    let stream = encode_data(b"a", &tables).unwrap();
    assert_eq!(stream, bit_seq("10"));
    assert_eq!(decode_data(&stream, &tables), Ok(Vec::new()));
    let stream = encode_data(b"aab", &tables).unwrap();
    assert_eq!(stream, bit_seq("00011"));
    assert_eq!(decode_data(&stream, &tables), Ok(b"ab".to_vec()));
    let stream = encode_data(b"ba", &tables).unwrap();
    assert_eq!(stream, bit_seq("10100"));
    assert_eq!(decode_data(&stream, &tables), Ok(b"ba".to_vec()));
}

#[test]
fn steps_that_emit_no_bits_are_recovered_behind_a_first_bit() {
    let tables = build_tables(&[(b'a', 3), (b'b', 1)], 2).unwrap();
    let stream = encode_data(b"baaaa", &tables).unwrap();
    assert_eq!(stream, bit_seq("101000"));
    assert_eq!(decode_data(&stream, &tables), Ok(b"baaaa".to_vec()));
    let stream = encode_data(b"baab", &tables).unwrap();
    assert_eq!(stream, bit_seq("1010111"));
    assert_eq!(decode_data(&stream, &tables), Ok(b"baab".to_vec()));
}

#[test]
fn a_lookup_off_its_run_may_still_land_on_the_same_symbol() {
    let tables = build_tables(&[(b'x', 1), (b'a', 2), (b'b', 1)], 2).unwrap();
    let stream = encode_data(b"a", &tables).unwrap();
    assert_eq!(stream, bit_seq("001"));
    assert_eq!(decode_data(&stream, &tables), Ok(b"a".to_vec()));
    let stream = encode_data(b"aa", &tables).unwrap();
    assert_eq!(stream, bit_seq("0100"));
    assert_eq!(decode_data(&stream, &tables), Ok(b"x".to_vec()));
    let stream = encode_data(b"b", &tables).unwrap();
    assert_eq!(stream, bit_seq("0110"));
    assert_eq!(decode_data(&stream, &tables), Err(CodecError::TruncatedStream));
}
