use tans::{bits_to_state, first1_index, output_nb_bits, CodecError};

fn bit_vec(text: &str) -> Vec<bool> {
    text.chars().map(|c| c == '1').collect()
}

#[test]
fn first1_index_is_zero_for_zero_and_one() {
    assert_eq!(first1_index(0), 0);
    assert_eq!(first1_index(1), 0);
}

#[test]
fn first1_index_finds_the_top_bit() {
    assert_eq!(first1_index(2), 1);
    assert_eq!(first1_index(3), 1);
    assert_eq!(first1_index(4), 2);
    assert_eq!(first1_index(9), 3);
    assert_eq!(first1_index(31), 4);
    assert_eq!(first1_index(32), 5);
    assert_eq!(first1_index(63), 5);
    assert_eq!(first1_index(65535), 15);
    assert_eq!(first1_index(65536), 16);
    assert_eq!(first1_index(usize::MAX), usize::BITS as usize - 1);
}

#[test]
fn output_nb_bits_with_no_bits_appends_nothing() {
    let mut stream = bit_vec("101");
    output_nb_bits(&mut stream, 0b1111, 0);
    assert_eq!(stream, bit_vec("101"));
}

#[test]
fn output_nb_bits_writes_most_significant_bit_first() {
    let mut stream = Vec::new();
    output_nb_bits(&mut stream, 0b10110, 3);
    assert_eq!(stream, bit_vec("110"));
}

#[test]
fn output_nb_bits_pads_on_the_left() {
    let mut stream = bit_vec("1");
    output_nb_bits(&mut stream, 1, 4);
    assert_eq!(stream, bit_vec("10001"));
}

#[test]
fn output_nb_bits_drops_the_high_bits() {
    let mut stream = Vec::new();
    output_nb_bits(&mut stream, 0xff, 2);
    assert_eq!(stream, bit_vec("11"));
    output_nb_bits(&mut stream, 40, 2);
    assert_eq!(stream, bit_vec("1100"));
}

#[test]
fn output_nb_bits_wider_than_a_word_pads_with_zeros() {
    let mut stream = Vec::new();
    output_nb_bits(&mut stream, 1, 70);
    assert_eq!(stream.len(), 70);
    assert!(stream[..69].iter().all(|b| !*b));
    assert!(stream[69]);
}

#[test]
fn bits_to_state_reads_the_tail_as_a_number() {
    let stream = bit_vec("10110");
    let (value, rest) = bits_to_state(&stream, 3).unwrap();
    assert_eq!(value, 6);
    assert_eq!(rest.to_vec(), bit_vec("10"));
}

#[test]
fn bits_to_state_with_no_bits_gives_zero_and_the_whole_stream() {
    let stream = bit_vec("10110");
    let (value, rest) = bits_to_state(&stream, 0).unwrap();
    assert_eq!(value, 0);
    assert_eq!(rest.to_vec(), stream);
}

#[test]
fn bits_to_state_can_take_the_whole_stream() {
    let stream = bit_vec("10110");
    let (value, rest) = bits_to_state(&stream, 5).unwrap();
    assert_eq!(value, 22);
    assert!(rest.is_empty());
}

#[test]
fn bits_to_state_past_the_start_is_truncated() {
    let stream = bit_vec("10110");
    assert_eq!(bits_to_state(&stream, 6), Err(CodecError::TruncatedStream));
    let empty: Vec<bool> = Vec::new();
    assert_eq!(bits_to_state(&empty, 1), Err(CodecError::TruncatedStream));
}

#[test]
fn bits_written_are_read_back() {
    for value in 0..64usize {
        for width in 0..8usize {
            let mut stream = bit_vec("01");
            output_nb_bits(&mut stream, value, width);
            let (read, rest) = bits_to_state(&stream, width).unwrap();
            assert_eq!(read, value % (1 << width));
            assert_eq!(rest.to_vec(), bit_vec("01"));
        }
    }
}

#[test]
fn every_error_has_its_own_message() {
    assert_eq!(CodecError::InvalidDistribution.message(), "invalid distribution");
    assert_eq!(CodecError::UnknownSymbol.message(), "unknown symbol");
    assert_eq!(CodecError::EmptyInput.message(), "empty input");
    assert_eq!(CodecError::TruncatedStream.message(), "truncated stream");
    assert_eq!(CodecError::CorruptStream.message(), "corrupt stream");
}
