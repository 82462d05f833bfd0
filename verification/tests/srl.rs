use tsgu_rpc::bits::{BitReader, BitWriter};
use tsgu_rpc::srl::{decode_srl, encode_srl, SrlReader};

#[test]
fn decode_empty() {
    let result = decode_srl(&[], 0, 1);
    assert!(result.is_empty());
}

#[test]
fn decode_empty_data() {
    // With no data (empty slice), all positions default to zero
    let result = decode_srl(&[], 5, 1);
    assert_eq!(result, vec![0, 0, 0, 0, 0]);
}

#[test]
fn encode_empty() {
    let encoded = encode_srl(&[], 1);
    assert_eq!(encoded, vec![0x00]); // just sentinel
}

#[test]
fn encode_all_zeros() {
    let encoded = encode_srl(&[0, 0, 0], 1);
    // Sentinel must be present
    assert_eq!(*encoded.last().unwrap(), 0x00);
    // Round-trip: all zeros must survive
    let decoded = decode_srl(&encoded, 3, 1);
    assert_eq!(decoded, vec![0, 0, 0]);
}

#[test]
fn round_trip_single_positive() {
    let original = vec![1];
    let encoded = encode_srl(&original, 1);
    let decoded = decode_srl(&encoded, 1, 1);
    assert_eq!(decoded, original);
}

#[test]
fn round_trip_single_negative() {
    let original = vec![-1];
    let encoded = encode_srl(&original, 1);
    let decoded = decode_srl(&encoded, 1, 1);
    assert_eq!(decoded, original);
}

#[test]
fn round_trip_mixed_zeros() {
    // Zeros at the start (where k=0) must survive the round-trip
    let original = vec![0, 0, 1, -1, 0, 3];
    let encoded = encode_srl(&original, 4);
    let decoded = decode_srl(&encoded, original.len(), 4);
    assert_eq!(decoded, original);
}

#[test]
fn round_trip_nonzero_only() {
    let original = vec![1, -1, 2, -3, 1];
    let encoded = encode_srl(&original, 4);
    let decoded = decode_srl(&encoded, original.len(), 4);
    assert_eq!(decoded, original);
}

#[test]
fn srl_reader_decodes_single_positive_magnitude() {
    // Bits 1001 (num_bits=2): '1' escape, '0' no remainder zeros, '0' sign +,
    // truncated-unary magnitude terminates immediately -> +1.
    let mut reader = SrlReader::new(&[0b1001_0000]);
    assert_eq!(reader.next_value(2), 1);
}

#[test]
fn srl_reader_threads_bit_position_across_values() {
    // A single reader must advance its bit position across successive values
    // (kp=8 init, truncated-unary). A per-value restart would decode the first
    // magnitude (+1) again instead of draining the trailing zeros.
    let mut reader = SrlReader::new(&[0b1001_0000, 0x00]);
    let values: Vec<i16> = core::iter::repeat_with(|| reader.next_value(2)).take(6).collect();
    assert_eq!(values, vec![1, 0, 0, 0, 0, 0]);
}

#[test]
fn bit_reader_basic() {
    let data = [0b10110000];
    let mut reader = BitReader::new(&data);
    assert!(reader.read_bit()); // 1
    assert!(!reader.read_bit()); // 0
    assert!(reader.read_bit()); // 1
    assert!(reader.read_bit()); // 1
}

#[test]
fn bit_writer_basic() {
    let mut writer = BitWriter::new();
    writer.write_bit(true);
    writer.write_bit(false);
    writer.write_bit(true);
    writer.write_bit(true);
    writer.write_bit(false);
    writer.write_bit(false);
    writer.write_bit(false);
    writer.write_bit(false);
    let result = writer.finish();
    assert_eq!(result, vec![0b10110000]);
}

#[test]
fn bit_writer_multi_byte() {
    let mut writer = BitWriter::new();
    writer.write_bits(0xFF, 8);
    writer.write_bits(0x00, 8);
    let result = writer.finish();
    assert_eq!(result, vec![0xFF, 0x00]);
}

#[test]
fn bit_reader_reads_numbers_and_zeros_past_the_end() {
    let mut reader = BitReader::new(&[0b1010_1100, 0b1000_0000]);
    assert_eq!(reader.read_bits(3), 0b101);
    assert_eq!(reader.read_bits(6), 0b011001);
    assert_eq!(reader.read_bits(7), 0);
    assert_eq!(reader.read_bits(8), 0);
    assert!(!reader.read_bit());
}

#[test]
fn bit_writer_pads_the_last_byte() {
    let mut writer = BitWriter::new();
    writer.write_bits(0b101, 3);
    assert_eq!(writer.finish(), vec![0b1010_0000]);
}

#[test]
fn long_zero_runs_round_trip() {
    let mut original = vec![0i16; 200];
    original.push(5);
    original.extend(vec![0i16; 31]);
    original.push(-7);
    let encoded = encode_srl(&original, 4);
    assert_eq!(decode_srl(&encoded, original.len(), 4), original);
    // A run costs far less than a bit for each zero.
    assert!(encoded.len() < 16);
}

#[test]
fn every_width_round_trips_small_values() {
    let mut width = 2u8;
    while width <= 16 {
        let original = vec![1, 0, -1, 0, 0, 2, -2, 0, 3];
        let encoded = encode_srl(&original, width);
        assert_eq!(decode_srl(&encoded, original.len(), width), original);
        width += 1;
    }
}

#[test]
fn width_one_keeps_only_the_sign() {
    let encoded = encode_srl(&[2, -9], 1);
    assert_eq!(decode_srl(&encoded, 2, 1), vec![1, -1]);
}

#[test]
fn reader_bands_of_different_widths_share_the_stream() {
    let data = [0b1001_0000, 0b1100_0000, 0x00];
    let mut one = SrlReader::new(&data);
    let first: Vec<i16> = vec![one.next_value(2), one.next_value(2)];
    let second: Vec<i16> = vec![one.next_value(3), one.next_value(3)];
    let mut other = SrlReader::new(&data);
    let widths = [2u8, 2, 3, 3];
    let all: Vec<i16> = widths.iter().map(|w| other.next_value(*w)).collect();
    assert_eq!([first, second].concat(), all);
}

#[test]
fn the_width_of_a_band_leaves_the_runs_alone() {
    let data = [0b0110_1001, 0b0010_1101, 0b1000_0101, 0x77];
    for bits in 0..24usize {
        let mut narrow = SrlReader::new(&data);
        let mut wide = SrlReader::new(&data);
        for _ in 0..bits / 4 {
            assert_eq!(narrow.next_value(3), wide.next_value(3));
        }
        let (a, b) = (narrow.next_value(1), wide.next_value(9));
        assert_eq!(a == 0, b == 0);
        assert_eq!(a.signum(), b.signum());
    }
}
