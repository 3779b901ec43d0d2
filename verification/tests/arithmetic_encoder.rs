use webp_lossy::arithmetic_encoder::{tree_encode_path, ArithmeticEncoder};
use webp_lossy::common::{DCT_TOKEN_TREE, KEYFRAME_YMODE_PROBS, KEYFRAME_YMODE_TREE, TM_PRED};

/// Boolean entropy decoder over a byte string.
struct Decoder {
    bytes: Vec<u8>,
    next: usize,
    value: u32,
    range: u32,
    bit_count: u32,
}

impl Decoder {
    fn new(bytes: &[u8]) -> Decoder {
        let first = u32::from(bytes.first().copied().unwrap_or(0));
        let second = u32::from(bytes.get(1).copied().unwrap_or(0));
        Decoder {
            bytes: bytes.to_vec(),
            next: 2,
            value: (first << 8) | second,
            range: 255,
            bit_count: 0,
        }
    }

    fn read_bool(&mut self, prob: u8) -> bool {
        let split = 1 + (((self.range - 1) * u32::from(prob)) >> 8);
        let big_split = split << 8;
        let bit = self.value >= big_split;
        if bit {
            self.range -= split;
            self.value -= big_split;
        } else {
            self.range = split;
        }
        while self.range < 128 {
            self.value <<= 1;
            self.range <<= 1;
            self.bit_count += 1;
            if self.bit_count == 8 {
                self.bit_count = 0;
                self.value |= u32::from(self.bytes.get(self.next).copied().unwrap_or(0));
                self.next += 1;
            }
        }
        bit
    }
}

#[test]
fn test_arithmetic_encoder_short() {
    let mut encoder = ArithmeticEncoder::new();
    encoder.write_flag(false);
    encoder.write_bool(true, 10);
    encoder.write_bool(false, 250);
    encoder.write_literal(1, 1);
    encoder.write_literal(3, 5);
    encoder.write_literal(8, 64);
    encoder.write_literal(8, 185);
    let bytes = encoder.flush_and_get_buffer();
    assert_eq!(&[104, 101, 107, 128], &*bytes);
}

#[test]
fn test_arithmetic_encoder_hello() {
    let mut encoder = ArithmeticEncoder::new();
    encoder.write_flag(false);
    encoder.write_bool(true, 10);
    encoder.write_bool(false, 250);
    encoder.write_literal(1, 1);
    encoder.write_literal(3, 5);
    encoder.write_literal(8, 64);
    encoder.write_literal(8, 185);
    encoder.write_literal(8, 31);
    encoder.write_literal(8, 134);
    encoder.write_optional_signed_value(2, None);
    encoder.write_optional_signed_value(2, Some(1));
    let data = b"hello";
    let bytes = encoder.flush_and_get_buffer();
    assert_eq!(data, &bytes[..data.len()]);
}

#[test]
fn test_encoder_with_decoder() {
    let mut encoder = ArithmeticEncoder::new();
    encoder.write_bool(true, 40);
    encoder.write_bool(true, 110);
    encoder.write_bool(false, 70);
    encoder.write_bool(false, 10);
    encoder.write_bool(true, 5);
    let write_buffer = encoder.flush_and_get_buffer();

    let mut decoder = Decoder::new(&write_buffer);
    assert_eq!(decoder.read_bool(40), true);
    assert_eq!(decoder.read_bool(110), true);
    assert_eq!(decoder.read_bool(70), false);
    assert_eq!(decoder.read_bool(10), false);
    assert_eq!(decoder.read_bool(5), true);
    assert!(decoder.next <= write_buffer.len(), "read past the end");
}

#[test]
fn test_encoder_tree() {
    let mut encoder = ArithmeticEncoder::new();
    encoder.write_with_tree(&KEYFRAME_YMODE_TREE, &KEYFRAME_YMODE_PROBS, TM_PRED);
    let write_buffer = encoder.flush_and_get_buffer();
    assert_eq!(&[233, 64, 0, 0], &*write_buffer);
}

#[test]
fn test_carry_propagates_through_saturated_bytes() {
    let mut encoder = ArithmeticEncoder::new();
    encoder.writer = vec![0, 10, 255, 255, 255];
    encoder.add_one_to_output();
    assert_eq!(encoder.writer, vec![0, 11, 0, 0, 0]);
}

#[test]
fn long_bit_strings_are_read_back() {
    let mut state: u32 = 0x1357_9bdf;
    let mut bits: Vec<(bool, u8)> = Vec::new();
    for _ in 0..20_000 {
        state ^= state << 13;
        state ^= state >> 17;
        state ^= state << 5;
        let prob = (state >> 8) as u8;
        let bit = (state & 0xff) as u8 >= prob;
        bits.push((bit, prob));
    }
    let mut encoder = ArithmeticEncoder::new();
    for &(bit, prob) in &bits {
        encoder.write_bool(bit, prob);
    }
    let bytes = encoder.flush_and_get_buffer();
    let mut decoder = Decoder::new(&bytes);
    for &(bit, prob) in &bits {
        assert_eq!(decoder.read_bool(prob), bit);
    }
    assert!(decoder.next <= bytes.len(), "read past the end");
}

#[test]
fn improbable_bits_force_carries() {
    let mut encoder = ArithmeticEncoder::new();
    for i in 0..4000u32 {
        encoder.write_bool(i % 97 != 0, 1);
    }
    let bytes = encoder.flush_and_get_buffer();
    let mut decoder = Decoder::new(&bytes);
    for i in 0..4000u32 {
        assert_eq!(decoder.read_bool(1), i % 97 != 0);
    }
    assert!(decoder.next <= bytes.len(), "read past the end");
}

#[test]
fn token_paths_run_from_the_root_to_the_leaf() {
    assert_eq!(tree_encode_path(&DCT_TOKEN_TREE, 11, 0), vec![(false, 0)]);
    assert_eq!(tree_encode_path(&DCT_TOKEN_TREE, 0, 2), vec![(false, 1)]);
    assert_eq!(
        tree_encode_path(&DCT_TOKEN_TREE, 1, 0),
        vec![(true, 0), (true, 1), (false, 2)]
    );
    assert_eq!(
        tree_encode_path(&DCT_TOKEN_TREE, 10, 2),
        vec![(true, 1), (true, 2), (true, 3), (true, 6), (true, 8), (true, 10)]
    );
}

#[test]
fn a_fresh_encoder_flushes_to_four_zero_bytes() {
    let encoder = ArithmeticEncoder::new();
    assert_eq!(encoder.flush_and_get_buffer(), vec![0, 0, 0, 0]);
}

#[test]
fn the_state_stays_in_range() {
    let mut encoder = ArithmeticEncoder::new();
    let mut state: u32 = 0x2468_ace1;
    let mut length = 0;
    for _ in 0..20_000 {
        state ^= state << 13;
        state ^= state >> 17;
        state ^= state << 5;
        let prob = if state & 7 == 0 { 0 } else { (state >> 8) as u8 };
        encoder.write_bool(state & 0x10_0000 != 0, prob);
        assert!((128..=255).contains(&encoder.range));
        assert!((1..=24).contains(&encoder.bit_num));
        assert!(encoder.writer.len() >= length);
        length = encoder.writer.len();
    }
}
