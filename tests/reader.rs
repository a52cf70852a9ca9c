use hqm_replay::HQMMessageReader;

struct BitWriter {
    bytes: Vec<u8>,
    bit: usize,
}

impl BitWriter {
    fn new() -> Self {
        BitWriter { bytes: Vec::new(), bit: 0 }
    }

    fn put(&mut self, v: u64, n: u32) {
        for i in 0..n {
            if self.bit % 8 == 0 {
                self.bytes.push(0);
            }
            if (v >> i) & 1 == 1 {
                let idx = self.bit / 8;
                self.bytes[idx] |= 1 << (self.bit % 8);
            }
            self.bit += 1;
        }
    }
}

#[test]
fn split_reads_rebuild_word() {
    let data = [0x78u8, 0x56, 0x34, 0x12];
    for n in 1..32u8 {
        let mut r = HQMMessageReader::new(&data);
        let low = r.read_bits(n) as u64;
        let high = r.read_bits(32 - n) as u64;
        assert_eq!(low | (high << n), 0x1234_5678, "split at {}", n);
    }
    let mut r = HQMMessageReader::new(&data);
    assert_eq!(r.read_bits(32), 0x1234_5678);
    assert_eq!(r.pos(), 4);
}

#[test]
fn bits_are_little_endian_across_bytes() {
    let data = [0b1010_1100u8, 0b0000_0011];
    let mut r = HQMMessageReader::new(&data);
    assert_eq!(r.read_bits(3), 0b100);
    assert_eq!(r.read_bits(7), 0b11_10101);
    assert_eq!(r.pos(), 1);
}

#[test]
fn zero_width_read_does_not_advance() {
    let data = [0xffu8, 0xff];
    let mut r = HQMMessageReader::new(&data);
    r.read_bits(3);
    assert_eq!(r.read_bits(0), 0);
    assert_eq!(r.read_bits(5), 0x1f);
    assert_eq!(r.pos(), 1);
}

#[test]
fn align_is_idempotent() {
    let data = [0x01u8, 0x02, 0x03];
    let mut r = HQMMessageReader::new(&data);
    r.align();
    assert_eq!(r.pos(), 0);
    r.read_bits(1);
    r.align();
    assert_eq!(r.pos(), 1);
    r.align();
    assert_eq!(r.pos(), 1);
    assert_eq!(r.read_byte_aligned(), 0x02);
}

#[test]
fn next_skips_a_byte_even_when_aligned() {
    let data = [0x01u8, 0x02, 0x03, 0x04];
    let mut r = HQMMessageReader::new(&data);
    r.next();
    assert_eq!(r.pos(), 1);
    r.read_bits(2);
    r.next();
    assert_eq!(r.pos(), 2);
    assert_eq!(r.read_byte_aligned(), 0x03);
}

#[test]
fn aligned_reads_skip_partial_byte() {
    let data = [0xffu8, 0x78, 0x56, 0x34, 0x12, 0x9a];
    let mut r = HQMMessageReader::new(&data);
    r.read_bits(1);
    assert_eq!(r.read_u32_aligned(), 0x1234_5678);
    assert_eq!(r.read_byte_aligned(), 0x9a);
    assert_eq!(r.pos(), 6);
}

#[test]
fn reads_past_the_end_give_zero() {
    let data = [0xabu8];
    let mut r = HQMMessageReader::new(&data);
    assert_eq!(r.read_byte_aligned(), 0xab);
    assert_eq!(r.read_byte_aligned(), 0);
    assert_eq!(r.read_u32_aligned(), 0);
    assert_eq!(r.read_bits(17), 0);
    let mut partial = HQMMessageReader::new(&data);
    assert_eq!(partial.read_bits(16), 0xab);
}

#[test]
fn signed_round_trip_all_widths() {
    for n in 2..=16u32 {
        let lo = -(1i64 << (n - 1));
        let hi = 1i64 << (n - 1);
        for v in lo..hi {
            let enc = (v as u64) & ((1u64 << n) - 1);
            let mut w = BitWriter::new();
            w.put(1, 3);
            w.put(enc, n);
            let mut r = HQMMessageReader::new(&w.bytes);
            r.read_bits(3);
            assert_eq!(r.read_bits_signed(n as u8) as i64, v, "width {} value {}", n, v);
        }
    }
}

#[test]
fn signed_read_of_wide_fields() {
    let data = [0xffu8, 0xff, 0xff, 0x7f];
    let mut r = HQMMessageReader::new(&data);
    assert_eq!(r.read_bits_signed(31), -1);
    let data = [0x00u8, 0x00, 0x00, 0x40];
    let mut r = HQMMessageReader::new(&data);
    assert_eq!(r.read_bits_signed(31), -(1 << 30));
}

#[test]
fn absolute_field_ignores_reference() {
    let mut w = BitWriter::new();
    w.put(3, 2);
    w.put(12345, 17);
    for reference in [None, Some(0u32), Some(99_999), Some(u32::MAX)] {
        let mut r = HQMMessageReader::new(&w.bytes);
        assert_eq!(r.read_pos(17, reference), Some(12345));
    }
}

#[test]
fn delta_fields_add_to_reference() {
    let cases: [(u64, u32, i64); 6] =
        [(0, 3, -3), (0, 3, 3), (1, 6, -32), (1, 6, 31), (2, 12, -2048), (2, 12, 2047)];
    for (mode, width, d) in cases {
        let mut w = BitWriter::new();
        w.put(mode, 2);
        w.put((d as u64) & ((1u64 << width) - 1), width);
        let mut r = HQMMessageReader::new(&w.bytes);
        assert_eq!(r.read_pos(31, Some(5000)), Some((5000 + d) as u32));
        assert_eq!(r.pos() as u32, (2 + width) / 8);
    }
}

#[test]
fn delta_is_clamped_at_zero() {
    let mut w = BitWriter::new();
    w.put(0, 2);
    w.put((-3i64 as u64) & 7, 3);
    let mut r = HQMMessageReader::new(&w.bytes);
    assert_eq!(r.read_pos(17, Some(1)), Some(0));
}

#[test]
fn delta_without_reference_is_refused() {
    let mut w = BitWriter::new();
    w.put(1, 2);
    w.put(4, 6);
    let mut r = HQMMessageReader::new(&w.bytes);
    assert_eq!(r.read_pos(17, None), None);
}

#[test]
fn zero_width_signed_read_is_zero() {
    let data = [0xffu8];
    let mut r = HQMMessageReader::new(&data);
    r.read_bits(3);
    assert_eq!(r.read_bits_signed(0), 0);
    assert_eq!(r.read_bits(5), 0x1f);
    assert_eq!(r.pos(), 1);
}
