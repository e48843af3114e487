use hqm_core::codec::{HQMDecodeError, HQMMessageReader, HQMMessageWriter};
use hqm_core::codec::{HQMObjectPacket, HQMPuckPacket, HQMSkaterPacket};

#[test]
fn bit_fields_and_aligned_word_round_trip() {
    let mut w = HQMMessageWriter::new();
    w.write_bits(3, 5);
    w.write_bits(5, 17);
    w.write_u32_aligned(0xDEADBEEF);
    let bytes = w.get_slice();
    assert_eq!(w.get_bytes_written(), 5);

    let mut r = HQMMessageReader::new(bytes);
    assert_eq!(r.read_bits(3), Ok(5));
    assert_eq!(r.read_bits(5), Ok(17));
    assert_eq!(r.bit_position(), 8);
    assert_eq!(r.read_u32_aligned(), Ok(0xDEADBEEF));
    assert_eq!(r.bit_position(), 40);
}

#[test]
fn bits_cross_byte_boundaries() {
    let mut w = HQMMessageWriter::new();
    w.write_bits(7, 0b1010101);
    w.write_bits(9, 0b110011001);
    w.write_bits(32, 0xFFFF_FFFF);
    w.write_bits(1, 0);
    w.write_bits(1, 1);
    let mut r = HQMMessageReader::new(w.get_slice());
    assert_eq!(r.read_bits(7), Ok(0b1010101));
    assert_eq!(r.read_bits(9), Ok(0b110011001));
    assert_eq!(r.read_bits(32), Ok(0xFFFF_FFFF));
    assert_eq!(r.read_bits(1), Ok(0));
    assert_eq!(r.read_bits(1), Ok(1));
}

#[test]
fn write_bits_masks_to_width() {
    let mut w = HQMMessageWriter::new();
    // Only the low 4 bits of the value may reach the stream.
    w.write_bits(4, 0xFF);
    w.write_bits(4, 0x2);
    let mut r = HQMMessageReader::new(w.get_slice());
    assert_eq!(r.read_bits(4), Ok(0xF));
    assert_eq!(r.read_bits(4), Ok(0x2));
}

#[test]
fn aligned_ops_skip_partial_bits() {
    let mut w = HQMMessageWriter::new();
    w.write_bits(3, 6);
    w.write_byte_aligned(0xAB);
    w.write_bits(2, 1);
    w.write_u32_aligned(123456789);
    let mut r = HQMMessageReader::new(w.get_slice());
    assert_eq!(r.read_bits(3), Ok(6));
    assert_eq!(r.read_byte_aligned(), Ok(0xAB));
    assert_eq!(r.read_bits(2), Ok(1));
    assert_eq!(r.read_u32_aligned(), Ok(123456789));
}

#[test]
fn byte_arrays_and_u16() {
    let mut w = HQMMessageWriter::new();
    w.write_bytes_aligned(&[1, 2, 3]);
    w.write_bytes_aligned_padded(5, &[9, 8]);
    w.write_bytes_aligned_padded(2, &[7, 6, 5, 4]);
    let mut r = HQMMessageReader::new(w.get_slice());
    assert_eq!(r.read_bytes_aligned(3), Ok(vec![1, 2, 3]));
    assert_eq!(r.read_bytes_aligned(5), Ok(vec![9, 8, 0, 0, 0]));
    assert_eq!(r.read_u16_aligned(), Ok(7 | (6 << 8)));

    let le = [0x34u8, 0x12];
    let mut r2 = HQMMessageReader::new(&le);
    assert_eq!(r2.read_u16_aligned(), Ok(0x1234));
}

#[test]
fn reads_past_end_fail_and_leave_reader_usable() {
    let buf = [0xFFu8];
    let mut r = HQMMessageReader::new(&buf);
    assert_eq!(r.read_bits(6), Ok(0b111111));
    assert_eq!(r.read_bits(6), Err(HQMDecodeError::PastEnd));
    // The failed read consumed nothing.
    assert_eq!(r.read_bits(2), Ok(0b11));
    assert_eq!(r.read_u32_aligned(), Err(HQMDecodeError::PastEnd));
    assert_eq!(r.read_byte_aligned(), Err(HQMDecodeError::PastEnd));
    assert_eq!(r.read_bytes_aligned(1), Err(HQMDecodeError::PastEnd));
}

#[test]
fn signed_reads_sign_extend() {
    let mut w = HQMMessageWriter::new();
    w.write_bits(3, 5); // 101 as 3-bit two's complement is -3
    w.write_bits(3, 2);
    w.write_bits(12, 0xFFF); // -1
    let mut r = HQMMessageReader::new(w.get_slice());
    assert_eq!(r.read_bits_signed(3), Ok(-3));
    assert_eq!(r.read_bits_signed(3), Ok(2));
    assert_eq!(r.read_bits_signed(12), Ok(-1));
}

#[test]
fn position_absolute_then_small_delta() {
    let mut w = HQMMessageWriter::new();
    w.write_pos(17, 100000);
    w.write_pos_delta(17, 100005, 100000);
    let mut r = HQMMessageReader::new(w.get_slice());
    assert_eq!(r.read_pos(17, None), Ok(100000));
    assert_eq!(r.read_pos(17, Some(100000)), Ok(100005));
}

#[test]
fn position_delta_widths() {
    // One write per header width: 3-bit, 6-bit, 12-bit, absolute.
    let mut w = HQMMessageWriter::new();
    w.write_pos_delta(17, 100003, 100000); // +3 fits 3 bits
    w.write_pos_delta(17, 99996, 100000); // -4 fits 3 bits
    w.write_pos_delta(17, 100031, 100000); // +31 fits 6 bits
    w.write_pos_delta(17, 98000, 100000); // -2000 fits 12 bits
    w.write_pos_delta(17, 50000, 100000); // -50000 is written absolute
    let mut r = HQMMessageReader::new(w.get_slice());
    assert_eq!(r.read_pos(17, Some(100000)), Ok(100003));
    assert_eq!(r.read_pos(17, Some(100000)), Ok(99996));
    assert_eq!(r.read_pos(17, Some(100000)), Ok(100031));
    assert_eq!(r.read_pos(17, Some(100000)), Ok(98000));
    assert_eq!(r.read_pos(17, Some(100000)), Ok(50000));
}

#[test]
fn position_delta_needs_a_reference() {
    let mut w = HQMMessageWriter::new();
    w.write_pos_delta(17, 100003, 100000);
    let mut r = HQMMessageReader::new(w.get_slice());
    assert_eq!(r.read_pos(17, None), Err(HQMDecodeError::MissingReference));
}

#[test]
fn position_delta_sum_must_fit_the_field() {
    // A delta that drags the value below zero is a decode error.
    let mut w = HQMMessageWriter::new();
    w.write_pos_delta(17, 0, 3); // encodes -3
    let mut r = HQMMessageReader::new(w.get_slice());
    assert_eq!(r.read_pos(17, Some(1)), Err(HQMDecodeError::OutOfRange));

    // A delta that pushes the value past 2^17 - 1 is a decode error too.
    let mut w2 = HQMMessageWriter::new();
    w2.write_pos_delta(17, 131070, 131068); // +2, on top of old = 131071 overflows
    let mut r2 = HQMMessageReader::new(w2.get_slice());
    assert_eq!(r2.read_pos(17, Some(131071)), Err(HQMDecodeError::OutOfRange));
}

#[test]
fn full_width_values_survive() {
    let mut w = HQMMessageWriter::new();
    w.write_bits(1, 1);
    w.write_bits(32, 0xFFFF_FFFF);
    w.write_bits(31, 0x7FFF_FFFF);
    let mut r = HQMMessageReader::new(w.get_slice());
    assert_eq!(r.read_bits(1), Ok(1));
    assert_eq!(r.read_bits(32), Ok(0xFFFF_FFFF));
    assert_eq!(r.read_bits(31), Ok(0x7FFF_FFFF));
}

#[test]
fn empty_writer_yields_empty_slice() {
    let w = HQMMessageWriter::new();
    assert_eq!(w.get_bytes_written(), 0);
    assert!(w.get_slice().is_empty());
}

#[test]
fn object_packets_carry_quantized_fields() {
    let skater = HQMSkaterPacket {
        pos: (100000, 5000, 30000),
        rot: (7, 9),
        stick_pos: (4096, 4096, 4096),
        stick_rot: (1, 2),
        head_rot: 16384,
        body_rot: 16384,
    };
    let puck = HQMPuckPacket { pos: (1, 2, 3), rot: (4, 5) };
    let table = [
        HQMObjectPacket::Skater(skater),
        HQMObjectPacket::Puck(puck),
        HQMObjectPacket::Empty,
    ];
    assert_eq!(table[0], HQMObjectPacket::Skater(skater));
    assert_eq!(table[1], HQMObjectPacket::Puck(puck));
    assert!(matches!(table[2], HQMObjectPacket::Empty));
}

#[test]
fn object_table_entries_on_the_wire() {
    let mut w = HQMMessageWriter::new();
    w.write_object_packet(&HQMObjectPacket::Empty);
    w.write_object_packet(&HQMObjectPacket::Puck(HQMPuckPacket {
        pos: (100000, 512, 30000),
        rot: (0x7FFF_FFFF, 1),
    }));
    let mut r = HQMMessageReader::new(w.get_slice());
    assert_eq!(r.read_bits(1), Ok(0)); // absent
    assert_eq!(r.read_bits(1), Ok(1)); // present
    assert_eq!(r.read_bits(1), Ok(1)); // a puck
    assert_eq!(r.read_pos(17, None), Ok(100000));
    assert_eq!(r.read_pos(17, None), Ok(512));
    assert_eq!(r.read_pos(17, None), Ok(30000));
    assert_eq!(r.read_bits(31), Ok(0x7FFF_FFFF));
    assert_eq!(r.read_bits(31), Ok(1));
}
