use zarc::writer::{BufferWriter, Positional, Writer, WriteError};
use zarc::sequence::serialize_sequence;
use zarc::text::serialize_text;
use zarc::hashmap::serialize_hash_map;
use zarc::bitvec::serialize_bit_sequence;
use zarc::util::{round_trip_hash_map, serialize_and_check, Value};
use zarc::validation::{
    access_sequence, access_text, access_hash_map, access_bit_sequence, ValidationError,
};

#[test]
fn corruption_out_of_bounds() {
    // A valid buffer whose relative pointer is overwritten to reach past the
    // end must be rejected with OutOfBounds and yield no view.
    let mut w = BufferWriter::new();
    let pos = serialize_sequence(&vec![1u32, 2, 3], &mut w).unwrap();
    let mut buf = w.into_buffer();
    assert!(access_sequence(&buf, pos).is_ok());
    buf[pos] = 0xf4;
    buf[pos + 1] = 0xff;
    buf[pos + 2] = 0xff;
    buf[pos + 3] = 0x7f;
    assert_eq!(access_sequence(&buf, pos), Err(ValidationError::OutOfBounds));
}

#[test]
fn aliasing_overlap() {
    // Two sibling pointers targeting overlapping ranges must be rejected
    // with Overlap: point the map's table at its entries.
    let mut w = BufferWriter::new();
    let pos = serialize_hash_map(&vec![(1u32, 10u32), (2, 20)], &mut w).unwrap();
    let mut buf = w.into_buffer();
    assert!(access_hash_map(&buf, pos).is_ok());
    let entries_offset = [buf[pos], buf[pos + 1], buf[pos + 2], buf[pos + 3]];
    buf[pos + 4] = entries_offset[0];
    buf[pos + 5] = entries_offset[1];
    buf[pos + 6] = entries_offset[2];
    buf[pos + 7] = entries_offset[3];
    assert_eq!(access_hash_map(&buf, pos), Err(ValidationError::Overlap));
}

#[test]
fn misaligned_record() {
    let mut w = BufferWriter::new();
    let pos = serialize_sequence(&vec![9u32], &mut w).unwrap();
    let buf = w.into_buffer();
    assert_eq!(access_sequence(&buf, pos + 1), Err(ValidationError::Misaligned));
}

#[test]
fn text_bad_tag_and_bad_utf8() {
    let mut w = BufferWriter::new();
    let pos = serialize_text("ab", &mut w).unwrap();
    let mut buf = w.into_buffer();
    assert!(access_text(&buf, pos).is_ok());
    // Continuation bytes with no leading byte are not UTF-8.
    buf[pos] = 0xff;
    buf[pos + 1] = 0xff;
    assert_eq!(access_text(&buf, pos), Err(ValidationError::InvalidUtf8));
    // A tag that is neither an inline length nor the out-of-line marker.
    buf[pos + 15] = 0x80;
    assert_eq!(access_text(&buf, pos), Err(ValidationError::InvalidDiscriminant));
}

#[test]
fn bit_length_mismatch() {
    // A declared bit length beyond the storage's bit capacity is a hard
    // LengthMismatch failure.
    let mut w = BufferWriter::new();
    let pos = serialize_bit_sequence(&vec![true, false, true, true, false], &mut w).unwrap();
    let mut buf = w.into_buffer();
    assert!(access_bit_sequence(&buf, pos).is_ok());
    buf[pos + 8] = 33;
    assert_eq!(access_bit_sequence(&buf, pos), Err(ValidationError::LengthMismatch));
}

#[test]
fn map_table_index_out_of_range() {
    let mut w = BufferWriter::new();
    let pos = serialize_hash_map(&vec![(0u32, 5u32)], &mut w).unwrap();
    let mut buf = w.into_buffer();
    // Entries occupy 8 bytes, the one-slot table follows at 8.
    buf[8] = 7;
    assert_eq!(access_hash_map(&buf, pos), Err(ValidationError::InvalidDiscriminant));
}

#[test]
fn map_colliding_low_bits() {
    // These two keys share their low sixteen bits, so they land in the same
    // bucket; the displacement layout separates them by their high bits.
    let entries = vec![(0u32, 1u32), (0x0010_0000, 2)];
    let m = round_trip_hash_map(&entries).unwrap();
    assert_eq!(m.get(&0), Some(&1));
    assert_eq!(m.get(&0x0010_0000), Some(&2));
    let (buf, pos) = serialize_and_check(&Value::Pairs(entries)).unwrap();
    let view = access_hash_map(&buf, pos).unwrap();
    assert_eq!(view.get(&buf, 0), Some(1));
    assert_eq!(view.get(&buf, 0x0010_0000), Some(2));
    assert_eq!(view.get(&buf, 0x0020_0000), None);
}

#[test]
fn sink_rejects_oversized_write() {
    let mut w = BufferWriter::new();
    let big = vec![0u8; zarc::MAX_LEN + 1];
    assert_eq!(w.write(&big), Err(WriteError::SinkFull));
    // The failed write leaves the sink unchanged.
    assert_eq!(w.pos(), 0);
}

#[test]
fn truncated_buffer_rejected() {
    let mut w = BufferWriter::new();
    let pos = serialize_sequence(&vec![1u32, 2], &mut w).unwrap();
    let mut buf = w.into_buffer();
    buf.truncate(pos + 4);
    assert_eq!(access_sequence(&buf, pos), Err(ValidationError::OutOfBounds));
}
