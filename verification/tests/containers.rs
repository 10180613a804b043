use zarc::writer::{BufferWriter, Positional, Writer, WriterExt};
use zarc::sequence::{serialize_sequence, ArchivedVec};
use zarc::text::{serialize_text, ArchivedString, INLINE_CAPACITY};
use zarc::bitvec::serialize_bit_sequence;
use zarc::util::{
    round_trip_sequence, round_trip_text, round_trip_hash_map, round_trip_bit_sequence,
    serialize_and_check, Value,
};
use zarc::validation::{access_sequence, access_bit_sequence, access_hash_map};

#[test]
fn sequence_concrete_layout() {
    // Three 4-byte elements: 12 payload bytes, then a record encoding
    // {offset = -12, count = 3}.
    let mut w = BufferWriter::new();
    let pos = serialize_sequence(&vec![1u32, 2, 3], &mut w).unwrap();
    let buf = w.into_buffer();
    assert_eq!(pos, 12);
    assert_eq!(buf.len(), 20);
    let expected: Vec<u8> = vec![
        1, 0, 0, 0, // element 0
        2, 0, 0, 0, // element 1
        3, 0, 0, 0, // element 2
        0xf4, 0xff, 0xff, 0xff, // offset word: -12
        3, 0, 0, 0, // count
    ];
    assert_eq!(buf, expected);
    let view = ArchivedVec::new(pos);
    assert_eq!(view.len(&buf), 3);
    assert_eq!(view.index(&buf, 1), 2);
}

#[test]
fn sequence_round_trip() {
    assert_eq!(round_trip_sequence(&vec![]).unwrap(), Vec::<u32>::new());
    assert_eq!(round_trip_sequence(&vec![7]).unwrap(), vec![7]);
    let v: Vec<u32> = (0..1000).map(|i| i * 17 + 3).collect();
    assert_eq!(round_trip_sequence(&v).unwrap(), v);
}

#[test]
fn sequence_view_equivalence() {
    let v = vec![5u32, 0, 0xffff_ffff];
    let mut w = BufferWriter::new();
    let pos = serialize_sequence(&v, &mut w).unwrap();
    let buf = w.into_buffer();
    let view = access_sequence(&buf, pos).unwrap();
    assert!(view.eq_elems(&buf, &v));
    assert!(!view.eq_elems(&buf, &vec![5u32, 0, 0xffff_fffe]));
    assert!(!view.eq_elems(&buf, &vec![5u32, 0]));
    assert_eq!(view.deserialize(&buf), v);
}

#[test]
fn text_boundary_inline_and_out_of_line() {
    // Exactly INLINE_CAPACITY bytes: inline form, the record is the whole
    // buffer and its tag byte holds the length.
    let short = "a".repeat(INLINE_CAPACITY);
    let mut w = BufferWriter::new();
    let pos = serialize_text(&short, &mut w).unwrap();
    let buf = w.into_buffer();
    assert_eq!(pos, 0);
    assert_eq!(buf.len(), 16);
    assert_eq!(buf[15] as usize, INLINE_CAPACITY);
    assert_eq!(ArchivedString::new(pos).as_str(&buf), short);

    // One byte more: out-of-line form, payload first, tagged 0xff.
    let long = "a".repeat(INLINE_CAPACITY + 1);
    let mut w2 = BufferWriter::new();
    let pos2 = serialize_text(&long, &mut w2).unwrap();
    let buf2 = w2.into_buffer();
    assert_eq!(pos2, 16);
    assert_eq!(buf2.len(), 32);
    assert_eq!(buf2[pos2 + 15], 0xff);
    assert_eq!(ArchivedString::new(pos2).as_str(&buf2), long);
}

#[test]
fn text_round_trip() {
    assert_eq!(round_trip_text("").unwrap(), "");
    assert_eq!(round_trip_text("hello").unwrap(), "hello");
    // Non-ASCII characters exercise the real UTF-8 encode and decode: the
    // byte form differs from the character sequence.
    assert_eq!(round_trip_text("über Größe 漢字").unwrap(), "über Größe 漢字");
    let long = "zehn grüne Bäume am Ufer".repeat(20);
    assert_eq!(round_trip_text(&long).unwrap(), long);
}

#[test]
fn map_round_trip_and_lookup() {
    let entries = vec![(1u32, 10u32), (2, 20), (99, 990), (0xffff_ffff, 4)];
    let m = round_trip_hash_map(&entries).unwrap();
    assert_eq!(m.len(), 4);
    for (k, v) in &entries {
        assert_eq!(m.get(k), Some(v));
    }
    let (buf, pos) = serialize_and_check(&Value::Pairs(entries.clone())).unwrap();
    let view = access_hash_map(&buf, pos).unwrap();
    assert_eq!(view.len(&buf), 4);
    for (k, v) in &entries {
        assert_eq!(view.get(&buf, *k), Some(*v));
    }
    // A never-inserted key reports absent, never a wrong value.
    assert_eq!(view.get(&buf, 3), None);
    assert_eq!(view.get(&buf, 98), None);
}

#[test]
fn map_empty() {
    let m = round_trip_hash_map(&vec![]).unwrap();
    assert!(m.is_empty());
}

#[test]
fn bit_sequence_round_trip() {
    let bits: Vec<bool> = (0..77).map(|i| i % 3 == 0).collect();
    assert_eq!(round_trip_bit_sequence(&bits).unwrap(), bits);
    assert_eq!(round_trip_bit_sequence(&vec![]).unwrap(), Vec::<bool>::new());
    assert_eq!(round_trip_bit_sequence(&vec![true]).unwrap(), vec![true]);
}

#[test]
fn bit_truncation() {
    // Five meaningful bits in a 32-bit word; bits 5..32 of the stored word
    // must not affect what is read back.
    let bits = vec![true, false, true, true, false];
    let mut w = BufferWriter::new();
    let pos = serialize_bit_sequence(&bits, &mut w).unwrap();
    let mut buf = w.into_buffer();
    // The single storage word lives at the start of the buffer: fill its
    // trailing bits with garbage.
    buf[0] |= 0b1110_0000;
    buf[1] = 0xff;
    buf[2] = 0xff;
    buf[3] = 0xff;
    let view = access_bit_sequence(&buf, pos).unwrap();
    assert_eq!(view.len(&buf), 5);
    assert_eq!(view.deserialize(&buf), bits);
}

#[test]
fn serialize_and_check_all_shapes() {
    assert!(serialize_and_check(&Value::Ints(vec![1, 2, 3])).is_ok());
    assert!(serialize_and_check(&Value::Text(String::from("ok"))).is_ok());
    assert!(serialize_and_check(&Value::Pairs(vec![(4, 2)])).is_ok());
    assert!(serialize_and_check(&Value::Bits(vec![true, false])).is_ok());
}

#[test]
fn writer_positions_and_padding() {
    let mut w = BufferWriter::new();
    assert_eq!(w.pos(), 0);
    w.write(&[0xaa]).unwrap();
    assert_eq!(w.pos(), 1);
    let aligned = w.align(4).unwrap();
    assert_eq!(aligned, 4);
    w.pad(2).unwrap();
    assert_eq!(w.pos(), 6);
    assert_eq!(w.into_buffer(), vec![0xaa, 0, 0, 0, 0, 0]);
}

#[test]
fn relative_pointer_record() {
    let mut w = BufferWriter::new();
    w.write(&[1, 2, 3, 4]).unwrap();
    // A relative-pointer record to the four bytes at position 0: offset -4,
    // metadata 4.
    let at = w.resolve_unsized_aligned(0, 4).unwrap();
    assert_eq!(at, 4);
    let buf = w.into_buffer();
    assert_eq!(&buf[4..12], &[0xfc, 0xff, 0xff, 0xff, 4, 0, 0, 0]);
}

#[test]
fn map_view_equivalence() {
    let entries = vec![(3u32, 30u32), (14, 140), (15, 150)];
    let (buf, pos) = serialize_and_check(&Value::Pairs(entries.clone())).unwrap();
    let view = access_hash_map(&buf, pos).unwrap();
    assert!(view.eq_entries(&buf, &entries));
    // Same keys in another order denote the same mapping.
    let shuffled = vec![(15u32, 150u32), (3, 30), (14, 140)];
    assert!(view.eq_entries(&buf, &shuffled));
    assert!(!view.eq_entries(&buf, &vec![(3u32, 30u32), (14, 140)]));
    assert!(!view.eq_entries(&buf, &vec![(3u32, 31u32), (14, 140), (15, 150)]));
}

#[test]
fn align_for_pads_to_record_alignment() {
    let mut w = BufferWriter::new();
    w.write(&[1, 2, 3]).unwrap();
    let v: Vec<u32> = vec![];
    let aligned = w.align_for(&v).unwrap();
    assert_eq!(aligned, 4);
}
