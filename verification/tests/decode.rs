use nbt_edit::bytes::{ByteError, NbtBytesIter};
use nbt_edit::encode::encode_tag;
use nbt_edit::tag::{Tag, TagID, TagPayload};

#[test]
fn parse_compound_tag() {
    // Should be an empty TAG_Compound named "Foo"
    let bytes = vec![0x0a, 0x00, 0x03, 0x46, 0x6f, 0x6f, 0x00];
    let tag = Tag::new(&bytes).unwrap();
    assert_eq!(tag.name, "Foo");
    let subtags = tag.payload.as_compound().unwrap();
    assert_eq!(subtags.len(), 1);
}

#[test]
fn parse_list_tag() {
    // Should be a TAG_List named "Bar", with type String, and contents ["Spam", "and", "Eggs"]
    let bytes = vec![
        0x09, 0x00, 0x03, 0x42, 0x61, 0x72, 0x08, 0x00, 0x00, 0x00, 0x03, 0x00, 0x04, 0x53, 0x70,
        0x61, 0x6d, 0x00, 0x03, 0x61, 0x6e, 0x64, 0x00, 0x04, 0x45, 0x67, 0x67, 0x73,
    ];
    let tag = Tag::new(&bytes).unwrap();
    assert_eq!(tag.name, "Bar");
    let (tag_id, payloads) = tag.payload.as_list().unwrap();
    assert_eq!(tag_id, &TagID::String);
    assert_eq!(payloads.len(), 3);
    assert_eq!(payloads[0].as_string().unwrap().as_str(), "Spam");
    assert_eq!(payloads[1].as_string().unwrap().as_str(), "and");
    assert_eq!(payloads[2].as_string().unwrap().as_str(), "Eggs");
}

#[test]
fn invalid_tag_id_byte_fails() {
    // First byte outside 0-12 must fail with InvalidTagID carrying the byte.
    let bytes = vec![0x0d, 0x00, 0x00];
    assert_eq!(Tag::new(&bytes), Err(ByteError::InvalidTagID(0x0d)));
    let bytes = vec![0xff];
    assert_eq!(Tag::new(&bytes), Err(ByteError::InvalidTagID(0xff)));
}

#[test]
fn empty_buffer_fails() {
    assert_eq!(Tag::new(&[]), Err(ByteError::NextByteError(1)));
}

#[test]
fn truncated_fixed_width_field_fails() {
    // An Int tag named "x" whose 4-byte payload is cut short.
    let bytes = vec![0x03, 0x00, 0x01, 0x78, 0x00, 0x01];
    assert_eq!(Tag::new(&bytes), Err(ByteError::NextByteError(4)));
}

#[test]
fn truncated_string_fails() {
    // A String tag whose declared byte length runs past the buffer.
    let bytes = vec![0x08, 0x00, 0x01, 0x73, 0x00, 0x10, 0x61, 0x62];
    assert_eq!(Tag::new(&bytes), Err(ByteError::NextByteError(16)));
}

#[test]
fn truncated_array_count_fails() {
    // A ByteArray tag whose 4-byte count is cut short.
    let bytes = vec![0x07, 0x00, 0x01, 0x62, 0x00, 0x00];
    assert_eq!(Tag::new(&bytes), Err(ByteError::NextByteError(4)));
}

#[test]
fn truncated_array_elements_fail() {
    // A ByteArray declaring 4 elements but holding only 2.
    let bytes = vec![0x07, 0x00, 0x01, 0x62, 0x00, 0x00, 0x00, 0x04, 0x01, 0x02];
    assert_eq!(Tag::new(&bytes), Err(ByteError::NextByteError(1)));
}

#[test]
fn negative_array_count_fails() {
    // Count 0xFFFFFFFF is -1: a negative count is a framing error, not an
    // empty container.
    let bytes = vec![0x07, 0x00, 0x01, 0x62, 0xff, 0xff, 0xff, 0xff];
    assert_eq!(Tag::new(&bytes), Err(ByteError::NextByteError(1)));
}

#[test]
fn invalid_utf8_fails() {
    // A String tag whose two text bytes are not UTF-8.
    let bytes = vec![0x08, 0x00, 0x01, 0x73, 0x00, 0x02, 0xc3, 0x28];
    assert_eq!(Tag::new(&bytes), Err(ByteError::Utf8Error));
}

#[test]
fn next_str_empty_length_consumes_nothing_more() {
    // Declared length 0 yields the empty string; the cursor stands right
    // after the two length bytes, so the next read sees 0xAB.
    let buf = [0x00u8, 0x00, 0xab];
    let mut cur = NbtBytesIter::new(&buf);
    let s = cur.next_str().unwrap();
    assert_eq!(s, "");
    assert_eq!(cur.next_bytes(1).unwrap(), vec![0xab]);
}

#[test]
fn cursor_reads_big_endian() {
    let buf = [0x01u8, 0x02, 0xff, 0xfe, 0x80, 0x00, 0x00, 0x00];
    let mut cur = NbtBytesIter::new(&buf);
    assert_eq!(cur.next_u16().unwrap(), 0x0102);
    assert_eq!(cur.next_i16().unwrap(), -2);
    assert_eq!(cur.next_i32().unwrap(), i32::MIN);
    assert_eq!(cur.next_bytes(1), Err(ByteError::NextByteError(1)));
}

#[test]
fn cursor_reads_signed_and_unsigned() {
    let buf = [0x80u8, 0x7f, 0xff, 0xff, 0xff, 0xff, 0xff, 0xff, 0xff, 0xff, 0xff];
    let mut cur = NbtBytesIter::new(&buf);
    assert_eq!(cur.next_i8().unwrap(), -128);
    assert_eq!(cur.next_i8().unwrap(), 127);
    assert_eq!(cur.next_i64().unwrap(), -1);
    assert_eq!(cur.next_i64(), Err(ByteError::NextByteError(8)));
}

#[test]
fn decodes_every_primitive_kind() {
    // A compound holding one leaf of each numeric kind, then the sentinel.
    let mut bytes = vec![0x0a, 0x00, 0x01, 0x63];
    bytes.extend_from_slice(&[0x01, 0x00, 0x01, 0x62, 0x85]); // Byte "b" = -123
    bytes.extend_from_slice(&[0x02, 0x00, 0x01, 0x73, 0x12, 0x34]); // Short "s"
    bytes.extend_from_slice(&[0x04, 0x00, 0x01, 0x6c, 0, 0, 0, 0, 0, 0, 0x30, 0x39]); // Long "l"
    bytes.extend_from_slice(&[0x05, 0x00, 0x01, 0x66, 0x3f, 0x80, 0x00, 0x00]); // Float "f" = 1.0
    bytes.extend_from_slice(&[0x00]);
    let tag = Tag::new(&bytes).unwrap();
    let subtags = tag.payload.as_compound().unwrap();
    assert_eq!(subtags.len(), 5);
    assert_eq!(subtags[0].payload, TagPayload::Byte(-123));
    assert_eq!(subtags[1].payload, TagPayload::Short(0x1234));
    assert_eq!(subtags[2].payload, TagPayload::Long(12345));
    assert_eq!(subtags[3].payload, TagPayload::Float(0x3f80_0000));
    assert_eq!(f32::from_bits(0x3f80_0000), 1.0);
    assert_eq!(subtags[4].payload, TagPayload::End);
}

#[test]
fn round_trip_list_tag() {
    let bytes = vec![
        0x09, 0x00, 0x03, 0x42, 0x61, 0x72, 0x08, 0x00, 0x00, 0x00, 0x03, 0x00, 0x04, 0x53, 0x70,
        0x61, 0x6d, 0x00, 0x03, 0x61, 0x6e, 0x64, 0x00, 0x04, 0x45, 0x67, 0x67, 0x73,
    ];
    let tag = Tag::new(&bytes).unwrap();
    let encoded = encode_tag(&tag);
    assert_eq!(encoded, bytes);
    let again = Tag::new(&encoded).unwrap();
    assert_eq!(again, tag);
}

#[test]
fn round_trip_arrays_and_nesting() {
    // {"a": [B; 1, -2], "i": [I; -1], "L": [L; 7], "inner": {"s": "héllo"}}
    let mut bytes = vec![0x0a, 0x00, 0x01, 0x72];
    bytes.extend_from_slice(&[0x07, 0x00, 0x01, 0x61, 0, 0, 0, 2, 0x01, 0xfe]);
    bytes.extend_from_slice(&[0x0b, 0x00, 0x01, 0x69, 0, 0, 0, 1, 0xff, 0xff, 0xff, 0xff]);
    bytes.extend_from_slice(&[0x0c, 0x00, 0x01, 0x4c, 0, 0, 0, 1, 0, 0, 0, 0, 0, 0, 0, 7]);
    bytes.extend_from_slice(&[0x0a, 0x00, 0x05, 0x69, 0x6e, 0x6e, 0x65, 0x72]);
    bytes.extend_from_slice(&[0x08, 0x00, 0x01, 0x73, 0x00, 0x06]);
    bytes.extend_from_slice("héllo".as_bytes());
    bytes.extend_from_slice(&[0x00, 0x00]);
    let tag = Tag::new(&bytes).unwrap();
    let encoded = encode_tag(&tag);
    assert_eq!(encoded, bytes);
    assert_eq!(Tag::new(&encoded).unwrap(), tag);
}

#[test]
fn decode_consumes_only_one_tag() {
    // Trailing garbage after a complete tag is ignored.
    let bytes = vec![0x01, 0x00, 0x01, 0x62, 0x2a, 0xde, 0xad];
    let tag = Tag::new(&bytes).unwrap();
    assert_eq!(tag.payload, TagPayload::Byte(42));
}

#[test]
fn degenerate_end_root() {
    let bytes = vec![0x00];
    let tag = Tag::new(&bytes).unwrap();
    assert_eq!(tag.tag_id, TagID::End);
    assert_eq!(tag.name, "");
    assert_eq!(tag.payload, TagPayload::End);
}

#[test]
fn encoder_recomputes_kind_from_payload() {
    // A stale stored kind is ignored on encode; the payload's shape rules.
    let tag = Tag { tag_id: TagID::String, name: "n".to_string(), payload: TagPayload::Byte(7) };
    let encoded = encode_tag(&tag);
    assert_eq!(encoded, vec![0x01, 0x00, 0x01, 0x6e, 0x07]);
}
