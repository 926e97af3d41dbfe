use const_serialize::{
    deserialize_const, deserialize_const_ptr, serialize_const, serialize_const_ptr,
    ConstReadBuffer, ConstWriteBuffer, Encoding, ListEncoding, PlainOldData, PrimitiveEncoding,
    StructEncoding,
};

fn prim(size: usize) -> Encoding {
    Encoding::Primitive(PrimitiveEncoding::new(size, false))
}

#[test]
fn test_endianness_wire_bytes() {
    // Serializing the 4-byte unsigned value 1234 yields exactly the
    // little-endian wire bytes.
    let mut buf = ConstWriteBuffer::new();
    buf = serialize_const(&1234u32, buf);
    assert_eq!(buf.as_ref(), [0xD2u8, 0x04, 0x00, 0x00]);
}

#[test]
fn test_boolean_encoding() {
    // `true` is exactly one byte `[0x01]`; `false` is `[0x00]`.
    let mut buf = ConstWriteBuffer::new();
    buf = serialize_const(&true, buf);
    assert_eq!(buf.as_ref(), [0x01u8]);
    let mut buf = ConstWriteBuffer::new();
    buf = serialize_const(&false, buf);
    assert_eq!(buf.as_ref(), [0x00u8]);
}

#[test]
fn test_struct_padding_not_emitted() {
    // `{ a: u32, b: u8, c: u32, d: u32 }` occupies 16 bytes in memory but
    // serializes to exactly 4 + 1 + 4 + 4 = 13 wire bytes, and those 13
    // bytes decode back to a value equal in all four fields.
    let encoding = Encoding::Struct(StructEncoding::new(
        16,
        vec![
            PlainOldData::new(0, prim(4)),
            PlainOldData::new(4, prim(1)),
            PlainOldData::new(8, prim(4)),
            PlainOldData::new(12, prim(4)),
        ],
    ));
    let mut image = vec![0u8; 16];
    image[0..4].copy_from_slice(&0xAABBCCDDu32.to_le_bytes());
    image[4] = 0x7F;
    image[8..12].copy_from_slice(&17u32.to_le_bytes());
    image[12..16].copy_from_slice(&0xFFFFFFFFu32.to_le_bytes());
    // Poison the padding: it must never reach the wire.
    image[5] = 0xEE;
    image[6] = 0xEE;
    image[7] = 0xEE;
    let mut buf = ConstWriteBuffer::new();
    buf = serialize_const_ptr(&image, 0, buf, &encoding);
    assert_eq!(buf.as_ref().len(), 13);
    assert!(!buf.as_ref().contains(&0xEE));
    let read = buf.read();
    let (_, out) = deserialize_const_ptr(read, &encoding, 0, vec![0u8; 16]).unwrap();
    assert_eq!(
        u32::from_le_bytes([out[0], out[1], out[2], out[3]]),
        0xAABBCCDD
    );
    assert_eq!(out[4], 0x7F);
    assert_eq!(u32::from_le_bytes([out[8], out[9], out[10], out[11]]), 17);
    assert_eq!(
        u32::from_le_bytes([out[12], out[13], out[14], out[15]]),
        0xFFFFFFFF
    );
}

#[test]
fn test_empty_struct_round_trip() {
    // A struct with no declared fields writes nothing and reads nothing;
    // its image stays as allocated.
    let encoding = Encoding::Struct(StructEncoding::new(4, Vec::new()));
    let image = vec![9u8, 9, 9, 9];
    let mut buf = ConstWriteBuffer::new();
    buf = serialize_const_ptr(&image, 0, buf, &encoding);
    assert_eq!(buf.as_ref().len(), 0);
    let read = buf.read();
    let (_, out) = deserialize_const_ptr(read, &encoding, 0, vec![0u8; 4]).unwrap();
    assert_eq!(out, [0, 0, 0, 0]);
}

#[test]
fn test_encoding_size() {
    // The computed size of a descriptor: a list of three 16-byte structs.
    let encoding = Encoding::List(ListEncoding::new(
        3,
        Encoding::Struct(StructEncoding::new(
            16,
            vec![PlainOldData::new(0, prim(4))],
        )),
    ));
    assert_eq!(encoding.size(), 48);
    assert_eq!(prim(8).size(), 8);
}

#[test]
fn test_reader_stops_at_consumed_bytes() {
    // Two values written back to back decode back to back: the reader the
    // first decode returns picks up exactly where the first value's wire
    // bytes end.
    let mut buf = ConstWriteBuffer::new();
    buf = serialize_const(&0x01020304u32, buf);
    buf = serialize_const(&0x0506u16, buf);
    let read = buf.read();
    let enc32 = prim(4);
    let (read, first) = deserialize_const_ptr(read, &enc32, 0, vec![0u8; 4]).unwrap();
    assert_eq!(
        u32::from_le_bytes([first[0], first[1], first[2], first[3]]),
        0x01020304
    );
    let enc16 = prim(2);
    let (_, second) = deserialize_const_ptr(read, &enc16, 0, vec![0u8; 2]).unwrap();
    assert_eq!(u16::from_le_bytes([second[0], second[1]]), 0x0506);
}

#[test]
fn test_payload_offset_formula() {
    // The shared payload offset is the discriminant size divided
    // (truncating) by the maximum variant alignment, plus that alignment.
    assert_eq!(const_serialize::EnumEncoding::payload_offset(1, 4), 4);
    assert_eq!(const_serialize::EnumEncoding::payload_offset(4, 2), 4);
    assert_eq!(const_serialize::EnumEncoding::payload_offset(8, 1), 9);
    assert_eq!(const_serialize::EnumEncoding::payload_offset(2, 8), 8);
}

#[test]
fn test_check_valid() {
    // A field that does not fit inside its struct, a duplicated variant
    // tag, and a discriminant past the payload region are all rejected; a
    // well-formed descriptor passes.
    let good = Encoding::Struct(StructEncoding::new(
        8,
        vec![PlainOldData::new(0, prim(4)), PlainOldData::new(4, prim(4))],
    ));
    assert!(good.check_valid());
    let field_past_end = Encoding::Struct(StructEncoding::new(
        8,
        vec![PlainOldData::new(6, prim(4))],
    ));
    assert!(!field_past_end.check_valid());
    let duplicate_tags = Encoding::Enum(const_serialize::EnumEncoding::new(
        8,
        1,
        false,
        4,
        vec![
            const_serialize::EnumVariant::new(3, StructEncoding::new(4, Vec::new())),
            const_serialize::EnumVariant::new(3, StructEncoding::new(4, Vec::new())),
        ],
    ));
    assert!(!duplicate_tags.check_valid());
    let discriminant_past_offset = Encoding::Enum(const_serialize::EnumEncoding::new(
        8,
        4,
        false,
        2,
        Vec::new(),
    ));
    assert!(!discriminant_past_offset.check_valid());
}

#[test]
fn test_read_buffer_get() {
    let data = [10u8, 20, 30];
    let read = ConstReadBuffer::new(&data);
    assert_eq!(read.as_ref(), [10u8, 20, 30]);
    let (read, a) = read.get().unwrap();
    let (read, b) = read.get().unwrap();
    let (read, c) = read.get().unwrap();
    assert_eq!((a, b, c), (10, 20, 30));
    assert!(read.get().is_none());
}

#[test]
fn test_truncated_input_returns_none() {
    // Three bytes against an eight-byte descriptor: the whole decode
    // reports insufficient data; no partial value comes back.
    let mut buf = ConstWriteBuffer::new();
    buf = buf.push(0xAA);
    buf = buf.push(0xBB);
    buf = buf.push(0xCC);
    let read = buf.read();
    assert_eq!(deserialize_const::<u64>(read), None);
}
