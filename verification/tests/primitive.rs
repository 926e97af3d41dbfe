use const_serialize::{
    deserialize_const, deserialize_const_ptr, serialize_const, serialize_const_ptr,
    ConstWriteBuffer, Encoding, PrimitiveEncoding,
};

#[test]
fn primitive_test_serialize_const_layout_primitive() {
    let mut buf = ConstWriteBuffer::new();
    buf = serialize_const(&1234u32, buf);
    assert_eq!(buf.as_ref(), 1234u32.to_le_bytes());
    let read = buf.read();
    assert_eq!(deserialize_const::<u32>(read), Some(1234u32));

    let mut buf = ConstWriteBuffer::new();
    buf = serialize_const(&1234u64, buf);
    assert_eq!(buf.as_ref(), 1234u64.to_le_bytes());
    let read = buf.read();
    assert_eq!(deserialize_const::<u64>(read), Some(1234u64));

    let mut buf = ConstWriteBuffer::new();
    buf = serialize_const(&1234i32, buf);
    assert_eq!(buf.as_ref(), 1234i32.to_le_bytes());
    let read = buf.read();
    assert_eq!(deserialize_const::<i32>(read), Some(1234i32));

    let mut buf = ConstWriteBuffer::new();
    buf = serialize_const(&1234i64, buf);
    assert_eq!(buf.as_ref(), 1234i64.to_le_bytes());
    let read = buf.read();
    assert_eq!(deserialize_const::<i64>(read), Some(1234i64));

    let mut buf = ConstWriteBuffer::new();
    buf = serialize_const(&true, buf);
    assert_eq!(buf.as_ref(), [1u8]);
    let read = buf.read();
    assert_eq!(deserialize_const::<bool>(read), Some(true));

    // A four-byte scalar that only the caller interprets: the engine moves
    // its bytes without reading them, so a floating-point value passes
    // through as its storage bytes.
    let encoding = Encoding::Primitive(PrimitiveEncoding::new(4, false));
    let image = 0.631f32.to_le_bytes().to_vec();
    let mut buf = ConstWriteBuffer::new();
    buf = serialize_const_ptr(&image, 0, buf, &encoding);
    assert_eq!(buf.as_ref(), 0.631f32.to_le_bytes());
    let read = buf.read();
    let (_, out) = deserialize_const_ptr(read, &encoding, 0, vec![0u8; 4]).unwrap();
    assert_eq!(f32::from_le_bytes([out[0], out[1], out[2], out[3]]), 0.631);
}

#[test]
fn test_serialize_primitive_too_little_data() {
    let mut buf = ConstWriteBuffer::new();
    buf = buf.push(1);
    buf = buf.push(1);
    buf = buf.push(1);
    let read = buf.read();
    assert_eq!(deserialize_const::<u64>(read), None);
}

#[test]
fn test_serialize_all_primitive_widths() {
    let mut buf = ConstWriteBuffer::new();
    buf = serialize_const(&0xABu8, buf);
    assert_eq!(buf.as_ref(), [0xABu8]);
    assert_eq!(deserialize_const::<u8>(buf.read()), Some(0xABu8));

    let mut buf = ConstWriteBuffer::new();
    buf = serialize_const(&0xBEEFu16, buf);
    assert_eq!(buf.as_ref(), 0xBEEFu16.to_le_bytes());
    assert_eq!(deserialize_const::<u16>(buf.read()), Some(0xBEEFu16));

    let mut buf = ConstWriteBuffer::new();
    buf = serialize_const(&-7i8, buf);
    assert_eq!(buf.as_ref(), (-7i8).to_le_bytes());
    assert_eq!(deserialize_const::<i8>(buf.read()), Some(-7i8));

    let mut buf = ConstWriteBuffer::new();
    buf = serialize_const(&-1234i16, buf);
    assert_eq!(buf.as_ref(), (-1234i16).to_le_bytes());
    assert_eq!(deserialize_const::<i16>(buf.read()), Some(-1234i16));

    let mut buf = ConstWriteBuffer::new();
    buf = serialize_const(&false, buf);
    assert_eq!(buf.as_ref(), [0u8]);
    assert_eq!(deserialize_const::<bool>(buf.read()), Some(false));
}

#[test]
fn test_serialize_reversed_host_order() {
    // A host whose native byte order is not the wire's stores `1234` as
    // `[0x00, 0x00, 0x04, 0xD2]` and sets `reverse_bytes`; the wire bytes
    // still come out little-endian, identical to a host that stores them
    // forward.
    let encoding = Encoding::Primitive(PrimitiveEncoding::new(4, true));
    let image = vec![0x00u8, 0x00, 0x04, 0xD2];
    let mut buf = ConstWriteBuffer::new();
    buf = serialize_const_ptr(&image, 0, buf, &encoding);
    assert_eq!(buf.as_ref(), [0xD2u8, 0x04, 0x00, 0x00]);
    // Decoding under the same descriptor restores the reversed storage.
    let read = buf.read();
    let (_, out) = deserialize_const_ptr(read, &encoding, 0, vec![0u8; 4]).unwrap();
    assert_eq!(out, [0x00, 0x00, 0x04, 0xD2]);
}
