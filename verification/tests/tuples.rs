use const_serialize::{
    deserialize_const_ptr, serialize_const_ptr, ConstWriteBuffer, Encoding, PlainOldData,
    PrimitiveEncoding, StructEncoding,
};

fn prim(size: usize) -> Encoding {
    Encoding::Primitive(PrimitiveEncoding::new(size, false))
}

#[test]
fn test_serialize_const_layout_tuple() {
    // A tuple goes through the same struct-shaped path as a named struct
    // with one field per element, at the tuple's natural offsets.

    // (1234u32, 5678u16): u32 at 0, u16 at 4, size 8.
    let encoding = Encoding::Struct(StructEncoding::new(
        8,
        vec![PlainOldData::new(0, prim(4)), PlainOldData::new(4, prim(2))],
    ));
    let mut image = vec![0u8; 8];
    image[0..4].copy_from_slice(&1234u32.to_le_bytes());
    image[4..6].copy_from_slice(&5678u16.to_le_bytes());
    let mut buf = ConstWriteBuffer::new();
    buf = serialize_const_ptr(&image, 0, buf, &encoding);
    let read = buf.read();
    let (_, out) = deserialize_const_ptr(read, &encoding, 0, vec![0u8; 8]).unwrap();
    assert_eq!(
        (
            u32::from_le_bytes([out[0], out[1], out[2], out[3]]),
            u16::from_le_bytes([out[4], out[5]]),
        ),
        (1234u32, 5678u16)
    );

    // (1234f64, 5678u16, 90u8): f64 at 0, u16 at 8, u8 at 10, size 16.
    let encoding = Encoding::Struct(StructEncoding::new(
        16,
        vec![
            PlainOldData::new(0, prim(8)),
            PlainOldData::new(8, prim(2)),
            PlainOldData::new(10, prim(1)),
        ],
    ));
    let mut image = vec![0u8; 16];
    image[0..8].copy_from_slice(&1234f64.to_le_bytes());
    image[8..10].copy_from_slice(&5678u16.to_le_bytes());
    image[10] = 90u8;
    let mut buf = ConstWriteBuffer::new();
    buf = serialize_const_ptr(&image, 0, buf, &encoding);
    // No padding byte of the 16-byte tuple reaches the wire.
    assert_eq!(buf.as_ref().len(), 11);
    let read = buf.read();
    let (_, out) = deserialize_const_ptr(read, &encoding, 0, vec![0u8; 16]).unwrap();
    assert_eq!(
        (
            f64::from_le_bytes([
                out[0], out[1], out[2], out[3], out[4], out[5], out[6], out[7],
            ]),
            u16::from_le_bytes([out[8], out[9]]),
            out[10],
        ),
        (1234f64, 5678u16, 90u8)
    );

    // (1234u32, 5678u16, 90u8, 1000000f64): u32 at 0, u16 at 4, u8 at 6,
    // f64 at 8, size 16.
    let encoding = Encoding::Struct(StructEncoding::new(
        16,
        vec![
            PlainOldData::new(0, prim(4)),
            PlainOldData::new(4, prim(2)),
            PlainOldData::new(6, prim(1)),
            PlainOldData::new(8, prim(8)),
        ],
    ));
    let mut image = vec![0u8; 16];
    image[0..4].copy_from_slice(&1234u32.to_le_bytes());
    image[4..6].copy_from_slice(&5678u16.to_le_bytes());
    image[6] = 90u8;
    image[8..16].copy_from_slice(&1000000f64.to_le_bytes());
    let mut buf = ConstWriteBuffer::new();
    buf = serialize_const_ptr(&image, 0, buf, &encoding);
    let read = buf.read();
    let (_, out) = deserialize_const_ptr(read, &encoding, 0, vec![0u8; 16]).unwrap();
    assert_eq!(
        (
            u32::from_le_bytes([out[0], out[1], out[2], out[3]]),
            u16::from_le_bytes([out[4], out[5]]),
            out[6],
            f64::from_le_bytes([
                out[8], out[9], out[10], out[11], out[12], out[13], out[14], out[15],
            ]),
        ),
        (1234u32, 5678u16, 90u8, 1000000f64)
    );
}
