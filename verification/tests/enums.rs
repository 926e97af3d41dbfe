use const_serialize::{
    deserialize_const_ptr, serialize_const_ptr, ConstWriteBuffer, Encoding, EnumEncoding,
    EnumVariant, PlainOldData, PrimitiveEncoding, StructEncoding,
};

fn prim(size: usize) -> Encoding {
    Encoding::Primitive(PrimitiveEncoding::new(size, false))
}

#[test]
fn test_transmute_bytes_to_enum() {
    // A tagged union `A { one: u32, two: u16 } | B { one: u8, two: u16 } = 15`
    // with a one-byte discriminant: payload alignment 4, so the payload
    // starts at (1 / 4) + 4 = 4 and the whole union takes 12 bytes.
    let size = 12usize;
    let discriminate_size = 1usize;
    let tag_align = 0usize;
    let union_alignment = 4usize;
    let data_align = (discriminate_size / union_alignment) + union_alignment;
    let a_one_align = 0usize;
    let a_two_align = 4usize;
    let b_one_align = 0usize;
    let b_two_align = 2usize;

    let one = 1234u32;
    let two = 5678u16;
    let mut out = vec![0u8; size];
    for (i, byte) in one.to_le_bytes().iter().enumerate() {
        out[data_align + i + a_one_align] = *byte;
    }
    for (i, byte) in two.to_le_bytes().iter().enumerate() {
        out[data_align + i + a_two_align] = *byte;
    }
    out[tag_align] = 0;
    assert_eq!(
        (
            out[tag_align],
            u32::from_le_bytes([out[4], out[5], out[6], out[7]]),
            u16::from_le_bytes([out[8], out[9]]),
        ),
        (0, 1234, 5678)
    );

    let one = 123u8;
    let two = 58u16;
    let mut out = vec![0u8; size];
    for (i, byte) in one.to_le_bytes().iter().enumerate() {
        out[data_align + i + b_one_align] = *byte;
    }
    for (i, byte) in two.to_le_bytes().iter().enumerate() {
        out[data_align + i + b_two_align] = *byte;
    }
    out[tag_align] = 15;
    assert_eq!(
        (out[tag_align], out[4], u16::from_le_bytes([out[6], out[7]])),
        (15, 123, 58)
    );
}

fn enum_encoding() -> Encoding {
    Encoding::Enum(EnumEncoding::new(
        12,
        1,
        false,
        {
            let union_alignment = {
                let first = 4usize;
                let second = 2usize;
                if first > second {
                    first
                } else {
                    second
                }
            };
            EnumEncoding::payload_offset(1, union_alignment)
        },
        vec![
            EnumVariant::new(
                0,
                StructEncoding::new(
                    8,
                    vec![PlainOldData::new(0, prim(4)), PlainOldData::new(4, prim(2))],
                ),
            ),
            EnumVariant::new(
                15,
                StructEncoding::new(
                    4,
                    vec![PlainOldData::new(0, prim(1)), PlainOldData::new(2, prim(2))],
                ),
            ),
        ],
    ))
}

#[test]
fn test_serialize_enum() {
    let encoding = enum_encoding();
    // The tag-0 variant `A { one: 0x11111111, two: 0x22 }`.
    let mut image = vec![0u8; 12];
    image[0] = 0;
    image[4..8].copy_from_slice(&0x11111111u32.to_le_bytes());
    image[8..10].copy_from_slice(&0x22u16.to_le_bytes());
    let mut buf = ConstWriteBuffer::new();
    buf = serialize_const_ptr(&image, 0, buf, &encoding);
    println!("{:?}", buf.as_ref());
    let read = buf.read();
    let decoded = deserialize_const_ptr(read, &encoding, 0, vec![0u8; 12]);
    let (_, out) = decoded.expect("big");
    assert_eq!(
        (
            out[0],
            u32::from_le_bytes([out[4], out[5], out[6], out[7]]),
            u16::from_le_bytes([out[8], out[9]]),
        ),
        (0, 0x11111111, 0x22)
    );
}

#[test]
fn test_enum_variant_selection() {
    // Serializing the tag-15 variant and decoding with the same descriptor
    // reproduces the tag-15 value; it is never misread as the tag-0 variant.
    let encoding = enum_encoding();
    let mut image = vec![0u8; 12];
    image[0] = 15;
    image[4] = 123u8;
    image[6..8].copy_from_slice(&58u16.to_le_bytes());
    let mut buf = ConstWriteBuffer::new();
    buf = serialize_const_ptr(&image, 0, buf, &encoding);
    // Wire: the discriminant byte, then only the tag-15 payload fields.
    assert_eq!(buf.as_ref(), [15u8, 123, 58, 0]);
    let read = buf.read();
    let (_, out) = deserialize_const_ptr(read, &encoding, 0, vec![0u8; 12]).unwrap();
    assert_eq!(out[0], 15);
    assert_eq!(out[4], 123);
    assert_eq!(u16::from_le_bytes([out[6], out[7]]), 58);
}

#[test]
fn test_enum_unknown_discriminant() {
    // A discriminant that names no declared variant fails the decode: the
    // wire starts with tag 7, which neither variant carries.
    let encoding = enum_encoding();
    let mut buf = ConstWriteBuffer::new();
    buf = buf.push(7);
    buf = buf.push(1);
    buf = buf.push(2);
    buf = buf.push(3);
    buf = buf.push(4);
    buf = buf.push(5);
    buf = buf.push(6);
    let read = buf.read();
    assert!(deserialize_const_ptr(read, &encoding, 0, vec![0u8; 12]).is_none());
}

#[test]
fn test_enum_truncated_payload() {
    // The discriminant selects the tag-0 variant, whose payload needs six
    // more bytes; only two follow, so the decode fails as a whole.
    let encoding = enum_encoding();
    let mut buf = ConstWriteBuffer::new();
    buf = buf.push(0);
    buf = buf.push(1);
    buf = buf.push(2);
    let read = buf.read();
    assert!(deserialize_const_ptr(read, &encoding, 0, vec![0u8; 12]).is_none());
}
