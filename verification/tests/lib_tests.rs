use const_serialize::{
    deserialize_const, deserialize_const_ptr, serialize_const, serialize_const_ptr,
    ConstWriteBuffer, Encoding, ListEncoding, PlainOldData, PrimitiveEncoding, StructEncoding,
};

fn prim(size: usize) -> Encoding {
    Encoding::Primitive(PrimitiveEncoding::new(size, false))
}

/// The struct `{ a: u32, b: u8, c: u32, d: u32 }` at its natural offsets.
fn crimes_struct_encoding() -> Encoding {
    Encoding::Struct(StructEncoding::new(
        16,
        vec![
            PlainOldData::new(0, prim(4)),
            PlainOldData::new(4, prim(1)),
            PlainOldData::new(8, prim(4)),
            PlainOldData::new(12, prim(4)),
        ],
    ))
}

#[test]
fn test_crimes() {
    let mut out = vec![0u8; 16];
    let first_align = 0usize;
    let second_align = 4usize;
    let third_align = 8usize;
    let fourth_align = 12usize;
    for (i, byte) in 1234u32.to_le_bytes().iter().enumerate() {
        out[i + first_align] = *byte;
    }
    for (i, byte) in 12u8.to_le_bytes().iter().enumerate() {
        out[i + second_align] = *byte;
    }
    for (i, byte) in 13u32.to_le_bytes().iter().enumerate() {
        out[i + third_align] = *byte;
    }
    for (i, byte) in 14u32.to_le_bytes().iter().enumerate() {
        out[i + fourth_align] = *byte;
    }
    let a = u32::from_le_bytes([out[0], out[1], out[2], out[3]]);
    let b = out[4];
    let c = u32::from_le_bytes([out[8], out[9], out[10], out[11]]);
    let d = u32::from_le_bytes([out[12], out[13], out[14], out[15]]);
    assert_eq!(a, 1234);
    assert_eq!(b, 12);
    assert_eq!(c, 13);
    assert_eq!(d, 14);
}

#[test]
fn lib_test_serialize_const_layout_primitive() {
    let mut buf = ConstWriteBuffer::new();
    buf = serialize_const(&1234u32, buf);
    assert_eq!(buf.as_ref(), 1234u32.to_le_bytes());
    let read = buf.read();
    assert_eq!(deserialize_const::<u32>(read), Some(1234u32));

    let mut buf = ConstWriteBuffer::new();
    buf = serialize_const(&1234u64, buf);
    assert_eq!(buf.as_ref(), 1234u64.to_le_bytes());
    let read = buf.read();
    assert_eq!(deserialize_const::<u64>(read), Some(1234u64));

    let mut buf = ConstWriteBuffer::new();
    buf = serialize_const(&1234i32, buf);
    assert_eq!(buf.as_ref(), 1234i32.to_le_bytes());
    let read = buf.read();
    assert_eq!(deserialize_const::<i32>(read), Some(1234i32));

    let mut buf = ConstWriteBuffer::new();
    buf = serialize_const(&1234i64, buf);
    assert_eq!(buf.as_ref(), 1234i64.to_le_bytes());
    let read = buf.read();
    assert_eq!(deserialize_const::<i64>(read), Some(1234i64));

    let mut buf = ConstWriteBuffer::new();
    buf = serialize_const(&true, buf);
    assert_eq!(buf.as_ref(), [1u8]);
    let read = buf.read();
    assert_eq!(deserialize_const::<bool>(read), Some(true));
}

#[test]
fn lib_test_serialize_const_layout_list() {
    let mut buf = ConstWriteBuffer::new();
    buf = serialize_const(&[1u8, 2, 3] as &[u8; 3], buf);
    println!("{:?}", buf.as_ref());
    let read = buf.read();
    assert_eq!(deserialize_const::<[u8; 3]>(read), Some([1, 2, 3]));
}

#[test]
fn lib_test_serialize_const_layout_nested_lists() {
    let encoding = Encoding::List(ListEncoding::new(
        3,
        Encoding::List(ListEncoding::new(3, prim(1))),
    ));
    let rows = [[1u8, 2, 3], [4u8, 5, 6], [7u8, 8, 9]];
    let mut image: Vec<u8> = Vec::new();
    for row in rows.iter() {
        image.extend_from_slice(row);
    }
    let mut buf = ConstWriteBuffer::new();
    buf = serialize_const_ptr(&image, 0, buf, &encoding);
    println!("{:?}", buf.as_ref());
    let read = buf.read();
    let (_, out) = deserialize_const_ptr(read, &encoding, 0, vec![0u8; 9]).unwrap();
    assert_eq!(out[0..3], [1, 2, 3]);
    assert_eq!(out[3..6], [4, 5, 6]);
    assert_eq!(out[6..9], [7, 8, 9]);
}

/// The struct `{ a: u32, b: u8, c: Struct, d: u32 }` whose field `c` is the
/// struct of `crimes_struct_encoding`, at natural offsets.
fn other_struct_encoding() -> Encoding {
    Encoding::Struct(StructEncoding::new(
        28,
        vec![
            PlainOldData::new(0, prim(4)),
            PlainOldData::new(4, prim(1)),
            PlainOldData::new(8, crimes_struct_encoding()),
            PlainOldData::new(24, prim(4)),
        ],
    ))
}

fn write_struct_image(out: &mut [u8], at: usize, a: u32, b: u8, c: u32, d: u32) {
    out[at..at + 4].copy_from_slice(&a.to_le_bytes());
    out[at + 4] = b;
    out[at + 8..at + 12].copy_from_slice(&c.to_le_bytes());
    out[at + 12..at + 16].copy_from_slice(&d.to_le_bytes());
}

fn write_other_struct_image(out: &mut [u8], at: usize, a: u32, b: u8, d: u32) {
    out[at..at + 4].copy_from_slice(&a.to_le_bytes());
    out[at + 4] = b;
    write_struct_image(out, at + 8, 0x11111111, 0x22, 0x33333333, 0x44444444);
    out[at + 24..at + 28].copy_from_slice(&d.to_le_bytes());
}

fn read_u32(img: &[u8], at: usize) -> u32 {
    u32::from_le_bytes([img[at], img[at + 1], img[at + 2], img[at + 3]])
}

fn other_struct_fields_equal(img: &[u8], at: usize, a: u32, b: u8, d: u32) -> bool {
    read_u32(img, at) == a && img[at + 4] == b && read_u32(img, at + 8) == 0x11111111
        && img[at + 12] == 0x22 && read_u32(img, at + 16) == 0x33333333
        && read_u32(img, at + 20) == 0x44444444 && read_u32(img, at + 24) == d
}

#[test]
fn test_serialize_const_layout_struct() {
    let encoding = other_struct_encoding();
    println!("{:?}", encoding);
    let mut image = vec![0u8; 28];
    write_other_struct_image(&mut image, 0, 0x11111111, 0x22, 0x44444444);
    let mut buf = ConstWriteBuffer::new();
    buf = serialize_const_ptr(&image, 0, buf, &encoding);
    println!("{:?}", buf.as_ref());
    let read = buf.read();
    let (_, data2) = deserialize_const_ptr(read, &encoding, 0, vec![0u8; 28]).unwrap();
    assert!(other_struct_fields_equal(&data2, 0, 0x11111111, 0x22, 0x44444444));
}

#[test]
fn test_serialize_const_layout_struct_list() {
    let encoding = Encoding::List(ListEncoding::new(3, other_struct_encoding()));
    let mut image = vec![0u8; 84];
    write_other_struct_image(&mut image, 0, 0x11111111, 0x22, 0x44444444);
    write_other_struct_image(&mut image, 28, 0x111111, 0x23, 0x44444444);
    write_other_struct_image(&mut image, 56, 0x11111111, 0x11, 0x44441144);
    let mut buf = ConstWriteBuffer::new();
    buf = serialize_const_ptr(&image, 0, buf, &encoding);
    println!("{:?}", buf.as_ref());
    let read = buf.read();
    let (_, data2) = deserialize_const_ptr(read, &encoding, 0, vec![0u8; 84]).unwrap();
    assert!(
        other_struct_fields_equal(&data2, 0, 0x11111111, 0x22, 0x44444444),
        "data mismatch"
    );
    assert!(
        other_struct_fields_equal(&data2, 28, 0x111111, 0x23, 0x44444444),
        "data mismatch"
    );
    assert!(
        other_struct_fields_equal(&data2, 56, 0x11111111, 0x11, 0x44441144),
        "data mismatch"
    );
}
