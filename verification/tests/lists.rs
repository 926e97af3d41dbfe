use const_serialize::{
    deserialize_const, deserialize_const_ptr, serialize_const, serialize_const_ptr,
    ConstWriteBuffer, Encoding, ListEncoding, PrimitiveEncoding,
};

fn byte_list(len: usize) -> Encoding {
    Encoding::List(ListEncoding::new(
        len,
        Encoding::Primitive(PrimitiveEncoding::new(1, false)),
    ))
}

#[test]
fn lists_test_serialize_const_layout_list() {
    let mut buf = ConstWriteBuffer::new();
    buf = serialize_const(&[1u8, 2, 3] as &[u8; 3], buf);
    println!("{:?}", buf.as_ref());
    let read = buf.read();
    assert_eq!(deserialize_const::<[u8; 3]>(read), Some([1, 2, 3]));
}

#[test]
fn lists_test_serialize_const_layout_nested_lists() {
    let encoding = Encoding::List(ListEncoding::new(3, byte_list(3)));
    let rows = [[1u8, 2, 3], [4u8, 5, 6], [7u8, 8, 9]];
    let mut image: Vec<u8> = Vec::new();
    for row in rows.iter() {
        image.extend_from_slice(row);
    }
    let mut buf = ConstWriteBuffer::new();
    buf = serialize_const_ptr(&image, 0, buf, &encoding);
    println!("{:?}", buf.as_ref());
    let read = buf.read();
    let (_, out) = deserialize_const_ptr(read, &encoding, 0, vec![0u8; 9]).unwrap();
    assert_eq!(out[0..3], [1, 2, 3]);
    assert_eq!(out[3..6], [4, 5, 6]);
    assert_eq!(out[6..9], [7, 8, 9]);
}

#[test]
fn test_empty_list_round_trip() {
    // A zero-length list has no wire bytes and decodes from an empty
    // buffer.
    let encoding = byte_list(0);
    let image: Vec<u8> = Vec::new();
    let mut buf = ConstWriteBuffer::new();
    buf = serialize_const_ptr(&image, 0, buf, &encoding);
    assert_eq!(buf.as_ref(), [0u8; 0]);
    let read = buf.read();
    let (_, out) = deserialize_const_ptr(read, &encoding, 0, Vec::new()).unwrap();
    assert_eq!(out.len(), 0);
}

#[test]
fn test_list_truncated_input() {
    // Nine bytes are needed for a 3-by-3 byte array; three are present.
    let encoding = Encoding::List(ListEncoding::new(3, byte_list(3)));
    let mut buf = ConstWriteBuffer::new();
    buf = buf.push(1);
    buf = buf.push(2);
    buf = buf.push(3);
    let read = buf.read();
    assert!(deserialize_const_ptr(read, &encoding, 0, vec![0u8; 9]).is_none());
}
