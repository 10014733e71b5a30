use simpledb::btree::tuple::{Tuple, TupleBuilder, TupleHeader};

/// Header layout: flags (byte 0), key_len (bytes 1-2, LE), value_len (bytes 3-4, LE).
const HEADER_SIZE: usize = 5;

// -------------------------------------------------------------------------
// TupleHeader
// -------------------------------------------------------------------------

#[test]
fn test_tuple_header_flags() {
    let data: [u8; HEADER_SIZE] = [0x42, 0, 0, 0, 0];
    let header = TupleHeader::from(&data[..]);
    assert_eq!(header.flags(), 0x42);
}

#[test]
fn test_tuple_header_set_flags() {
    let mut data: [u8; HEADER_SIZE] = [0; HEADER_SIZE];
    let mut header = TupleHeader::from(&mut data[..]);
    header.set_flags(0xAB);
    assert_eq!(header.flags(), 0xAB);
}

#[test]
fn test_tuple_header_key_len() {
    // key_len = 0x1234 (little-endian: 0x34, 0x12)
    let data: [u8; HEADER_SIZE] = [0, 0x34, 0x12, 0, 0];
    let header = TupleHeader::from(&data[..]);
    assert_eq!(header.key_len(), 0x1234);
}

#[test]
fn test_tuple_header_set_key_len() {
    let mut data: [u8; HEADER_SIZE] = [0; HEADER_SIZE];
    let mut header = TupleHeader::from(&mut data[..]);
    header.set_key_len(0x5678);
    assert_eq!(header.key_len(), 0x5678);
    // The bytes are little-endian.
    assert_eq!(data[1], 0x78);
    assert_eq!(data[2], 0x56);
}

#[test]
fn test_tuple_header_value_len() {
    // value_len = 0xABCD (little-endian: 0xCD, 0xAB)
    let data: [u8; HEADER_SIZE] = [0, 0, 0, 0xCD, 0xAB];
    let header = TupleHeader::from(&data[..]);
    assert_eq!(header.value_len(), 0xABCD);
}

#[test]
fn test_tuple_header_set_value_len() {
    let mut data: [u8; HEADER_SIZE] = [0; HEADER_SIZE];
    let mut header = TupleHeader::from(&mut data[..]);
    header.set_value_len(0xDEAD);
    assert_eq!(header.value_len(), 0xDEAD);
    // The bytes are little-endian.
    assert_eq!(data[3], 0xAD);
    assert_eq!(data[4], 0xDE);
}

#[test]
fn test_tuple_header_all_fields() {
    let mut data: [u8; HEADER_SIZE] = [0; HEADER_SIZE];
    let mut header = TupleHeader::from(&mut data[..]);

    header.set_flags(0xFF);
    header.set_key_len(100);
    header.set_value_len(200);

    assert_eq!(header.flags(), 0xFF);
    assert_eq!(header.key_len(), 100);
    assert_eq!(header.value_len(), 200);
}

// -------------------------------------------------------------------------
// Tuple
// -------------------------------------------------------------------------

#[test]
fn test_tuple_header_access() {
    let owning = TupleBuilder::new()
        .flags(0x01)
        .key(b"key".to_vec())
        .value(b"value".to_vec())
        .build();
    let tuple = owning.to_ref();

    assert_eq!(tuple.header().flags(), 0x01);
    assert_eq!(tuple.header().key_len(), 3);
    assert_eq!(tuple.header().value_len(), 5);
}

#[test]
fn test_tuple_key() {
    let owning = TupleBuilder::new()
        .key(b"mykey".to_vec())
        .value(b"myvalue".to_vec())
        .build();

    assert_eq!(owning.to_ref().key().bytes(), b"mykey");
}

#[test]
fn test_tuple_empty_key() {
    let owning = TupleBuilder::new().value(b"value".to_vec()).build();
    let tuple = owning.to_ref();

    assert_eq!(tuple.key().bytes(), b"");
    assert_eq!(tuple.header().key_len(), 0);
}

#[test]
fn test_tuple_large_key() {
    let key = vec![b'K'; 1000];
    let owning = TupleBuilder::new().key(key).value(b"v".to_vec()).build();
    let tuple = owning.to_ref();

    assert_eq!(tuple.key().len(), 1000);
    assert_eq!(tuple.header().key_len(), 1000);
}

#[test]
fn test_tuple_header_mut() {
    let mut data = TupleBuilder::new()
        .key(b"key".to_vec())
        .value(b"value".to_vec())
        .build()
        .into_vec();
    let mut tuple = Tuple::from(&mut data[..]);

    {
        let mut header = tuple.header_mut();
        header.set_flags(0x42);
        header.set_key_len(10);
        header.set_value_len(20);
    }

    let header = tuple.header();
    assert_eq!(header.flags(), 0x42);
    assert_eq!(header.key_len(), 10);
    assert_eq!(header.value_len(), 20);
}

#[test]
fn test_tuple_with_borrowed_slice() {
    let owning = TupleBuilder::new()
        .flags(0x55)
        .key(b"test".to_vec())
        .value(b"data".to_vec())
        .build();
    let tuple = owning.to_ref();

    assert_eq!(tuple.header().flags(), 0x55);
    assert_eq!(tuple.key().bytes(), b"test");
}

#[test]
fn test_tuple_with_owned_vec() {
    let data = TupleBuilder::new()
        .flags(0xAA)
        .key(b"owned".to_vec())
        .value(b"tuple".to_vec())
        .build()
        .into_vec();
    let tuple = Tuple::from(data);

    assert_eq!(tuple.header().flags(), 0xAA);
    assert_eq!(tuple.key().bytes(), b"owned");
}

// -------------------------------------------------------------------------
// TupleBuilder
// -------------------------------------------------------------------------

#[test]
fn test_builder_basic() {
    let owning = TupleBuilder::new()
        .key(b"mykey".to_vec())
        .value(b"myvalue".to_vec())
        .build();

    let tuple = owning.to_ref();
    assert_eq!(tuple.header().flags(), 0);
    assert_eq!(tuple.key().bytes(), b"mykey");
    assert_eq!(tuple.header().key_len(), 5);
    assert_eq!(tuple.header().value_len(), 7);
}

#[test]
fn test_builder_with_flags() {
    let owning = TupleBuilder::new()
        .flags(0x42)
        .key(b"key".to_vec())
        .value(b"val".to_vec())
        .build();

    assert_eq!(owning.to_ref().header().flags(), 0x42);
}

#[test]
fn test_builder_defaults() {
    let owning = TupleBuilder::new().build();

    let tuple = owning.to_ref();
    assert_eq!(tuple.header().flags(), 0);
    assert_eq!(tuple.header().key_len(), 0);
    assert_eq!(tuple.header().value_len(), 0);
    assert_eq!(tuple.len(), 5); // Just the header
}

#[test]
fn test_builder_from_str() {
    let owning = TupleBuilder::new()
        .key("hello".as_bytes().to_vec())
        .value("world".as_bytes().to_vec())
        .build();

    let tuple = owning.to_ref();
    assert_eq!(tuple.key().bytes(), b"hello");
    assert_eq!(tuple.header().value_len(), 5);
}

#[test]
fn test_owning_tuple_as_bytes() {
    let owning = TupleBuilder::new()
        .flags(0x01)
        .key(b"testkey".to_vec())
        .value(b"testvalue".to_vec())
        .build();

    let tuple = owning.to_ref();
    assert_eq!(tuple.header().flags(), 0x01);
    assert_eq!(tuple.header().key_len(), 7);
    assert_eq!(tuple.header().value_len(), 9);
    assert_eq!(tuple.key().bytes(), b"testkey");

    // The raw bytes are the header, the key and the value.
    let bytes = owning.as_bytes();
    assert_eq!(bytes.len(), 5 + 7 + 9);
}

#[test]
fn test_owning_tuple_into_vec() {
    let owning = TupleBuilder::new()
        .key(b"key".to_vec())
        .value(b"val".to_vec())
        .build();

    let vec = owning.into_vec();
    assert_eq!(vec.len(), 5 + 3 + 3); // header + key + value

    // A tuple can still be read from the vec.
    let tuple = Tuple::from(&vec[..]);
    assert_eq!(tuple.key().bytes(), b"key");
}

#[test]
fn test_owning_tuple_empty() {
    let owning = TupleBuilder::new().build();
    let tuple = owning.to_ref();

    assert_eq!(tuple.header().flags(), 0);
    assert_eq!(tuple.header().key_len(), 0);
    assert_eq!(tuple.header().value_len(), 0);
    assert_eq!(tuple.len(), 5); // Just the header
}
