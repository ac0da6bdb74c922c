use roaring::bitmap::lazy::LazyRoaringBitmap;
use roaring::bitmap::le::{get_u16, get_u32, get_u64, put_u16, put_u32, put_u64};
use roaring::bitmap::store::Store;
use roaring::bitmap::ArchivedRoaringBitmap;
use roaring::{Error, RoaringBitmap};

fn collect(values: impl Iterator<Item = u32>) -> RoaringBitmap {
    let mut bitmap = RoaringBitmap::new();
    for value in values {
        bitmap.insert(value);
    }
    bitmap
}

fn bytes(bitmap: &RoaringBitmap) -> Vec<u8> {
    let mut buffer = vec![];
    bitmap.serialize_into(&mut buffer);
    buffer
}

fn lazy_error(data: &[u8]) -> Error {
    match LazyRoaringBitmap::deserialize_from(data) {
        Ok(_) => panic!("the buffer was accepted"),
        Err(e) => e,
    }
}

#[test]
fn little_endian_reads() {
    let data = [0x34, 0x12, 0x78, 0x56, 0xbc, 0x9a, 0xf0, 0xde, 0x01];
    assert_eq!(get_u16(&data, 0), 0x1234);
    assert_eq!(get_u16(&data, 1), 0x7812);
    assert_eq!(get_u32(&data, 0), 0x5678_1234);
    assert_eq!(get_u32(&data, 2), 0x9abc_5678);
    assert_eq!(get_u64(&data, 0), 0xdef0_9abc_5678_1234);
    assert_eq!(get_u64(&data, 1), 0x01de_f09a_bc56_7812);
}

#[test]
fn little_endian_writes() {
    let mut buffer = vec![0xff];
    put_u16(&mut buffer, 0x1234);
    put_u32(&mut buffer, 0x5678_9abc);
    put_u64(&mut buffer, 0x0102_0304_0506_0708);
    assert_eq!(
        buffer,
        vec![0xff, 0x34, 0x12, 0xbc, 0x9a, 0x78, 0x56, 8, 7, 6, 5, 4, 3, 2, 1]
    );
}

#[test]
fn serialized_arrays_byte_for_byte() {
    let bitmap = collect(vec![1, 2, 65_536 + 3].into_iter());
    let expected: Vec<u8> = vec![
        0x3a, 0x30, 0, 0, // cookie 12346
        2, 0, 0, 0, // two containers
        0, 0, 1, 0, // key 0, two members
        1, 0, 0, 0, // key 1, one member
        0, 0, 0, 0, // the first payload starts the payload region
        4, 0, 0, 0, // the second follows the four bytes of the first
        1, 0, 2, 0, // members of key 0
        3, 0, // member of key 1
    ];
    assert_eq!(bytes(&bitmap), expected);
}

#[test]
fn serialize_appends_to_the_buffer() {
    let bitmap = collect(vec![7].into_iter());
    let mut buffer = vec![9, 9];
    bitmap.serialize_into(&mut buffer);
    assert_eq!(buffer, vec![9, 9, 0x3a, 0x30, 0, 0, 1, 0, 0, 0, 0, 0, 0, 0, 0, 0, 0, 0, 7, 0]);
}

#[test]
fn serialized_empty_bitmap() {
    let bitmap = RoaringBitmap::new();
    assert!(bitmap.is_empty());
    assert_eq!(bitmap.len(), 0);
    assert_eq!(bytes(&bitmap), vec![0x3a, 0x30, 0, 0, 0, 0, 0, 0]);
    let lazy = LazyRoaringBitmap::deserialize_from(&[0x3a, 0x30, 0, 0, 0, 0, 0, 0]).unwrap();
    assert_eq!(lazy.keys(), Vec::<u16>::new());
    assert_eq!(lazy.get_container(0), Ok(None));
    assert_eq!(lazy.load().unwrap(), bitmap);
}

#[test]
fn serialized_bitmap_container_byte_for_byte() {
    let bitmap = collect((0..4097).chain(8191..8192));
    let buffer = bytes(&bitmap);
    assert_eq!(buffer.len(), 8 + 4 + 4 + 8192);
    assert_eq!(&buffer[..8], &[0x3a, 0x30, 0, 0, 1, 0, 0, 0]);
    // key 0, cardinality 4098 less one
    assert_eq!(&buffer[8..12], &[0, 0, 0x01, 0x10]);
    assert_eq!(&buffer[12..16], &[0, 0, 0, 0]);
    let payload = &buffer[16..];
    for i in 0..512 {
        assert_eq!(payload[i], 0xff);
    }
    assert_eq!(payload[512], 0x01);
    for i in 513..1023 {
        assert_eq!(payload[i], 0);
    }
    // value 8191 is bit 63 of word 127: the top bit of its last byte
    assert_eq!(payload[1023], 0x80);
    for i in 1024..8192 {
        assert_eq!(payload[i], 0);
    }
}

#[test]
fn threshold_between_array_and_bitmap() {
    let at_limit = collect(0..4096);
    let buffer = bytes(&at_limit);
    assert_eq!(buffer.len(), 16 + 2 * 4096);
    assert_eq!(&buffer[8..12], &[0, 0, 0xff, 0x0f]);
    let lazy = LazyRoaringBitmap::deserialize_from(&buffer).unwrap();
    let container = lazy.get_container(0).unwrap().unwrap();
    assert!(matches!(container.store, Store::Array(_)));
    assert_eq!(container.len(), 4096);

    let above = collect(0..4097);
    let buffer = bytes(&above);
    assert_eq!(buffer.len(), 16 + 8192);
    assert_eq!(&buffer[8..12], &[0, 0, 0x00, 0x10]);
    let lazy = LazyRoaringBitmap::deserialize_from(&buffer).unwrap();
    let container = lazy.get_container(0).unwrap().unwrap();
    assert!(matches!(container.store, Store::Bitmap { .. }));
    assert_eq!(container.len(), 4097);
}

#[test]
fn consecutive_4097_is_one_bitmap_container() {
    let bitmap = collect(65_536..65_536 + 4097);
    assert_eq!(bitmap.containers().len(), 1);
    let buffer = bytes(&bitmap);
    let lazy = LazyRoaringBitmap::deserialize_from(&buffer).unwrap();
    assert_eq!(lazy.keys(), vec![1]);
    match lazy.get_container(1).unwrap().unwrap().store {
        Store::Bitmap { len, bits } => {
            assert_eq!(len, 4097);
            let ones: u32 = bits.iter().map(|w| w.count_ones()).sum();
            assert_eq!(ones, 4097);
            assert_eq!(bits.len(), 1024);
            assert_eq!(bits[0], u64::MAX);
            assert_eq!(bits[64], 1);
        }
        Store::Array(_) => panic!("an array store"),
    }
    assert_eq!(lazy.get_container(0), Ok(None));
}

#[test]
fn zero_cookie_is_unknown() {
    assert_eq!(lazy_error(&[0x00, 0x00, 0x00, 0x00]), Error::UnknownCookie);
    assert_eq!(RoaringBitmap::deserialize_from(&[0, 0, 0, 0]), Err(Error::UnknownCookie));
    assert!(matches!(
        ArchivedRoaringBitmap::from_bytes(&[0, 0, 0, 0]),
        Err(Error::UnknownCookie)
    ));
    assert_eq!(lazy_error(&[0x3a, 0x30, 1, 0, 0, 0, 0, 0]), Error::UnknownCookie);
}

#[test]
fn run_cookie_is_unsupported() {
    assert_eq!(lazy_error(&[0x3b, 0x30, 0, 0]), Error::RunContainersUnsupported);
    assert_eq!(lazy_error(&[0x3b, 0x30, 5, 0, 1, 2, 3]), Error::RunContainersUnsupported);
}

#[test]
fn size_above_key_space_is_refused() {
    // 65537 containers
    assert_eq!(lazy_error(&[0x3a, 0x30, 0, 0, 1, 0, 1, 0]), Error::SizeOutOfRange);
    assert_eq!(lazy_error(&[0x3a, 0x30, 0, 0, 0xff, 0xff, 0xff, 0xff]), Error::SizeOutOfRange);
}

#[test]
fn size_of_whole_key_space_is_accepted() {
    let mut buffer = vec![0x3a, 0x30, 0, 0, 0, 0, 1, 0];
    buffer.resize(8 + 8 * 65_536, 0);
    let lazy = LazyRoaringBitmap::deserialize_from(&buffer).unwrap();
    // every entry names key 0 with one member at offset 0
    assert_eq!(lazy.keys(), vec![0]);
    assert_eq!(lazy.get_container(0), Err(Error::Truncated));
    buffer.pop();
    assert_eq!(lazy_error(&buffer), Error::Truncated);
}

#[test]
fn short_buffers_are_truncated() {
    assert_eq!(lazy_error(&[]), Error::Truncated);
    assert_eq!(lazy_error(&[0x3a, 0x30, 0]), Error::Truncated);
    assert_eq!(lazy_error(&[0x3a, 0x30, 0, 0]), Error::Truncated);
    assert_eq!(lazy_error(&[0x3a, 0x30, 0, 0, 1, 0, 0]), Error::Truncated);
}

#[test]
fn directory_longer_than_buffer_is_truncated() {
    // two containers declared, room for one directory entry only
    assert_eq!(lazy_error(&[0x3a, 0x30, 0, 0, 2, 0, 0, 0, 0, 0, 0, 0]), Error::Truncated);
    // directory complete, offsets table missing one byte
    let mut buffer = vec![0x3a, 0x30, 0, 0, 1, 0, 0, 0, 5, 0, 0, 0, 0, 0, 0];
    assert_eq!(lazy_error(&buffer), Error::Truncated);
    buffer.push(0);
    assert!(LazyRoaringBitmap::deserialize_from(&buffer).is_ok());
}

#[test]
fn payload_past_the_end_is_truncated() {
    // key 5, two members at offset 0, but three payload bytes only
    let buffer = vec![0x3a, 0x30, 0, 0, 1, 0, 0, 0, 5, 0, 1, 0, 0, 0, 0, 0, 1, 0, 2];
    let lazy = LazyRoaringBitmap::deserialize_from(&buffer).unwrap();
    assert_eq!(lazy.get_container(5), Err(Error::Truncated));
    assert_eq!(lazy.get_container(4), Ok(None));
    assert_eq!(lazy.load(), Err(Error::Truncated));
    assert_eq!(RoaringBitmap::deserialize_from(&buffer), Err(Error::Truncated));
    assert!(matches!(ArchivedRoaringBitmap::from_bytes(&buffer), Err(Error::Truncated)));
    // an offset that points far behind the buffer
    let buffer = vec![0x3a, 0x30, 0, 0, 1, 0, 0, 0, 5, 0, 0, 0, 0xff, 0xff, 0xff, 0xff, 1, 0];
    let lazy = LazyRoaringBitmap::deserialize_from(&buffer).unwrap();
    assert_eq!(lazy.get_container(5), Err(Error::Truncated));
    // a bitmap container needs 8192 bytes
    let mut buffer = vec![0x3a, 0x30, 0, 0, 1, 0, 0, 0, 5, 0, 0, 0x10, 0, 0, 0, 0];
    buffer.resize(16 + 8191, 0xff);
    let lazy = LazyRoaringBitmap::deserialize_from(&buffer).unwrap();
    assert_eq!(lazy.get_container(5), Err(Error::Truncated));
}

#[test]
fn unsorted_array_is_corrupt() {
    let buffer = vec![0x3a, 0x30, 0, 0, 1, 0, 0, 0, 5, 0, 1, 0, 0, 0, 0, 0, 2, 0, 1, 0];
    let lazy = LazyRoaringBitmap::deserialize_from(&buffer).unwrap();
    assert_eq!(lazy.get_container(5), Err(Error::Corrupt));
    assert_eq!(lazy.load(), Err(Error::Corrupt));
    assert!(matches!(ArchivedRoaringBitmap::from_bytes(&buffer), Err(Error::Corrupt)));
    // a repeated member
    let buffer = vec![0x3a, 0x30, 0, 0, 1, 0, 0, 0, 5, 0, 1, 0, 0, 0, 0, 0, 2, 0, 2, 0];
    let lazy = LazyRoaringBitmap::deserialize_from(&buffer).unwrap();
    assert_eq!(lazy.get_container(5), Err(Error::Corrupt));
    // in order, it is accepted
    let buffer = vec![0x3a, 0x30, 0, 0, 1, 0, 0, 0, 5, 0, 1, 0, 0, 0, 0, 0, 2, 1, 4, 3];
    let lazy = LazyRoaringBitmap::deserialize_from(&buffer).unwrap();
    let container = lazy.get_container(5).unwrap().unwrap();
    assert_eq!(container.key, 5);
    assert_eq!(container.store, Store::Array(vec![0x0102, 0x0304]));
    let view = ArchivedRoaringBitmap::from_bytes(&buffer).unwrap();
    assert_eq!(view.to_vec(), vec![5 * 65_536 + 0x0102, 5 * 65_536 + 0x0304]);
}

#[test]
fn bitmap_with_wrong_count_is_corrupt() {
    let bitmap = collect(0..5000);
    let good = bytes(&bitmap);
    assert!(LazyRoaringBitmap::deserialize_from(&good).unwrap().get_container(0).is_ok());
    // declare one member more than there are set bits
    let mut more = good.clone();
    more[10] = more[10].wrapping_add(1);
    let lazy = LazyRoaringBitmap::deserialize_from(&more).unwrap();
    assert_eq!(lazy.get_container(0), Err(Error::Corrupt));
    assert!(matches!(ArchivedRoaringBitmap::from_bytes(&more), Err(Error::Corrupt)));
    // clear a set bit and keep the declared cardinality
    let mut fewer = good.clone();
    fewer[16] = 0xfe;
    let lazy = LazyRoaringBitmap::deserialize_from(&fewer).unwrap();
    assert_eq!(lazy.get_container(0), Err(Error::Corrupt));
    assert_eq!(lazy.load(), Err(Error::Corrupt));
}

#[test]
fn later_directory_entry_replaces_earlier() {
    // key 7 twice: first with one member at offset 0, then with two at offset 2
    let buffer = vec![
        0x3a, 0x30, 0, 0, 2, 0, 0, 0, // header
        7, 0, 0, 0, 7, 0, 1, 0, // directory
        0, 0, 0, 0, 2, 0, 0, 0, // offsets
        9, 0, 1, 0, 2, 0, // payload
    ];
    let lazy = LazyRoaringBitmap::deserialize_from(&buffer).unwrap();
    assert_eq!(lazy.keys(), vec![7]);
    let container = lazy.get_container(7).unwrap().unwrap();
    assert_eq!(container.store, Store::Array(vec![1, 2]));
}

#[test]
fn directory_out_of_order_is_loaded_in_key_order() {
    let buffer = vec![
        0x3a, 0x30, 0, 0, 2, 0, 0, 0, // header
        9, 0, 0, 0, 3, 0, 0, 0, // directory: key 9, then key 3
        0, 0, 0, 0, 2, 0, 0, 0, // offsets
        1, 0, 2, 0, // payload
    ];
    let lazy = LazyRoaringBitmap::deserialize_from(&buffer).unwrap();
    assert_eq!(lazy.keys(), vec![3, 9]);
    let bitmap = lazy.load().unwrap();
    assert_eq!(bitmap.to_vec(), vec![3 * 65_536 + 2, 9 * 65_536 + 1]);
    let view = ArchivedRoaringBitmap::from_lazy(&lazy).unwrap();
    assert_eq!(view.to_vec(), bitmap.to_vec());
}

#[test]
fn error_messages() {
    assert_eq!(Error::UnknownCookie.message(), "unknown cookie value");
    assert_eq!(Error::RunContainersUnsupported.message(), "run containers are unsupported");
    assert_eq!(Error::SizeOutOfRange.message(), "size is greater than supported");
    assert_eq!(Error::Truncated.message(), "unexpected end of buffer");
    assert_eq!(Error::Corrupt.message(), "container payload is corrupt");
}
