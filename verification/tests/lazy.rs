use roaring::bitmap::lazy::LazyRoaringBitmap;
use roaring::bitmap::store::Store;
use roaring::bitmap::ArchivedRoaringBitmap;
use roaring::{Error, RoaringBitmap};

fn collect(values: impl Iterator<Item = u32>) -> RoaringBitmap {
    let mut bitmap = RoaringBitmap::new();
    for value in values {
        bitmap.insert(value);
    }
    bitmap
}

fn bytes(bitmap: &RoaringBitmap) -> Vec<u8> {
    let mut buffer = vec![];
    bitmap.serialize_into(&mut buffer);
    buffer
}

fn samples() -> Vec<RoaringBitmap> {
    vec![
        RoaringBitmap::new(),
        collect(0..1),
        collect(0..2000),
        collect(0..4096),
        collect(0..4097),
        collect(0..100_000),
        collect((0..2000).chain(1_000_000..1_002_000).chain(2_000_000..2_001_000)),
        collect((0..6000).chain(1_000_000..1_012_000).chain(2_000_000..2_010_000)),
        collect(vec![0, 65_535, 65_536, u32::MAX - 1, u32::MAX].into_iter()),
        collect((0..20_000).map(|i| i * 7)),
    ]
}

#[test]
fn load_gives_back_what_was_serialized() {
    for written in samples() {
        let buffer = bytes(&written);
        let lazy = LazyRoaringBitmap::deserialize_from(&buffer).unwrap();
        let loaded = lazy.load().unwrap();
        assert_eq!(loaded, written);
        assert_eq!(loaded.to_vec(), written.to_vec());
        assert_eq!(RoaringBitmap::deserialize_from(&buffer).unwrap(), written);
    }
}

#[test]
fn archived_view_lists_the_sorted_members() {
    for written in samples() {
        let buffer = bytes(&written);
        let view = ArchivedRoaringBitmap::from_bytes(&buffer).unwrap();
        let listed = view.to_vec();
        assert_eq!(listed, written.to_vec());
        assert!(listed.windows(2).all(|pair| pair[0] < pair[1]));
        assert_eq!(view.len(), written.len());
        assert_eq!(view.len(), listed.len() as u64);
        assert_eq!(view.is_empty(), written.is_empty());
        let mut iter = view.iter();
        let mut count = 0;
        while let Some(value) = iter.next() {
            assert_eq!(value, listed[count]);
            assert!(written.contains(value));
            count += 1;
        }
        assert_eq!(count, listed.len());
    }
}

#[test]
fn lazy_lookup_agrees_with_loaded_bitmap() {
    for written in samples() {
        let buffer = bytes(&written);
        let lazy = LazyRoaringBitmap::deserialize_from(&buffer).unwrap();
        let loaded = lazy.load().unwrap();
        let keys: Vec<u16> = loaded.containers().iter().map(|c| c.key).collect();
        assert_eq!(lazy.keys(), keys);
        for container in loaded.containers() {
            let found = lazy.get_container(container.key).unwrap().unwrap();
            assert_eq!(&found, container);
        }
        for key in [0u16, 1, 2, 15, 16, 30, 31, 100, 65_534, 65_535] {
            let found = lazy.get_container(key).unwrap();
            let expected = loaded.containers().iter().find(|c| c.key == key).cloned();
            assert_eq!(found, expected);
        }
    }
}

#[test]
fn two_lookups_give_equal_containers() {
    let written = collect((0..5000).chain(65_536..65_540));
    let buffer = bytes(&written);
    let lazy = LazyRoaringBitmap::deserialize_from(&buffer).unwrap();
    assert_eq!(lazy.get_container(0), lazy.get_container(0));
    assert_eq!(lazy.get_container(1).unwrap().unwrap().store, Store::Array(vec![0, 1, 2, 3]));
    assert_eq!(lazy.info(1).unwrap().len, 4);
    assert_eq!(lazy.info(1).unwrap().offset, 8192);
    assert_eq!(lazy.info(2), None);
    assert_eq!(lazy.payload().len(), 8192 + 8);
}

#[test]
fn three_ways_of_disjointness_agree() {
    let sets = samples();
    for a in &sets {
        for b in &sets {
            let expected = a.to_vec().iter().all(|v| !b.contains(*v));
            let buffer = bytes(b);
            let lazy = LazyRoaringBitmap::deserialize_from(&buffer).unwrap();
            let view = ArchivedRoaringBitmap::from_bytes(&buffer).unwrap();
            assert_eq!(a.is_disjoint(b), expected);
            assert_eq!(a.lazy_is_disjoint(&lazy), Ok(expected));
            assert_eq!(a.archived_is_disjoint(&view), expected);
        }
    }
}

#[test]
fn arrays_apart_are_disjoint_on_every_path() {
    let a = collect(0..2000);
    let b = collect(4000..6000);
    let buffer = bytes(&b);
    assert!(a.is_disjoint(&b));
    let lazy = LazyRoaringBitmap::deserialize_from(&buffer).unwrap();
    assert_eq!(a.lazy_is_disjoint(&lazy), Ok(true));
    assert!(a.archived_is_disjoint(&ArchivedRoaringBitmap::from_bytes(&buffer).unwrap()));
}

#[test]
fn overlapping_bitmaps_are_not_disjoint_on_any_path() {
    let a = collect(0..10_000);
    let b = collect(5000..15_000);
    let buffer = bytes(&b);
    assert!(!a.is_disjoint(&b));
    assert_eq!(
        a.lazy_is_disjoint(&LazyRoaringBitmap::deserialize_from(&buffer).unwrap()),
        Ok(false)
    );
    assert!(!a.archived_is_disjoint(&ArchivedRoaringBitmap::from_bytes(&buffer).unwrap()));
}

#[test]
fn array_against_bitmap() {
    let array = collect(vec![3, 9_999, 20_000].into_iter());
    let bitmap = collect(5000..15_000);
    assert!(!array.is_disjoint(&bitmap));
    assert!(!bitmap.is_disjoint(&array));
    let array = collect(vec![3, 4_999, 15_000].into_iter());
    assert!(array.is_disjoint(&bitmap));
    assert!(bitmap.is_disjoint(&array));
    let buffer = bytes(&bitmap);
    let view = ArchivedRoaringBitmap::from_bytes(&buffer).unwrap();
    assert!(array.archived_is_disjoint(&view));
    let buffer = bytes(&array);
    let view = ArchivedRoaringBitmap::from_bytes(&buffer).unwrap();
    assert!(bitmap.archived_is_disjoint(&view));
}

#[test]
fn lazy_disjointness_stops_at_the_first_refused_container() {
    // the other side: key 0 sound, key 1 corrupt
    let buffer = vec![
        0x3a, 0x30, 0, 0, 2, 0, 0, 0, // header
        0, 0, 0, 0, 1, 0, 1, 0, // directory
        0, 0, 0, 0, 2, 0, 0, 0, // offsets
        5, 0, 2, 0, 1, 0, // payload
    ];
    let lazy = LazyRoaringBitmap::deserialize_from(&buffer).unwrap();
    // a shared member under key 0 is found before key 1 is decoded
    let shares = collect(vec![5, 65_536 + 1].into_iter());
    assert_eq!(shares.lazy_is_disjoint(&lazy), Ok(false));
    // without it, the corrupt container ends the comparison
    let reaches = collect(vec![6, 65_536 + 1].into_iter());
    assert_eq!(reaches.lazy_is_disjoint(&lazy), Err(Error::Corrupt));
    // a bitmap that has no container under key 1 never decodes it
    let avoids = collect(vec![6, 131_072].into_iter());
    assert_eq!(avoids.lazy_is_disjoint(&lazy), Ok(true));
}

#[test]
fn insert_and_contains() {
    let mut bitmap = RoaringBitmap::new();
    assert!(bitmap.insert(70_000));
    assert!(bitmap.insert(3));
    assert!(!bitmap.insert(3));
    assert!(bitmap.insert(u32::MAX));
    assert!(bitmap.insert(1));
    assert!(bitmap.contains(3));
    assert!(bitmap.contains(70_000));
    assert!(bitmap.contains(u32::MAX));
    assert!(!bitmap.contains(2));
    assert!(!bitmap.contains(65_536 + 3));
    assert_eq!(bitmap.len(), 4);
    assert_eq!(bitmap.to_vec(), vec![1, 3, 70_000, u32::MAX]);
    let keys: Vec<u16> = bitmap.containers().iter().map(|c| c.key).collect();
    assert_eq!(keys, vec![0, 1, 65_535]);
}

#[test]
fn insert_in_any_order_gives_the_same_bitmap() {
    let ascending = collect(0..6000);
    let descending = collect((0..6000).rev());
    assert_eq!(ascending, descending);
    let mut twice = collect(0..6000);
    for v in 0..6000 {
        assert!(!twice.insert(v));
    }
    assert_eq!(twice, ascending);
    assert_eq!(twice.len(), 6000);
}

#[test]
fn archived_store_reader() {
    let written = collect((10..13).chain(65_536..65_536 + 5000));
    let buffer = bytes(&written);
    let view = ArchivedRoaringBitmap::from_bytes(&buffer).unwrap();
    let containers = view.containers();
    let mut reader = containers[0].store.iter();
    assert_eq!(reader.next(), Some(10));
    assert_eq!(reader.next(), Some(11));
    assert_eq!(reader.next(), Some(12));
    assert_eq!(reader.next(), None);
    assert_eq!(reader.next(), None);
    let mut reader = containers[1].store.iter();
    for low in 0..5000u16 {
        assert_eq!(reader.next(), Some(low));
    }
    assert_eq!(reader.next(), None);
    assert!(containers[1].store.as_ref().contains(4999));
    assert!(!containers[1].store.as_ref().contains(5000));
    assert!(containers[0].store.as_ref().contains(11));
    assert!(!containers[0].store.as_ref().contains(13));
}
