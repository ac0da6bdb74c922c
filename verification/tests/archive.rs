use roaring::bitmap::ArchivedRoaringBitmap;
use roaring::RoaringBitmap;

fn collect(values: impl Iterator<Item = u32>) -> RoaringBitmap {
    let mut bitmap = RoaringBitmap::new();
    for value in values {
        bitmap.insert(value);
    }
    bitmap
}

fn bytes(bitmap: &RoaringBitmap) -> Vec<u8> {
    let mut buffer = vec![];
    bitmap.serialize_into(&mut buffer);
    buffer
}

fn archive(bytes: &[u8]) -> ArchivedRoaringBitmap<'_> {
    ArchivedRoaringBitmap::from_bytes(bytes).unwrap()
}

fn from_archived(archived: &ArchivedRoaringBitmap<'_>) -> RoaringBitmap {
    let mut bitmap = RoaringBitmap::new();
    let mut iter = archived.iter();
    while let Some(value) = iter.next() {
        bitmap.insert(value);
    }
    bitmap
}

#[test]
fn archive_array() {
    let original = collect(0..2000);
    let bytes = bytes(&original);
    let archived = archive(&bytes);
    let clone = from_archived(&archived);

    assert_eq!(clone, original);
}

#[test]
fn archive_bitmap() {
    let original = collect(0..100_000);
    let bytes = bytes(&original);
    let archived = archive(&bytes);
    let clone = from_archived(&archived);

    assert_eq!(clone, original);
}

#[test]
fn archive_arrays() {
    let original = collect((0..2000).chain(1_000_000..1_002_000).chain(2_000_000..2_001_000));
    let bytes = bytes(&original);
    let archived = archive(&bytes);
    let clone = from_archived(&archived);

    assert_eq!(clone, original);
}

#[test]
fn archive_bitmaps() {
    let original = collect((0..100_000).chain(1_000_000..1_012_000).chain(2_000_000..2_010_000));
    let bytes = bytes(&original);
    let archived = archive(&bytes);
    let clone = from_archived(&archived);

    assert_eq!(clone, original);
}

#[test]
fn archive_iter_matches_sorted_values() {
    let values: Vec<u32> = vec![0, 1, 7, 65_535, 65_536, 70_000, 1 << 20, u32::MAX - 1, u32::MAX];
    let written = collect(values.iter().cloned());
    let bytes = bytes(&written);
    let archived = archive(&bytes);
    assert_eq!(archived.to_vec(), values);
    let mut iter = archived.iter();
    let mut seen = vec![];
    while let Some(value) = iter.next() {
        seen.push(value);
    }
    assert_eq!(seen, values);
}

#[test]
fn archive_len_and_is_empty() {
    let empty = RoaringBitmap::new();
    let bytes_of_empty = bytes(&empty);
    let archived = archive(&bytes_of_empty);
    assert!(archived.is_empty());
    assert_eq!(archived.len(), 0);
    assert_eq!(archived.iter().next(), None);

    let written = collect((0..5000).chain(70_000..70_010));
    let bytes = bytes(&written);
    let archived = archive(&bytes);
    assert!(!archived.is_empty());
    assert_eq!(archived.len(), 5010);
    assert_eq!(archived.containers().len(), 2);
    assert_eq!(archived.containers()[0].len(), 5000);
    assert_eq!(archived.containers()[1].len(), 10);
    assert_eq!(archived.containers()[1].store.len(), 10);
}

#[test]
fn archive_size_hint_counts_down() {
    let written = collect((10..13).chain(65_536 * 3..65_536 * 3 + 5000));
    let bytes = bytes(&written);
    let archived = archive(&bytes);
    let mut iter = archived.iter();
    assert_eq!(iter.size_hint(), (5003, Some(5003)));
    assert_eq!(iter.next(), Some(10));
    assert_eq!(iter.size_hint(), (5002, Some(5002)));
    assert_eq!(iter.next(), Some(11));
    assert_eq!(iter.next(), Some(12));
    assert_eq!(iter.next(), Some(65_536 * 3));
    assert_eq!(iter.size_hint(), (4999, Some(4999)));
    let mut left = 0;
    while let Some(_) = iter.next() {
        left += 1;
    }
    assert_eq!(left, 4999);
    assert_eq!(iter.size_hint(), (0, Some(0)));
    assert_eq!(iter.next(), None);
    assert_eq!(iter.size_hint(), (0, Some(0)));
}

#[test]
fn archived_is_disjoint_agrees() {
    let a = collect(0..2000);
    let b = collect(4000..6000);
    let c = collect((1999..2001).chain(1_000_000..1_010_000));
    let bytes_b = bytes(&b);
    let bytes_c = bytes(&c);
    assert!(a.archived_is_disjoint(&archive(&bytes_b)));
    assert!(!a.archived_is_disjoint(&archive(&bytes_c)));
    let big1 = collect(0..10000);
    let big2 = collect(5000..15000);
    let bytes_big2 = bytes(&big2);
    assert!(!big1.archived_is_disjoint(&archive(&bytes_big2)));
    assert!(b.archived_is_disjoint(&archive(&bytes_big2)) == false);
}

#[test]
fn archive_forward_and_reversed_mirror_each_other() {
    let written = collect((5..9).chain(70_000..75_000).chain(1 << 30..(1 << 30) + 3));
    let bytes = bytes(&written);
    let archived = archive(&bytes);
    let forward = archived.to_vec();
    let reversed: Vec<u32> = forward.iter().rev().cloned().collect();
    let n = forward.len();
    assert_eq!(n, 5007);
    for i in 0..n {
        assert_eq!(forward[i], reversed[n - 1 - i]);
    }
    let mut from_back = vec![];
    let mut owned = written.iter();
    while let Some(value) = owned.next_back() {
        from_back.push(value);
    }
    assert_eq!(from_back, reversed);
}

#[test]
fn archive_get_by_key() {
    let written =
        collect((0..3).chain(65_536 * 4..65_536 * 4 + 5000).chain(65_536 * 9..65_536 * 9 + 1));
    let bytes = bytes(&written);
    let archived = archive(&bytes);
    assert_eq!(archived.get(0).unwrap().len(), 3);
    assert_eq!(archived.get(4).unwrap().key, 4);
    assert_eq!(archived.get(4).unwrap().len(), 5000);
    assert_eq!(archived.get(9).unwrap().len(), 1);
    assert!(archived.get(1).is_none());
    assert!(archived.get(5).is_none());
    assert!(archived.get(65_535).is_none());
    let empty = RoaringBitmap::new();
    let bytes = self::bytes(&empty);
    assert!(archive(&bytes).get(0).is_none());
}
