use roaring::bitmap::iter::Iter;
use roaring::RoaringBitmap;

fn collect(values: impl Iterator<Item = u32>) -> RoaringBitmap {
    let mut bitmap = RoaringBitmap::new();
    for value in values {
        bitmap.insert(value);
    }
    bitmap
}

struct Members(Iter);

impl Iterator for Members {
    type Item = u32;

    fn next(&mut self) -> Option<u32> {
        self.0.next()
    }

    fn size_hint(&self) -> (usize, Option<usize>) {
        self.0.size_hint()
    }
}

impl DoubleEndedIterator for Members {
    fn next_back(&mut self) -> Option<u32> {
        self.0.next_back()
    }
}

fn members(bitmap: &RoaringBitmap) -> Members {
    Members(bitmap.iter())
}

#[test]
fn iter_array() {
    let original = collect(0..2000);
    let clone = collect(members(&original));
    let clone2 = collect(members(&original.clone()));

    assert_eq!(clone, original);
    assert_eq!(clone2, original);
}

#[test]
fn iter_bitmap() {
    let original = collect(0..6000);
    let clone = collect(members(&original));
    let clone2 = collect(members(&original.clone()));

    assert_eq!(clone, original);
    assert_eq!(clone2, original);
}

#[test]
fn iter_arrays() {
    let original = collect((0..2000).chain(1_000_000..1_002_000).chain(2_000_000..2_001_000));
    let clone = collect(members(&original));
    let clone2 = collect(members(&original.clone()));

    assert_eq!(clone, original);
    assert_eq!(clone2, original);
}

#[test]
fn iter_bitmaps() {
    let original = collect((0..6000).chain(1_000_000..1_012_000).chain(2_000_000..2_010_000));
    let clone = collect(members(&original));
    let clone2 = collect(members(&original.clone()));

    assert_eq!(clone, original);
    assert_eq!(clone2, original);
}

#[test]
fn rev_iter() {
    let input = (1..3).chain(1_000_000..1_012_003).chain(2_000_001..2_000_003);
    let bitmap = collect(input.clone());

    assert!(input.rev().eq(members(&bitmap).rev()));
}

#[derive(Clone, Debug)]
struct OutsideInIter<T>(bool, T);

impl<T, I> Iterator for OutsideInIter<I>
where
    I: DoubleEndedIterator<Item = T>,
{
    type Item = T;

    fn next(&mut self) -> Option<Self::Item> {
        let res = if self.0 { self.1.next() } else { self.1.next_back() };
        self.0 = !self.0;
        res
    }
}

fn outside_in<U, I>(into_iter: I) -> OutsideInIter<U>
where
    U: DoubleEndedIterator,
    I: IntoIterator<IntoIter = U>,
{
    OutsideInIter(true, into_iter.into_iter())
}

// Sanity check that outside_in does what we expect
#[test]
fn outside_in_iterator() {
    let input = 0..10;
    assert!(outside_in(input).eq(vec![0, 9, 1, 8, 2, 7, 3, 6, 4, 5].into_iter()));
}

#[test]
fn interleaved_array() {
    let input = 0..100;
    let bitmap = collect(input.clone());

    assert!(outside_in(input).eq(outside_in(members(&bitmap))));
}

#[test]
fn interleaved_bitmap() {
    let input = 0..=4097;
    let bitmap = collect(input.clone());

    assert!(outside_in(input).eq(outside_in(members(&bitmap))));
}

#[test]
fn iter_forward_and_reversed_mirror_each_other() {
    let bitmap = collect((5..9).chain(70_000..75_000).chain(1 << 30..(1 << 30) + 3));
    let forward: Vec<u32> = members(&bitmap).collect();
    let reversed: Vec<u32> = members(&bitmap).rev().collect();
    let n = forward.len();
    assert_eq!(n, 5007);
    assert_eq!(reversed.len(), n);
    for i in 0..n {
        assert_eq!(forward[i], reversed[n - 1 - i]);
    }
    assert_eq!(bitmap.to_vec(), forward);
}

#[test]
fn iter_size_hint_is_exact() {
    let bitmap = collect(0..10);
    let mut iter = bitmap.iter();
    assert_eq!(iter.size_hint(), (10, Some(10)));
    assert_eq!(iter.next(), Some(0));
    assert_eq!(iter.next_back(), Some(9));
    assert_eq!(iter.size_hint(), (8, Some(8)));
}
