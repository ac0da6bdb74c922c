//! Borrowed stores. A store can lie in memory as native integers, or in a
//! serialized buffer as little-endian bytes; the operations on stores are
//! written once, against either.

use super::bits::{
    bit_at, bits_below, count_below, count_ones, lemma_and_zero, lemma_count_bits_bound,
    lemma_popcount_sum_counts, lemma_zero_word, popcount_sum, test_bit,
    word_bit,
};
use super::le::{get_u16, get_u64, u16_at, u64_at};
use super::model::{strictly_increasing, ContainerModel, StoreModel};
use vstd::prelude::*;

verus! {

/// A borrowed sequence of sixteen-bit integers.
#[derive(Clone, Copy, Debug)]
pub enum Shorts<'a> {
    /// Native integers.
    Native(&'a [u16]),
    /// Little-endian bytes, two for each integer; a last odd byte is not read.
    Le(&'a [u8]),
}

impl<'a> View for Shorts<'a> {
    type V = Seq<u16>;

    open spec fn view(&self) -> Seq<u16> {
        match self {
            Shorts::Native(s) => s@,
            Shorts::Le(b) => Seq::new((b@.len() / 2) as nat, |i: int| u16_at(b@, 2 * i)),
        }
    }
}

/// A sequence whose neighbours increase is strictly increasing.
pub proof fn lemma_neighbours_increase(s: Seq<u16>, i: int, j: int)
    requires
        forall|k: int| 0 < k < s.len() ==> s[k - 1] < #[trigger] s[k],
        0 <= i < j < s.len(),
    ensures
        s[i] < s[j],
    decreases j - i,
{
    if i + 1 < j {
        lemma_neighbours_increase(s, i, j - 1);
    }
}

impl<'a> Shorts<'a> {
    /// Whether each integer is smaller than the next.
    pub fn is_strictly_increasing(&self) -> (r: bool)
        ensures
            r == strictly_increasing(self@),
    {
        let n: usize = self.len();
        let mut k: usize = 1;
        while k < n
            invariant
                1 <= k,
                n == self@.len(),
                forall|m: int| 0 < m < k && m < n ==> self@[m - 1] < #[trigger] self@[m],
            decreases n - k,
        {
            if self.get(k - 1) >= self.get(k) {
                return false;
            }
            k += 1;
        }
        assert forall|i: int, j: int| 0 <= i < j < self@.len() implies self@[i] < self@[j] by {
            lemma_neighbours_increase(self@, i, j);
        }
        true
    }

    /// The number of integers.
    pub fn len(&self) -> (n: usize)
        ensures
            n == self@.len(),
    {
        match self {
            Shorts::Native(s) => s.len(),
            Shorts::Le(b) => b.len() / 2,
        }
    }

    /// The integer at index `i`.
    pub fn get(&self, i: usize) -> (v: u16)
        requires
            i < self@.len(),
        ensures
            v == self@[i as int],
    {
        match self {
            Shorts::Native(s) => s[i],
            Shorts::Le(b) => {
                let n: usize = b.len();
                assert(2 * i + 2 <= n);
                get_u16(b, 2 * i)
            },
        }
    }
}

/// A borrowed sequence of sixty-four-bit words.
#[derive(Clone, Copy, Debug)]
pub enum Words<'a> {
    /// Native integers.
    Native(&'a [u64]),
    /// Little-endian bytes, eight for each word; trailing bytes that do not
    /// fill a word are not read.
    Le(&'a [u8]),
}

impl<'a> View for Words<'a> {
    type V = Seq<u64>;

    open spec fn view(&self) -> Seq<u64> {
        match self {
            Words::Native(s) => s@,
            Words::Le(b) => Seq::new((b@.len() / 8) as nat, |i: int| u64_at(b@, 8 * i)),
        }
    }
}

impl<'a> Words<'a> {
    /// The number of set bits in all the words.
    pub fn count_set_bits(&self) -> (n: u64)
        requires
            self@.len() <= 1024,
        ensures
            n == count_below(self@, 64 * self@.len()),
    {
        let len: usize = self.len();
        let mut total: u64 = 0;
        let mut k: usize = 0;
        while k < len
            invariant
                k <= len == self@.len(),
                len <= 1024,
                total == popcount_sum(self@, k as nat),
                total <= 64 * k,
            decreases len - k,
        {
            let ones: u32 = count_ones(self.get(k));
            proof {
                lemma_count_bits_bound(self@[k as int], 64);
            }
            total += ones as u64;
            k += 1;
        }
        proof {
            lemma_popcount_sum_counts(self@, self@.len());
        }
        total
    }

    /// The number of words.
    pub fn len(&self) -> (n: usize)
        ensures
            n == self@.len(),
    {
        match self {
            Words::Native(s) => s.len(),
            Words::Le(b) => b.len() / 8,
        }
    }

    /// The word at index `i`.
    pub fn get(&self, i: usize) -> (w: u64)
        requires
            i < self@.len(),
        ensures
            w == self@[i as int],
    {
        match self {
            Words::Native(s) => s[i],
            Words::Le(b) => {
                let n: usize = b.len();
                assert(8 * i + 8 <= n);
                get_u64(b, 8 * i)
            },
        }
    }
}

/// A borrowed store.
#[derive(Clone, Copy, Debug)]
pub enum StoreRef<'a> {
    /// The members in increasing order.
    Array(Shorts<'a>),
    /// One bit per possible member, and the number of set bits.
    Bitmap { len: u64, words: Words<'a> },
}

impl<'a> View for StoreRef<'a> {
    type V = StoreModel;

    open spec fn view(&self) -> StoreModel {
        match self {
            StoreRef::Array(values) => StoreModel::Array(values@),
            StoreRef::Bitmap { len, words } => StoreModel::Bitmap {
                len: *len as nat,
                words: words@,
            },
        }
    }
}

impl<'a> StoreRef<'a> {
    /// The number of members.
    pub fn len(&self) -> (n: u64)
        ensures
            n == self@.card(),
    {
        match self {
            StoreRef::Array(values) => values.len() as u64,
            StoreRef::Bitmap { len, words } => *len,
        }
    }

    /// Whether `v` is a member.
    pub fn contains(&self, v: u16) -> (r: bool)
        requires
            self@.wf(),
        ensures
            r == self@.contains(v),
    {
        match self {
            StoreRef::Array(values) => {
                let mut lo: usize = 0;
                let mut hi: usize = values.len();
                while lo < hi
                    invariant
                        lo <= hi <= values@.len(),
                        self@.wf(),
                        self@ == StoreModel::Array(values@),
                        forall|i: int| 0 <= i < lo ==> values@[i] < v,
                        forall|i: int| hi <= i < values@.len() ==> values@[i] > v,
                    decreases hi - lo,
                {
                    let mid: usize = lo + (hi - lo) / 2;
                    let x: u16 = values.get(mid);
                    if x == v {
                        return true;
                    } else if x < v {
                        lo = mid + 1;
                    } else {
                        hi = mid;
                    }
                }
                false
            },
            StoreRef::Bitmap { len, words } => {
                let pos: usize = v as usize;
                let w: u64 = words.get(pos / 64);
                test_bit(w, (pos % 64) as u64)
            },
        }
    }

    /// Whether the two stores share no member. An array is compared with an
    /// array by merging, with a bitmap by testing the bit of each element;
    /// two bitmaps are compared word by word. The answer is given at the
    /// first shared member.
    pub fn is_disjoint(&self, other: &StoreRef<'_>) -> (r: bool)
        requires
            self@.wf(),
            other@.wf(),
        ensures
            r == self@.disjoint(other@),
    {
        match (self, other) {
            (StoreRef::Array(a), StoreRef::Array(b)) => arrays_disjoint(a, b),
            (StoreRef::Array(a), StoreRef::Bitmap { len, words }) => {
                let r = array_bitmap_disjoint(a, words);
                assert(r == self@.disjoint(other@)) by {
                    assert(forall|v: u16| self@.contains(v) == a@.contains(v));
                    assert(forall|v: u16| other@.contains(v) == bit_at(words@, v as int));
                }
                r
            },
            (StoreRef::Bitmap { len, words }, StoreRef::Array(b)) => {
                let r = array_bitmap_disjoint(b, words);
                assert(r == self@.disjoint(other@)) by {
                    assert(forall|v: u16| other@.contains(v) == b@.contains(v));
                    assert(forall|v: u16| self@.contains(v) == bit_at(words@, v as int));
                }
                r
            },
            (StoreRef::Bitmap { len: _, words: a }, StoreRef::Bitmap { len: _, words: b }) => {
                let r = bitmaps_disjoint(a, b);
                assert(r == self@.disjoint(other@)) by {
                    assert(forall|v: u16| self@.contains(v) == bit_at(a@, v as int));
                    assert(forall|v: u16| other@.contains(v) == bit_at(b@, v as int));
                }
                r
            },
        }
    }

    /// The first member at or after the position `cursor`, and the position
    /// behind it; nothing when no member is left. A position is an index
    /// into an array, or a bit position in a bitmap.
    pub fn advance(&self, cursor: usize) -> (r: Option<(u16, usize)>)
        requires
            self@.wf(),
            cursor <= self@.limit(),
        ensures
            match r {
                Some((v, next)) => cursor < next <= self@.limit() && self@.values_upto(next as nat)
                    == self@.values_upto(cursor as nat).push(v),
                None => self@.values() == self@.values_upto(cursor as nat),
            },
    {
        match self {
            StoreRef::Array(values) => {
                if cursor < values.len() {
                    let v: u16 = values.get(cursor);
                    assert(values@.take(cursor + 1) == values@.take(cursor as int).push(v));
                    Some((v, cursor + 1))
                } else {
                    None
                }
            },
            StoreRef::Bitmap { len, words } => {
                let mut c: usize = cursor;
                while c < 65536
                    invariant
                        cursor <= c <= 65536,
                        words@.len() == 1024,
                        self@ == (StoreModel::Bitmap { len: *len as nat, words: words@ }),
                        bits_below(words@, c as nat) == bits_below(words@, cursor as nat),
                    decreases 65536 - c,
                {
                    let k: usize = c / 64;
                    let w: u64 = words.get(k);
                    if w == 0 && c % 64 == 0 {
                        proof {
                            lemma_zero_word(words@, k as nat, 64);
                        }
                        c += 64;
                    } else if test_bit(w, (c % 64) as u64) {
                        assert(bit_at(words@, c as int));
                        assert(bits_below(words@, (c + 1) as nat) == bits_below(
                            words@,
                            c as nat,
                        ).push(c as u16));
                        return Some((c as u16, c + 1));
                    } else {
                        assert(!bit_at(words@, c as int));
                        c += 1;
                    }
                }
                None
            },
        }
    }
}

/// A reader of the members of a store, in increasing order.
#[derive(Clone, Copy, Debug)]
pub struct StoreIter<'a> {
    store: StoreRef<'a>,
    cursor: usize,
}

impl<'a> StoreIter<'a> {
    /// The store that is read.
    pub closed spec fn source(&self) -> StoreModel {
        self.store@
    }

    /// The number of members that were handed out.
    pub closed spec fn position(&self) -> nat {
        self.store@.values_upto(self.cursor as nat).len()
    }

    /// The reader stands at a place in a well-formed store.
    pub closed spec fn wf(&self) -> bool {
        self.store@.wf() && self.cursor <= self.store@.limit()
    }

    /// The members that are left.
    pub open spec fn remaining(&self) -> Seq<u16> {
        self.source().values().skip(self.position() as int)
    }

    /// The next member, if one is left.
    pub fn next(&mut self) -> (r: Option<u16>)
        requires
            old(self).wf(),
        ensures
            final(self).wf(),
            final(self).source() == old(self).source(),
            match r {
                Some(v) => {
                    &&& old(self).position() < old(self).source().values().len()
                    &&& v == old(self).source().values()[old(self).position() as int]
                    &&& final(self).position() == old(self).position() + 1
                },
                None => {
                    &&& old(self).position() == old(self).source().values().len()
                    &&& final(self).position() == old(self).position()
                },
            },
    {
        match self.store.advance(self.cursor) {
            Some((v, next)) => {
                proof {
                    super::model::lemma_values_upto_prefix(self.store@, next as nat);
                    let upto = self.store@.values_upto(next as nat);
                    assert(upto[upto.len() - 1] == v);
                }
                self.cursor = next;
                Some(v)
            },
            None => None,
        }
    }
}

impl<'a> StoreRef<'a> {
    /// A reader of the members, in increasing order.
    pub fn iter(&self) -> (it: StoreIter<'a>)
        requires
            self@.wf(),
        ensures
            it.wf(),
            it.source() == self@,
            it.position() == 0,
    {
        StoreIter { store: *self, cursor: 0 }
    }
}

/// Whether two increasing sequences share no element, by merging them.
fn arrays_disjoint(a: &Shorts<'_>, b: &Shorts<'_>) -> (r: bool)
    requires
        super::model::strictly_increasing(a@),
        super::model::strictly_increasing(b@),
    ensures
        r == StoreModel::Array(a@).disjoint(StoreModel::Array(b@)),
{
    let la: usize = a.len();
    let lb: usize = b.len();
    let mut i: usize = 0;
    let mut j: usize = 0;
    while i < la && j < lb
        invariant
            i <= la == a@.len(),
            j <= lb == b@.len(),
            super::model::strictly_increasing(a@),
            super::model::strictly_increasing(b@),
            forall|p: int, q: int| 0 <= p < i && 0 <= q < lb ==> a@[p] != b@[q],
            forall|p: int, q: int| 0 <= p < la && 0 <= q < j ==> a@[p] != b@[q],
        decreases la - i + lb - j,
    {
        let x: u16 = a.get(i);
        let y: u16 = b.get(j);
        if x == y {
            assert(StoreModel::Array(a@).contains(x) && StoreModel::Array(b@).contains(x));
            return false;
        } else if x < y {
            i += 1;
        } else {
            j += 1;
        }
    }
    assert forall|v: u16| !(StoreModel::Array(a@).contains(v) && StoreModel::Array(b@).contains(
        v,
    )) by {
        if a@.contains(v) && b@.contains(v) {
            let p = choose|p: int| 0 <= p < a@.len() && a@[p] == v;
            let q = choose|q: int| 0 <= q < b@.len() && b@[q] == v;
            assert(a@[p] != b@[q]);
        }
    }
    true
}

/// Whether no element of the sequence has its bit set in the words.
fn array_bitmap_disjoint(a: &Shorts<'_>, words: &Words<'_>) -> (r: bool)
    requires
        words@.len() == 1024,
    ensures
        r == (forall|v: u16| !(a@.contains(v) && bit_at(words@, v as int))),
{
    let la: usize = a.len();
    let mut i: usize = 0;
    while i < la
        invariant
            i <= la == a@.len(),
            words@.len() == 1024,
            forall|p: int| 0 <= p < i ==> !bit_at(words@, (#[trigger] a@[p]) as int),
        decreases la - i,
    {
        let x: u16 = a.get(i);
        let pos: usize = x as usize;
        let w: u64 = words.get(pos / 64);
        if test_bit(w, (pos % 64) as u64) {
            assert(a@.contains(x) && bit_at(words@, x as int));
            return false;
        }
        i += 1;
    }
    assert forall|v: u16| !(a@.contains(v) && bit_at(words@, v as int)) by {
        if a@.contains(v) {
            let p = choose|p: int| 0 <= p < a@.len() && a@[p] == v;
            assert(!bit_at(words@, a@[p] as int));
        }
    }
    true
}

/// Whether no position is set in both rows of words.
fn bitmaps_disjoint(a: &Words<'_>, b: &Words<'_>) -> (r: bool)
    requires
        a@.len() == 1024,
        b@.len() == 1024,
    ensures
        r == (forall|v: u16| !(bit_at(a@, v as int) && bit_at(b@, v as int))),
{
    let mut k: usize = 0;
    while k < 1024
        invariant
            k <= 1024,
            a@.len() == 1024,
            b@.len() == 1024,
            forall|v: u16| v < 64 * k ==> !(bit_at(a@, v as int) && bit_at(b@, v as int)),
        decreases 1024 - k,
    {
        let x: u64 = a.get(k);
        let y: u64 = b.get(k);
        proof {
            lemma_and_zero(x, y);
        }
        if x & y != 0 {
            proof {
                let i = choose|i: u64| i < 64 && word_bit(x, i) && word_bit(y, i);
                let v: u16 = (64 * k + i) as u16;
                assert(v as int / 64 == k as int && v as int % 64 == i as int);
                assert(bit_at(a@, v as int) && bit_at(b@, v as int));
            }
            return false;
        }
        assert forall|v: u16| v < 64 * (k + 1) implies !(bit_at(a@, v as int) && bit_at(
            b@,
            v as int,
        )) by {
            if v >= 64 * k {
                let i: u64 = (v % 64) as u64;
                assert(v as int / 64 == k as int);
                assert(!(word_bit(x, i) && word_bit(y, i)));
            }
        }
        k += 1;
    }
    true
}

/// Appends the members of a container in increasing order.
pub(crate) fn append_values(out: &mut Vec<u32>, key: u16, store: &StoreRef<'_>)
    requires
        store@.wf(),
    ensures
        final(out)@ == old(out)@ + (ContainerModel { key, store: store@ }).values(),
{
    let ghost base = out@;
    let ghost c = ContainerModel { key, store: store@ };
    let high: u32 = (key as u32) * 65536;
    let mut cursor: usize = 0;
    loop
        invariant
            store@.wf(),
            base == old(out)@,
            c == (ContainerModel { key, store: store@ }),
            high == key * 65536,
            cursor <= store@.limit() <= 65536,
            out@ == base + store@.values_upto(cursor as nat).map_values(
                |low: u16| (key * 65536 + low) as u32,
            ),
        decreases store@.limit() - cursor,
    {
        match store.advance(cursor) {
            None => {
                assert(c.values() =~= store@.values_upto(cursor as nat).map_values(
                    |low: u16| (key * 65536 + low) as u32,
                ));
                return ;
            },
            Some((low, next)) => {
                out.push(high + low as u32);
                assert(store@.values_upto(next as nat).map_values(
                    |low: u16| (key * 65536 + low) as u32,
                ) == store@.values_upto(cursor as nat).map_values(
                    |low: u16| (key * 65536 + low) as u32,
                ).push((key * 65536 + low) as u32));
                cursor = next;
            },
        }
    }
}

} // verus!
