//! The archived view: the containers of a serialized bitmap, read where they
//! lie. A view is made once, from a buffer that is checked as it is made;
//! after that no operation on it can fail, and none copies a payload.

use super::container::models;
use super::inherent::RoaringBitmap;
use super::lazy::{lemma_gap, LazyRoaringBitmap};
use super::model::{
    cardinality, containers_wf, disjoint, find, has_key, lemma_card_bound, lemma_cardinality_step,
    lemma_keys_above, lemma_pairwise_disjoint, lemma_shared_member, lemma_values_at,
    lemma_values_len, members, values, ContainerModel, StoreModel, ARRAY_LIMIT, BITMAP_BYTES,
};
use super::view::{append_values, Shorts, StoreIter, StoreRef, Words};
use super::wire::{
    array_at, decode, lemma_loaded_error, lemma_loaded_skip, load, loaded, read, words_at,
    ContainerInfo,
};
use crate::error::Error;
use vstd::prelude::*;

verus! {

/// A store that lies in a serialized buffer.
#[derive(Clone, Copy, Debug)]
pub enum ArchivedStore<'a> {
    /// The members in increasing order, two little-endian bytes each.
    Array(&'a [u8]),
    /// 1024 little-endian words of eight bytes, and the number of set bits.
    Bitmap { len: u64, bits: &'a [u8] },
}

impl<'a> View for ArchivedStore<'a> {
    type V = StoreModel;

    open spec fn view(&self) -> StoreModel {
        match self {
            ArchivedStore::Array(bytes) => StoreModel::Array(Shorts::Le(*bytes)@),
            ArchivedStore::Bitmap { len, bits } => StoreModel::Bitmap {
                len: *len as nat,
                words: Words::Le(*bits)@,
            },
        }
    }
}

impl<'a> ArchivedStore<'a> {
    /// The store, borrowed.
    pub fn as_ref(&self) -> (r: StoreRef<'a>)
        ensures
            r@ == self@,
    {
        match self {
            ArchivedStore::Array(bytes) => StoreRef::Array(Shorts::Le(*bytes)),
            ArchivedStore::Bitmap { len, bits } => StoreRef::Bitmap {
                len: *len,
                words: Words::Le(*bits),
            },
        }
    }

    /// A reader of the members, in increasing order: over the integers of
    /// an array as they lie, over the set bits of a bitmap.
    pub fn iter(&self) -> (it: StoreIter<'a>)
        requires
            self@.wf(),
        ensures
            it.wf(),
            it.source() == self@,
            it.position() == 0,
    {
        self.as_ref().iter()
    }

    /// The number of members: for an array the number of its integers, for a
    /// bitmap the number that is stored with it.
    pub fn len(&self) -> (n: u64)
        ensures
            n == self@.card(),
    {
        match self {
            ArchivedStore::Array(bytes) => (bytes.len() / 2) as u64,
            ArchivedStore::Bitmap { len, bits } => *len,
        }
    }
}

/// A container that lies in a serialized buffer.
#[derive(Clone, Copy, Debug)]
pub struct ArchivedContainer<'a> {
    pub key: u16,
    pub store: ArchivedStore<'a>,
}

impl<'a> View for ArchivedContainer<'a> {
    type V = ContainerModel;

    open spec fn view(&self) -> ContainerModel {
        ContainerModel { key: self.key, store: self.store@ }
    }
}

impl<'a> ArchivedContainer<'a> {
    /// The number of members.
    pub fn len(&self) -> (n: u64)
        ensures
            n == self@.store.card(),
    {
        self.store.len()
    }
}

/// The containers as mathematical values.
pub open spec fn archived_models(cs: Seq<ArchivedContainer<'_>>) -> Seq<ContainerModel> {
    cs.map_values(|c: ArchivedContainer<'_>| c@)
}

/// Checks the payload of one container where it lies in the payload region,
/// and borrows it.
fn archive_store<'a>(region: &'a [u8], info: ContainerInfo) -> (r: Result<
    ArchivedStore<'a>,
    Error,
>)
    requires
        1 <= info.len <= 65536,
    ensures
        match r {
            Ok(store) => decode(region@, info) == Ok::<_, Error>(store@) && store@.wf(),
            Err(e) => decode(region@, info) == Err::<StoreModel, _>(e),
        },
{
    let room: u64 = region.len() as u64;
    let start: u64 = info.offset as u64;
    if info.len <= ARRAY_LIMIT {
        if start + 2 * (info.len as u64) > room {
            return Err(Error::Truncated);
        }
        let at: usize = info.offset as usize;
        let bytes = vstd::slice::slice_subrange(region, at, at + 2 * info.len);
        let values = Shorts::Le(bytes);
        assert(values@ == array_at(region@, at as int, info.len as nat));
        if !values.is_strictly_increasing() {
            return Err(Error::Corrupt);
        }
        Ok(ArchivedStore::Array(bytes))
    } else {
        if start + (BITMAP_BYTES as u64) > room {
            return Err(Error::Truncated);
        }
        let at: usize = info.offset as usize;
        let bits = vstd::slice::slice_subrange(region, at, at + BITMAP_BYTES);
        let words = Words::Le(bits);
        assert(words@ == words_at(region@, at as int));
        if words.count_set_bits() != info.len as u64 {
            return Err(Error::Corrupt);
        }
        Ok(ArchivedStore::Bitmap { len: info.len as u64, bits })
    }
}

/// The containers of a serialized bitmap, read in place.
#[derive(Clone, Debug)]
pub struct ArchivedRoaringBitmap<'a> {
    containers: Vec<ArchivedContainer<'a>>,
}

impl<'a> View for ArchivedRoaringBitmap<'a> {
    type V = Seq<ContainerModel>;

    closed spec fn view(&self) -> Seq<ContainerModel> {
        archived_models(self.containers@)
    }
}

impl<'a> ArchivedRoaringBitmap<'a> {
    /// The keys increase strictly and every store is well formed.
    pub open spec fn wf(&self) -> bool {
        containers_wf(self@)
    }

    /// The view of the containers of a lazy index. Every payload is checked
    /// as `get_container` checks it, in the order of the keys, and the first
    /// error ends the work; no payload is copied.
    pub fn from_lazy(lazy: &LazyRoaringBitmap<'a>) -> (r: Result<ArchivedRoaringBitmap<'a>, Error>)
        requires
            lazy.wf(),
        ensures
            match r {
                Ok(view) => load(lazy@) == Ok::<_, Error>(view@) && view.wf(),
                Err(e) => load(lazy@) == Err::<Seq<ContainerModel>, _>(e),
            },
    {
        let region = lazy.payload();
        let keys = lazy.keys();
        let mut containers: Vec<ArchivedContainer<'a>> = Vec::new();
        let mut i: usize = 0;
        let ghost mut next: nat = 0;
        assert(archived_models(containers@) == Seq::<ContainerModel>::empty());
        while i < keys.len()
            invariant
                i <= keys@.len(),
                next <= 65536,
                lazy.wf(),
                region@ == lazy@.payload,
                keys@.to_set() == lazy@.index.dom(),
                forall|i: int, j: int| 0 <= i < j < keys@.len() ==> keys@[i] < keys@[j],
                forall|j: int| 0 <= j < i ==> keys@[j] < next,
                forall|j: int| i <= j < keys@.len() ==> keys@[j] >= next,
                loaded(lazy@, next) == Ok::<_, Error>(archived_models(containers@)),
                containers_wf(archived_models(containers@)),
                forall|j: int| 0 <= j < containers@.len() ==> containers@[j].key < next,
            decreases keys@.len() - i,
        {
            let ghost before = archived_models(containers@);
            let key: u16 = keys[i];
            proof {
                lemma_gap(lazy@.index, keys@, i as int, next, key as nat);
                lemma_loaded_skip(lazy@, next, key as nat);
            }
            match lazy.info(key) {
                None => {},
                Some(info) => {
                    assert(lazy@.index.contains_key(key));
                    match archive_store(region, info) {
                        Err(e) => {
                            proof {
                                lemma_loaded_error(lazy@, (key + 1) as nat, 65536);
                            }
                            return Err(e);
                        },
                        Ok(store) => {
                            let c = ArchivedContainer { key, store };
                            containers.push(c);
                            assert(archived_models(containers@) == before.push(c@));
                        },
                    }
                },
            }
            proof {
                next = (key + 1) as nat;
                assert forall|j: int| 0 <= j < i + 1 implies keys@[j] < next by {
                    if j < i {
                        assert(keys@[j] < keys@[i as int]);
                    }
                }
                assert forall|j: int| i + 1 <= j < keys@.len() implies keys@[j] >= next by {
                    assert(keys@[i as int] < keys@[j]);
                }
            }
            i += 1;
        }
        proof {
            lemma_gap(lazy@.index, keys@, i as int, next, 65536);
            lemma_loaded_skip(lazy@, next, 65536);
        }
        Ok(ArchivedRoaringBitmap { containers })
    }

    /// The view of a serialized bitmap: the buffer is parsed as the lazy
    /// index parses it, and every payload is checked.
    pub fn from_bytes(data: &'a [u8]) -> (r: Result<ArchivedRoaringBitmap<'a>, Error>)
        ensures
            match r {
                Ok(view) => read(data@) == Ok::<_, Error>(view@) && view.wf(),
                Err(e) => read(data@) == Err::<Seq<ContainerModel>, _>(e),
            },
    {
        match LazyRoaringBitmap::deserialize_from(data) {
            Err(e) => Err(e),
            Ok(lazy) => ArchivedRoaringBitmap::from_lazy(&lazy),
        }
    }

    /// The containers, in the order of their keys.
    pub fn containers(&self) -> (r: &[ArchivedContainer<'a>])
        ensures
            archived_models(r@) == self@,
    {
        self.containers.as_slice()
    }

    /// The container with the given key, found by bisection; nothing where
    /// no container has the key.
    pub fn get(&self, key: u16) -> (r: Option<ArchivedContainer<'a>>)
        requires
            self.wf(),
        ensures
            match r {
                Some(c) => find(self@, key) == Some(c@),
                None => find(self@, key).is_none(),
            },
    {
        let ghost cs = self@;
        let mut lo: usize = 0;
        let mut hi: usize = self.containers.len();
        while lo < hi
            invariant
                lo <= hi <= self.containers@.len(),
                cs == archived_models(self.containers@),
                containers_wf(cs),
                forall|i: int| 0 <= i < lo ==> (#[trigger] cs[i]).key < key,
                forall|i: int| hi <= i < cs.len() ==> (#[trigger] cs[i]).key > key,
            decreases hi - lo,
        {
            let mid: usize = lo + (hi - lo) / 2;
            let c = self.containers[mid];
            assert(cs[mid as int] == c@);
            if c.key == key {
                proof {
                    assert(has_key(cs, key));
                    let i = choose|i: int| 0 <= i < cs.len() && (#[trigger] cs[i]).key == key;
                    if i < mid {
                        assert(cs[i].key < cs[mid as int].key);
                    } else if mid < i {
                        assert(cs[mid as int].key < cs[i].key);
                    }
                }
                return Some(c);
            } else if c.key < key {
                assert forall|i: int| 0 <= i < mid + 1 implies (#[trigger] cs[i]).key < key by {
                    if i < mid {
                        assert(cs[i].key < cs[mid as int].key);
                    }
                }
                lo = mid + 1;
            } else {
                assert forall|i: int| mid <= i < cs.len() implies (#[trigger] cs[i]).key > key by {
                    if mid < i {
                        assert(cs[mid as int].key < cs[i].key);
                    }
                }
                hi = mid;
            }
        }
        proof {
            if has_key(cs, key) {
                let i = choose|i: int| 0 <= i < cs.len() && (#[trigger] cs[i]).key == key;
                if i < lo {
                    assert(cs[i].key < key);
                } else {
                    assert(cs[i].key > key);
                }
            }
        }
        None
    }

    /// The members in increasing order, one at a time.
    pub fn iter(&self) -> (it: Iter<'_>)
        requires
            self.wf(),
        ensures
            it.wf(),
            it.source() == self@,
            it.position() == 0,
    {
        Iter::new(self.containers.as_slice())
    }

    /// The number of members: the sum of the containers' cardinalities.
    pub fn len(&self) -> (n: u64)
        requires
            self.wf(),
        ensures
            n == cardinality(self@),
            n == members(self@).len(),
    {
        proof {
            super::laws::lemma_cardinality_counts_members(self@);
        }
        sum_of_lens(self.containers.as_slice())
    }

    /// Whether the view has no container.
    pub fn is_empty(&self) -> (r: bool)
        ensures
            r == (self@.len() == 0),
    {
        self.containers.len() == 0
    }

    /// The members in increasing order.
    pub fn to_vec(&self) -> (r: Vec<u32>)
        requires
            self.wf(),
        ensures
            r@ == values(self@),
    {
        let mut out: Vec<u32> = Vec::new();
        let mut i: usize = 0;
        while i < self.containers.len()
            invariant
                i <= self.containers@.len(),
                self.wf(),
                self@ == archived_models(self.containers@),
                out@ == values(self@.take(i as int)),
            decreases self.containers@.len() - i,
        {
            let c = &self.containers[i];
            assert(self@[i as int] == c@);
            proof {
                lemma_cardinality_step(self@, i as int);
            }
            append_values(&mut out, c.key, &c.store.as_ref());
            i += 1;
        }
        assert(self@.take(i as int) == self@);
        out
    }
}

/// The sum of the containers' cardinalities.
fn sum_of_lens(containers: &[ArchivedContainer<'_>]) -> (n: u64)
    requires
        containers_wf(archived_models(containers@)),
    ensures
        n == cardinality(archived_models(containers@)),
        n <= 65536 * 65536,
{
    let ghost cs = archived_models(containers@);
    let mut total: u64 = 0;
    let mut i: usize = 0;
    proof {
        if cs.len() > 0 {
            lemma_keys_above(cs, cs.len() - 1);
        }
    }
    while i < containers.len()
        invariant
            i <= containers@.len() <= 65536,
            cs == archived_models(containers@),
            containers_wf(cs),
            total == cardinality(cs.take(i as int)),
            total <= 65536 * i,
        decreases containers@.len() - i,
    {
        proof {
            lemma_cardinality_step(cs, i as int);
            lemma_card_bound(cs[i as int].store);
        }
        total += containers[i].len();
        i += 1;
    }
    assert(cs.take(i as int) == cs);
    total
}

/// A reader of the members of an archived view, in increasing order.
pub struct Iter<'a> {
    containers: &'a [ArchivedContainer<'a>],
    outer: usize,
    cursor: usize,
    size_hint: u64,
}

impl<'a> Iter<'a> {
    /// The containers that are read.
    pub closed spec fn source(&self) -> Seq<ContainerModel> {
        archived_models(self.containers@)
    }

    /// The number of members that were handed out.
    pub closed spec fn position(&self) -> nat {
        let cs = self.source();
        if self.outer < self.containers@.len() {
            values(cs.take(self.outer as int)).len() + cs[self.outer as int].store.values_upto(
                self.cursor as nat,
            ).len()
        } else {
            values(cs).len()
        }
    }

    /// The reader stands at a place in its containers and knows how many
    /// members are left.
    pub closed spec fn wf(&self) -> bool {
        let cs = self.source();
        &&& containers_wf(cs)
        &&& self.outer <= cs.len()
        &&& self.outer < cs.len() ==> self.cursor <= cs[self.outer as int].store.limit()
        &&& self.size_hint == values(cs).len() - self.position()
    }

    /// All the members, in increasing order.
    pub open spec fn all(&self) -> Seq<u32> {
        values(self.source())
    }

    /// The members that are left.
    pub open spec fn remaining(&self) -> Seq<u32> {
        self.all().skip(self.position() as int)
    }

    /// A reader that stands before the first member of the containers.
    fn new(containers: &'a [ArchivedContainer<'a>]) -> (it: Iter<'a>)
        requires
            containers_wf(archived_models(containers@)),
        ensures
            it.wf(),
            it.source() == archived_models(containers@),
            it.position() == 0,
    {
        let size_hint: u64 = sum_of_lens(containers);
        let it = Iter { containers, outer: 0, cursor: 0, size_hint };
        proof {
            let cs = archived_models(containers@);
            lemma_values_len(cs);
            assert(cs.take(0) == Seq::<ContainerModel>::empty());
            if cs.len() > 0 {
                assert(cs[0].store.values_upto(0).len() == 0);
            }
        }
        it
    }

    /// The next member, if one is left.
    pub fn next(&mut self) -> (r: Option<u32>)
        requires
            old(self).wf(),
        ensures
            final(self).wf(),
            final(self).source() == old(self).source(),
            match r {
                Some(v) => {
                    &&& old(self).position() < old(self).all().len()
                    &&& v == old(self).all()[old(self).position() as int]
                    &&& final(self).position() == old(self).position() + 1
                },
                None => {
                    &&& old(self).position() == old(self).all().len()
                    &&& final(self).position() == old(self).position()
                },
            },
    {
        let ghost cs = self.source();
        loop
            invariant
                self.wf(),
                self.source() == cs,
                cs == old(self).source(),
                self.position() == old(self).position(),
            decreases self.containers@.len() - self.outer,
        {
            if self.outer >= self.containers.len() {
                return None;
            }
            let c = &self.containers[self.outer];
            assert(cs[self.outer as int] == c@);
            proof {
                lemma_values_at(cs, self.outer as int, self.cursor as nat);
            }
            match c.store.as_ref().advance(self.cursor) {
                Some((low, next)) => {
                    proof {
                        lemma_values_at(cs, self.outer as int, next as nat);
                        let upto = cs[self.outer as int].store.values_upto(next as nat);
                        assert(upto[upto.len() - 1] == low);
                    }
                    self.cursor = next;
                    self.size_hint = self.size_hint - 1;
                    return Some((c.key as u32) * 65536 + low as u32);
                },
                None => {
                    proof {
                        if self.outer + 1 < self.containers@.len() {
                            assert(cs[self.outer + 1].store.values_upto(0).len() == 0);
                        } else {
                            assert(cs.take(self.outer + 1) == cs);
                        }
                    }
                    self.outer = self.outer + 1;
                    self.cursor = 0;
                },
            }
        }
    }

    /// The number of members that are left, as a lower and an upper bound.
    /// Both are exact, unless the number does not fit below `usize::MAX`:
    /// then the lower bound is `usize::MAX` and no upper bound is given.
    pub fn size_hint(&self) -> (r: (usize, Option<usize>))
        requires
            self.wf(),
        ensures
            self.remaining().len() < usize::MAX ==> r.0 == self.remaining().len() && r.1 == Some(
                r.0,
            ),
            self.remaining().len() >= usize::MAX ==> r.0 == usize::MAX && r.1.is_none(),
    {
        proof {
            if self.outer < self.containers@.len() {
                lemma_values_at(self.source(), self.outer as int, self.cursor as nat);
            }
        }
        if self.size_hint < usize::MAX as u64 {
            (self.size_hint as usize, Some(self.size_hint as usize))
        } else {
            (usize::MAX, None)
        }
    }
}

impl RoaringBitmap {
    /// Whether this bitmap and an archived one share no member. For each
    /// container of this bitmap, in the order of the keys, the container of
    /// the same key is looked up in the view; a key that the view does not
    /// have is passed over. The answer is given at the first pair that
    /// shares a member.
    pub fn archived_is_disjoint(&self, other: &ArchivedRoaringBitmap<'_>) -> (r: bool)
        requires
            self.wf(),
            other.wf(),
        ensures
            r == disjoint(self@, other@),
    {
        let containers = self.containers();
        let mut i: usize = 0;
        while i < containers.len()
            invariant
                i <= containers@.len(),
                models(containers@) == self@,
                self.wf(),
                other.wf(),
                forall|p: int, q: int|
                    0 <= p < i && 0 <= q < other@.len() && (#[trigger] self@[p]).key == (
                    #[trigger] other@[q]).key ==> self@[p].store.disjoint(other@[q].store),
            decreases containers@.len() - i,
        {
            let container = &containers[i];
            assert(self@[i as int] == container@);
            assert(self@[i as int].store.wf());
            let found = other.get(container.key);
            proof {
                if has_key(other@, container.key) {
                    let q0 = choose|q: int|
                        0 <= q < other@.len() && (#[trigger] other@[q]).key == container.key;
                    assert(other@[q0].store.wf());
                    assert forall|q: int|
                        0 <= q < other@.len() && (#[trigger] other@[q]).key
                            == container.key implies q == q0 by {
                        if q < q0 {
                            assert(other@[q].key < other@[q0].key);
                        } else if q0 < q {
                            assert(other@[q0].key < other@[q].key);
                        }
                    }
                }
            }
            match found {
                None => {},
                Some(other_container) => {
                    if !container.store.as_ref().is_disjoint(&other_container.store.as_ref()) {
                        proof {
                            let q0 = choose|q: int|
                                0 <= q < other@.len() && (#[trigger] other@[q]).key
                                    == container.key;
                            lemma_shared_member(self@, other@, i as int, q0);
                        }
                        return false;
                    }
                },
            }
            i += 1;
        }
        proof {
            lemma_pairwise_disjoint(self@, other@);
        }
        true
    }
}

} // verus!
