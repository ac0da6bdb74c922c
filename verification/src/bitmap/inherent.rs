//! The owned bitmap: containers in the order of their keys.

use super::container::{models, Container};
use super::laws::lemma_cardinality_counts_members;
use super::model::{
    cardinality, containers_wf, contains, disjoint, lemma_cardinality_step, lemma_keys_above,
    lemma_pairwise_disjoint, lemma_shared_member, lemma_split, members, ContainerModel,
};
use vstd::prelude::*;

verus! {

/// A set of `u32` values.
#[derive(Clone, Debug, PartialEq, Eq)]
pub struct RoaringBitmap {
    containers: Vec<Container>,
}

impl View for RoaringBitmap {
    type V = Seq<ContainerModel>;

    closed spec fn view(&self) -> Seq<ContainerModel> {
        models(self.containers@)
    }
}

/// The index of the container with the given key, or else the index at
/// which a container with that key belongs.
fn search(containers: &[Container], key: u16) -> (r: (bool, usize))
    requires
        containers_wf(models(containers@)),
    ensures
        r.1 <= containers@.len(),
        r.0 ==> r.1 < containers@.len() && containers@[r.1 as int].key == key,
        forall|i: int| 0 <= i < r.1 ==> containers@[i].key < key,
        forall|i: int|
            r.1 <= i < containers@.len() && !(r.0 && i == r.1) ==> containers@[i].key > key,
{
    let ghost cs = models(containers@);
    let mut lo: usize = 0;
    let mut hi: usize = containers.len();
    while lo < hi
        invariant
            lo <= hi <= containers@.len(),
            cs == models(containers@),
            containers_wf(cs),
            forall|i: int| 0 <= i < lo ==> containers@[i].key < key,
            forall|i: int| hi <= i < containers@.len() ==> containers@[i].key > key,
        decreases hi - lo,
    {
        let mid: usize = lo + (hi - lo) / 2;
        let k: u16 = containers[mid].key;
        assert(cs[mid as int].key == k);
        if k == key {
            assert forall|i: int| 0 <= i < mid implies containers@[i].key < key by {
                assert(cs[i].key < cs[mid as int].key);
            }
            assert forall|i: int| mid < i < containers@.len() implies containers@[i].key > key by {
                assert(cs[mid as int].key < cs[i].key);
            }
            return (true, mid);
        } else if k < key {
            assert forall|i: int| 0 <= i < mid + 1 implies containers@[i].key < key by {
                if i < mid {
                    assert(cs[i].key < cs[mid as int].key);
                }
            }
            lo = mid + 1;
        } else {
            assert forall|i: int| mid <= i < containers@.len() implies containers@[i].key > key by {
                if i > mid {
                    assert(cs[mid as int].key < cs[i].key);
                }
            }
            hi = mid;
        }
    }
    (false, lo)
}

impl RoaringBitmap {
    /// The keys increase strictly and every store is well formed.
    pub open spec fn wf(&self) -> bool {
        containers_wf(self@)
    }

    /// The empty bitmap.
    pub fn new() -> (b: RoaringBitmap)
        ensures
            b@ == Seq::<ContainerModel>::empty(),
            b.wf(),
    {
        let b = RoaringBitmap { containers: Vec::new() };
        assert(b@ == Seq::<ContainerModel>::empty());
        b
    }

    /// The bitmap made of these containers.
    pub(crate) fn from_containers(containers: Vec<Container>) -> (b: RoaringBitmap)
        requires
            containers_wf(models(containers@)),
        ensures
            b@ == models(containers@),
            b.wf(),
    {
        RoaringBitmap { containers }
    }

    /// The containers, in the order of their keys.
    pub fn containers(&self) -> (r: &[Container])
        ensures
            models(r@) == self@,
    {
        self.containers.as_slice()
    }

    /// Whether the bitmap has no member.
    pub fn is_empty(&self) -> (r: bool)
        requires
            self.wf(),
        ensures
            r == (self@.len() == 0),
            r == members(self@).is_empty(),
    {
        let r = self.containers.len() == 0;
        proof {
            if !r {
                let c = self@[0];
                assert(c.store.wf());
                super::model::lemma_nonempty(c.store);
                let low = choose|low: u16| c.store.contains(low);
                let v: u32 = (c.key * 65536 + low) as u32;
                lemma_split(c.key, low);
                assert(contains(self@, v));
                assert(members(self@).contains(v));
            } else {
                assert(members(self@) =~= Set::<u32>::empty());
            }
        }
        r
    }

    /// The number of members.
    pub fn len(&self) -> (n: u64)
        requires
            self.wf(),
        ensures
            n == cardinality(self@),
            n == members(self@).len(),
    {
        proof {
            lemma_cardinality_counts_members(self@);
        }
        let mut total: u64 = 0;
        let mut i: usize = 0;
        proof {
            if self@.len() > 0 {
                lemma_keys_above(self@, self@.len() - 1);
            }
        }
        while i < self.containers.len()
            invariant
                i <= self.containers@.len() <= 65536,
                self@ == models(self.containers@),
                self.wf(),
                total == cardinality(self@.take(i as int)),
                total <= 65536 * i,
            decreases self.containers@.len() - i,
        {
            proof {
                lemma_cardinality_step(self@, i as int);
                super::model::lemma_card_bound(self@[i as int].store);
            }
            total += self.containers[i].len();
            i += 1;
        }
        assert(self@.take(i as int) == self@);
        total
    }

    /// Whether `value` is a member.
    pub fn contains(&self, value: u32) -> (r: bool)
        requires
            self.wf(),
        ensures
            r == contains(self@, value),
            r == members(self@).contains(value),
    {
        let key: u16 = (value / 65536) as u16;
        let low: u16 = (value % 65536) as u16;
        let (found, at) = search(self.containers.as_slice(), key);
        if found {
            assert(self@[at as int].key == key);
            let r = self.containers[at].store.contains(low);
            proof {
                if contains(self@, value) {
                    let i = choose|i: int|
                        0 <= i < self@.len() && (#[trigger] self@[i]).key == value / 65536
                            && self@[i].store.contains((value % 65536) as u16);
                    assert(i == at) by {
                        if i < at {
                            assert(self.containers@[i].key < key);
                        } else if i > at {
                            assert(self.containers@[i].key > key);
                        }
                    }
                }
            }
            r
        } else {
            proof {
                if contains(self@, value) {
                    let i = choose|i: int|
                        0 <= i < self@.len() && (#[trigger] self@[i]).key == value / 65536
                            && self@[i].store.contains((value % 65536) as u16);
                    if i < at {
                        assert(self.containers@[i].key < key);
                    } else {
                        assert(self.containers@[i].key > key);
                    }
                }
            }
            false
        }
    }

    /// Adds `value`. Returns whether it was new.
    pub fn insert(&mut self, value: u32) -> (added: bool)
        requires
            old(self).wf(),
        ensures
            final(self).wf(),
            added == !members(old(self)@).contains(value),
            members(final(self)@) == members(old(self)@).insert(value),
            cardinality(final(self)@) == cardinality(old(self)@) + if added {
                1nat
            } else {
                0nat
            },
    {
        let added = self.insert_value(value);
        proof {
            lemma_cardinality_counts_members(old(self)@);
            lemma_cardinality_counts_members(self@);
        }
        added
    }

    /// Adds `value` to the container of its key, or makes that container.
    fn insert_value(&mut self, value: u32) -> (added: bool)
        requires
            old(self).wf(),
        ensures
            final(self).wf(),
            added == !contains(old(self)@, value),
            members(final(self)@) == members(old(self)@).insert(value),
    {
        let key: u16 = (value / 65536) as u16;
        let low: u16 = (value % 65536) as u16;
        let ghost before = self@;
        let (found, at) = search(self.containers.as_slice(), key);
        if found {
            let added = self.containers[at].store.insert(low);
            proof {
                let after = self@;
                assert(after.len() == before.len());
                assert forall|i: int| 0 <= i < after.len() && i != at implies after[i]
                    == before[i] by {}
                assert(after[at as int].key == key);
                assert forall|v: u32| contains(after, v) <==> (contains(before, v) || v
                    == value) by {
                    if contains(after, v) {
                        let i = choose|i: int|
                            0 <= i < after.len() && (#[trigger] after[i]).key == v / 65536
                                && after[i].store.contains((v % 65536) as u16);
                        if i != at {
                            assert(before[i].key == v / 65536);
                        } else if v != value {
                            assert(before[i].key == v / 65536);
                            assert(before[i].store.contains((v % 65536) as u16));
                        }
                    }
                    if contains(before, v) {
                        let i = choose|i: int|
                            0 <= i < before.len() && (#[trigger] before[i]).key == v / 65536
                                && before[i].store.contains((v % 65536) as u16);
                        assert(after[i].key == v / 65536);
                        assert(after[i].store.contains((v % 65536) as u16));
                    }
                    if v == value {
                        assert(after[at as int].store.contains(low));
                    }
                }
                assert(members(after) =~= members(before).insert(value));
                assert(contains(before, value) == before[at as int].store.contains(low)) by {
                    if contains(before, value) {
                        let i = choose|i: int|
                            0 <= i < before.len() && (#[trigger] before[i]).key == value / 65536
                                && before[i].store.contains((value % 65536) as u16);
                        if i < at {
                            assert(before[i].key < before[at as int].key);
                        } else if i > at {
                            assert(before[at as int].key < before[i].key);
                        }
                    }
                }
            }
            added
        } else {
            let c = Container::single(key, low);
            self.containers.insert(at, c);
            proof {
                let after = self@;
                assert(after =~= before.insert(at as int, c@));
                assert forall|i: int, j: int| 0 <= i < j < after.len() implies after[i].key
                    < after[j].key by {
                    let bi = if i < at { i } else { i - 1 };
                    let bj = if j < at { j } else { j - 1 };
                    if i != at && j != at {
                        assert(before[bi].key < before[bj].key);
                    } else if i == at {
                        assert(old(self).containers@[bj].key > key);
                    } else {
                        assert(old(self).containers@[bi].key < key);
                    }
                }
                assert forall|i: int| 0 <= i < after.len() implies (
                #[trigger] after[i]).store.wf() by {
                    if i < at {
                        assert(after[i] == before[i]);
                    } else if i > at {
                        assert(after[i] == before[i - 1]);
                    }
                }
                assert forall|v: u32| contains(after, v) <==> (contains(before, v) || v
                    == value) by {
                    if contains(after, v) {
                        let i = choose|i: int|
                            0 <= i < after.len() && (#[trigger] after[i]).key == v / 65536
                                && after[i].store.contains((v % 65536) as u16);
                        if i < at {
                            assert(before[i] == after[i]);
                        } else if i > at {
                            assert(before[i - 1] == after[i]);
                        } else {
                            assert(seq![low].contains((v % 65536) as u16));
                            assert(seq![low][0] == low);
                        }
                    }
                    if contains(before, v) {
                        let i = choose|i: int|
                            0 <= i < before.len() && (#[trigger] before[i]).key == v / 65536
                                && before[i].store.contains((v % 65536) as u16);
                        if i < at {
                            assert(after[i] == before[i]);
                        } else {
                            assert(after[i + 1] == before[i]);
                        }
                    }
                    if v == value {
                        assert(seq![low][0] == low);
                        assert(after[at as int].store.contains(low));
                    }
                }
                assert(members(after) =~= members(before).insert(value));
                if contains(before, value) {
                    let i = choose|i: int|
                        0 <= i < before.len() && (#[trigger] before[i]).key == value / 65536
                            && before[i].store.contains((value % 65536) as u16);
                    if i < at {
                        assert(old(self).containers@[i].key < key);
                    } else {
                        assert(old(self).containers@[i].key > key);
                    }
                }
            }
            true
        }
    }

    /// Whether the two bitmaps share no member. Containers are paired by
    /// key; the answer is given at the first pair that shares a member.
    pub fn is_disjoint(&self, other: &RoaringBitmap) -> (r: bool)
        requires
            self.wf(),
            other.wf(),
        ensures
            r == disjoint(self@, other@),
    {
        let a = self.containers.as_slice();
        let b = other.containers.as_slice();
        let mut i: usize = 0;
        let mut j: usize = 0;
        while i < a.len() && j < b.len()
            invariant
                i <= a@.len(),
                j <= b@.len(),
                models(a@) == self@,
                models(b@) == other@,
                self.wf(),
                other.wf(),
                forall|p: int, q: int|
                    0 <= p < i && 0 <= q < b@.len() && (#[trigger] self@[p]).key == (
                    #[trigger] other@[q]).key ==> self@[p].store.disjoint(other@[q].store),
                forall|p: int, q: int|
                    0 <= p < a@.len() && 0 <= q < j && (#[trigger] self@[p]).key == (
                    #[trigger] other@[q]).key ==> self@[p].store.disjoint(other@[q].store),
            decreases a@.len() - i + b@.len() - j,
        {
            let ka: u16 = a[i].key;
            let kb: u16 = b[j].key;
            assert(self@[i as int].key == ka && other@[j as int].key == kb);
            if ka == kb {
                assert(self@[i as int].store.wf() && other@[j as int].store.wf());
                if !a[i].is_disjoint(&b[j]) {
                    proof {
                        lemma_shared_member(self@, other@, i as int, j as int);
                    }
                    return false;
                }
                assert forall|p: int, q: int|
                    0 <= p < i + 1 && 0 <= q < b@.len() && (#[trigger] self@[p]).key == (
                    #[trigger] other@[q]).key implies self@[p].store.disjoint(other@[q].store) by {
                    if p == i {
                        if q < j {
                            assert(other@[q].key < other@[j as int].key);
                        } else if q > j {
                            assert(other@[j as int].key < other@[q].key);
                        }
                    }
                }
                assert forall|p: int, q: int|
                    0 <= p < a@.len() && 0 <= q < j + 1 && (#[trigger] self@[p]).key == (
                    #[trigger] other@[q]).key implies self@[p].store.disjoint(other@[q].store) by {
                    if q == j {
                        if p < i {
                            assert(self@[p].key < self@[i as int].key);
                        } else if p > i {
                            assert(self@[i as int].key < self@[p].key);
                        }
                    }
                }
                i += 1;
                j += 1;
            } else if ka < kb {
                assert forall|p: int, q: int|
                    0 <= p < i + 1 && 0 <= q < b@.len() && (#[trigger] self@[p]).key == (
                    #[trigger] other@[q]).key implies self@[p].store.disjoint(other@[q].store) by {
                    if p == i && q >= j {
                        if q > j {
                            assert(other@[j as int].key < other@[q].key);
                        }
                    }
                }
                i += 1;
            } else {
                assert forall|p: int, q: int|
                    0 <= p < a@.len() && 0 <= q < j + 1 && (#[trigger] self@[p]).key == (
                    #[trigger] other@[q]).key implies self@[p].store.disjoint(other@[q].store) by {
                    if q == j && p >= i {
                        if p > i {
                            assert(self@[i as int].key < self@[p].key);
                        }
                    }
                }
                j += 1;
            }
        }
        proof {
            lemma_pairwise_disjoint(self@, other@);
        }
        true
    }
}

} // verus!
