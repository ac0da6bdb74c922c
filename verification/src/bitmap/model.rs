//! What a store, a container and a bitmap are, as mathematical values. The
//! owned types, the lazy index and the borrowed view all describe themselves
//! in these terms, so that one statement covers every way of reading.

use super::bits::{bit_at, bits_below, count_below};
use vstd::prelude::*;

verus! {

/// The largest cardinality that is stored as an array.
pub const ARRAY_LIMIT: usize = 4096;

/// The number of words of a bitmap store.
pub const BITMAP_WORDS: usize = 1024;

/// The number of bytes of a serialized bitmap store.
pub const BITMAP_BYTES: usize = 8192;

/// Each element is smaller than all that follow it.
pub open spec fn strictly_increasing(s: Seq<u16>) -> bool {
    forall|i: int, j: int| 0 <= i < j < s.len() ==> s[i] < s[j]
}

/// The low halves of the members that share one key.
pub enum StoreModel {
    /// The members themselves, in increasing order.
    Array(Seq<u16>),
    /// One bit per possible member, in words of sixty-four, and the number
    /// of set bits.
    Bitmap { len: nat, words: Seq<u64> },
}

impl StoreModel {
    /// The representation is the one that the cardinality calls for, and is
    /// consistent in itself. An empty store is not well formed.
    pub open spec fn wf(self) -> bool {
        match self {
            StoreModel::Array(values) => 1 <= values.len() <= ARRAY_LIMIT && strictly_increasing(
                values,
            ),
            StoreModel::Bitmap { len, words } => words.len() == BITMAP_WORDS && len == count_below(
                words,
                65536,
            ) && len > ARRAY_LIMIT,
        }
    }

    /// The number of members.
    pub open spec fn card(self) -> nat {
        match self {
            StoreModel::Array(values) => values.len(),
            StoreModel::Bitmap { len, words } => len,
        }
    }

    /// Whether `v` is a member.
    pub open spec fn contains(self, v: u16) -> bool {
        match self {
            StoreModel::Array(values) => values.contains(v),
            StoreModel::Bitmap { len, words } => bit_at(words, v as int),
        }
    }

    /// The bound of the positions at which a reader of the store can stand:
    /// an index into the array, or a bit position.
    pub open spec fn limit(self) -> nat {
        match self {
            StoreModel::Array(values) => values.len(),
            StoreModel::Bitmap { len, words } => 65536,
        }
    }

    /// The members that a reader has passed when it stands at `cursor`.
    pub open spec fn values_upto(self, cursor: nat) -> Seq<u16> {
        match self {
            StoreModel::Array(values) => values.take(cursor as int),
            StoreModel::Bitmap { len, words } => bits_below(words, cursor),
        }
    }

    /// The members in increasing order.
    pub open spec fn values(self) -> Seq<u16> {
        self.values_upto(self.limit())
    }

    /// No value is a member of both.
    pub open spec fn disjoint(self, other: StoreModel) -> bool {
        forall|v: u16| !(self.contains(v) && other.contains(v))
    }
}

/// A store and the key that its members share: the member with low half
/// `low` is `key * 65536 + low`.
pub struct ContainerModel {
    pub key: u16,
    pub store: StoreModel,
}

impl ContainerModel {
    /// The members in increasing order.
    pub open spec fn values(self) -> Seq<u32> {
        self.store.values().map_values(|low: u16| (self.key * 65536 + low) as u32)
    }
}

/// The keys increase strictly and every store is well formed.
pub open spec fn containers_wf(cs: Seq<ContainerModel>) -> bool {
    &&& forall|i: int, j: int| 0 <= i < j < cs.len() ==> cs[i].key < cs[j].key
    &&& forall|i: int| 0 <= i < cs.len() ==> (#[trigger] cs[i]).store.wf()
}

/// Whether some container has this key.
pub open spec fn has_key(cs: Seq<ContainerModel>, key: u16) -> bool {
    exists|i: int| 0 <= i < cs.len() && (#[trigger] cs[i]).key == key
}

/// The container with this key, if there is one.
pub open spec fn find(cs: Seq<ContainerModel>, key: u16) -> Option<ContainerModel> {
    if has_key(cs, key) {
        Some(cs[choose|i: int| 0 <= i < cs.len() && (#[trigger] cs[i]).key == key])
    } else {
        None
    }
}

/// Whether `v` is a member of the bitmap made of these containers.
pub open spec fn contains(cs: Seq<ContainerModel>, v: u32) -> bool {
    exists|i: int|
        0 <= i < cs.len() && (#[trigger] cs[i]).key == v / 65536 && cs[i].store.contains(
            (v % 65536) as u16,
        )
}

/// The set of members.
pub open spec fn members(cs: Seq<ContainerModel>) -> Set<u32> {
    Set::new(|v: u32| contains(cs, v))
}

/// The members in the order of the containers, and within a container in
/// increasing order.
pub open spec fn values(cs: Seq<ContainerModel>) -> Seq<u32>
    decreases cs.len(),
{
    if cs.len() == 0 {
        Seq::empty()
    } else {
        values(cs.drop_last()) + cs.last().values()
    }
}

/// The sum of the containers' cardinalities.
pub open spec fn cardinality(cs: Seq<ContainerModel>) -> nat
    decreases cs.len(),
{
    if cs.len() == 0 {
        0
    } else {
        cardinality(cs.drop_last()) + cs.last().store.card()
    }
}

/// No value is a member of both bitmaps.
pub open spec fn disjoint(a: Seq<ContainerModel>, b: Seq<ContainerModel>) -> bool {
    forall|v: u32| !(contains(a, v) && contains(b, v))
}

/// Containers with increasing keys have keys at least as large as their
/// indices.
pub proof fn lemma_keys_above(cs: Seq<ContainerModel>, i: int)
    requires
        forall|i: int, j: int| 0 <= i < j < cs.len() ==> cs[i].key < cs[j].key,
        0 <= i < cs.len(),
    ensures
        cs[i].key >= i,
    decreases i,
{
    if i > 0 {
        lemma_keys_above(cs, i - 1);
        assert(cs[i - 1].key < cs[i].key);
    }
}

/// A well-formed store has between 1 and 65536 members.
pub proof fn lemma_card_bound(s: StoreModel)
    requires
        s.wf(),
    ensures
        1 <= s.card() <= 65536,
{
    match s {
        StoreModel::Array(values) => {},
        StoreModel::Bitmap { len, words } => {
            super::bits::lemma_count_below_bound(words, 65536);
        },
    }
}

/// The cardinality of a prefix that is one longer.
pub proof fn lemma_cardinality_step(cs: Seq<ContainerModel>, n: int)
    requires
        0 <= n < cs.len(),
    ensures
        cardinality(cs.take(n + 1)) == cardinality(cs.take(n)) + cs[n].store.card(),
        values(cs.take(n + 1)) == values(cs.take(n)) + cs[n].values(),
{
    assert(cs.take(n + 1).drop_last() == cs.take(n));
}

/// The value of a member, split into key and low half.
pub proof fn lemma_split(key: u16, low: u16)
    ensures
        (key * 65536 + low) as u32 / 65536 == key,
        (key * 65536 + low) as u32 % 65536 == low,
        key * 65536 + low <= u32::MAX,
{
}

/// Two containers with the same key whose stores share a member make the
/// bitmaps share a member.
pub proof fn lemma_shared_member(
    a: Seq<ContainerModel>,
    b: Seq<ContainerModel>,
    p: int,
    q: int,
)
    requires
        0 <= p < a.len(),
        0 <= q < b.len(),
        a[p].key == b[q].key,
        !a[p].store.disjoint(b[q].store),
    ensures
        !disjoint(a, b),
{
    let low = choose|low: u16| a[p].store.contains(low) && b[q].store.contains(low);
    let v: u32 = (a[p].key * 65536 + low) as u32;
    lemma_split(a[p].key, low);
    assert(contains(a, v));
    assert(contains(b, v));
}

/// Bitmaps in which any two containers with the same key have disjoint
/// stores are disjoint.
pub proof fn lemma_pairwise_disjoint(a: Seq<ContainerModel>, b: Seq<ContainerModel>)
    requires
        forall|p: int, q: int|
            0 <= p < a.len() && 0 <= q < b.len() && (#[trigger] a[p]).key == (#[trigger] b[q]).key
                ==> a[p].store.disjoint(b[q].store),
    ensures
        disjoint(a, b),
{
    assert forall|v: u32| !(contains(a, v) && contains(b, v)) by {
        if contains(a, v) && contains(b, v) {
            let p = choose|p: int|
                0 <= p < a.len() && (#[trigger] a[p]).key == v / 65536 && a[p].store.contains(
                    (v % 65536) as u16,
                );
            let q = choose|q: int|
                0 <= q < b.len() && (#[trigger] b[q]).key == v / 65536 && b[q].store.contains(
                    (v % 65536) as u16,
                );
            assert(a[p].store.disjoint(b[q].store));
        }
    }
}

/// A well-formed store has a member.
pub proof fn lemma_nonempty(s: StoreModel)
    requires
        s.wf(),
    ensures
        exists|low: u16| s.contains(low),
{
    match s {
        StoreModel::Array(values) => {
            assert(values.contains(values[0]));
            assert(s.contains(values[0]));
        },
        StoreModel::Bitmap { len, words } => {
            super::bits::lemma_bits_below_len(words, 65536);
            super::bits::lemma_bits_below_members(words, 65536);
            let low: u16 = bits_below(words, 65536)[0];
            assert(s.contains(low));
        },
    }
}

/// The members that a reader has passed are the first of all the members.
pub proof fn lemma_values_upto_prefix(s: StoreModel, cursor: nat)
    requires
        cursor <= s.limit(),
    ensures
        s.values_upto(cursor).is_prefix_of(s.values()),
{
    match s {
        StoreModel::Array(values) => {
            assert(values.take(values.len() as int) == values);
        },
        StoreModel::Bitmap { len, words } => {
            super::bits::lemma_bits_below_prefix(words, cursor, 65536);
        },
    }
}

/// A well-formed store lists as many members as its cardinality says, in
/// strictly increasing order, and lists exactly the values it contains.
pub proof fn lemma_store_values(s: StoreModel)
    requires
        s.wf(),
    ensures
        s.values().len() == s.card(),
        strictly_increasing(s.values()),
        forall|v: u16| s.values().contains(v) <==> s.contains(v),
{
    match s {
        StoreModel::Array(values) => {
            assert(values.take(values.len() as int) == values);
        },
        StoreModel::Bitmap { len, words } => {
            super::bits::lemma_bits_below_len(words, 65536);
            super::bits::lemma_bits_below_members(words, 65536);
            let listed = bits_below(words, 65536);
            assert forall|v: u16| listed.contains(v) implies bit_at(words, v as int) by {
                let i = choose|i: int| 0 <= i < listed.len() && listed[i] == v;
                assert(bit_at(words, listed[i] as int));
            }
        },
    }
}

/// The members of the first containers are the first members of all.
pub proof fn lemma_values_prefix(cs: Seq<ContainerModel>, n: int)
    requires
        0 <= n <= cs.len(),
    ensures
        values(cs.take(n)).is_prefix_of(values(cs)),
    decreases cs.len() - n,
{
    if n < cs.len() {
        lemma_values_prefix(cs, n + 1);
        lemma_cardinality_step(cs, n);
    } else {
        assert(cs.take(n) == cs);
    }
}

/// The listed members are as many as the cardinalities say.
pub proof fn lemma_values_len(cs: Seq<ContainerModel>)
    requires
        forall|i: int| 0 <= i < cs.len() ==> (#[trigger] cs[i]).store.wf(),
    ensures
        values(cs).len() == cardinality(cs),
    decreases cs.len(),
{
    if cs.len() > 0 {
        lemma_values_len(cs.drop_last());
        lemma_store_values(cs.last().store);
    }
}

/// Where the members that a reader has passed in container `n` stand among
/// all the members.
pub proof fn lemma_values_at(cs: Seq<ContainerModel>, n: int, cursor: nat)
    requires
        0 <= n < cs.len(),
        cursor <= cs[n].store.limit(),
    ensures
        values(cs.take(n)).len() + cs[n].store.values_upto(cursor).len() <= values(
            cs.take(n + 1),
        ).len() <= values(cs).len(),
        values(cs.take(n + 1)).len() == values(cs.take(n)).len() + cs[n].store.values().len(),
        forall|j: int|
            0 <= j < cs[n].store.values_upto(cursor).len() ==> values(cs)[values(
                cs.take(n),
            ).len() + j] == (cs[n].key * 65536 + #[trigger] cs[n].store.values_upto(
                cursor,
            )[j]) as u32,
{
    lemma_values_prefix(cs, n + 1);
    lemma_cardinality_step(cs, n);
    lemma_values_upto_prefix(cs[n].store, cursor);
    let upto = cs[n].store.values_upto(cursor);
    let before = values(cs.take(n));
    assert forall|j: int| 0 <= j < upto.len() implies values(cs)[before.len() + j] == (cs[n].key
        * 65536 + #[trigger] upto[j]) as u32 by {
        assert(cs[n].store.values()[j] == upto[j]);
        assert(cs[n].values()[j] == (cs[n].key * 65536 + upto[j]) as u32);
        assert(values(cs.take(n + 1))[before.len() + j] == cs[n].values()[j]);
    }
}

} // verus!
