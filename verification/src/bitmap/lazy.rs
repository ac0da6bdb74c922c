//! The lazy index: the tables of a serialized bitmap are read at once, the
//! payload of a container only when its key is asked for.

use super::container::{models, Container};
use super::inherent::RoaringBitmap;
use super::le::{fill_u16, fill_u64, get_u16, get_u32};
use super::model::{containers_wf, ContainerModel, ARRAY_LIMIT, BITMAP_WORDS};
use super::store::Store;
use super::wire::{
    array_at, decode, entry, get, header, index_upto, lazy_disjoint_upto, lazy_wf,
    lemma_index_wf, lemma_lazy_disjoint_ended, lemma_loaded_error, lemma_loaded_skip, load, loaded,
    parse, read, words_at, ContainerInfo,
    LazyModel, MAX_CONTAINERS, SERIAL_COOKIE, SERIAL_COOKIE_NO_RUNCONTAINER,
};
use crate::error::Error;
use std::collections::BTreeMap;
use vstd::prelude::*;
use vstd::std_specs::btree::{increasing_seq, spec_keys_iter};
use vstd::std_specs::cmp::OrdSpec;
use vstd::std_specs::iter::IteratorSpec;

verus! {

/// A serialized bitmap whose containers are decoded on request. Nothing is
/// kept between requests: two requests for one key decode twice.
pub struct LazyRoaringBitmap<'a> {
    containers: BTreeMap<u16, ContainerInfo>,
    data: &'a [u8],
}

impl<'a> View for LazyRoaringBitmap<'a> {
    type V = LazyModel;

    closed spec fn view(&self) -> LazyModel {
        LazyModel { index: self.containers@, payload: self.data@ }
    }
}

/// Records what the tables say of `key`; a later entry replaces an earlier
/// one.
fn index_insert(index: &mut BTreeMap<u16, ContainerInfo>, key: u16, info: ContainerInfo)
    ensures
        final(index)@ == old(index)@.insert(key, info),
{
    index.insert(key, info);
}

/// What the tables say of `key`.
fn index_get(index: &BTreeMap<u16, ContainerInfo>, key: u16) -> (r: Option<ContainerInfo>)
    ensures
        match r {
            Some(info) => index@.contains_key(key) && index@[key] == info,
            None => !index@.contains_key(key),
        },
{
    match index.get(&key) {
        Some(info) => Some(*info),
        None => None,
    }
}

/// References in the order of a map's keys point to increasing integers.
proof fn lemma_increasing_refs(s: Seq<&u16>)
    requires
        increasing_seq(s),
    ensures
        forall|i: int, j: int| 0 <= i < j < s.len() ==> *s[i] < *s[j],
{
    broadcast use vstd::laws_cmp::group_laws_cmp;
    reveal(vstd::laws_cmp::obeys_cmp_partial_ord);
    reveal(vstd::laws_cmp::obeys_cmp_ord);
    assert(vstd::laws_cmp::obeys_cmp::<u16>());
    assert(vstd::laws_cmp::obeys_cmp::<&u16>());
    vstd::std_specs::btree::axiom_increasing_seq_meaning::<&u16>(s);
    assert forall|i: int, j: int| 0 <= i < j < s.len() implies *s[i] < *s[j] by {
        assert(OrdSpec::cmp_spec(&s[i], &s[j]) is Less);
    }
}

/// The keys that the tables name, in increasing order.
fn index_keys(index: &BTreeMap<u16, ContainerInfo>) -> (keys: Vec<u16>)
    ensures
        keys@.to_set() == index@.dom(),
        forall|i: int, j: int| 0 <= i < j < keys@.len() ==> keys@[i] < keys@[j],
{
    let mut keys: Vec<u16> = Vec::new();
    for key in it: index.keys()
        invariant
            keys@.len() == it.index(),
            it.seq() == spec_keys_iter(index).remaining(),
            forall|i: int| 0 <= i < keys@.len() ==> keys@[i] == *it.seq()[i],
    {
        keys.push(*key);
    }
    proof {
        vstd::std_specs::btree::axiom_spec_keys_iter(index);
        lemma_increasing_refs(spec_keys_iter(index).remaining());
        assert(keys@ =~= spec_keys_iter(index).remaining().unref());
    }
    keys
}

/// No key at or above `next` and below `key` is named by the tables, where
/// `keys` lists the named keys in increasing order, those before index `i`
/// are below `next`, and `key` is the one at index `i` or, past the end,
/// any bound.
pub proof fn lemma_gap(index: Map<u16, ContainerInfo>, keys: Seq<u16>, i: int, next: nat, key: nat)
    requires
        keys.to_set() == index.dom(),
        forall|i: int, j: int| 0 <= i < j < keys.len() ==> keys[i] < keys[j],
        0 <= i <= keys.len(),
        forall|j: int| 0 <= j < i ==> keys[j] < next,
        i < keys.len() ==> key == keys[i],
    ensures
        forall|k: u16| next <= k < key ==> !index.contains_key(k),
{
    assert forall|k: u16| next <= k < key implies !index.contains_key(k) by {
        if index.contains_key(k) {
            assert(keys.to_set().contains(k));
            assert(keys.contains(k));
            let j = choose|j: int| 0 <= j < keys.len() && keys[j] == k;
            if j > i {
                assert(keys[i] < keys[j]);
            }
        }
    }
}

/// Decodes the payload of one container from the payload region.
fn decode_store(region: &[u8], info: ContainerInfo) -> (r: Result<Store, Error>)
    requires
        1 <= info.len <= 65536,
    ensures
        match r {
            Ok(store) => decode(region@, info) == Ok::<_, Error>(store@) && store@.wf(),
            Err(e) => decode(region@, info) == Err::<super::model::StoreModel, _>(e),
        },
{
    let room: u64 = region.len() as u64;
    let start: u64 = info.offset as u64;
    if info.len <= ARRAY_LIMIT {
        if start + 2 * (info.len as u64) > room {
            return Err(Error::Truncated);
        }
        let at: usize = info.offset as usize;
        let bytes = vstd::slice::slice_subrange(region, at, at + 2 * info.len);
        let mut values: Vec<u16> = vec![0u16; info.len];
        fill_u16(&mut values, bytes);
        assert(values@ == array_at(region@, at as int, info.len as nat));
        Store::array(values)
    } else {
        if start + 8 * (BITMAP_WORDS as u64) > room {
            return Err(Error::Truncated);
        }
        let at: usize = info.offset as usize;
        let bytes = vstd::slice::slice_subrange(region, at, at + 8 * BITMAP_WORDS);
        let mut bits: Vec<u64> = vec![0u64; BITMAP_WORDS];
        fill_u64(&mut bits, bytes);
        assert(bits@ == words_at(region@, at as int));
        Store::bitmap(info.len as u64, bits)
    }
}

impl<'a> LazyRoaringBitmap<'a> {
    /// Every cardinality in the tables is between 1 and 65536.
    pub open spec fn wf(&self) -> bool {
        lazy_wf(self@)
    }

    /// Reads the header, the directory and the offsets table of a serialized
    /// bitmap. No payload is read.
    pub fn deserialize_from(data: &'a [u8]) -> (r: Result<LazyRoaringBitmap<'a>, Error>)
        ensures
            match r {
                Ok(lazy) => parse(data@) == Ok::<_, Error>(lazy@) && lazy.wf(),
                Err(e) => parse(data@) == Err::<LazyModel, _>(e),
            },
    {
        let n: usize = data.len();
        if n < 4 {
            return Err(Error::Truncated);
        }
        let cookie: u32 = get_u32(data, 0);
        if cookie != SERIAL_COOKIE_NO_RUNCONTAINER {
            if cookie % 65536 == SERIAL_COOKIE as u32 {
                return Err(Error::RunContainersUnsupported);
            }
            return Err(Error::UnknownCookie);
        }
        if n < 8 {
            return Err(Error::Truncated);
        }
        let declared: u32 = get_u32(data, 4);
        if declared > MAX_CONTAINERS as u32 {
            return Err(Error::SizeOutOfRange);
        }
        let size: usize = declared as usize;
        if n < 8 + 8 * size {
            return Err(Error::Truncated);
        }
        let mut containers: BTreeMap<u16, ContainerInfo> = BTreeMap::new();
        let mut i: usize = 0;
        while i < size
            invariant
                i <= size <= MAX_CONTAINERS,
                8 + 8 * size <= n == data@.len(),
                containers@ == index_upto(data@, size as nat, i as nat),
            decreases size - i,
        {
            let key: u16 = get_u16(data, 8 + 4 * i);
            let len: usize = get_u16(data, 8 + 4 * i + 2) as usize + 1;
            let offset: u32 = get_u32(data, 8 + 4 * size + 4 * i);
            index_insert(&mut containers, key, ContainerInfo { len, offset });
            assert(entry(data@, size as nat, i as int) == (key, ContainerInfo { len, offset }));
            i += 1;
        }
        let region = vstd::slice::slice_subrange(data, 8 + 8 * size, n);
        let lazy = LazyRoaringBitmap { containers, data: region };
        proof {
            lemma_index_wf(data@, size as nat, size as nat);
            assert(header(data@) == Ok::<nat, Error>(size as nat));
            assert(lazy@.index == parse(data@)->Ok_0.index);
            assert(lazy@.payload == parse(data@)->Ok_0.payload);
        }
        Ok(lazy)
    }

    /// What the tables say of `key`.
    pub fn info(&self, key: u16) -> (r: Option<ContainerInfo>)
        ensures
            match r {
                Some(info) => self@.index.contains_key(key) && self@.index[key] == info,
                None => !self@.index.contains_key(key),
            },
    {
        index_get(&self.containers, key)
    }

    /// The keys that the tables name, in increasing order.
    pub fn keys(&self) -> (keys: Vec<u16>)
        ensures
            keys@.to_set() == self@.index.dom(),
            forall|i: int, j: int| 0 <= i < j < keys@.len() ==> keys@[i] < keys@[j],
    {
        index_keys(&self.containers)
    }

    /// The payload region.
    pub fn payload(&self) -> (r: &'a [u8])
        ensures
            r@ == self@.payload,
    {
        self.data
    }

    /// The container with the given key, decoded from the payload region;
    /// nothing where the tables do not name the key.
    pub fn get_container(&self, key: u16) -> (r: Result<Option<Container>, Error>)
        requires
            self.wf(),
        ensures
            match r {
                Ok(Some(c)) => get(self@, key) == Ok::<_, Error>(Some(c@)) && c@.store.wf(),
                Ok(None) => get(self@, key) == Ok::<Option<ContainerModel>, Error>(None),
                Err(e) => get(self@, key) == Err::<Option<ContainerModel>, _>(e),
            },
    {
        match index_get(&self.containers, key) {
            None => Ok(None),
            Some(info) => {
                assert(self@.index.contains_key(key));
                match decode_store(self.data, info) {
                    Ok(store) => Ok(Some(Container { key, store })),
                    Err(e) => Err(e),
                }
            },
        }
    }

    /// The owned bitmap of all the containers: each key is decoded as
    /// `get_container` does it, in increasing order, and the first error
    /// ends the work.
    pub fn load(&self) -> (r: Result<RoaringBitmap, Error>)
        requires
            self.wf(),
        ensures
            match r {
                Ok(b) => load(self@) == Ok::<_, Error>(b@) && b.wf(),
                Err(e) => load(self@) == Err::<Seq<ContainerModel>, _>(e),
            },
    {
        let keys = self.keys();
        let mut containers: Vec<Container> = Vec::new();
        let mut i: usize = 0;
        let ghost mut next: nat = 0;
        assert(models(containers@) == Seq::<ContainerModel>::empty());
        while i < keys.len()
            invariant
                i <= keys@.len(),
                next <= 65536,
                self.wf(),
                keys@.to_set() == self@.index.dom(),
                forall|i: int, j: int| 0 <= i < j < keys@.len() ==> keys@[i] < keys@[j],
                forall|j: int| 0 <= j < i ==> keys@[j] < next,
                forall|j: int| i <= j < keys@.len() ==> keys@[j] >= next,
                loaded(self@, next) == Ok::<_, Error>(models(containers@)),
                containers_wf(models(containers@)),
                forall|j: int| 0 <= j < containers@.len() ==> containers@[j].key < next,
            decreases keys@.len() - i,
        {
            let ghost before = models(containers@);
            let key: u16 = keys[i];
            proof {
                lemma_gap(self@.index, keys@, i as int, next, key as nat);
                lemma_loaded_skip(self@, next, key as nat);
            }
            match self.get_container(key) {
                Err(e) => {
                    proof {
                        lemma_loaded_error(self@, (key + 1) as nat, 65536);
                    }
                    return Err(e);
                },
                Ok(None) => {},
                Ok(Some(c)) => {
                    containers.push(c);
                    assert(models(containers@) == before.push(c@));
                },
            }
            proof {
                next = (key + 1) as nat;
                assert forall|j: int| 0 <= j < i + 1 implies keys@[j] < next by {
                    if j < i {
                        assert(keys@[j] < keys@[i as int]);
                    }
                }
                assert forall|j: int| i + 1 <= j < keys@.len() implies keys@[j] >= next by {
                    assert(keys@[i as int] < keys@[j]);
                }
            }
            i += 1;
        }
        proof {
            lemma_gap(self@.index, keys@, i as int, next, 65536);
            lemma_loaded_skip(self@, next, 65536);
        }
        Ok(RoaringBitmap::from_containers(containers))
    }
}

impl RoaringBitmap {
    /// Whether this bitmap and a serialized one share no member. For each
    /// container of this bitmap, in the order of the keys, the container of
    /// the same key is decoded; a key that the other does not have is passed
    /// over. The first shared member ends the work with `false`, the first
    /// container that is refused ends it with the error.
    pub fn lazy_is_disjoint(&self, other: &LazyRoaringBitmap<'_>) -> (r: Result<bool, Error>)
        requires
            self.wf(),
            other.wf(),
        ensures
            r == lazy_disjoint_upto(self@, other@, self@.len()),
    {
        let containers = self.containers();
        let mut i: usize = 0;
        while i < containers.len()
            invariant
                i <= containers@.len(),
                models(containers@) == self@,
                self.wf(),
                other.wf(),
                lazy_disjoint_upto(self@, other@, i as nat) == Ok::<bool, Error>(true),
            decreases containers@.len() - i,
        {
            let container = &containers[i];
            assert(self@[i as int] == container@);
            assert(self@[i as int].store.wf());
            match other.get_container(container.key) {
                Err(e) => {
                    proof {
                        lemma_lazy_disjoint_ended(self@, other@, (i + 1) as nat, self@.len());
                    }
                    return Err(e);
                },
                Ok(None) => {},
                Ok(Some(other_container)) => {
                    if !container.is_disjoint(&other_container) {
                        proof {
                            lemma_lazy_disjoint_ended(self@, other@, (i + 1) as nat, self@.len());
                        }
                        return Ok(false);
                    }
                },
            }
            i += 1;
        }
        Ok(true)
    }
}

impl RoaringBitmap {
    /// The owned bitmap of a serialized one: the buffer is parsed and every
    /// container decoded, in the order of the keys.
    pub fn deserialize_from(data: &[u8]) -> (r: Result<RoaringBitmap, Error>)
        ensures
            match r {
                Ok(b) => read(data@) == Ok::<_, Error>(b@) && b.wf(),
                Err(e) => read(data@) == Err::<Seq<ContainerModel>, _>(e),
            },
    {
        match LazyRoaringBitmap::deserialize_from(data) {
            Err(e) => Err(e),
            Ok(lazy) => lazy.load(),
        }
    }
}

} // verus!
