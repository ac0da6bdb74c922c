//! The serialized form. All integers are little-endian.
//!
//! | bytes          | field                                                    |
//! |----------------|----------------------------------------------------------|
//! | 4              | cookie, 12346                                            |
//! | 4              | `size`, the number of containers, at most 65536          |
//! | 4 for each     | directory: key, then cardinality less one, 2 bytes each  |
//! | 4 for each     | offsets: where the payload starts in the payload region  |
//! | the rest       | payload region: the payloads, in the order of the keys   |
//!
//! The payload of a container of at most 4096 members is its members, two
//! bytes each; that of a larger one is 1024 words of eight bytes.

use super::bits::count_below;
use super::le::{u16_at, u16_bytes, u32_at, u32_bytes, u64_at, u64_bytes};
use super::model::{strictly_increasing, ContainerModel, StoreModel, ARRAY_LIMIT, BITMAP_WORDS};
use crate::error::Error;
use vstd::prelude::*;

verus! {

/// The cookie of a buffer without run containers.
pub const SERIAL_COOKIE_NO_RUNCONTAINER: u32 = 12346;

/// The low half of the cookie of a buffer that may hold run containers.
pub const SERIAL_COOKIE: u16 = 12347;

/// The largest number of containers: one for each key.
pub const MAX_CONTAINERS: usize = 65536;

/// The bytes of an array payload.
pub open spec fn array_bytes(values: Seq<u16>) -> Seq<u8>
    decreases values.len(),
{
    if values.len() == 0 {
        Seq::empty()
    } else {
        array_bytes(values.drop_last()) + u16_bytes(values.last())
    }
}

/// The bytes of a bitmap payload.
pub open spec fn words_bytes(words: Seq<u64>) -> Seq<u8>
    decreases words.len(),
{
    if words.len() == 0 {
        Seq::empty()
    } else {
        words_bytes(words.drop_last()) + u64_bytes(words.last())
    }
}

/// The payload of a store.
pub open spec fn store_bytes(s: StoreModel) -> Seq<u8> {
    match s {
        StoreModel::Array(values) => array_bytes(values),
        StoreModel::Bitmap { len, words } => words_bytes(words),
    }
}

/// The directory: for each container its key and its cardinality less one.
pub open spec fn directory(cs: Seq<ContainerModel>) -> Seq<u8>
    decreases cs.len(),
{
    if cs.len() == 0 {
        Seq::empty()
    } else {
        directory(cs.drop_last()) + u16_bytes(cs.last().key) + u16_bytes(
            (cs.last().store.card() - 1) as u16,
        )
    }
}

/// The payload region: the payloads one after the other.
pub open spec fn payload(cs: Seq<ContainerModel>) -> Seq<u8>
    decreases cs.len(),
{
    if cs.len() == 0 {
        Seq::empty()
    } else {
        payload(cs.drop_last()) + store_bytes(cs.last().store)
    }
}

/// The offsets table: for each container the length of the payloads before
/// its own.
pub open spec fn offsets(cs: Seq<ContainerModel>) -> Seq<u8>
    decreases cs.len(),
{
    if cs.len() == 0 {
        Seq::empty()
    } else {
        offsets(cs.drop_last()) + u32_bytes(payload(cs.drop_last()).len() as u32)
    }
}

/// The serialized form of a bitmap.
pub open spec fn serialized(cs: Seq<ContainerModel>) -> Seq<u8> {
    u32_bytes(SERIAL_COOKIE_NO_RUNCONTAINER) + u32_bytes(cs.len() as u32) + directory(cs)
        + offsets(cs) + payload(cs)
}

/// What the directory and the offsets table say of one container.
#[derive(Clone, Copy, Debug, PartialEq, Eq)]
pub struct ContainerInfo {
    /// The cardinality, between 1 and 65536.
    pub len: usize,
    /// Where the payload starts in the payload region.
    pub offset: u32,
}

/// A parsed buffer: the tables by key, and the payload region.
pub struct LazyModel {
    pub index: Map<u16, ContainerInfo>,
    pub payload: Seq<u8>,
}

/// The number of containers that the header declares, or why the buffer is
/// refused: the cookie is read first, then the size, then the room for the
/// two tables is checked.
pub open spec fn header(data: Seq<u8>) -> Result<nat, Error> {
    if data.len() < 4 {
        Err(Error::Truncated)
    } else if u32_at(data, 0) == SERIAL_COOKIE_NO_RUNCONTAINER {
        if data.len() < 8 {
            Err(Error::Truncated)
        } else if u32_at(data, 4) > MAX_CONTAINERS {
            Err(Error::SizeOutOfRange)
        } else if data.len() < 8 + 8 * u32_at(data, 4) {
            Err(Error::Truncated)
        } else {
            Ok(u32_at(data, 4) as nat)
        }
    } else if u32_at(data, 0) % 65536 == SERIAL_COOKIE {
        Err(Error::RunContainersUnsupported)
    } else {
        Err(Error::UnknownCookie)
    }
}

/// What the tables say of the container at index `i` of the directory.
pub open spec fn entry(data: Seq<u8>, size: nat, i: int) -> (u16, ContainerInfo) {
    (
        u16_at(data, 8 + 4 * i),
        ContainerInfo {
            len: (u16_at(data, 8 + 4 * i + 2) + 1) as usize,
            offset: u32_at(data, 8 + 4 * size + 4 * i),
        },
    )
}

/// The first `n` entries of the tables, by key. Of two entries with one key
/// the later one stays.
pub open spec fn index_upto(data: Seq<u8>, size: nat, n: nat) -> Map<u16, ContainerInfo>
    decreases n,
{
    if n == 0 {
        Map::empty()
    } else {
        index_upto(data, size, (n - 1) as nat).insert(
            entry(data, size, n - 1).0,
            entry(data, size, n - 1).1,
        )
    }
}

/// The tables and the payload region of a buffer, or why it is refused.
pub open spec fn parse(data: Seq<u8>) -> Result<LazyModel, Error> {
    match header(data) {
        Err(e) => Err(e),
        Ok(size) => Ok(
            LazyModel {
                index: index_upto(data, size, size),
                payload: data.subrange(8 + 8 * size as int, data.len() as int),
            },
        ),
    }
}

/// The integers of an array payload of `len` members that starts at `start`.
pub open spec fn array_at(region: Seq<u8>, start: int, len: nat) -> Seq<u16> {
    Seq::new(len, |i: int| u16_at(region, start + 2 * i))
}

/// The words of a bitmap payload that starts at `start`.
pub open spec fn words_at(region: Seq<u8>, start: int) -> Seq<u64> {
    Seq::new(BITMAP_WORDS as nat, |i: int| u64_at(region, start + 8 * i))
}

/// The store that the payload region holds for a container, or why it is
/// refused: truncated where the payload would pass the end of the region,
/// corrupt where an array does not increase strictly or a bitmap does not
/// hold the declared number of set bits.
pub open spec fn decode(region: Seq<u8>, info: ContainerInfo) -> Result<StoreModel, Error> {
    if info.len <= ARRAY_LIMIT {
        if info.offset + 2 * info.len > region.len() {
            Err(Error::Truncated)
        } else if strictly_increasing(array_at(region, info.offset as int, info.len as nat)) {
            Ok(StoreModel::Array(array_at(region, info.offset as int, info.len as nat)))
        } else {
            Err(Error::Corrupt)
        }
    } else {
        if info.offset + 8 * BITMAP_WORDS > region.len() {
            Err(Error::Truncated)
        } else if count_below(words_at(region, info.offset as int), 65536) == info.len {
            Ok(
                StoreModel::Bitmap {
                    len: info.len as nat,
                    words: words_at(region, info.offset as int),
                },
            )
        } else {
            Err(Error::Corrupt)
        }
    }
}

/// The container with the given key: absent where the tables do not name
/// the key, else decoded from the payload region.
pub open spec fn get(m: LazyModel, key: u16) -> Result<Option<ContainerModel>, Error> {
    if m.index.contains_key(key) {
        match decode(m.payload, m.index[key]) {
            Ok(store) => Ok(Some(ContainerModel { key, store })),
            Err(e) => Err(e),
        }
    } else {
        Ok(None)
    }
}

/// The containers with keys below `k`, in the order of their keys, or the
/// error of the smallest key below `k` whose container is refused.
pub open spec fn loaded(m: LazyModel, k: nat) -> Result<Seq<ContainerModel>, Error>
    decreases k,
{
    if k == 0 {
        Ok(Seq::empty())
    } else {
        match loaded(m, (k - 1) as nat) {
            Err(e) => Err(e),
            Ok(before) => match get(m, (k - 1) as u16) {
                Err(e) => Err(e),
                Ok(None) => Ok(before),
                Ok(Some(c)) => Ok(before.push(c)),
            },
        }
    }
}

/// All the containers of a parsed buffer, in the order of their keys, or
/// the first error.
pub open spec fn load(m: LazyModel) -> Result<Seq<ContainerModel>, Error> {
    loaded(m, 65536)
}

/// The containers of a serialized bitmap, in the order of their keys, or why
/// the buffer is refused.
pub open spec fn read(data: Seq<u8>) -> Result<Seq<ContainerModel>, Error> {
    match parse(data) {
        Err(e) => Err(e),
        Ok(m) => load(m),
    }
}

/// Every cardinality in the tables is between 1 and 65536.
pub open spec fn lazy_wf(m: LazyModel) -> bool {
    forall|key: u16| #[trigger] m.index.contains_key(key) ==> 1 <= m.index[key].len <= 65536
}

/// The tables of a buffer hold cardinalities between 1 and 65536 only.
pub proof fn lemma_index_wf(data: Seq<u8>, size: nat, n: nat)
    ensures
        forall|key: u16| #[trigger]
            index_upto(data, size, n).contains_key(key) ==> 1 <= index_upto(
                data,
                size,
                n,
            )[key].len <= 65536,
    decreases n,
{
    if n > 0 {
        lemma_index_wf(data, size, (n - 1) as nat);
        let before = index_upto(data, size, (n - 1) as nat);
        let e = entry(data, size, n - 1);
        assert(index_upto(data, size, n) == before.insert(e.0, e.1));
        assert(1 <= e.1.len <= 65536);
        assert forall|key: u16| #[trigger]
            index_upto(data, size, n).contains_key(key) implies 1 <= index_upto(
            data,
            size,
            n,
        )[key].len <= 65536 by {
            if key != e.0 {
                assert(before.contains_key(key));
            }
        }
    }
}

/// A store that was decoded for a cardinality between 1 and 65536 is well
/// formed and has that cardinality.
pub proof fn lemma_decode_wf(region: Seq<u8>, info: ContainerInfo)
    requires
        1 <= info.len <= 65536,
        decode(region, info) is Ok,
    ensures
        decode(region, info)->Ok_0.wf(),
        decode(region, info)->Ok_0.card() == info.len,
{
}

/// Keys that the tables do not name add nothing to what is loaded.
pub proof fn lemma_loaded_skip(m: LazyModel, k: nat, n: nat)
    requires
        k <= n <= 65536,
        forall|key: u16| k <= key < n ==> !m.index.contains_key(key),
    ensures
        loaded(m, n) == loaded(m, k),
    decreases n,
{
    if k < n {
        lemma_loaded_skip(m, k, (n - 1) as nat);
        assert(!m.index.contains_key((n - 1) as u16));
    }
}

/// Once a container is refused, the error stays whatever keys follow.
pub proof fn lemma_loaded_error(m: LazyModel, k: nat, n: nat)
    requires
        k <= n,
        loaded(m, k) is Err,
    ensures
        loaded(m, n) == loaded(m, k),
    decreases n,
{
    if k < n {
        lemma_loaded_error(m, k, (n - 1) as nat);
    }
}

/// The outcome of comparing the first `n` containers of `a`, in order, with
/// the containers of the same keys in a parsed buffer: the error of the
/// first container that is refused, unless a shared member was found before
/// it; else whether no shared member was found.
pub open spec fn lazy_disjoint_upto(a: Seq<ContainerModel>, m: LazyModel, n: nat) -> Result<
    bool,
    Error,
>
    decreases n,
{
    if n == 0 {
        Ok(true)
    } else {
        match lazy_disjoint_upto(a, m, (n - 1) as nat) {
            Err(e) => Err(e),
            Ok(false) => Ok(false),
            Ok(true) => match get(m, a[n - 1].key) {
                Err(e) => Err(e),
                Ok(None) => Ok(true),
                Ok(Some(c)) => Ok(a[n - 1].store.disjoint(c.store)),
            },
        }
    }
}

/// Once the comparison has ended, on an error or on a shared member, its
/// outcome stays whatever containers follow.
pub proof fn lemma_lazy_disjoint_ended(a: Seq<ContainerModel>, m: LazyModel, k: nat, n: nat)
    requires
        k <= n,
        lazy_disjoint_upto(a, m, k) != Ok::<bool, Error>(true),
    ensures
        lazy_disjoint_upto(a, m, n) == lazy_disjoint_upto(a, m, k),
    decreases n,
{
    if k < n {
        lemma_lazy_disjoint_ended(a, m, k, (n - 1) as nat);
    }
}

} // verus!
