//! Writing the owned bitmap in its serialized form.

use super::container::{models};
use super::inherent::RoaringBitmap;
use super::le::{
    lemma_read_left, lemma_read_right, lemma_u16_round_trip, lemma_u32_round_trip,
    lemma_u64_round_trip, put_u16, put_u32, put_u64, u16_at, u16_bytes, u32_at, u32_bytes, u64_at,
    u64_bytes,
};
use super::model::{lemma_card_bound, lemma_keys_above, ContainerModel, StoreModel};
use super::store::Store;
use super::wire::{
    array_at, array_bytes, decode, directory, offsets, payload, serialized, store_bytes,
    words_at, words_bytes, ContainerInfo, SERIAL_COOKIE_NO_RUNCONTAINER,
};
use crate::error::Error;
use vstd::prelude::*;

verus! {

/// An array payload has two bytes for each member.
pub proof fn lemma_array_bytes_len(values: Seq<u16>)
    ensures
        array_bytes(values).len() == 2 * values.len(),
    decreases values.len(),
{
    if values.len() > 0 {
        lemma_array_bytes_len(values.drop_last());
    }
}

/// A bitmap payload has eight bytes for each word.
pub proof fn lemma_words_bytes_len(words: Seq<u64>)
    ensures
        words_bytes(words).len() == 8 * words.len(),
    decreases words.len(),
{
    if words.len() > 0 {
        lemma_words_bytes_len(words.drop_last());
    }
}

/// The payload of a well-formed store has two bytes for each member while
/// there are at most 4096 of them, and 8192 bytes beyond that: a store of
/// exactly 4096 members is written as an array, one of 4097 as a bitmap.
pub proof fn lemma_store_bytes_len(s: StoreModel)
    requires
        s.wf(),
    ensures
        s.card() <= 4096 <==> s is Array,
        store_bytes(s).len() == if s.card() <= 4096 {
            2 * s.card()
        } else {
            8192
        },
{
    match s {
        StoreModel::Array(values) => lemma_array_bytes_len(values),
        StoreModel::Bitmap { len, words } => lemma_words_bytes_len(words),
    }
}

/// The tables have four bytes each for each container, and the payload
/// region at most 8192.
pub proof fn lemma_table_lens(cs: Seq<ContainerModel>)
    requires
        forall|i: int| 0 <= i < cs.len() ==> (#[trigger] cs[i]).store.wf(),
    ensures
        directory(cs).len() == 4 * cs.len(),
        offsets(cs).len() == 4 * cs.len(),
        payload(cs).len() <= 8192 * cs.len(),
    decreases cs.len(),
{
    if cs.len() > 0 {
        lemma_table_lens(cs.drop_last());
        lemma_store_bytes_len(cs.last().store);
    }
}

/// The tables and the payload region of a prefix that is one longer.
pub proof fn lemma_tables_step(cs: Seq<ContainerModel>, n: int)
    requires
        0 <= n < cs.len(),
    ensures
        directory(cs.take(n + 1)) == directory(cs.take(n)) + u16_bytes(cs[n].key) + u16_bytes(
            (cs[n].store.card() - 1) as u16,
        ),
        offsets(cs.take(n + 1)) == offsets(cs.take(n)) + u32_bytes(
            payload(cs.take(n)).len() as u32,
        ),
        payload(cs.take(n + 1)) == payload(cs.take(n)) + store_bytes(cs[n].store),
{
    assert(cs.take(n + 1).drop_last() == cs.take(n));
}

/// The integer at index `j` of an array payload is the member at index `j`.
pub proof fn lemma_array_bytes_at(values: Seq<u16>, j: int)
    requires
        0 <= j < values.len(),
    ensures
        u16_at(array_bytes(values), 2 * j) == values[j],
    decreases values.len(),
{
    let front = array_bytes(values.drop_last());
    lemma_array_bytes_len(values.drop_last());
    if j == values.len() - 1 {
        lemma_read_right(front, u16_bytes(values.last()), 0);
        lemma_u16_round_trip(values.last());
    } else {
        lemma_array_bytes_at(values.drop_last(), j);
        lemma_read_left(front, u16_bytes(values.last()), 2 * j);
    }
}

/// The integer at index `j` of a bitmap payload is the word at index `j`.
pub proof fn lemma_words_bytes_at(words: Seq<u64>, j: int)
    requires
        0 <= j < words.len(),
    ensures
        u64_at(words_bytes(words), 8 * j) == words[j],
    decreases words.len(),
{
    let front = words_bytes(words.drop_last());
    lemma_words_bytes_len(words.drop_last());
    lemma_u64_round_trip(words.last());
    if j == words.len() - 1 {
        lemma_read_right(front, u64_bytes(words.last()), 0);
    } else {
        lemma_words_bytes_at(words.drop_last(), j);
        lemma_read_left(front, u64_bytes(words.last()), 8 * j);
    }
}

/// The payloads of the first containers are the first bytes of the payload
/// region.
pub proof fn lemma_payload_prefix(cs: Seq<ContainerModel>, n: int)
    requires
        0 <= n <= cs.len(),
    ensures
        payload(cs.take(n)).is_prefix_of(payload(cs)),
    decreases cs.len() - n,
{
    if n < cs.len() {
        lemma_payload_prefix(cs, n + 1);
        lemma_tables_step(cs, n);
    } else {
        assert(cs.take(n) == cs);
    }
}

/// What the tables of the serialized form say of the container at index `i`.
pub open spec fn info_of(cs: Seq<ContainerModel>, i: int) -> ContainerInfo {
    ContainerInfo {
        len: cs[i].store.card() as usize,
        offset: payload(cs.take(i)).len() as u32,
    }
}

/// The directory holds, for the container at index `i`, its key and its
/// cardinality less one.
pub proof fn lemma_directory_entry(cs: Seq<ContainerModel>, i: int)
    requires
        forall|i: int| 0 <= i < cs.len() ==> (#[trigger] cs[i]).store.wf(),
        0 <= i < cs.len(),
    ensures
        u16_at(directory(cs), 4 * i) == cs[i].key,
        u16_at(directory(cs), 4 * i + 2) == cs[i].store.card() - 1,
    decreases cs.len(),
{
    let front = cs.drop_last();
    lemma_table_lens(front);
    let key = u16_bytes(cs.last().key);
    let card = u16_bytes((cs.last().store.card() - 1) as u16);
    if i == cs.len() - 1 {
        lemma_card_bound(cs.last().store);
        lemma_u16_round_trip(cs.last().key);
        lemma_u16_round_trip((cs.last().store.card() - 1) as u16);
        lemma_read_right(directory(front), key, 0);
        lemma_read_left(directory(front) + key, card, 4 * i);
        lemma_read_right(directory(front) + key, card, 0);
    } else {
        lemma_directory_entry(front, i);
        lemma_read_left(directory(front), key, 4 * i);
        lemma_read_left(directory(front), key, 4 * i + 2);
        lemma_read_left(directory(front) + key, card, 4 * i);
        lemma_read_left(directory(front) + key, card, 4 * i + 2);
    }
}

/// The offsets table holds, for the container at index `i`, the length of
/// the payloads before its own.
pub proof fn lemma_offsets_entry(cs: Seq<ContainerModel>, i: int)
    requires
        forall|i: int| 0 <= i < cs.len() ==> (#[trigger] cs[i]).store.wf(),
        cs.len() <= 65536,
        0 <= i < cs.len(),
    ensures
        u32_at(offsets(cs), 4 * i) == payload(cs.take(i)).len(),
    decreases cs.len(),
{
    let front = cs.drop_last();
    lemma_table_lens(front);
    let last = u32_bytes(payload(front).len() as u32);
    if i == cs.len() - 1 {
        lemma_u32_round_trip(payload(front).len() as u32);
        lemma_read_right(offsets(front), last, 0);
        assert(cs.take(i) == front);
    } else {
        lemma_offsets_entry(front, i);
        lemma_read_left(offsets(front), last, 4 * i);
        assert(front.take(i) == cs.take(i));
    }
}

/// Decoding the payload region of the serialized form for the container at
/// index `i` gives its store.
pub proof fn lemma_decode_serialized(cs: Seq<ContainerModel>, i: int)
    requires
        forall|i: int| 0 <= i < cs.len() ==> (#[trigger] cs[i]).store.wf(),
        cs.len() <= 65536,
        0 <= i < cs.len(),
    ensures
        decode(payload(cs), info_of(cs, i)) == Ok::<_, Error>(cs[i].store),
{
    let region = payload(cs);
    let before = payload(cs.take(i));
    let bytes = store_bytes(cs[i].store);
    lemma_payload_prefix(cs, i + 1);
    lemma_tables_step(cs, i);
    lemma_table_lens(cs.take(i));
    lemma_store_bytes_len(cs[i].store);
    lemma_card_bound(cs[i].store);
    let info = info_of(cs, i);
    let start = before.len() as int;
    assert(info.offset == start);
    assert(info.len == cs[i].store.card());
    assert(start + bytes.len() <= region.len());
    assert forall|p: int| 0 <= p < bytes.len() implies region[start + p] == bytes[p] by {
        assert(payload(cs.take(i + 1))[start + p] == bytes[p]);
    }
    match cs[i].store {
        StoreModel::Array(values) => {
            assert(array_at(region, start, values.len()) =~= values) by {
                assert forall|j: int| 0 <= j < values.len() implies u16_at(region, start + 2 * j)
                    == values[j] by {
                    lemma_array_bytes_at(values, j);
                    assert(region[start + 2 * j] == bytes[2 * j]);
                    assert(region[start + 2 * j + 1] == bytes[2 * j + 1]);
                }
            }
        },
        StoreModel::Bitmap { len, words } => {
            assert(words_at(region, start) =~= words) by {
                assert forall|j: int| 0 <= j < words.len() implies u64_at(region, start + 8 * j)
                    == words[j] by {
                    lemma_words_bytes_at(words, j);
                    assert(region.subrange(start + 8 * j, start + 8 * j + 8) == bytes.subrange(
                        8 * j,
                        8 * j + 8,
                    ));
                    super::le::lemma_u64_at_window(region, bytes, start + 8 * j, 8 * j);
                }
            }
        },
    }
}

/// Appends the payload of a store.
fn put_store(buf: &mut Vec<u8>, store: &Store)
    ensures
        final(buf)@ == old(buf)@ + store_bytes(store@),
{
    let ghost base = buf@;
    match store {
        Store::Array(values) => {
            let mut i: usize = 0;
            while i < values.len()
                invariant
                    i <= values@.len(),
                    buf@ == base + array_bytes(values@.take(i as int)),
                decreases values@.len() - i,
            {
                put_u16(buf, values[i]);
                proof {
                    assert(values@.take(i + 1).drop_last() == values@.take(i as int));
                    assert(buf@ == base + array_bytes(values@.take(i + 1)));
                }
                i += 1;
            }
            assert(values@.take(i as int) == values@);
        },
        Store::Bitmap { len, bits } => {
            let mut i: usize = 0;
            while i < bits.len()
                invariant
                    i <= bits@.len(),
                    buf@ == base + words_bytes(bits@.take(i as int)),
                decreases bits@.len() - i,
            {
                put_u64(buf, bits[i]);
                proof {
                    assert(bits@.take(i + 1).drop_last() == bits@.take(i as int));
                    assert(buf@ == base + words_bytes(bits@.take(i + 1)));
                }
                i += 1;
            }
            assert(bits@.take(i as int) == bits@);
        },
    }
}

impl RoaringBitmap {
    /// Appends the serialized form of the bitmap: the header, the directory,
    /// the offsets table and the payloads, each container written as an
    /// array or as a bitmap as its cardinality calls for.
    pub fn serialize_into(&self, buf: &mut Vec<u8>)
        requires
            self.wf(),
        ensures
            final(buf)@ == old(buf)@ + serialized(self@),
    {
        let ghost base = buf@;
        let ghost cs = self@;
        let containers = self.containers();
        let size: usize = containers.len();
        proof {
            if cs.len() > 0 {
                lemma_keys_above(cs, cs.len() - 1);
            }
        }
        put_u32(buf, SERIAL_COOKIE_NO_RUNCONTAINER);
        put_u32(buf, size as u32);
        let ghost head = base + u32_bytes(SERIAL_COOKIE_NO_RUNCONTAINER) + u32_bytes(
            cs.len() as u32,
        );
        assert(buf@ == head);
        let mut i: usize = 0;
        while i < size
            invariant
                i <= size == containers@.len(),
                size <= 65536,
                models(containers@) == cs,
                super::model::containers_wf(cs),
                buf@ == head + directory(cs.take(i as int)),
            decreases size - i,
        {
            let container = &containers[i];
            assert(cs[i as int] == container@);
            proof {
                lemma_card_bound(cs[i as int].store);
                lemma_tables_step(cs, i as int);
            }
            put_u16(buf, container.key);
            put_u16(buf, (container.len() - 1) as u16);
            assert(buf@ == head + directory(cs.take(i + 1)));
            i += 1;
        }
        assert(cs.take(size as int) == cs);
        let ghost tables = head + directory(cs);
        let mut offset: u32 = 0;
        i = 0;
        while i < size
            invariant
                i <= size == containers@.len(),
                size <= 65536,
                models(containers@) == cs,
                super::model::containers_wf(cs),
                offset == payload(cs.take(i as int)).len(),
                buf@ == tables + offsets(cs.take(i as int)),
            decreases size - i,
        {
            let container = &containers[i];
            assert(cs[i as int] == container@);
            proof {
                lemma_card_bound(cs[i as int].store);
                lemma_store_bytes_len(cs[i as int].store);
                lemma_tables_step(cs, i as int);
                lemma_table_lens(cs.take(i + 1));
            }
            put_u32(buf, offset);
            let len: u64 = container.len();
            if len <= 4096 {
                offset += 2 * (len as u32);
            } else {
                offset += 8192;
            }
            assert(buf@ == tables + offsets(cs.take(i + 1)));
            i += 1;
        }
        let ghost tabled = tables + offsets(cs);
        i = 0;
        while i < size
            invariant
                i <= size == containers@.len(),
                models(containers@) == cs,
                buf@ == tabled + payload(cs.take(i as int)),
            decreases size - i,
        {
            let container = &containers[i];
            assert(cs[i as int] == container@);
            proof {
                lemma_tables_step(cs, i as int);
            }
            put_store(buf, &container.store);
            assert(buf@ == tabled + payload(cs.take(i + 1)));
            i += 1;
        }
        assert(buf@ == base + serialized(cs));
    }
}

} // verus!
