//! What holds between the ways of reading a serialized bitmap: the lazy
//! index, the eager reader and the archived view agree with each other, and
//! all of them give back what was written.

use super::model::{
    containers_wf, contains, disjoint, find, has_key, lemma_pairwise_disjoint, lemma_shared_member,
    lemma_store_values, members, values, ContainerModel,
};
use super::le::{
    lemma_read_left, lemma_read_right, lemma_u32_round_trip, u16_at, u32_at, u32_bytes,
};
use super::model::lemma_keys_above;
use super::serialization::{
    info_of, lemma_decode_serialized, lemma_directory_entry, lemma_offsets_entry,
    lemma_table_lens,
};
use super::wire::{
    decode, directory, entry, get, header, index_upto, lazy_disjoint_upto, lazy_wf,
    lemma_decode_wf, load, loaded, offsets, parse, payload, read, serialized, LazyModel,
    SERIAL_COOKIE_NO_RUNCONTAINER,
};
use crate::error::Error;
use vstd::prelude::*;

verus! {

/// The containers that were loaded for the keys below `k` have increasing
/// keys below `k`, and are what `get` gives for their keys; for every other
/// key below `k`, `get` gives nothing.
pub proof fn lemma_loaded(m: LazyModel, k: nat)
    requires
        k <= 65536,
        loaded(m, k) is Ok,
    ensures
        forall|i: int, j: int|
            0 <= i < j < loaded(m, k)->Ok_0.len() ==> loaded(m, k)->Ok_0[i].key < loaded(
                m,
                k,
            )->Ok_0[j].key,
        forall|i: int|
            0 <= i < loaded(m, k)->Ok_0.len() ==> (#[trigger] loaded(m, k)->Ok_0[i]).key < k
                && get(m, loaded(m, k)->Ok_0[i].key) == Ok::<_, Error>(
                Some(loaded(m, k)->Ok_0[i]),
            ),
        forall|key: u16|
            key < k && !has_key(loaded(m, k)->Ok_0, key) ==> #[trigger] get(m, key) == Ok::<
                Option<ContainerModel>,
                Error,
            >(None),
        lazy_wf(m) ==> forall|i: int|
            0 <= i < loaded(m, k)->Ok_0.len() ==> (#[trigger] loaded(m, k)->Ok_0[i]).store.wf(),
    decreases k,
{
    if k > 0 {
        lemma_loaded(m, (k - 1) as nat);
        let before = loaded(m, (k - 1) as nat)->Ok_0;
        let acc = loaded(m, k)->Ok_0;
        let last: u16 = (k - 1) as u16;
        match get(m, last) {
            Err(e) => {},
            Ok(None) => {
                assert(acc == before);
            },
            Ok(Some(c)) => {
                assert(acc == before.push(c));
                assert(c.key == last);
                assert forall|key: u16| key < k && !has_key(acc, key) implies #[trigger] get(
                    m,
                    key,
                ) == Ok::<Option<ContainerModel>, Error>(None) by {
                    assert(acc[acc.len() - 1].key == last);
                    if has_key(before, key) {
                        let i = choose|i: int| 0 <= i < before.len() && (#[trigger] before[i]).key
                            == key;
                        assert(acc[i].key == key);
                    }
                }
                if lazy_wf(m) {
                    assert(m.index.contains_key(last));
                    lemma_decode_wf(m.payload, m.index[last]);
                }
            },
        }
    }
}

/// The lazy index and the eager reader agree: where all containers load,
/// `get` gives for every key the loaded container with that key, and
/// nothing exactly where no loaded container has that key.
pub proof fn lemma_lazy_eager_equivalence(m: LazyModel, key: u16)
    requires
        load(m) is Ok,
    ensures
        get(m, key) == Ok::<_, Error>(find(load(m)->Ok_0, key)),
        get(m, key) == Ok::<Option<ContainerModel>, Error>(None) <==> !has_key(
            load(m)->Ok_0,
            key,
        ),
{
    lemma_loaded(m, 65536);
    let cs = load(m)->Ok_0;
    if has_key(cs, key) {
        let i = choose|i: int| 0 <= i < cs.len() && (#[trigger] cs[i]).key == key;
        assert(get(m, cs[i].key) == Ok::<_, Error>(Some(cs[i])));
    }
}

/// What is loaded is a well-formed bitmap.
pub proof fn lemma_load_wf(m: LazyModel)
    requires
        lazy_wf(m),
        load(m) is Ok,
    ensures
        containers_wf(load(m)->Ok_0),
{
    lemma_loaded(m, 65536);
}

/// The number of containers with a key below `k`.
pub open spec fn below(cs: Seq<ContainerModel>, k: nat) -> nat
    decreases k,
{
    if k == 0 {
        0
    } else {
        below(cs, (k - 1) as nat) + if has_key(cs, (k - 1) as u16) {
            1nat
        } else {
            0nat
        }
    }
}

/// In a bitmap with increasing keys, the containers with keys below `k` are
/// the first `below(cs, k)`.
pub proof fn lemma_below(cs: Seq<ContainerModel>, k: nat)
    requires
        forall|i: int, j: int| 0 <= i < j < cs.len() ==> cs[i].key < cs[j].key,
        k <= 65536,
    ensures
        below(cs, k) <= cs.len(),
        forall|i: int| 0 <= i < below(cs, k) ==> (#[trigger] cs[i]).key < k,
        forall|i: int| below(cs, k) <= i < cs.len() ==> (#[trigger] cs[i]).key >= k,
    decreases k,
{
    if k > 0 {
        lemma_below(cs, (k - 1) as nat);
        let b = below(cs, (k - 1) as nat) as int;
        let last: u16 = (k - 1) as u16;
        if has_key(cs, last) {
            let i = choose|i: int| 0 <= i < cs.len() && (#[trigger] cs[i]).key == last;
            if i < b {
                assert(cs[i].key < k - 1);
            }
            if b < i {
                assert(cs[b].key >= k - 1);
                assert(cs[b].key < cs[i].key);
            }
            assert(i == b);
            assert forall|j: int| b + 1 <= j < cs.len() implies (#[trigger] cs[j]).key >= k by {
                assert(cs[b].key < cs[j].key);
            }
        } else {
            assert forall|j: int| b <= j < cs.len() implies (#[trigger] cs[j]).key >= k by {
                assert(cs[j].key >= k - 1);
                if cs[j].key == last {
                    assert(has_key(cs, last));
                }
            }
        }
    }
}

/// Where `get` gives the containers of a bitmap with increasing keys for
/// their keys and nothing for other keys, loading the keys below `k` gives
/// the containers with keys below `k`.
pub proof fn lemma_loaded_from_get(m: LazyModel, cs: Seq<ContainerModel>, k: nat)
    requires
        forall|i: int, j: int| 0 <= i < j < cs.len() ==> cs[i].key < cs[j].key,
        forall|key: u16| #[trigger] get(m, key) == Ok::<_, Error>(find(cs, key)),
        k <= 65536,
    ensures
        loaded(m, k) == Ok::<_, Error>(cs.take(below(cs, k) as int)),
    decreases k,
{
    lemma_below(cs, k);
    if k == 0 {
        assert(cs.take(0) == Seq::<ContainerModel>::empty());
    } else {
        lemma_loaded_from_get(m, cs, (k - 1) as nat);
        lemma_below(cs, (k - 1) as nat);
        let b = below(cs, (k - 1) as nat) as int;
        let last: u16 = (k - 1) as u16;
        assert(get(m, last) == Ok::<_, Error>(find(cs, last)));
        if has_key(cs, last) {
            let i = choose|i: int| 0 <= i < cs.len() && (#[trigger] cs[i]).key == last;
            if i < b {
                assert(cs[i].key < k - 1);
            }
            if b < i {
                assert(cs[b].key >= k - 1);
                assert(cs[b].key < cs[i].key);
            }
            assert(i == b);
            assert(cs.take(b + 1) == cs.take(b).push(cs[b]));
        }
    }
}

/// Where `get` gives the containers of a bitmap with increasing keys for
/// their keys and nothing for other keys, the bitmap is what is loaded.
pub proof fn lemma_load_from_get(m: LazyModel, cs: Seq<ContainerModel>)
    requires
        forall|i: int, j: int| 0 <= i < j < cs.len() ==> cs[i].key < cs[j].key,
        forall|key: u16| #[trigger] get(m, key) == Ok::<_, Error>(find(cs, key)),
    ensures
        load(m) == Ok::<_, Error>(cs),
{
    lemma_loaded_from_get(m, cs, 65536);
    lemma_below(cs, 65536);
    let b = below(cs, 65536) as int;
    if b < cs.len() {
        assert(cs[b].key >= 65536);
    }
    assert(cs.take(cs.len() as int) == cs);
}

/// The header of the serialized form of a well-formed bitmap gives the
/// number of its containers.
pub proof fn lemma_header_serialized(cs: Seq<ContainerModel>)
    requires
        containers_wf(cs),
    ensures
        cs.len() <= 65536,
        serialized(cs).len() == 8 + 8 * cs.len() + payload(cs).len(),
        header(serialized(cs)) == Ok::<nat, Error>(cs.len()),
{
    let n = cs.len();
    if n > 0 {
        lemma_keys_above(cs, n - 1);
    }
    let a = u32_bytes(SERIAL_COOKIE_NO_RUNCONTAINER);
    let b = u32_bytes(n as u32);
    let rest = directory(cs) + offsets(cs) + payload(cs);
    let data = serialized(cs);
    lemma_table_lens(cs);
    lemma_u32_round_trip(SERIAL_COOKIE_NO_RUNCONTAINER);
    lemma_u32_round_trip(n as u32);
    assert(data =~= a + b + rest);
    lemma_read_left(a, b, 0);
    lemma_read_right(a, b, 0);
    lemma_read_left(a + b, rest, 0);
    lemma_read_left(a + b, rest, 4);
}

/// The tables of the serialized form of a well-formed bitmap give each
/// container's key, cardinality and offset.
pub proof fn lemma_entry_serialized(cs: Seq<ContainerModel>, i: int)
    requires
        containers_wf(cs),
        0 <= i < cs.len(),
    ensures
        entry(serialized(cs), cs.len(), i) == (cs[i].key, info_of(cs, i)),
{
    let n = cs.len();
    lemma_keys_above(cs, n - 1);
    let head = u32_bytes(SERIAL_COOKIE_NO_RUNCONTAINER) + u32_bytes(n as u32);
    let d = directory(cs);
    let o = offsets(cs);
    let p = payload(cs);
    let data = serialized(cs);
    lemma_table_lens(cs);
    lemma_table_lens(cs.take(i));
    lemma_directory_entry(cs, i);
    lemma_offsets_entry(cs, i);
    super::model::lemma_card_bound(cs[i].store);
    assert(head.len() == 8);
    assert(data =~= head + d + o + p);
    assert(u16_at(data, 8 + 4 * i) == cs[i].key) by {
        lemma_read_right(head, d, 4 * i);
        lemma_read_left(head + d, o, 8 + 4 * i);
        lemma_read_left(head + d + o, p, 8 + 4 * i);
    }
    assert(u16_at(data, 8 + 4 * i + 2) == cs[i].store.card() - 1) by {
        lemma_read_right(head, d, 4 * i + 2);
        lemma_read_left(head + d, o, 8 + 4 * i + 2);
        lemma_read_left(head + d + o, p, 8 + 4 * i + 2);
    }
    assert(u32_at(data, 8 + 4 * n + 4 * i) == payload(cs.take(i)).len()) by {
        lemma_read_right(head + d, o, 4 * i);
        lemma_read_left(head + d + o, p, 8 + 4 * n + 4 * i);
    }
}

/// The serialized form of a well-formed bitmap parses: the header gives the
/// number of containers, the tables give each container's key, cardinality
/// and offset, and the payload region is the payloads.
pub proof fn lemma_parse_serialized(cs: Seq<ContainerModel>)
    requires
        containers_wf(cs),
    ensures
        cs.len() <= 65536,
        header(serialized(cs)) == Ok::<nat, Error>(cs.len()),
        forall|i: int|
            0 <= i < cs.len() ==> #[trigger] entry(serialized(cs), cs.len(), i) == (
                cs[i].key,
                info_of(cs, i),
            ),
        serialized(cs).subrange(8 + 8 * cs.len() as int, serialized(cs).len() as int) == payload(
            cs,
        ),
{
    lemma_header_serialized(cs);
    assert forall|i: int| 0 <= i < cs.len() implies #[trigger] entry(
        serialized(cs),
        cs.len(),
        i,
    ) == (cs[i].key, info_of(cs, i)) by {
        lemma_entry_serialized(cs, i);
    }
    lemma_table_lens(cs);
    let front = u32_bytes(SERIAL_COOKIE_NO_RUNCONTAINER) + u32_bytes(cs.len() as u32) + directory(
        cs,
    ) + offsets(cs);
    assert(front.len() == 8 + 8 * cs.len());
    assert(serialized(cs) == front + payload(cs));
    assert((front + payload(cs)).subrange(front.len() as int, (front + payload(cs)).len() as int)
        =~= payload(cs));
}

/// The first `j` entries of the tables of the serialized form name the keys
/// of the first `j` containers, each with what the tables say of it.
pub proof fn lemma_index_serialized(cs: Seq<ContainerModel>, j: nat)
    requires
        containers_wf(cs),
        j <= cs.len(),
    ensures
        forall|key: u16|
            #[trigger] index_upto(serialized(cs), cs.len(), j).contains_key(key) <==> has_key(
                cs.take(j as int),
                key,
            ),
        forall|i: int|
            0 <= i < j ==> index_upto(serialized(cs), cs.len(), j)[(#[trigger] cs[i]).key]
                == info_of(cs, i),
    decreases j,
{
    let data = serialized(cs);
    let n = cs.len();
    if j == 0 {
        assert forall|key: u16| !has_key(cs.take(0), key) by {}
    } else {
        lemma_index_serialized(cs, (j - 1) as nat);
        lemma_parse_serialized(cs);
        let before = index_upto(data, n, (j - 1) as nat);
        let now = index_upto(data, n, j);
        assert(entry(data, n, j - 1) == (cs[j - 1].key, info_of(cs, j - 1)));
        assert(now == before.insert(cs[j - 1].key, info_of(cs, j - 1)));
        assert forall|key: u16| #[trigger] now.contains_key(key) <==> has_key(
            cs.take(j as int),
            key,
        ) by {
            if now.contains_key(key) {
                if key == cs[j - 1].key {
                    assert(cs.take(j as int)[j - 1].key == key);
                } else {
                    assert(before.contains_key(key));
                    let i = choose|i: int|
                        0 <= i < cs.take(j - 1).len() && (#[trigger] cs.take(j - 1)[i]).key == key;
                    assert(cs.take(j as int)[i].key == key);
                }
            }
            if has_key(cs.take(j as int), key) {
                let i = choose|i: int|
                    0 <= i < cs.take(j as int).len() && (#[trigger] cs.take(j as int)[i]).key
                        == key;
                if i < j - 1 {
                    assert(cs.take(j - 1)[i].key == key);
                    assert(has_key(cs.take(j - 1), key));
                }
            }
        }
        assert forall|i: int| 0 <= i < j implies now[(#[trigger] cs[i]).key] == info_of(
            cs,
            i,
        ) by {
            if i < j - 1 {
                assert(cs[i].key < cs[j - 1].key);
            }
        }
    }
}

/// The lazy index of the serialized form of a well-formed bitmap gives for
/// every key the container with that key, and nothing for a key that the
/// bitmap does not have.
pub proof fn lemma_get_serialized(cs: Seq<ContainerModel>, key: u16)
    requires
        containers_wf(cs),
    ensures
        parse(serialized(cs)) is Ok,
        lazy_wf(parse(serialized(cs))->Ok_0),
        get(parse(serialized(cs))->Ok_0, key) == Ok::<_, Error>(find(cs, key)),
{
    lemma_parse_serialized(cs);
    lemma_index_serialized(cs, cs.len());
    super::wire::lemma_index_wf(serialized(cs), cs.len(), cs.len());
    assert(cs.take(cs.len() as int) == cs);
    let m = parse(serialized(cs))->Ok_0;
    assert(m.payload == payload(cs));
    assert(m.index == index_upto(serialized(cs), cs.len(), cs.len()));
    if has_key(cs, key) {
        let i = choose|i: int| 0 <= i < cs.len() && (#[trigger] cs[i]).key == key;
        assert(m.index.contains_key(key));
        assert(m.index[cs[i].key] == info_of(cs, i));
        lemma_decode_serialized(cs, i);
    } else {
        assert(!m.index.contains_key(key));
    }
}

/// Reading gives back what was written: the serialized form of a
/// well-formed bitmap parses, every container loads, and the loaded
/// containers are those of the bitmap, so that the members and their order
/// are the same.
pub proof fn lemma_round_trip(cs: Seq<ContainerModel>)
    requires
        containers_wf(cs),
    ensures
        read(serialized(cs)) == Ok::<_, Error>(cs),
{
    lemma_get_serialized(cs, 0);
    let m = parse(serialized(cs))->Ok_0;
    assert forall|key: u16| #[trigger] get(m, key) == Ok::<_, Error>(find(cs, key)) by {
        lemma_get_serialized(cs, key);
    }
    lemma_load_from_get(m, cs);
}

/// The listed members of a well-formed bitmap are its members, each once
/// and in increasing order.
pub proof fn lemma_values_sorted(cs: Seq<ContainerModel>)
    requires
        containers_wf(cs),
    ensures
        forall|i: int, j: int| 0 <= i < j < values(cs).len() ==> values(cs)[i] < values(cs)[j],
        forall|v: u32| values(cs).contains(v) <==> contains(cs, v),
    decreases cs.len(),
{
    if cs.len() == 0 {
        assert forall|v: u32| values(cs).contains(v) <==> contains(cs, v) by {}
    } else {
        let front = cs.drop_last();
        let last = cs.last();
        let n = cs.len() - 1;
        lemma_values_sorted(front);
        lemma_store_values(last.store);
        let head = values(front);
        let tail = last.values();
        let lows = last.store.values();
        assert(values(cs) == head + tail);
        assert forall|i: int| 0 <= i < head.len() implies #[trigger] head[i] < last.key * 65536 by {
            assert(head.contains(head[i]));
            assert(contains(front, head[i]));
            let p = choose|p: int|
                0 <= p < front.len() && (#[trigger] front[p]).key == head[i] / 65536
                    && front[p].store.contains((head[i] % 65536) as u16);
            assert(cs[p].key < cs[n].key);
        }
        assert forall|i: int, j: int| 0 <= i < j < values(cs).len() implies values(cs)[i]
            < values(cs)[j] by {
            if j < head.len() {
            } else if i < head.len() {
                assert(head[i] < last.key * 65536);
                assert(tail[j - head.len()] == (last.key * 65536 + lows[j - head.len()]) as u32);
            } else {
                assert(tail[j - head.len()] == (last.key * 65536 + lows[j - head.len()]) as u32);
                assert(tail[i - head.len()] == (last.key * 65536 + lows[i - head.len()]) as u32);
                assert(lows[i - head.len()] < lows[j - head.len()]);
            }
        }
        assert forall|v: u32| values(cs).contains(v) <==> contains(cs, v) by {
            if values(cs).contains(v) {
                let i = choose|i: int| 0 <= i < values(cs).len() && values(cs)[i] == v;
                if i < head.len() {
                    assert(head[i] == v);
                    assert(head.contains(v));
                    assert(contains(front, v));
                    let p = choose|p: int|
                        0 <= p < front.len() && (#[trigger] front[p]).key == v / 65536
                            && front[p].store.contains((v % 65536) as u16);
                    assert(cs[p] == front[p]);
                    assert(cs[p].key == v / 65536);
                } else {
                    let low = lows[i - head.len()];
                    assert(values(cs)[i] == tail[i - head.len()]);
                    assert(tail[i - head.len()] == (last.key * 65536 + low) as u32);
                    assert(lows.contains(low));
                    assert(cs[n].key == v / 65536 && cs[n].store.contains((v % 65536) as u16));
                }
            }
            if contains(cs, v) {
                let p = choose|p: int|
                    0 <= p < cs.len() && (#[trigger] cs[p]).key == v / 65536
                        && cs[p].store.contains((v % 65536) as u16);
                if p < n {
                    assert(front[p].key == v / 65536);
                    assert(contains(front, v));
                    let i = choose|i: int| 0 <= i < head.len() && head[i] == v;
                    assert(values(cs)[i] == v);
                } else {
                    let low: u16 = (v % 65536) as u16;
                    assert(lows.contains(low));
                    let i = choose|i: int| 0 <= i < lows.len() && lows[i] == low;
                    assert(tail[i] == (last.key * 65536 + low) as u32);
                    assert(values(cs)[head.len() + i] == v);
                }
            }
        }
    }
}

/// The cardinality of a well-formed bitmap is the number of its members.
pub proof fn lemma_cardinality_counts_members(cs: Seq<ContainerModel>)
    requires
        containers_wf(cs),
    ensures
        members(cs).finite(),
        members(cs).len() == super::model::cardinality(cs),
{
    lemma_values_sorted(cs);
    super::model::lemma_values_len(cs);
    let listed = values(cs);
    assert(listed.no_duplicates());
    assert(listed.to_set() =~= members(cs));
    listed.unique_seq_to_set();
}

/// Reading the serialized form of a well-formed bitmap in place gives back
/// its containers, and listing their members gives exactly the members of
/// the bitmap, in increasing order.
pub proof fn lemma_archived_round_trip(cs: Seq<ContainerModel>)
    requires
        containers_wf(cs),
    ensures
        read(serialized(cs)) == Ok::<_, Error>(cs),
        forall|i: int, j: int| 0 <= i < j < values(cs).len() ==> values(cs)[i] < values(cs)[j],
        forall|v: u32| values(cs).contains(v) <==> members(cs).contains(v),
{
    lemma_round_trip(cs);
    lemma_values_sorted(cs);
}

/// Whether any two of the first `n` containers of `a` and the containers
/// of `b` that have the same key have disjoint stores.
pub open spec fn pairs_disjoint(a: Seq<ContainerModel>, b: Seq<ContainerModel>, n: nat) -> bool {
    forall|p: int, q: int|
        0 <= p < n && 0 <= q < b.len() && (#[trigger] a[p]).key == (#[trigger] b[q]).key
            ==> a[p].store.disjoint(b[q].store)
}

/// Where `get` gives the containers of `b` for their keys and nothing for
/// other keys, the comparison against the lazy index cannot fail, and says
/// whether the containers with the same keys have disjoint stores.
pub proof fn lemma_lazy_disjoint(
    a: Seq<ContainerModel>,
    b: Seq<ContainerModel>,
    m: LazyModel,
    n: nat,
)
    requires
        forall|i: int, j: int| 0 <= i < j < b.len() ==> b[i].key < b[j].key,
        forall|key: u16| #[trigger] get(m, key) == Ok::<_, Error>(find(b, key)),
        n <= a.len(),
    ensures
        lazy_disjoint_upto(a, m, n) == Ok::<bool, Error>(pairs_disjoint(a, b, n)),
    decreases n,
{
    if n > 0 {
        lemma_lazy_disjoint(a, b, m, (n - 1) as nat);
        let key = a[n - 1].key;
        assert(get(m, key) == Ok::<_, Error>(find(b, key)));
        if pairs_disjoint(a, b, (n - 1) as nat) {
            if has_key(b, key) {
                let q0 = choose|q: int| 0 <= q < b.len() && (#[trigger] b[q]).key == key;
                if a[n - 1].store.disjoint(b[q0].store) {
                    assert forall|p: int, q: int|
                        0 <= p < n && 0 <= q < b.len() && (#[trigger] a[p]).key == (
                        #[trigger] b[q]).key implies a[p].store.disjoint(b[q].store) by {
                        if p == n - 1 {
                            if q < q0 {
                                assert(b[q].key < b[q0].key);
                            } else if q0 < q {
                                assert(b[q0].key < b[q].key);
                            }
                        }
                    }
                } else {
                    assert(a[n - 1].key == b[q0].key);
                }
            } else {
                assert forall|p: int, q: int|
                    0 <= p < n && 0 <= q < b.len() && (#[trigger] a[p]).key == (
                    #[trigger] b[q]).key implies a[p].store.disjoint(b[q].store) by {
                    if p == n - 1 {
                        assert(has_key(b, key));
                    }
                }
            }
        }
    }
}

/// The three ways of asking whether two well-formed bitmaps are disjoint
/// agree: against the owned bitmap `b`, against the lazy index of its
/// serialized form, which then cannot fail, and against the archived view
/// of its serialized form, which holds the containers of `b`.
pub proof fn lemma_disjoint_equivalence(a: Seq<ContainerModel>, b: Seq<ContainerModel>)
    requires
        containers_wf(a),
        containers_wf(b),
    ensures
        parse(serialized(b)) is Ok,
        lazy_disjoint_upto(a, parse(serialized(b))->Ok_0, a.len()) == Ok::<bool, Error>(
            disjoint(a, b),
        ),
        read(serialized(b)) == Ok::<_, Error>(b),
{
    lemma_round_trip(b);
    lemma_get_serialized(b, 0);
    let m = parse(serialized(b))->Ok_0;
    assert forall|key: u16| #[trigger] get(m, key) == Ok::<_, Error>(find(b, key)) by {
        lemma_get_serialized(b, key);
    }
    lemma_lazy_disjoint(a, b, m, a.len());
    if pairs_disjoint(a, b, a.len()) {
        lemma_pairwise_disjoint(a, b);
    } else {
        let (p, q) = choose|p: int, q: int|
            0 <= p < a.len() && 0 <= q < b.len() && (#[trigger] a[p]).key == (#[trigger] b[q]).key
                && !a[p].store.disjoint(b[q].store);
        lemma_shared_member(a, b, p, q);
    }
}

/// What a reader hands out when every member is taken from the back.
pub open spec fn taken_from_back(s: Seq<u32>) -> Seq<u32>
    decreases s.len(),
{
    if s.len() == 0 {
        Seq::empty()
    } else {
        seq![s.last()] + taken_from_back(s.drop_last())
    }
}

/// Reading from the back mirrors reading from the front: the member at
/// index `i` from the front is the member at index `n - 1 - i` from the
/// back, where `n` is the number of members.
pub proof fn lemma_reverse_symmetry(s: Seq<u32>, i: int)
    requires
        0 <= i < s.len(),
    ensures
        taken_from_back(s).len() == s.len(),
        taken_from_back(s)[s.len() - 1 - i] == s[i],
    decreases s.len(),
{
    lemma_taken_from_back_len(s);
    lemma_taken_from_back_len(s.drop_last());
    if i < s.len() - 1 {
        lemma_reverse_symmetry(s.drop_last(), i);
    }
}

/// Taking every member from the back takes as many as there are.
pub proof fn lemma_taken_from_back_len(s: Seq<u32>)
    ensures
        taken_from_back(s).len() == s.len(),
    decreases s.len(),
{
    if s.len() > 0 {
        lemma_taken_from_back_len(s.drop_last());
    }
}

} // verus!
