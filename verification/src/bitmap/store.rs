//! The owned store: the low halves of the members that share one key, kept
//! as a sorted array while they are few and as a row of bits once they are
//! many.

use super::bits::{
    bit_at, count_below, lemma_count_below_bound, lemma_with_bit, lemma_with_bit_count,
    lemma_zero_words, set_bit, test_bit, with_bit,
};
use super::model::{strictly_increasing, StoreModel, ARRAY_LIMIT, BITMAP_WORDS};
use super::view::{Shorts, StoreRef, Words};
use crate::error::Error;
use vstd::prelude::*;

verus! {

/// An owned store.
#[derive(Clone, Debug, PartialEq, Eq)]
pub enum Store {
    /// The members in increasing order; at most 4096 of them.
    Array(Vec<u16>),
    /// One bit per possible member in 1024 words, and the number of set
    /// bits, which is more than 4096.
    Bitmap { len: u64, bits: Vec<u64> },
}

impl View for Store {
    type V = StoreModel;

    open spec fn view(&self) -> StoreModel {
        match self {
            Store::Array(values) => StoreModel::Array(values@),
            Store::Bitmap { len, bits } => StoreModel::Bitmap { len: *len as nat, words: bits@ },
        }
    }
}

impl Store {
    /// The array store of these values. They are refused unless they are
    /// between 1 and 4096 in number and strictly increasing.
    pub fn array(values: Vec<u16>) -> (r: Result<Store, Error>)
        ensures
            match r {
                Ok(s) => s@ == StoreModel::Array(values@) && s@.wf(),
                Err(e) => e == Error::Corrupt && !StoreModel::Array(values@).wf(),
            },
    {
        if values.len() == 0 || values.len() > ARRAY_LIMIT {
            return Err(Error::Corrupt);
        }
        if !Shorts::Native(values.as_slice()).is_strictly_increasing() {
            return Err(Error::Corrupt);
        }
        Ok(Store::Array(values))
    }

    /// The bitmap store of these words. They are refused unless there are
    /// 1024 of them, `len` is the number of their set bits, and `len` is
    /// more than 4096.
    pub fn bitmap(len: u64, bits: Vec<u64>) -> (r: Result<Store, Error>)
        ensures
            match r {
                Ok(s) => s@ == (StoreModel::Bitmap { len: len as nat, words: bits@ }) && s@.wf(),
                Err(e) => e == Error::Corrupt && !(StoreModel::Bitmap {
                    len: len as nat,
                    words: bits@,
                }).wf(),
            },
    {
        if bits.len() != BITMAP_WORDS || len <= ARRAY_LIMIT as u64 {
            return Err(Error::Corrupt);
        }
        if Words::Native(bits.as_slice()).count_set_bits() != len {
            return Err(Error::Corrupt);
        }
        Ok(Store::Bitmap { len, bits })
    }

    /// The store that holds `v` alone.
    pub fn single(v: u16) -> (s: Store)
        ensures
            s@ == StoreModel::Array(seq![v]),
            s@.wf(),
    {
        let mut values: Vec<u16> = Vec::new();
        values.push(v);
        assert(values@ == seq![v]);
        Store::Array(values)
    }

    /// The store, borrowed.
    pub fn as_ref(&self) -> (r: StoreRef<'_>)
        ensures
            r@ == self@,
    {
        match self {
            Store::Array(values) => StoreRef::Array(Shorts::Native(values.as_slice())),
            Store::Bitmap { len, bits } => StoreRef::Bitmap {
                len: *len,
                words: Words::Native(bits.as_slice()),
            },
        }
    }

    /// The number of members.
    pub fn len(&self) -> (n: u64)
        ensures
            n == self@.card(),
    {
        self.as_ref().len()
    }

    /// Whether `v` is a member.
    pub fn contains(&self, v: u16) -> (r: bool)
        requires
            self@.wf(),
        ensures
            r == self@.contains(v),
    {
        self.as_ref().contains(v)
    }

    /// Whether the two stores share no member.
    pub fn is_disjoint(&self, other: &Store) -> (r: bool)
        requires
            self@.wf(),
            other@.wf(),
        ensures
            r == self@.disjoint(other@),
    {
        self.as_ref().is_disjoint(&other.as_ref())
    }

    /// Adds `v`. Returns whether it was new. An array that grows past 4096
    /// members becomes a bitmap.
    pub fn insert(&mut self, v: u16) -> (added: bool)
        requires
            old(self)@.wf(),
        ensures
            final(self)@.wf(),
            added == !old(self)@.contains(v),
            forall|x: u16| final(self)@.contains(x) <==> (old(self)@.contains(x) || x == v),
            final(self)@.card() == old(self)@.card() + if added {
                1nat
            } else {
                0nat
            },
    {
        match self {
            Store::Array(values) => {
                let ghost before = values@;
                let n: usize = values.len();
                let mut at: usize = n;
                while at > 0 && values[at - 1] >= v
                    invariant
                        at <= n == values@.len(),
                        values@ == before,
                        forall|i: int| at <= i < n ==> values@[i] >= v,
                    decreases at,
                {
                    at -= 1;
                }
                if at < n && values[at] == v {
                    assert(before.contains(v));
                    return false;
                }
                assert(!before.contains(v)) by {
                    if before.contains(v) {
                        let i = choose|i: int| 0 <= i < before.len() && before[i] == v;
                        if i < at {
                            assert(before[i] < before[at - 1]);
                        }
                    }
                }
                values.insert(at, v);
                let ghost after = values@;
                assert(strictly_increasing(after)) by {
                    assert forall|i: int, j: int| 0 <= i < j < after.len() implies after[i]
                        < after[j] by {
                        if j < at {
                        } else if j == at {
                            assert(after[i] == before[i]);
                            assert(before[i] <= before[at - 1]);
                        } else if i < at {
                            assert(after[j] == before[j - 1]);
                        } else if i == at {
                            assert(after[j] == before[j - 1]);
                        } else {
                            assert(after[i] == before[i - 1]);
                            assert(after[j] == before[j - 1]);
                        }
                    }
                }
                assert forall|x: u16| after.contains(x) <==> (before.contains(x) || x == v) by {
                    if after.contains(x) {
                        let i = choose|i: int| 0 <= i < after.len() && after[i] == x;
                        if i < at {
                            assert(before[i] == x);
                        } else if i > at {
                            assert(before[i - 1] == x);
                        }
                    }
                    if before.contains(x) {
                        let i = choose|i: int| 0 <= i < before.len() && before[i] == x;
                        if i < at {
                            assert(after[i] == x);
                        } else {
                            assert(after[i + 1] == x);
                        }
                    }
                    if x == v {
                        assert(after[at as int] == x);
                    }
                }
                if values.len() > ARRAY_LIMIT {
                    let bits: Vec<u64> = bits_of(values);
                    let len: u64 = values.len() as u64;
                    *self = Store::Bitmap { len, bits };
                }
                true
            },
            Store::Bitmap { len, bits } => {
                let pos: usize = v as usize;
                let k: usize = pos / 64;
                let b: u64 = (pos % 64) as u64;
                let w: u64 = bits[k];
                if test_bit(w, b) {
                    return false;
                }
                proof {
                    lemma_with_bit(bits@, pos as int);
                    lemma_with_bit_count(bits@, pos as int, 65536);
                    lemma_count_below_bound(with_bit(bits@, pos as int), 65536);
                }
                bits[k] = set_bit(w, b);
                *len = *len + 1;
                true
            },
        }
    }
}

/// The 1024 words in which exactly the positions of the given values are set.
fn bits_of(values: &Vec<u16>) -> (bits: Vec<u64>)
    requires
        strictly_increasing(values@),
    ensures
        bits@.len() == BITMAP_WORDS,
        forall|x: u16| bit_at(bits@, x as int) <==> values@.contains(x),
        count_below(bits@, 65536) == values@.len(),
{
    let mut bits: Vec<u64> = Vec::new();
    let mut k: usize = 0;
    while k < BITMAP_WORDS
        invariant
            k <= BITMAP_WORDS,
            bits@.len() == k,
            forall|i: int| 0 <= i < k ==> bits@[i] == 0,
        decreases BITMAP_WORDS - k,
    {
        bits.push(0);
        k += 1;
    }
    proof {
        lemma_zero_words(bits@, 65536);
    }
    let n: usize = values.len();
    let mut i: usize = 0;
    while i < n
        invariant
            i <= n == values@.len(),
            strictly_increasing(values@),
            bits@.len() == BITMAP_WORDS,
            forall|x: u16|
                bit_at(bits@, x as int) <==> exists|p: int| 0 <= p < i && values@[p] == x,
            count_below(bits@, 65536) == i,
        decreases n - i,
    {
        let v: u16 = values[i];
        let pos: usize = v as usize;
        let k: usize = pos / 64;
        let b: u64 = (pos % 64) as u64;
        let ghost before = bits@;
        proof {
            assert(!bit_at(before, pos as int)) by {
                if bit_at(before, v as int) {
                    let p = choose|p: int| 0 <= p < i && values@[p] == v;
                    assert(values@[p] < values@[i as int]);
                }
            }
            lemma_with_bit(before, pos as int);
            lemma_with_bit_count(before, pos as int, 65536);
        }
        let w: u64 = bits[k];
        bits[k] = set_bit(w, b);
        assert(bits@ == with_bit(before, pos as int));
        assert forall|x: u16| bit_at(bits@, x as int) <==> exists|p: int|
            0 <= p < i + 1 && values@[p] == x by {
            if bit_at(bits@, x as int) {
                if x == v {
                    assert(values@[i as int] == x);
                } else {
                    assert(bit_at(before, x as int));
                    let p = choose|p: int| 0 <= p < i && values@[p] == x;
                    assert(0 <= p < i + 1 && values@[p] == x);
                }
            }
            if exists|p: int| 0 <= p < i + 1 && values@[p] == x {
                let p = choose|p: int| 0 <= p < i + 1 && values@[p] == x;
                if p < i {
                    assert(bit_at(before, x as int));
                }
            }
        }
        i += 1;
    }
    bits
}

} // verus!
