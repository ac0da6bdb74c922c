//! Reading the members of an owned bitmap, from either end.

use super::container::models;
use super::inherent::RoaringBitmap;
use super::model::{lemma_cardinality_step, values};
use super::view::append_values;
use vstd::prelude::*;

verus! {

/// A reader of the members of an owned bitmap. It hands them out in
/// increasing order from the front and in decreasing order from the back,
/// each member once.
#[derive(Clone, Debug)]
pub struct Iter {
    items: Vec<u32>,
    front: usize,
    back: usize,
}

impl Iter {
    /// The reader's two ends have not crossed.
    pub closed spec fn wf(&self) -> bool {
        self.front <= self.back <= self.items@.len()
    }

    /// The members that are left, in increasing order.
    pub closed spec fn remaining(&self) -> Seq<u32> {
        self.items@.subrange(self.front as int, self.back as int)
    }

    /// The smallest member that is left, if there is one.
    pub fn next(&mut self) -> (r: Option<u32>)
        requires
            old(self).wf(),
        ensures
            final(self).wf(),
            match r {
                Some(v) => old(self).remaining().len() > 0 && v == old(self).remaining().first()
                    && final(self).remaining() == old(self).remaining().drop_first(),
                None => old(self).remaining().len() == 0 && final(self).remaining()
                    == old(self).remaining(),
            },
    {
        if self.front < self.back {
            let v: u32 = self.items[self.front];
            self.front = self.front + 1;
            Some(v)
        } else {
            None
        }
    }

    /// The largest member that is left, if there is one.
    pub fn next_back(&mut self) -> (r: Option<u32>)
        requires
            old(self).wf(),
        ensures
            final(self).wf(),
            match r {
                Some(v) => old(self).remaining().len() > 0 && v == old(self).remaining().last()
                    && final(self).remaining() == old(self).remaining().drop_last(),
                None => old(self).remaining().len() == 0 && final(self).remaining()
                    == old(self).remaining(),
            },
    {
        if self.front < self.back {
            self.back = self.back - 1;
            let v: u32 = self.items[self.back];
            Some(v)
        } else {
            None
        }
    }

    /// The number of members that are left, as a lower and an upper bound.
    pub fn size_hint(&self) -> (r: (usize, Option<usize>))
        requires
            self.wf(),
        ensures
            r.0 == self.remaining().len(),
            r.1 == Some(r.0),
    {
        let n: usize = self.back - self.front;
        (n, Some(n))
    }
}

impl RoaringBitmap {
    /// The members in increasing order.
    pub fn to_vec(&self) -> (r: Vec<u32>)
        requires
            self.wf(),
        ensures
            r@ == values(self@),
    {
        let containers = self.containers();
        let mut out: Vec<u32> = Vec::new();
        let mut i: usize = 0;
        while i < containers.len()
            invariant
                i <= containers@.len(),
                self.wf(),
                self@ == models(containers@),
                out@ == values(self@.take(i as int)),
            decreases containers@.len() - i,
        {
            let c = &containers[i];
            assert(self@[i as int] == c@);
            proof {
                lemma_cardinality_step(self@, i as int);
            }
            append_values(&mut out, c.key, &c.store.as_ref());
            i += 1;
        }
        assert(self@.take(i as int) == self@);
        out
    }

    /// A reader of the members.
    pub fn iter(&self) -> (it: Iter)
        requires
            self.wf(),
        ensures
            it.wf(),
            it.remaining() == values(self@),
    {
        let items = self.to_vec();
        let back: usize = items.len();
        let it = Iter { items, front: 0, back };
        assert(it.items@.subrange(0, back as int) == it.items@);
        it
    }
}

} // verus!
