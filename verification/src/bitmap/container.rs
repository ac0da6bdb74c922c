//! The container: a key and the store of the members that share it.

use super::model::ContainerModel;
use super::store::Store;
use vstd::prelude::*;

verus! {

/// A store and the high half that its members share.
#[derive(Clone, Debug, PartialEq, Eq)]
pub struct Container {
    pub key: u16,
    pub store: Store,
}

impl View for Container {
    type V = ContainerModel;

    open spec fn view(&self) -> ContainerModel {
        ContainerModel { key: self.key, store: self.store@ }
    }
}

/// The containers as mathematical values.
pub open spec fn models(cs: Seq<Container>) -> Seq<ContainerModel> {
    cs.map_values(|c: Container| c@)
}

impl Container {
    /// The container that holds the one member `key * 65536 + low`.
    pub fn single(key: u16, low: u16) -> (c: Container)
        ensures
            c@.key == key,
            c@.store == super::model::StoreModel::Array(seq![low]),
            c@.store.wf(),
    {
        Container { key, store: Store::single(low) }
    }

    /// The number of members.
    pub fn len(&self) -> (n: u64)
        ensures
            n == self@.store.card(),
    {
        self.store.len()
    }

    /// Whether the stores of the two containers share no member. The keys
    /// are not compared.
    pub fn is_disjoint(&self, other: &Container) -> (r: bool)
        requires
            self@.store.wf(),
            other@.store.wf(),
        ensures
            r == self@.store.disjoint(other@.store),
    {
        self.store.is_disjoint(&other.store)
    }
}

} // verus!
