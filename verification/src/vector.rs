//! Vector records: the immutable descriptors that neighbor sets hold.

use vstd::prelude::*;
use vstd::std_specs::cmp::PartialEqSpecImpl;

verus! {

/// A vector of the index: its 128-bit id, the level it resides at, and a
/// payload that the neighbor cache carries along without looking at it.
///
/// A record cannot be changed once it is built. Two records are equal when
/// their ids are, whatever their levels and payloads.
#[derive(Debug, Clone)]
pub struct HVector<D> {
    id: u128,
    level: usize,
    data: D,
}

impl<D> HVector<D> {
    /// The id of the record.
    pub closed spec fn id(&self) -> u128 {
        self.id
    }

    /// The level the record resides at.
    pub closed spec fn level(&self) -> usize {
        self.level
    }

    /// The payload of the record.
    pub closed spec fn data(&self) -> D {
        self.data
    }

    /// A record with the given id, level and payload.
    pub fn new(id: u128, level: usize, data: D) -> (v: Self)
        ensures
            v.id() == id,
            v.level() == level,
            v.data() == data,
    {
        HVector { id, level, data }
    }

    /// The id of the record.
    pub fn get_id(&self) -> (id: u128)
        ensures
            id == self.id(),
    {
        self.id
    }

    /// The level the record resides at.
    pub fn get_level(&self) -> (level: usize)
        ensures
            level == self.level(),
    {
        self.level
    }

    /// The payload of the record.
    pub fn get_data(&self) -> (data: &D)
        ensures
            *data == self.data(),
    {
        &self.data
    }
}

impl<D> PartialEq for HVector<D> {
    fn eq(&self, other: &Self) -> (r: bool) {
        self.id == other.id
    }
}

impl<D> PartialEqSpecImpl for HVector<D> {
    open spec fn obeys_eq_spec() -> bool {
        true
    }

    open spec fn eq_spec(&self, other: &Self) -> bool {
        self.id() == other.id()
    }
}

impl<D> Eq for HVector<D> {}

} // verus!
