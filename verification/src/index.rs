//! Typed indices and typed preference ranks.

use crate::kind::{Big, Kind, Little};
use core::cmp::Ordering;
use core::marker::PhantomData;
use vstd::prelude::*;
use vstd::std_specs::cmp::{PartialEqSpecImpl, PartialOrdSpecImpl};
use vstd::std_specs::convert::{FromSpec, FromSpecImpl};

verus! {

/// The index of a big.
pub type BigIndex = Index<Big>;

/// The index of a little.
pub type LittleIndex = Index<Little>;

/// The rank that a big gives.
pub type BigPreference = Preference<Big>;

/// The rank that a little gives.
pub type LittlePreference = Preference<Little>;

/// The index of a member of kind `K`: its place, from 0, in the order in which the members of
/// that kind were registered. An index of one kind cannot stand where the other is expected.
#[derive(Debug, Hash, Ord)]
pub struct Index<K: Kind> {
    index: u32,
    __: PhantomData<K>,
}

impl<K: Kind> View for Index<K> {
    type V = u32;

    closed spec fn view(&self) -> u32 {
        self.index
    }
}

impl<K: Kind> Index<K> {
    /// Builds a new [`Index`] from `index`.
    #[inline]
    pub fn new(index: u32) -> (r: Self)
        ensures
            r@ == index,
    {
        Self { index, __: PhantomData }
    }

    /// Returns the index as a number.
    #[inline]
    pub fn get(self) -> (r: u32)
        ensures
            r == self@,
    {
        self.index
    }
}

impl<K: Kind> Clone for Index<K> {
    #[inline]
    fn clone(&self) -> (r: Self)
        ensures
            r == *self,
    {
        *self
    }
}

impl<K: Kind> Copy for Index<K> {

}

impl<K: Kind> PartialEq for Index<K> {
    #[inline]
    fn eq(&self, other: &Self) -> (r: bool) {
        self.index == other.index
    }
}

impl<K: Kind> PartialEqSpecImpl for Index<K> {
    open spec fn obeys_eq_spec() -> bool {
        true
    }

    open spec fn eq_spec(&self, other: &Self) -> bool {
        self@ == other@
    }
}

impl<K: Kind> Eq for Index<K> {

}

impl<K: Kind> PartialOrd for Index<K> {
    #[inline]
    fn partial_cmp(&self, other: &Self) -> (r: Option<Ordering>) {
        if self.index < other.index {
            Some(Ordering::Less)
        } else if self.index == other.index {
            Some(Ordering::Equal)
        } else {
            Some(Ordering::Greater)
        }
    }
}

impl<K: Kind> PartialOrdSpecImpl for Index<K> {
    open spec fn obeys_partial_cmp_spec() -> bool {
        true
    }

    open spec fn partial_cmp_spec(&self, other: &Self) -> Option<Ordering> {
        if self@ < other@ {
            Some(Ordering::Less)
        } else if self@ == other@ {
            Some(Ordering::Equal)
        } else {
            Some(Ordering::Greater)
        }
    }
}

impl<K: Kind> From<u32> for Index<K> {
    #[inline]
    fn from(index: u32) -> (r: Self) {
        Self::new(index)
    }
}

impl<K: Kind> FromSpecImpl<u32> for Index<K> {
    open spec fn obeys_from_spec() -> bool {
        true
    }

    closed spec fn from_spec(index: u32) -> Self {
        Index { index, __: PhantomData }
    }
}

impl<K: Kind> From<usize> for Index<K> {
    /// Keeps the low 32 bits of `index`.
    #[inline]
    fn from(index: usize) -> (r: Self) {
        Self::new(#[verifier::truncate] (index as u32))
    }
}

impl<K: Kind> FromSpecImpl<usize> for Index<K> {
    open spec fn obeys_from_spec() -> bool {
        true
    }

    closed spec fn from_spec(index: usize) -> Self {
        Index { index: index as u32, __: PhantomData }
    }
}

impl<K: Kind> Index<K> {
    /// The index made from a number is the index of that number, and of its low 32 bits where
    /// the number is larger than an index can be.
    pub proof fn lemma_from(index: u32, wide: usize)
        ensures
            <Self as FromSpec<u32>>::from_spec(index)@ == index,
            <Self as FromSpec<usize>>::from_spec(wide)@ == wide as u32,
    {
    }
}

/// A preference rank given by a member of kind `K`: 1 for the member it likes best, 2 for the
/// next, and so on. A rank is never 0.
#[derive(Debug, Hash, Ord)]
pub struct Preference<K: Kind> {
    preference: u32,
    __: PhantomData<K>,
}

impl<K: Kind> View for Preference<K> {
    type V = u32;

    closed spec fn view(&self) -> u32 {
        self.preference
    }
}

impl<K: Kind> Preference<K> {
    /// Builds a new [`Preference`] from the rank `preference`, which is at least 1.
    #[inline]
    pub fn new(preference: u32) -> (r: Self)
        requires
            preference >= 1,
        ensures
            r@ == preference,
    {
        Self { preference, __: PhantomData }
    }

    /// Returns the rank as a number.
    #[inline]
    pub fn get(self) -> (r: u32)
        ensures
            r == self@,
    {
        self.preference
    }
}

impl<K: Kind> Clone for Preference<K> {
    #[inline]
    fn clone(&self) -> (r: Self)
        ensures
            r == *self,
    {
        *self
    }
}

impl<K: Kind> Copy for Preference<K> {

}

impl<K: Kind> PartialEq for Preference<K> {
    #[inline]
    fn eq(&self, other: &Self) -> (r: bool) {
        self.preference == other.preference
    }
}

impl<K: Kind> PartialEqSpecImpl for Preference<K> {
    open spec fn obeys_eq_spec() -> bool {
        true
    }

    open spec fn eq_spec(&self, other: &Self) -> bool {
        self@ == other@
    }
}

impl<K: Kind> Eq for Preference<K> {

}

impl<K: Kind> PartialOrd for Preference<K> {
    #[inline]
    fn partial_cmp(&self, other: &Self) -> (r: Option<Ordering>) {
        if self.preference < other.preference {
            Some(Ordering::Less)
        } else if self.preference == other.preference {
            Some(Ordering::Equal)
        } else {
            Some(Ordering::Greater)
        }
    }
}

impl<K: Kind> PartialOrdSpecImpl for Preference<K> {
    open spec fn obeys_partial_cmp_spec() -> bool {
        true
    }

    open spec fn partial_cmp_spec(&self, other: &Self) -> Option<Ordering> {
        if self@ < other@ {
            Some(Ordering::Less)
        } else if self@ == other@ {
            Some(Ordering::Equal)
        } else {
            Some(Ordering::Greater)
        }
    }
}

} // verus!
