//! The two kinds, and the selection of the collection that belongs to a kind.

use crate::sealed::Sealed;
use vstd::prelude::*;

verus! {

/// A kind as a value.
#[derive(Clone, Copy, Debug, Eq, Hash, PartialEq, Structural)]
pub enum DynamicKind {
    /// The kind of the bigs.
    Big,
    /// The kind of the littles.
    Little,
}

impl DynamicKind {
    /// The other kind.
    pub open spec fn opposite(self) -> DynamicKind {
        match self {
            DynamicKind::Big => DynamicKind::Little,
            DynamicKind::Little => DynamicKind::Big,
        }
    }
}

/// A structure that holds one collection for each kind names the type of the collection that
/// it holds for `K`, and says which of its collections that is.
pub trait SelectBase<K> {
    /// The type of the collection held for `K`.
    type Type;

    /// The collection held for `K`.
    spec fn part(&self) -> &Self::Type;
}

/// The type of the collection that `S` holds for `K`.
pub type SelectType<K, S> = <S as SelectBase<K>>::Type;

/// Shared access to both collections of a structure.
pub trait Select<K>: SelectBase<K> + SelectBase<Big> + SelectBase<Little> {
    /// Returns the collection held for the bigs.
    fn big(&self) -> (r: &SelectType<Big, Self>)
        ensures
            r == <Self as SelectBase<Big>>::part(self),
    ;

    /// Returns the collection held for the littles.
    fn little(&self) -> (r: &SelectType<Little, Self>)
        ensures
            r == <Self as SelectBase<Little>>::part(self),
    ;
}

/// Mutable access to both collections of a structure. What is written through the reference
/// that one method hands out lands in that collection, and the other collection stays as it is.
pub trait SelectMut<K>: Select<K> {
    /// Returns the collection held for the bigs.
    fn big(&mut self) -> (r: &mut SelectType<Big, Self>)
        ensures
            *r == *<Self as SelectBase<Big>>::part(old(self)),
            *<Self as SelectBase<Big>>::part(final(self)) == *final(r),
            *<Self as SelectBase<Little>>::part(final(self)) == *<Self as SelectBase<
                Little,
            >>::part(old(self)),
    ;

    /// Returns the collection held for the littles.
    fn little(&mut self) -> (r: &mut SelectType<Little, Self>)
        ensures
            *r == *<Self as SelectBase<Little>>::part(old(self)),
            *<Self as SelectBase<Little>>::part(final(self)) == *final(r),
            *<Self as SelectBase<Big>>::part(final(self)) == *<Self as SelectBase<Big>>::part(
                old(self),
            ),
    ;
}

/// A kind: big or little. The trait is sealed, [`Big`] and [`Little`] are its only impls.
pub trait Kind: Sealed + Sized {
    /// The other kind: the littles for the bigs, the bigs for the littles.
    type Opposite;

    /// The kind as a value.
    spec fn kind() -> DynamicKind;

    /// Returns the [`DynamicKind`] that matches `Self`.
    fn dynamic() -> (r: DynamicKind)
        ensures
            r == Self::kind(),
    ;

    /// Returns the collection that `select` holds for `Self`.
    fn select<S: Select<Self>>(select: &S) -> (r: &SelectType<Self, S>)
        ensures
            r == <S as SelectBase<Self>>::part(select),
    ;

    /// Returns the collection that `select` holds for `Self`, to be changed in place. The
    /// collection of the other kind stays as it is.
    fn select_mut<S: SelectMut<Self>>(select: &mut S) -> (r: &mut SelectType<Self, S>)
        ensures
            *r == *<S as SelectBase<Self>>::part(old(select)),
            *<S as SelectBase<Self>>::part(final(select)) == *final(r),
            Self::kind() != DynamicKind::Big ==> *<S as SelectBase<Big>>::part(final(select))
                == *<S as SelectBase<Big>>::part(old(select)),
            Self::kind() != DynamicKind::Little ==> *<S as SelectBase<Little>>::part(
                final(select),
            ) == *<S as SelectBase<Little>>::part(old(select)),
    ;
}

/// The marker of the bigs.
#[derive(Clone, Copy, Debug, Default, Eq, Hash, Ord, PartialEq, PartialOrd)]
pub struct Big;

/// The marker of the littles.
#[derive(Clone, Copy, Debug, Default, Eq, Hash, Ord, PartialEq, PartialOrd)]
pub struct Little;

impl Sealed for Big {

}

impl Sealed for Little {

}

impl Kind for Big {
    type Opposite = Little;

    open spec fn kind() -> DynamicKind {
        DynamicKind::Big
    }

    #[inline]
    fn dynamic() -> (r: DynamicKind) {
        DynamicKind::Big
    }

    #[inline]
    fn select<S: Select<Self>>(select: &S) -> (r: &SelectType<Self, S>) {
        select.big()
    }

    #[inline]
    fn select_mut<S: SelectMut<Self>>(select: &mut S) -> (r: &mut SelectType<Self, S>) {
        select.big()
    }
}

impl Kind for Little {
    type Opposite = Big;

    open spec fn kind() -> DynamicKind {
        DynamicKind::Little
    }

    #[inline]
    fn dynamic() -> (r: DynamicKind) {
        DynamicKind::Little
    }

    #[inline]
    fn select<S: Select<Self>>(select: &S) -> (r: &SelectType<Self, S>) {
        select.little()
    }

    #[inline]
    fn select_mut<S: SelectMut<Self>>(select: &mut S) -> (r: &mut SelectType<Self, S>) {
        select.little()
    }
}

} // verus!
