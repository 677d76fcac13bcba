//! The registry of names.

use crate::index::Index;
use crate::kind::{DynamicKind, Kind, Select, SelectBase, SelectMut};
use crate::model::index_limit;
use crate::ordered::{
    name_list_contains, name_list_get_index, name_list_get_index_of, name_list_insert_full,
    name_list_len, name_list_new, names, NameList,
};
use indexmap::IndexSet;
use std::hash::RandomState;
use vstd::prelude::*;

verus! {

/// What the registry holds: the names of the bigs and the names of the littles, each list in
/// the order of the indices.
pub struct NamesView {
    /// The names of the bigs.
    pub bigs: Seq<Seq<char>>,
    /// The names of the littles.
    pub littles: Seq<Seq<char>>,
}

impl NamesView {
    /// The names of the members of `kind`.
    pub open spec fn list(self, kind: DynamicKind) -> Seq<Seq<char>> {
        match kind {
            DynamicKind::Big => self.bigs,
            DynamicKind::Little => self.littles,
        }
    }

    /// No name stands twice in a list, no name stands in both lists, and each name has an
    /// index.
    pub open spec fn wf(self) -> bool {
        &&& self.bigs.no_duplicates()
        &&& self.littles.no_duplicates()
        &&& forall|i: int, j: int|
            0 <= i < self.bigs.len() && 0 <= j < self.littles.len() ==> self.bigs[i]
                != self.littles[j]
        &&& self.bigs.len() <= index_limit()
        &&& self.littles.len() <= index_limit()
    }

    /// The index of `name` among the members of `kind`, if it is one of them.
    pub open spec fn index_of(self, kind: DynamicKind, name: Seq<char>) -> Option<int> {
        if self.list(kind).contains(name) {
            Some(self.list(kind).index_of(name))
        } else {
            None
        }
    }

    /// `name` cannot become a member of `kind`: it is a member of the other kind.
    pub open spec fn rejects(self, kind: DynamicKind, name: Seq<char>) -> bool {
        self.list(kind.opposite()).contains(name)
    }

    /// The registry after `name` was inserted as a member of `kind`: a new name goes to the end
    /// of the list of `kind`; a name that is rejected, or is a member of `kind` already, changes
    /// nothing.
    pub open spec fn inserted(self, kind: DynamicKind, name: Seq<char>) -> NamesView {
        if self.rejects(kind, name) || self.list(kind).contains(name) {
            self
        } else {
            match kind {
                DynamicKind::Big => NamesView { bigs: self.bigs.push(name), ..self },
                DynamicKind::Little => NamesView { littles: self.littles.push(name), ..self },
            }
        }
    }

    /// What the insertion of `name` as a member of `kind` returns: nothing where the name is
    /// rejected, the index that the name has where it is a member of `kind` already, and else
    /// the next free index of `kind`.
    pub open spec fn inserted_index(self, kind: DynamicKind, name: Seq<char>) -> Option<int> {
        if self.rejects(kind, name) {
            None
        } else if self.list(kind).contains(name) {
            Some(self.list(kind).index_of(name))
        } else {
            Some(self.list(kind).len() as int)
        }
    }

    /// The registry after each of `names` was inserted as a member of `kind`, in their order.
    pub open spec fn inserted_all(self, kind: DynamicKind, names: Seq<Seq<char>>) -> NamesView
        decreases names.len(),
    {
        if names.len() == 0 {
            self
        } else {
            self.inserted_all(kind, names.drop_last()).inserted(kind, names.last())
        }
    }
}

/// The kind that `K` names as its opposite is the other kind.
pub open spec fn opposed<K: Kind>() -> bool where K::Opposite: Kind {
    <K::Opposite as Kind>::kind() == K::kind().opposite()
}

/// The names of the bigs and of the littles. A name has its index from the order of
/// insertion, and no name belongs to both kinds.
#[derive(Debug)]
#[verifier::reject_recursive_types(T)]
pub struct Names<T = String> {
    bigs: IndexSet<T, RandomState>,
    littles: IndexSet<T, RandomState>,
}

impl View for Names {
    type V = NamesView;

    closed spec fn view(&self) -> NamesView {
        NamesView { bigs: names(self.bigs), littles: names(self.littles) }
    }
}

impl<K: Kind> SelectBase<K> for Names {
    type Type = NameList;

    closed spec fn part(&self) -> &NameList {
        match K::kind() {
            DynamicKind::Big => &self.bigs,
            DynamicKind::Little => &self.littles,
        }
    }
}

impl<K: Kind> Select<K> for Names {
    #[inline]
    fn big(&self) -> (r: &NameList) {
        &self.bigs
    }

    #[inline]
    fn little(&self) -> (r: &NameList) {
        &self.littles
    }
}

impl<K: Kind> SelectMut<K> for Names {
    #[inline]
    fn big(&mut self) -> (r: &mut NameList) {
        &mut self.bigs
    }

    #[inline]
    fn little(&mut self) -> (r: &mut NameList) {
        &mut self.littles
    }
}

impl Default for Names {
    /// The registry without names.
    fn default() -> (registry: Self)
        ensures
            registry@.bigs.len() == 0,
            registry@.littles.len() == 0,
            registry@.wf(),
    {
        Names { bigs: name_list_new(), littles: name_list_new() }
    }
}

impl Names {
    /// The collection that the registry holds for `K` stands for the names of that kind.
    pub proof fn lemma_part<K: Kind>(&self)
        ensures
            names(*<Self as SelectBase<K>>::part(self)) == self@.list(K::kind()),
    {
    }

    /// Insert a new `name` with the given kind `K`. This method returns `None`, and changes
    /// nothing, if `name` is contained in the opposite variant. A name of kind `K` keeps the
    /// index that it has; a new name gets the next index of that kind.
    pub fn insert<K: Kind>(&mut self, name: String) -> (index: Option<Index<K>>) where
        K::Opposite: Kind,

        requires
            old(self)@.wf(),
            opposed::<K>(),
            old(self)@.list(K::kind()).len() < index_limit(),
        ensures
            final(self)@ == old(self)@.inserted(K::kind(), name@),
            index is Some <==> old(self)@.inserted_index(K::kind(), name@) is Some,
            index is Some ==> index->0@ == old(self)@.inserted_index(K::kind(), name@)->0,
            final(self)@.wf(),
    {
        proof {
            self.lemma_part::<K::Opposite>();
            self.lemma_part::<K>();
        }
        if name_list_contains(K::Opposite::select(self), &name) {
            return None;
        }
        let ghost before = self@;
        let list = K::select_mut(self);
        let at = name_list_insert_full(list, name);
        proof {
            assert(self@ == before.inserted(K::kind(), name@));
            if at.1 {
                let added = self@.list(K::kind());
                assert(added.drop_last() == before.list(K::kind()));
                assert forall|i: int, j: int| 0 <= i < j < added.len() implies added[i]
                    != added[j] by {
                    if j == added.len() - 1 {
                        assert(before.list(K::kind())[i] == added[i]);
                    } else {
                        assert(before.list(K::kind())[i] == added[i]);
                        assert(before.list(K::kind())[j] == added[j]);
                    }
                }
                assert(added.no_duplicates());
            }
        }
        Some(Index::new(at.0 as u32))
    }

    /// Returns the number of names of kind `K`.
    pub fn len<K: Kind>(&self) -> (n: usize)
        ensures
            n == self@.list(K::kind()).len(),
    {
        proof {
            self.lemma_part::<K>();
        }
        name_list_len(K::select(self))
    }

    /// Returns the name at place `at` among the names of kind `K`, if there is one.
    pub(crate) fn at<K: Kind>(&self, at: usize) -> (name: Option<&String>)
        ensures
            at < self@.list(K::kind()).len() ==> name is Some && name->0@ == self@.list(
                K::kind(),
            )[at as int],
            at >= self@.list(K::kind()).len() ==> name is None,
    {
        proof {
            self.lemma_part::<K>();
        }
        name_list_get_index(K::select(self), at)
    }

    /// Returns the name associated to `index` if it is contained in the set.
    pub fn get<K: Kind>(&self, index: Index<K>) -> (name: Option<&String>)
        ensures
            index@ < self@.list(K::kind()).len() ==> name is Some && name->0@ == self@.list(
                K::kind(),
            )[index@ as int],
            index@ >= self@.list(K::kind()).len() ==> name is None,
    {
        proof {
            self.lemma_part::<K>();
        }
        name_list_get_index(K::select(self), index.get() as usize)
    }

    /// Returns the index of the `name` in `self` if it has an entry of the kind `K`.
    pub fn index<K: Kind>(&self, name: &str) -> (index: Option<Index<K>>)
        requires
            self@.wf(),
        ensures
            index is Some <==> self@.index_of(K::kind(), name@) is Some,
            index is Some ==> index->0@ == self@.index_of(K::kind(), name@)->0,
    {
        proof {
            self.lemma_part::<K>();
        }
        match name_list_get_index_of(K::select(self), name) {
            Some(at) => Some(Index::new(at as u32)),
            None => None,
        }
    }
}

/// A name that was inserted as a member of one kind is rejected as a member of the other
/// kind, and that attempt changes nothing.
pub proof fn lemma_kinds_exclusive(registry: NamesView, kind: DynamicKind, name: Seq<char>)
    requires
        registry.inserted_index(kind, name) is Some,
    ensures
        registry.inserted(kind, name).inserted_index(kind.opposite(), name) is None,
        registry.inserted(kind, name).inserted(kind.opposite(), name) == registry.inserted(
            kind,
            name,
        ),
{
    let after = registry.inserted(kind, name);
    if !registry.list(kind).contains(name) {
        assert(after.list(kind).last() == name);
    }
    assert(after.list(kind).contains(name));
    assert(kind.opposite().opposite() == kind);
}

/// Insertion keeps the registry well formed: whatever is inserted, no name comes to stand in
/// both lists.
pub proof fn lemma_inserted_wf(registry: NamesView, kind: DynamicKind, name: Seq<char>)
    requires
        registry.wf(),
        registry.list(kind).len() < index_limit(),
    ensures
        registry.inserted(kind, name).wf(),
{
    let after = registry.inserted(kind, name);
    if after != registry {
        let added = after.list(kind);
        assert(added.drop_last() == registry.list(kind));
        assert forall|i: int, j: int| 0 <= i < j < added.len() implies added[i] != added[j] by {
            assert(registry.list(kind)[i] == added[i]);
            if j < added.len() - 1 {
                assert(registry.list(kind)[j] == added[j]);
            }
        }
        assert forall|i: int, j: int|
            0 <= i < after.bigs.len() && 0 <= j < after.littles.len() implies after.bigs[i]
            != after.littles[j] by {
            if kind == DynamicKind::Big {
                if i < registry.bigs.len() {
                    assert(registry.bigs[i] == after.bigs[i]);
                } else {
                    assert(registry.littles[j] == after.littles[j]);
                }
            } else {
                if j < registry.littles.len() {
                    assert(registry.littles[j] == after.littles[j]);
                } else {
                    assert(registry.bigs[i] == after.bigs[i]);
                }
            }
        }
    }
}

/// After the insertion of `names`, all new and distinct, as members of one kind, the `i`-th
/// of them has the index that is `i` above the number of members before: the indices given
/// out are dense. In an empty registry they are 0, 1, 2, and so on.
pub proof fn lemma_indices_dense(
    registry: NamesView,
    kind: DynamicKind,
    names: Seq<Seq<char>>,
    i: int,
)
    requires
        names.no_duplicates(),
        forall|k: int|
            0 <= k < names.len() ==> !registry.bigs.contains(#[trigger] names[k])
                && !registry.littles.contains(names[k]),
        0 <= i < names.len(),
    ensures
        registry.inserted_all(kind, names).list(kind) == registry.list(kind) + names,
        registry.inserted_all(kind, names).list(kind.opposite()) == registry.list(
            kind.opposite(),
        ),
        registry.inserted_all(kind, names.take(i)).inserted_index(kind, names[i]) == Some(
            registry.list(kind).len() + i,
        ),
{
    lemma_inserted_all(registry, kind, names);
    let first = names.take(i);
    assert forall|k: int| 0 <= k < first.len() implies !registry.bigs.contains(
        #[trigger] first[k],
    ) && !registry.littles.contains(first[k]) by {
        assert(first[k] == names[k]);
    }
    lemma_inserted_all(registry, kind, first);
    let reached = registry.inserted_all(kind, first);
    if reached.list(kind).contains(names[i]) {
        let at = choose|at: int| 0 <= at < reached.list(kind).len() && reached.list(kind)[at]
            == names[i];
        if at < registry.list(kind).len() {
            assert(registry.list(kind)[at] == names[i]);
            assert(registry.list(kind).contains(names[i]));
        } else {
            assert(first[at - registry.list(kind).len()] == names[i]);
            assert(names[at - registry.list(kind).len()] == names[i]);
        }
    }
}

/// The insertion of new and distinct names as members of one kind appends them to the list
/// of that kind, in their order, and leaves the other list as it is.
pub proof fn lemma_inserted_all(registry: NamesView, kind: DynamicKind, names: Seq<Seq<char>>)
    requires
        names.no_duplicates(),
        forall|k: int|
            0 <= k < names.len() ==> !registry.bigs.contains(#[trigger] names[k])
                && !registry.littles.contains(names[k]),
    ensures
        registry.inserted_all(kind, names).list(kind) == registry.list(kind) + names,
        registry.inserted_all(kind, names).list(kind.opposite()) == registry.list(
            kind.opposite(),
        ),
    decreases names.len(),
{
    if names.len() > 0 {
        let head = names.drop_last();
        let name = names.last();
        assert forall|k: int| 0 <= k < head.len() implies !registry.bigs.contains(
            #[trigger] head[k],
        ) && !registry.littles.contains(head[k]) by {
            assert(head[k] == names[k]);
        }
        lemma_inserted_all(registry, kind, head);
        let reached = registry.inserted_all(kind, head);
        assert(names[names.len() - 1] == name);
        if reached.list(kind).contains(name) {
            let at = choose|at: int| 0 <= at < reached.list(kind).len() && reached.list(kind)[at]
                == name;
            if at < registry.list(kind).len() {
                assert(registry.list(kind)[at] == name);
                assert(registry.list(kind).contains(name));
            } else {
                assert(head[at - registry.list(kind).len()] == name);
            }
        }
        assert(!reached.rejects(kind, name));
        assert(registry.list(kind) + names == (registry.list(kind) + head).push(name));
    } else {
        assert(registry.list(kind) + names == registry.list(kind));
    }
}

} // verus!
