//! The preference table.

use crate::index::{Index, Preference};
use crate::kind::{DynamicKind, Kind, Select, SelectBase, SelectMut};
use crate::model::{index_limit, is_best, lemma_unique, rank_in, row_wf, unique, TableView};
use crate::ordered::{
    index_list_clone, index_list_get_index, index_list_get_index_of, index_list_insert,
    index_list_len, index_list_new, indices, IndexList,
};
use vstd::prelude::*;

verus! {

/// The rows that a vector of ordered sets stands for.
pub open spec fn rows_of(sets: Seq<IndexList>) -> Seq<Seq<u32>> {
    Seq::new(sets.len(), |i: int| indices(sets[i]))
}

/// The numbers of a vector of indices.
pub open spec fn numbers<K: Kind>(list: Seq<Index<K>>) -> Seq<u32> {
    Seq::new(list.len(), |i: int| list[i]@)
}

/// Returns the indices of `list` as indices of kind `K`, in their order.
pub(crate) fn typed<K: Kind>(list: &IndexList) -> (out: Vec<Index<K>>)
    ensures
        numbers(out@) == indices(*list),
{
    let count = index_list_len(list);
    let mut out: Vec<Index<K>> = Vec::new();
    let mut i: usize = 0;
    while i < count
        invariant
            i <= count,
            count == indices(*list).len(),
            out@.len() == i,
            forall|j: int| 0 <= j < i ==> (#[trigger] out@[j])@ == indices(*list)[j],
        decreases count - i,
    {
        if let Some(number) = index_list_get_index(list, i) {
            out.push(Index::new(number));
        }
        i += 1;
    }
    assert(numbers(out@) =~= indices(*list));
    out
}

/// The table of preferences: one row for each big and one for each little, in the order of
/// their indices. A row lists indices of the other kind, best first, each once.
#[derive(Debug, Eq, PartialEq)]
pub struct PreferenceTable {
    big_preferences: Vec<IndexList>,
    little_preferences: Vec<IndexList>,
}

impl View for PreferenceTable {
    type V = TableView;

    closed spec fn view(&self) -> TableView {
        TableView {
            bigs: rows_of(self.big_preferences@),
            littles: rows_of(self.little_preferences@),
        }
    }
}

impl<K: Kind> SelectBase<K> for PreferenceTable {
    type Type = Vec<IndexList>;

    closed spec fn part(&self) -> &Vec<IndexList> {
        match K::kind() {
            DynamicKind::Big => &self.big_preferences,
            DynamicKind::Little => &self.little_preferences,
        }
    }
}

impl<K: Kind> Select<K> for PreferenceTable {
    #[inline]
    fn big(&self) -> (r: &Vec<IndexList>) {
        &self.big_preferences
    }

    #[inline]
    fn little(&self) -> (r: &Vec<IndexList>) {
        &self.little_preferences
    }
}

impl<K: Kind> SelectMut<K> for PreferenceTable {
    #[inline]
    fn big(&mut self) -> (r: &mut Vec<IndexList>) {
        &mut self.big_preferences
    }

    #[inline]
    fn little(&mut self) -> (r: &mut Vec<IndexList>) {
        &mut self.little_preferences
    }
}

/// Returns a copy of `sets`.
fn copied(sets: &Vec<IndexList>) -> (copy: Vec<IndexList>)
    ensures
        rows_of(copy@) == rows_of(sets@),
{
    let mut copy: Vec<IndexList> = Vec::new();
    let mut i: usize = 0;
    while i < sets.len()
        invariant
            i <= sets.len(),
            copy@.len() == i,
            forall|j: int| 0 <= j < i ==> indices(#[trigger] copy@[j]) == indices(sets@[j]),
        decreases sets.len() - i,
    {
        copy.push(index_list_clone(&sets[i]));
        i += 1;
    }
    assert(rows_of(copy@) =~= rows_of(sets@));
    copy
}

impl Clone for PreferenceTable {
    fn clone(&self) -> (copy: Self)
        ensures
            copy@ == self@,
    {
        PreferenceTable {
            big_preferences: copied(&self.big_preferences),
            little_preferences: copied(&self.little_preferences),
        }
    }
}

impl Default for PreferenceTable {
    /// The table without rows.
    fn default() -> (table: Self)
        ensures
            table@.bigs.len() == 0,
            table@.littles.len() == 0,
            table@.wf(),
    {
        PreferenceTable { big_preferences: Vec::new(), little_preferences: Vec::new() }
    }
}

impl PreferenceTable {
    /// The collection that the table holds for `K` stands for the rows of that kind.
    pub proof fn lemma_part<K: Kind>(&self)
        ensures
            rows_of(<Self as SelectBase<K>>::part(self)@) == self@.rows(K::kind()),
    {
    }

    /// Inserts the `preferences` as the next row of kind `K`. The row keeps the order of
    /// `preferences`; an index that comes a second time is left out. Nothing holds the indices
    /// to those that are registered: one that no member has is never matched.
    pub fn insert<K: Kind>(&mut self, preferences: Vec<Index<K::Opposite>>) where
        K::Opposite: Kind,

        requires
            old(self)@.wf(),
            old(self)@.rows(K::kind()).len() < index_limit(),
            preferences@.len() <= u32::MAX,
        ensures
            final(self)@ == old(self)@.with_row(K::kind(), numbers(preferences@)),
            final(self)@.wf(),
    {
        let mut row = index_list_new();
        let mut i: usize = 0;
        while i < preferences.len()
            invariant
                i <= preferences.len(),
                indices(row) == unique(numbers(preferences@).take(i as int)),
            decreases preferences.len() - i,
        {
            proof {
                let done = numbers(preferences@).take(i as int);
                let next = numbers(preferences@).take(i + 1);
                assert(next.drop_last() == done);
                assert(next.last() == preferences@[i as int]@);
            }
            index_list_insert(&mut row, preferences[i].get());
            i += 1;
        }
        proof {
            assert(numbers(preferences@).take(i as int) == numbers(preferences@));
            lemma_unique(numbers(preferences@));
        }
        let ghost before = self@;
        let ghost sets = <Self as SelectBase<K>>::part(self)@;
        let rows = K::select_mut(self);
        rows.push(row);
        proof {
            assert(rows_of(sets.push(row)) == rows_of(sets).push(indices(row)));
            assert(self@ == before.with_row(K::kind(), numbers(preferences@)));
        }
    }

    /// Returns the row of the member `index` of kind `K`, if the table has one for it.
    pub fn row<K: Kind>(&self, index: Index<K>) -> (row: Option<Vec<Index<K::Opposite>>>) where
        K::Opposite: Kind,

        ensures
            index@ < self@.rows(K::kind()).len() ==> row is Some && numbers(row->0@)
                == self@.rows(K::kind())[index@ as int],
            index@ >= self@.rows(K::kind()).len() ==> row is None,
    {
        match self.row_ref::<K>(index) {
            Some(row) => Some(typed(row)),
            None => None,
        }
    }

    /// Returns the row of the member `index` of kind `K` as it is kept.
    pub(crate) fn row_ref<K: Kind>(&self, index: Index<K>) -> (row: Option<&IndexList>)
        ensures
            index@ < self@.rows(K::kind()).len() ==> row is Some && indices(*row->0)
                == self@.rows(K::kind())[index@ as int],
            index@ >= self@.rows(K::kind()).len() ==> row is None,
    {
        let rows = K::select(self);
        let who = index.get() as usize;
        if who < rows.len() {
            Some(&rows[who])
        } else {
            None
        }
    }

    /// Returns the number of rows of kind `K`.
    pub fn len<K: Kind>(&self) -> (n: usize)
        ensures
            n == self@.rows(K::kind()).len(),
    {
        K::select(self).len()
    }
}

impl<K: Kind> Index<K> {
    /// Returns the preference rank of `other` for `self` using `table`: 1 where `other` comes
    /// first in the row of `self`. There is no rank where that row leaves `other` out, or where
    /// `table` has no row for `self`.
    pub fn preference(self, other: Index<K::Opposite>, table: &PreferenceTable) -> (rank: Option<
        Preference<K>,
    >) where K::Opposite: Kind
        requires
            table@.wf(),
        ensures
            rank is Some <==> rank_in(table@.rows(K::kind()), self@, other@) is Some,
            rank is Some ==> rank->0@ == rank_in(table@.rows(K::kind()), self@, other@)->0,
    {
        let rows = K::select(table);
        let who = self.get() as usize;
        if who >= rows.len() {
            return None;
        }
        proof {
            table.lemma_part::<K>();
            assert(row_wf(table@.rows(K::kind())[who as int]));
        }
        match index_list_get_index_of(&rows[who], other.get()) {
            Some(at) => Some(Preference::new((at + 1) as u32)),
            None => None,
        }
    }
}

impl<K: Kind> Index<K> {
    /// Returns the one of `candidates` that `self` ranks best using `table`, with its rank;
    /// the first of them where several have that rank. There is none where `self` ranks none
    /// of them.
    pub fn best_of(self, candidates: &Vec<Index<K::Opposite>>, table: &PreferenceTable) -> (best:
        Option<(Index<K::Opposite>, Preference<K>)>) where K::Opposite: Kind
        requires
            table@.wf(),
        ensures
            best is None <==> forall|i: int|
                0 <= i < candidates@.len() ==> rank_in(
                    table@.rows(K::kind()),
                    self@,
                    #[trigger] numbers(candidates@)[i],
                ) is None,
            best is Some ==> exists|at: int|
                #![trigger numbers(candidates@)[at]]
                is_best(table@.rows(K::kind()), self@, numbers(candidates@), at) && (best->0).0@
                    == numbers(candidates@)[at] && (best->0).1@ == rank_in(
                    table@.rows(K::kind()),
                    self@,
                    numbers(candidates@)[at],
                )->0,
    {
        let ghost rows = table@.rows(K::kind());
        let ghost list = numbers(candidates@);
        let mut best: Option<(Index<K::Opposite>, Preference<K>)> = None;
        let ghost mut at: int = 0;
        let mut i: usize = 0;
        while i < candidates.len()
            invariant
                i <= candidates.len(),
                table@.wf(),
                rows == table@.rows(K::kind()),
                list == numbers(candidates@),
                best is None ==> forall|j: int|
                    0 <= j < i ==> rank_in(rows, self@, #[trigger] list[j]) is None,
                best is Some ==> is_best(rows, self@, list.take(i as int), at) && (best->0).0@
                    == list[at] && (best->0).1@ == rank_in(rows, self@, list[at])->0,
            decreases candidates.len() - i,
        {
            let candidate = candidates[i];
            let ghost before = list.take(i as int);
            let ghost now = list.take(i + 1);
            proof {
                assert(forall|j: int| 0 <= j < i ==> before[j] == now[j]);
                assert(now[i as int] == list[i as int]);
            }
            match self.preference(candidate, table) {
                Some(rank) => {
                    let better = match best {
                        Some((_, held)) => rank.get() < held.get(),
                        None => true,
                    };
                    if better {
                        best = Some((candidate, rank));
                        proof {
                            at = i as int;
                        }
                    }
                },
                None => {},
            }
            i += 1;
        }
        proof {
            assert(list.take(i as int) == list);
        }
        best
    }
}

} // verus!
