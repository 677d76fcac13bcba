//! Matchings and sets of matchings.

use crate::engine_model::{largest, next_largest};
use crate::index::{BigIndex, LittleIndex};
use crate::kind::Big;
use crate::ordered::{
    index_list_clone, index_list_insert, index_list_len, index_list_new, index_list_pop, indices,
    IndexList,
};
use crate::placement::{
    appended, lemma_resorted, lemma_slot_found, ordered, owner, owns, slot, MatchingSetView,
    MatchingView,
};
use crate::sorting::{index_list_sort_by_row, stably_sorted};
use crate::table::{numbers, typed, PreferenceTable};
use vstd::prelude::*;

verus! {

/// A big and the littles matched with it.
#[derive(Debug, Eq, PartialEq)]
pub struct Matching {
    /// Big Index
    pub big: BigIndex,
    /// Little Indices
    littles: IndexList,
}

impl View for Matching {
    type V = MatchingView;

    closed spec fn view(&self) -> MatchingView {
        MatchingView { big: self.big@, littles: indices(self.littles) }
    }
}

impl Clone for Matching {
    fn clone(&self) -> (copy: Self)
        ensures
            copy@ == self@,
    {
        Matching { big: self.big, littles: index_list_clone(&self.littles) }
    }
}

impl Matching {
    /// Starts a new [`Matching`] from `big` and the first matching `little`.
    pub fn from_pair(big: BigIndex, little: LittleIndex) -> (matching: Self)
        ensures
            matching@ == (MatchingView { big: big@, littles: seq![little@] }),
    {
        let mut littles = index_list_new();
        index_list_insert(&mut littles, little.get());
        let matching = Self { big, littles };
        assert(matching@.littles =~= seq![little@]);
        matching
    }

    /// Returns the big of the matching.
    pub fn big(&self) -> (big: BigIndex)
        ensures
            big@ == self@.big,
    {
        self.big
    }

    /// Returns the littles of the matching, the one that the big likes best first.
    pub fn littles(&self) -> (littles: Vec<LittleIndex>)
        ensures
            numbers(littles@) == self@.littles,
    {
        typed(&self.littles)
    }

    /// Returns the littles of the matching as they are kept.
    pub(crate) fn littles_ref(&self) -> (littles: &IndexList)
        ensures
            indices(*littles) == self@.littles,
    {
        &self.littles
    }

    /// Inserts `little` into the matching and sorts the matching according to the big's
    /// preferences from `table`. A little that the matching holds is not inserted again.
    pub fn insert(&mut self, table: &PreferenceTable, little: LittleIndex)
        requires
            table@.wf(),
        ensures
            final(self)@.big == old(self)@.big,
            stably_sorted(
                appended(old(self)@.littles, little@),
                final(self)@.littles,
                table@.big_row(old(self)@.big),
            ),
    {
        index_list_insert(&mut self.littles, little.get());
        self.sort(table);
    }

    /// Sorts the littles in `self` according to the big's preferences from `table`: the one
    /// that the big lists first comes first, and those that it does not list come last, in the
    /// order that they had.
    pub fn sort(&mut self, table: &PreferenceTable)
        requires
            table@.wf(),
        ensures
            final(self)@.big == old(self)@.big,
            stably_sorted(old(self)@.littles, final(self)@.littles, table@.big_row(old(self)@.big)),
    {
        match table.row_ref::<Big>(self.big) {
            Some(row) => {
                index_list_sort_by_row(&mut self.littles, row);
            },
            None => {
                let ghost row = Seq::<u32>::empty();
                assert(forall|x: u32| !row.contains(x));
            },
        }
    }
}

/// The matchings that a vector of matchings stands for.
pub open spec fn matchings_of(matches: Seq<Matching>) -> Seq<MatchingView> {
    Seq::new(matches.len(), |i: int| matches[i]@)
}

/// The result of a matching run: the matchings, kept by ascending big, and the members of
/// either kind that were left without a match.
#[derive(Debug, Eq, PartialEq)]
pub struct MatchingSet {
    matches: Vec<Matching>,
    unmatched_bigs: IndexList,
    unmatched_littles: IndexList,
}

impl View for MatchingSet {
    type V = MatchingSetView;

    closed spec fn view(&self) -> MatchingSetView {
        MatchingSetView {
            matches: matchings_of(self.matches@),
            unmatched_bigs: indices(self.unmatched_bigs),
            unmatched_littles: indices(self.unmatched_littles),
        }
    }
}

impl Clone for MatchingSet {
    fn clone(&self) -> (copy: Self)
        ensures
            copy@ == self@,
    {
        let mut matches: Vec<Matching> = Vec::new();
        let mut i: usize = 0;
        while i < self.matches.len()
            invariant
                i <= self.matches.len(),
                matches@.len() == i,
                forall|j: int| 0 <= j < i ==> (#[trigger] matches@[j])@ == self.matches@[j]@,
            decreases self.matches.len() - i,
        {
            matches.push(self.matches[i].clone());
            i += 1;
        }
        let copy = MatchingSet {
            matches,
            unmatched_bigs: index_list_clone(&self.unmatched_bigs),
            unmatched_littles: index_list_clone(&self.unmatched_littles),
        };
        assert(copy@.matches =~= self@.matches);
        copy
    }
}

impl Default for MatchingSet {
    /// The set without matchings and without unmatched members.
    fn default() -> (set: Self)
        ensures
            set@ == MatchingSetView::empty(),
    {
        let set = MatchingSet {
            matches: Vec::new(),
            unmatched_bigs: index_list_new(),
            unmatched_littles: index_list_new(),
        };
        assert(set@.matches =~= Seq::empty());
        set
    }
}

impl MatchingSet {
    /// Returns the matchings, by ascending big.
    pub fn matches(&self) -> (matches: &Vec<Matching>)
        ensures
            matchings_of(matches@) == self@.matches,
    {
        &self.matches
    }

    /// Returns the bigs that own no matching, in ascending order.
    pub fn unmatched_bigs(&self) -> (bigs: Vec<BigIndex>)
        ensures
            numbers(bigs@) == self@.unmatched_bigs,
    {
        typed(&self.unmatched_bigs)
    }

    /// Returns the littles that no big took, in the order in which they were left.
    pub fn unmatched_littles(&self) -> (littles: Vec<LittleIndex>)
        ensures
            numbers(littles@) == self@.unmatched_littles,
    {
        typed(&self.unmatched_littles)
    }

    /// Returns the bigs that own no matching, as they are kept.
    pub(crate) fn unmatched_bigs_ref(&self) -> (bigs: &IndexList)
        ensures
            indices(*bigs) == self@.unmatched_bigs,
    {
        &self.unmatched_bigs
    }

    /// Returns the littles that no big took, as they are kept.
    pub(crate) fn unmatched_littles_ref(&self) -> (littles: &IndexList)
        ensures
            indices(*littles) == self@.unmatched_littles,
    {
        &self.unmatched_littles
    }

    /// Looks for the matching of `big` among the matchings, which ascend by big: `Ok` with its
    /// place where `big` owns one, and else `Err` with the place at which a matching of `big`
    /// keeps them ascending.
    pub(crate) fn search(&self, big: BigIndex) -> (found: Result<usize, usize>)
        requires
            ordered(self@.matches),
        ensures
            match found {
                Ok(at) => at < self@.matches.len() && self@.matches[at as int].big == big@
                    && at == owner(self@.matches, big@) && owns(self@.matches, big@),
                Err(at) => at <= self@.matches.len() && at == slot(self@.matches, big@) && !owns(
                    self@.matches,
                    big@,
                ),
            },
    {
        let key = big.get();
        let mut low: usize = 0;
        let mut high: usize = self.matches.len();
        while low < high
            invariant
                low <= high <= self.matches.len(),
                key == big@,
                ordered(self@.matches),
                forall|j: int| 0 <= j < low ==> (#[trigger] self@.matches[j]).big < key,
                forall|j: int| high <= j < self@.matches.len() ==> (#[trigger] self@.matches[j]).big > key,
            decreases high - low,
        {
            let middle = low + (high - low) / 2;
            let here = self.matches[middle].big.get();
            assert(self@.matches[middle as int].big == here);
            if here == key {
                proof {
                    let at = owner(self@.matches, key);
                    if at < middle {
                        assert(self@.matches[at].big < self@.matches[middle as int].big);
                    }
                    if at > middle {
                        assert(self@.matches[middle as int].big < self@.matches[at].big);
                    }
                }
                return Ok(middle);
            } else if here < key {
                assert forall|j: int| 0 <= j < middle + 1 implies (#[trigger] self@.matches[j]).big
                    < key by {
                    if j < middle {
                        assert(self@.matches[j].big < self@.matches[middle as int].big);
                    }
                }
                low = middle + 1;
            } else {
                assert forall|j: int| middle <= j < self@.matches.len() implies (
                #[trigger] self@.matches[j]).big > key by {
                    if j > middle {
                        assert(self@.matches[middle as int].big < self@.matches[j].big);
                    }
                }
                high = middle;
            }
        }
        proof {
            lemma_slot_found(self@.matches, key, low as int);
        }
        Err(low)
    }

    /// Puts `little` down as unmatched.
    pub(crate) fn reject(&mut self, little: LittleIndex)
        ensures
            final(self)@ == old(self)@.rejected(little@),
    {
        index_list_insert(&mut self.unmatched_littles, little.get());
    }

    /// Puts `big` down as unmatched.
    pub(crate) fn abandon(&mut self, big: BigIndex)
        ensures
            final(self)@ == (MatchingSetView {
                unmatched_bigs: appended(old(self)@.unmatched_bigs, big@),
                ..old(self)@
            }),
    {
        index_list_insert(&mut self.unmatched_bigs, big.get());
    }

    /// Returns whether `big` owns a matching.
    pub(crate) fn owns_big(&self, big: BigIndex) -> (found: bool)
        ensures
            found == owns(self@.matches, big@),
    {
        let mut i: usize = 0;
        while i < self.matches.len()
            invariant
                i <= self.matches.len(),
                forall|j: int| 0 <= j < i ==> (#[trigger] self@.matches[j]).big != big@,
            decreases self.matches.len() - i,
        {
            if self.matches[i].big == big {
                assert(self@.matches[i as int].big == big@);
                return true;
            }
            i += 1;
        }
        false
    }

    /// Takes the last little out of the matching at place `at`, the one that its big likes
    /// least, and returns it; returns `None` where that matching is empty.
    pub(crate) fn evict(&mut self, at: usize) -> (little: Option<LittleIndex>)
        requires
            at < old(self)@.matches.len(),
        ensures
            old(self)@.matches[at as int].littles.len() == 0 ==> little is None && final(self)@
                == old(self)@,
            old(self)@.matches[at as int].littles.len() > 0 ==> little is Some && little->0@
                == old(self)@.matches[at as int].littles.last() && final(self)@
                == old(self)@.evicted(at as int),
    {
        let ghost before = self@;
        match index_list_pop(&mut self.matches[at].littles) {
            Some(little) => {
                assert(self@.matches =~= before.evicted(at as int).matches);
                Some(LittleIndex::new(little))
            },
            None => {
                assert(self@.matches =~= before.matches);
                None
            },
        }
    }

    /// Finds the next largest matching in `self` which should remove its lowest ranking
    /// little, and returns its place. This method is the exiting condition of the even run.
    ///
    /// # Exit Conditions
    ///
    /// This method returns `None` on the following conditions (in this order):
    ///
    /// 1. The number of matches is equal to the number of bigs.
    /// 2. There are no matches whatsoever.
    /// 3. All the matches have the same number of littles.
    ///
    /// A matching that is the only one is returned whatever it holds.
    pub(crate) fn next_largest_match(&self, big_count: usize) -> (found: Option<usize>)
        ensures
            found is Some <==> next_largest(self@.matches, big_count as int) is Some,
            found is Some ==> found->0 == next_largest(self@.matches, big_count as int)->0,
    {
        let count = self.matches.len();
        if count == big_count {
            return None;
        }
        if count == 1 {
            return Some(0);
        }
        if count == 0 {
            return None;
        }
        let first_len = index_list_len(&self.matches[0].littles);
        let mut i: usize = 1;
        let mut all_equal = true;
        while i < count
            invariant
                1 <= i <= count,
                count == self.matches.len(),
                first_len == self@.matches[0].littles.len(),
                all_equal <==> forall|j: int|
                    0 <= j < i ==> (#[trigger] self@.matches[j]).littles.len() == first_len,
            decreases count - i,
        {
            let len = index_list_len(&self.matches[i].littles);
            assert(len == self@.matches[i as int].littles.len());
            if len != first_len {
                all_equal = false;
            }
            i += 1;
        }
        if all_equal {
            return None;
        }
        let mut best: usize = 0;
        let mut best_len = first_len;
        let mut i: usize = 1;
        assert(self@.matches.take(1).drop_last().len() == 0);
        while i < count
            invariant
                1 <= i <= count,
                count == self.matches.len(),
                best < i,
                best == largest(self@.matches.take(i as int)),
                best_len == self@.matches[best as int].littles.len(),
            decreases count - i,
        {
            let len = index_list_len(&self.matches[i].littles);
            proof {
                let now = self@.matches.take(i + 1);
                assert(now.drop_last() == self@.matches.take(i as int));
                assert(now[best as int] == self@.matches[best as int]);
                assert(now.last() == self@.matches[i as int]);
            }
            if best_len < len {
                best = i;
                best_len = len;
            }
            i += 1;
        }
        assert(self@.matches.take(count as int) == self@.matches);
        Some(best)
    }

    /// Inserts the `big`-`little` match into `self`, sorting the existing match by the
    /// preference `table` according to the `big`.
    pub(crate) fn insert_match(&mut self, table: &PreferenceTable, big: BigIndex, little: LittleIndex)
        requires
            table@.wf(),
            old(self)@.wf(table@),
            table@.accepts(big@, little@),
        ensures
            final(self)@ == old(self)@.placed(table@, big@, little@),
    {
        let ghost before = self@;
        match self.search(big) {
            Ok(at) => {
                let ghost littles = self.matches@[at as int]@.littles;
                self.matches[at].insert(table, little);
                proof {
                    lemma_resorted(
                        table@.big_row(big@),
                        littles,
                        little@,
                        self.matches@[at as int]@.littles,
                    );
                    assert(self@.matches =~= before.placed(table@, big@, little@).matches);
                }
            },
            Err(at) => {
                self.matches.insert(at, Matching::from_pair(big, little));
                assert(self@.matches =~= before.placed(table@, big@, little@).matches);
            },
        }
    }
}

} // verus!
