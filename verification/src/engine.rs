//! The two matching runs.

use crate::engine_model::{
    capacity, even_ended, even_matching, even_start, lemma_next_choice, lemma_next_largest,
    lemma_source, lemma_spent_bounded, lemma_spent_moved, lemma_spent_start, maximal,
    maximal_matching, spent, EvenView,
};
use crate::index::{BigIndex, LittleIndex};
use crate::invariants::{assigns, lemma_evicted_assigns, lemma_maximal_sound, lemma_run_sound};
use crate::kind::{Big, Little};
use crate::laws::{lemma_even_partitions, lemma_maximal_choices, lemma_maximal_partitions};
use crate::matching::MatchingSet;
use crate::model::index_limit;
use crate::ordered::{
    count_map_get, count_map_insert, count_map_new, counts, index_list_get_index, index_list_len,
    indices,
};
use crate::table::PreferenceTable;
use vstd::prelude::*;

verus! {

/// The evictions that a map of counts stands for.
pub open spec fn skips_of(map: Map<u32, usize>) -> Map<u32, int> {
    Map::new(|little: u32| map.contains_key(little), |little: u32| map[little] as int)
}

impl PreferenceTable {
    /// Updates the `matching_set` by walking the preferences of `little` from the place `from`
    /// on and seeing if any of the bigs in that ordering also prefer `little`. The first that
    /// does is matched with `little`. If none does, the `little` is unmatched.
    pub(crate) fn update_matching(
        &self,
        matching_set: &mut MatchingSet,
        little: LittleIndex,
        from: usize,
    )
        requires
            self@.wf(),
            old(matching_set)@.wf(self@),
        ensures
            final(matching_set)@ == old(matching_set)@.settled(self@, little@, from as int),
    {
        proof {
            lemma_next_choice(self@, little@, from as int);
        }
        let ghost before = matching_set@;
        match self.row_ref::<Little>(little) {
            Some(bigs) => {
                let count = index_list_len(bigs);
                let mut at = from;
                while at < count
                    invariant
                        self@.wf(),
                        matching_set@ == before,
                        before == old(matching_set)@,
                        before.wf(self@),
                        from <= at,
                        count == self@.little_row(little@).len(),
                        indices(*bigs) == self@.little_row(little@),
                        self@.next_choice(little@, from as int) == self@.next_choice(
                            little@,
                            at as int,
                        ),
                    decreases count - at,
                {
                    if let Some(number) = index_list_get_index(bigs, at) {
                        let big = BigIndex::new(number);
                        if big.preference(little, self).is_some() {
                            assert(self@.accepts(big@, little@));
                            assert(self@.next_choice(little@, at as int) == Some(at as int));
                            matching_set.insert_match(self, big, little);
                            return;
                        }
                    }
                    at += 1;
                }
                matching_set.reject(little);
            },
            None => {
                matching_set.reject(little);
            },
        }
    }

    /// Collects all the unmatched bigs relative to `matching_set` and declares them as
    /// unmatched, in ascending order.
    pub(crate) fn collect_unmatched_bigs(&self, matching_set: &mut MatchingSet)
        requires
            self@.wf(),
        ensures
            final(matching_set)@ == old(matching_set)@.collected(self@.bigs.len()),
    {
        let count = self.len::<Big>();
        let ghost before = matching_set@;
        let mut big: usize = 0;
        while big < count
            invariant
                big <= count,
                count == self@.bigs.len(),
                count <= index_limit(),
                matching_set@ == before.collected(big as nat),
                matching_set@.matches == before.matches,
            decreases count - big,
        {
            let index = BigIndex::new(big as u32);
            if !matching_set.owns_big(index) {
                matching_set.abandon(index);
            }
            big += 1;
        }
    }

    /// Finds the maximal matching, without the unmatched bigs. See
    /// [`find_maximal_matching`](Self::find_maximal_matching) for more.
    pub(crate) fn maximal_matching(&self) -> (matching_set: MatchingSet)
        requires
            self@.wf(),
        ensures
            matching_set@ == maximal(self@, self@.littles.len()),
    {
        let mut matching_set = MatchingSet::default();
        let count = self.len::<Little>();
        let mut little: usize = 0;
        while little < count
            invariant
                little <= count,
                count == self@.littles.len(),
                self@.wf(),
                matching_set@ == maximal(self@, little as nat),
            decreases count - little,
        {
            proof {
                lemma_maximal_sound(self@, little as nat);
            }
            self.update_matching(&mut matching_set, LittleIndex::new(little as u32), 0);
            little += 1;
        }
        matching_set
    }

    /// Finds the maximal matching where littles select according to their preferences and all
    /// bigs are assumed to have as much capacity as needed to accomodate all the littles they
    /// rank in their preferences.
    ///
    /// Each little, in ascending order, is matched with the first big of its row that lists
    /// it, at whatever place; a little that no big of its row lists is unmatched, and so is a
    /// big that no little came to.
    pub fn find_maximal_matching(&self) -> (matching_set: MatchingSet)
        requires
            self@.wf(),
        ensures
            matching_set@ == maximal_matching(self@),
            matching_set@.partitions(self@),
            matching_set@.respects(self@),
            forall|little: u32, big: u32| #[trigger]
                assigns(matching_set@.matches, little, big) <==> little < self@.littles.len()
                    && self@.first_choice(little) == Some(big),
            forall|little: u32| #[trigger]
                matching_set@.unmatched_littles.contains(little) <==> little
                    < self@.littles.len() && self@.first_choice(little) is None,
    {
        let mut matching_set = self.maximal_matching();
        self.collect_unmatched_bigs(&mut matching_set);
        proof {
            lemma_maximal_partitions(self@);
            lemma_maximal_choices(self@);
        }
        matching_set
    }

    /// Finds the evenly-distributed matching.
    ///
    /// # Algorithm
    ///
    /// First a maximal matching is computed which fills all bigs to the capacity equal to the
    /// number of preferences they allocated. Then, if there are any bigs without matches, the
    /// fullest big sends their least prefered little to look for another match, and the little
    /// proceeds down their ranking list to find the next big to match with. This continues
    /// until all bigs have at least one match or all the matches have an equal number of
    /// littles, whichever comes first. A little that is sent away for the `n`-th time looks
    /// from the place `n` of its list on, and stays unmatched once it finds no big there.
    pub fn find_even_matching(&self) -> (matching_set: MatchingSet)
        requires
            self@.wf(),
        ensures
            exists|steps: nat|
                steps <= capacity(self@, self@.littles.len()) && even_ended(self@, steps)
                    && matching_set@ == #[trigger] even_matching(self@, steps),
            matching_set@.partitions(self@),
            matching_set@.respects(self@),
    {
        let mut matching_set = self.maximal_matching();
        let mut preference_index = count_map_new();
        let big_count = self.len::<Big>();
        let ghost mut steps: nat = 0;
        let ghost count = self@.littles.len();
        assert(skips_of(counts(preference_index)) =~= Map::empty());
        proof {
            lemma_spent_start(self@, count);
        }
        loop
            invariant
                self@.wf(),
                steps == spent(even_start(self@).run(self@, steps), count),
                big_count == self@.bigs.len(),
                count == self@.littles.len(),
                even_start(self@).run(self@, steps) == (EvenView {
                    set: matching_set@,
                    skips: skips_of(counts(preference_index)),
                }),
            ensures
                even_ended(self@, steps),
                steps <= capacity(self@, count),
                matching_set@ == even_start(self@).run(self@, steps).set,
            decreases capacity(self@, count) - spent(even_start(self@).run(self@, steps), count),
        {
            let ghost state = even_start(self@).run(self@, steps);
            proof {
                lemma_run_sound(self@, steps);
                lemma_run_sound(self@, steps + 1);
                lemma_source(state, self@);
                lemma_spent_bounded(state, self@, count);
                lemma_spent_bounded(state.step(self@), self@, count);
                lemma_next_largest(matching_set@.matches, big_count as int);
            }
            match matching_set.next_largest_match(big_count) {
                Some(at) => {
                    match matching_set.evict(at) {
                        Some(little) => {
                            assert(state.source(self@) == Some(at as int));
                            let ghost next = state.moved(self@, at as int);
                            proof {
                                assert(assigns(
                                    state.set.matches,
                                    little@,
                                    state.set.matches[at as int].big,
                                )) by {
                                    let littles = state.set.matches[at as int].littles;
                                    assert(littles[littles.len() - 1] == little@);
                                }
                                lemma_next_choice(self@, little@, state.skip(little@));
                                lemma_spent_moved(state, next, little@, count);
                                lemma_evicted_assigns(state.set, self@, at as int);
                            }
                            let skip = match count_map_get(&preference_index, little.get()) {
                                Some(before) => before + 1,
                                None => 1,
                            };
                            count_map_insert(&mut preference_index, little.get(), skip);
                            self.update_matching(&mut matching_set, little, skip);
                            proof {
                                steps = steps + 1;
                                assert(skips_of(counts(preference_index)) =~= next.skips);
                            }
                        },
                        None => {
                            break ;
                        },
                    }
                },
                None => {
                    break ;
                },
            }
        }
        self.collect_unmatched_bigs(&mut matching_set);
        proof {
            assert(matching_set@ == even_matching(self@, steps));
            lemma_even_partitions(self@, steps);
        }
        matching_set
    }
}

} // verus!
