//! What holds of the result of every matching run.

use crate::engine_model::{
    even_ended, even_matching, even_start, lemma_next_choice, lemma_next_choice_later,
    lemma_source, maximal, maximal_matching, EvenView,
};
use crate::invariants::{
    assigns, lemma_maximal_sound, lemma_run_sound, lemma_step_sound, matched,
};
use crate::model::{index_limit, rank_in, TableView};
use crate::placement::{lemma_sorted_distinct, ordered, owns, MatchingSetView};
use vstd::prelude::*;

verus! {

impl MatchingSetView {
    /// Every big that has a row either owns one matching or is put down as unmatched, once,
    /// and never both. Every little that has a row is either one of the littles of one
    /// matching, once, or is put down as unmatched, once, and never both. No other index
    /// stands anywhere.
    pub open spec fn partitions(self, table: TableView) -> bool {
        &&& ordered(self.matches)
        &&& forall|i: int|
            0 <= i < self.matches.len() ==> (#[trigger] self.matches[i]).big < table.bigs.len()
                && self.matches[i].littles.no_duplicates()
        &&& self.unmatched_bigs.no_duplicates()
        &&& forall|big: u32| #[trigger]
            self.unmatched_bigs.contains(big) <==> big < table.bigs.len() && !owns(
                self.matches,
                big,
            )
        &&& forall|little: u32, big: u32, other: u32|
            #![trigger assigns(self.matches, little, big), assigns(self.matches, little, other)]
            assigns(self.matches, little, big) && assigns(self.matches, little, other) ==> big
                == other
        &&& self.unmatched_littles.no_duplicates()
        &&& forall|little: u32|
            #![trigger matched(self.matches, little)]
            #![trigger self.unmatched_littles.contains(little)]
            (matched(self.matches, little) || self.unmatched_littles.contains(little)) <==> little
                < table.littles.len()
        &&& forall|little: u32|
            #![trigger matched(self.matches, little)]
            #![trigger self.unmatched_littles.contains(little)]
            !(matched(self.matches, little) && self.unmatched_littles.contains(little))
    }

    /// Every pair was wanted by both: the little lists the big, and the big lists the little.
    pub open spec fn respects(self, table: TableView) -> bool {
        forall|little: u32, big: u32| #[trigger]
            assigns(self.matches, little, big) ==> table.accepts(big, little)
                && table.little_row(little).contains(big)
    }
}

impl TableView {
    /// The big that `little` is matched with in the maximal run: the first of its row that
    /// accepts it.
    pub open spec fn first_choice(self, little: u32) -> Option<u32> {
        match self.next_choice(little, 0) {
            Some(at) => Some(self.little_row(little)[at]),
            None => None,
        }
    }
}

/// What the collection of the unmatched bigs does: the matchings and the unmatched littles
/// stay, and the unmatched bigs are those of the first `count` that own no matching, each
/// once.
pub proof fn lemma_collected(set: MatchingSetView, count: nat)
    requires
        set.unmatched_bigs.len() == 0,
        count <= index_limit(),
    ensures
        set.collected(count).matches == set.matches,
        set.collected(count).unmatched_littles == set.unmatched_littles,
        set.collected(count).unmatched_bigs.no_duplicates(),
        forall|big: u32| #[trigger]
            set.collected(count).unmatched_bigs.contains(big) <==> big < count && !owns(
                set.matches,
                big,
            ),
    decreases count,
{
    if count > 0 {
        let before = set.collected((count - 1) as nat).unmatched_bigs;
        let after = set.collected(count).unmatched_bigs;
        let last = (count - 1) as u32;
        lemma_collected(set, (count - 1) as nat);
        if !owns(set.matches, last) {
            assert(!before.contains(last));
            assert(after == before.push(last));
            assert(after[after.len() - 1] == last);
            assert forall|i: int, j: int| 0 <= i < after.len() && 0 <= j < after.len() && i
                != j implies after[i] != after[j] by {
                if i < before.len() {
                    assert(before[i] == after[i]);
                    assert(before.contains(after[i]));
                }
                if j < before.len() {
                    assert(before[j] == after[j]);
                    assert(before.contains(after[j]));
                }
            }
            assert forall|big: u32| #[trigger]
                after.contains(big) <==> big < count && !owns(set.matches, big) by {
                if after.contains(big) {
                    let k = choose|k: int| 0 <= k < after.len() && after[k] == big;
                    if k < before.len() {
                        assert(before[k] == big);
                        assert(before.contains(big));
                    }
                }
                if before.contains(big) {
                    let k = choose|k: int| 0 <= k < before.len() && before[k] == big;
                    assert(after[k] == big);
                }
            }
        } else {
            assert forall|big: u32| #[trigger]
                after.contains(big) <==> big < count && !owns(set.matches, big) by {}
        }
    }
}

/// A sound state of a run over all littles, with its unmatched bigs collected, is a
/// partition, and each of its pairs was wanted by both.
pub proof fn lemma_sound_partitions(state: EvenView, table: TableView)
    requires
        table.wf(),
        state.sound(table, table.littles.len(), None),
    ensures
        state.set.collected(table.bigs.len()).partitions(table),
        state.set.collected(table.bigs.len()).respects(table),
{
    let result = state.set.collected(table.bigs.len());
    lemma_collected(state.set, table.bigs.len());
    assert forall|i: int| 0 <= i < result.matches.len() implies (#[trigger] result.matches[i]).big
        < table.bigs.len() && result.matches[i].littles.no_duplicates() by {
        lemma_sorted_distinct(table.big_row(result.matches[i].big), result.matches[i].littles);
    }
    assert forall|little: u32, big: u32| #[trigger]
        assigns(result.matches, little, big) implies table.accepts(big, little)
        && table.little_row(little).contains(big) by {
        lemma_next_choice(table, little, state.skip(little));
    }
    assert forall|little: u32|
        #![trigger matched(result.matches, little)]
        #![trigger result.unmatched_littles.contains(little)]
        (matched(result.matches, little) || result.unmatched_littles.contains(little)) <==> little
            < table.littles.len() by {
        if matched(result.matches, little) {
            let big = choose|big: u32| assigns(result.matches, little, big);
            assert(assigns(result.matches, little, big));
        }
        if result.unmatched_littles.contains(little) {
            let k = choose|k: int|
                0 <= k < result.unmatched_littles.len() && result.unmatched_littles[k] == little;
            assert(result.unmatched_littles[k] == little);
        }
    }
    assert forall|little: u32|
        #![trigger matched(result.matches, little)]
        #![trigger result.unmatched_littles.contains(little)]
        !(matched(result.matches, little) && result.unmatched_littles.contains(little)) by {
        if result.unmatched_littles.contains(little) {
            let k = choose|k: int|
                0 <= k < result.unmatched_littles.len() && result.unmatched_littles[k] == little;
            assert(result.unmatched_littles[k] == little);
        }
    }
}

/// The maximal matching is a partition of the bigs and of the littles, and each of its pairs
/// was wanted by both.
pub proof fn lemma_maximal_partitions(table: TableView)
    requires
        table.wf(),
    ensures
        maximal_matching(table).partitions(table),
        maximal_matching(table).respects(table),
{
    lemma_maximal_sound(table, table.littles.len());
    lemma_sound_partitions(
        EvenView { set: maximal(table, table.littles.len()), skips: Map::empty() },
        table,
    );
}

/// Whatever the number of steps, what the even run has reached is a partition of the bigs and
/// of the littles, and each of its pairs was wanted by both.
pub proof fn lemma_even_partitions(table: TableView, steps: nat)
    requires
        table.wf(),
    ensures
        even_matching(table, steps).partitions(table),
        even_matching(table, steps).respects(table),
{
    lemma_run_sound(table, steps);
    lemma_sound_partitions(even_start(table).run(table, steps), table);
}

/// In the maximal matching a little is with a big exactly where that big is the first of its
/// row that accepts it, and it is unmatched exactly where it has a row and no big of its row
/// accepts it. So a big that does not list a little is never matched with it.
pub proof fn lemma_maximal_choices(table: TableView)
    requires
        table.wf(),
    ensures
        forall|little: u32, big: u32| #[trigger]
            assigns(maximal_matching(table).matches, little, big) <==> little
                < table.littles.len() && table.first_choice(little) == Some(big),
        forall|little: u32| #[trigger]
            maximal_matching(table).unmatched_littles.contains(little) <==> little
                < table.littles.len() && table.first_choice(little) is None,
{
    let state = EvenView { set: maximal(table, table.littles.len()), skips: Map::empty() };
    let result = maximal_matching(table);
    lemma_maximal_sound(table, table.littles.len());
    lemma_collected(state.set, table.bigs.len());
    assert forall|little: u32| #[trigger]
        result.unmatched_littles.contains(little) <==> little < table.littles.len()
            && table.first_choice(little) is None by {
        if result.unmatched_littles.contains(little) {
            let k = choose|k: int|
                0 <= k < result.unmatched_littles.len() && result.unmatched_littles[k] == little;
            assert(result.unmatched_littles[k] == little);
        }
        if little < table.littles.len() && table.first_choice(little) is None {
            if matched(result.matches, little) {
                let big = choose|big: u32| assigns(result.matches, little, big);
                assert(assigns(result.matches, little, big));
            }
        }
    }
    assert forall|little: u32, big: u32| #[trigger]
        assigns(result.matches, little, big) <==> little < table.littles.len()
            && table.first_choice(little) == Some(big) by {
        if little < table.littles.len() && table.first_choice(little) == Some(big) {
            if result.unmatched_littles.contains(little) {
                let k = choose|k: int|
                    0 <= k < result.unmatched_littles.len() && result.unmatched_littles[k]
                        == little;
                assert(result.unmatched_littles[k] == little);
            }
            assert(matched(result.matches, little));
            let other = choose|other: u32| assigns(result.matches, little, other);
            assert(assigns(result.matches, little, other));
        }
    }
}

/// Two maximal runs over one table give the same result: the result is a function of the
/// table.
pub proof fn lemma_maximal_deterministic(
    table: TableView,
    first: MatchingSetView,
    second: MatchingSetView,
)
    requires
        first == maximal_matching(table),
        second == maximal_matching(table),
    ensures
        first == second,
{
}

/// Once the even run has ended, further steps change nothing.
pub proof fn lemma_even_rests(table: TableView, ended: nat, later: nat)
    requires
        even_ended(table, ended),
        ended <= later,
    ensures
        even_start(table).run(table, later) == even_start(table).run(table, ended),
    decreases later,
{
    if ended < later {
        lemma_even_rests(table, ended, (later - 1) as nat);
    }
}

/// The even run has one result: whatever the numbers of steps after which it is found to
/// have ended, what it has reached is the same.
pub proof fn lemma_even_deterministic(table: TableView, first: nat, second: nat)
    requires
        even_ended(table, first),
        even_ended(table, second),
    ensures
        even_matching(table, first) == even_matching(table, second),
{
    if first <= second {
        lemma_even_rests(table, first, second);
    } else {
        lemma_even_rests(table, second, first);
    }
}

/// A little that a step of the even run takes out of the matching of a big is, after the
/// step, with a big that it ranks no better than that one, or it is unmatched.
pub proof fn lemma_eviction_degrades(table: TableView, steps: nat)
    requires
        table.wf(),
        even_start(table).run(table, steps).source(table) is Some,
    ensures
        ({
            let state = even_start(table).run(table, steps);
            let from = state.set.matches[state.source(table)->0];
            let after = state.step(table).set;
            &&& rank_in(table.littles, from.littles.last(), from.big) is Some
            &&& matched(after.matches, from.littles.last()) || after.unmatched_littles.contains(
                from.littles.last(),
            )
            &&& forall|big: u32| #[trigger]
                assigns(after.matches, from.littles.last(), big) ==> rank_in(
                    table.littles,
                    from.littles.last(),
                    big,
                ) is Some && rank_in(table.littles, from.littles.last(), big)->0 >= rank_in(
                    table.littles,
                    from.littles.last(),
                    from.big,
                )->0
        }),
{
    let state = even_start(table).run(table, steps);
    let at = state.source(table)->0;
    let from = state.set.matches[at];
    let little = from.littles.last();
    let next = state.step(table);
    lemma_run_sound(table, steps);
    lemma_step_sound(state, table);
    lemma_source(state, table);
    assert(from.littles[from.littles.len() - 1] == little);
    assert(assigns(state.set.matches, little, from.big));
    let skip = state.skip(little);
    lemma_next_choice(table, little, skip);
    lemma_next_choice_later(table, little, skip, skip + 1);
    let row = table.little_row(little);
    let old_place = table.next_choice(little, skip)->0;
    assert(row[old_place] == from.big);
    assert(row.contains(from.big));
    assert(row.no_duplicates());
    assert(next.skip(little) == skip + 1);
    assert forall|big: u32| #[trigger] assigns(next.set.matches, little, big) implies rank_in(
        table.littles,
        little,
        big,
    ) is Some && rank_in(table.littles, little, big)->0 >= rank_in(
        table.littles,
        little,
        from.big,
    )->0 by {
        lemma_next_choice(table, little, skip + 1);
        let new_place = table.next_choice(little, skip + 1)->0;
        assert(row[new_place] == big);
        assert(row.contains(big));
    }
}

/// A little that is unmatched stays unmatched, at its place: a step of the even run adds to
/// the end of the unmatched littles, or leaves them as they are.
pub proof fn lemma_unmatched_stays(table: TableView, steps: nat)
    requires
        table.wf(),
    ensures
        even_start(table).run(table, steps).set.unmatched_littles.is_prefix_of(
            even_start(table).run(table, steps + 1).set.unmatched_littles,
        ),
{
    let state = even_start(table).run(table, steps);
    assert(even_start(table).run(table, steps + 1) == state.step(table));
    lemma_source(state, table);
}

} // verus!
