//! What holds of every state that a matching run reaches.

use crate::engine_model::{even_start, lemma_next_choice, lemma_source, maximal, EvenView};
use crate::model::TableView;
use crate::ordered::place;
use crate::placement::{
    lemma_placed_wf, lemma_ranked_insert, lemma_slot, lemma_sorted_distinct, owner, owns, slot,
    sorted_in, MatchingSetView, MatchingView,
};
use vstd::prelude::*;

verus! {

/// `little` is matched with `big`: it is one of the littles of a matching that `big` owns.
pub open spec fn assigns(matches: Seq<MatchingView>, little: u32, big: u32) -> bool {
    exists|i: int, a: int|
        0 <= i < matches.len() && 0 <= a < matches[i].littles.len()
            && #[trigger] matches[i].littles[a] == little && matches[i].big == big
}

/// `little` is matched with some big.
pub open spec fn matched(matches: Seq<MatchingView>, little: u32) -> bool {
    exists|big: u32| assigns(matches, little, big)
}

impl EvenView {
    /// Every matched little is with the first big that accepts it from the place in its row
    /// that is the number of its evictions.
    pub open spec fn anchored(self, table: TableView) -> bool {
        forall|little: u32, big: u32| #[trigger]
            assigns(self.set.matches, little, big) ==> table.next_choice(little, self.skip(little))
                is Some && table.little_row(little)[table.next_choice(
                little,
                self.skip(little),
            )->0] == big
    }

    /// The littles below `count`, all but `hole`, are each matched or put down as unmatched,
    /// and never both; no other little is either.
    pub open spec fn sorted_out(self, count: nat, hole: Option<u32>) -> bool {
        &&& forall|little: u32, big: u32| #[trigger]
            assigns(self.set.matches, little, big) ==> little < count && Some(little) != hole
        &&& self.set.unmatched_littles.no_duplicates()
        &&& forall|k: int|
            0 <= k < self.set.unmatched_littles.len() ==> (
            #[trigger] self.set.unmatched_littles[k]) < count && Some(
                self.set.unmatched_littles[k],
            ) != hole && !matched(self.set.matches, self.set.unmatched_littles[k])
        &&& forall|little: u32|
            little < count && Some(little) != hole ==> #[trigger] matched(
                self.set.matches,
                little,
            ) || self.set.unmatched_littles.contains(little)
    }

    /// No big accepts an unmatched little from the place in its row that is the number of its
    /// evictions.
    pub open spec fn stranded(self, table: TableView) -> bool {
        forall|k: int|
            0 <= k < self.set.unmatched_littles.len() ==> table.next_choice(
                #[trigger] self.set.unmatched_littles[k],
                self.skip(self.set.unmatched_littles[k]),
            ) is None
    }

    /// No little was evicted more often than its row is long.
    pub open spec fn bounded(self, table: TableView) -> bool {
        forall|little: u32| #[trigger]
            self.skips.contains_key(little) ==> 1 <= self.skips[little] <= table.little_row(
                little,
            ).len()
    }

    /// What holds of every state of a run that has reached the first `count` littles, where
    /// `hole` is a little that is on its way from one matching to the next.
    pub open spec fn sound(self, table: TableView, count: nat, hole: Option<u32>) -> bool {
        &&& self.set.wf(table)
        &&& self.anchored(table)
        &&& self.sorted_out(count, hole)
        &&& self.stranded(table)
        &&& self.bounded(table)
        &&& self.set.unmatched_bigs.len() == 0
    }
}

/// The littles that are matched after a little was placed with a big: those that were, each
/// with the big it was with, and the little that was placed, with that big.
pub proof fn lemma_placed_assigns(set: MatchingSetView, table: TableView, big: u32, little: u32)
    requires
        set.wf(table),
        table.accepts(big, little),
    ensures
        forall|l: u32, b: u32| #[trigger]
            assigns(set.placed(table, big, little).matches, l, b) <==> assigns(set.matches, l, b)
                || (l == little && b == big),
{
    let after = set.placed(table, big, little).matches;
    let before = set.matches;
    if owns(before, big) {
        let i = owner(before, big);
        lemma_ranked_insert(before[i].littles, table.big_row(big), little);
        assert(after[i].littles.contains(little));
        assert forall|l: u32, b: u32| #[trigger]
            assigns(after, l, b) <==> assigns(before, l, b) || (l == little && b == big) by {
            if assigns(after, l, b) {
                let (j, a) = choose|j: int, a: int|
                    0 <= j < after.len() && 0 <= a < after[j].littles.len()
                        && #[trigger] after[j].littles[a] == l && after[j].big == b;
                if j != i {
                    assert(before[j].littles[a] == l);
                } else if l != little {
                    assert(after[i].littles.contains(l));
                    assert(before[i].littles.contains(l));
                    let a0 = choose|a0: int|
                        0 <= a0 < before[i].littles.len() && before[i].littles[a0] == l;
                    assert(before[i].littles[a0] == l);
                }
            }
            if assigns(before, l, b) {
                let (j, a) = choose|j: int, a: int|
                    0 <= j < before.len() && 0 <= a < before[j].littles.len()
                        && #[trigger] before[j].littles[a] == l && before[j].big == b;
                if j != i {
                    assert(after[j].littles[a] == l);
                } else {
                    assert(before[i].littles.contains(l));
                    assert(after[i].littles.contains(l));
                    let a0 = choose|a0: int|
                        0 <= a0 < after[i].littles.len() && after[i].littles[a0] == l;
                    assert(after[i].littles[a0] == l);
                }
            }
            if l == little && b == big {
                let a0 = choose|a0: int|
                    0 <= a0 < after[i].littles.len() && after[i].littles[a0] == little;
                assert(after[i].littles[a0] == l);
            }
        }
    } else {
        let k = slot(before, big);
        lemma_slot(before, big);
        assert(after[k].littles[0] == little);
        assert forall|l: u32, b: u32| #[trigger]
            assigns(after, l, b) <==> assigns(before, l, b) || (l == little && b == big) by {
            if assigns(after, l, b) {
                let (j, a) = choose|j: int, a: int|
                    0 <= j < after.len() && 0 <= a < after[j].littles.len()
                        && #[trigger] after[j].littles[a] == l && after[j].big == b;
                if j < k {
                    assert(before[j].littles[a] == l);
                } else if j > k {
                    assert(after[j] == before[j - 1]);
                    assert(before[j - 1].littles[a] == l);
                }
            }
            if assigns(before, l, b) {
                let (j, a) = choose|j: int, a: int|
                    0 <= j < before.len() && 0 <= a < before[j].littles.len()
                        && #[trigger] before[j].littles[a] == l && before[j].big == b;
                if j < k {
                    assert(after[j].littles[a] == l);
                } else {
                    assert(after[j + 1] == before[j]);
                    assert(after[j + 1].littles[a] == l);
                }
            }
        }
    }
}

/// The littles that are matched after the last little of a matching was taken out: those
/// that were, each with the big it was with, but for that little with that big. The set stays
/// well formed.
pub proof fn lemma_evicted_assigns(set: MatchingSetView, table: TableView, at: int)
    requires
        set.wf(table),
        0 <= at < set.matches.len(),
        set.matches[at].littles.len() > 0,
    ensures
        set.evicted(at).wf(table),
        forall|l: u32, b: u32| #[trigger]
            assigns(set.evicted(at).matches, l, b) <==> assigns(set.matches, l, b) && !(l
                == set.matches[at].littles.last() && b == set.matches[at].big),
{
    let after = set.evicted(at).matches;
    let before = set.matches;
    let last = before[at].littles.last();
    let row = table.big_row(before[at].big);
    lemma_sorted_distinct(row, before[at].littles);
    assert(before[at].littles[before[at].littles.len() - 1] == last);
    assert forall|a: int| 0 <= a < after[at].littles.len() implies row.contains(
        #[trigger] after[at].littles[a],
    ) by {
        assert(after[at].littles[a] == before[at].littles[a]);
    }
    assert forall|a: int, b: int| 0 <= a < b < after[at].littles.len() implies place(
        row,
        after[at].littles[a],
    ) < place(row, after[at].littles[b]) by {
        assert(after[at].littles[a] == before[at].littles[a]);
        assert(after[at].littles[b] == before[at].littles[b]);
    }
    assert forall|j: int| 0 <= j < after.len() implies (#[trigger] after[j]).big
        < table.bigs.len() && sorted_in(table.big_row(after[j].big), after[j].littles) by {
        if j != at {
            assert(after[j] == before[j]);
        }
    }
    assert forall|i: int, j: int| 0 <= i < j < after.len() implies after[i].big < after[j].big by {
        assert(after[i].big == before[i].big && after[j].big == before[j].big);
    }
    assert forall|l: u32, b: u32| #[trigger]
        assigns(after, l, b) <==> assigns(before, l, b) && !(l == last && b
            == before[at].big) by {
        if assigns(after, l, b) {
            let (j, a) = choose|j: int, a: int|
                0 <= j < after.len() && 0 <= a < after[j].littles.len()
                    && #[trigger] after[j].littles[a] == l && after[j].big == b;
            if j != at {
                assert(before[j].littles[a] == l);
                if j < at {
                    assert(before[j].big < before[at].big);
                } else {
                    assert(before[at].big < before[j].big);
                }
            } else {
                assert(before[at].littles[a] == l);
            }
        }
        if assigns(before, l, b) && !(l == last && b == before[at].big) {
            let (j, a) = choose|j: int, a: int|
                0 <= j < before.len() && 0 <= a < before[j].littles.len()
                    && #[trigger] before[j].littles[a] == l && before[j].big == b;
            if j != at {
                assert(after[j].littles[a] == l);
            } else {
                assert(after[at].littles[a] == l);
            }
        }
    }
}

/// A state that lacks one little is sound again, without a gap, once that little has looked
/// for a big from the place that is the number of its evictions.
pub proof fn lemma_settled_sound(state: EvenView, table: TableView, little: u32, count: nat)
    requires
        state.sound(table, count, Some(little)),
        little < count,
    ensures
        (EvenView {
            set: state.set.settled(table, little, state.skip(little)),
            skips: state.skips,
        }).sound(table, count, None),
{
    let from = state.skip(little);
    let after = EvenView { set: state.set.settled(table, little, from), skips: state.skips };
    lemma_next_choice(table, little, from);
    assert(!matched(state.set.matches, little)) by {
        if matched(state.set.matches, little) {
            let b = choose|b: u32| assigns(state.set.matches, little, b);
            assert(assigns(state.set.matches, little, b));
        }
    }
    assert(!state.set.unmatched_littles.contains(little)) by {
        if state.set.unmatched_littles.contains(little) {
            let k = choose|k: int|
                0 <= k < state.set.unmatched_littles.len() && state.set.unmatched_littles[k]
                    == little;
            assert(state.set.unmatched_littles[k] == little);
        }
    }
    match table.next_choice(little, from) {
        Some(at) => {
            let big = table.little_row(little)[at];
            lemma_placed_wf(state.set, table, big, little);
            lemma_placed_assigns(state.set, table, big, little);
            assert(after.set.unmatched_littles == state.set.unmatched_littles);
            assert(assigns(after.set.matches, little, big));
            assert(matched(after.set.matches, little));
            assert forall|k: int| 0 <= k < after.set.unmatched_littles.len() implies (
            #[trigger] after.set.unmatched_littles[k]) < count && !matched(
                after.set.matches,
                after.set.unmatched_littles[k],
            ) by {
                let l = after.set.unmatched_littles[k];
                assert(state.set.unmatched_littles[k] == l);
                assert(state.set.unmatched_littles.contains(l));
                if matched(after.set.matches, l) {
                    let b = choose|b: u32| assigns(after.set.matches, l, b);
                    assert(assigns(state.set.matches, l, b));
                    assert(matched(state.set.matches, l));
                }
            }
            assert forall|l: u32| l < count implies #[trigger] matched(after.set.matches, l)
                || after.set.unmatched_littles.contains(l) by {
                if l != little && matched(state.set.matches, l) {
                    let b = choose|b: u32| assigns(state.set.matches, l, b);
                    assert(assigns(after.set.matches, l, b));
                }
            }
        },
        None => {
            let before = state.set.unmatched_littles;
            let list = after.set.unmatched_littles;
            assert(list == before.push(little));
            assert(list[list.len() - 1] == little);
            assert forall|i: int, j: int| 0 <= i < list.len() && 0 <= j < list.len() && i
                != j implies list[i] != list[j] by {
                if i < before.len() {
                    assert(before[i] == list[i]);
                    assert(before.contains(list[i]));
                }
                if j < before.len() {
                    assert(before[j] == list[j]);
                    assert(before.contains(list[j]));
                }
            }
            assert forall|k: int| 0 <= k < list.len() implies (#[trigger] list[k]) < count
                && !matched(after.set.matches, list[k]) by {
                if k < before.len() {
                    assert(before[k] == list[k]);
                }
            }
            assert forall|l: u32| l < count implies #[trigger] matched(after.set.matches, l)
                || list.contains(l) by {
                if l != little && !matched(state.set.matches, l) {
                    assert(before.contains(l));
                    let k = choose|k: int| 0 <= k < before.len() && before[k] == l;
                    assert(list[k] == l);
                }
            }
        },
    }
}

/// The maximal run over the first `count` littles reaches a sound state.
pub proof fn lemma_maximal_sound(table: TableView, count: nat)
    requires
        table.wf(),
        count <= table.littles.len(),
    ensures
        (EvenView { set: maximal(table, count), skips: Map::empty() }).sound(table, count, None),
    decreases count,
{
    let state = EvenView { set: maximal(table, count), skips: Map::empty() };
    if count == 0 {
        assert forall|l: u32, b: u32| !assigns(state.set.matches, l, b) by {}
        assert forall|l: u32| !matched(state.set.matches, l) by {}
    } else {
        let little = (count - 1) as u32;
        let before = EvenView { set: maximal(table, (count - 1) as nat), skips: Map::empty() };
        lemma_maximal_sound(table, (count - 1) as nat);
        assert(before.sound(table, count, Some(little))) by {
            assert forall|l: u32| l < count && Some(l) != Some(little) implies #[trigger] matched(
                before.set.matches,
                l,
            ) || before.set.unmatched_littles.contains(l) by {
                assert(l < count - 1);
            }
        }
        lemma_settled_sound(before, table, little, count);
    }
}

/// A step of the even run leads from a sound state to a sound state.
pub proof fn lemma_step_sound(state: EvenView, table: TableView)
    requires
        table.wf(),
        state.sound(table, table.littles.len(), None),
    ensures
        state.step(table).sound(table, table.littles.len(), None),
{
    lemma_source(state, table);
    if let Some(at) = state.source(table) {
        let count = table.littles.len();
        let little = state.set.matches[at].littles.last();
        let big = state.set.matches[at].big;
        let skip = state.skip(little) + 1;
        let mid = EvenView { set: state.set.evicted(at), skips: state.skips.insert(little, skip) };
        lemma_evicted_assigns(state.set, table, at);
        assert(state.set.matches[at].littles[state.set.matches[at].littles.len() - 1] == little);
        assert(assigns(state.set.matches, little, big));
        lemma_next_choice(table, little, state.skip(little));
        assert(mid.sound(table, count, Some(little))) by {
            assert forall|l: u32, b: u32| #[trigger]
                assigns(mid.set.matches, l, b) implies table.next_choice(l, mid.skip(l)) is Some
                && table.little_row(l)[table.next_choice(l, mid.skip(l))->0] == b && l < count
                && Some(l) != Some(little) by {
                assert(assigns(state.set.matches, l, b));
            }
            assert forall|k: int| 0 <= k < mid.set.unmatched_littles.len() implies (
            #[trigger] mid.set.unmatched_littles[k]) < count && Some(
                mid.set.unmatched_littles[k],
            ) != Some(little) && !matched(mid.set.matches, mid.set.unmatched_littles[k]) by {
                let l = mid.set.unmatched_littles[k];
                assert(state.set.unmatched_littles[k] == l);
                if matched(mid.set.matches, l) {
                    let b = choose|b: u32| assigns(mid.set.matches, l, b);
                    assert(assigns(state.set.matches, l, b));
                    assert(matched(state.set.matches, l));
                }
                if l == little {
                    assert(matched(state.set.matches, little));
                }
            }
            assert forall|l: u32| l < count && Some(l) != Some(little) implies #[trigger] matched(
                mid.set.matches,
                l,
            ) || mid.set.unmatched_littles.contains(l) by {
                if matched(state.set.matches, l) {
                    let b = choose|b: u32| assigns(state.set.matches, l, b);
                    assert(assigns(mid.set.matches, l, b));
                }
            }
        }
        lemma_settled_sound(mid, table, little, count);
        assert(mid.skip(little) == skip);
    }
}

/// Every state of the even run is sound.
pub proof fn lemma_run_sound(table: TableView, steps: nat)
    requires
        table.wf(),
    ensures
        even_start(table).run(table, steps).sound(table, table.littles.len(), None),
    decreases steps,
{
    if steps == 0 {
        lemma_maximal_sound(table, table.littles.len());
    } else {
        lemma_run_sound(table, (steps - 1) as nat);
        lemma_step_sound(even_start(table).run(table, (steps - 1) as nat), table);
    }
}

} // verus!
