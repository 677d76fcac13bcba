//! The mathematical model of the two matching runs.

use crate::model::{index_limit, TableView};
use crate::placement::{appended, owns, MatchingSetView, MatchingView};
use vstd::prelude::*;

verus! {

impl TableView {
    /// The row of the little `little`; the empty row where the table has none for it.
    pub open spec fn little_row(self, little: u32) -> Seq<u32> {
        if little < self.littles.len() {
            self.littles[little as int]
        } else {
            Seq::empty()
        }
    }

    /// The first place, from `from` on, in the row of `little` at which a big stands that
    /// accepts `little`; none where the rest of the row holds no such big.
    pub open spec fn next_choice(self, little: u32, from: int) -> Option<int>
        decreases self.little_row(little).len() - from,
    {
        if from < 0 || from >= self.little_row(little).len() {
            None
        } else if self.accepts(self.little_row(little)[from], little) {
            Some(from)
        } else {
            self.next_choice(little, from + 1)
        }
    }
}

impl MatchingSetView {
    /// The set after `little` was left without a big.
    pub open spec fn rejected(self, little: u32) -> MatchingSetView {
        MatchingSetView { unmatched_littles: appended(self.unmatched_littles, little), ..self }
    }

    /// The set after `little` looked for a big: it walks its row from the place `from` on and
    /// is matched with the first big that accepts it; where none does, it is left unmatched.
    pub open spec fn settled(self, table: TableView, little: u32, from: int) -> MatchingSetView {
        match table.next_choice(little, from) {
            Some(at) => self.placed(table, table.little_row(little)[at], little),
            None => self.rejected(little),
        }
    }

    /// The set after the last little of the matching at place `at` was taken out of it.
    pub open spec fn evicted(self, at: int) -> MatchingSetView {
        MatchingSetView {
            matches: self.matches.update(
                at,
                MatchingView {
                    big: self.matches[at].big,
                    littles: self.matches[at].littles.drop_last(),
                },
            ),
            ..self
        }
    }

    /// The set after each of the first `count` bigs that owns no matching was put down as
    /// unmatched, in ascending order.
    pub open spec fn collected(self, count: nat) -> MatchingSetView
        decreases count,
    {
        if count == 0 {
            self
        } else if owns(self.matches, (count - 1) as u32) {
            self.collected((count - 1) as nat)
        } else {
            MatchingSetView {
                unmatched_bigs: appended(
                    self.collected((count - 1) as nat).unmatched_bigs,
                    (count - 1) as u32,
                ),
                ..self.collected((count - 1) as nat)
            }
        }
    }
}

/// The matchings after the first `count` littles, in ascending order, each looked for a big
/// from the start of its row.
pub open spec fn maximal(table: TableView, count: nat) -> MatchingSetView
    decreases count,
{
    if count == 0 {
        MatchingSetView::empty()
    } else {
        maximal(table, (count - 1) as nat).settled(table, (count - 1) as u32, 0)
    }
}

/// The maximal matching of `table`: every little is with the first big of its row that
/// accepts it, and the bigs that no little came to are put down as unmatched.
pub open spec fn maximal_matching(table: TableView) -> MatchingSetView {
    maximal(table, table.littles.len()).collected(table.bigs.len())
}

/// The place of the largest of `matches`, the first of them where several are as large.
pub open spec fn largest(matches: Seq<MatchingView>) -> int
    decreases matches.len(),
{
    if matches.len() <= 1 {
        0
    } else if matches[largest(matches.drop_last())].littles.len() < matches.last().littles.len() {
        matches.len() - 1
    } else {
        largest(matches.drop_last())
    }
}

/// All of `matches` hold the same number of littles.
pub open spec fn level(matches: Seq<MatchingView>) -> bool {
    forall|i: int|
        0 <= i < matches.len() ==> (#[trigger] matches[i]).littles.len()
            == matches[0].littles.len()
}

/// The place of the matching that gives up a little next, of `big_count` bigs in all. There is
/// none where every big owns a matching, where there is no matching, or where there are
/// several and all are as large. A matching that is the only one is always taken.
pub open spec fn next_largest(matches: Seq<MatchingView>, big_count: int) -> Option<int> {
    if matches.len() == big_count {
        None
    } else if matches.len() == 1 {
        Some(0)
    } else if matches.len() == 0 || level(matches) {
        None
    } else {
        Some(largest(matches))
    }
}

/// The state of an even run: the matchings, and for each little that was taken out of a
/// matching how often that happened.
pub struct EvenView {
    /// The matchings and the littles left unmatched.
    pub set: MatchingSetView,
    /// How often each little was evicted.
    pub skips: Map<u32, int>,
}

impl EvenView {
    /// How often `little` was evicted.
    pub open spec fn skip(self, little: u32) -> int {
        if self.skips.contains_key(little) {
            self.skips[little]
        } else {
            0
        }
    }

    /// The place of the matching that gives up a little in the next step, if there is a next
    /// step: the run ends where no matching is chosen or the chosen one is empty.
    pub open spec fn source(self, table: TableView) -> Option<int> {
        match next_largest(self.set.matches, table.bigs.len() as int) {
            Some(at) => if self.set.matches[at].littles.len() > 0 {
                Some(at)
            } else {
                None
            },
            None => None,
        }
    }

    /// The state after the step that takes the last little out of the matching at place `at`:
    /// the little has one eviction more, and looks for a big from the place in its row that is
    /// the number of its evictions.
    pub open spec fn moved(self, table: TableView, at: int) -> EvenView {
        let little = self.set.matches[at].littles.last();
        let skip = self.skip(little) + 1;
        EvenView {
            set: self.set.evicted(at).settled(table, little, skip),
            skips: self.skips.insert(little, skip),
        }
    }

    /// The state after one step; the state itself where the run has ended.
    pub open spec fn step(self, table: TableView) -> EvenView {
        match self.source(table) {
            Some(at) => self.moved(table, at),
            None => self,
        }
    }

    /// The state after `steps` steps.
    pub open spec fn run(self, table: TableView, steps: nat) -> EvenView
        decreases steps,
    {
        if steps == 0 {
            self
        } else {
            self.run(table, (steps - 1) as nat).step(table)
        }
    }
}

/// The state in which the even run starts: the matchings of the maximal run, and no
/// evictions.
pub open spec fn even_start(table: TableView) -> EvenView {
    EvenView { set: maximal(table, table.littles.len()), skips: Map::empty() }
}

/// The even run of `table` has ended after `steps` steps.
pub open spec fn even_ended(table: TableView, steps: nat) -> bool {
    even_start(table).run(table, steps).source(table) is None
}

/// What the even run of `table` has reached after `steps` steps, with the bigs that own no
/// matching put down as unmatched.
pub open spec fn even_matching(table: TableView, steps: nat) -> MatchingSetView {
    even_start(table).run(table, steps).set.collected(table.bigs.len())
}

/// `largest` is the place of a matching that none is larger than, and the first such place.
pub proof fn lemma_largest(matches: Seq<MatchingView>)
    requires
        matches.len() > 0,
    ensures
        0 <= largest(matches) < matches.len(),
        forall|j: int|
            0 <= j < matches.len() ==> (#[trigger] matches[j]).littles.len()
                <= matches[largest(matches)].littles.len(),
        forall|j: int|
            0 <= j < largest(matches) ==> (#[trigger] matches[j]).littles.len()
                < matches[largest(matches)].littles.len(),
    decreases matches.len(),
{
    if matches.len() > 1 {
        let head = matches.drop_last();
        lemma_largest(head);
        let k = largest(head);
        assert(head[k] == matches[k]);
        assert forall|j: int| 0 <= j < matches.len() implies (#[trigger] matches[j]).littles.len()
            <= matches[largest(matches)].littles.len() by {
            if j < matches.len() - 1 {
                assert(head[j] == matches[j]);
            }
        }
        assert forall|j: int| 0 <= j < largest(matches) implies (
        #[trigger] matches[j]).littles.len() < matches[largest(matches)].littles.len() by {
            if j < matches.len() - 1 {
                assert(head[j] == matches[j]);
            }
        }
    }
}

/// The place that `next_largest` names is the place of a matching.
pub proof fn lemma_next_largest(matches: Seq<MatchingView>, big_count: int)
    ensures
        next_largest(matches, big_count) is Some ==> 0 <= next_largest(matches, big_count)->0
            < matches.len(),
{
    if matches.len() > 0 {
        lemma_largest(matches);
    }
}

/// The place that `source` names is the place of a matching that is not empty.
pub proof fn lemma_source(state: EvenView, table: TableView)
    ensures
        state.source(table) is Some ==> 0 <= state.source(table)->0 < state.set.matches.len()
            && state.set.matches[state.source(table)->0].littles.len() > 0,
{
    if state.set.matches.len() > 0 {
        lemma_largest(state.set.matches);
    }
}

/// What `next_choice` finds is the first accepting big from `from` on.
pub proof fn lemma_next_choice(table: TableView, little: u32, from: int)
    requires
        0 <= from,
    ensures
        match table.next_choice(little, from) {
            Some(at) => from <= at < table.little_row(little).len() && table.accepts(
                table.little_row(little)[at],
                little,
            ) && forall|q: int| from <= q < at ==> !table.accepts(
                #[trigger] table.little_row(little)[q],
                little,
            ),
            None => forall|q: int|
                from <= q < table.little_row(little).len() ==> !table.accepts(
                    #[trigger] table.little_row(little)[q],
                    little,
                ),
        },
    decreases table.little_row(little).len() - from,
{
    if from < table.little_row(little).len() && !table.accepts(
        table.little_row(little)[from],
        little,
    ) {
        lemma_next_choice(table, little, from + 1);
    }
}

/// A search that starts later finds the same big, unless it starts behind it.
pub proof fn lemma_next_choice_later(table: TableView, little: u32, from: int, later: int)
    requires
        0 <= from <= later,
    ensures
        match table.next_choice(little, from) {
            Some(at) => later <= at ==> table.next_choice(little, later) == Some(at),
            None => table.next_choice(little, later) is None,
        },
{
    lemma_next_choice(table, little, from);
    lemma_next_choice(table, little, later);
}

/// The evictions of the first `count` littles, added up.
pub open spec fn spent(state: EvenView, count: nat) -> int
    decreases count,
{
    if count == 0 {
        0
    } else {
        spent(state, (count - 1) as nat) + state.skip((count - 1) as u32)
    }
}

/// The lengths of the rows of the first `count` littles, added up.
pub open spec fn capacity(table: TableView, count: nat) -> int
    decreases count,
{
    if count == 0 {
        0
    } else {
        capacity(table, (count - 1) as nat) + table.little_row((count - 1) as u32).len()
    }
}

/// Where no little was evicted more often than its row is long, the evictions add up to no
/// more than the rows.
pub proof fn lemma_spent_bounded(state: EvenView, table: TableView, count: nat)
    requires
        state.bounded(table),
    ensures
        0 <= spent(state, count) <= capacity(table, count),
    decreases count,
{
    if count > 0 {
        lemma_spent_bounded(state, table, (count - 1) as nat);
    }
}

/// One more eviction of a little below `count` adds one to the sum.
pub proof fn lemma_spent_moved(state: EvenView, next: EvenView, little: u32, count: nat)
    requires
        next.skips == state.skips.insert(little, state.skip(little) + 1),
        count <= index_limit(),
    ensures
        spent(next, count) == spent(state, count) + if little < count {
            1int
        } else {
            0int
        },
    decreases count,
{
    if count > 0 {
        lemma_spent_moved(state, next, little, (count - 1) as nat);
    }
}

/// Before the first step nothing is spent.
pub proof fn lemma_spent_start(table: TableView, count: nat)
    ensures
        spent(even_start(table), count) == 0,
    decreases count,
{
    if count > 0 {
        lemma_spent_start(table, (count - 1) as nat);
    }
}

} // verus!
