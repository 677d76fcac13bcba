//! The mathematical model of a set of matchings, and of the placing of a little with a big.

use crate::model::TableView;
use crate::ordered::place;
use crate::sorting::stably_sorted;
use vstd::prelude::*;
use vstd::seq_lib::group_to_multiset_ensures;

verus! {

/// What a matching holds: a big, and the littles matched with it, the one it likes best first.
pub struct MatchingView {
    /// The big.
    pub big: u32,
    /// The littles of the big.
    pub littles: Seq<u32>,
}

/// What a set of matchings holds: the matchings, by ascending big; the bigs without a
/// matching; the littles without a big.
pub struct MatchingSetView {
    /// The matchings.
    pub matches: Seq<MatchingView>,
    /// The bigs that own no matching.
    pub unmatched_bigs: Seq<u32>,
    /// The littles that no big took.
    pub unmatched_littles: Seq<u32>,
}

/// `s` with `x` at its end, unless `s` holds `x` already.
pub open spec fn appended(s: Seq<u32>, x: u32) -> Seq<u32> {
    if s.contains(x) {
        s
    } else {
        s.push(x)
    }
}

/// All of `littles` are listed in `row`, and they stand in the order in which `row` lists
/// them.
pub open spec fn sorted_in(row: Seq<u32>, littles: Seq<u32>) -> bool {
    &&& forall|a: int| 0 <= a < littles.len() ==> row.contains(#[trigger] littles[a])
    &&& forall|a: int, b: int|
        0 <= a < b < littles.len() ==> place(row, littles[a]) < place(row, littles[b])
}

/// The place in `littles` behind all those that `row` does not list later than `x`.
pub open spec fn upper(littles: Seq<u32>, row: Seq<u32>, x: u32) -> int
    decreases littles.len(),
{
    if littles.len() == 0 {
        0
    } else if place(row, littles.last()) <= place(row, x) {
        littles.len() as int
    } else {
        upper(littles.drop_last(), row, x)
    }
}

/// `littles`, which stand in the order of `row`, with `x` put where that order has it. A
/// little that is among them already is not put in again.
pub open spec fn ranked_insert(littles: Seq<u32>, row: Seq<u32>, x: u32) -> Seq<u32> {
    if littles.contains(x) {
        littles
    } else {
        littles.insert(upper(littles, row, x), x)
    }
}

/// The bigs of `matches` ascend, so that no big owns two of them.
pub open spec fn ordered(matches: Seq<MatchingView>) -> bool {
    forall|i: int, j: int| 0 <= i < j < matches.len() ==> matches[i].big < matches[j].big
}

/// `big` owns one of `matches`.
pub open spec fn owns(matches: Seq<MatchingView>, big: u32) -> bool {
    exists|i: int| 0 <= i < matches.len() && (#[trigger] matches[i]).big == big
}

/// The place of the matching that `big` owns.
pub open spec fn owner(matches: Seq<MatchingView>, big: u32) -> int {
    choose|i: int| 0 <= i < matches.len() && (#[trigger] matches[i]).big == big
}

/// The place at which a matching of `big` keeps `matches` in ascending order: behind the last
/// matching of a smaller big.
pub open spec fn slot(matches: Seq<MatchingView>, big: u32) -> int
    decreases matches.len(),
{
    if matches.len() == 0 {
        0
    } else if matches.last().big < big {
        matches.len() as int
    } else {
        slot(matches.drop_last(), big)
    }
}

impl TableView {
    /// The row of the big `big`; the empty row where the table has none for it.
    pub open spec fn big_row(self, big: u32) -> Seq<u32> {
        if big < self.bigs.len() {
            self.bigs[big as int]
        } else {
            Seq::empty()
        }
    }
}

impl MatchingSetView {
    /// The set without matchings and without unmatched members.
    pub open spec fn empty() -> MatchingSetView {
        MatchingSetView {
            matches: Seq::empty(),
            unmatched_bigs: Seq::empty(),
            unmatched_littles: Seq::empty(),
        }
    }

    /// The bigs own one matching each, each of them has a row in `table`, and the littles of
    /// each are listed in that row and stand in its order.
    pub open spec fn wf(self, table: TableView) -> bool {
        &&& ordered(self.matches)
        &&& forall|i: int|
            0 <= i < self.matches.len() ==> (#[trigger] self.matches[i]).big < table.bigs.len()
                && sorted_in(table.big_row(self.matches[i].big), self.matches[i].littles)
    }

    /// The set after `little` was matched with `big`. Where `big` owns a matching, `little`
    /// joins it, at the place that the row of `big` gives it; where it owns none, it gets a
    /// matching with that one little, at the place that keeps the bigs ascending.
    pub open spec fn placed(self, table: TableView, big: u32, little: u32) -> MatchingSetView {
        if owns(self.matches, big) {
            let i = owner(self.matches, big);
            MatchingSetView {
                matches: self.matches.update(
                    i,
                    MatchingView {
                        big,
                        littles: ranked_insert(self.matches[i].littles, table.big_row(big), little),
                    },
                ),
                ..self
            }
        } else {
            MatchingSetView {
                matches: self.matches.insert(
                    slot(self.matches, big),
                    MatchingView { big, littles: seq![little] },
                ),
                ..self
            }
        }
    }
}

/// What `row` lists stands at its place in `row`.
pub proof fn lemma_place(row: Seq<u32>, x: u32)
    requires
        row.contains(x),
    ensures
        0 <= place(row, x) < row.len(),
        row[place(row, x)] == x,
{
}

/// Littles that stand in the order of a row are distinct.
pub proof fn lemma_sorted_distinct(row: Seq<u32>, littles: Seq<u32>)
    requires
        sorted_in(row, littles),
    ensures
        littles.no_duplicates(),
{
    assert forall|i: int, j: int| 0 <= i < littles.len() && 0 <= j < littles.len() && i != j
        implies littles[i] != littles[j] by {
        if i < j {
            assert(place(row, littles[i]) < place(row, littles[j]));
        } else {
            assert(place(row, littles[j]) < place(row, littles[i]));
        }
    }
}

/// `upper` parts the littles: those before it are listed earlier than `x`, those from it on
/// are listed later.
pub proof fn lemma_upper(littles: Seq<u32>, row: Seq<u32>, x: u32)
    requires
        sorted_in(row, littles),
        row.contains(x),
        !littles.contains(x),
    ensures
        0 <= upper(littles, row, x) <= littles.len(),
        forall|a: int|
            0 <= a < upper(littles, row, x) ==> place(row, #[trigger] littles[a]) < place(row, x),
        forall|a: int|
            upper(littles, row, x) <= a < littles.len() ==> place(row, #[trigger] littles[a])
                > place(row, x),
    decreases littles.len(),
{
    if littles.len() > 0 {
        let head = littles.drop_last();
        let last = littles.last();
        assert forall|a: int| 0 <= a < head.len() implies row.contains(#[trigger] head[a]) by {
            assert(head[a] == littles[a]);
        }
        assert forall|a: int, b: int| 0 <= a < b < head.len() implies place(row, head[a]) < place(
            row,
            head[b],
        ) by {
            assert(head[a] == littles[a] && head[b] == littles[b]);
        }
        if head.contains(x) {
            let a = choose|a: int| 0 <= a < head.len() && head[a] == x;
            assert(littles[a] == x);
        }
        lemma_upper(head, row, x);
        assert(littles[littles.len() - 1] == last);
        lemma_place(row, last);
        lemma_place(row, x);
        if place(row, last) <= place(row, x) {
            assert forall|a: int| 0 <= a < littles.len() implies place(row, #[trigger] littles[a])
                < place(row, x) by {
                if a < littles.len() - 1 {
                    assert(place(row, littles[a]) < place(row, littles[littles.len() - 1]));
                }
            }
        } else {
            assert forall|a: int| upper(littles, row, x) <= a < littles.len() implies place(
                row,
                #[trigger] littles[a],
            ) > place(row, x) by {
                if a < littles.len() - 1 {
                    assert(head[a] == littles[a]);
                }
            }
            assert forall|a: int| 0 <= a < upper(littles, row, x) implies place(
                row,
                #[trigger] littles[a],
            ) < place(row, x) by {
                assert(head[a] == littles[a]);
            }
        }
    }
}

/// Putting a listed little in keeps the order of the row, and adds that little and no other.
pub proof fn lemma_ranked_insert(littles: Seq<u32>, row: Seq<u32>, x: u32)
    requires
        sorted_in(row, littles),
        row.contains(x),
    ensures
        sorted_in(row, ranked_insert(littles, row, x)),
        forall|y: u32|
            #![trigger ranked_insert(littles, row, x).contains(y)]
            #![trigger littles.contains(y)]
            ranked_insert(littles, row, x).contains(y) <==> littles.contains(y) || y == x,
{
    let after = ranked_insert(littles, row, x);
    if !littles.contains(x) {
        let k = upper(littles, row, x);
        lemma_upper(littles, row, x);
        assert(after.len() == littles.len() + 1);
        assert(after[k] == x);
        assert forall|a: int| 0 <= a < after.len() && a != k implies #[trigger] after[a]
            == littles[if a < k {
            a
        } else {
            a - 1
        }] by {}
        assert forall|a: int| 0 <= a < after.len() implies row.contains(#[trigger] after[a]) by {
            if a != k {
                assert(after[a] == littles[if a < k {
                    a
                } else {
                    a - 1
                }]);
            }
        }
        assert forall|a: int, b: int| 0 <= a < b < after.len() implies place(row, after[a])
            < place(row, after[b]) by {
            let a0 = if a < k {
                a
            } else {
                a - 1
            };
            let b0 = if b < k {
                b
            } else {
                b - 1
            };
            if a != k {
                assert(after[a] == littles[a0]);
            }
            if b != k {
                assert(after[b] == littles[b0]);
            }
        }
        assert forall|y: u32|
            #![trigger after.contains(y)]
            #![trigger littles.contains(y)]
            after.contains(y) <==> littles.contains(y) || y == x by {
            if after.contains(y) {
                let a = choose|a: int| 0 <= a < after.len() && after[a] == y;
                if a != k {
                    assert(after[a] == littles[if a < k {
                        a
                    } else {
                        a - 1
                    }]);
                }
            }
            if littles.contains(y) {
                let a = choose|a: int| 0 <= a < littles.len() && littles[a] == y;
                let b = if a < k {
                    a
                } else {
                    a + 1
                };
                assert(after[b] == littles[a]);
            }
        }
    }
}

/// The order of a row fixes the sequence: two sequences in that order that hold the same
/// littles are equal.
pub proof fn lemma_sorted_unique(row: Seq<u32>, a: Seq<u32>, b: Seq<u32>)
    requires
        sorted_in(row, a),
        sorted_in(row, b),
        forall|x: u32| a.contains(x) <==> b.contains(x),
    ensures
        a == b,
    decreases a.len(),
{
    if a.len() == 0 {
        if b.len() > 0 {
            assert(b.contains(b[0]));
        }
        assert(a =~= b);
    } else {
        let x = a.last();
        assert(a[a.len() - 1] == x);
        assert(a.contains(x));
        assert(b.contains(x));
        let y = b.last();
        assert(b[b.len() - 1] == y);
        assert(b.contains(y));
        assert(a.contains(y));
        let ia = choose|i: int| 0 <= i < a.len() && a[i] == y;
        let ib = choose|i: int| 0 <= i < b.len() && b[i] == x;
        lemma_place(row, x);
        lemma_place(row, y);
        if ia < a.len() - 1 {
            assert(place(row, a[ia]) < place(row, a[a.len() - 1]));
        }
        if ib < b.len() - 1 {
            assert(place(row, b[ib]) < place(row, b[b.len() - 1]));
        }
        assert(x == y);
        let a0 = a.drop_last();
        let b0 = b.drop_last();
        assert forall|i: int| 0 <= i < a0.len() implies row.contains(#[trigger] a0[i]) by {
            assert(a0[i] == a[i]);
        }
        assert forall|i: int, j: int| 0 <= i < j < a0.len() implies place(row, a0[i]) < place(
            row,
            a0[j],
        ) by {
            assert(a0[i] == a[i] && a0[j] == a[j]);
        }
        assert forall|i: int| 0 <= i < b0.len() implies row.contains(#[trigger] b0[i]) by {
            assert(b0[i] == b[i]);
        }
        assert forall|i: int, j: int| 0 <= i < j < b0.len() implies place(row, b0[i]) < place(
            row,
            b0[j],
        ) by {
            assert(b0[i] == b[i] && b0[j] == b[j]);
        }
        assert forall|z: u32| a0.contains(z) <==> b0.contains(z) by {
            if a0.contains(z) {
                let i = choose|i: int| 0 <= i < a0.len() && a0[i] == z;
                assert(a[i] == z);
                assert(place(row, a[i]) < place(row, a[a.len() - 1]));
                assert(a.contains(z));
                let j = choose|j: int| 0 <= j < b.len() && b[j] == z;
                assert(b0[j] == z);
            }
            if b0.contains(z) {
                let i = choose|i: int| 0 <= i < b0.len() && b0[i] == z;
                assert(b[i] == z);
                assert(place(row, b[i]) < place(row, b[b.len() - 1]));
                assert(b.contains(z));
                let j = choose|j: int| 0 <= j < a.len() && a[j] == z;
                assert(a0[j] == z);
            }
        }
        lemma_sorted_unique(row, a0, b0);
        assert(a =~= a0.push(x));
        assert(b =~= b0.push(y));
    }
}

/// What a stable sort by the row makes of littles in the order of the row to which a listed
/// little was appended: the littles with that one put in at its place.
pub proof fn lemma_resorted(row: Seq<u32>, littles: Seq<u32>, x: u32, after: Seq<u32>)
    requires
        sorted_in(row, littles),
        row.contains(x),
        stably_sorted(appended(littles, x), after, row),
    ensures
        after == ranked_insert(littles, row, x),
{
    broadcast use group_to_multiset_ensures;

    let before = appended(littles, x);
    lemma_sorted_distinct(row, littles);
    assert(before.no_duplicates());
    assert forall|y: u32| before.contains(y) <==> littles.contains(y) || y == x by {
        if littles.contains(y) && !littles.contains(x) {
            let a = choose|a: int| 0 <= a < littles.len() && littles[a] == y;
            assert(before[a] == y);
        }
        if !littles.contains(x) {
            assert(before[before.len() - 1] == x);
        }
    }
    before.lemma_multiset_has_no_duplicates();
    after.lemma_multiset_has_no_duplicates_conv();
    assert forall|y: u32| after.contains(y) <==> before.contains(y) by {
        assert(after.to_multiset().count(y) == before.to_multiset().count(y));
    }
    assert forall|a: int| 0 <= a < after.len() implies row.contains(#[trigger] after[a]) by {
        assert(after.contains(after[a]));
    }
    assert forall|a: int, b: int| 0 <= a < b < after.len() implies place(row, after[a]) < place(
        row,
        after[b],
    ) by {
        lemma_place(row, after[a]);
        lemma_place(row, after[b]);
    }
    lemma_ranked_insert(littles, row, x);
    lemma_sorted_unique(row, after, ranked_insert(littles, row, x));
}

/// `slot` parts ascending matchings: the bigs before it are smaller than `big`, those from it
/// on are not.
pub proof fn lemma_slot(matches: Seq<MatchingView>, big: u32)
    requires
        ordered(matches),
    ensures
        0 <= slot(matches, big) <= matches.len(),
        forall|j: int| 0 <= j < slot(matches, big) ==> (#[trigger] matches[j]).big < big,
        forall|j: int| slot(matches, big) <= j < matches.len() ==> (#[trigger] matches[j]).big >= big,
    decreases matches.len(),
{
    if matches.len() > 0 {
        let head = matches.drop_last();
        assert forall|i: int, j: int| 0 <= i < j < head.len() implies head[i].big < head[j].big by {
            assert(head[i] == matches[i] && head[j] == matches[j]);
        }
        lemma_slot(head, big);
        if matches.last().big < big {
            assert forall|j: int| 0 <= j < matches.len() implies (#[trigger] matches[j]).big
                < big by {
                if j < matches.len() - 1 {
                    assert(matches[j].big < matches[matches.len() - 1].big);
                }
            }
        } else {
            assert forall|j: int| 0 <= j < slot(matches, big) implies (#[trigger] matches[j]).big
                < big by {
                assert(head[j] == matches[j]);
            }
            assert forall|j: int| slot(matches, big) <= j < matches.len() implies (
            #[trigger] matches[j]).big >= big by {
                if j < matches.len() - 1 {
                    assert(head[j] == matches[j]);
                }
            }
        }
    }
}

/// The place that parts ascending matchings around `big` is its slot.
pub proof fn lemma_slot_found(matches: Seq<MatchingView>, big: u32, at: int)
    requires
        ordered(matches),
        0 <= at <= matches.len(),
        forall|j: int| 0 <= j < at ==> (#[trigger] matches[j]).big < big,
        forall|j: int| at <= j < matches.len() ==> (#[trigger] matches[j]).big > big,
    ensures
        slot(matches, big) == at,
        !owns(matches, big),
{
    lemma_slot(matches, big);
    let k = slot(matches, big);
    if k < at {
        assert(matches[k].big >= big);
    }
    if k > at {
        assert(matches[at].big < big);
    }
}

/// Placing a little with a big that accepts it keeps the set well formed.
pub proof fn lemma_placed_wf(set: MatchingSetView, table: TableView, big: u32, little: u32)
    requires
        set.wf(table),
        table.accepts(big, little),
    ensures
        set.placed(table, big, little).wf(table),
{
    let after = set.placed(table, big, little);
    if owns(set.matches, big) {
        let i = owner(set.matches, big);
        lemma_ranked_insert(set.matches[i].littles, table.big_row(big), little);
        assert forall|j: int| 0 <= j < after.matches.len() implies (
        #[trigger] after.matches[j]).big < table.bigs.len() && sorted_in(
            table.big_row(after.matches[j].big),
            after.matches[j].littles,
        ) by {
            if j != i {
                assert(after.matches[j] == set.matches[j]);
            }
        }
        assert forall|a: int, b: int| 0 <= a < b < after.matches.len() implies after.matches[a].big
            < after.matches[b].big by {
            assert(after.matches[a].big == set.matches[a].big);
            assert(after.matches[b].big == set.matches[b].big);
        }
    } else {
        let k = slot(set.matches, big);
        lemma_slot(set.matches, big);
        let fresh = MatchingView { big, littles: seq![little] };
        assert(after.matches[k] == fresh);
        assert forall|j: int| 0 <= j < after.matches.len() && j != k implies (
        #[trigger] after.matches[j]) == set.matches[if j < k {
            j
        } else {
            j - 1
        }] by {}
        assert(sorted_in(table.big_row(big), fresh.littles));
        assert forall|j: int| 0 <= j < after.matches.len() implies (
        #[trigger] after.matches[j]).big < table.bigs.len() && sorted_in(
            table.big_row(after.matches[j].big),
            after.matches[j].littles,
        ) by {
            if j != k {
                assert(after.matches[j] == set.matches[if j < k {
                    j
                } else {
                    j - 1
                }]);
            }
        }
        assert forall|a: int, b: int| 0 <= a < b < after.matches.len() implies after.matches[a].big
            < after.matches[b].big by {
            let a0 = if a < k {
                a
            } else {
                a - 1
            };
            let b0 = if b < k {
                b
            } else {
                b - 1
            };
            if a != k {
                assert(after.matches[a] == set.matches[a0]);
            }
            if b != k {
                assert(after.matches[b] == set.matches[b0]);
            }
            if a == k {
                assert(set.matches[b0].big >= big);
                assert(set.matches[b0].big != big);
            }
        }
    }
}

} // verus!
