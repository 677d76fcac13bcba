//! The mathematical model of the preference table: rows of indices, and what a rank is.

use crate::kind::DynamicKind;
use vstd::prelude::*;

verus! {

/// The number of indices: a kind has at most this many members.
pub open spec fn index_limit() -> int {
    0x1_0000_0000
}

/// `s` without the values that occurred earlier in it: each value stays where it came first.
pub open spec fn unique(s: Seq<u32>) -> Seq<u32>
    decreases s.len(),
{
    if s.len() == 0 {
        s
    } else if unique(s.drop_last()).contains(s.last()) {
        unique(s.drop_last())
    } else {
        unique(s.drop_last()).push(s.last())
    }
}

/// A row holds no index twice, and each of its places has a rank.
pub open spec fn row_wf(row: Seq<u32>) -> bool {
    row.no_duplicates() && row.len() <= u32::MAX
}

/// Each row is well formed, and each row has an index.
pub open spec fn rows_wf(rows: Seq<Seq<u32>>) -> bool {
    &&& rows.len() <= index_limit()
    &&& forall|i: int| 0 <= i < rows.len() ==> row_wf(#[trigger] rows[i])
}

/// The rank that the member `who` gives to `other` in `rows`: one more than the place of
/// `other` in the row of `who`. There is none where `who` has no row or its row leaves `other`
/// out.
pub open spec fn rank_in(rows: Seq<Seq<u32>>, who: u32, other: u32) -> Option<int> {
    if who < rows.len() && rows[who as int].contains(other) {
        Some(rows[who as int].index_of(other) + 1)
    } else {
        None
    }
}

/// The candidate at place `at` is the best of `candidates` for `who`: it has a rank, no
/// candidate has a better one, and no candidate before it has one as good.
pub open spec fn is_best(rows: Seq<Seq<u32>>, who: u32, candidates: Seq<u32>, at: int) -> bool {
    &&& 0 <= at < candidates.len()
    &&& rank_in(rows, who, candidates[at]) is Some
    &&& forall|i: int|
        0 <= i < candidates.len() && rank_in(rows, who, #[trigger] candidates[i]) is Some
            ==> rank_in(rows, who, candidates[at])->0 <= rank_in(rows, who, candidates[i])->0
    &&& forall|i: int|
        0 <= i < at && rank_in(rows, who, #[trigger] candidates[i]) is Some ==> rank_in(
            rows,
            who,
            candidates[at],
        )->0 < rank_in(rows, who, candidates[i])->0
}

/// What a preference table holds: for each big, by its index, the littles that it lists, best
/// first; and the same for each little.
pub struct TableView {
    /// The rows of the bigs.
    pub bigs: Seq<Seq<u32>>,
    /// The rows of the littles.
    pub littles: Seq<Seq<u32>>,
}

impl TableView {
    /// The rows of the members of `kind`.
    pub open spec fn rows(self, kind: DynamicKind) -> Seq<Seq<u32>> {
        match kind {
            DynamicKind::Big => self.bigs,
            DynamicKind::Little => self.littles,
        }
    }

    /// Both halves of the table are well formed.
    pub open spec fn wf(self) -> bool {
        rows_wf(self.bigs) && rows_wf(self.littles)
    }

    /// The table with `row` added as the next row of `kind`, without its repeats.
    pub open spec fn with_row(self, kind: DynamicKind, row: Seq<u32>) -> TableView {
        match kind {
            DynamicKind::Big => TableView { bigs: self.bigs.push(unique(row)), ..self },
            DynamicKind::Little => TableView { littles: self.littles.push(unique(row)), ..self },
        }
    }

    /// The big `big` accepts the little `little`: its row lists that little, at whatever place.
    pub open spec fn accepts(self, big: u32, little: u32) -> bool {
        big < self.bigs.len() && self.bigs[big as int].contains(little)
    }
}

/// `unique` keeps exactly the values of `s`, each once.
pub proof fn lemma_unique(s: Seq<u32>)
    ensures
        unique(s).no_duplicates(),
        unique(s).len() <= s.len(),
        forall|x: u32|
            #![trigger unique(s).contains(x)]
            #![trigger s.contains(x)]
            unique(s).contains(x) <==> s.contains(x),
    decreases s.len(),
{
    if s.len() > 0 {
        let head = s.drop_last();
        lemma_unique(head);
        assert forall|x: u32|
            #![trigger unique(s).contains(x)]
            #![trigger s.contains(x)]
            unique(s).contains(x) <==> s.contains(x) by {
            if s.contains(x) {
                let i = choose|i: int| 0 <= i < s.len() && s[i] == x;
                if i < s.len() - 1 {
                    assert(head[i] == x);
                    assert(head.contains(x));
                    let j = choose|j: int| 0 <= j < unique(head).len() && unique(head)[j] == x;
                    assert(unique(s)[j] == x);
                } else if !unique(head).contains(s.last()) {
                    assert(unique(s)[unique(head).len() as int] == x);
                }
            }
            if unique(s).contains(x) {
                let j = choose|j: int| 0 <= j < unique(s).len() && unique(s)[j] == x;
                if j < unique(head).len() {
                    assert(unique(head)[j] == x);
                    assert(unique(head).contains(x));
                    let i = choose|i: int| 0 <= i < head.len() && head[i] == x;
                    assert(s[i] == x);
                } else {
                    assert(s[s.len() - 1] == x);
                }
            }
        }
    }
}

} // verus!
