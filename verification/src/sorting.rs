//! The order in which a big keeps its littles: by their place in its row.

use crate::ordered::{index_list_get_index_of, index_list_len, indices, place, IndexList};
use core::cmp::Ordering;
use vstd::prelude::*;

verus! {

/// `after` is `before` sorted by place in `row`, and the sort was stable: it holds the same
/// values as often, no value stands before one with a smaller place, and the values that `row`
/// leaves out, which all have the same place, kept their order.
pub open spec fn stably_sorted(before: Seq<u32>, after: Seq<u32>, row: Seq<u32>) -> bool {
    &&& after.to_multiset() == before.to_multiset()
    &&& forall|i: int, j: int|
        0 <= i < j < after.len() ==> place(row, after[i]) <= place(row, after[j])
    &&& after.filter(|x: u32| !row.contains(x)) == before.filter(|x: u32| !row.contains(x))
}

/// Returns the place of `x` in `row`, and the length of `row` where `x` is not in it.
pub(crate) fn place_in(row: &IndexList, x: u32) -> (p: usize)
    requires
        indices(*row).no_duplicates(),
    ensures
        p == place(indices(*row), x),
{
    match index_list_get_index_of(row, x) {
        Some(at) => at,
        None => index_list_len(row),
    }
}

/// Compares `a` and `b` by their place in `row`: the one that `row` lists earlier is the
/// lesser, and one that it leaves out is greater than all that it lists.
pub(crate) fn row_ordering(row: &IndexList, a: u32, b: u32) -> (order: Ordering)
    requires
        indices(*row).no_duplicates(),
    ensures
        order is Less <==> place(indices(*row), a) < place(indices(*row), b),
        order is Equal <==> place(indices(*row), a) == place(indices(*row), b),
        order is Greater <==> place(indices(*row), a) > place(indices(*row), b),
{
    let x = place_in(row, a);
    let y = place_in(row, b);
    if x < y {
        Ordering::Less
    } else if x == y {
        Ordering::Equal
    } else {
        Ordering::Greater
    }
}

/// `IndexSet::sort_by`, called with the order of `row_ordering` over `row`: a stable sort in
/// place.
#[verifier::external_body]
pub(crate) fn index_list_sort_by_row(set: &mut IndexList, row: &IndexList)
    requires
        indices(*row).no_duplicates(),
    ensures
        stably_sorted(indices(*old(set)), indices(*final(set)), indices(*row)),
{
    set.sort_by(|a, b| row_ordering(row, *a, *b));
}

} // verus!
