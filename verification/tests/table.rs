use biglittle::{
    Big, Index, Little, Matching, MatchingSet, Preference, PreferenceTable, Select, SelectMut,
};

fn bigs(list: &[u32]) -> Vec<Index<Big>> {
    list.iter().map(|i| Index::new(*i)).collect()
}

fn littles(list: &[u32]) -> Vec<Index<Little>> {
    list.iter().map(|i| Index::new(*i)).collect()
}

fn row_of(matching: &Matching) -> Vec<u32> {
    matching.littles().iter().map(|little| little.get()).collect()
}

fn matches_of(set: &MatchingSet) -> Vec<(u32, Vec<u32>)> {
    set.matches().iter().map(|m| (m.big.get(), row_of(m))).collect()
}

fn unmatched_bigs_of(set: &MatchingSet) -> Vec<u32> {
    set.unmatched_bigs().iter().map(|big| big.get()).collect()
}

fn unmatched_littles_of(set: &MatchingSet) -> Vec<u32> {
    set.unmatched_littles().iter().map(|little| little.get()).collect()
}

fn uniform_table() -> PreferenceTable {
    let mut table = PreferenceTable::default();
    for _ in 0..3 {
        table.insert::<Big>(littles(&[0, 1, 2, 3]));
    }
    for _ in 0..4 {
        table.insert::<Little>(bigs(&[0, 1, 2]));
    }
    table
}

#[test]
fn rank_is_the_place_from_one() {
    let mut table = PreferenceTable::default();
    table.insert::<Big>(littles(&[4, 2, 9]));
    table.insert::<Little>(bigs(&[1, 0]));
    let big = Index::<Big>::new(0);
    assert_eq!(big.preference(Index::new(4), &table).unwrap().get(), 1);
    assert_eq!(big.preference(Index::new(2), &table).unwrap().get(), 2);
    assert_eq!(big.preference(Index::new(9), &table).unwrap().get(), 3);
    assert!(big.preference(Index::new(0), &table).is_none());
    let little = Index::<Little>::new(0);
    assert_eq!(little.preference(Index::new(1), &table).unwrap().get(), 1);
    assert_eq!(little.preference(Index::new(0), &table).unwrap().get(), 2);
    assert!(little.preference(Index::new(2), &table).is_none());
}

#[test]
fn member_without_a_row_ranks_nobody() {
    let mut table = PreferenceTable::default();
    table.insert::<Big>(littles(&[0]));
    assert!(Index::<Big>::new(1).preference(Index::new(0), &table).is_none());
    assert!(Index::<Little>::new(0).preference(Index::new(0), &table).is_none());
}

#[test]
fn repeated_index_in_a_row_is_left_out() {
    let mut table = PreferenceTable::default();
    table.insert::<Big>(littles(&[5, 3, 5, 7, 3, 1]));
    let row: Vec<u32> =
        table.row(Index::<Big>::new(0)).unwrap().iter().map(|little| little.get()).collect();
    assert_eq!(row, vec![5, 3, 7, 1]);
    let big = Index::<Big>::new(0);
    assert_eq!(big.preference(Index::new(7), &table).unwrap().get(), 3);
    assert_eq!(big.preference(Index::new(1), &table).unwrap().get(), 4);
}

#[test]
fn equal_rows_are_all_kept() {
    let table = uniform_table();
    assert_eq!(table.len::<Big>(), 3);
    assert_eq!(table.len::<Little>(), 4);
    assert!(table.row(Index::<Big>::new(2)).is_some());
    assert!(table.row(Index::<Big>::new(3)).is_none());
    assert!(table.row(Index::<Little>::new(3)).is_some());
    assert!(table.row(Index::<Little>::new(4)).is_none());
}

#[test]
fn rows_of_one_kind_leave_the_other_alone() {
    let mut table = PreferenceTable::default();
    table.insert::<Little>(bigs(&[2, 1]));
    assert_eq!(table.len::<Big>(), 0);
    assert_eq!(table.len::<Little>(), 1);
    table.insert::<Big>(littles(&[]));
    assert_eq!(table.len::<Big>(), 1);
    assert_eq!(table.len::<Little>(), 1);
    assert_eq!(table.row(Index::<Big>::new(0)).unwrap().len(), 0);
}

#[test]
fn selection_reaches_the_collection_of_the_kind() {
    let mut table = PreferenceTable::default();
    table.insert::<Big>(littles(&[1]));
    table.insert::<Big>(littles(&[0]));
    table.insert::<Little>(bigs(&[0]));
    assert_eq!(<PreferenceTable as Select<Big>>::big(&table).len(), 2);
    assert_eq!(<PreferenceTable as Select<Big>>::little(&table).len(), 1);
    assert_eq!(<Big as biglittle::Kind>::select(&table).len(), 2);
    assert_eq!(<Little as biglittle::Kind>::select(&table).len(), 1);
    <Little as biglittle::Kind>::select_mut(&mut table).pop();
    assert_eq!(table.len::<Little>(), 0);
    assert_eq!(table.len::<Big>(), 2);
    <PreferenceTable as SelectMut<Little>>::big(&mut table).pop();
    assert_eq!(table.len::<Big>(), 1);
}

#[test]
fn preference_keeps_its_rank() {
    let rank = Preference::<Big>::new(3);
    assert_eq!(rank.get(), 3);
    assert!(rank == Preference::<Big>::new(3));
    assert!(rank != Preference::<Big>::new(1));
}

#[test]
fn pair_starts_a_matching() {
    let matching = Matching::from_pair(Index::new(4), Index::new(6));
    assert_eq!(matching.big.get(), 4);
    assert_eq!(row_of(&matching), vec![6]);
}

#[test]
fn matching_keeps_the_order_of_the_big() {
    let mut table = PreferenceTable::default();
    table.insert::<Big>(littles(&[3, 1, 2]));
    let mut matching = Matching::from_pair(Index::new(0), Index::new(2));
    matching.insert(&table, Index::new(8));
    matching.insert(&table, Index::new(1));
    assert_eq!(row_of(&matching), vec![1, 2, 8]);
    matching.insert(&table, Index::new(9));
    matching.insert(&table, Index::new(3));
    assert_eq!(row_of(&matching), vec![3, 1, 2, 8, 9]);
    matching.insert(&table, Index::new(1));
    assert_eq!(row_of(&matching), vec![3, 1, 2, 8, 9]);
}

#[test]
fn sort_puts_unlisted_littles_last_in_their_order() {
    let mut first = PreferenceTable::default();
    first.insert::<Big>(littles(&[7, 6, 4, 9, 5]));
    let mut matching = Matching::from_pair(Index::new(0), Index::new(7));
    for little in [9, 5, 6, 4] {
        matching.insert(&first, Index::new(little));
    }
    assert_eq!(row_of(&matching), vec![7, 6, 4, 9, 5]);
    let mut second = PreferenceTable::default();
    second.insert::<Big>(littles(&[5, 4]));
    matching.sort(&second);
    assert_eq!(row_of(&matching), vec![5, 4, 7, 6, 9]);
}

#[test]
fn sort_for_a_big_without_a_row_changes_nothing() {
    let table = PreferenceTable::default();
    let mut matching = Matching::from_pair(Index::new(3), Index::new(2));
    matching.insert(&table, Index::new(1));
    matching.insert(&table, Index::new(0));
    assert_eq!(row_of(&matching), vec![2, 1, 0]);
    matching.sort(&table);
    assert_eq!(row_of(&matching), vec![2, 1, 0]);
    assert_eq!(matching.big().get(), 3);
}

#[test]
fn empty_table_gives_an_empty_result() {
    let table = PreferenceTable::default();
    let maximal = table.find_maximal_matching();
    assert!(matches_of(&maximal).is_empty());
    assert!(unmatched_bigs_of(&maximal).is_empty());
    assert!(unmatched_littles_of(&maximal).is_empty());
    let even = table.find_even_matching();
    assert!(matches_of(&even).is_empty());
    assert!(unmatched_bigs_of(&even).is_empty());
    assert!(unmatched_littles_of(&even).is_empty());
}

#[test]
fn maximal_matching_sends_all_to_the_first_big() {
    let table = uniform_table();
    let set = table.find_maximal_matching();
    assert_eq!(matches_of(&set), vec![(0, vec![0, 1, 2, 3])]);
    assert_eq!(unmatched_bigs_of(&set), vec![1, 2]);
    assert!(unmatched_littles_of(&set).is_empty());
}

#[test]
fn even_matching_spreads_the_littles() {
    let table = uniform_table();
    let set = table.find_even_matching();
    assert_eq!(matches_of(&set), vec![(0, vec![0, 1]), (1, vec![2, 3])]);
    assert_eq!(unmatched_bigs_of(&set), vec![2]);
    assert!(unmatched_littles_of(&set).is_empty());
}

#[test]
fn unreciprocated_preference_forms_no_pair() {
    let mut table = PreferenceTable::default();
    table.insert::<Big>(littles(&[1]));
    table.insert::<Big>(littles(&[0, 1]));
    table.insert::<Little>(bigs(&[0]));
    table.insert::<Little>(bigs(&[0, 1]));
    let set = table.find_maximal_matching();
    assert_eq!(matches_of(&set), vec![(0, vec![1])]);
    assert_eq!(unmatched_bigs_of(&set), vec![1]);
    assert_eq!(unmatched_littles_of(&set), vec![0]);
}

#[test]
fn little_skips_bigs_that_do_not_list_it() {
    let mut table = PreferenceTable::default();
    table.insert::<Big>(littles(&[]));
    table.insert::<Big>(littles(&[2]));
    table.insert::<Big>(littles(&[1, 0]));
    table.insert::<Little>(bigs(&[0, 1, 2]));
    table.insert::<Little>(bigs(&[1, 2, 0]));
    table.insert::<Little>(bigs(&[0, 2, 1]));
    let set = table.find_maximal_matching();
    assert_eq!(matches_of(&set), vec![(1, vec![2]), (2, vec![1, 0])]);
    assert_eq!(unmatched_bigs_of(&set), vec![0]);
    assert!(unmatched_littles_of(&set).is_empty());
}

#[test]
fn index_without_a_member_is_never_matched() {
    let mut table = PreferenceTable::default();
    table.insert::<Big>(littles(&[0, 17]));
    table.insert::<Little>(bigs(&[9, 0]));
    table.insert::<Little>(bigs(&[5]));
    let set = table.find_maximal_matching();
    assert_eq!(matches_of(&set), vec![(0, vec![0])]);
    assert!(unmatched_bigs_of(&set).is_empty());
    assert_eq!(unmatched_littles_of(&set), vec![1]);
}

#[test]
fn matchings_ascend_by_big() {
    let mut table = PreferenceTable::default();
    for _ in 0..4 {
        table.insert::<Big>(littles(&[0, 1, 2, 3]));
    }
    table.insert::<Little>(bigs(&[3]));
    table.insert::<Little>(bigs(&[1]));
    table.insert::<Little>(bigs(&[2]));
    table.insert::<Little>(bigs(&[1]));
    let set = table.find_maximal_matching();
    assert_eq!(matches_of(&set), vec![(1, vec![1, 3]), (2, vec![2]), (3, vec![0])]);
    assert_eq!(unmatched_bigs_of(&set), vec![0]);
}

#[test]
fn maximal_matching_runs_the_same_twice() {
    let table = uniform_table();
    let first = table.find_maximal_matching();
    let second = table.find_maximal_matching();
    assert_eq!(matches_of(&first), matches_of(&second));
    assert_eq!(unmatched_bigs_of(&first), unmatched_bigs_of(&second));
    assert_eq!(unmatched_littles_of(&first), unmatched_littles_of(&second));
}

#[test]
fn even_matching_stops_when_every_big_has_a_match() {
    let mut table = PreferenceTable::default();
    table.insert::<Big>(littles(&[0, 1, 2]));
    table.insert::<Big>(littles(&[3]));
    table.insert::<Little>(bigs(&[0]));
    table.insert::<Little>(bigs(&[0]));
    table.insert::<Little>(bigs(&[0]));
    table.insert::<Little>(bigs(&[1]));
    let set = table.find_even_matching();
    assert_eq!(matches_of(&set), vec![(0, vec![0, 1, 2]), (1, vec![3])]);
    assert!(unmatched_bigs_of(&set).is_empty());
    assert!(unmatched_littles_of(&set).is_empty());
}

#[test]
fn evicted_little_goes_down_its_row_and_then_out() {
    let mut table = PreferenceTable::default();
    table.insert::<Big>(littles(&[0, 1, 2]));
    table.insert::<Big>(littles(&[2, 1]));
    table.insert::<Big>(littles(&[]));
    table.insert::<Little>(bigs(&[0]));
    table.insert::<Little>(bigs(&[0, 1]));
    table.insert::<Little>(bigs(&[0, 1]));
    let maximal = table.find_maximal_matching();
    assert_eq!(matches_of(&maximal), vec![(0, vec![0, 1, 2])]);
    let set = table.find_even_matching();
    assert_eq!(matches_of(&set), vec![(0, vec![0]), (1, vec![2])]);
    assert_eq!(unmatched_bigs_of(&set), vec![2]);
    assert_eq!(unmatched_littles_of(&set), vec![1]);
}

#[test]
fn single_matching_is_emptied_when_no_other_big_accepts() {
    let mut table = PreferenceTable::default();
    table.insert::<Big>(littles(&[0, 1]));
    table.insert::<Big>(littles(&[]));
    table.insert::<Little>(bigs(&[0]));
    table.insert::<Little>(bigs(&[0, 1]));
    let set = table.find_even_matching();
    assert_eq!(matches_of(&set), vec![(0, vec![])]);
    assert_eq!(unmatched_bigs_of(&set), vec![1]);
    assert_eq!(unmatched_littles_of(&set), vec![1, 0]);
}

#[test]
fn every_member_is_in_one_place_after_a_run() {
    let mut table = PreferenceTable::default();
    table.insert::<Big>(littles(&[4, 0, 2]));
    table.insert::<Big>(littles(&[1, 3, 0]));
    table.insert::<Big>(littles(&[5]));
    table.insert::<Big>(littles(&[]));
    table.insert::<Little>(bigs(&[0, 1]));
    table.insert::<Little>(bigs(&[0, 1]));
    table.insert::<Little>(bigs(&[3, 0]));
    table.insert::<Little>(bigs(&[1]));
    table.insert::<Little>(bigs(&[0, 2]));
    table.insert::<Little>(bigs(&[3]));
    for set in [table.find_maximal_matching(), table.find_even_matching()] {
        let mut big_seen = vec![0; 4];
        let mut little_seen = vec![0; 6];
        for (big, row) in matches_of(&set) {
            big_seen[big as usize] += 1;
            for little in row {
                little_seen[little as usize] += 1;
            }
        }
        for big in unmatched_bigs_of(&set) {
            big_seen[big as usize] += 1;
        }
        for little in unmatched_littles_of(&set) {
            little_seen[little as usize] += 1;
        }
        assert_eq!(big_seen, vec![1; 4]);
        assert_eq!(little_seen, vec![1; 6]);
    }
}

#[test]
fn best_of_takes_the_first_of_the_best_ranked() {
    let mut table = PreferenceTable::default();
    table.insert::<Big>(littles(&[7, 3, 5, 1]));
    let big = Index::<Big>::new(0);
    let (best, rank) = big.best_of(&littles(&[9, 1, 5, 8, 3, 5]), &table).unwrap();
    assert_eq!(best.get(), 3);
    assert_eq!(rank.get(), 2);
    let (best, rank) = big.best_of(&littles(&[1, 1]), &table).unwrap();
    assert_eq!(best.get(), 1);
    assert_eq!(rank.get(), 4);
    assert!(big.best_of(&littles(&[9, 8, 0]), &table).is_none());
    assert!(big.best_of(&littles(&[]), &table).is_none());
    assert!(Index::<Big>::new(1).best_of(&littles(&[7]), &table).is_none());
}

#[test]
fn smaller_rank_is_the_better_one() {
    assert!(Preference::<Big>::new(1) < Preference::<Big>::new(2));
    assert!(Preference::<Little>::new(7) > Preference::<Little>::new(3));
    assert!(Preference::<Big>::new(4) <= Preference::<Big>::new(4));
    assert!(Index::<Big>::new(0) < Index::<Big>::new(1));
    assert_eq!(Index::<Little>::new(5).max(Index::<Little>::new(2)).get(), 5);
}

#[test]
fn wide_number_keeps_its_low_bits_as_an_index() {
    assert_eq!(Index::<Big>::from(12usize).get(), 12);
    assert_eq!(Index::<Little>::from(u32::MAX as usize).get(), u32::MAX);
    if usize::BITS > 32 {
        let wide = (1u64 << 32) as usize + 5;
        assert_eq!(Index::<Little>::from(wide).get(), 5);
    }
}

#[test]
fn copy_holds_the_same_and_stands_alone() {
    let mut table = uniform_table();
    let copy = table.clone();
    assert!(copy == table);
    table.insert::<Big>(littles(&[0]));
    assert_eq!(copy.len::<Big>(), 3);
    assert_eq!(table.len::<Big>(), 4);
    let set = copy.find_even_matching();
    let again = set.clone();
    assert!(set == again);
    assert_eq!(matches_of(&set), matches_of(&again));
    assert_eq!(unmatched_bigs_of(&set), unmatched_bigs_of(&again));
    let mut matching = Matching::from_pair(Index::new(0), Index::new(3));
    let before = matching.clone();
    matching.insert(&copy, Index::new(1));
    assert_eq!(row_of(&before), vec![3]);
    assert_eq!(row_of(&matching), vec![1, 3]);
    assert_eq!(before.big.get(), 0);
}
