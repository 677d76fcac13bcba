use biglittle::records::{find_name_column, insert_name, listed, load_records, resolve};
use biglittle::text::display_iter;
use biglittle::{
    Big, DynamicKind, Index, Little, MatchingSet, Names, PreferenceTable, RecordError, Records,
};
use indexmap::IndexMap;

fn strings(list: &[&str]) -> Vec<String> {
    list.iter().map(|s| s.to_string()).collect()
}

fn table(list: &[&[&str]]) -> Vec<Vec<String>> {
    list.iter().map(|row| strings(row)).collect()
}

fn row_of(table: &PreferenceTable, big: bool, index: u32) -> Vec<u32> {
    if big {
        table.row(Index::<Big>::new(index)).unwrap().iter().map(|little| little.get()).collect()
    } else {
        table.row(Index::<Little>::new(index)).unwrap().iter().map(|big| big.get()).collect()
    }
}

fn matches_of(set: &MatchingSet) -> Vec<(u32, Vec<u32>)> {
    set.matches()
        .iter()
        .map(|m| (m.big.get(), m.littles().iter().map(|little| little.get()).collect()))
        .collect()
}

fn example() -> Records {
    Records::load(
        &strings(&["Name", "First", "Second", "Third", "Fourth"]),
        &table(&[
            &["Ann", "Will", "Xena", "Yuri", "Zoe"],
            &["Bob", "Will", "Xena", "Yuri", "Zoe"],
            &["Cyd", "Will", "Xena", "Yuri", "Zoe"],
        ]),
        &strings(&["Name", "First", "Second", "Third"]),
        &table(&[
            &["Will", "Ann", "Bob", "Cyd"],
            &["Xena", "Ann", "Bob", "Cyd"],
            &["Yuri", "Ann", "Bob", "Cyd"],
            &["Zoe", "Ann", "Bob", "Cyd"],
        ]),
    )
    .unwrap()
}

#[test]
fn name_column_is_the_first_headed_name() {
    assert_eq!(find_name_column(&strings(&["Name", "A"])), Some(0));
    assert_eq!(find_name_column(&strings(&["Time", "Mail", "Name", "Name"])), Some(2));
    assert_eq!(find_name_column(&strings(&["name", "NAME", " Name"])), None);
    assert_eq!(find_name_column(&strings(&[])), None);
}

#[test]
fn listed_leaves_out_empty_fields() {
    let fields = strings(&["stamp", "Ann", "", "Will", "", "", "Zoe", ""]);
    assert_eq!(listed(&fields, 1), strings(&["Will", "Zoe"]));
    assert_eq!(listed(&fields, 0), strings(&["Ann", "Will", "Zoe"]));
    assert_eq!(listed(&fields, 7), strings(&[]));
}

#[test]
fn records_skip_the_columns_before_the_name() {
    let mut map = IndexMap::new();
    let done = load_records(
        &strings(&["Stamp", "Name", "One", "Two"]),
        &table(&[&["9:00", "Ann", "Will", ""], &["9:05", "Bob", "", "Zoe", "Yuri"]]),
        &mut map,
    );
    assert!(done.is_ok());
    assert_eq!(map.len(), 2);
    assert_eq!(map.get_index(0).unwrap().0, "Ann");
    assert_eq!(map.get_index(0).unwrap().1, &strings(&["Will"]));
    assert_eq!(map.get_index(1).unwrap().0, "Bob");
    assert_eq!(map.get_index(1).unwrap().1, &strings(&["Zoe", "Yuri"]));
}

#[test]
fn later_record_of_a_name_takes_its_place() {
    let mut map = IndexMap::new();
    load_records(
        &strings(&["Name", "One"]),
        &table(&[&["Ann", "Will"], &["Bob", "Zoe"], &["Ann", "Yuri"]]),
        &mut map,
    )
    .unwrap();
    assert_eq!(map.len(), 2);
    assert_eq!(map.get_index(0).unwrap().0, "Ann");
    assert_eq!(map.get_index(0).unwrap().1, &strings(&["Yuri"]));
    assert_eq!(map.get_index(1).unwrap().0, "Bob");
}

#[test]
fn missing_name_header_is_an_error() {
    let mut map = IndexMap::new();
    let done = load_records(&strings(&["Who", "One"]), &table(&[&["Ann", "Will"]]), &mut map);
    assert!(matches!(done, Err(RecordError::MissingNameHeader)));
    assert_eq!(map.len(), 0);
}

#[test]
fn short_row_is_an_error() {
    let mut map = IndexMap::new();
    let done = load_records(
        &strings(&["Stamp", "Mail", "Name", "One"]),
        &table(&[&["1", "a@b", "Ann", "Will"], &["2", "c@d"], &["3", "e@f", "Cyd"]]),
        &mut map,
    );
    assert!(matches!(done, Err(RecordError::MissingNameRecord)));
    assert_eq!(map.len(), 1);
}

#[test]
fn load_reads_the_bigs_first() {
    let none = Records::load(
        &strings(&["Who"]),
        &table(&[]),
        &strings(&["Name"]),
        &table(&[&[]]),
    );
    assert!(matches!(none, Err(RecordError::MissingNameHeader)));
    let short = Records::load(
        &strings(&["Name"]),
        &table(&[&["Ann"]]),
        &strings(&["Name"]),
        &table(&[&[]]),
    );
    assert!(matches!(short, Err(RecordError::MissingNameRecord)));
    let records = example();
    assert_eq!(records.bigs().len(), 3);
    assert_eq!(records.littles().len(), 4);
    assert_eq!(records.littles().get_index(3).unwrap().0, "Zoe");
}

#[test]
fn insert_name_says_which_name_was_rejected() {
    let mut names = Names::default();
    assert_eq!(insert_name::<Big>(&mut names, "Ann").unwrap().get(), 0);
    assert_eq!(insert_name::<Big>(&mut names, "Bob").unwrap().get(), 1);
    assert_eq!(insert_name::<Big>(&mut names, "Ann").unwrap().get(), 0);
    match insert_name::<Little>(&mut names, "Bob") {
        Err(RecordError::Rejected { name, kind }) => {
            assert_eq!(name, "Bob");
            assert_eq!(kind, DynamicKind::Little);
        }
        _ => panic!("a name of a big was taken as a little"),
    }
}

#[test]
fn resolve_gives_the_indices_in_order() {
    let mut names = Names::default();
    names.insert::<Little>("Will".to_string()).unwrap();
    let indices = resolve::<Little>(&mut names, &strings(&["Zoe", "Will", "Yuri", "Zoe"])).unwrap();
    let numbers: Vec<u32> = indices.iter().map(|i| i.get()).collect();
    assert_eq!(numbers, vec![1, 0, 2, 1]);
    assert_eq!(names.len::<Little>(), 3);
    assert_eq!(names.len::<Big>(), 0);
}

#[test]
fn resolve_stops_at_the_first_rejected_name() {
    let mut names = Names::default();
    names.insert::<Big>("Ann".to_string()).unwrap();
    let done = resolve::<Little>(&mut names, &strings(&["Will", "Ann", "Zoe"]));
    assert!(matches!(done, Err(RecordError::Rejected { .. })));
    assert_eq!(names.len::<Little>(), 1);
    assert!(names.index::<Little>("Zoe").is_none());
}

#[test]
fn extraction_fills_registry_and_table() {
    let mut names = Names::default();
    let mut preferences = PreferenceTable::default();
    example().extract_preferences(&mut names, &mut preferences).unwrap();
    assert_eq!(names.len::<Big>(), 3);
    assert_eq!(names.len::<Little>(), 4);
    assert_eq!(names.index::<Big>("Cyd").unwrap().get(), 2);
    assert_eq!(names.index::<Little>("Yuri").unwrap().get(), 2);
    assert_eq!(preferences.len::<Big>(), 3);
    assert_eq!(preferences.len::<Little>(), 4);
    assert_eq!(row_of(&preferences, true, 1), vec![0, 1, 2, 3]);
    assert_eq!(row_of(&preferences, false, 3), vec![0, 1, 2]);
}

#[test]
fn extraction_registers_names_that_only_a_list_holds() {
    let records = Records::load(
        &strings(&["Name", "One", "Two"]),
        &table(&[&["Ann", "Zoe", "Will"]]),
        &strings(&["Name", "One"]),
        &table(&[&["Will", "Bob"]]),
    )
    .unwrap();
    let mut names = Names::default();
    let mut preferences = PreferenceTable::default();
    records.extract_preferences(&mut names, &mut preferences).unwrap();
    assert_eq!(names.index::<Little>("Will").unwrap().get(), 0);
    assert_eq!(names.index::<Little>("Zoe").unwrap().get(), 1);
    assert_eq!(names.index::<Big>("Bob").unwrap().get(), 1);
    assert_eq!(row_of(&preferences, true, 0), vec![1, 0]);
    assert_eq!(row_of(&preferences, false, 0), vec![1]);
    assert_eq!(preferences.len::<Big>(), 1);
    let set = preferences.find_maximal_matching();
    assert!(matches_of(&set).is_empty());
}

#[test]
fn extraction_rejects_a_name_of_both_kinds() {
    let records = Records::load(
        &strings(&["Name", "One"]),
        &table(&[&["Ann", "Will"], &["Bob", "Ann"]]),
        &strings(&["Name", "One"]),
        &table(&[&["Will", "Ann"]]),
    )
    .unwrap();
    let mut names = Names::default();
    let mut preferences = PreferenceTable::default();
    match records.extract_preferences(&mut names, &mut preferences) {
        Err(RecordError::Rejected { name, kind }) => {
            assert_eq!(name, "Ann");
            assert_eq!(kind, DynamicKind::Little);
        }
        _ => panic!("a big was listed as a little"),
    }
    assert_eq!(preferences.len::<Big>(), 1);
    assert_eq!(preferences.len::<Little>(), 0);
}

#[test]
fn list_is_shown_with_commas_between() {
    assert_eq!(display_iter(&strings(&[])), "");
    assert_eq!(display_iter(&strings(&["Ann"])), "Ann");
    assert_eq!(display_iter(&strings(&["Ann", "Bob", "Cyd"])), "Ann, Bob, Cyd");
    assert_eq!(display_iter(&strings(&["", ""])), ", ");
}

#[test]
fn table_is_shown_with_names() {
    let mut names = Names::default();
    let mut preferences = PreferenceTable::default();
    let records = Records::load(
        &strings(&["Name", "One", "Two"]),
        &table(&[&["Ann", "Will", "Xena"], &["Robert", "Xena"]]),
        &strings(&["Name", "One", "Two"]),
        &table(&[&["Will", "Robert", "Ann"], &["Xena"]]),
    )
    .unwrap();
    records.extract_preferences(&mut names, &mut preferences).unwrap();
    let text = preferences.display(&names).text().unwrap();
    let expected = "PreferenceTable {\n    bigs: {\
        \n        Ann:    [Will, Xena],\
        \n        Robert: [Xena],\
        \n    },\n    littles: {\
        \n        Will: [Robert, Ann],\
        \n        Xena: [],\
        \n    },\n}";
    assert_eq!(text, expected);
}

#[test]
fn matching_set_is_shown_with_names() {
    let mut names = Names::default();
    let mut preferences = PreferenceTable::default();
    example().extract_preferences(&mut names, &mut preferences).unwrap();
    let set = preferences.find_even_matching();
    let text = set.display(&names).text().unwrap();
    let expected = "MatchingSet {\n    matches: {\
        \n        Ann: [Will, Xena],\
        \n        Bob: [Yuri, Zoe],\
        \n    },\n    unmatched_bigs:    [Cyd]\n    unmatched_littles: [],\n}";
    assert_eq!(text, expected);
}

#[test]
fn nothing_is_shown_where_a_name_is_missing() {
    let mut names = Names::default();
    names.insert::<Big>("Ann".to_string()).unwrap();
    let mut preferences = PreferenceTable::default();
    preferences.insert::<Big>(vec![Index::new(0)]);
    preferences.insert::<Little>(vec![Index::new(0)]);
    assert!(preferences.display(&names).text().is_none());
    let set = preferences.find_maximal_matching();
    assert!(set.display(&names).text().is_none());
    names.insert::<Little>("Will".to_string()).unwrap();
    assert!(preferences.display(&names).text().is_some());
    assert!(set.display(&names).text().is_some());
}

#[test]
fn longest_name_is_measured_in_bytes() {
    let mut names = Names::default();
    assert_eq!(names.longest_name_length::<Big>(), 0);
    names.insert::<Big>("Ann".to_string()).unwrap();
    names.insert::<Big>("Zoë".to_string()).unwrap();
    names.insert::<Little>("Maximilian".to_string()).unwrap();
    assert_eq!(names.longest_name_length::<Big>(), 4);
    assert_eq!(names.longest_name_length::<Little>(), 10);
}
