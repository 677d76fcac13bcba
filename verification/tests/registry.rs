use biglittle::{Big, DynamicKind, Index, Kind, Little, Names};

#[test]
fn first_names_get_dense_indices() {
    let mut names = Names::default();
    for (k, name) in ["ann", "bob", "cyd", "dee"].iter().enumerate() {
        let index = names.insert::<Big>(name.to_string()).unwrap();
        assert_eq!(index.get(), k as u32);
    }
    for (k, name) in ["uma", "vic"].iter().enumerate() {
        let index = names.insert::<Little>(name.to_string()).unwrap();
        assert_eq!(index.get(), k as u32);
    }
}

#[test]
fn name_of_the_other_kind_is_rejected() {
    let mut names = Names::default();
    assert!(names.insert::<Big>("ann".to_string()).is_some());
    assert!(names.insert::<Little>("ann".to_string()).is_none());
    assert!(names.index::<Little>("ann").is_none());
    assert_eq!(names.index::<Big>("ann").unwrap().get(), 0);

    assert!(names.insert::<Little>("uma".to_string()).is_some());
    assert!(names.insert::<Big>("uma".to_string()).is_none());
    assert!(names.index::<Big>("uma").is_none());
    assert!(names.get(Index::<Big>::new(1)).is_none());
}

#[test]
fn rejected_insertion_takes_no_index() {
    let mut names = Names::default();
    names.insert::<Little>("uma".to_string()).unwrap();
    assert!(names.insert::<Big>("uma".to_string()).is_none());
    let ann = names.insert::<Big>("ann".to_string()).unwrap();
    assert_eq!(ann.get(), 0);
}

#[test]
fn same_kind_insertion_is_idempotent() {
    let mut names = Names::default();
    let first = names.insert::<Big>("ann".to_string()).unwrap();
    let second = names.insert::<Big>("bob".to_string()).unwrap();
    let again = names.insert::<Big>("ann".to_string()).unwrap();
    assert_eq!(first.get(), 0);
    assert_eq!(second.get(), 1);
    assert_eq!(again.get(), 0);
    assert!(again == first);
    let third = names.insert::<Big>("cyd".to_string()).unwrap();
    assert_eq!(third.get(), 2);
}

#[test]
fn lookup_by_index_and_by_name() {
    let mut names = Names::default();
    names.insert::<Big>("ann".to_string()).unwrap();
    names.insert::<Big>("bob".to_string()).unwrap();
    names.insert::<Little>("uma".to_string()).unwrap();
    assert_eq!(names.get(Index::<Big>::new(0)).unwrap(), "ann");
    assert_eq!(names.get(Index::<Big>::new(1)).unwrap(), "bob");
    assert_eq!(names.get(Index::<Little>::new(0)).unwrap(), "uma");
    assert!(names.get(Index::<Big>::new(2)).is_none());
    assert!(names.get(Index::<Little>::new(1)).is_none());
    assert_eq!(names.index::<Big>("bob").unwrap().get(), 1);
    assert_eq!(names.index::<Little>("uma").unwrap().get(), 0);
    assert!(names.index::<Big>("zed").is_none());
    assert!(names.index::<Little>("bob").is_none());
}

#[test]
fn empty_registry_knows_nothing() {
    let names = Names::default();
    assert!(names.get(Index::<Big>::new(0)).is_none());
    assert!(names.get(Index::<Little>::new(0)).is_none());
    assert!(names.index::<Big>("").is_none());
}

#[test]
fn kinds_as_values() {
    assert_eq!(Big::dynamic(), DynamicKind::Big);
    assert_eq!(Little::dynamic(), DynamicKind::Little);
    assert_ne!(Big::dynamic(), Little::dynamic());
}

#[test]
fn index_keeps_its_number() {
    assert_eq!(Index::<Big>::new(7).get(), 7);
    assert_eq!(Index::<Little>::from(9u32).get(), 9);
    assert!(Index::<Big>::new(3) == Index::<Big>::new(3));
    assert!(Index::<Big>::new(3) != Index::<Big>::new(4));
    let copy = Index::<Little>::new(5);
    let other = copy;
    assert_eq!(copy.get(), other.get());
}
