//! The records that the preferences are read from: for each member its name and the names
//! that it lists, best first.

use crate::index::Index;
use crate::kind::{Big, DynamicKind, Kind, Little};
use crate::model::{index_limit, TableView};
use crate::names::{opposed, Names, NamesView};
use crate::ordered::{
    record_map_get_index, record_map_insert, record_map_len, record_map_new, recorded, records,
    texts, RecordMap,
};
use crate::table::{numbers, PreferenceTable};
use vstd::prelude::*;

verus! {

/// Why records could not be read or resolved.
#[derive(Debug)]
pub enum RecordError {
    /// No column is headed `Name`.
    MissingNameHeader,
    /// A row ends before the column that is headed `Name`.
    MissingNameRecord,
    /// The name is a member of the other kind already.
    Rejected {
        /// The name.
        name: String,
        /// The kind that it was to become a member of.
        kind: DynamicKind,
    },
    /// The kind has no index left: it has as many members or rows as there are indices, or a
    /// list of its members is longer than a row can be.
    Full {
        /// The kind that has no index left.
        kind: DynamicKind,
    },
}

/// What a [`RecordError`] says.
pub enum RecordErrorView {
    /// No column is headed `Name`.
    MissingNameHeader,
    /// A row ends before the column that is headed `Name`.
    MissingNameRecord,
    /// The name is a member of the other kind already.
    Rejected {
        /// The name.
        name: Seq<char>,
        /// The kind that it was to become a member of.
        kind: DynamicKind,
    },
    /// The kind has no index left: it has as many members or rows as there are indices, or a
    /// list of its members is longer than a row can be.
    Full {
        /// The kind that has no index left.
        kind: DynamicKind,
    },
}

impl View for RecordError {
    type V = RecordErrorView;

    open spec fn view(&self) -> RecordErrorView {
        match self {
            RecordError::MissingNameHeader => RecordErrorView::MissingNameHeader,
            RecordError::MissingNameRecord => RecordErrorView::MissingNameRecord,
            RecordError::Rejected { name, kind } => RecordErrorView::Rejected {
                name: name@,
                kind: *kind,
            },
            RecordError::Full { kind } => RecordErrorView::Full { kind: *kind },
        }
    }
}

/// A record: a name, and the names that it lists.
pub type Entry = (Seq<char>, Seq<Seq<char>>);

/// The column that holds the names of the members: the first one that is headed `Name`.
pub open spec fn name_column(headers: Seq<Seq<char>>) -> Option<int> {
    headers.index_of_first("Name"@)
}

/// The record that the fields of a row give, where the names of the members stand in the
/// column `start`: the field of that column is the name, and the fields behind it that are
/// not empty are what it lists. A row that ends before that column gives none.
pub open spec fn record_of(fields: Seq<Seq<char>>, start: int) -> Option<Entry> {
    if 0 <= start < fields.len() {
        Some(
            (
                fields[start],
                fields.subrange(start + 1, fields.len() as int).filter(
                    |field: Seq<char>| field.len() > 0,
                ),
            ),
        )
    } else {
        None
    }
}

/// What the reading of rows has come to.
pub struct Loading {
    /// The entries read.
    pub entries: Seq<Entry>,
    /// Whether a row gave no record.
    pub failed: bool,
}

/// The entries after the records of `rows` were stored, in their order, up to the first row
/// that gives no record.
pub open spec fn loaded(entries: Seq<Entry>, rows: Seq<Seq<Seq<char>>>, start: int) -> Loading
    decreases rows.len(),
{
    if rows.len() == 0 {
        Loading { entries, failed: false }
    } else if loaded(entries, rows.drop_last(), start).failed {
        loaded(entries, rows.drop_last(), start)
    } else {
        match record_of(rows.last(), start) {
            Some(entry) => Loading {
                entries: recorded(loaded(entries, rows.drop_last(), start).entries, entry.0, entry.1),
                failed: false,
            },
            None => Loading {
                entries: loaded(entries, rows.drop_last(), start).entries,
                failed: true,
            },
        }
    }
}

/// The fields of each row of a table of strings.
pub open spec fn fields_of(rows: Seq<Vec<String>>) -> Seq<Seq<Seq<char>>> {
    Seq::new(rows.len(), |i: int| texts(rows[i]@))
}

/// What the resolving of names has come to.
pub struct Resolution {
    /// The registry.
    pub names: NamesView,
    /// The indices of the names resolved.
    pub indices: Seq<u32>,
    /// Why the resolving stopped, if it did.
    pub error: Option<RecordErrorView>,
}

/// The resolution with one more name resolved as a member of `kind`: the name is inserted
/// into the registry and gives its index. That fails where the kind has no index left, and
/// where the name is a member of the other kind.
pub open spec fn resolved(before: Resolution, kind: DynamicKind, name: Seq<char>) -> Resolution {
    if before.error is Some {
        before
    } else if before.names.list(kind).len() >= index_limit() {
        Resolution { error: Some(RecordErrorView::Full { kind }), ..before }
    } else if before.names.rejects(kind, name) {
        Resolution { error: Some(RecordErrorView::Rejected { name, kind }), ..before }
    } else {
        Resolution {
            names: before.names.inserted(kind, name),
            indices: before.indices.push(before.names.inserted_index(kind, name)->0 as u32),
            error: None,
        }
    }
}

/// The resolution after each of `list` was resolved as a member of `kind`, in their order, up
/// to the first that fails.
pub open spec fn resolved_all(before: Resolution, kind: DynamicKind, list: Seq<Seq<char>>)
    -> Resolution
    decreases list.len(),
{
    if list.len() == 0 {
        before
    } else {
        resolved(resolved_all(before, kind, list.drop_last()), kind, list.last())
    }
}

/// The resolution that starts with `names`.
pub open spec fn resolution(names: NamesView) -> Resolution {
    Resolution { names, indices: Seq::empty(), error: None }
}

/// The names of the members of a list of entries.
pub open spec fn keys_of(entries: Seq<Entry>) -> Seq<Seq<char>> {
    Seq::new(entries.len(), |i: int| entries[i].0)
}

/// What the filling of the table has come to.
pub struct Filling {
    /// The registry.
    pub names: NamesView,
    /// The table.
    pub table: TableView,
    /// Why the filling stopped, if it did.
    pub error: Option<RecordErrorView>,
}

/// The filling with one more row of `kind` that lists `list`: the names are resolved as
/// members of the other kind, and their indices are the row. That fails where the kind has no
/// index left for the row, where the list is longer than there are ranks, and where resolving
/// fails.
pub open spec fn filled(before: Filling, kind: DynamicKind, list: Seq<Seq<char>>) -> Filling {
    if before.error is Some {
        before
    } else if before.table.rows(kind).len() >= index_limit() {
        Filling { error: Some(RecordErrorView::Full { kind }), ..before }
    } else if list.len() > u32::MAX {
        Filling { error: Some(RecordErrorView::Full { kind: kind.opposite() }), ..before }
    } else if resolved_all(resolution(before.names), kind.opposite(), list).error is Some {
        Filling {
            names: resolved_all(resolution(before.names), kind.opposite(), list).names,
            table: before.table,
            error: resolved_all(resolution(before.names), kind.opposite(), list).error,
        }
    } else {
        Filling {
            names: resolved_all(resolution(before.names), kind.opposite(), list).names,
            table: before.table.with_row(
                kind,
                resolved_all(resolution(before.names), kind.opposite(), list).indices,
            ),
            error: None,
        }
    }
}

/// The filling after each of `entries` gave a row of `kind`, in their order, up to the first
/// that fails.
pub open spec fn filled_all(before: Filling, kind: DynamicKind, entries: Seq<Entry>) -> Filling
    decreases entries.len(),
{
    if entries.len() == 0 {
        before
    } else {
        filled(filled_all(before, kind, entries.drop_last()), kind, entries.last().1)
    }
}

/// The filling with the names of `entries` registered as members of `kind`.
pub open spec fn registered(before: Filling, kind: DynamicKind, entries: Seq<Entry>) -> Filling {
    if before.error is Some {
        before
    } else {
        Filling {
            names: resolved_all(resolution(before.names), kind, keys_of(entries)).names,
            table: before.table,
            error: resolved_all(resolution(before.names), kind, keys_of(entries)).error,
        }
    }
}

/// What the records hold: the entries of the bigs and the entries of the littles.
pub struct RecordsView {
    /// The entries of the bigs.
    pub bigs: Seq<Entry>,
    /// The entries of the littles.
    pub littles: Seq<Entry>,
}

impl RecordsView {
    /// What the preferences of the records make of a registry and a table: first the bigs are
    /// registered, then the littles, then each big gets its row, then each little. All stops
    /// at the first failure.
    pub open spec fn extracted(self, names: NamesView, table: TableView) -> Filling {
        filled_all(
            filled_all(
                registered(
                    registered(
                        Filling { names, table, error: None },
                        DynamicKind::Big,
                        self.bigs,
                    ),
                    DynamicKind::Little,
                    self.littles,
                ),
                DynamicKind::Big,
                self.bigs,
            ),
            DynamicKind::Little,
            self.littles,
        )
    }
}

/// The records of the bigs and of the littles, each as it was read.
pub struct Records {
    bigs: RecordMap,
    littles: RecordMap,
}

impl View for Records {
    type V = RecordsView;

    closed spec fn view(&self) -> RecordsView {
        RecordsView { bigs: records(self.bigs), littles: records(self.littles) }
    }
}

impl Default for Records {
    /// No records.
    fn default() -> (made: Self)
        ensures
            made@.bigs.len() == 0,
            made@.littles.len() == 0,
    {
        Records { bigs: record_map_new(), littles: record_map_new() }
    }
}

/// Inserts `name` into `names` as a member of kind `K` and returns its index.
pub fn insert_name<K: Kind>(names: &mut Names, name: &str) -> (index: Result<
    Index<K>,
    RecordError,
>) where K::Opposite: Kind
    requires
        old(names)@.wf(),
        opposed::<K>(),
    ensures
        final(names)@.wf(),
        final(names)@ == resolved(resolution(old(names)@), K::kind(), name@).names,
        match index {
            Ok(index) => resolved(resolution(old(names)@), K::kind(), name@).error is None
                && resolved(resolution(old(names)@), K::kind(), name@).indices == seq![index@],
            Err(error) => resolved(resolution(old(names)@), K::kind(), name@).error == Some(
                error@,
            ),
        },
{
    if names.len::<K>() > u32::MAX as usize {
        return Err(RecordError::Full { kind: K::dynamic() });
    }
    match names.insert::<K>(name.to_owned()) {
        Some(index) => {
            assert(resolved(resolution(old(names)@), K::kind(), name@).indices =~= seq![index@]);
            Ok(index)
        },
        None => Err(RecordError::Rejected { name: name.to_owned(), kind: K::dynamic() }),
    }
}

/// Resolves each name of `list` as a member of kind `K`, in their order, and returns their
/// indices; stops at the first name that fails.
pub fn resolve<K: Kind>(names: &mut Names, list: &Vec<String>) -> (indices: Result<
    Vec<Index<K>>,
    RecordError,
>) where K::Opposite: Kind
    requires
        old(names)@.wf(),
        opposed::<K>(),
    ensures
        final(names)@.wf(),
        final(names)@ == resolved_all(resolution(old(names)@), K::kind(), texts(list@)).names,
        match indices {
            Ok(indices) => indices@.len() == list@.len() && resolved_all(
                resolution(old(names)@),
                K::kind(),
                texts(list@),
            ).error is None && resolved_all(
                resolution(old(names)@),
                K::kind(),
                texts(list@),
            ).indices == numbers(indices@),
            Err(error) => resolved_all(
                resolution(old(names)@),
                K::kind(),
                texts(list@),
            ).error == Some(error@),
        },
{
    let ghost start = resolution(names@);
    let mut indices: Vec<Index<K>> = Vec::new();
    let mut i: usize = 0;
    assert(texts(list@).take(0) =~= Seq::empty());
    assert(numbers(indices@) =~= Seq::empty());
    while i < list.len()
        invariant
            i <= list.len(),
            indices@.len() == i,
            names@.wf(),
            opposed::<K>(),
            start == resolution(old(names)@),
            resolved_all(start, K::kind(), texts(list@).take(i as int)) == (Resolution {
                names: names@,
                indices: numbers(indices@),
                error: None,
            }),
        decreases list.len() - i,
    {
        let ghost before = resolved_all(start, K::kind(), texts(list@).take(i as int));
        proof {
            let next = texts(list@).take(i + 1);
            assert(next.drop_last() == texts(list@).take(i as int));
            assert(next.last() == list@[i as int]@);
        }
        match insert_name::<K>(names, list[i].as_str()) {
            Ok(index) => {
                let ghost old_indices = indices@;
                indices.push(index);
                proof {
                    let alone = resolved(resolution(before.names), K::kind(), list@[i as int]@);
                    assert(alone.indices[0] == index@);
                    assert(numbers(indices@) =~= numbers(old_indices).push(index@));
                }
            },
            Err(error) => {
                proof {
                    lemma_resolved_stops(
                        start,
                        K::kind(),
                        texts(list@),
                        i + 1,
                    );
                }
                return Err(error);
            },
        }
        i += 1;
    }
    assert(texts(list@).take(i as int) == texts(list@));
    Ok(indices)
}

/// Once resolving has failed, it stays as it is.
pub proof fn lemma_resolved_stops(
    start: Resolution,
    kind: DynamicKind,
    list: Seq<Seq<char>>,
    done: int,
)
    requires
        0 <= done <= list.len(),
        resolved_all(start, kind, list.take(done)).error is Some,
    ensures
        resolved_all(start, kind, list) == resolved_all(start, kind, list.take(done)),
    decreases list.len() - done,
{
    if done < list.len() {
        let next = list.take(done + 1);
        assert(next.drop_last() == list.take(done));
        lemma_resolved_stops(start, kind, list, done + 1);
    } else {
        assert(list.take(done) == list);
    }
}

/// Once a row has given no record, the reading stays as it is.
pub proof fn lemma_loaded_stops(
    entries: Seq<Entry>,
    rows: Seq<Seq<Seq<char>>>,
    start: int,
    done: int,
)
    requires
        0 <= done <= rows.len(),
        loaded(entries, rows.take(done), start).failed,
    ensures
        loaded(entries, rows, start) == loaded(entries, rows.take(done), start),
    decreases rows.len() - done,
{
    if done < rows.len() {
        let next = rows.take(done + 1);
        assert(next.drop_last() == rows.take(done));
        lemma_loaded_stops(entries, rows, start, done + 1);
    } else {
        assert(rows.take(done) == rows);
    }
}

/// Once filling has failed, it stays as it is.
pub proof fn lemma_filled_stops(start: Filling, kind: DynamicKind, entries: Seq<Entry>, done: int)
    requires
        0 <= done <= entries.len(),
        filled_all(start, kind, entries.take(done)).error is Some,
    ensures
        filled_all(start, kind, entries) == filled_all(start, kind, entries.take(done)),
    decreases entries.len() - done,
{
    if done < entries.len() {
        let next = entries.take(done + 1);
        assert(next.drop_last() == entries.take(done));
        lemma_filled_stops(start, kind, entries, done + 1);
    } else {
        assert(entries.take(done) == entries);
    }
}

/// Filling that starts from a failure does nothing.
pub proof fn lemma_filled_failed(start: Filling, kind: DynamicKind, entries: Seq<Entry>)
    requires
        start.error is Some,
    ensures
        filled_all(start, kind, entries) == start,
    decreases entries.len(),
{
    if entries.len() > 0 {
        lemma_filled_failed(start, kind, entries.drop_last());
    }
}

/// Returns the place of the first of `headers` that is `Name`.
pub fn find_name_column(headers: &Vec<String>) -> (column: Option<usize>)
    ensures
        column is Some <==> name_column(texts(headers@)) is Some,
        column is Some ==> column->0 == name_column(texts(headers@))->0,
{
    let name = "Name".to_owned();
    let mut i: usize = 0;
    proof {
        texts(headers@).index_of_first_ensures("Name"@);
    }
    while i < headers.len()
        invariant
            i <= headers.len(),
            name@ == "Name"@,
            forall|j: int| 0 <= j < i ==> texts(headers@)[j] != "Name"@,
        decreases headers.len() - i,
    {
        if headers[i] == name {
            proof {
                texts(headers@).index_of_first_ensures("Name"@);
                assert(texts(headers@)[i as int] == "Name"@);
                assert(texts(headers@).contains("Name"@));
            }
            return Some(i);
        }
        i += 1;
    }
    proof {
        texts(headers@).index_of_first_ensures("Name"@);
    }
    None
}

/// Returns the fields of `fields` behind the place `start` that are not empty.
pub fn listed(fields: &Vec<String>, start: usize) -> (list: Vec<String>)
    requires
        start < fields.len(),
    ensures
        Some((fields@[start as int]@, texts(list@))) == record_of(texts(fields@), start as int),
{
    let ghost tail = texts(fields@).subrange(start + 1, fields.len() as int);
    let ghost full = |field: Seq<char>| field.len() > 0;
    let mut list: Vec<String> = Vec::new();
    let mut i: usize = start + 1;
    assert(tail.take(0).filter(full) =~= Seq::empty()) by {
        reveal(Seq::filter);
    }
    assert(texts(list@) =~= Seq::empty());
    while i < fields.len()
        invariant
            start < i <= fields.len(),
            tail == texts(fields@).subrange(start + 1, fields.len() as int),
            full == |field: Seq<char>| field.len() > 0,
            texts(list@) == tail.take(i - start - 1).filter(full),
        decreases fields.len() - i,
    {
        proof {
            reveal(Seq::filter);
            let next = tail.take(i - start);
            assert(next.drop_last() == tail.take(i - start - 1));
            assert(next.last() == fields@[i as int]@);
        }
        if !fields[i].as_str().is_empty() {
            let ghost before = list@;
            list.push(fields[i].clone());
            assert(texts(list@) =~= texts(before).push(fields@[i as int]@));
        }
        i += 1;
    }
    assert(tail.take(i - start - 1) == tail);
    list
}

/// Stores the record of each of `rows` in `map`, in their order. The members are named in
/// the column of `headers` that is headed `Name`; what stands before that column is left out,
/// and what stands behind it and is not empty is the list of the member. A name that comes
/// again gets the later list.
pub fn load_records(headers: &Vec<String>, rows: &Vec<Vec<String>>, map: &mut RecordMap) -> (done:
    Result<(), RecordError>)
    ensures
        match name_column(texts(headers@)) {
            None => done is Err && done->Err_0@ == RecordErrorView::MissingNameHeader
                && records(*final(map)) == records(
                *old(map),
            ),
            Some(start) => records(*final(map)) == loaded(
                records(*old(map)),
                fields_of(rows@),
                start,
            ).entries && (done is Err <==> loaded(
                records(*old(map)),
                fields_of(rows@),
                start,
            ).failed) && (done is Err ==> done->Err_0@ == RecordErrorView::MissingNameRecord),
        },
{
    let start = match find_name_column(headers) {
        Some(start) => start,
        None => {
            return Err(RecordError::MissingNameHeader);
        },
    };
    let ghost before = records(*map);
    let mut i: usize = 0;
    assert(fields_of(rows@).take(0) =~= Seq::empty());
    while i < rows.len()
        invariant
            i <= rows.len(),
            name_column(texts(headers@)) == Some(start as int),
            before == records(*old(map)),
            loaded(before, fields_of(rows@).take(i as int), start as int) == (Loading {
                entries: records(*map),
                failed: false,
            }),
        decreases rows.len() - i,
    {
        proof {
            let next = fields_of(rows@).take(i + 1);
            assert(next.drop_last() == fields_of(rows@).take(i as int));
            assert(next.last() == texts(rows@[i as int]@));
        }
        let fields = &rows[i];
        if start < fields.len() {
            let list = listed(fields, start);
            record_map_insert(map, fields[start].clone(), list);
        } else {
            proof {
                lemma_loaded_stops(before, fields_of(rows@), start as int, i + 1);
            }
            return Err(RecordError::MissingNameRecord);
        }
        i += 1;
    }
    assert(fields_of(rows@).take(i as int) == fields_of(rows@));
    Ok(())
}

/// What the reading of one table of strings gives: its entries, or why there are none.
pub open spec fn read(headers: Seq<Seq<char>>, rows: Seq<Seq<Seq<char>>>) -> Result<
    Seq<Entry>,
    RecordErrorView,
> {
    match name_column(headers) {
        None => Err(RecordErrorView::MissingNameHeader),
        Some(start) => if loaded(Seq::empty(), rows, start).failed {
            Err(RecordErrorView::MissingNameRecord)
        } else {
            Ok(loaded(Seq::empty(), rows, start).entries)
        },
    }
}

/// Registers the name of each entry of `map` as a member of kind `K`, in their order; stops
/// at the first name that fails.
fn register<K: Kind>(names: &mut Names, map: &RecordMap) -> (done: Result<(), RecordError>) where
    K::Opposite: Kind,

    requires
        old(names)@.wf(),
        opposed::<K>(),
    ensures
        final(names)@.wf(),
        final(names)@ == resolved_all(
            resolution(old(names)@),
            K::kind(),
            keys_of(records(*map)),
        ).names,
        match done {
            Ok(_) => resolved_all(
                resolution(old(names)@),
                K::kind(),
                keys_of(records(*map)),
            ).error is None,
            Err(error) => resolved_all(
                resolution(old(names)@),
                K::kind(),
                keys_of(records(*map)),
            ).error == Some(error@),
        },
{
    let ghost start = resolution(names@);
    let ghost keys = keys_of(records(*map));
    let ghost mut indices = Seq::<u32>::empty();
    let count = record_map_len(map);
    let mut i: usize = 0;
    assert(keys.take(0) =~= Seq::empty());
    while i < count
        invariant
            i <= count,
            count == keys.len(),
            keys == keys_of(records(*map)),
            names@.wf(),
            opposed::<K>(),
            start == resolution(old(names)@),
            resolved_all(start, K::kind(), keys.take(i as int)) == (Resolution {
                names: names@,
                indices,
                error: None,
            }),
        decreases count - i,
    {
        let ghost before = resolved_all(start, K::kind(), keys.take(i as int));
        proof {
            let next = keys.take(i + 1);
            assert(next.drop_last() == keys.take(i as int));
        }
        if let Some(entry) = record_map_get_index(map, i) {
            assert(keys.take(i + 1).last() == entry.0@);
            match insert_name::<K>(names, entry.0.as_str()) {
                Ok(index) => {
                    proof {
                        let alone = resolved(resolution(before.names), K::kind(), entry.0@);
                        assert(alone.indices[0] == index@);
                        indices = indices.push(index@);
                    }
                },
                Err(error) => {
                    proof {
                        lemma_resolved_stops(start, K::kind(), keys, i + 1);
                    }
                    return Err(error);
                },
            }
        }
        i += 1;
    }
    assert(keys.take(i as int) == keys);
    Ok(())
}

/// Gives each entry of `map`, in their order, a row of kind `K` in `table`: the names that it
/// lists are resolved as members of the other kind, and their indices are the row. Stops at
/// the first entry that fails.
fn fill<K: Kind<Opposite = O>, O: Kind<Opposite = K>>(
    names: &mut Names,
    table: &mut PreferenceTable,
    map: &RecordMap,
) -> (done: Result<(), RecordError>)
    requires
        old(names)@.wf(),
        old(table)@.wf(),
        opposed::<K>(),
        opposed::<O>(),
    ensures
        final(names)@.wf(),
        final(table)@.wf(),
        final(names)@ == filled_all(
            Filling { names: old(names)@, table: old(table)@, error: None },
            K::kind(),
            records(*map),
        ).names,
        final(table)@ == filled_all(
            Filling { names: old(names)@, table: old(table)@, error: None },
            K::kind(),
            records(*map),
        ).table,
        done is Ok <==> filled_all(
            Filling { names: old(names)@, table: old(table)@, error: None },
            K::kind(),
            records(*map),
        ).error is None,
        done is Err ==> filled_all(
            Filling { names: old(names)@, table: old(table)@, error: None },
            K::kind(),
            records(*map),
        ).error == Some(done->Err_0@),
{
    let ghost start = Filling { names: names@, table: table@, error: None };
    let ghost entries = records(*map);
    let count = record_map_len(map);
    let mut i: usize = 0;
    assert(entries.take(0) =~= Seq::empty());
    while i < count
        invariant
            i <= count,
            count == entries.len(),
            entries == records(*map),
            names@.wf(),
            table@.wf(),
            opposed::<K>(),
            opposed::<O>(),
            start == (Filling { names: old(names)@, table: old(table)@, error: None }),
            filled_all(start, K::kind(), entries.take(i as int)) == (Filling {
                names: names@,
                table: table@,
                error: None,
            }),
        decreases count - i,
    {
        proof {
            let next = entries.take(i + 1);
            assert(next.drop_last() == entries.take(i as int));
            assert(next.last() == entries[i as int]);
        }
        if let Some(entry) = record_map_get_index(map, i) {
            if table.len::<K>() > u32::MAX as usize {
                proof {
                    lemma_filled_stops(start, K::kind(), entries, i + 1);
                }
                return Err(RecordError::Full { kind: K::dynamic() });
            }
            if entry.1.len() > u32::MAX as usize {
                proof {
                    lemma_filled_stops(start, K::kind(), entries, i + 1);
                }
                return Err(RecordError::Full { kind: O::dynamic() });
            }
            match resolve::<O>(names, entry.1) {
                Ok(indices) => {
                    table.insert::<K>(indices);
                },
                Err(error) => {
                    proof {
                        lemma_filled_stops(start, K::kind(), entries, i + 1);
                    }
                    return Err(error);
                },
            }
        }
        i += 1;
    }
    assert(entries.take(i as int) == entries);
    Ok(())
}

impl Records {
    /// Reads the records of the bigs and of the littles, each from the headers and the rows
    /// of its table of strings. The bigs are read first, and the first failure ends the
    /// reading.
    pub fn load(
        big_headers: &Vec<String>,
        big_rows: &Vec<Vec<String>>,
        little_headers: &Vec<String>,
        little_rows: &Vec<Vec<String>>,
    ) -> (loaded: Result<Self, RecordError>)
        ensures
            match read(texts(big_headers@), fields_of(big_rows@)) {
                Err(error) => loaded is Err && loaded->Err_0@ == error,
                Ok(bigs) => match read(texts(little_headers@), fields_of(little_rows@)) {
                    Err(error) => loaded is Err && loaded->Err_0@ == error,
                    Ok(littles) => loaded is Ok && loaded->Ok_0@ == (RecordsView {
                        bigs,
                        littles,
                    }),
                },
            },
    {
        let mut records = Records::default();
        assert(records@.bigs =~= Seq::empty());
        assert(records@.littles =~= Seq::empty());
        match load_records(big_headers, big_rows, &mut records.bigs) {
            Ok(_) => {},
            Err(error) => {
                return Err(error);
            },
        }
        match load_records(little_headers, little_rows, &mut records.littles) {
            Ok(_) => {},
            Err(error) => {
                return Err(error);
            },
        }
        Ok(records)
    }

    /// Returns the entries of the bigs.
    pub fn bigs(&self) -> (map: &RecordMap)
        ensures
            records(*map) == self@.bigs,
    {
        &self.bigs
    }

    /// Returns the entries of the littles.
    pub fn littles(&self) -> (map: &RecordMap)
        ensures
            records(*map) == self@.littles,
    {
        &self.littles
    }

    /// Registers the members of the records in `names` and gives each its row in `table`:
    /// first the names of the bigs are registered, then those of the littles; then each big
    /// gets the row of the littles that it lists, then each little the row of its bigs. A name
    /// that a list holds and no record is named by is registered on the way, as a member of
    /// the kind that the list is about. The first failure ends it, and what was done up to
    /// there stays.
    pub fn extract_preferences(self, names: &mut Names, table: &mut PreferenceTable) -> (done:
        Result<(), RecordError>)
        requires
            old(names)@.wf(),
            old(table)@.wf(),
        ensures
            final(names)@.wf(),
            final(table)@.wf(),
            final(names)@ == self@.extracted(old(names)@, old(table)@).names,
            final(table)@ == self@.extracted(old(names)@, old(table)@).table,
            done is Ok <==> self@.extracted(old(names)@, old(table)@).error is None,
            done is Err ==> self@.extracted(old(names)@, old(table)@).error == Some(
                done->Err_0@,
            ),
    {
        let ghost start = Filling { names: names@, table: table@, error: None };
        let ghost one = registered(start, DynamicKind::Big, self@.bigs);
        let ghost two = registered(one, DynamicKind::Little, self@.littles);
        let ghost three = filled_all(two, DynamicKind::Big, self@.bigs);
        match register::<Big>(names, &self.bigs) {
            Ok(_) => {},
            Err(error) => {
                proof {
                    lemma_filled_failed(two, DynamicKind::Big, self@.bigs);
                    lemma_filled_failed(three, DynamicKind::Little, self@.littles);
                }
                return Err(error);
            },
        }
        match register::<Little>(names, &self.littles) {
            Ok(_) => {},
            Err(error) => {
                proof {
                    lemma_filled_failed(two, DynamicKind::Big, self@.bigs);
                    lemma_filled_failed(three, DynamicKind::Little, self@.littles);
                }
                return Err(error);
            },
        }
        match fill::<Big, Little>(names, table, &self.bigs) {
            Ok(_) => {},
            Err(error) => {
                proof {
                    lemma_filled_failed(three, DynamicKind::Little, self@.littles);
                }
                return Err(error);
            },
        }
        fill::<Little, Big>(names, table, &self.littles)
    }
}

} // verus!
