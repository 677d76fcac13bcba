//! The text that a preference table and a set of matchings are shown as, with the names of
//! the members in place of their indices.

use crate::index::Index;
use crate::kind::{Big, Kind, Little};
use crate::matching::{matchings_of, MatchingSet};
use crate::model::TableView;
use crate::names::{Names, NamesView};
use crate::ordered::{index_list_get_index, index_list_len, indices, texts, IndexList};
use crate::placement::{MatchingSetView, MatchingView};
use crate::table::PreferenceTable;
use crate::text::{display_iter, joined, string_push_str};
use vstd::prelude::*;
use vstd::utf8::encode_utf8;

verus! {

/// The number of bytes that `name` takes.
pub open spec fn width(name: Seq<char>) -> usize {
    encode_utf8(name).len() as usize
}

/// The width of the widest of `list`, 0 where there is none.
pub open spec fn longest(list: Seq<Seq<char>>) -> usize
    decreases list.len(),
{
    if list.len() == 0 {
        0
    } else if longest(list.drop_last()) < width(list.last()) {
        width(list.last())
    } else {
        longest(list.drop_last())
    }
}

/// `count` blanks.
pub open spec fn blanks(count: int) -> Seq<char> {
    Seq::new(count as nat, |i: int| ' ')
}

/// Each of `indices` is the index of one of `list`.
pub open spec fn resolvable(list: Seq<Seq<char>>, indices: Seq<u32>) -> bool {
    forall|i: int| 0 <= i < indices.len() ==> (#[trigger] indices[i]) < list.len()
}

/// The names that `indices` stand for, in their order.
pub open spec fn named(list: Seq<Seq<char>>, indices: Seq<u32>) -> Seq<Seq<char>> {
    Seq::new(indices.len(), |i: int| list[indices[i] as int])
}

/// The line of one member: its name, a colon, blanks up to the width `to` of the widest
/// name, and in square brackets the names of `items` with commas between them.
pub open spec fn line(name: Seq<char>, to: usize, items: Seq<Seq<char>>) -> Seq<char> {
    "\n        "@ + name + ": "@ + blanks(to - width(name)) + "["@ + joined(items) + "],"@
}

/// The lines of the first `count` members of one kind, whose names are `own`, with the rows
/// `rows` of indices into `other`.
pub open spec fn lines(
    own: Seq<Seq<char>>,
    other: Seq<Seq<char>>,
    rows: Seq<Seq<u32>>,
    count: nat,
) -> Seq<char>
    decreases count,
{
    if count == 0 {
        Seq::empty()
    } else {
        lines(own, other, rows, (count - 1) as nat) + line(
            own[count - 1],
            longest(own),
            named(other, rows[count - 1]),
        )
    }
}

/// Every member that has a row has a name, and so has every index that a row lists.
pub open spec fn rows_shown(own: Seq<Seq<char>>, other: Seq<Seq<char>>, rows: Seq<Seq<u32>>)
    -> bool {
    &&& rows.len() <= own.len()
    &&& forall|i: int| 0 <= i < rows.len() ==> resolvable(other, #[trigger] rows[i])
}

/// The text of a preference table.
pub open spec fn table_text(names: NamesView, table: TableView) -> Seq<char> {
    "PreferenceTable {\n    bigs: {"@ + lines(
        names.bigs,
        names.littles,
        table.bigs,
        table.bigs.len(),
    ) + "\n    },\n    littles: {"@ + lines(
        names.littles,
        names.bigs,
        table.littles,
        table.littles.len(),
    ) + "\n    },\n}"@
}

/// Every index of the table has a name.
pub open spec fn table_shown(names: NamesView, table: TableView) -> bool {
    rows_shown(names.bigs, names.littles, table.bigs) && rows_shown(
        names.littles,
        names.bigs,
        table.littles,
    )
}

/// The lines of the first `count` of `matches`.
pub open spec fn match_lines(names: NamesView, matches: Seq<MatchingView>, count: nat) -> Seq<
    char,
>
    decreases count,
{
    if count == 0 {
        Seq::empty()
    } else {
        match_lines(names, matches, (count - 1) as nat) + line(
            names.bigs[matches[count - 1].big as int],
            longest(names.bigs),
            named(names.littles, matches[count - 1].littles),
        )
    }
}

/// Every index of the first `count` of `matches` has a name.
pub open spec fn matches_shown(names: NamesView, matches: Seq<MatchingView>, count: int) -> bool {
    forall|i: int|
        0 <= i < count ==> (#[trigger] matches[i]).big < names.bigs.len() && resolvable(
            names.littles,
            matches[i].littles,
        )
}

/// The text of a set of matchings.
pub open spec fn set_text(names: NamesView, set: MatchingSetView) -> Seq<char> {
    "MatchingSet {\n    matches: {"@ + match_lines(names, set.matches, set.matches.len())
        + "\n    },\n"@ + "    unmatched_bigs:    ["@ + joined(
        named(names.bigs, set.unmatched_bigs),
    ) + "]\n"@ + "    unmatched_littles: ["@ + joined(named(names.littles, set.unmatched_littles))
        + "],\n"@ + "}"@
}

/// Every index of the set has a name.
pub open spec fn set_shown(names: NamesView, set: MatchingSetView) -> bool {
    &&& matches_shown(names, set.matches, set.matches.len() as int)
    &&& resolvable(names.bigs, set.unmatched_bigs)
    &&& resolvable(names.littles, set.unmatched_littles)
}

/// No name is wider than the widest.
pub proof fn lemma_longest(list: Seq<Seq<char>>, i: int)
    requires
        0 <= i < list.len(),
    ensures
        width(list[i]) <= longest(list),
    decreases list.len(),
{
    if i < list.len() - 1 {
        lemma_longest(list.drop_last(), i);
    }
}

impl Names {
    /// Finds the length of the longest name of kind `K`.
    pub fn longest_name_length<K: Kind>(&self) -> (length: usize)
        ensures
            length == longest(self@.list(K::kind())),
    {
        let count = self.len::<K>();
        let ghost list = self@.list(K::kind());
        let mut length: usize = 0;
        let mut i: usize = 0;
        assert(list.take(0) =~= Seq::empty());
        while i < count
            invariant
                i <= count,
                count == list.len(),
                list == self@.list(K::kind()),
                length == longest(list.take(i as int)),
            decreases count - i,
        {
            proof {
                let next = list.take(i + 1);
                assert(next.drop_last() == list.take(i as int));
                assert(next.last() == list[i as int]);
            }
            if let Some(name) = self.at::<K>(i) {
                let here = name.as_str().len();
                if length < here {
                    length = here;
                }
            }
            i += 1;
        }
        assert(list.take(i as int) == list);
        length
    }
}

/// Appends `count` blanks to `text`.
fn pad(text: &mut String, count: usize)
    ensures
        final(text)@ == old(text)@ + blanks(count as int),
{
    let ghost start = text@;
    let mut i: usize = 0;
    assert(text@ =~= start + blanks(0));
    while i < count
        invariant
            i <= count,
            text@ == start + blanks(i as int),
        decreases count - i,
    {
        proof {
            reveal_strlit(" ");
            assert(start + blanks(i as int) + " "@ =~= start + blanks(i + 1));
        }
        string_push_str(text, " ");
        i += 1;
    }
}

/// Appends the line of the member `name` with the names `items` to `text`.
fn push_line(text: &mut String, name: &String, to: usize, items: &Vec<String>)
    requires
        width(name@) <= to,
    ensures
        final(text)@ == old(text)@ + line(name@, to, texts(items@)),
{
    let ghost start = text@;
    string_push_str(text, "\n        ");
    string_push_str(text, name.as_str());
    string_push_str(text, ": ");
    pad(text, to - name.as_str().len());
    string_push_str(text, "[");
    let list = display_iter(items);
    string_push_str(text, list.as_str());
    string_push_str(text, "],");
    assert(text@ =~= start + line(name@, to, texts(items@)));
}

/// Returns the names of kind `K` that `list` stands for, if each of its indices has one.
fn names_of<K: Kind>(names: &Names, list: &IndexList) -> (found: Option<Vec<String>>)
    ensures
        found is Some <==> resolvable(names@.list(K::kind()), indices(*list)),
        found is Some ==> texts(found->0@) == named(names@.list(K::kind()), indices(*list)),
{
    let count = index_list_len(list);
    let mut found: Vec<String> = Vec::new();
    let mut i: usize = 0;
    while i < count
        invariant
            i <= count,
            count == indices(*list).len(),
            found@.len() == i,
            forall|j: int|
                0 <= j < i ==> (#[trigger] indices(*list)[j]) < names@.list(K::kind()).len()
                    && found@[j]@ == names@.list(K::kind())[indices(*list)[j] as int],
        decreases count - i,
    {
        if let Some(number) = index_list_get_index(list, i) {
            match names.get(Index::<K>::new(number)) {
                Some(name) => {
                    found.push(name.clone());
                },
                None => {
                    assert(!(indices(*list)[i as int] < names@.list(K::kind()).len()));
                    return None;
                },
            }
        }
        i += 1;
    }
    assert(texts(found@) =~= named(names@.list(K::kind()), indices(*list)));
    Some(found)
}

/// Appends the lines of the members of kind `K` that have a row in `table` to `text`.
/// Returns `false`, with `text` unfinished, where a member or a listed index has no name.
fn push_lines<K: Kind<Opposite = O>, O: Kind<Opposite = K>>(
    text: &mut String,
    table: &PreferenceTable,
    names: &Names,
) -> (shown: bool)
    requires
        table@.wf(),
    ensures
        shown == rows_shown(
            names@.list(K::kind()),
            names@.list(O::kind()),
            table@.rows(K::kind()),
        ),
        shown ==> final(text)@ == old(text)@ + lines(
            names@.list(K::kind()),
            names@.list(O::kind()),
            table@.rows(K::kind()),
            table@.rows(K::kind()).len(),
        ),
{
    let ghost start = text@;
    let ghost own = names@.list(K::kind());
    let ghost other = names@.list(O::kind());
    let ghost rows = table@.rows(K::kind());
    let to = names.longest_name_length::<K>();
    let count = table.len::<K>();
    let mut i: usize = 0;
    assert(text@ =~= start + lines(own, other, rows, 0));
    while i < count
        invariant
            i <= count,
            count == rows.len(),
            count <= crate::model::index_limit(),
            own == names@.list(K::kind()),
            other == names@.list(O::kind()),
            rows == table@.rows(K::kind()),
            to == longest(own),
            i <= own.len(),
            forall|j: int| 0 <= j < i ==> resolvable(other, #[trigger] rows[j]),
            text@ == start + lines(own, other, rows, i as nat),
        decreases count - i,
    {
        let index = Index::<K>::new(i as u32);
        let name = match names.get(index) {
            Some(name) => name,
            None => {
                return false;
            },
        };
        if let Some(row) = table.row_ref::<K>(index) {
            let items = match names_of::<O>(names, row) {
                Some(items) => items,
                None => {
                    assert(!resolvable(other, rows[i as int]));
                    return false;
                },
            };
            proof {
                lemma_longest(own, i as int);
            }
            let ghost before = text@;
            push_line(text, name, to, &items);
            assert(text@ =~= start + lines(own, other, rows, (i + 1) as nat));
        }
        i += 1;
    }
    true
}

/// A preference table, to be shown with names.
pub struct PreferenceTableDisplay<'s> {
    table: &'s PreferenceTable,
    names: &'s Names,
}

impl<'s> PreferenceTableDisplay<'s> {
    /// The table that is shown.
    pub closed spec fn table(self) -> TableView {
        self.table@
    }

    /// The names that it is shown with.
    pub closed spec fn names(self) -> NamesView {
        self.names@
    }

    /// Returns the text of the table: a line for each big, then a line for each little, each
    /// with the names that the member lists. There is none where an index of the table has no
    /// name.
    pub fn text(&self) -> (text: Option<String>)
        requires
            self.table().wf(),
        ensures
            text is Some <==> table_shown(self.names(), self.table()),
            text is Some ==> text->0@ == table_text(self.names(), self.table()),
    {
        let mut text = "PreferenceTable {\n    bigs: {".to_owned();
        if !push_lines::<Big, Little>(&mut text, self.table, self.names) {
            return None;
        }
        string_push_str(&mut text, "\n    },\n    littles: {");
        if !push_lines::<Little, Big>(&mut text, self.table, self.names) {
            return None;
        }
        string_push_str(&mut text, "\n    },\n}");
        assert(text@ =~= table_text(self.names(), self.table()));
        Some(text)
    }
}

impl PreferenceTable {
    /// Returns what shows `self` with `names` in place of the indices of the table.
    pub fn display<'s>(&'s self, names: &'s Names) -> (shown: PreferenceTableDisplay<'s>)
        ensures
            shown.table() == self@,
            shown.names() == names@,
    {
        PreferenceTableDisplay { table: self, names }
    }
}

/// A set of matchings, to be shown with names.
pub struct MatchingSetDisplay<'s> {
    matching_set: &'s MatchingSet,
    names: &'s Names,
}

impl<'s> MatchingSetDisplay<'s> {
    /// The set that is shown.
    pub closed spec fn set(self) -> MatchingSetView {
        self.matching_set@
    }

    /// The names that it is shown with.
    pub closed spec fn names(self) -> NamesView {
        self.names@
    }

    /// Returns the text of the set: a line for each matching, with the name of the big and
    /// the names of its littles, then the names of the unmatched bigs, then those of the
    /// unmatched littles. There is none where an index of the set has no name.
    pub fn text(&self) -> (text: Option<String>)
        ensures
            text is Some <==> set_shown(self.names(), self.set()),
            text is Some ==> text->0@ == set_text(self.names(), self.set()),
    {
        let ghost names = self.names@;
        let ghost set = self.matching_set@;
        let to = self.names.longest_name_length::<Big>();
        let matches = self.matching_set.matches();
        let mut text = "MatchingSet {\n    matches: {".to_owned();
        let ghost start = text@;
        let mut i: usize = 0;
        assert(text@ =~= start + match_lines(names, set.matches, 0));
        while i < matches.len()
            invariant
                i <= matches.len(),
                names == self.names@,
                set == self.matching_set@,
                matchings_of(matches@) == set.matches,
                to == longest(names.bigs),
                matches_shown(names, set.matches, i as int),
                text@ == start + match_lines(names, set.matches, i as nat),
            decreases matches.len() - i,
        {
            let matching = &matches[i];
            assert(set.matches[i as int] == matching@);
            let name = match self.names.get(matching.big()) {
                Some(name) => name,
                None => {
                    assert(!matches_shown(names, set.matches, set.matches.len() as int));
                    return None;
                },
            };
            let items = match names_of::<Little>(self.names, matching.littles_ref()) {
                Some(items) => items,
                None => {
                    assert(!matches_shown(names, set.matches, set.matches.len() as int));
                    return None;
                },
            };
            proof {
                lemma_longest(names.bigs, matching@.big as int);
            }
            push_line(&mut text, name, to, &items);
            assert(text@ =~= start + match_lines(names, set.matches, (i + 1) as nat));
            i += 1;
        }
        let bigs = match names_of::<Big>(self.names, self.matching_set.unmatched_bigs_ref()) {
            Some(bigs) => bigs,
            None => {
                return None;
            },
        };
        let littles = match names_of::<Little>(
            self.names,
            self.matching_set.unmatched_littles_ref(),
        ) {
            Some(littles) => littles,
            None => {
                return None;
            },
        };
        string_push_str(&mut text, "\n    },\n");
        string_push_str(&mut text, "    unmatched_bigs:    [");
        let list = display_iter(&bigs);
        string_push_str(&mut text, list.as_str());
        string_push_str(&mut text, "]\n");
        string_push_str(&mut text, "    unmatched_littles: [");
        let list = display_iter(&littles);
        string_push_str(&mut text, list.as_str());
        string_push_str(&mut text, "],\n");
        string_push_str(&mut text, "}");
        assert(text@ =~= set_text(names, set));
        Some(text)
    }
}

impl MatchingSet {
    /// Returns what shows `self` with `names` in place of the indices of the matching set.
    pub fn display<'s>(&'s self, names: &'s Names) -> (shown: MatchingSetDisplay<'s>)
        ensures
            shown.set() == self@,
            shown.names() == names@,
    {
        MatchingSetDisplay { matching_set: self, names }
    }
}

} // verus!
