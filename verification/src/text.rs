//! The text that lists are shown as.

use crate::ordered::texts;
use vstd::prelude::*;

verus! {

/// `items`, one after the other, with a comma and a blank between each two of them.
pub open spec fn joined(items: Seq<Seq<char>>) -> Seq<char>
    decreases items.len(),
{
    if items.len() == 0 {
        Seq::empty()
    } else if items.len() == 1 {
        items[0]
    } else {
        joined(items.drop_last()) + ", "@ + items.last()
    }
}

/// `String::push_str`: appends `more` to `text`.
#[verifier::external_body]
pub(crate) fn string_push_str(text: &mut String, more: &str)
    ensures
        final(text)@ == old(text)@ + more@,
{
    text.push_str(more);
}

/// Displays a list by adding commas between each element.
pub fn display_iter(items: &Vec<String>) -> (text: String)
    ensures
        text@ == joined(texts(items@)),
{
    let mut text = String::new();
    let mut i: usize = 0;
    assert(texts(items@).take(0) =~= Seq::empty());
    while i < items.len()
        invariant
            i <= items.len(),
            text@ == joined(texts(items@).take(i as int)),
        decreases items.len() - i,
    {
        proof {
            let next = texts(items@).take(i + 1);
            assert(next.drop_last() == texts(items@).take(i as int));
            assert(next.last() == items@[i as int]@);
            assert(next[0] == items@[0]@);
        }
        if i > 0 {
            string_push_str(&mut text, ", ");
        }
        string_push_str(&mut text, items[i].as_str());
        i += 1;
    }
    assert(texts(items@).take(i as int) == texts(items@));
    text
}

} // verus!
