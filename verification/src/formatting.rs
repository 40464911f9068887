//! Text for values that can be printed for debugging.

use core::fmt::Debug;
use vstd::prelude::*;

verus! {

/// `format!` of a value as its `Debug` impl prints it. What the impl prints is
/// its own matter, so nothing is said of the text.
#[verifier::external_body]
pub(crate) fn debug_text<X: Debug>(value: &X) -> String {
    format!("{:?}", value)
}

/// `String::push_str`: appends `more` to the end of `text`.
#[verifier::external_body]
pub(crate) fn append_text(text: &mut String, more: &str)
    ensures
        final(text)@ == old(text)@ + more@,
{
    text.push_str(more)
}

/// The texts that the strings of `entries` hold.
pub open spec fn texts_of(entries: Seq<(String, String)>) -> Seq<(Seq<char>, Seq<char>)> {
    entries.map_values(|e: (String, String)| (e.0@, e.1@))
}

/// The text of one entry of a map: the key, a colon, a space and the value.
pub open spec fn entry_text(key: Seq<char>, value: Seq<char>) -> Seq<char> {
    key + ": "@ + value
}

/// The texts of the entries in their order, with a comma and a space between
/// each two.
pub open spec fn listed_text(entries: Seq<(Seq<char>, Seq<char>)>) -> Seq<char>
    decreases entries.len(),
{
    if entries.len() == 0 {
        Seq::empty()
    } else if entries.len() == 1 {
        entry_text(entries[0].0, entries[0].1)
    } else {
        listed_text(entries.drop_last()) + ", "@ + entry_text(entries.last().0, entries.last().1)
    }
}

/// The text of a map: the listed entries between braces.
pub open spec fn map_text(entries: Seq<(Seq<char>, Seq<char>)>) -> Seq<char> {
    "{"@ + listed_text(entries) + "}"@
}

/// Returns the text of a map whose keys and values have the texts given, in
/// their order: `{}` for no entry, `{a: 1, b: 2}` for two.
pub fn write_map(entries: &Vec<(String, String)>) -> (text: String)
    ensures
        text@ == map_text(texts_of(entries@)),
{
    let ghost texts = texts_of(entries@);
    let mut text = String::new();
    append_text(&mut text, "{");
    let mut k: usize = 0;
    while k < entries.len()
        invariant
            k <= entries@.len(),
            texts == texts_of(entries@),
            text@ == "{"@ + listed_text(texts.take(k as int)),
        decreases entries@.len() - k,
    {
        let ghost so_far = text@;
        if k > 0 {
            append_text(&mut text, ", ");
        }
        append_text(&mut text, entries[k].0.as_str());
        append_text(&mut text, ": ");
        append_text(&mut text, entries[k].1.as_str());
        proof {
            let next = texts.take(k + 1);
            assert(next.drop_last() =~= texts.take(k as int));
            assert(next.last() == texts[k as int]);
            assert(texts[k as int] == (entries@[k as int].0@, entries@[k as int].1@));
            let entry = entry_text(texts[k as int].0, texts[k as int].1);
            if k == 0 {
                assert(next[0] == texts[0]);
                assert(listed_text(texts.take(0)) =~= Seq::<char>::empty());
                assert(text@ =~= "{"@ + entry);
            } else {
                assert(text@ =~= "{"@ + (listed_text(texts.take(k as int)) + ", "@ + entry));
            }
        }
        k += 1;
    }
    proof {
        assert(texts.take(k as int) =~= texts);
    }
    append_text(&mut text, "}");
    text
}

} // verus!
