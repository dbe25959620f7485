//! Lists and options of strings, seen as the texts that they hold.

use vstd::prelude::*;

verus! {

/// The texts of a list of strings.
pub open spec fn texts(list: Seq<String>) -> Seq<Seq<char>> {
    list.map_values(|item: String| item@)
}

/// The texts of a list of slices.
pub open spec fn pieces(list: Seq<&[char]>) -> Seq<Seq<char>> {
    list.map_values(|item: &[char]| item@)
}

/// Adding a string to a list adds its text to the texts.
pub broadcast proof fn lemma_texts_push(list: Seq<String>, item: String)
    ensures
        #[trigger] texts(list.push(item)) == texts(list).push(item@),
{
}

/// Adding a slice to a list adds its text to the pieces.
pub broadcast proof fn lemma_pieces_push(list: Seq<&[char]>, item: &[char])
    ensures
        #[trigger] pieces(list.push(item)) == pieces(list).push(item@),
{
}

/// The text of an optional string.
pub open spec fn optional(text: Option<String>) -> Option<Seq<char>> {
    match text {
        Some(held) => Some(held@),
        None => None,
    }
}

/// The text of an optional string slice.
pub open spec fn optional_str(text: Option<&str>) -> Option<Seq<char>> {
    match text {
        Some(held) => Some(held@),
        None => None,
    }
}

/// `list` with `item` at its end, unless it is in it already.
pub open spec fn with_item(list: Seq<Seq<char>>, item: Seq<char>) -> Seq<Seq<char>> {
    if list.contains(item) {
        list
    } else {
        list.push(item)
    }
}

/// A list in which nothing stands twice stays one.
pub proof fn lemma_with_item_unique(list: Seq<Seq<char>>, item: Seq<char>)
    requires
        list.no_duplicates(),
    ensures
        with_item(list, item).no_duplicates(),
{
}

/// The text inside an optional string.
pub fn borrowed(held: &Option<String>) -> (r: Option<&str>)
    ensures
        optional_str(r) == optional(*held),
{
    match held {
        Some(inner) => Some(inner.as_str()),
        None => None,
    }
}

/// What a text, or why there is none, stands for.
pub open spec fn viewed_text(text: Result<String, String>) -> Result<Seq<char>, Seq<char>> {
    match text {
        Ok(held) => Ok(held@),
        Err(reason) => Err(reason@),
    }
}

} // verus!
