//! Substring matching over quotation texts.

use vstd::prelude::*;

verus! {

/// `pattern` stands in `text`, character for character, starting at index `at`.
pub open spec fn occurs_at(text: Seq<char>, pattern: Seq<char>, at: int) -> bool {
    &&& 0 <= at
    &&& at + pattern.len() <= text.len()
    &&& text.subrange(at, at + pattern.len()) == pattern
}

/// `pattern` is a contiguous part of `text`. No case folding, no normalization.
pub open spec fn occurs_in(text: Seq<char>, pattern: Seq<char>) -> bool {
    exists|at: int| occurs_at(text, pattern, at)
}

/// The texts of `store` that contain `query`, in the order of `store`.
pub open spec fn matching(store: Seq<Seq<char>>, query: Seq<char>) -> Seq<Seq<char>> {
    store.filter(|text: Seq<char>| occurs_in(text, query))
}

/// Trusted: calls `str::contains` of the standard library with a string
/// pattern. Its documentation says that it returns `true` exactly when the
/// pattern matches a sub-slice of the string. The contract states this over
/// characters: both strings are valid UTF-8, so a match of the pattern's bytes
/// begins and ends on character boundaries of the text.
#[verifier::external_body]
pub(crate) fn contains(text: &str, pattern: &str) -> (found: bool)
    ensures
        found == occurs_in(text@, pattern@),
{
    text.contains(pattern)
}

/// Every text contains itself.
pub proof fn lemma_occurs_in_itself(text: Seq<char>)
    ensures
        occurs_in(text, text),
{
    assert(text.subrange(0, text.len() as int) =~= text);
    assert(occurs_at(text, text, 0));
}

/// Appending one text to the store appends it to the matches exactly when it
/// contains the query.
pub proof fn lemma_matching_push(store: Seq<Seq<char>>, text: Seq<char>, query: Seq<char>)
    ensures
        matching(store.push(text), query) == if occurs_in(text, query) {
            matching(store, query).push(text)
        } else {
            matching(store, query)
        },
{
    reveal(Seq::filter);
    assert(store.push(text).drop_last() =~= store);
}

} // verus!
