//! Facts about strings, and the few string functions of the standard library
//! that the rest of the crate relies on.

use vstd::prelude::*;

verus! {

/// `needle` occurs in `hay` as a run of consecutive characters.
pub open spec fn is_substring(needle: Seq<char>, hay: Seq<char>) -> bool {
    exists|at: int|
        0 <= at && at + needle.len() <= hay.len() && #[trigger] hay.subrange(
            at,
            at + needle.len(),
        ) == needle
}

/// `a` comes strictly before `b` in the order of strings: character by
/// character, by code point, a proper prefix first.
pub open spec fn precedes(a: Seq<char>, b: Seq<char>) -> bool
    decreases a.len(),
{
    if b.len() == 0 {
        false
    } else if a.len() == 0 {
        true
    } else if a[0] != b[0] {
        (a[0] as int) < (b[0] as int)
    } else {
        precedes(a.drop_first(), b.drop_first())
    }
}

/// The lower-case form of a text, as `str::to_lowercase` gives it.
pub uninterp spec fn lowercase(text: Seq<char>) -> Seq<char>;

/// The extension of a file name, as `std::path::Path::extension` gives it.
pub uninterp spec fn path_extension(name: Seq<char>) -> Option<Seq<char>>;

/// A list of strings as `{:?}` formats it.
pub uninterp spec fn debug_text(list: Seq<Seq<char>>) -> Seq<char>;

/// Calls `str::contains` with a string as the pattern. Claimed of it: the
/// answer is `true` exactly where the pattern occurs in the string as a run of
/// consecutive characters.
#[verifier::external_body]
pub(crate) fn contains_text(hay: &str, needle: &str) -> (found: bool)
    ensures
        found == is_substring(needle@, hay@),
{
    hay.contains(needle)
}

/// Calls `str::to_lowercase`. Claimed of it: the result depends on the
/// characters of the argument alone.
#[verifier::external_body]
pub(crate) fn to_lowercase(text: &str) -> (lower: String)
    ensures
        lower@ == lowercase(text@),
{
    text.to_lowercase()
}

/// Calls `<` on two `str`, which is `PartialOrd::lt`. Claimed of it: strings
/// are ordered character by character, by code point, and a proper prefix
/// comes first.
#[verifier::external_body]
pub(crate) fn comes_before(a: &str, b: &str) -> (before: bool)
    ensures
        before == precedes(a@, b@),
{
    a < b
}

/// Calls `std::path::Path::extension` on a file name. Claimed of it: the
/// result depends on the characters of the name alone.
#[verifier::external_body]
pub(crate) fn extension_of(name: &str) -> (extension: Option<String>)
    ensures
        extension.deep_view() == path_extension(name@),
{
    match std::path::Path::new(name).extension() {
        Some(extension) => Some(extension.to_string_lossy().into_owned()),
        None => None,
    }
}

/// Formats a list of strings with `{:?}`. Claimed of it: the result depends
/// on the characters of the strings alone.
#[verifier::external_body]
pub(crate) fn debug_form(list: &Vec<String>) -> (form: String)
    ensures
        form@ == debug_text(list.deep_view()),
{
    format!("{:?}", list)
}

/// No text comes before itself.
pub proof fn lemma_precedes_irreflexive(a: Seq<char>)
    ensures
        !precedes(a, a),
    decreases a.len(),
{
    if a.len() > 0 {
        lemma_precedes_irreflexive(a.drop_first());
    }
}

/// What comes before a text comes before all that the text comes before.
pub proof fn lemma_precedes_transitive(a: Seq<char>, b: Seq<char>, c: Seq<char>)
    requires
        precedes(a, b),
        precedes(b, c),
    ensures
        precedes(a, c),
    decreases a.len(),
{
    if a.len() > 0 && a[0] == b[0] && b[0] == c[0] {
        lemma_precedes_transitive(a.drop_first(), b.drop_first(), c.drop_first());
    }
}

/// Of two different texts one comes before the other.
pub proof fn lemma_precedes_total(a: Seq<char>, b: Seq<char>)
    ensures
        a == b || precedes(a, b) || precedes(b, a),
    decreases a.len(),
{
    if a.len() > 0 && b.len() > 0 && a[0] == b[0] {
        lemma_precedes_total(a.drop_first(), b.drop_first());
        if a.drop_first() == b.drop_first() {
            assert(a =~= seq![a[0]] + a.drop_first());
            assert(b =~= seq![b[0]] + b.drop_first());
        }
    }
}

/// The empty text occurs in every text.
pub proof fn lemma_empty_is_substring(hay: Seq<char>)
    ensures
        is_substring(Seq::<char>::empty(), hay),
{
    let needle = Seq::<char>::empty();
    let at: int = 0;
    assert(hay.subrange(at, at + needle.len()) =~= needle);
}

} // verus!
