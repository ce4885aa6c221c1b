//! Unicode segmentation, case folding and decomposition, relied on from the
//! `unicode-segmentation` and `unicode-normalization` crates. Each result is
//! a function of the input characters alone, so it is given a name that the
//! callers' contracts speak of.

use vstd::prelude::*;
use unicode_segmentation::UnicodeSegmentation;
use unicode_normalization::UnicodeNormalization;

verus! {

/// The Unicode words of a character sequence, in order.
pub uninterp spec fn words_of(s: Seq<char>) -> Seq<Seq<char>>;

/// The grapheme clusters of a character sequence, in order.
pub uninterp spec fn graphemes_of(s: Seq<char>) -> Seq<Seq<char>>;

/// The Unicode default case fold of a character sequence.
pub uninterp spec fn lower_of(s: Seq<char>) -> Seq<char>;

/// The canonical decomposition (NFD) of a character sequence.
pub uninterp spec fn nfd_of(s: Seq<char>) -> Seq<char>;

/// Whether a character is a combining mark.
pub uninterp spec fn combining_mark(c: char) -> bool;

/// Relies on unicode-segmentation's `unicode_words`: splits on Unicode word
/// boundaries, keeping only words; an empty input has no words.
#[verifier::external_body]
pub fn unicode_words(s: &String) -> (r: Vec<String>)
    ensures
        r@.len() == words_of(s@).len(),
        forall|i: int| 0 <= i < r@.len() ==> #[trigger] r@[i]@ == words_of(s@)[i],
        s@.len() == 0 ==> r@.len() == 0,
{
    s.unicode_words().map(|w| w.to_string()).collect()
}

/// Relies on unicode-segmentation's `graphemes` (extended clusters): the
/// clusters partition the input, each non-empty.
#[verifier::external_body]
pub fn graphemes(s: &String) -> (r: Vec<String>)
    ensures
        r@.len() == graphemes_of(s@).len(),
        forall|i: int| 0 <= i < r@.len() ==> #[trigger] r@[i]@ == graphemes_of(s@)[i],
        forall|i: int| 0 <= i < r@.len() ==> #[trigger] graphemes_of(s@)[i].len() >= 1,
        s@.len() == 0 ==> r@.len() == 0,
{
    s.graphemes(true).map(|g| g.to_string()).collect()
}

/// Relies on `str::to_lowercase`: the Unicode default case fold, a function
/// of the characters alone; an empty input stays empty.
#[verifier::external_body]
pub fn lowercase(s: &String) -> (r: String)
    ensures
        r@ == lower_of(s@),
        s@.len() == 0 ==> r@.len() == 0,
{
    s.to_lowercase()
}

/// Relies on unicode-normalization's `nfd`: canonical decomposition, a
/// function of the characters alone; an empty input stays empty.
#[verifier::external_body]
pub fn nfd(s: &String) -> (r: String)
    ensures
        r@ == nfd_of(s@),
        s@.len() == 0 ==> r@.len() == 0,
{
    s.nfd().collect()
}

/// Relies on unicode-normalization's `char::is_combining_mark`, a function
/// of the character alone.
#[verifier::external_body]
pub fn is_combining_mark(c: char) -> (r: bool)
    ensures
        r == combining_mark(c),
{
    unicode_normalization::char::is_combining_mark(c)
}

/// Relies on `str::chars`: the characters of a string, which are its view.
#[verifier::external_body]
pub fn chars_vec(s: &String) -> (r: Vec<char>)
    ensures
        r@ == s@,
{
    s.chars().collect()
}

/// Relies on `FromIterator for String`: the string of these characters.
#[verifier::external_body]
pub fn string_from_chars(v: &Vec<char>) -> (r: String)
    ensures
        r@ == v@,
{
    v.iter().collect()
}

/// The epoch nanoseconds a datetime text denotes, if any.
pub uninterp spec fn rfc3339_nanos_of(s: Seq<char>) -> Option<i64>;

/// Relies on chrono's `DateTime::parse_from_rfc3339` and
/// `timestamp_nanos_opt`: the epoch nanoseconds of a datetime text, a
/// function of the characters alone.
#[verifier::external_body]
pub fn parse_rfc3339_nanos(s: &String) -> (r: Option<i64>)
    ensures
        r == rfc3339_nanos_of(s@),
{
    match chrono::DateTime::parse_from_rfc3339(s) {
        Ok(dt) => dt.timestamp_nanos_opt(),
        Err(_) => None,
    }
}

} // verus!
