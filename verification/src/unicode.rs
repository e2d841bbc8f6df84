use vstd::prelude::*;

use crate::document::Counts;
use unicode_segmentation::UnicodeSegmentation;

verus! {

/// The number of extended grapheme clusters of a text, as
/// `unicode_segmentation` segments it following UAX #29.
pub uninterp spec fn grapheme_len(s: Seq<char>) -> nat;

/// The number of Unicode words of a text, as
/// `unicode_segmentation::unicode_words` yields them.
pub uninterp spec fn unicode_word_count(s: Seq<char>) -> nat;

/// The character index at which the Unicode word numbered `n` (zero-based)
/// begins, as `unicode_segmentation::unicode_word_indices` reports it, or
/// `None` when the text holds at most `n` words.
pub uninterp spec fn unicode_word_start(s: Seq<char>, n: int) -> Option<int>;

/// The number of words of a text as `words_count::count` tallies them.
pub uninterp spec fn tally_words(s: Seq<char>) -> nat;

/// Relies on unicode_segmentation's `graphemes`: the iterator yields the
/// extended grapheme clusters of the text, which are nonempty substrings
/// that partition it. An empty text therefore has no clusters, and no text
/// has more clusters than characters.
#[verifier::external_body]
pub(crate) fn grapheme_count(s: &str) -> (n: usize)
    ensures
        n as nat == grapheme_len(s@),
        n <= s@.len(),
        s@.len() == 0 ==> n == 0,
{
    s.graphemes(true).count()
}

/// Relies on unicode_segmentation's `unicode_words`: an empty text yields
/// no words.
#[verifier::external_body]
pub(crate) fn count_unicode_words(s: &str) -> (n: usize)
    ensures
        n as nat == unicode_word_count(s@),
        s@.len() == 0 ==> n == 0,
{
    s.unicode_words().count()
}

/// Relies on unicode_segmentation's `unicode_word_indices`: each yielded
/// pair holds the byte offset of one word of the text, in order. The byte
/// offset of word `n` is converted to the character index of the same
/// position, which is at most the character length. `None` comes back
/// exactly when the text holds at most `n` words.
#[verifier::external_body]
pub(crate) fn find_word_start(s: &str, n: usize) -> (r: Option<usize>)
    ensures
        match r {
            Some(i) => unicode_word_start(s@, n as int) == Some(i as int) && i <= s@.len(),
            None => unicode_word_start(s@, n as int) is None,
        },
{
    s.unicode_word_indices().nth(n).map(|(byte_idx, _)| s[..byte_idx].chars().count())
}

/// Relies on `words_count::count`: its `characters` field counts every
/// character of the text exactly once, and its `words` field is the
/// crate's word tally, which is zero for an empty text.
#[verifier::external_body]
pub(crate) fn tally(s: &str) -> (c: Counts)
    ensures
        c.words as nat == tally_words(s@),
        c.characters as nat == s@.len(),
        s@.len() == 0 ==> c.words == 0,
{
    let wc = words_count::count(s);
    Counts { words: wc.words, characters: wc.characters }
}

} // verus!
