//! Turn free-form text into a haiku: three lines of exactly 5, 7 and 5
//! syllables, formed by greedily consuming whole words from the input.
//!
//! Syllables are found by a vowel/consonant heuristic ([`word::segment`]),
//! words are gathered into a [`sentence::Sentence`], and
//! [`haiku::Haiku::from`] extracts the three lines, failing whenever a word
//! would straddle a line's syllable quota or words remain at the end.

use vstd::prelude::*;

pub mod haiku;
pub mod sentence;
pub mod word;

verus! {

/// Sum of two machine integers.
pub fn add(left: usize, right: usize) -> (sum: usize)
    requires
        left + right <= usize::MAX,
    ensures
        sum == left + right,
{
    left + right
}

/// Build a haiku from raw text: the whole pipeline in one call.
pub fn haiku(text: &str) -> (r: Option<haiku::Haiku>)
    ensures
        match haiku::haiku_spec(text@) {
            Some(lines) => r matches Some(h) && h.0@ == lines.0 && h.1@ == lines.1 && h.2@
                == lines.2,
            None => r is None,
        },
{
    haiku::Haiku::from(text)
}

} // verus!
