//! Verse extraction and the haiku builder.
//!
//! [`verse`] greedily consumes a prefix of a sentence into one line whose
//! syllable count must land exactly on the target: a word that would
//! cross the target mid-word aborts the extraction.  [`Haiku::from`] runs
//! three extractions (5, 7, 5 syllables) and demands that no words remain.

use vstd::prelude::*;
use vstd::string::*;

use crate::sentence::{sentence_of, Sentence};
use crate::word::{Word, WordView};

verus! {

/// A finished haiku: its three lines, in order.
#[derive(Debug, PartialEq)]
pub struct Haiku(pub String, pub String, pub String);

/// `line` extended by one word's text, the words separated by one space.
pub open spec fn join_step(line: Seq<char>, t: Seq<char>) -> Seq<char> {
    if line.len() == 0 {
        t
    } else {
        line + seq![' '] + t
    }
}

/// One step per word, front to back: a word that would carry the running
/// count `count` past `target` fails the whole extraction; once the count
/// sits on the target every further word goes to the remainder; otherwise
/// the word joins the line and its syllables join the count.
pub open spec fn verse_rec(
    ws: Seq<WordView>,
    target: int,
    line: Seq<char>,
    rest: Seq<WordView>,
    count: int,
) -> Option<(Seq<char>, Seq<WordView>, int)>
    decreases ws.len(),
{
    if ws.len() == 0 {
        Some((line, rest, count))
    } else {
        let w = ws[0];
        let s = w.syllables.len() as int;
        if count < target && target < count + s {
            None
        } else if count == target {
            verse_rec(ws.drop_first(), target, line, rest.push(w), count)
        } else {
            verse_rec(ws.drop_first(), target, join_step(line, w.text), rest, count + s)
        }
    }
}

/// What extracting a `target`-syllable verse from `ws` must return: the
/// line's text, the remaining words, and the line's syllable count.
pub open spec fn verse_spec(ws: Seq<WordView>, target: int) -> Option<
    (Seq<char>, Seq<WordView>, int),
> {
    verse_rec(ws, target, Seq::empty(), Seq::empty(), 0)
}

/// The three lines a text must build: tokenize and segment, then extract
/// verses of 5, 7 and 5 syllables, threading the remainder through; fail
/// on any straddling word or when words are left over at the end.
pub open spec fn haiku_spec(text: Seq<char>) -> Option<(Seq<char>, Seq<char>, Seq<char>)> {
    match verse_spec(sentence_of(text), 5) {
        None => None,
        Some(r1) => match verse_spec(r1.1, 7) {
            None => None,
            Some(r2) => match verse_spec(r2.1, 5) {
                None => None,
                Some(r3) => if r3.1.len() == 0 {
                    Some((r1.0, r2.0, r3.0))
                } else {
                    None
                },
            },
        },
    }
}

/// The views of a run of words.
spec fn word_views(ws: Seq<Word>) -> Seq<WordView> {
    Seq::new(ws.len(), |i: int| ws[i]@)
}

/// Extract one verse of exactly `n` syllables from the front of `words`.
///
/// Returns the line (the consumed words' texts joined by single spaces)
/// and the remaining sentence, or `None` when a word straddles the
/// target.  The line's count may fall short of `n` only when the whole
/// sentence is consumed.
pub fn verse(words: Sentence, n: u32) -> (r: Option<(String, Sentence)>)
    ensures
        match verse_spec(words@, n as int) {
            Some(q) => r matches Some(p) && p.0@ == q.0 && p.1@ == q.1,
            None => r is None,
        },
{
    let ghost all = words@;
    let mut vec = words.into_words();
    let mut line = String::new();
    let mut rest = Sentence::new();
    let mut count: u32 = 0;
    proof {
        assert(word_views(vec@) =~= all);
    }
    while vec.len() > 0
        invariant
            count <= n,
            all == words@,
            verse_rec(word_views(vec@), n as int, line@, rest@, count as int) == verse_spec(
                all,
                n as int,
            ),
        decreases vec@.len(),
    {
        let ghost remaining = word_views(vec@);
        let w = vec.remove(0);
        let s = w.syllables.len();
        proof {
            assert(remaining[0] == w@);
            assert(word_views(vec@) =~= remaining.drop_first());
        }
        if count < n && s > (n - count) as usize {
            proof {
                assert(verse_rec(remaining, n as int, line@, rest@, count as int) is None);
            }
            return None;
        } else if count == n {
            rest.push(w);
        } else {
            proof {
                assert(count as int + s as int <= n as int);
            }
            let ghost prev_line = line@;
            if line.as_str().is_empty() {
                line = w.text;
            } else {
                line.append(" ");
                line.append(w.text.as_str());
                proof {
                    reveal_strlit(" ");
                    assert(" "@ =~= seq![' ']);
                    assert(line@ == prev_line + seq![' '] + w.text@);
                }
            }
            proof {
                assert(line@ == join_step(prev_line, w@.text));
            }
            count = count + (s as u32);
        }
    }
    proof {
        assert(word_views(vec@).len() == 0);
    }
    Some((line, rest))
}

impl Haiku {
    /// Build a haiku from raw text: three lines of exactly 5, 7 and 5
    /// syllables, or `None` when a word straddles a line's target or
    /// words remain after the third line.
    pub fn from(text: &str) -> (r: Option<Haiku>)
        ensures
            match haiku_spec(text@) {
                Some(lines) => r matches Some(h) && h.0@ == lines.0 && h.1@ == lines.1 && h.2@
                    == lines.2,
                None => r is None,
            },
    {
        let words = Sentence::from(text);
        let (line1, rest1) = match verse(words, 5) {
            Some(p) => p,
            None => {
                return None;
            },
        };
        let (line2, rest2) = match verse(rest1, 7) {
            Some(p) => p,
            None => {
                return None;
            },
        };
        let (line3, rest3) = match verse(rest2, 5) {
            Some(p) => p,
            None => {
                return None;
            },
        };
        if rest3.word_count() != 0 {
            return None;
        }
        Some(Haiku(line1, line2, line3))
    }

    /// The haiku's display form: its three lines joined by line breaks.
    pub fn render(&self) -> (r: String)
        ensures
            r@ == self.0@ + seq!['\n'] + self.1@ + seq!['\n'] + self.2@,
    {
        let mut out = self.0.clone();
        out.append("\n");
        out.append(self.1.as_str());
        out.append("\n");
        out.append(self.2.as_str());
        proof {
            reveal_strlit("\n");
            assert("\n"@ =~= seq!['\n']);
        }
        out
    }
}

proof fn lemma_verse_rec_suffix(
    ws: Seq<WordView>,
    target: int,
    line: Seq<char>,
    rest: Seq<WordView>,
    count: int,
)
    ensures
        verse_rec(ws, target, line, rest, count) matches Some(q) ==> {
            &&& rest.len() <= q.1.len() <= rest.len() + ws.len()
            &&& q.1 == rest + ws.skip(ws.len() - (q.1.len() - rest.len()))
            &&& (count == target ==> q.1 == rest + ws)
        },
    decreases ws.len(),
{
    if ws.len() == 0 {
        if verse_rec(ws, target, line, rest, count) is Some {
            assert(ws.skip(0) =~= ws);
            assert(rest + ws =~= rest);
        }
    } else {
        let w = ws[0];
        let s = w.syllables.len() as int;
        let tail = ws.drop_first();
        if count < target && target < count + s {
        } else if count == target {
            lemma_verse_rec_suffix(tail, target, line, rest.push(w), count);
            if verse_rec(ws, target, line, rest, count) is Some {
                let q = verse_rec(ws, target, line, rest, count)->0;
                assert(q.1 == rest.push(w) + tail);
                assert(rest.push(w) + tail =~= rest + ws);
                assert(ws.skip(0) =~= ws);
            }
        } else {
            lemma_verse_rec_suffix(tail, target, join_step(line, w.text), rest, count + s);
            if verse_rec(ws, target, line, rest, count) is Some {
                let q = verse_rec(ws, target, line, rest, count)->0;
                let m = q.1.len() - rest.len();
                assert(q.1 == rest + tail.skip(tail.len() - m));
                assert(tail.skip(tail.len() - m) =~= ws.skip(ws.len() - m));
            }
        }
    }
}

/// Extraction never invents words: the remainder is exactly the
/// unconsumed suffix of the input, so the consumed words and the
/// remainder together account for every word of the original sentence.
pub proof fn lemma_verse_monotonic(ws: Seq<WordView>, target: int)
    ensures
        verse_spec(ws, target) matches Some(q) ==> {
            &&& q.1.len() <= ws.len()
            &&& q.1 == ws.skip(ws.len() - q.1.len())
        },
{
    lemma_verse_rec_suffix(ws, target, Seq::empty(), Seq::empty(), 0);
    if verse_spec(ws, target) is Some {
        let q = verse_spec(ws, target)->0;
        assert(Seq::<WordView>::empty() + ws.skip(ws.len() - q.1.len()) =~= ws.skip(
            ws.len() - q.1.len(),
        ));
    }
}

proof fn lemma_verse_rec_boundary(
    ws: Seq<WordView>,
    target: int,
    line: Seq<char>,
    rest: Seq<WordView>,
    count: int,
)
    requires
        0 <= count <= target,
    ensures
        verse_rec(ws, target, line, rest, count) matches Some(q) ==> {
            &&& count <= q.2 <= target
            &&& (q.2 == target || q.1 == rest)
        },
    decreases ws.len(),
{
    if ws.len() > 0 {
        let w = ws[0];
        let s = w.syllables.len() as int;
        let tail = ws.drop_first();
        if count < target && target < count + s {
        } else if count == target {
            lemma_verse_rec_boundary(tail, target, line, rest.push(w), count);
        } else {
            lemma_verse_rec_boundary(tail, target, join_step(line, w.text), rest, count + s);
        }
    }
}

/// A successful extraction never overshoots: the line's syllable count
/// stays at most the target, and it lands exactly on the target unless
/// the sentence ran out of words first (an empty remainder).
pub proof fn lemma_verse_exact_boundary(ws: Seq<WordView>, target: int)
    requires
        target >= 0,
    ensures
        verse_spec(ws, target) matches Some(q) ==> {
            &&& 0 <= q.2 <= target
            &&& (q.2 == target || q.1 == Seq::<WordView>::empty())
        },
{
    lemma_verse_rec_boundary(ws, target, Seq::empty(), Seq::empty(), 0);
}

/// A first word alone longer than the whole target makes the extraction
/// fail at once, whatever follows it.
pub proof fn lemma_verse_straddle_first(ws: Seq<WordView>, target: int)
    requires
        ws.len() >= 1,
        0 < target < ws[0].syllables.len(),
    ensures
        verse_spec(ws, target) is None,
{
}

} // verus!
