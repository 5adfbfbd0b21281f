//! Sentences: ordered sequences of segmented words.
//!
//! A [`Sentence`] is built from raw text by splitting on runs of ASCII
//! whitespace and segmenting each token ([`Sentence::from`]), or from an
//! explicit word list.  The spec-level splitter is [`tokens`], and
//! [`sentence_of`] gives the words a text must produce.

use vstd::prelude::*;
use vstd::string::*;

use crate::word::{describe_word, segment, spans_in_bounds, Word, WordView};

verus! {

/// The ASCII whitespace characters that separate words.
pub open spec fn spec_is_space(c: char) -> bool {
    c == ' ' || c == '\t' || c == '\n' || c == '\r' || c == '\u{0c}'
}

#[verifier::when_used_as_spec(spec_is_space)]
pub fn is_space(c: char) -> (r: bool)
    ensures
        r == spec_is_space(c),
{
    c == ' ' || c == '\t' || c == '\n' || c == '\r' || c == '\u{0c}'
}

/// Index of the first whitespace character of `s`, or `s.len()` if none.
pub open spec fn first_break(s: Seq<char>) -> int
    decreases s.len(),
{
    if s.len() == 0 {
        0
    } else if spec_is_space(s[0]) {
        0
    } else {
        1 + first_break(s.skip(1))
    }
}

proof fn lemma_first_break_bounds(s: Seq<char>)
    ensures
        0 <= first_break(s) <= s.len(),
    decreases s.len(),
{
    if s.len() > 0 && !spec_is_space(s[0]) {
        lemma_first_break_bounds(s.skip(1));
    }
}

/// When the characters before `k` are non-space and `k` sits on a space
/// or at the end, the first break is exactly `k`.
proof fn lemma_first_break_at(s: Seq<char>, k: int)
    requires
        0 <= k <= s.len(),
        forall|i: int| 0 <= i < k ==> !spec_is_space(#[trigger] s[i]),
        k == s.len() || spec_is_space(s[k]),
    ensures
        first_break(s) == k,
    decreases k,
{
    if k > 0 {
        let tail = s.skip(1);
        assert forall|i: int| 0 <= i < k - 1 implies !spec_is_space(#[trigger] tail[i]) by {
            assert(tail[i] == s[i + 1]);
        }
        if k < s.len() {
            assert(tail[k - 1] == s[k]);
        }
        lemma_first_break_at(tail, k - 1);
    }
}

/// The maximal whitespace-free tokens of `s`, in reading order.
pub open spec fn tokens(s: Seq<char>) -> Seq<Seq<char>>
    decreases s.len(),
    via tokens_decreases
{
    if s.len() == 0 {
        Seq::empty()
    } else if spec_is_space(s[0]) {
        tokens(s.skip(1))
    } else {
        seq![s.take(first_break(s))] + tokens(s.skip(first_break(s)))
    }
}

#[via_fn]
proof fn tokens_decreases(s: Seq<char>) {
    if s.len() > 0 && !spec_is_space(s[0]) {
        lemma_first_break_bounds(s);
        lemma_first_break_bounds(s.skip(1));
    }
}

/// The well-formed word a token segments into.
pub open spec fn word_of(token: Seq<char>) -> WordView {
    WordView { text: token, syllables: segment(token) }
}

/// The words of a token list, in order.
pub open spec fn words_of(ts: Seq<Seq<char>>) -> Seq<WordView> {
    ts.map(|i: int, t: Seq<char>| word_of(t))
}

/// The words a raw text must produce: split, then segment each token.
pub open spec fn sentence_of(text: Seq<char>) -> Seq<WordView> {
    words_of(tokens(text))
}

/// Sum of the words' syllable counts.
pub open spec fn total_syllables(ws: Seq<WordView>) -> int
    decreases ws.len(),
{
    if ws.len() == 0 {
        0
    } else {
        ws[0].syllables.len() + total_syllables(ws.drop_first())
    }
}

proof fn lemma_total_syllables_nonneg(ws: Seq<WordView>)
    ensures
        total_syllables(ws) >= 0,
    decreases ws.len(),
{
    if ws.len() > 0 {
        lemma_total_syllables_nonneg(ws.drop_first());
    }
}

/// The display form of a run of words: each described in turn, joined by
/// `", "`.
pub open spec fn describe_words(ws: Seq<WordView>) -> Seq<char>
    decreases ws.len(),
{
    if ws.len() == 0 {
        Seq::empty()
    } else if ws.len() == 1 {
        describe_word(ws[0])
    } else {
        describe_words(ws.drop_last()) + seq![',', ' '] + describe_word(ws.last())
    }
}

/// An ordered sequence of words, in reading order of the source text.
pub struct Sentence(Vec<Word>);

impl Default for Sentence {
    /// The empty sentence.
    fn default() -> (s: Sentence)
        ensures
            s@ == Seq::<WordView>::empty(),
    {
        Sentence::new()
    }
}

impl View for Sentence {
    type V = Seq<WordView>;

    closed spec fn view(&self) -> Seq<WordView> {
        Seq::new(self.0@.len(), |i: int| self.0@[i]@)
    }
}

impl Sentence {
    /// The empty sentence.
    pub fn new() -> (s: Sentence)
        ensures
            s@ == Seq::<WordView>::empty(),
    {
        let s = Sentence(Vec::new());
        proof {
            assert(s@ =~= Seq::<WordView>::empty());
        }
        s
    }

    /// Append a word at the end.
    pub fn push(&mut self, item: Word)
        ensures
            final(self)@ == old(self)@.push(item@),
    {
        self.0.push(item);
        proof {
            assert(self@ =~= old(self)@.push(item@));
        }
    }

    /// The word at `index`, if any.
    pub fn get(&self, index: usize) -> (r: Option<&Word>)
        ensures
            match r {
                Some(w) => index < self@.len() && w@ == self@[index as int],
                None => index >= self@.len(),
            },
    {
        if index < self.0.len() {
            Some(&self.0[index])
        } else {
            None
        }
    }

    /// Split `text` on runs of whitespace and segment each token,
    /// preserving order.
    pub fn from(text: &str) -> (s: Sentence)
        ensures
            s@ == sentence_of(text@),
    {
        let n = text.unicode_len();
        let mut sen = Sentence::new();
        let mut pos: usize = 0;
        proof {
            assert(text@.skip(0) =~= text@);
        }
        while pos < n
            invariant
                pos <= n,
                n == text@.len(),
                sen@ + words_of(tokens(text@.skip(pos as int))) == sentence_of(text@),
            decreases n - pos,
        {
            if is_space(text.get_char(pos)) {
                proof {
                    let rest = text@.skip(pos as int);
                    assert(rest[0] == text@[pos as int]);
                    assert(rest.skip(1) =~= text@.skip(pos as int + 1));
                }
                pos = pos + 1;
            } else {
                let start = pos;
                let mut end = pos + 1;
                while end < n && !is_space(text.get_char(end))
                    invariant
                        start < end <= n,
                        n == text@.len(),
                        forall|j: int| start <= j < end ==> !spec_is_space(#[trigger] text@[j]),
                    decreases n - end,
                {
                    end = end + 1;
                }
                let token = text.substring_char(start, end);
                let w = Word::from(token);
                sen.push(w);
                proof {
                    let rest = text@.skip(start as int);
                    assert forall|j: int| 0 <= j < end - start implies !spec_is_space(
                        #[trigger] rest[j],
                    ) by {
                        assert(rest[j] == text@[start + j]);
                    }
                    if end < n {
                        assert(rest[end - start] == text@[end as int]);
                    }
                    lemma_first_break_at(rest, end - start);
                    assert(rest.take(end - start) =~= text@.subrange(start as int, end as int));
                    assert(rest.skip(end - start) =~= text@.skip(end as int));
                    assert(w@ == word_of(token@));
                    assert(sen@ + words_of(tokens(text@.skip(end as int))) =~= sentence_of(
                        text@,
                    ));
                }
                pos = end;
            }
        }
        proof {
            assert(text@.skip(n as int) =~= Seq::<char>::empty());
            assert(sen@ =~= sentence_of(text@));
        }
        sen
    }

    /// A sentence holding exactly the given words, in order.
    pub fn from_collection(words: Vec<Word>) -> (s: Sentence)
        ensures
            s@.len() == words@.len(),
            forall|i: int| 0 <= i < words@.len() ==> s@[i] == (#[trigger] words@[i])@,
    {
        Sentence(words)
    }

    /// How many words the sentence holds.
    pub fn word_count(self) -> (n: usize)
        ensures
            n == self@.len(),
    {
        self.0.len()
    }

    /// Sum of the syllable counts of all words.
    pub fn syllable_count(self) -> (n: usize)
        requires
            total_syllables(self@) <= usize::MAX,
        ensures
            n == total_syllables(self@),
    {
        let mut n: usize = 0;
        let mut i: usize = 0;
        proof {
            assert(self@.skip(0) =~= self@);
        }
        while i < self.0.len()
            invariant
                i <= self.0@.len(),
                self@.len() == self.0@.len(),
                n + total_syllables(self@.skip(i as int)) == total_syllables(self@),
                total_syllables(self@) <= usize::MAX,
                n >= 0,
            decreases self.0@.len() - i,
        {
            proof {
                let rest = self@.skip(i as int);
                assert(rest[0] == self@[i as int]);
                assert(rest.drop_first() =~= self@.skip(i as int + 1));
                lemma_total_syllables_nonneg(rest.drop_first());
            }
            n = n + self.0[i].syllables.len();
            i = i + 1;
        }
        proof {
            assert(self@.skip(self@.len() as int) =~= Seq::<WordView>::empty());
        }
        n
    }

    /// The sentence's display form: every word described in turn,
    /// separated by `", "`.
    pub fn describe(&self) -> (r: String)
        requires
            forall|i: int|
                0 <= i < self@.len() ==> spans_in_bounds(
                    (#[trigger] self@[i]).syllables,
                    self@[i].text.len() as int,
                ),
        ensures
            r@ == describe_words(self@),
    {
        let mut out = String::new();
        proof {
            assert(self@.take(0) =~= Seq::<WordView>::empty());
        }
        let count = self.0.len();
        let mut i: usize = 0;
        while i < count
            invariant
                i <= count == self.0@.len(),
                self@.len() == self.0@.len(),
                forall|j: int|
                    0 <= j < self@.len() ==> spans_in_bounds(
                        (#[trigger] self@[j]).syllables,
                        self@[j].text.len() as int,
                    ),
                out@ == describe_words(self@.take(i as int)),
            decreases count - i,
        {
            if i > 0 {
                out.append(", ");
                proof {
                    reveal_strlit(", ");
                    assert(", "@ =~= seq![',', ' ']);
                }
            }
            proof {
                assert(self@[i as int] == self.0@[i as int]@);
            }
            let described = self.0[i].describe();
            out.append(described.as_str());
            proof {
                let taken = self@.take(i as int + 1);
                assert(taken.drop_last() =~= self@.take(i as int));
                assert(taken.last() == self@[i as int]);
                assert(out@ =~= describe_words(taken));
            }
            i = i + 1;
        }
        proof {
            assert(self@.take(count as int) =~= self@);
        }
        out
    }

    /// The words, surrendered as a vector.
    pub(crate) fn into_words(self) -> (v: Vec<Word>)
        ensures
            v@.len() == self@.len(),
            forall|i: int| 0 <= i < v@.len() ==> (#[trigger] v@[i])@ == self@[i],
    {
        self.0
    }
}

} // verus!
