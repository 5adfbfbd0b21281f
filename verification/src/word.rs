//! Words and their syllable spans.
//!
//! A [`Word`] keeps its surface text together with the list of syllable
//! spans that [`segment`] assigns to that text.  Segmentation walks the
//! characters once, closing a span at every vowel-to-consonant boundary,
//! and then merges the last two spans when the tail is a spurious
//! consonant cluster or a silent trailing `e`.

use vstd::prelude::*;
use vstd::string::*;

verus! {

/// One syllable: a half-open range of character indices into a word's text.
#[derive(Clone, Copy, Debug, PartialEq, Eq, Structural)]
pub struct Span {
    pub start: usize,
    pub end: usize,
}

/// A word of the input text, annotated with its syllable spans.
#[derive(Clone, Debug, PartialEq)]
pub struct Word {
    /// The surface form, case preserved.
    pub text: String,
    /// Syllable spans in reading order; together they cover the whole text.
    pub syllables: Vec<Span>,
}

/// The mathematical content of a [`Word`]: its characters and spans.
#[verifier::ext_equal]
pub ghost struct WordView {
    pub text: Seq<char>,
    pub syllables: Seq<Span>,
}

impl View for Word {
    type V = WordView;

    open spec fn view(&self) -> WordView {
        WordView { text: self.text@, syllables: self.syllables@ }
    }
}

impl WordView {
    /// A well-formed word carries exactly the spans that segmentation
    /// assigns to its text.
    pub open spec fn wf(self) -> bool {
        self.syllables == segment(self.text)
    }
}

/// The six vowel letters.
pub open spec fn spec_is_vowel(c: char) -> bool {
    c == 'a' || c == 'e' || c == 'i' || c == 'o' || c == 'u' || c == 'y'
}

/// Whether `c` is a vowel letter, in either case: the vowel test applied
/// to the lower-cased character, as the segmentation scan reads the text.
pub open spec fn spec_is_vowel_nocase(c: char) -> bool {
    spec_is_vowel(c) || c == 'A' || c == 'E' || c == 'I' || c == 'O' || c == 'U' || c == 'Y'
}

#[verifier::when_used_as_spec(spec_is_vowel)]
pub fn is_vowel(c: char) -> (r: bool)
    ensures
        r == spec_is_vowel(c),
{
    c == 'a' || c == 'e' || c == 'i' || c == 'o' || c == 'u' || c == 'y'
}

#[verifier::when_used_as_spec(spec_is_vowel_nocase)]
pub fn is_vowel_nocase(c: char) -> (r: bool)
    ensures
        r == spec_is_vowel_nocase(c),
{
    is_vowel(c) || c == 'A' || c == 'E' || c == 'I' || c == 'O' || c == 'U' || c == 'Y'
}

/// State of the segmentation scan after it has handled the character
/// pairs at positions `1 ..= k` of `text`: the spans closed so far and
/// the start of the span still pending.  The pending span always ends
/// just before the next pair, so only its start is tracked.
///
/// Handling the pair `(text[k-1], text[k])` closes the pending span
/// through `text[k]` when `text[k]` is the last character, and closes it
/// before `text[k]` at a vowel-to-consonant boundary.
pub open spec fn scan(text: Seq<char>, k: int) -> (Seq<Span>, int)
    decreases k,
{
    if k <= 0 {
        (Seq::<Span>::empty(), 0)
    } else {
        let (spans, pending) = scan(text, k - 1);
        if k == text.len() - 1 {
            (spans.push(Span { start: pending as usize, end: (k + 1) as usize }), pending)
        } else if spec_is_vowel_nocase(text[k - 1]) && !spec_is_vowel_nocase(text[k]) {
            (spans.push(Span { start: pending as usize, end: k as usize }), k)
        } else {
            (spans, pending)
        }
    }
}

/// The characters of `text` that a span selects.
pub open spec fn span_text(text: Seq<char>, s: Span) -> Seq<char> {
    text.subrange(s.start as int, s.end as int)
}

/// Whether any character of `s` is a vowel letter (lower case only: the
/// trimming passes read the original text, not the lower-cased one).
pub open spec fn has_vowel(s: Seq<char>) -> bool {
    exists|i: int| 0 <= i < s.len() && spec_is_vowel(#[trigger] s[i])
}

/// Whether `s` ends with `suffix`.
pub open spec fn seq_ends_with(s: Seq<char>, suffix: Seq<char>) -> bool {
    s.len() >= suffix.len() && s.subrange(s.len() - suffix.len(), s.len() as int) =~= suffix
}

/// The last two spans replaced by their union; earlier spans untouched.
pub open spec fn merge_last(spans: Seq<Span>) -> Seq<Span>
    recommends
        spans.len() >= 2,
{
    let a = spans[spans.len() - 2];
    let b = spans[spans.len() - 1];
    spans.take(spans.len() - 2).push(Span { start: a.start, end: b.end })
}

/// First trimming pass: a trailing span with no vowel in it is no
/// syllable of its own and is merged into its predecessor.
pub open spec fn trim_no_vowel_tail(text: Seq<char>, spans: Seq<Span>) -> Seq<Span> {
    if spans.len() >= 2 && !has_vowel(span_text(text, spans.last())) {
        merge_last(spans)
    } else {
        spans
    }
}

/// Condition of the second trimming pass, on the last two spans `a`, `b`:
/// the tail span ends in a silent `e`.  An `-aide` ending (read across
/// both spans) and an `-ie` ending keep their own syllable.
pub open spec fn silent_e_tail(text: Seq<char>, a: Span, b: Span) -> bool {
    &&& seq_ends_with(span_text(text, b), seq!['e'])
    &&& !seq_ends_with(text.subrange(a.start as int, b.end as int), seq!['a', 'i', 'd', 'e'])
    &&& !seq_ends_with(span_text(text, b), seq!['i', 'e'])
}

/// Second trimming pass: drop a silent trailing `e` by merging the last
/// two spans.
pub open spec fn trim_silent_e(text: Seq<char>, spans: Seq<Span>) -> Seq<Span> {
    if spans.len() >= 2 && silent_e_tail(text, spans[spans.len() - 2], spans[spans.len() - 1]) {
        merge_last(spans)
    } else {
        spans
    }
}

/// The syllable spans of a non-empty word: a single letter is one
/// syllable; otherwise the pair scan runs over the whole text and the
/// two trimming passes clean up its tail.
pub open spec fn segment(text: Seq<char>) -> Seq<Span>
    recommends
        text.len() >= 1,
{
    if text.len() == 1 {
        seq![Span { start: 0, end: 1 }]
    } else {
        trim_silent_e(text, trim_no_vowel_tail(text, scan(text, text.len() - 1).0))
    }
}

/// Every span stays within a text of length `len`.
pub open spec fn spans_in_bounds(spans: Seq<Span>, len: int) -> bool {
    forall|i: int|
        0 <= i < spans.len() ==> (#[trigger] spans[i]).start <= spans[i].end <= len
}

/// The syllable substrings of a word, joined by `", "`.
pub open spec fn syllable_list(text: Seq<char>, spans: Seq<Span>) -> Seq<char>
    decreases spans.len(),
{
    if spans.len() == 0 {
        Seq::empty()
    } else if spans.len() == 1 {
        span_text(text, spans[0])
    } else {
        syllable_list(text, spans.drop_last()) + seq![',', ' '] + span_text(text, spans.last())
    }
}

/// The display form of a word: its text, then its syllable substrings in
/// brackets.
pub open spec fn describe_word(w: WordView) -> Seq<char> {
    w.text + seq![' ', '['] + syllable_list(w.text, w.syllables) + seq![']']
}

/// The spans partition `[0, len)`: each is non-empty, they abut, the
/// first starts at 0 and the last ends at `len`.
pub open spec fn spans_cover(spans: Seq<Span>, len: int) -> bool {
    &&& spans.len() >= 1
    &&& spans[0].start == 0
    &&& spans[spans.len() - 1].end == len
    &&& forall|i: int| 0 <= i < spans.len() ==> (#[trigger] spans[i]).start < spans[i].end
    &&& forall|i: int|
        0 <= i < spans.len() - 1 ==> (#[trigger] spans[i]).end == spans[i + 1].start
}

/// Soundness of the scan state after the pairs at positions `1 ..= k`,
/// for `k` before the final pair: the closed spans abut, start at 0, stay
/// within the handled prefix, and end where the pending span begins.
spec fn scan_wf_at(text: Seq<char>, k: int) -> bool {
    let (spans, pending) = scan(text, k);
    &&& 0 <= pending <= k
    &&& (spans.len() == 0 ==> pending == 0)
    &&& (spans.len() > 0 ==> spans[0].start == 0 && spans[spans.len() - 1].end == pending)
    &&& forall|i: int| 0 <= i < spans.len() ==> (#[trigger] spans[i]).start < spans[i].end <= k
    &&& forall|i: int|
        0 <= i < spans.len() - 1 ==> (#[trigger] spans[i]).end == spans[i + 1].start
}

proof fn lemma_scan_wf(text: Seq<char>, k: int)
    requires
        2 <= text.len() <= usize::MAX,
        0 <= k <= text.len() - 2,
    ensures
        scan_wf_at(text, k),
    decreases k,
{
    if k > 0 {
        lemma_scan_wf(text, k - 1);
    }
}

/// The raw scan of a multi-character word covers `[0, len)`.
proof fn lemma_scan_covers(text: Seq<char>)
    requires
        2 <= text.len() <= usize::MAX,
    ensures
        spans_cover(scan(text, text.len() - 1).0, text.len() as int),
{
    lemma_scan_wf(text, text.len() - 2);
}

/// Merging the last two spans of a partition leaves a partition.
proof fn lemma_merge_last_cover(spans: Seq<Span>, len: int)
    requires
        spans_cover(spans, len),
        spans.len() >= 2,
    ensures
        spans_cover(merge_last(spans), len),
{
    let merged = merge_last(spans);
    assert forall|i: int| 0 <= i < merged.len() implies (#[trigger] merged[i]).start
        < merged[i].end by {
        if i == merged.len() - 1 {
            assert(spans[spans.len() - 2].end == spans[spans.len() - 1].start);
        }
    }
    assert forall|i: int| 0 <= i < merged.len() - 1 implies (#[trigger] merged[i]).end == merged[i
        + 1].start by {
        assert(spans[i].end == spans[i + 1].start);
    }
}

/// The syllable spans of any non-empty word partition its characters:
/// no gaps, no overlaps, full coverage of `[0, len)`.
pub proof fn lemma_segment_covers(text: Seq<char>)
    requires
        1 <= text.len() <= usize::MAX,
    ensures
        spans_cover(segment(text), text.len() as int),
{
    if text.len() == 1 {
        assert(segment(text) == seq![Span { start: 0, end: 1 }]);
        assert(segment(text)[0] == Span { start: 0, end: 1 });
    } else {
        lemma_scan_covers(text);
        let len = text.len() as int;
        let scanned = scan(text, text.len() - 1).0;
        let trimmed = trim_no_vowel_tail(text, scanned);
        if scanned.len() >= 2 && !has_vowel(span_text(text, scanned.last())) {
            lemma_merge_last_cover(scanned, len);
        }
        if trimmed.len() >= 2 && silent_e_tail(
            text,
            trimmed[trimmed.len() - 2],
            trimmed[trimmed.len() - 1],
        ) {
            lemma_merge_last_cover(trimmed, len);
        }
    }
}

/// Segmentation is a pure function of the text: two well-formed words
/// over the same characters carry identical spans.
pub proof fn lemma_segmentation_deterministic(a: WordView, b: WordView)
    requires
        a.wf(),
        b.wf(),
        a.text == b.text,
    ensures
        a.syllables == b.syllables,
{
}

/// Whether any character the span selects is a vowel letter.
fn span_has_vowel(text: &str, s: Span) -> (r: bool)
    requires
        s.start <= s.end <= text@.len(),
    ensures
        r == has_vowel(span_text(text@, s)),
{
    let mut i: usize = s.start;
    while i < s.end
        invariant
            s.start <= i <= s.end <= text@.len(),
            forall|j: int| s.start <= j < i ==> !spec_is_vowel(#[trigger] text@[j]),
        decreases s.end - i,
    {
        if is_vowel(text.get_char(i)) {
            proof {
                assert(span_text(text@, s)[i - s.start] == text@[i as int]);
            }
            return true;
        }
        i = i + 1;
    }
    proof {
        assert forall|j: int| 0 <= j < span_text(text@, s).len() implies !spec_is_vowel(
            #[trigger] span_text(text@, s)[j],
        ) by {
            assert(span_text(text@, s)[j] == text@[s.start + j]);
        }
    }
    false
}

/// Whether the last two spans `a`, `b` show a silent trailing `e`.
fn ends_silent_e(text: &str, a: Span, b: Span) -> (r: bool)
    requires
        a.start < a.end,
        a.end == b.start,
        b.start < b.end,
        b.end <= text@.len(),
    ensures
        r == silent_e_tail(text@, a, b),
{
    let ghost bt = span_text(text@, b);
    let ghost full = text@.subrange(a.start as int, b.end as int);
    let e_tail = text.get_char(b.end - 1) == 'e';
    proof {
        let sub = bt.subrange(bt.len() - 1, bt.len() as int);
        assert(sub[0] == bt[bt.len() - 1]);
        assert(bt[bt.len() - 1] == text@[b.end - 1]);
        if text@[b.end - 1] == 'e' {
            assert(sub =~= seq!['e']);
        }
        assert(seq_ends_with(bt, seq!['e']) == (text@[b.end - 1] == 'e'));
    }
    let aide_tail = b.end - a.start >= 4 && text.get_char(b.end - 4) == 'a' && text.get_char(
        b.end - 3,
    ) == 'i' && text.get_char(b.end - 2) == 'd' && text.get_char(b.end - 1) == 'e';
    proof {
        let pat = seq!['a', 'i', 'd', 'e'];
        if full.len() >= 4 {
            let sub = full.subrange(full.len() - 4, full.len() as int);
            assert(sub[0] == text@[b.end - 4]);
            assert(sub[1] == text@[b.end - 3]);
            assert(sub[2] == text@[b.end - 2]);
            assert(sub[3] == text@[b.end - 1]);
            if text@[b.end - 4] == 'a' && text@[b.end - 3] == 'i' && text@[b.end - 2] == 'd'
                && text@[b.end - 1] == 'e' {
                assert(sub =~= pat);
            }
        }
        assert(seq_ends_with(full, pat) == aide_tail);
    }
    let ie_tail = b.end - b.start >= 2 && text.get_char(b.end - 2) == 'i' && text.get_char(
        b.end - 1,
    ) == 'e';
    proof {
        let pat = seq!['i', 'e'];
        if bt.len() >= 2 {
            let sub = bt.subrange(bt.len() - 2, bt.len() as int);
            assert(sub[0] == bt[bt.len() - 2]);
            assert(sub[1] == bt[bt.len() - 1]);
            assert(bt[bt.len() - 2] == text@[b.end - 2]);
            if text@[b.end - 2] == 'i' && text@[b.end - 1] == 'e' {
                assert(sub =~= pat);
            }
        }
        assert(seq_ends_with(bt, pat) == ie_tail);
    }
    e_tail && !aide_tail && !ie_tail
}

/// Replace the last two spans by their union.
fn merge_last_two(spans: Vec<Span>) -> (r: Vec<Span>)
    requires
        spans@.len() >= 2,
    ensures
        r@ == merge_last(spans@),
{
    let ghost orig = spans@;
    let mut spans = spans;
    let b = spans.pop().unwrap();
    let a = spans.pop().unwrap();
    spans.push(Span { start: a.start, end: b.end });
    proof {
        assert(spans@ =~= merge_last(orig));
    }
    spans
}

/// First trimming pass over the scanned spans.
fn trim_tail_pass(text: &str, spans: Vec<Span>) -> (r: Vec<Span>)
    requires
        spans_cover(spans@, text@.len() as int),
    ensures
        r@ == trim_no_vowel_tail(text@, spans@),
        spans_cover(r@, text@.len() as int),
{
    if spans.len() >= 2 {
        let b = spans[spans.len() - 1];
        proof {
            assert(b == spans@.last());
        }
        if !span_has_vowel(text, b) {
            proof {
                lemma_merge_last_cover(spans@, text@.len() as int);
            }
            return merge_last_two(spans);
        }
    }
    spans
}

/// Second trimming pass over the scanned spans.
fn silent_e_pass(text: &str, spans: Vec<Span>) -> (r: Vec<Span>)
    requires
        spans_cover(spans@, text@.len() as int),
    ensures
        r@ == trim_silent_e(text@, spans@),
        spans_cover(r@, text@.len() as int),
{
    if spans.len() >= 2 {
        let a = spans[spans.len() - 2];
        let b = spans[spans.len() - 1];
        proof {
            assert(a.end == b.start);
        }
        if ends_silent_e(text, a, b) {
            proof {
                lemma_merge_last_cover(spans@, text@.len() as int);
            }
            return merge_last_two(spans);
        }
    }
    spans
}

impl Word {
    /// Segment `text` into its syllable spans.
    ///
    /// A single letter is one syllable.  Otherwise the scan walks the
    /// character pairs once, closing a span at every vowel-to-consonant
    /// boundary and absorbing the tail into the final span, and the two
    /// trimming passes merge away a vowelless tail span and a silent
    /// trailing `e` (keeping `-aide` and `-ie` endings).
    pub fn from(text: &str) -> (w: Word)
        requires
            text@.len() >= 1,
        ensures
            w.text@ == text@,
            w.syllables@ == segment(text@),
            w@.wf(),
    {
        let n = text.unicode_len();
        let owned: String = text.to_owned();
        if n == 1 {
            let mut syllables: Vec<Span> = Vec::new();
            syllables.push(Span { start: 0, end: 1 });
            proof {
                assert(syllables@ =~= segment(text@));
            }
            return Word { text: owned, syllables };
        }
        let mut spans: Vec<Span> = Vec::new();
        let mut pending: usize = 0;
        let mut k: usize = 1;
        proof {
            assert(spans@ =~= scan(text@, 0).0);
        }
        while k < n
            invariant
                2 <= n == text@.len(),
                1 <= k <= n,
                spans@ == scan(text@, k - 1).0,
                pending as int == scan(text@, k - 1).1,
            decreases n - k,
        {
            let prev = text.get_char(k - 1);
            let cur = text.get_char(k);
            if k == n - 1 {
                spans.push(Span { start: pending, end: k + 1 });
            } else if is_vowel_nocase(prev) && !is_vowel_nocase(cur) {
                spans.push(Span { start: pending, end: k });
                pending = k;
            }
            proof {
                assert(spans@ =~= scan(text@, k as int).0);
            }
            k = k + 1;
        }
        proof {
            lemma_scan_covers(text@);
        }
        let spans = trim_tail_pass(text, spans);
        let spans = silent_e_pass(text, spans);
        Word { text: owned, syllables: spans }
    }

    /// Number of characters in the word's text.
    pub fn len(&self) -> (n: usize)
        ensures
            n == self.text@.len(),
    {
        self.text.as_str().unicode_len()
    }

    /// Whether the word's text is empty.
    pub fn is_empty(&self) -> (r: bool)
        ensures
            r == (self.text@.len() == 0),
    {
        self.len() == 0
    }

    /// How many syllables the word has.
    pub fn syllable_count(&self) -> (n: usize)
        ensures
            n == self.syllables@.len(),
    {
        self.syllables.len()
    }

    /// The word's display form: `text [syl, syl]`.
    pub fn describe(&self) -> (r: String)
        requires
            spans_in_bounds(self.syllables@, self.text@.len() as int),
        ensures
            r@ == describe_word(self@),
    {
        let mut out = self.text.clone();
        out.append(" [");
        proof {
            reveal_strlit(" [");
            assert(" ["@ =~= seq![' ', '[']);
            assert(self.syllables@.take(0) =~= Seq::<Span>::empty());
            assert(out@ =~= self.text@ + seq![' ', '['] + syllable_list(
                self.text@,
                self.syllables@.take(0),
            ));
        }
        let count = self.syllables.len();
        let mut i: usize = 0;
        while i < count
            invariant
                i <= count == self.syllables@.len(),
                spans_in_bounds(self.syllables@, self.text@.len() as int),
                out@ == self.text@ + seq![' ', '['] + syllable_list(
                    self.text@,
                    self.syllables@.take(i as int),
                ),
            decreases count - i,
        {
            if i > 0 {
                out.append(", ");
                proof {
                    reveal_strlit(", ");
                    assert(", "@ =~= seq![',', ' ']);
                }
            }
            let s = self.syllables[i];
            out.append(self.text.substring_char(s.start, s.end));
            proof {
                let taken = self.syllables@.take(i as int + 1);
                assert(taken.drop_last() =~= self.syllables@.take(i as int));
                assert(taken.last() == self.syllables@[i as int]);
                assert(out@ =~= self.text@ + seq![' ', '['] + syllable_list(self.text@, taken));
            }
            i = i + 1;
        }
        out.append("]");
        proof {
            reveal_strlit("]");
            assert("]"@ =~= seq![']']);
            assert(self.syllables@.take(count as int) =~= self.syllables@);
            assert(out@ =~= describe_word(self@));
        }
        out
    }
}

} // verus!
