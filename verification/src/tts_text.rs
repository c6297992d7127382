//! Text segmentation for read-aloud highlighting: white-space
//! normalization, Unicode word and sentence boundary extraction over the
//! normalized text, offset-to-sentence lookup, and highlight-tag insertion
//! into HTML.
use crate::strutil::{chars_to_string, is_ws, is_ws_char, string_to_chars};
use crate::strutil::{lemma_trim_end_char, lemma_trim_start_char, trim_end_ws, trim_start_ws, trim_ws};
use unicode_segmentation::UnicodeSegmentation;
use vstd::prelude::*;

verus! {

/// The zero-width space, stripped entirely by normalization.
pub open spec fn zwsp() -> char {
    '\u{200B}'
}

/// The tail of `s` from position `i` with every maximal run of white space
/// replaced by one ASCII space; `prev_ws` says whether position `i` sits
/// inside a run whose space has already been emitted.
pub open spec fn collapse_from(s: Seq<char>, i: int, prev_ws: bool) -> Seq<char>
    decreases s.len() - i,
{
    if i < 0 || i >= s.len() {
        Seq::empty()
    } else if is_ws_char(s[i]) {
        if prev_ws {
            collapse_from(s, i + 1, true)
        } else {
            seq![' '] + collapse_from(s, i + 1, true)
        }
    } else {
        seq![s[i]] + collapse_from(s, i + 1, false)
    }
}

/// `s` with every maximal run of white space replaced by one ASCII space.
pub open spec fn collapse_ws(s: Seq<char>) -> Seq<char> {
    collapse_from(s, 0, false)
}

/// The tail of `s` from position `i` with every zero-width space removed.
pub open spec fn remove_zwsp_from(s: Seq<char>, i: int) -> Seq<char>
    decreases s.len() - i,
{
    if i < 0 || i >= s.len() {
        Seq::empty()
    } else if s[i] == zwsp() {
        remove_zwsp_from(s, i + 1)
    } else {
        seq![s[i]] + remove_zwsp_from(s, i + 1)
    }
}

/// `s` with every zero-width space removed.
pub open spec fn remove_zwsp(s: Seq<char>) -> Seq<char> {
    remove_zwsp_from(s, 0)
}

/// Normalized form of a text: trimmed, white-space runs collapsed to one
/// ASCII space, zero-width spaces stripped last.
pub open spec fn spec_normalize(s: Seq<char>) -> Seq<char> {
    remove_zwsp(collapse_ws(trim_ws(s)))
}

/// Collapses the white space of `v` in one pass, as `collapse_ws` describes.
fn collapse_pass(v: &Vec<char>) -> (r: Vec<char>)
    ensures
        r@ == collapse_ws(v@),
        r@.len() <= v@.len(),
{
    let n = v.len();
    let mut out: Vec<char> = Vec::new();
    let mut prev_ws = false;
    let mut i: usize = 0;
    while i < n
        invariant
            n == v@.len(),
            i <= n,
            out@.len() <= i,
            collapse_ws(v@) =~= out@ + collapse_from(v@, i as int, prev_ws),
        decreases n - i,
    {
        let c = v[i];
        if is_ws(c) {
            if !prev_ws {
                out.push(' ');
            }
            prev_ws = true;
        } else {
            out.push(c);
            prev_ws = false;
        }
        i = i + 1;
    }
    out
}

/// Strips zero-width spaces from `v`, as `remove_zwsp` describes.
fn remove_zwsp_pass(v: &Vec<char>) -> (r: Vec<char>)
    ensures
        r@ == remove_zwsp(v@),
        r@.len() <= v@.len(),
{
    let n = v.len();
    let mut out: Vec<char> = Vec::new();
    let mut i: usize = 0;
    while i < n
        invariant
            n == v@.len(),
            i <= n,
            out@.len() <= i,
            remove_zwsp(v@) =~= out@ + remove_zwsp_from(v@, i as int),
        decreases n - i,
    {
        let c = v[i];
        if !(c == '\u{200B}') {
            out.push(c);
        }
        i = i + 1;
    }
    out
}

/// Trims the leading and trailing white space of `v`, as `trim_ws`
/// describes.
fn trim_pass(v: &Vec<char>) -> (r: Vec<char>)
    ensures
        r@ == trim_ws(v@),
        r@.len() <= v@.len(),
{
    let n = v.len();
    let mut a: usize = 0;
    while a < n && is_ws(v[a])
        invariant
            n == v@.len(),
            a <= n,
            forall|j: int| 0 <= j < a ==> is_ws_char(v@[j]),
        decreases n - a,
    {
        a = a + 1;
    }
    proof {
        lemma_trim_start_char(v@, a as int);
    }
    let ghost t = v@.subrange(a as int, n as int);
    let mut b: usize = n;
    while b > a && is_ws(v[b - 1])
        invariant
            n == v@.len(),
            a <= b <= n,
            forall|j: int| b <= j < n ==> is_ws_char(v@[j]),
        decreases b,
    {
        b = b - 1;
    }
    proof {
        assert(forall|j: int| b - a <= j < t.len() ==> is_ws_char(#[trigger] t[j]));
        assert(b > a ==> !is_ws_char(t[b - a - 1]));
        lemma_trim_end_char(t, b - a);
    }
    let mut out: Vec<char> = Vec::new();
    let mut i: usize = a;
    while i < b
        invariant
            a <= i <= b <= n,
            n == v@.len(),
            out@ =~= v@.subrange(a as int, i as int),
        decreases b - i,
    {
        out.push(v[i]);
        proof {
            assert(out@ =~= v@.subrange(a as int, i + 1));
        }
        i = i + 1;
    }
    proof {
        assert(out@ =~= t.subrange(0, b - a));
    }
    out
}

/// A text already in normalized form: no zero-width space, and every
/// white-space character an isolated ASCII space away from either end.
pub open spec fn is_normal(y: Seq<char>) -> bool {
    &&& forall|i: int| 0 <= i < y.len() ==> #[trigger] y[i] != zwsp()
    &&& forall|i: int| 0 <= i < y.len() && is_ws_char(#[trigger] y[i]) ==> y[i] == ' '
    &&& forall|i: int|
        0 <= i < y.len() - 1 ==> !(is_ws_char(#[trigger] y[i]) && is_ws_char(y[i + 1]))
    &&& y.len() > 0 ==> !is_ws_char(y[0]) && !is_ws_char(y.last())
}

proof fn lemma_collapse_normal(y: Seq<char>, i: int, prev: bool)
    requires
        is_normal(y),
        0 <= i <= y.len(),
        prev ==> (i == y.len() || !is_ws_char(y[i])),
        !prev ==> (i == 0 || !is_ws_char(y[i - 1])),
    ensures
        collapse_from(y, i, prev) =~= y.subrange(i, y.len() as int),
    decreases y.len() - i,
{
    if i < y.len() {
        if is_ws_char(y[i]) {
            lemma_collapse_normal(y, i + 1, true);
        } else {
            lemma_collapse_normal(y, i + 1, false);
        }
    }
}

proof fn lemma_remove_no_zwsp(y: Seq<char>, i: int)
    requires
        0 <= i <= y.len(),
        forall|j: int| i <= j < y.len() ==> #[trigger] y[j] != zwsp(),
    ensures
        remove_zwsp_from(y, i) =~= y.subrange(i, y.len() as int),
    decreases y.len() - i,
{
    if i < y.len() {
        lemma_remove_no_zwsp(y, i + 1);
    }
}

proof fn lemma_collapse_props(t: Seq<char>, i: int, prev: bool)
    requires
        0 <= i <= t.len(),
        forall|j: int| 0 <= j < t.len() ==> #[trigger] t[j] != zwsp(),
    ensures
        ({
            let c = collapse_from(t, i, prev);
            &&& forall|k: int| 0 <= k < c.len() && is_ws_char(#[trigger] c[k]) ==> c[k] == ' '
            &&& forall|k: int|
                0 <= k < c.len() - 1 ==> !(is_ws_char(#[trigger] c[k]) && is_ws_char(c[k + 1]))
            &&& forall|k: int| 0 <= k < c.len() ==> #[trigger] c[k] != zwsp()
            &&& (prev && c.len() > 0 ==> !is_ws_char(c[0]))
            &&& (i < t.len() && !is_ws_char(t.last()) ==> c.len() > 0 && !is_ws_char(c.last()))
        }),
    decreases t.len() - i,
{
    if i < t.len() {
        let c = collapse_from(t, i, prev);
        if is_ws_char(t[i]) {
            lemma_collapse_props(t, i + 1, true);
            let rec = collapse_from(t, i + 1, true);
            if i == t.len() - 1 {
                assert(is_ws_char(t.last()));
            }
            if prev {
                assert(c == rec);
            } else {
                assert(c =~= seq![' '] + rec);
                assert forall|k: int|
                    0 <= k < c.len() && is_ws_char(#[trigger] c[k]) implies c[k] == ' ' by {
                    if k >= 1 {
                        assert(c[k] == rec[k - 1]);
                    }
                }
                assert forall|k: int| 0 <= k < c.len() - 1 implies !(is_ws_char(#[trigger] c[k])
                    && is_ws_char(c[k + 1])) by {
                    if k == 0 {
                        assert(c[1] == rec[0]);
                        assert(rec.len() > 0 ==> !is_ws_char(rec[0]));
                    } else {
                        assert(c[k] == rec[k - 1]);
                        assert(c[k + 1] == rec[k]);
                    }
                }
                assert forall|k: int| 0 <= k < c.len() implies #[trigger] c[k] != zwsp() by {
                    if k >= 1 {
                        assert(c[k] == rec[k - 1]);
                    } else {
                        assert(c[0] == ' ');
                    }
                }
                if !is_ws_char(t.last()) {
                    assert(i != t.len() - 1);
                    assert(rec.len() > 0);
                    assert(c.last() == rec.last());
                }
            }
        } else {
            lemma_collapse_props(t, i + 1, false);
            let rec = collapse_from(t, i + 1, false);
            assert(c =~= seq![t[i]] + rec);
            assert forall|k: int|
                0 <= k < c.len() && is_ws_char(#[trigger] c[k]) implies c[k] == ' ' by {
                if k >= 1 {
                    assert(c[k] == rec[k - 1]);
                }
            }
            assert forall|k: int| 0 <= k < c.len() - 1 implies !(is_ws_char(#[trigger] c[k])
                && is_ws_char(c[k + 1])) by {
                if k == 0 {
                    assert(!is_ws_char(c[0]));
                } else {
                    assert(c[k] == rec[k - 1]);
                    assert(c[k + 1] == rec[k]);
                }
            }
            assert forall|k: int| 0 <= k < c.len() implies #[trigger] c[k] != zwsp() by {
                if k >= 1 {
                    assert(c[k] == rec[k - 1]);
                } else {
                    assert(c[0] == t[i]);
                }
            }
            if !is_ws_char(t.last()) {
                if i == t.len() - 1 {
                    assert(c.last() == t[i]);
                } else {
                    assert(rec.len() > 0);
                    assert(c.last() == rec.last());
                }
            }
        }
    }
}

proof fn lemma_trim_start_props(s: Seq<char>)
    ensures
        trim_start_ws(s).len() <= s.len(),
        trim_start_ws(s).len() > 0 ==> !is_ws_char(trim_start_ws(s)[0]),
        (forall|j: int| 0 <= j < s.len() ==> #[trigger] s[j] != zwsp()) ==> (forall|j: int|
            0 <= j < trim_start_ws(s).len() ==> #[trigger] trim_start_ws(s)[j] != zwsp()),
    decreases s.len(),
{
    if s.len() > 0 && is_ws_char(s[0]) {
        lemma_trim_start_props(s.drop_first());
        assert(forall|j: int|
            0 <= j < s.drop_first().len() ==> #[trigger] s.drop_first()[j] == s[j + 1]);
    }
}

proof fn lemma_trim_end_props(s: Seq<char>)
    ensures
        trim_end_ws(s).len() <= s.len(),
        trim_end_ws(s).len() > 0 ==> !is_ws_char(trim_end_ws(s).last()),
        trim_end_ws(s).len() > 0 ==> trim_end_ws(s)[0] == s[0],
        (forall|j: int| 0 <= j < s.len() ==> #[trigger] s[j] != zwsp()) ==> (forall|j: int|
            0 <= j < trim_end_ws(s).len() ==> #[trigger] trim_end_ws(s)[j] != zwsp()),
    decreases s.len(),
{
    if s.len() > 0 && is_ws_char(s.last()) {
        lemma_trim_end_props(s.drop_last());
        assert(forall|j: int| 0 <= j < s.drop_last().len() ==> #[trigger] s.drop_last()[j] == s[j]);
    }
}

/// The normalized form of a zero-width-space-free text is itself in
/// normalized form.
pub proof fn lemma_normalize_output_normal(x: Seq<char>)
    requires
        forall|j: int| 0 <= j < x.len() ==> #[trigger] x[j] != zwsp(),
    ensures
        is_normal(spec_normalize(x)),
{
    let t0 = trim_start_ws(x);
    let t = trim_ws(x);
    lemma_trim_start_props(x);
    lemma_trim_end_props(t0);
    let c = collapse_ws(t);
    lemma_collapse_props(t, 0, false);
    if t.len() > 0 {
        assert(!is_ws_char(t[0]));
        assert(c =~= seq![t[0]] + collapse_from(t, 1, false));
        assert(!is_ws_char(c[0]));
        assert(!is_ws_char(t.last()));
        assert(c.len() > 0 && !is_ws_char(c.last()));
    }
    assert(forall|k: int| 0 <= k < c.len() ==> #[trigger] c[k] != zwsp());
    lemma_remove_no_zwsp(c, 0);
    assert(spec_normalize(x) =~= c);
}

/// Normalization is idempotent on texts free of zero-width spaces:
/// normalizing an already-normalized text changes nothing. (A zero-width
/// space that separates two white-space runs defeats this: the runs collapse
/// separately, and only then does the zero-width space between them vanish.)
pub proof fn lemma_normalize_idempotent(x: Seq<char>)
    requires
        forall|j: int| 0 <= j < x.len() ==> #[trigger] x[j] != zwsp(),
    ensures
        spec_normalize(spec_normalize(x)) == spec_normalize(x),
{
    let y = spec_normalize(x);
    lemma_normalize_output_normal(x);
    assert(trim_start_ws(y) == y);
    assert(trim_end_ws(y) == y);
    lemma_collapse_normal(y, 0, false);
    assert(collapse_ws(y) =~= y);
    assert(forall|j: int| 0 <= j < y.len() ==> #[trigger] y[j] != zwsp());
    lemma_remove_no_zwsp(y, 0);
    assert(spec_normalize(y) =~= y);
}

/// Normalizes text for read-aloud use: trims it, collapses every white-space
/// run to a single ASCII space, and strips zero-width spaces.
pub fn normalize_text(text: &str) -> (r: String)
    ensures
        r@ == spec_normalize(text@),
        r@.len() <= text@.len(),
{
    let v = string_to_chars(text);
    let t = trim_pass(&v);
    let c = collapse_pass(&t);
    let z = remove_zwsp_pass(&c);
    chars_to_string(&z)
}

/// The concatenation of a sequence of segments.
pub open spec fn concat_segs(segs: Seq<Seq<char>>) -> Seq<char>
    decreases segs.len(),
{
    if segs.len() == 0 {
        Seq::empty()
    } else {
        segs[0] + concat_segs(segs.drop_first())
    }
}

/// A segment that survives trimming: it has at least one character that is
/// not white space.
pub open spec fn has_non_ws(s: Seq<char>) -> bool {
    exists|i: int| 0 <= i < s.len() && !is_ws_char(s[i])
}

/// The word-boundary segments of a text under Unicode (UAX #29) word
/// segmentation rules; the segmentation depends on the characters alone.
pub uninterp spec fn word_bounds_of(s: Seq<char>) -> Seq<Seq<char>>;

/// The sentence-boundary segments of a text under Unicode (UAX #29)
/// sentence segmentation rules; the segmentation depends on the characters
/// alone.
pub uninterp spec fn sentence_bounds_of(s: Seq<char>) -> Seq<Seq<char>>;

/// Relies on unicode_segmentation's `str::split_word_bounds`: it yields the
/// UAX #29 word-boundary substrings in order, and documents that their
/// concatenation is the original string.
#[verifier::external_body]
fn split_word_bounds_vec(s: &str) -> (r: Vec<String>)
    ensures
        r@.map_values(|w: String| w@) == word_bounds_of(s@),
        concat_segs(r@.map_values(|w: String| w@)) == s@,
{
    s.split_word_bounds().map(|w| w.to_string()).collect()
}

/// Relies on unicode_segmentation's `str::split_sentence_bounds`: it yields
/// the UAX #29 sentence-boundary substrings in order, and documents that
/// their concatenation is the original string.
#[verifier::external_body]
fn split_sentence_bounds_vec(s: &str) -> (r: Vec<String>)
    ensures
        r@.map_values(|w: String| w@) == sentence_bounds_of(s@),
        concat_segs(r@.map_values(|w: String| w@)) == s@,
{
    s.split_sentence_bounds().map(|w| w.to_string()).collect()
}

/// A word over the normalized text: the half-open character-offset range it
/// occupies, and its characters.
#[derive(Debug, Clone)]
pub struct WordSpan {
    pub start: u32,
    pub end: u32,
    pub text: String,
}

impl WordSpan {
    /// The span as plain mathematical values.
    pub open spec fn model(self) -> (int, int, Seq<char>) {
        (self.start as int, self.end as int, self.text@)
    }
}

/// A sentence over the normalized text: the half-open character-offset
/// range it occupies, trimmed of boundary white space.
#[derive(Debug, Clone, Copy, PartialEq, Eq, Structural)]
pub struct SentenceSpan {
    pub start: u32,
    pub end: u32,
}

/// Pre-computed highlight data for one text: its word spans, sentence
/// spans, and the normalized text they address.
#[derive(Debug, Clone)]
pub struct TextHighlightData {
    pub words: Vec<WordSpan>,
    pub sentences: Vec<SentenceSpan>,
    pub normalized_text: String,
}

/// The word spans of the given segments, starting at character offset
/// `off`: one span per segment that is not pure white space, addressed by
/// cumulative character counts.
pub open spec fn spec_word_spans(segs: Seq<Seq<char>>, off: int) -> Seq<(int, int, Seq<char>)>
    decreases segs.len(),
{
    if segs.len() == 0 {
        Seq::empty()
    } else {
        let w = segs[0];
        let rest = spec_word_spans(segs.drop_first(), off + w.len());
        if has_non_ws(w) {
            seq![(off, off + w.len(), w)] + rest
        } else {
            rest
        }
    }
}

/// Length of the leading white-space run of `s`.
pub open spec fn spec_leading_ws(s: Seq<char>) -> int
    decreases s.len(),
{
    if s.len() == 0 || !is_ws_char(s[0]) {
        0
    } else {
        1 + spec_leading_ws(s.drop_first())
    }
}

/// Length of the trailing white-space run of `s`.
pub open spec fn spec_trailing_ws(s: Seq<char>) -> int
    decreases s.len(),
{
    if s.len() == 0 || !is_ws_char(s.last()) {
        0
    } else {
        1 + spec_trailing_ws(s.drop_last())
    }
}

/// The sentence spans of the given segments, starting at character offset
/// `off`: one span per segment that is not pure white space, with the
/// boundary white space subtracted from either end.
pub open spec fn spec_sentence_spans(segs: Seq<Seq<char>>, off: int) -> Seq<(int, int)>
    decreases segs.len(),
{
    if segs.len() == 0 {
        Seq::empty()
    } else {
        let w = segs[0];
        let rest = spec_sentence_spans(segs.drop_first(), off + w.len());
        if has_non_ws(w) {
            seq![(off + spec_leading_ws(w), off + w.len() - spec_trailing_ws(w))] + rest
        } else {
            rest
        }
    }
}

proof fn lemma_concat_take(segs: Seq<Seq<char>>, i: int)
    requires
        0 <= i < segs.len(),
    ensures
        concat_segs(segs.subrange(0, i + 1)) =~= concat_segs(segs.subrange(0, i)) + segs[i],
        concat_segs(segs.subrange(0, i + 1)).len() == concat_segs(segs.subrange(0, i)).len()
            + segs[i].len(),
    decreases i,
{
    if i == 0 {
        assert(segs.subrange(0, 1).drop_first() =~= Seq::<Seq<char>>::empty());
        assert(concat_segs(segs.subrange(0, 1)) =~= segs[0]);
        assert(concat_segs(segs.subrange(0, 0)) =~= Seq::<char>::empty());
    } else {
        let t = segs.drop_first();
        lemma_concat_take(t, i - 1);
        assert(t.subrange(0, i) =~= segs.subrange(0, i + 1).drop_first());
        assert(t.subrange(0, i - 1) =~= segs.subrange(0, i).drop_first());
        assert(concat_segs(segs.subrange(0, i + 1)) == segs[0] + concat_segs(
            segs.subrange(0, i + 1).drop_first(),
        ));
        assert(concat_segs(segs.subrange(0, i)) == segs[0] + concat_segs(
            segs.subrange(0, i).drop_first(),
        ));
    }
}

proof fn lemma_concat_prefix_bound(segs: Seq<Seq<char>>, i: int)
    requires
        0 <= i <= segs.len(),
    ensures
        concat_segs(segs.subrange(0, i)).len() <= concat_segs(segs).len(),
    decreases segs.len() - i,
{
    if i == segs.len() {
        assert(segs.subrange(0, i) =~= segs);
    } else {
        lemma_concat_take(segs, i);
        lemma_concat_prefix_bound(segs, i + 1);
    }
}

/// Counts the leading and trailing white-space characters of one segment.
fn ws_margins(w: &Vec<char>) -> (r: (usize, usize))
    ensures
        r.0 == spec_leading_ws(w@),
        r.1 == spec_trailing_ws(w@),
        r.0 <= w@.len(),
        r.1 <= w@.len(),
{
    let n = w.len();
    let mut a: usize = 0;
    while a < n && is_ws(w[a])
        invariant
            n == w@.len(),
            a <= n,
            forall|j: int| 0 <= j < a ==> is_ws_char(w@[j]),
        decreases n - a,
    {
        a = a + 1;
    }
    proof {
        lemma_leading_ws_char(w@, a as int);
    }
    let mut b: usize = n;
    while b > 0 && is_ws(w[b - 1])
        invariant
            n == w@.len(),
            b <= n,
            forall|j: int| b <= j < n ==> is_ws_char(w@[j]),
        decreases b,
    {
        b = b - 1;
    }
    proof {
        lemma_trailing_ws_char(w@, b as int);
    }
    (a, n - b)
}

proof fn lemma_leading_ws_char(s: Seq<char>, a: int)
    requires
        0 <= a <= s.len(),
        forall|j: int| 0 <= j < a ==> is_ws_char(s[j]),
        a < s.len() ==> !is_ws_char(s[a]),
    ensures
        spec_leading_ws(s) == a,
    decreases a,
{
    if a == 0 {
    } else {
        let t = s.drop_first();
        assert(forall|j: int| 0 <= j < a - 1 ==> is_ws_char(#[trigger] t[j]));
        lemma_leading_ws_char(t, a - 1);
    }
}

proof fn lemma_trailing_ws_char(s: Seq<char>, b: int)
    requires
        0 <= b <= s.len(),
        forall|j: int| b <= j < s.len() ==> is_ws_char(s[j]),
        b > 0 ==> !is_ws_char(s[b - 1]),
    ensures
        spec_trailing_ws(s) == s.len() - b,
    decreases s.len() - b,
{
    if b < s.len() {
        let t = s.drop_last();
        assert(forall|j: int| b <= j < t.len() ==> is_ws_char(#[trigger] t[j]));
        lemma_trailing_ws_char(t, b);
    }
}

/// Decides whether a segment has any character that is not white space.
fn seg_has_non_ws(w: &Vec<char>) -> (r: bool)
    ensures
        r == has_non_ws(w@),
{
    let n = w.len();
    let mut i: usize = 0;
    while i < n
        invariant
            n == w@.len(),
            i <= n,
            forall|j: int| 0 <= j < i ==> is_ws_char(w@[j]),
        decreases n - i,
    {
        if !is_ws(w[i]) {
            return true;
        }
        i = i + 1;
    }
    false
}

/// Pre-computes word and sentence boundaries of a text for read-aloud
/// highlighting. The text is normalized first; word and sentence spans then
/// address the normalized text by character offsets. An empty normalized
/// text yields no words and no sentences.
pub fn precompute_text_highlights(text: String) -> (data: TextHighlightData)
    requires
        text@.len() <= u32::MAX,
    ensures
        data.normalized_text@ == spec_normalize(text@),
        spec_normalize(text@).len() == 0 ==> data.words@.len() == 0 && data.sentences@.len() == 0,
        spec_normalize(text@).len() > 0 ==> data.words@.map_values(|w: WordSpan| w.model())
            =~= spec_word_spans(word_bounds_of(spec_normalize(text@)), 0),
        spec_normalize(text@).len() > 0 ==> data.sentences@.map_values(
            |s: SentenceSpan| (s.start as int, s.end as int),
        ) =~= spec_sentence_spans(sentence_bounds_of(spec_normalize(text@)), 0),
{
    let normalized = normalize_text(text.as_str());
    if normalized.as_str().unicode_len() == 0 {
        assert(spec_normalize(text@).len() == 0);
        return TextHighlightData {
            words: Vec::new(),
            sentences: Vec::new(),
            normalized_text: normalized,
        };
    }
    let ghost norm = spec_normalize(text@);
    let word_segs = split_word_bounds_vec(normalized.as_str());
    let ghost wsegs = word_bounds_of(norm);
    let mut words: Vec<WordSpan> = Vec::new();
    let mut off: u32 = 0;
    let mut i: usize = 0;
    proof {
        assert(words@.map_values(|w: WordSpan| w.model()) =~= Seq::<(int, int, Seq<char>)>::empty());
        assert(wsegs.subrange(0, wsegs.len() as int) =~= wsegs);
        assert(concat_segs(wsegs.subrange(0, 0)) =~= Seq::<char>::empty());
    }
    while i < word_segs.len()
        invariant
            wsegs == word_bounds_of(norm),
            word_segs@.map_values(|w: String| w@) == wsegs,
            concat_segs(wsegs) == norm,
            norm.len() <= u32::MAX,
            i <= word_segs@.len(),
            off == concat_segs(wsegs.subrange(0, i as int)).len(),
            spec_word_spans(wsegs, 0) =~= words@.map_values(|w: WordSpan| w.model())
                + spec_word_spans(wsegs.subrange(i as int, wsegs.len() as int), off as int),
        decreases word_segs@.len() - i,
    {
        let seg = &word_segs[i];
        let seg_chars = string_to_chars(seg.as_str());
        let len = seg_chars.len();
        proof {
            assert(wsegs[i as int] == seg@);
            lemma_concat_take(wsegs, i as int);
            lemma_concat_prefix_bound(wsegs, i + 1);
            assert(off + len <= norm.len());
        }
        let keep = seg_has_non_ws(&seg_chars);
        let ghost old_words = words@;
        if keep {
            words.push(WordSpan { start: off, end: off + (len as u32), text: seg.clone() });
            proof {
                assert(words@.map_values(|w: WordSpan| w.model()) =~= old_words.map_values(
                    |w: WordSpan| w.model(),
                ) + seq![(off as int, off + len, seg@)]);
            }
        }
        proof {
            let tail = wsegs.subrange(i as int, wsegs.len() as int);
            assert(tail[0] == wsegs[i as int]);
            assert(tail.drop_first() =~= wsegs.subrange(i + 1, wsegs.len() as int));
        }
        off = off + (len as u32);
        i = i + 1;
    }
    proof {
        assert(wsegs.subrange(wsegs.len() as int, wsegs.len() as int)
            =~= Seq::<Seq<char>>::empty());
    }
    let sent_segs = split_sentence_bounds_vec(normalized.as_str());
    let ghost ssegs = sentence_bounds_of(norm);
    let mut sentences: Vec<SentenceSpan> = Vec::new();
    let mut soff: u32 = 0;
    let mut k: usize = 0;
    proof {
        assert(sentences@.map_values(|s: SentenceSpan| (s.start as int, s.end as int))
            =~= Seq::<(int, int)>::empty());
        assert(ssegs.subrange(0, ssegs.len() as int) =~= ssegs);
        assert(concat_segs(ssegs.subrange(0, 0)) =~= Seq::<char>::empty());
    }
    while k < sent_segs.len()
        invariant
            ssegs == sentence_bounds_of(norm),
            sent_segs@.map_values(|w: String| w@) == ssegs,
            concat_segs(ssegs) == norm,
            norm.len() <= u32::MAX,
            k <= sent_segs@.len(),
            soff == concat_segs(ssegs.subrange(0, k as int)).len(),
            spec_sentence_spans(ssegs, 0) =~= sentences@.map_values(
                |s: SentenceSpan| (s.start as int, s.end as int),
            ) + spec_sentence_spans(ssegs.subrange(k as int, ssegs.len() as int), soff as int),
        decreases sent_segs@.len() - k,
    {
        let seg = &sent_segs[k];
        let seg_chars = string_to_chars(seg.as_str());
        let len = seg_chars.len();
        proof {
            assert(ssegs[k as int] == seg@);
            lemma_concat_take(ssegs, k as int);
            lemma_concat_prefix_bound(ssegs, k + 1);
            assert(soff + len <= norm.len());
        }
        let keep = seg_has_non_ws(&seg_chars);
        let ghost old_sents = sentences@;
        if keep {
            let (lead, trail) = ws_margins(&seg_chars);
            proof {
                lemma_margins_of_non_ws(seg@);
            }
            sentences.push(
                SentenceSpan {
                    start: soff + (lead as u32),
                    end: soff + (len as u32) - (trail as u32),
                },
            );
            proof {
                assert(sentences@.map_values(|s: SentenceSpan| (s.start as int, s.end as int))
                    =~= old_sents.map_values(|s: SentenceSpan| (s.start as int, s.end as int))
                    + seq![(soff + spec_leading_ws(seg@), soff + len - spec_trailing_ws(seg@))]);
            }
        }
        proof {
            let tail = ssegs.subrange(k as int, ssegs.len() as int);
            assert(tail[0] == ssegs[k as int]);
            assert(tail.drop_first() =~= ssegs.subrange(k + 1, ssegs.len() as int));
        }
        soff = soff + (len as u32);
        k = k + 1;
    }
    proof {
        assert(ssegs.subrange(ssegs.len() as int, ssegs.len() as int)
            =~= Seq::<Seq<char>>::empty());
    }
    TextHighlightData { words, sentences, normalized_text: normalized }
}

/// In a segment with a non-white-space character, the leading and trailing
/// white-space runs do not overlap: the trimmed span is non-empty.
pub proof fn lemma_margins_of_non_ws(w: Seq<char>)
    requires
        has_non_ws(w),
    ensures
        spec_leading_ws(w) + spec_trailing_ws(w) < w.len(),
        0 <= spec_leading_ws(w),
        0 <= spec_trailing_ws(w),
{
    let p = choose|i: int| 0 <= i < w.len() && !is_ws_char(w[i]);
    lemma_leading_le(w, p);
    lemma_trailing_lt(w, p);
    lemma_margins_nonneg(w);
}

proof fn lemma_leading_le(w: Seq<char>, p: int)
    requires
        0 <= p < w.len(),
        !is_ws_char(w[p]),
    ensures
        spec_leading_ws(w) <= p,
    decreases w.len(),
{
    if is_ws_char(w[0]) {
        assert(p > 0);
        let t = w.drop_first();
        assert(!is_ws_char(t[p - 1]));
        lemma_leading_le(t, p - 1);
    }
}

proof fn lemma_margins_nonneg(w: Seq<char>)
    ensures
        0 <= spec_leading_ws(w) <= w.len(),
        0 <= spec_trailing_ws(w) <= w.len(),
    decreases w.len(),
{
    if w.len() > 0 {
        lemma_margins_nonneg(w.drop_first());
        lemma_margins_nonneg(w.drop_last());
    }
}

proof fn lemma_trailing_lt(w: Seq<char>, p: int)
    requires
        0 <= p < w.len(),
        !is_ws_char(w[p]),
    ensures
        spec_trailing_ws(w) < w.len() - p,
    decreases w.len(),
{
    if is_ws_char(w.last()) {
        assert(p < w.len() - 1);
        lemma_trailing_lt(w.drop_last(), p);
    } else {
        lemma_margins_nonneg(w);
    }
}

/// Whether `off` lies inside the half-open range of `sp`.
pub open spec fn sent_contains(sp: SentenceSpan, off: int) -> bool {
    sp.start <= off < sp.end
}

/// What the offset-to-sentence lookup returns: the first sentence whose
/// range contains `off`; past every sentence, the last one; `None` only for
/// an empty list.
pub open spec fn spec_find_sentence(s: Seq<SentenceSpan>, off: int) -> Option<SentenceSpan> {
    if s.len() == 0 {
        None
    } else if exists|i: int| 0 <= i < s.len() && sent_contains(s[i], off) {
        Some(
            s[choose|i: int|
                0 <= i < s.len() && sent_contains(s[i], off) && forall|j: int|
                    0 <= j < i ==> !sent_contains(s[j], off)],
        )
    } else {
        Some(s[s.len() - 1])
    }
}

/// Finds the sentence containing character offset `offset`: the first span
/// whose range contains it, the last span when the offset is past every
/// sentence, and nothing only when there are no sentences.
pub fn find_sentence_for_offset(sentences: &[SentenceSpan], offset: u32) -> (r: Option<
    SentenceSpan,
>)
    ensures
        r == spec_find_sentence(sentences@, offset as int),
        (r is None) <==> sentences@.len() == 0,
{
    let n = sentences.len();
    if n == 0 {
        return None;
    }
    let mut i: usize = 0;
    while i < n
        invariant
            n == sentences@.len(),
            i <= n,
            forall|j: int| 0 <= j < i ==> !sent_contains(sentences@[j], offset as int),
        decreases n - i,
    {
        let sp = sentences[i];
        if sp.start <= offset && offset < sp.end {
            proof {
                let w = choose|w: int|
                    0 <= w < sentences@.len() && sent_contains(sentences@[w], offset as int)
                        && forall|j: int| 0 <= j < w ==> !sent_contains(sentences@[j], offset as int);
                if w < i {
                    assert(!sent_contains(sentences@[w], offset as int));
                }
                if i < w {
                    assert(!sent_contains(sentences@[i as int], offset as int));
                }
            }
            return Some(sp);
        }
        i = i + 1;
    }
    Some(sentences[n - 1])
}

/// When the offset is at or past the end of every sentence, the lookup
/// falls back to the last sentence.
pub proof fn lemma_find_sentence_past_end(s: Seq<SentenceSpan>, off: int)
    requires
        s.len() > 0,
        forall|i: int| 0 <= i < s.len() ==> off >= #[trigger] s[i].end,
    ensures
        spec_find_sentence(s, off) == Some(s.last()),
{
    assert forall|i: int| 0 <= i < s.len() implies !sent_contains(#[trigger] s[i], off) by {
        assert(off >= s[i].end);
    }
}

/// Word spans are well formed and ordered: each span is non-empty, spans
/// never overlap and come in ascending position order, and all lie inside
/// the text the segments concatenate to.
pub proof fn lemma_word_spans_ordered(segs: Seq<Seq<char>>, off: int)
    ensures
        ({
            let sp = spec_word_spans(segs, off);
            &&& forall|j: int| 0 <= j < sp.len() ==> #[trigger] sp[j].0 < sp[j].1
            &&& forall|j: int| 0 <= j < sp.len() - 1 ==> #[trigger] sp[j].1 <= sp[j + 1].0
            &&& forall|j: int|
                0 <= j < sp.len() ==> off <= #[trigger] sp[j].0 && sp[j].1 <= off + concat_segs(
                    segs,
                ).len()
        }),
    decreases segs.len(),
{
    if segs.len() > 0 {
        let w = segs[0];
        let rest = spec_word_spans(segs.drop_first(), off + w.len());
        lemma_word_spans_ordered(segs.drop_first(), off + w.len());
        let sp = spec_word_spans(segs, off);
        if has_non_ws(w) {
            assert(w.len() > 0);
            assert(sp =~= seq![(off, off + w.len(), w)] + rest);
            assert(forall|j: int| 1 <= j < sp.len() ==> sp[j] == #[trigger] rest[j - 1]);
        } else {
            assert(sp == rest);
        }
    }
}

/// Sentence spans are well formed and ordered: each span is non-empty,
/// spans never overlap and come in ascending position order, and all lie
/// inside the text the segments concatenate to.
pub proof fn lemma_sentence_spans_ordered(segs: Seq<Seq<char>>, off: int)
    ensures
        ({
            let sp = spec_sentence_spans(segs, off);
            &&& forall|j: int| 0 <= j < sp.len() ==> #[trigger] sp[j].0 < sp[j].1
            &&& forall|j: int| 0 <= j < sp.len() - 1 ==> #[trigger] sp[j].1 <= sp[j + 1].0
            &&& forall|j: int|
                0 <= j < sp.len() ==> off <= #[trigger] sp[j].0 && sp[j].1 <= off + concat_segs(
                    segs,
                ).len()
        }),
    decreases segs.len(),
{
    if segs.len() > 0 {
        let w = segs[0];
        let rest = spec_sentence_spans(segs.drop_first(), off + w.len());
        lemma_sentence_spans_ordered(segs.drop_first(), off + w.len());
        let sp = spec_sentence_spans(segs, off);
        if has_non_ws(w) {
            lemma_margins_of_non_ws(w);
            assert(sp =~= seq![(off + spec_leading_ws(w), off + w.len() - spec_trailing_ws(w))]
                + rest);
            assert(forall|j: int| 1 <= j < sp.len() ==> sp[j] == #[trigger] rest[j - 1]);
        } else {
            assert(sp == rest);
        }
    }
}

/// The text content of an HTML document's body, as scraper's traversal
/// yields it; a function of the markup alone.
pub uninterp spec fn html_body_text_of(html: Seq<char>) -> Seq<char>;

/// Relies on scraper's `Html::parse_document`, `Selector::parse` and the
/// element text traversal: the concatenated text of the body elements,
/// computed from the markup alone.
#[verifier::external_body]
fn extract_text_from_html(html: &str) -> (r: String)
    ensures
        r@ == html_body_text_of(html@),
{
    let document = scraper::Html::parse_document(html);
    let selector = scraper::Selector::parse("body").ok();
    let mut text = String::new();
    if let Some(sel) = selector {
        for element in document.select(&sel) {
            text.push_str(&element.text().collect::<String>());
        }
    } else {
        for node in document.root_element().descendants() {
            if let Some(text_node) = node.value().as_text() {
                text.push_str(text_node);
            }
        }
    }
    text
}

/// What highlight insertion produces: the first occurrence, in the raw
/// HTML, of the normalized body text between the two offsets, wrapped in
/// the named tag; the HTML unchanged when the range is empty or out of
/// range or the text is not found.
pub open spec fn spec_insert_highlight(
    html: Seq<char>,
    start: int,
    end: int,
    tag: Seq<char>,
) -> Seq<char> {
    let norm = spec_normalize(html_body_text_of(html));
    if start >= end || norm.len() == 0 {
        html
    } else {
        let e = if end > norm.len() {
            norm.len() as int
        } else {
            end
        };
        if start >= norm.len() || e <= start {
            html
        } else {
            let hl = norm.subrange(start, e);
            match crate::strutil::spec_find_first(html, hl) {
                None => html,
                Some(p) => html.subrange(0, p) + seq!['<'] + tag + seq!['>'] + hl + seq!['<', '/']
                    + tag + seq!['>'] + html.subrange(p + hl.len(), html.len() as int),
            }
        }
    }
}

/// Inserts a highlight tag pair around the first occurrence, in the HTML,
/// of the normalized body text between `highlight_start` and
/// `highlight_end` (character offsets over the normalized text); the HTML
/// comes back unchanged when the range is empty or out of range or the
/// text cannot be located.
pub fn insert_html_highlight(
    html: String,
    highlight_start: u32,
    highlight_end: u32,
    tag_name: String,
) -> (r: String)
    ensures
        r@ == spec_insert_highlight(
            html@,
            highlight_start as int,
            highlight_end as int,
            tag_name@,
        ),
{
    if highlight_start >= highlight_end {
        return html;
    }
    let text = extract_text_from_html(html.as_str());
    let normalized = normalize_text(text.as_str());
    let norm_chars = string_to_chars(normalized.as_str());
    let nlen = norm_chars.len();
    if nlen == 0 {
        return html;
    }
    let start = highlight_start as usize;
    let e: usize = if (highlight_end as u64) > (nlen as u64) {
        nlen
    } else {
        highlight_end as usize
    };
    if start >= nlen || e <= start {
        return html;
    }
    let hl = crate::strutil::subvec(&norm_chars, start, e);
    let html_chars = string_to_chars(html.as_str());
    let found = crate::strutil::find_first(&html_chars, &hl);
    match found {
        None => html,
        Some(p) => {
            let tag_chars = string_to_chars(tag_name.as_str());
            let mut out = crate::strutil::subvec(&html_chars, 0, p);
            out.push('<');
            crate::strutil::push_all(&mut out, &tag_chars);
            out.push('>');
            crate::strutil::push_all(&mut out, &hl);
            out.push('<');
            out.push('/');
            crate::strutil::push_all(&mut out, &tag_chars);
            out.push('>');
            let hlen = html_chars.len();
            let hln = hl.len();
            proof {
                assert(p + hln <= hlen);
            }
            let rest = crate::strutil::subvec(&html_chars, p + hln, hlen);
            crate::strutil::push_all(&mut out, &rest);
            proof {
                assert(out@ =~= html@.subrange(0, p as int) + seq!['<'] + tag_name@ + seq!['>']
                    + hl@ + seq!['<', '/'] + tag_name@ + seq!['>'] + html@.subrange(
                    p + hl@.len(),
                    html@.len() as int,
                ));
            }
            chars_to_string(&out)
        },
    }
}

/// Summary line describing the highlight data of a text: word count,
/// sentence count, and the normalized text.
pub open spec fn spec_highlight_summary(t: Seq<char>) -> Seq<char> {
    let norm = spec_normalize(t);
    let nw: nat = if norm.len() == 0 {
        0
    } else {
        spec_word_spans(word_bounds_of(norm), 0).len()
    };
    let ns: nat = if norm.len() == 0 {
        0
    } else {
        spec_sentence_spans(sentence_bounds_of(norm), 0).len()
    };
    "Words: "@ + crate::strutil::spec_decimal(nw) + ", Sentences: "@
        + crate::strutil::spec_decimal(ns) + ", Normalized: '"@ + norm + "'"@
}

/// Exercises the segmentation pipeline on a fixed sample and reports the
/// resulting counts and normalized text.
pub fn test_tts_text_module() -> (r: String)
    ensures
        r@ == spec_highlight_summary("Hello world. This is a test."@),
{
    let test_text = "Hello world. This is a test.";
    proof {
        reveal_strlit("Hello world. This is a test.");
    }
    let data = precompute_text_highlights(String::from_str(test_text));
    let ghost norm = spec_normalize(test_text@);
    proof {
        if norm.len() > 0 {
            assert(data.words@.map_values(|w: WordSpan| w.model()).len() == spec_word_spans(
                word_bounds_of(norm),
                0,
            ).len());
            assert(data.sentences@.map_values(|s: SentenceSpan| (s.start as int, s.end as int)).len()
                == spec_sentence_spans(sentence_bounds_of(norm), 0).len());
        }
    }
    let wd = crate::strutil::u64_to_decimal(data.words.len() as u64);
    let sd = crate::strutil::u64_to_decimal(data.sentences.len() as u64);
    let mut out = String::new();
    out.append("Words: ");
    out.append(wd.as_str());
    out.append(", Sentences: ");
    out.append(sd.as_str());
    out.append(", Normalized: '");
    out.append(data.normalized_text.as_str());
    out.append("'");
    proof {
        assert(out@ =~= spec_highlight_summary("Hello world. This is a test."@));
    }
    out
}

} // verus!
