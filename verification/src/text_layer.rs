//! The model of a page's text layer — one entry per character slot, with the
//! character's code point and content-space bounds where the engine reports
//! them — and the queries the reader makes against it: full text, range
//! rectangles, index-aligned rectangles, and nearest-point text lookup.
use crate::geometry::{
    spec_normalize_rect, ContentRect, NormalizedRect, PageGeometry, normalize_rect,
};
use crate::strutil::{chars_to_string, is_ws, is_ws_char};
use vstd::prelude::*;

verus! {

/// One character slot of a page's text layer. `code` is `None` for slots
/// without a Unicode representation; `bounds` is `None` where the engine
/// reports no usable geometry.
#[derive(Clone, Copy, Debug)]
pub struct PageChar {
    pub code: Option<char>,
    pub bounds: Option<ContentRect>,
}

/// A character slot whose rectangle is reported by the bounds queries:
/// it has a code point, the code point is not white space, and the engine
/// gave it geometry.
pub open spec fn char_kept(c: PageChar) -> bool {
    c.code is Some && !is_ws_char(c.code->0) && c.bounds is Some
}

/// The normalized rectangle of a kept character slot.
pub open spec fn rect_for(g: PageGeometry, c: PageChar) -> NormalizedRect {
    spec_normalize_rect(g, c.bounds->0)
}

/// The index-aligned rectangle sequence of a whole page: one entry per
/// character slot, the zero placeholder where no rectangle is computed.
pub open spec fn spec_all_bounds(g: PageGeometry, chars: Seq<PageChar>) -> Seq<NormalizedRect> {
    Seq::new(
        chars.len(),
        |i: int|
            if g.valid() && char_kept(chars[i]) {
                rect_for(g, chars[i])
            } else {
                NormalizedRect::spec_zero()
            },
    )
}

/// The rectangles of the kept character slots with indices in `[i, e)`, in
/// index order.
pub open spec fn spec_bounds_in_range(
    g: PageGeometry,
    chars: Seq<PageChar>,
    i: int,
    e: int,
) -> Seq<NormalizedRect>
    decreases e - i,
{
    if i >= e {
        Seq::empty()
    } else {
        let rest = spec_bounds_in_range(g, chars, i + 1, e);
        if char_kept(chars[i]) {
            seq![rect_for(g, chars[i])] + rest
        } else {
            rest
        }
    }
}

/// The indices of the kept character slots in `[i, e)`, in order.
pub open spec fn spec_kept_indices(
    g: PageGeometry,
    chars: Seq<PageChar>,
    i: int,
    e: int,
) -> Seq<int>
    decreases e - i,
{
    if i >= e {
        Seq::empty()
    } else {
        let rest = spec_kept_indices(g, chars, i + 1, e);
        if char_kept(chars[i]) {
            seq![i] + rest
        } else {
            rest
        }
    }
}

/// End of the effective range for a bounds query over `[s, e)`.
pub open spec fn clip_end(chars: Seq<PageChar>, e: int) -> int {
    if e <= chars.len() {
        e
    } else {
        chars.len() as int
    }
}

/// What the range extraction returns for `[s, e)`: empty for an inverted or
/// out-of-range request or a degenerate page, else the kept rectangles of
/// the clipped range.
pub open spec fn spec_text_bounds(
    g: PageGeometry,
    chars: Seq<PageChar>,
    s: int,
    e: int,
) -> Seq<NormalizedRect> {
    if !g.valid() || s >= e || s >= chars.len() {
        Seq::empty()
    } else {
        spec_bounds_in_range(g, chars, s, clip_end(chars, e))
    }
}

proof fn lemma_bounds_snoc(g: PageGeometry, chars: Seq<PageChar>, s: int, i: int)
    requires
        s <= i,
    ensures
        spec_bounds_in_range(g, chars, s, i + 1) =~= spec_bounds_in_range(g, chars, s, i) + (
        if char_kept(chars[i]) {
            seq![rect_for(g, chars[i])]
        } else {
            Seq::<NormalizedRect>::empty()
        }),
        spec_kept_indices(g, chars, s, i + 1) =~= spec_kept_indices(g, chars, s, i) + (
        if char_kept(chars[i]) {
            seq![i]
        } else {
            Seq::<int>::empty()
        }),
    decreases i - s,
{
    if s < i {
        lemma_bounds_snoc(g, chars, s + 1, i);
    } else {
        assert(spec_bounds_in_range(g, chars, i + 1, i + 1) =~= Seq::<NormalizedRect>::empty());
        assert(spec_kept_indices(g, chars, i + 1, i + 1) =~= Seq::<int>::empty());
    }
}

proof fn lemma_range_indices(g: PageGeometry, chars: Seq<PageChar>, s: int, e: int)
    ensures
        spec_bounds_in_range(g, chars, s, e).len() == spec_kept_indices(g, chars, s, e).len(),
        forall|j: int|
            0 <= j < spec_kept_indices(g, chars, s, e).len() ==> {
                let k = #[trigger] spec_kept_indices(g, chars, s, e)[j];
                s <= k < e && char_kept(chars[k]) && spec_bounds_in_range(g, chars, s, e)[j]
                    == rect_for(g, chars[k])
            },
    decreases e - s,
{
    if s < e {
        lemma_range_indices(g, chars, s + 1, e);
    }
}

/// The two extraction operations agree: the full, index-aligned extraction
/// has one entry per character slot, and the `j`-th rectangle of a range
/// extraction equals the full extraction's entry at the `j`-th kept index of
/// that range.
pub proof fn lemma_extractions_agree(g: PageGeometry, chars: Seq<PageChar>, s: int, e: int)
    requires
        0 <= s,
    ensures
        spec_all_bounds(g, chars).len() == chars.len(),
        spec_text_bounds(g, chars, s, e).len() <= spec_kept_indices(
            g,
            chars,
            s,
            clip_end(chars, e),
        ).len(),
        forall|j: int|
            0 <= j < spec_text_bounds(g, chars, s, e).len() ==> {
                let k = #[trigger] spec_kept_indices(g, chars, s, clip_end(chars, e))[j];
                0 <= k < chars.len() && char_kept(chars[k]) && spec_text_bounds(g, chars, s, e)[j]
                    == spec_all_bounds(g, chars)[k]
            },
{
    if g.valid() && s < e && s < chars.len() {
        lemma_range_indices(g, chars, s, clip_end(chars, e));
    }
}

/// Extracts the rectangles of the kept characters in `[start, end)`,
/// skipping slots that are white space, code-less, or geometry-less; an
/// inverted or out-of-range request yields an empty list, never an error.
pub fn extract_text_bounds(
    chars: &Vec<PageChar>,
    g: &PageGeometry,
    start: u32,
    end: u32,
) -> (r: Vec<NormalizedRect>)
    ensures
        r@ == spec_text_bounds(*g, chars@, start as int, end as int),
        start >= end || start as int >= chars@.len() ==> r@.len() == 0,
        forall|j: int| 0 <= j < r@.len() ==> r@[j].wf(),
{
    let n = chars.len();
    let mut out: Vec<NormalizedRect> = Vec::new();
    if n == 0 {
        return out;
    }
    if !(g.width > 0 && g.height > 0) {
        return out;
    }
    if start >= end || start as usize >= n {
        return out;
    }
    let s = start as usize;
    let e: usize = if (end as u64) > (n as u64) {
        n
    } else {
        end as usize
    };
    let mut i: usize = s;
    while i < e
        invariant
            n == chars@.len(),
            g.valid(),
            s < e <= n,
            s <= i <= e,
            e == clip_end(chars@, end as int),
            out@ =~= spec_bounds_in_range(*g, chars@, s as int, i as int),
            forall|j: int| 0 <= j < out@.len() ==> out@[j].wf(),
        decreases e - i,
    {
        let c = chars[i];
        let keep = match (c.code, c.bounds) {
            (Some(ch), Some(_)) => !is_ws(ch),
            _ => false,
        };
        if keep {
            let b = c.bounds.unwrap();
            out.push(normalize_rect(g, &b));
        }
        proof {
            lemma_bounds_snoc(*g, chars@, s as int, i as int);
        }
        i = i + 1;
    }
    out
}

/// Extracts an index-aligned rectangle for every character slot of the
/// page: the zero placeholder stands in for slots that are white space,
/// code-less, or geometry-less, so the result always has one entry per
/// character slot.
pub fn extract_all_character_bounds(chars: &Vec<PageChar>, g: &PageGeometry) -> (r: Vec<
    NormalizedRect,
>)
    ensures
        r@ == spec_all_bounds(*g, chars@),
        r@.len() == chars@.len(),
        forall|j: int| 0 <= j < r@.len() ==> r@[j].wf(),
{
    let n = chars.len();
    let valid = g.width > 0 && g.height > 0;
    let mut out: Vec<NormalizedRect> = Vec::new();
    let mut i: usize = 0;
    while i < n
        invariant
            n == chars@.len(),
            valid == g.valid(),
            i <= n,
            out@.len() == i,
            forall|j: int| 0 <= j < i ==> out@[j] == spec_all_bounds(*g, chars@)[j],
            forall|j: int| 0 <= j < out@.len() ==> out@[j].wf(),
        decreases n - i,
    {
        let c = chars[i];
        let keep = valid && match (c.code, c.bounds) {
            (Some(ch), Some(_)) => !is_ws(ch),
            _ => false,
        };
        if keep {
            let b = c.bounds.unwrap();
            out.push(normalize_rect(g, &b));
        } else {
            out.push(NormalizedRect::zero());
        }
        i = i + 1;
    }
    proof {
        assert(out@ =~= spec_all_bounds(*g, chars@));
    }
    out
}

/// The code points of the slots from `i` on that have one, in order.
pub open spec fn spec_codes_from(chars: Seq<PageChar>, i: int) -> Seq<char>
    decreases chars.len() - i,
{
    if i < 0 || i >= chars.len() {
        Seq::empty()
    } else {
        let rest = spec_codes_from(chars, i + 1);
        if chars[i].code is Some {
            seq![chars[i].code->0] + rest
        } else {
            rest
        }
    }
}

fn collect_codes_from(chars: &Vec<PageChar>, start: usize) -> (r: Vec<char>)
    ensures
        r@ == spec_codes_from(chars@, start as int),
{
    let n = chars.len();
    let mut out: Vec<char> = Vec::new();
    let mut i: usize = if start > n {
        n
    } else {
        start
    };
    proof {
        if start as int >= n {
            assert(spec_codes_from(chars@, start as int) =~= spec_codes_from(chars@, i as int));
        }
    }
    while i < n
        invariant
            n == chars@.len(),
            i <= n,
            spec_codes_from(chars@, start as int) =~= out@ + spec_codes_from(chars@, i as int),
        decreases n - i,
    {
        let c = chars[i];
        match c.code {
            Some(ch) => out.push(ch),
            None => {},
        }
        i = i + 1;
    }
    out
}

/// The full text of the page in engine reading order; empty when the page
/// has no text layer.
pub fn page_text(chars: &Vec<PageChar>) -> (r: String)
    ensures
        r@ == spec_codes_from(chars@, 0),
{
    let v = collect_codes_from(chars, 0);
    chars_to_string(&v)
}

/// Where the backward word-boundary snap from `idx` lands with `budget`
/// steps left: it walks back over characters that have a non-white-space
/// code point and stops at a boundary or when the budget runs out.
pub open spec fn spec_snap(chars: Seq<PageChar>, idx: int, budget: int) -> int
    decreases budget,
{
    if budget <= 0 || idx <= 0 {
        idx
    } else {
        let p = chars[idx - 1];
        if p.code is Some && !is_ws_char(p.code->0) {
            spec_snap(chars, idx - 1, budget - 1)
        } else {
            idx
        }
    }
}

/// The number of backward steps the word-boundary snap may take.
pub const SNAP_LOOKBACK: u32 = 32;

/// Snaps a picked character index back to the nearest preceding word
/// boundary, looking back at most `SNAP_LOOKBACK` characters; an index past
/// the last slot is first pulled onto it.
pub fn snap_to_word_start(chars: &Vec<PageChar>, picked: usize) -> (r: usize)
    requires
        chars@.len() > 0,
    ensures
        r == spec_snap(
            chars@,
            if picked < chars@.len() {
                picked as int
            } else {
                chars@.len() - 1
            },
            SNAP_LOOKBACK as int,
        ),
        r < chars@.len(),
{
    let n = chars.len();
    let mut start: usize = if picked < n {
        picked
    } else {
        n - 1
    };
    let ghost start0: int = start as int;
    let mut budget: u32 = SNAP_LOOKBACK;
    loop
        invariant
            n == chars@.len(),
            start < n,
            budget <= SNAP_LOOKBACK,
            spec_snap(chars@, start0, SNAP_LOOKBACK as int) == spec_snap(
                chars@,
                start as int,
                budget as int,
            ),
        ensures
            spec_snap(chars@, start0, SNAP_LOOKBACK as int) == start,
            start < n,
        decreases budget,
    {
        if budget == 0 || start == 0 {
            break ;
        }
        let p = chars[start - 1];
        let walk = match p.code {
            Some(c) => !is_ws(c),
            None => false,
        };
        if !walk {
            break ;
        }
        start = start - 1;
        budget = budget - 1;
    }
    start
}

/// The escalating tolerance schedule for the nearest-character search, in
/// thousandths of a point: it starts at six points and doubles on each of
/// the bounded retries.
pub fn point_tolerances() -> (r: Vec<i64>)
    ensures
        r@ =~= seq![6000i64, 12000i64, 24000i64, 48000i64],
{
    let mut v: Vec<i64> = Vec::new();
    v.push(6000);
    v.push(12000);
    v.push(24000);
    v.push(48000);
    v
}

/// Content-space point for a normalized top-left-origin point, after
/// clamping the normalized coordinates to the unit square.
pub open spec fn spec_point_to_content(g: PageGeometry, x_norm: i64, y_norm: i64) -> (int, int) {
    let xc = if x_norm < 0 {
        0
    } else if x_norm > crate::geometry::NORM_ONE as int {
        crate::geometry::NORM_ONE as int
    } else {
        x_norm as int
    };
    let yc = if y_norm < 0 {
        0
    } else if y_norm > crate::geometry::NORM_ONE as int {
        crate::geometry::NORM_ONE as int
    } else {
        y_norm as int
    };
    let x = g.left + g.width * xc / (crate::geometry::NORM_ONE as int);
    let y = (g.bottom + g.height) - g.height * yc / (crate::geometry::NORM_ONE as int);
    (x, y)
}

/// Maps a normalized top-left-origin point onto the page in content space.
pub fn point_to_content(g: &PageGeometry, x_norm: i64, y_norm: i64) -> (r: (i64, i64))
    requires
        g.valid(),
        g.left + g.width <= i64::MAX,
        g.bottom + g.height <= i64::MAX,
    ensures
        r.0 == spec_point_to_content(*g, x_norm, y_norm).0,
        r.1 == spec_point_to_content(*g, x_norm, y_norm).1,
        g.left <= r.0 <= g.left + g.width,
        g.bottom <= r.1 <= g.bottom + g.height,
{
    let xc: i64 = if x_norm < 0 {
        0
    } else if x_norm > crate::geometry::NORM_ONE as i64 {
        crate::geometry::NORM_ONE as i64
    } else {
        x_norm
    };
    let yc: i64 = if y_norm < 0 {
        0
    } else if y_norm > crate::geometry::NORM_ONE as i64 {
        crate::geometry::NORM_ONE as i64
    } else {
        y_norm
    };
    proof {
        assert(0 <= (g.width as int) * (xc as int) <= 0x7fff_ffff_ffff_ffff * 1000000)
            by (nonlinear_arith)
            requires
                0 < g.width <= 0x7fff_ffff_ffff_ffff,
                0 <= xc <= 1000000,
        ;
        assert(0 <= (g.height as int) * (yc as int) <= 0x7fff_ffff_ffff_ffff * 1000000)
            by (nonlinear_arith)
            requires
                0 < g.height <= 0x7fff_ffff_ffff_ffff,
                0 <= yc <= 1000000,
        ;
    }
    let sx: u128 = (g.width as u128) * (xc as u128) / (crate::geometry::NORM_ONE as u128);
    let sy: u128 = (g.height as u128) * (yc as u128) / (crate::geometry::NORM_ONE as u128);
    proof {
        assert(sx == g.width * (xc as int) / (crate::geometry::NORM_ONE as int) && 0 <= sx
            <= g.width) by (nonlinear_arith)
            requires
                g.width > 0,
                0 <= xc <= crate::geometry::NORM_ONE,
                sx == g.width * (xc as int) / (crate::geometry::NORM_ONE as int),
        ;
        assert(sy == g.height * (yc as int) / (crate::geometry::NORM_ONE as int) && 0 <= sy
            <= g.height) by (nonlinear_arith)
            requires
                g.height > 0,
                0 <= yc <= crate::geometry::NORM_ONE,
                sy == g.height * (yc as int) / (crate::geometry::NORM_ONE as int),
        ;
    }
    let x: i64 = g.left + (sx as i64);
    let y: i64 = (g.bottom + g.height) - (sy as i64);
    (x, y)
}

/// What the nearest-point text lookup returns once the engine has answered:
/// nothing without a pick or a text layer, else the page text from the
/// snapped word boundary on.
pub open spec fn spec_text_near_point(chars: Seq<PageChar>, picked: Option<usize>) -> Seq<char> {
    match picked {
        None => Seq::empty(),
        Some(p) => {
            if chars.len() == 0 {
                Seq::empty()
            } else {
                let idx = if (p as int) < chars.len() {
                    p as int
                } else {
                    chars.len() - 1
                };
                spec_codes_from(chars, spec_snap(chars, idx, SNAP_LOOKBACK as int))
            }
        },
    }
}

/// Text for a nearest-point query, given the engine's picked character
/// index (or `None` after all tolerance retries missed): the page text from
/// the picked character, snapped back to a word boundary.
pub fn text_near_point_result(chars: &Vec<PageChar>, picked: Option<usize>) -> (r: String)
    ensures
        r@ == spec_text_near_point(chars@, picked),
{
    match picked {
        None => String::new(),
        Some(p) => {
            if chars.len() == 0 {
                String::new()
            } else {
                let start = snap_to_word_start(chars, p);
                let v = collect_codes_from(chars, start);
                chars_to_string(&v)
            }
        },
    }
}

} // verus!
