//! Geometry values and the mapping from content space (origin at the
//! bottom-left of a page, vertical axis growing upward) to normalized display
//! space (unit square, origin at the top-left, vertical axis growing
//! downward).
//!
//! Content-space lengths are integers in thousandths of a point; normalized
//! coordinates are integers in millionths of the unit interval, so `NORM_ONE`
//! stands for 1.0.
use vstd::prelude::*;

verus! {

/// Fixed-point representation of 1.0 in normalized coordinates.
pub const NORM_ONE: u32 = 1000000;

/// A rectangle in normalized top-left-origin coordinates. Every coordinate
/// lies in `[0, NORM_ONE]`; the all-zero rectangle is the "no geometry"
/// sentinel.
#[derive(Clone, Copy, Debug, PartialEq, Eq, Structural)]
pub struct NormalizedRect {
    pub left: u32,
    pub top: u32,
    pub right: u32,
    pub bottom: u32,
}

impl NormalizedRect {
    /// Coordinates ordered and inside the unit square.
    pub open spec fn wf(self) -> bool {
        self.left <= self.right <= NORM_ONE && self.top <= self.bottom <= NORM_ONE
    }

    /// The "no geometry" placeholder.
    pub open spec fn spec_zero() -> NormalizedRect {
        NormalizedRect { left: 0, top: 0, right: 0, bottom: 0 }
    }

    /// Builds the "no geometry" placeholder.
    pub fn zero() -> (r: NormalizedRect)
        ensures
            r == NormalizedRect::spec_zero(),
            r.wf(),
    {
        NormalizedRect { left: 0, top: 0, right: 0, bottom: 0 }
    }
}

/// A rectangle in content-space coordinates, exactly as the engine reports
/// character bounds: vertical axis growing upward.
#[derive(Clone, Copy, Debug, PartialEq, Eq, Structural)]
pub struct ContentRect {
    pub left: i64,
    pub top: i64,
    pub right: i64,
    pub bottom: i64,
}

/// A page's placement in content space: its origin corner and its extent.
#[derive(Clone, Copy, Debug, PartialEq, Eq, Structural)]
pub struct PageGeometry {
    pub left: i64,
    pub bottom: i64,
    pub width: i64,
    pub height: i64,
}

impl PageGeometry {
    /// A page over which geometry can be normalized at all.
    pub open spec fn valid(self) -> bool {
        self.width > 0 && self.height > 0
    }
}

/// Projection of one offset onto the unit interval: `delta / dim`, clamped to
/// `[0, NORM_ONE]`.
pub open spec fn spec_norm_coord(delta: int, dim: int) -> int {
    if delta <= 0 {
        0
    } else if delta >= dim {
        NORM_ONE as int
    } else {
        delta * (NORM_ONE as int) / dim
    }
}

proof fn lemma_norm_coord_in_range(delta: int, dim: int)
    requires
        dim > 0,
    ensures
        0 <= spec_norm_coord(delta, dim) <= NORM_ONE,
{
    if 0 < delta < dim {
        assert(0 <= delta * (NORM_ONE as int) / dim <= NORM_ONE) by (nonlinear_arith)
            requires
                0 < delta < dim,
        ;
    }
}

/// Computes `spec_norm_coord` on machine integers.
fn norm_coord(delta: i128, dim: i64) -> (r: u32)
    requires
        dim > 0,
    ensures
        r == spec_norm_coord(delta as int, dim as int),
        r <= NORM_ONE,
{
    proof {
        lemma_norm_coord_in_range(delta as int, dim as int);
    }
    if delta <= 0 {
        0
    } else if delta >= dim as i128 {
        NORM_ONE
    } else {
        assert(0 < delta < 0x8000_0000_0000_0000);
        let num: u128 = (delta as u128) * (NORM_ONE as u128);
        let den: u128 = dim as u128;
        let q: u128 = num / den;
        proof {
            assert(q == spec_norm_coord(delta as int, dim as int)) by (nonlinear_arith)
                requires
                    0 < delta < dim,
                    num == delta * (NORM_ONE as int),
                    den == dim,
                    q == num / den,
                    spec_norm_coord(delta as int, dim as int) == delta * (NORM_ONE as int) / (
                    dim as int),
            ;
            lemma_norm_coord_in_range(delta as int, dim as int);
        }
        q as u32
    }
}

/// The normalized form of a content-space rectangle on a page: each side is
/// projected onto the unit interval, the vertical axis is flipped, inverted
/// pairs are swapped, and every coordinate is clamped to `[0, NORM_ONE]`.
pub open spec fn spec_normalize_rect(g: PageGeometry, r: ContentRect) -> NormalizedRect {
    let nl = spec_norm_coord(r.left - g.left, g.width as int);
    let nr = spec_norm_coord(r.right - g.left, g.width as int);
    let nt = (NORM_ONE as int) - spec_norm_coord(r.top - g.bottom, g.height as int);
    let nb = (NORM_ONE as int) - spec_norm_coord(r.bottom - g.bottom, g.height as int);
    NormalizedRect {
        left: (if nl <= nr {
            nl
        } else {
            nr
        }) as u32,
        right: (if nl <= nr {
            nr
        } else {
            nl
        }) as u32,
        top: (if nt <= nb {
            nt
        } else {
            nb
        }) as u32,
        bottom: (if nt <= nb {
            nb
        } else {
            nt
        }) as u32,
    }
}

/// Every normalized rectangle has its coordinates ordered and inside the
/// unit square.
pub proof fn lemma_normalize_rect_wf(g: PageGeometry, r: ContentRect)
    requires
        g.valid(),
    ensures
        spec_normalize_rect(g, r).wf(),
{
    lemma_norm_coord_in_range(r.left - g.left, g.width as int);
    lemma_norm_coord_in_range(r.right - g.left, g.width as int);
    lemma_norm_coord_in_range(r.top - g.bottom, g.height as int);
    lemma_norm_coord_in_range(r.bottom - g.bottom, g.height as int);
}

/// Maps one content-space rectangle to normalized coordinates.
pub fn normalize_rect(g: &PageGeometry, r: &ContentRect) -> (res: NormalizedRect)
    requires
        g.valid(),
    ensures
        res == spec_normalize_rect(*g, *r),
        res.wf(),
{
    proof {
        lemma_normalize_rect_wf(*g, *r);
    }
    let nl = norm_coord((r.left as i128) - (g.left as i128), g.width);
    let nr = norm_coord((r.right as i128) - (g.left as i128), g.width);
    let nt = NORM_ONE - norm_coord((r.top as i128) - (g.bottom as i128), g.height);
    let nb = NORM_ONE - norm_coord((r.bottom as i128) - (g.bottom as i128), g.height);
    let (left, right) = if nl <= nr {
        (nl, nr)
    } else {
        (nr, nl)
    };
    let (top, bottom) = if nt <= nb {
        (nt, nb)
    } else {
        (nb, nt)
    };
    NormalizedRect { left, top, right, bottom }
}

} // verus!
