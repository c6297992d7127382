//! Page rendering support: the aspect-ratio-preserving fit of a source page
//! into a requested bounding box, and the result value handed back to the
//! caller. The caller must use the result's dimensions, not the request: the
//! fit may shrink either axis.
use vstd::prelude::*;

verus! {

/// Result of rendering one page: an encoded raster image and the actual
/// output dimensions.
#[derive(Debug, Clone)]
pub struct PdfPageRenderResult {
    pub data: Vec<u8>,
    pub width: u32,
    pub height: u32,
}

/// The largest width/height pair that fits inside `(max_w, max_h)` while
/// keeping the `src_w : src_h` aspect ratio, rounding down.
pub open spec fn spec_fit_within(src_w: int, src_h: int, max_w: int, max_h: int) -> (int, int) {
    if src_h * max_w <= src_w * max_h {
        (max_w, src_h * max_w / src_w)
    } else {
        (src_w * max_h / src_h, max_h)
    }
}

/// The fit never exceeds the requested box, and preserves the source aspect
/// ratio within one rounding step on the shrunken axis.
pub proof fn lemma_fit_within_aspect(src_w: int, src_h: int, max_w: int, max_h: int)
    requires
        src_w > 0,
        src_h > 0,
        max_w > 0,
        max_h > 0,
    ensures
        spec_fit_within(src_w, src_h, max_w, max_h).0 <= max_w,
        spec_fit_within(src_w, src_h, max_w, max_h).1 <= max_h,
        ({
            let w = spec_fit_within(src_w, src_h, max_w, max_h).0;
            let h = spec_fit_within(src_w, src_h, max_w, max_h).1;
            (h * src_w <= w * src_h && w * src_h < h * src_w + src_w) || (w * src_h <= h * src_w
                && h * src_w < w * src_h + src_h)
        }),
{
    if src_h * max_w <= src_w * max_h {
        let h = src_h * max_w / src_w;
        assert(h * src_w <= max_w * src_h && max_w * src_h < h * src_w + src_w && h <= max_h)
            by (nonlinear_arith)
            requires
                src_w > 0,
                src_h > 0,
                max_w > 0,
                max_h > 0,
                src_h * max_w <= src_w * max_h,
                h == src_h * max_w / src_w,
        ;
    } else {
        let w = src_w * max_h / src_h;
        assert(w * src_h <= max_h * src_w && max_h * src_w < w * src_h + src_h && w <= max_w)
            by (nonlinear_arith)
            requires
                src_w > 0,
                src_h > 0,
                max_w > 0,
                max_h > 0,
                src_h * max_w > src_w * max_h,
                w == src_w * max_h / src_h,
        ;
    }
}

/// Computes the aspect-preserving fit of a `src_w x src_h` page into the
/// requested `max_w x max_h` box.
pub fn fit_within(src_w: u32, src_h: u32, max_w: u32, max_h: u32) -> (r: (u32, u32))
    requires
        src_w > 0,
        src_h > 0,
        max_w > 0,
        max_h > 0,
    ensures
        r.0 == spec_fit_within(src_w as int, src_h as int, max_w as int, max_h as int).0,
        r.1 == spec_fit_within(src_w as int, src_h as int, max_w as int, max_h as int).1,
        r.0 <= max_w,
        r.1 <= max_h,
{
    proof {
        lemma_fit_within_aspect(src_w as int, src_h as int, max_w as int, max_h as int);
        assert(0 <= (src_h as int) * (max_w as int) <= 0xffff_ffff * 0xffff_ffff && 0 <= (
        src_w as int) * (max_h as int) <= 0xffff_ffff * 0xffff_ffff) by (nonlinear_arith)
            requires
                0 < src_h < 0x1_0000_0000,
                0 < max_w < 0x1_0000_0000,
                0 < src_w < 0x1_0000_0000,
                0 < max_h < 0x1_0000_0000,
        ;
    }
    let a: u64 = (src_h as u64) * (max_w as u64);
    let b: u64 = (src_w as u64) * (max_h as u64);
    if a <= b {
        let h: u64 = a / (src_w as u64);
        proof {
            assert(a / (src_w as u64) == (src_h as int) * (max_w as int) / (src_w as int) && (
            src_h as int) * (max_w as int) / (src_w as int) <= max_h) by (nonlinear_arith)
                requires
                    src_w > 0,
                    src_h > 0,
                    max_w > 0,
                    max_h > 0,
                    a == src_h * max_w,
                    b == src_w * max_h,
                    a <= b,
            ;
        }
        (max_w, h as u32)
    } else {
        let w: u64 = b / (src_h as u64);
        proof {
            assert(b / (src_h as u64) == (src_w as int) * (max_h as int) / (src_h as int) && (
            src_w as int) * (max_h as int) / (src_h as int) <= max_w) by (nonlinear_arith)
                requires
                    src_w > 0,
                    src_h > 0,
                    max_w > 0,
                    max_h > 0,
                    a == src_h * max_w,
                    b == src_w * max_h,
                    a > b,
            ;
        }
        (w as u32, max_h)
    }
}

} // verus!
