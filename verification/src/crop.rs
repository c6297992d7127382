//! Content-box detection for page cropping: scanning a rendered page's RGBA
//! pixels for the first and last rows and columns that carry ink, then
//! widening the box by a small padding.
use vstd::prelude::*;

verus! {

/// How near to full white a channel may be for the pixel to count as blank.
pub const WHITE_CUTOFF: u8 = 250;

/// Pixels of padding added around the detected content box.
pub const CROP_PADDING: u32 = 5;

/// The detected content box, in pixel coordinates of the scanned image.
#[derive(Debug, Clone, Copy, PartialEq, Eq, Structural)]
pub struct PixelBox {
    pub top: u32,
    pub bottom: u32,
    pub left: u32,
    pub right: u32,
}

/// Whether the pixel at `(x, y)` is white: red, green and blue all above
/// the cutoff.
pub open spec fn pixel_white(rgba: Seq<u8>, w: int, x: int, y: int) -> bool {
    let base = 4 * (y * w + x);
    rgba[base] > WHITE_CUTOFF && rgba[base + 1] > WHITE_CUTOFF && rgba[base + 2] > WHITE_CUTOFF
}

/// Whether row `y` holds any non-white pixel.
pub open spec fn row_has_ink(rgba: Seq<u8>, w: int, y: int) -> bool {
    exists|x: int| 0 <= x < w && !pixel_white(rgba, w, x, y)
}

/// Whether column `x` holds any non-white pixel between rows `top` and
/// `bottom`, both inclusive.
pub open spec fn col_has_ink(rgba: Seq<u8>, w: int, x: int, top: int, bottom: int) -> bool {
    exists|y: int| top <= y <= bottom && !pixel_white(rgba, w, x, y)
}

/// First row with ink, or 0 when the image is all white.
pub open spec fn spec_first_ink_row(rgba: Seq<u8>, w: int, h: int) -> int {
    if exists|y: int| 0 <= y < h && row_has_ink(rgba, w, y) {
        choose|y: int|
            0 <= y < h && row_has_ink(rgba, w, y) && forall|z: int|
                0 <= z < y ==> !row_has_ink(rgba, w, z)
    } else {
        0
    }
}

/// Last row with ink, or `h - 1` when the image is all white.
pub open spec fn spec_last_ink_row(rgba: Seq<u8>, w: int, h: int) -> int {
    if exists|y: int| 0 <= y < h && row_has_ink(rgba, w, y) {
        choose|y: int|
            0 <= y < h && row_has_ink(rgba, w, y) && forall|z: int|
                y < z < h ==> !row_has_ink(rgba, w, z)
    } else {
        h - 1
    }
}

/// First column with ink between the given rows, or 0 when there is none.
pub open spec fn spec_first_ink_col(rgba: Seq<u8>, w: int, top: int, bottom: int) -> int {
    if exists|x: int| 0 <= x < w && col_has_ink(rgba, w, x, top, bottom) {
        choose|x: int|
            0 <= x < w && col_has_ink(rgba, w, x, top, bottom) && forall|z: int|
                0 <= z < x ==> !col_has_ink(rgba, w, z, top, bottom)
    } else {
        0
    }
}

/// Last column with ink between the given rows, or `w - 1` when there is
/// none.
pub open spec fn spec_last_ink_col(rgba: Seq<u8>, w: int, top: int, bottom: int) -> int {
    if exists|x: int| 0 <= x < w && col_has_ink(rgba, w, x, top, bottom) {
        choose|x: int|
            0 <= x < w && col_has_ink(rgba, w, x, top, bottom) && forall|z: int|
                x < z < w ==> !col_has_ink(rgba, w, z, top, bottom)
    } else {
        w - 1
    }
}

/// The content box of the image after padding: the first/last ink rows and
/// columns, widened by `CROP_PADDING` and clamped to the image.
pub open spec fn spec_content_box(rgba: Seq<u8>, w: int, h: int) -> PixelBox {
    let t0 = spec_first_ink_row(rgba, w, h);
    let b0 = spec_last_ink_row(rgba, w, h);
    let l0 = spec_first_ink_col(rgba, w, t0, b0);
    let r0 = spec_last_ink_col(rgba, w, t0, b0);
    let pad = CROP_PADDING as int;
    PixelBox {
        top: (if t0 >= pad {
            t0 - pad
        } else {
            0
        }) as u32,
        bottom: (if b0 + pad <= h - 1 {
            b0 + pad
        } else {
            h - 1
        }) as u32,
        left: (if l0 >= pad {
            l0 - pad
        } else {
            0
        }) as u32,
        right: (if r0 + pad <= w - 1 {
            r0 + pad
        } else {
            w - 1
        }) as u32,
    }
}

fn pixel_white_exec(rgba: &Vec<u8>, w: u32, h: u32, x: u32, y: u32) -> (r: bool)
    requires
        x < w,
        y < h,
        rgba@.len() == 4 * (w as int) * (h as int),
    ensures
        r == pixel_white(rgba@, w as int, x as int, y as int),
{
    let n = rgba.len();
    proof {
        assert(0 <= (y as int) * (w as int) + (x as int) && 4 * ((y as int) * (w as int) + (
        x as int)) + 3 <= 4 * (w as int) * (h as int)) by (nonlinear_arith)
            requires
                0 <= x < w,
                0 <= y < h,
        ;
        assert(4 * ((y as int) * (w as int) + (x as int)) + 3 <= n);
    }
    let base: usize = 4 * ((y as usize) * (w as usize) + (x as usize));
    rgba[base] > WHITE_CUTOFF && rgba[base + 1] > WHITE_CUTOFF && rgba[base + 2] > WHITE_CUTOFF
}

fn row_has_ink_exec(rgba: &Vec<u8>, w: u32, h: u32, y: u32) -> (r: bool)
    requires
        y < h,
        rgba@.len() == 4 * (w as int) * (h as int),
    ensures
        r == row_has_ink(rgba@, w as int, y as int),
{
    let mut x: u32 = 0;
    while x < w
        invariant
            y < h,
            rgba@.len() == 4 * (w as int) * (h as int),
            x <= w,
            forall|z: int| 0 <= z < x ==> pixel_white(rgba@, w as int, z, y as int),
        decreases w - x,
    {
        if !pixel_white_exec(rgba, w, h, x, y) {
            return true;
        }
        x = x + 1;
    }
    false
}

fn col_has_ink_exec(rgba: &Vec<u8>, w: u32, h: u32, x: u32, top: u32, bottom: u32) -> (r: bool)
    requires
        x < w,
        bottom < h,
        rgba@.len() == 4 * (w as int) * (h as int),
    ensures
        r == col_has_ink(rgba@, w as int, x as int, top as int, bottom as int),
{
    if top > bottom {
        return false;
    }
    let mut y: u32 = top;
    while y <= bottom
        invariant
            x < w,
            bottom < h,
            rgba@.len() == 4 * (w as int) * (h as int),
            top <= y <= bottom + 1,
            forall|z: int| top <= z < y ==> pixel_white(rgba@, w as int, x as int, z),
        decreases bottom + 1 - y,
    {
        if !pixel_white_exec(rgba, w, h, x, y) {
            return true;
        }
        y = y + 1;
    }
    false
}

/// Scans a rendered page for its content box: the smallest row and column
/// band holding every non-white pixel, widened by the padding and clamped
/// to the image. An all-white image yields the whole image.
pub fn detect_content_box(width: u32, height: u32, rgba: &Vec<u8>) -> (r: PixelBox)
    requires
        width > 0,
        height > 0,
        rgba@.len() == 4 * (width as int) * (height as int),
    ensures
        r == spec_content_box(rgba@, width as int, height as int),
        r.top <= r.bottom < height,
        r.left <= r.right < width,
{
    let w = width;
    let h = height;
    let mut ty: u32 = 0;
    let mut found_top = false;
    loop
        invariant_except_break
            !found_top,
        invariant
            ty <= h,
            w == width && h == height && width > 0 && height > 0,
            rgba@.len() == 4 * (w as int) * (h as int),
            forall|z: int| 0 <= z < ty ==> !row_has_ink(rgba@, w as int, z),
        ensures
            found_top ==> ty < h && row_has_ink(rgba@, w as int, ty as int) && forall|z: int|
                0 <= z < ty ==> !row_has_ink(rgba@, w as int, z),
            !found_top ==> forall|z: int| 0 <= z < h ==> !row_has_ink(rgba@, w as int, z),
        decreases h - ty,
    {
        if ty == h {
            break ;
        }
        if row_has_ink_exec(rgba, w, h, ty) {
            found_top = true;
            break ;
        }
        ty = ty + 1;
    }
    let top0: u32 = if found_top {
        ty
    } else {
        0
    };
    proof {
        lemma_first_row(rgba@, w as int, h as int, top0 as int, found_top);
    }
    let mut by: u32 = h;
    let mut found_bot = false;
    loop
        invariant_except_break
            !found_bot,
            forall|z: int| by <= z < h ==> !row_has_ink(rgba@, w as int, z),
        invariant
            by <= h,
            w == width && h == height && width > 0 && height > 0,
            rgba@.len() == 4 * (w as int) * (h as int),
        ensures
            found_bot ==> by < h && row_has_ink(rgba@, w as int, by as int) && forall|z: int|
                by < z < h ==> !row_has_ink(rgba@, w as int, z),
            !found_bot ==> forall|z: int| 0 <= z < h ==> !row_has_ink(rgba@, w as int, z),
        decreases by,
    {
        if by == 0 {
            break ;
        }
        by = by - 1;
        if row_has_ink_exec(rgba, w, h, by) {
            found_bot = true;
            break ;
        }
    }
    let bot0: u32 = if found_bot {
        by
    } else {
        h - 1
    };
    proof {
        lemma_last_row(rgba@, w as int, h as int, bot0 as int, found_bot);
        assert(found_top == found_bot);
        if found_top {
            assert(top0 <= bot0);
        }
    }
    let mut lx: u32 = 0;
    let mut found_left = false;
    loop
        invariant_except_break
            !found_left,
        invariant
            lx <= w,
            w == width && h == height && width > 0 && height > 0,
            rgba@.len() == 4 * (w as int) * (h as int),
            bot0 < h,
            forall|z: int|
                0 <= z < lx ==> !col_has_ink(rgba@, w as int, z, top0 as int, bot0 as int),
        ensures
            found_left ==> lx < w && col_has_ink(rgba@, w as int, lx as int, top0 as int, bot0 as int)
                && forall|z: int|
                0 <= z < lx ==> !col_has_ink(rgba@, w as int, z, top0 as int, bot0 as int),
            !found_left ==> forall|z: int|
                0 <= z < w ==> !col_has_ink(rgba@, w as int, z, top0 as int, bot0 as int),
        decreases w - lx,
    {
        if lx == w {
            break ;
        }
        if col_has_ink_exec(rgba, w, h, lx, top0, bot0) {
            found_left = true;
            break ;
        }
        lx = lx + 1;
    }
    let left0: u32 = if found_left {
        lx
    } else {
        0
    };
    proof {
        lemma_first_col(rgba@, w as int, top0 as int, bot0 as int, left0 as int, found_left);
    }
    let mut rx: u32 = w;
    let mut found_right = false;
    loop
        invariant_except_break
            !found_right,
            forall|z: int|
                rx <= z < w ==> !col_has_ink(rgba@, w as int, z, top0 as int, bot0 as int),
        invariant
            rx <= w,
            w == width && h == height && width > 0 && height > 0,
            rgba@.len() == 4 * (w as int) * (h as int),
            bot0 < h,
        ensures
            found_right ==> rx < w && col_has_ink(
                rgba@,
                w as int,
                rx as int,
                top0 as int,
                bot0 as int,
            ) && forall|z: int|
                rx < z < w ==> !col_has_ink(rgba@, w as int, z, top0 as int, bot0 as int),
            !found_right ==> forall|z: int|
                0 <= z < w ==> !col_has_ink(rgba@, w as int, z, top0 as int, bot0 as int),
        decreases rx,
    {
        if rx == 0 {
            break ;
        }
        rx = rx - 1;
        if col_has_ink_exec(rgba, w, h, rx, top0, bot0) {
            found_right = true;
            break ;
        }
    }
    let right0: u32 = if found_right {
        rx
    } else {
        w - 1
    };
    proof {
        lemma_last_col(rgba@, w as int, top0 as int, bot0 as int, right0 as int, found_right);
        assert(found_left == found_right);
        if found_left {
            assert(left0 <= right0);
        }
    }
    let pad = CROP_PADDING;
    let top = if top0 >= pad {
        top0 - pad
    } else {
        0
    };
    let bottom = if bot0 <= h - 1 && h - 1 - bot0 >= pad {
        bot0 + pad
    } else {
        h - 1
    };
    let left = if left0 >= pad {
        left0 - pad
    } else {
        0
    };
    let right = if right0 <= w - 1 && w - 1 - right0 >= pad {
        right0 + pad
    } else {
        w - 1
    };
    PixelBox { top, bottom, left, right }
}

proof fn lemma_first_row(rgba: Seq<u8>, w: int, h: int, t: int, found: bool)
    requires
        found ==> 0 <= t < h && row_has_ink(rgba, w, t) && forall|z: int|
            0 <= z < t ==> !row_has_ink(rgba, w, z),
        !found ==> t == 0 && forall|z: int| 0 <= z < h ==> !row_has_ink(rgba, w, z),
    ensures
        t == spec_first_ink_row(rgba, w, h),
{
    if found {
        let c = spec_first_ink_row(rgba, w, h);
        assert(0 <= c < h && row_has_ink(rgba, w, c) && forall|z: int|
            0 <= z < c ==> !row_has_ink(rgba, w, z));
        if c < t {
            assert(!row_has_ink(rgba, w, c));
        }
        if t < c {
            assert(!row_has_ink(rgba, w, t));
        }
    } else {
        if exists|y: int| 0 <= y < h && row_has_ink(rgba, w, y) {
            let y = choose|y: int| 0 <= y < h && row_has_ink(rgba, w, y);
            assert(!row_has_ink(rgba, w, y));
        }
    }
}

proof fn lemma_last_row(rgba: Seq<u8>, w: int, h: int, b: int, found: bool)
    requires
        h > 0,
        found ==> 0 <= b < h && row_has_ink(rgba, w, b) && forall|z: int|
            b < z < h ==> !row_has_ink(rgba, w, z),
        !found ==> b == h - 1 && forall|z: int| 0 <= z < h ==> !row_has_ink(rgba, w, z),
    ensures
        b == spec_last_ink_row(rgba, w, h),
{
    if found {
        let c = spec_last_ink_row(rgba, w, h);
        assert(0 <= c < h && row_has_ink(rgba, w, c) && forall|z: int|
            c < z < h ==> !row_has_ink(rgba, w, z));
        if c < b {
            assert(!row_has_ink(rgba, w, b));
        }
        if b < c {
            assert(!row_has_ink(rgba, w, c));
        }
    } else {
        if exists|y: int| 0 <= y < h && row_has_ink(rgba, w, y) {
            let y = choose|y: int| 0 <= y < h && row_has_ink(rgba, w, y);
            assert(!row_has_ink(rgba, w, y));
        }
    }
}

proof fn lemma_first_col(rgba: Seq<u8>, w: int, top: int, bottom: int, l: int, found: bool)
    requires
        found ==> 0 <= l < w && col_has_ink(rgba, w, l, top, bottom) && forall|z: int|
            0 <= z < l ==> !col_has_ink(rgba, w, z, top, bottom),
        !found ==> l == 0 && forall|z: int| 0 <= z < w ==> !col_has_ink(rgba, w, z, top, bottom),
    ensures
        l == spec_first_ink_col(rgba, w, top, bottom),
{
    if found {
        let c = spec_first_ink_col(rgba, w, top, bottom);
        assert(0 <= c < w && col_has_ink(rgba, w, c, top, bottom) && forall|z: int|
            0 <= z < c ==> !col_has_ink(rgba, w, z, top, bottom));
        if c < l {
            assert(!col_has_ink(rgba, w, c, top, bottom));
        }
        if l < c {
            assert(!col_has_ink(rgba, w, l, top, bottom));
        }
    } else {
        if exists|x: int| 0 <= x < w && col_has_ink(rgba, w, x, top, bottom) {
            let x = choose|x: int| 0 <= x < w && col_has_ink(rgba, w, x, top, bottom);
            assert(!col_has_ink(rgba, w, x, top, bottom));
        }
    }
}

proof fn lemma_last_col(rgba: Seq<u8>, w: int, top: int, bottom: int, rr: int, found: bool)
    requires
        w > 0,
        found ==> 0 <= rr < w && col_has_ink(rgba, w, rr, top, bottom) && forall|z: int|
            rr < z < w ==> !col_has_ink(rgba, w, z, top, bottom),
        !found ==> rr == w - 1 && forall|z: int|
            0 <= z < w ==> !col_has_ink(rgba, w, z, top, bottom),
    ensures
        rr == spec_last_ink_col(rgba, w, top, bottom),
{
    if found {
        let c = spec_last_ink_col(rgba, w, top, bottom);
        assert(0 <= c < w && col_has_ink(rgba, w, c, top, bottom) && forall|z: int|
            c < z < w ==> !col_has_ink(rgba, w, z, top, bottom));
        if c < rr {
            assert(!col_has_ink(rgba, w, rr, top, bottom));
        }
        if rr < c {
            assert(!col_has_ink(rgba, w, c, top, bottom));
        }
    } else {
        if exists|x: int| 0 <= x < w && col_has_ink(rgba, w, x, top, bottom) {
            let x = choose|x: int| 0 <= x < w && col_has_ink(rgba, w, x, top, bottom);
            assert(!col_has_ink(rgba, w, x, top, bottom));
        }
    }
}

} // verus!
