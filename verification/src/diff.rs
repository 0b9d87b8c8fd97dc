//! Pixel diff of two screenshots. Decoding, saving and the percentage
//! (a float) happen outside the library; this is the per-pixel comparison.

use vstd::prelude::*;
use vstd::arithmetic::div_mod::{
    lemma_fundamental_div_mod,
    lemma_fundamental_div_mod_converse_div,
    lemma_fundamental_div_mod_converse_mod,
    lemma_mod_pos_bound,
};

verus! {

/// One RGBA pixel, 8 bits per channel.
#[derive(PartialEq, Eq, Structural, Clone, Copy, Debug)]
pub struct Rgba {
    pub r: u8,
    pub g: u8,
    pub b: u8,
    pub a: u8,
}

/// An RGBA image, its pixels row by row.
pub struct RgbaImage {
    pub width: u32,
    pub height: u32,
    pub pixels: Vec<Rgba>,
}

impl RgbaImage {
    /// The image holds exactly `width * height` pixels.
    pub open spec fn wf(&self) -> bool {
        self.pixels@.len() == self.width * self.height
    }

    /// The pixel in column `x` and row `y`.
    pub open spec fn pixel(&self, x: int, y: int) -> Rgba {
        self.pixels@[y * self.width + x]
    }
}

/// The colour that marks a differing pixel.
pub open spec fn marker() -> Rgba {
    Rgba { r: 255, g: 0, b: 0, a: 255 }
}

/// `v`, or `last` when `v` is past it.
pub open spec fn clamp_to(v: int, last: int) -> int {
    if v <= last {
        v
    } else {
        last
    }
}

/// The larger of two dimensions.
pub open spec fn max_u32(a: u32, b: u32) -> u32 {
    if a >= b {
        a
    } else {
        b
    }
}

/// The pixel of `img` compared at `(x, y)` of the diff: the nearest one
/// inside `img` (coordinates past its edge are held at the edge).
pub open spec fn clamped_pixel(img: RgbaImage, x: int, y: int) -> Rgba {
    img.pixel(clamp_to(x, img.width - 1), clamp_to(y, img.height - 1))
}

/// Width of the diff of `a` and `b`.
pub open spec fn diff_width(a: RgbaImage, b: RgbaImage) -> u32 {
    max_u32(a.width, b.width)
}

/// Height of the diff of `a` and `b`.
pub open spec fn diff_height(a: RgbaImage, b: RgbaImage) -> u32 {
    max_u32(a.height, b.height)
}

/// The two pixels compared at position `k` (row by row) of the diff.
pub open spec fn compared(a: RgbaImage, b: RgbaImage, k: int) -> (Rgba, Rgba) {
    let w = diff_width(a, b) as int;
    (clamped_pixel(a, k % w, k / w), clamped_pixel(b, k % w, k / w))
}

/// Pixel `k` of the diff image: the marker where the two differ, else the pixel.
pub open spec fn diff_pixel(a: RgbaImage, b: RgbaImage, k: int) -> Rgba {
    let (p, q) = compared(a, b, k);
    if p != q {
        marker()
    } else {
        p
    }
}

/// How many of the first `n` positions of the diff differ.
pub open spec fn diff_count(a: RgbaImage, b: RgbaImage, n: nat) -> nat
    decreases n,
{
    if n == 0 {
        0
    } else {
        diff_count(a, b, (n - 1) as nat) + if compared(a, b, n - 1).0 != compared(a, b, n - 1).1 {
            1nat
        } else {
            0nat
        }
    }
}

/// The inputs on which the diff is defined: its pixel count fits in `u32`,
/// and when it is not empty both images are.
pub open spec fn diffable(a: RgbaImage, b: RgbaImage) -> bool {
    &&& a.wf()
    &&& b.wf()
    &&& diff_width(a, b) * diff_height(a, b) <= u32::MAX
    &&& diff_width(a, b) > 0 && diff_height(a, b) > 0 ==> a.width > 0 && a.height > 0 && b.width
        > 0 && b.height > 0
}

/// The outcome of a pixel diff.
pub struct PixelDiff {
    /// The diff image: differing pixels marked, the others from the reference.
    pub image: RgbaImage,
    /// Pixels that differ.
    pub diff_pixels: u64,
    /// Pixels compared.
    pub total_pixels: u64,
}

fn pixel_at(img: &RgbaImage, x: u32, y: u32) -> (r: Rgba)
    requires
        img.wf(),
        x < img.width,
        y < img.height,
    ensures
        r == img.pixel(x as int, y as int),
{
    let w = img.width as usize;
    assert(img.pixels.len() == img.pixels@.len());
    assert(y * img.width + x < img.width * img.height && y * img.width <= y * img.width + x)
        by (nonlinear_arith)
        requires
            x < img.width,
            y < img.height,
    ;
    let k = (y as usize) * w + (x as usize);
    img.pixels[k]
}

/// Compares `reference` and `comparison` pixel by pixel over the larger of
/// their widths and heights, each image held at its edge where it is
/// smaller, as [`diff_pixel`] and [`diff_count`] state it.
pub fn pixel_diff(reference: &RgbaImage, comparison: &RgbaImage) -> (r: PixelDiff)
    requires
        diffable(*reference, *comparison),
    ensures
        r.image.width == diff_width(*reference, *comparison),
        r.image.height == diff_height(*reference, *comparison),
        r.image.wf(),
        forall|k: int|
            0 <= k < r.image.pixels@.len() ==> #[trigger] r.image.pixels@[k] == diff_pixel(
                *reference,
                *comparison,
                k,
            ),
        r.total_pixels == diff_width(*reference, *comparison) * diff_height(
            *reference,
            *comparison,
        ),
        r.diff_pixels == diff_count(*reference, *comparison, r.total_pixels as nat),
        r.diff_pixels <= r.total_pixels,
{
    let rw = reference.width;
    let rh = reference.height;
    let cw = comparison.width;
    let ch = comparison.height;
    let w = if rw >= cw {
        rw
    } else {
        cw
    };
    let h = if rh >= ch {
        rh
    } else {
        ch
    };
    let ghost a = *reference;
    let ghost b = *comparison;
    let mut pixels: Vec<Rgba> = Vec::new();
    let mut diff_pixels: u64 = 0;
    let mut y: u32 = 0;
    while y < h
        invariant
            a == *reference,
            b == *comparison,
            rw == a.width && rh == a.height && cw == b.width && ch == b.height,
            diffable(a, b),
            w == diff_width(a, b),
            h == diff_height(a, b),
            y <= h,
            pixels@.len() == y * w,
            forall|k: int| 0 <= k < pixels@.len() ==> #[trigger] pixels@[k] == diff_pixel(a, b, k),
            diff_pixels == diff_count(a, b, pixels@.len() as nat),
            diff_pixels <= pixels@.len(),
        decreases h - y,
    {
        let mut x: u32 = 0;
        while x < w
            invariant
                a == *reference,
                b == *comparison,
                rw == a.width && rh == a.height && cw == b.width && ch == b.height,
                diffable(a, b),
                w == diff_width(a, b),
                h == diff_height(a, b),
                y < h,
                x <= w,
                pixels@.len() == y * w + x,
                forall|k: int|
                    0 <= k < pixels@.len() ==> #[trigger] pixels@[k] == diff_pixel(a, b, k),
                diff_pixels == diff_count(a, b, pixels@.len() as nat),
                diff_pixels <= pixels@.len(),
            decreases w - x,
        {
            let ghost k = pixels@.len() as int;
            proof {
                lemma_fundamental_div_mod_converse_div(k, w as int, y as int, x as int);
                lemma_fundamental_div_mod_converse_mod(k, w as int, y as int, x as int);
                assert(y * w + x < w * h) by (nonlinear_arith)
                    requires
                        x < w,
                        y < h,
                ;
            }
            assert(w > 0 && h > 0);
            assert(rw > 0 && rh > 0 && cw > 0 && ch > 0);
            let rx = if x <= rw - 1 {
                x
            } else {
                rw - 1
            };
            let ry = if y <= rh - 1 {
                y
            } else {
                rh - 1
            };
            let cx = if x <= cw - 1 {
                x
            } else {
                cw - 1
            };
            let cy = if y <= ch - 1 {
                y
            } else {
                ch - 1
            };
            let p = pixel_at(reference, rx, ry);
            let q = pixel_at(comparison, cx, cy);
            if p != q {
                diff_pixels = diff_pixels + 1;
                pixels.push(Rgba { r: 255, g: 0, b: 0, a: 255 });
            } else {
                pixels.push(p);
            }
            x = x + 1;
        }
        proof {
            assert(y * w + w == (y + 1) * w) by (nonlinear_arith);
        }
        y = y + 1;
    }
    assert(h * w == w * h) by (nonlinear_arith);
    let total = (w as u64) * (h as u64);
    PixelDiff { image: RgbaImage { width: w, height: h, pixels }, diff_pixels, total_pixels: total }
}


// ---------------------------------------------------------------------------
// Laws.
// ---------------------------------------------------------------------------

/// No more positions differ than are compared.
pub proof fn lemma_diff_count_bound(a: RgbaImage, b: RgbaImage, n: nat)
    ensures
        diff_count(a, b, n) <= n,
    decreases n,
{
    if n > 0 {
        lemma_diff_count_bound(a, b, (n - 1) as nat);
    }
}

/// The diff counts the same differences whichever image is the reference.
pub proof fn lemma_diff_count_symmetric(a: RgbaImage, b: RgbaImage, n: nat)
    ensures
        diff_count(a, b, n) == diff_count(b, a, n),
    decreases n,
{
    if n > 0 {
        lemma_diff_count_symmetric(a, b, (n - 1) as nat);
        assert(diff_width(a, b) == diff_width(b, a));
    }
}

/// An image compared with itself: no position differs, and every pixel of
/// the diff is the image's own pixel.
pub proof fn lemma_diff_identical(a: RgbaImage)
    requires
        a.wf(),
        a.width > 0,
        a.height > 0,
    ensures
        diff_count(a, a, (a.width * a.height) as nat) == 0,
        forall|k: int|
            0 <= k < a.width * a.height ==> #[trigger] diff_pixel(a, a, k) == a.pixels@[k],
{
    lemma_diff_count_self(a, (a.width * a.height) as nat);
    assert forall|k: int| 0 <= k < a.width * a.height implies #[trigger] diff_pixel(a, a, k)
        == a.pixels@[k] by {
        let w = a.width as int;
        let h = a.height as int;
        lemma_fundamental_div_mod(k, w);
        lemma_mod_pos_bound(k, w);
        let x = k % w;
        let y = k / w;
        assert(y < h && 0 <= y) by (nonlinear_arith)
            requires
                k == w * y + x,
                0 <= x < w,
                0 <= k < w * h,
        ;
        assert(y * w + x == k) by (nonlinear_arith)
            requires
                k == w * y + x,
        ;
    }
}

/// At every position the diff marks the pair red exactly when the two compared
/// pixels differ as whole RGBA values (any channel, alpha included), and that
/// position adds one to the count exactly then.
pub proof fn lemma_diff_compares_whole_pixels(a: RgbaImage, b: RgbaImage, k: nat)
    ensures
        diff_pixel(a, b, k as int) == if compared(a, b, k as int).0 != compared(a, b, k as int).1 {
            Rgba { r: 255, g: 0, b: 0, a: 255 }
        } else {
            compared(a, b, k as int).0
        },
        diff_count(a, b, k + 1) == diff_count(a, b, k) + if compared(a, b, k as int).0 != compared(
            a,
            b,
            k as int,
        ).1 {
            1int
        } else {
            0int
        },
{
}

/// Two images of one size are compared pixel by pixel: at position `k` the
/// diff shows red where `a` and `b` differ and `a`'s pixel where they agree,
/// and the count grows by one exactly where they differ.
pub proof fn lemma_same_size_pixel_by_pixel(a: RgbaImage, b: RgbaImage, k: int)
    requires
        a.wf(),
        b.wf(),
        a.width == b.width,
        a.height == b.height,
        0 <= k < a.width * a.height,
    ensures
        compared(a, b, k) == (a.pixels@[k], b.pixels@[k]),
        diff_pixel(a, b, k) == if a.pixels@[k] != b.pixels@[k] {
            Rgba { r: 255, g: 0, b: 0, a: 255 }
        } else {
            a.pixels@[k]
        },
        diff_count(a, b, (k + 1) as nat) == diff_count(a, b, k as nat) + if a.pixels@[k]
            != b.pixels@[k] {
            1int
        } else {
            0int
        },
{
    let w = a.width as int;
    let h = a.height as int;
    lemma_fundamental_div_mod(k, w);
    lemma_mod_pos_bound(k, w);
    let x = k % w;
    let y = k / w;
    assert(y < h && 0 <= y) by (nonlinear_arith)
        requires
            k == w * y + x,
            0 <= x < w,
            0 <= k < w * h,
    ;
    assert(y * w + x == k) by (nonlinear_arith)
        requires
            k == w * y + x,
    ;
    lemma_diff_compares_whole_pixels(a, b, k as nat);
}

/// Two images of one size give a clean diff over their first `n` positions
/// exactly when those pixels are equal.
pub proof fn lemma_same_size_clean_iff_equal(a: RgbaImage, b: RgbaImage, n: nat)
    requires
        a.wf(),
        b.wf(),
        a.width == b.width,
        a.height == b.height,
        n <= a.width * a.height,
    ensures
        diff_count(a, b, n) == 0 <==> forall|k: int| 0 <= k < n ==> a.pixels@[k] == b.pixels@[k],
    decreases n,
{
    if n > 0 {
        lemma_same_size_clean_iff_equal(a, b, (n - 1) as nat);
        lemma_same_size_pixel_by_pixel(a, b, n - 1);
        if diff_count(a, b, n) == 0 {
            assert forall|k: int| 0 <= k < n implies a.pixels@[k] == b.pixels@[k] by {
                if k < n - 1 {
                    assert(diff_count(a, b, (n - 1) as nat) == 0);
                }
            }
        }
    }
}

proof fn lemma_diff_count_self(a: RgbaImage, n: nat)
    ensures
        diff_count(a, a, n) == 0,
    decreases n,
{
    if n > 0 {
        lemma_diff_count_self(a, (n - 1) as nat);
    }
}

} // verus!
