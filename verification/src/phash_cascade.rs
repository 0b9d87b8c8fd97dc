//! Perceptual hashes of screenshots and the cascade that decides, before a
//! caption is asked of the vision model, whether the previous one still holds.

use vstd::prelude::*;
use vstd::arithmetic::power2::{pow2, lemma_pow2_unfold, lemma2_to64_rest};
use vstd::arithmetic::div_mod::{
    lemma_fundamental_div_mod_converse_div,
    lemma_fundamental_div_mod_converse_mod,
};
use crate::diff::{Rgba, RgbaImage};

verus! {

// ---------------------------------------------------------------------------
// Hamming distance.
// ---------------------------------------------------------------------------

/// Number of one bits in `x`.
pub open spec fn popcount(x: u64) -> nat
    decreases x,
{
    if x == 0 {
        0
    } else {
        (x % 2) as nat + popcount(x / 2)
    }
}

/// `u64::count_ones`: the documentation says it returns the number of ones
/// in the binary representation of its argument; that is all this states.
pub assume_specification[ u64::count_ones ](i: u64) -> (r: u32)
    ensures
        r as nat == popcount(i),
;

/// Number of bit positions at which `a` and `b` differ.
pub open spec fn spec_hamming(a: u64, b: u64) -> nat {
    popcount(a ^ b)
}

/// Hamming distance between two 64-bit hashes.
pub fn hamming(a: u64, b: u64) -> (r: u32)
    ensures
        r as nat == spec_hamming(a, b),
        r <= 64,
{
    proof {
        lemma_popcount_le_64(a ^ b);
    }
    (a ^ b).count_ones()
}

proof fn lemma_popcount_below(x: u64, n: nat)
    requires
        x < pow2(n),
    ensures
        popcount(x) <= n,
    decreases n,
{
    if n == 0 {
        assert(pow2(0) == 1) by {
            lemma2_to64_rest();
            vstd::arithmetic::power2::lemma2_to64();
        }
    } else {
        lemma_pow2_unfold(n);
        if x != 0 {
            lemma_popcount_below(x / 2, (n - 1) as nat);
        }
    }
}

proof fn lemma_popcount_le_64(x: u64)
    ensures
        popcount(x) <= 64,
{
    lemma2_to64_rest();
    lemma_popcount_below(x, 64);
}

proof fn lemma_popcount_zero(x: u64)
    ensures
        popcount(x) == 0 <==> x == 0,
    decreases x,
{
    if x != 0 {
        lemma_popcount_zero(x / 2);
    }
}

proof fn lemma_popcount_triangle(a: u64, b: u64, c: u64)
    ensures
        popcount(a ^ c) <= popcount(a ^ b) + popcount(b ^ c),
    decreases a as int + b as int + c as int,
{
    if a == 0 && b == 0 && c == 0 {
        assert(0u64 ^ 0u64 == 0) by (bit_vector);
    } else {
        assert((a ^ c) / 2 == (a / 2) ^ (c / 2) && (a ^ b) / 2 == (a / 2) ^ (b / 2) && (b ^ c) / 2
            == (b / 2) ^ (c / 2)) by (bit_vector);
        assert((a ^ c) % 2 <= (a ^ b) % 2 + (b ^ c) % 2) by (bit_vector);
        assert(a / 2 + b / 2 + c / 2 < a + b + c);
        lemma_popcount_triangle(a / 2, b / 2, c / 2);
    }
}

/// The Hamming distance is a metric on 64-bit hashes: it is zero exactly
/// between equal hashes, symmetric, at most 64, and obeys the triangle inequality.
pub proof fn lemma_hamming_metric(a: u64, b: u64, c: u64)
    ensures
        spec_hamming(a, b) == 0 <==> a == b,
        spec_hamming(a, b) == spec_hamming(b, a),
        spec_hamming(a, b) <= 64,
        spec_hamming(a, c) <= spec_hamming(a, b) + spec_hamming(b, c),
{
    lemma_popcount_zero(a ^ b);
    assert(a ^ b == 0 <==> a == b) by (bit_vector);
    assert(a ^ b == b ^ a) by (bit_vector);
    lemma_popcount_le_64(a ^ b);
    lemma_popcount_triangle(a, b, c);
}

// ---------------------------------------------------------------------------
// The cascade.
// ---------------------------------------------------------------------------

/// Hashes at most this far apart are taken to show the same frame.
pub const PHASH_HAMMING_SKIP: u32 = 6;

/// What to do before captioning a frame.
#[derive(PartialEq, Eq, Structural, Clone, Copy, Debug)]
pub enum CascadeDecision {
    /// The frame looks like the previous one: keep its caption.
    SkipVlmReuseCaption,
    /// The region of interest changed: caption that region.
    RunVlmOnRoi,
    /// Caption the whole frame.
    RunVlmFullFrame,
}

/// The cascade's decision: keep the caption when there is a previous hash
/// within [`PHASH_HAMMING_SKIP`] of the current one and the region of interest
/// did not change; otherwise caption the region if it changed, else the frame.
pub open spec fn cascade(prev_hash: Option<u64>, current_hash: u64, roi_changed: bool) -> CascadeDecision {
    match prev_hash {
        Some(prev) if spec_hamming(prev, current_hash) <= PHASH_HAMMING_SKIP && !roi_changed => {
            CascadeDecision::SkipVlmReuseCaption
        },
        _ => if roi_changed {
            CascadeDecision::RunVlmOnRoi
        } else {
            CascadeDecision::RunVlmFullFrame
        },
    }
}

/// Decides, as [`cascade`] states it, whether a frame needs a fresh caption.
pub fn decide_cascade(prev_hash: Option<u64>, current_hash: u64, roi_changed: bool) -> (r:
    CascadeDecision)
    ensures
        r == cascade(prev_hash, current_hash, roi_changed),
{
    if let Some(prev) = prev_hash {
        if hamming(prev, current_hash) <= PHASH_HAMMING_SKIP && !roi_changed {
            return CascadeDecision::SkipVlmReuseCaption;
        }
    }
    if roi_changed {
        CascadeDecision::RunVlmOnRoi
    } else {
        CascadeDecision::RunVlmFullFrame
    }
}

/// A frame whose hash equals the previous one keeps its caption unless its
/// region of interest changed; the region changing always asks for a caption of it.
pub proof fn lemma_cascade_same_hash(h: u64, roi_changed: bool)
    ensures
        cascade(Some(h), h, roi_changed) == if roi_changed {
            CascadeDecision::RunVlmOnRoi
        } else {
            CascadeDecision::SkipVlmReuseCaption
        },
{
    lemma_hamming_metric(h, h, h);
}

/// Whenever the region of interest changed, the region is captioned,
/// whatever the hashes.
pub proof fn lemma_changed_region_is_captioned(prev_hash: Option<u64>, current_hash: u64)
    ensures
        cascade(prev_hash, current_hash, true) == CascadeDecision::RunVlmOnRoi,
{
}

/// When the region of interest did not change, the previous caption is kept
/// exactly when there is a previous hash that differs from the current one in
/// at most 6 bits; otherwise the whole frame is captioned.
pub proof fn lemma_unchanged_region(prev_hash: Option<u64>, current_hash: u64)
    ensures
        cascade(prev_hash, current_hash, false) == match prev_hash {
            Some(prev) => if popcount(prev ^ current_hash) <= 6 {
                CascadeDecision::SkipVlmReuseCaption
            } else {
                CascadeDecision::RunVlmFullFrame
            },
            None => CascadeDecision::RunVlmFullFrame,
        },
{
}

// ---------------------------------------------------------------------------
// Perceptual hash.
// ---------------------------------------------------------------------------

/// The 8-bit grey levels that the `image` crate's `to_luma8` gives for an
/// RGBA image of this size and these pixels.
pub uninterp spec fn luma8_pixels(width: u32, height: u32, pixels: Seq<Rgba>) -> Seq<u8>;

/// `DynamicImage::to_luma8` of the `image` crate on an RGBA image. Its colour
/// conversion is named, not stated; the source shows that the grey image has
/// the same size, hence one level per pixel.
#[verifier::external_body]
fn to_luma8(img: &RgbaImage) -> (r: Vec<u8>)
    requires
        img.wf(),
    ensures
        r@ == luma8_pixels(img.width, img.height, img.pixels@),
        r@.len() == img.width * img.height,
{
    let raw: Vec<u8> = img.pixels.iter().flat_map(|p| [p.r, p.g, p.b, p.a]).collect();
    let buffer = image::RgbaImage::from_raw(img.width, img.height, raw).unwrap();
    image::DynamicImage::ImageRgba8(buffer).to_luma8().into_raw()
}

/// The grey level sampled for cell `(x, y)` of the 8 by 8 grid.
pub open spec fn grid_sample(width: u32, height: u32, luma: Seq<u8>, x: int, y: int) -> u32 {
    let sx = x * width / 8;
    let sy = y * height / 8;
    luma[sy * width + sx] as u32
}

/// The 64 samples, row by row.
pub open spec fn samples(width: u32, height: u32, luma: Seq<u8>) -> Seq<u32> {
    Seq::new(64, |i: int| grid_sample(width, height, luma, i % 8, i / 8))
}

/// The grid spans the whole image: sample `8 * y + x` is the grey level at
/// column `c` and row `r`, where `c` is the column in which `x` eighths of
/// the width fall and `r` the row in which `y` eighths of the height fall.
pub proof fn lemma_grid_spans_image(
    width: u32,
    height: u32,
    luma: Seq<u8>,
    x: int,
    y: int,
    c: int,
    r: int,
)
    requires
        0 <= x < 8,
        0 <= y < 8,
        8 * c <= x * width < 8 * (c + 1),
        8 * r <= y * height < 8 * (r + 1),
    ensures
        samples(width, height, luma)[8 * y + x] == luma[r * width + c] as u32,
{
    let i = 8 * y + x;
    lemma_fundamental_div_mod_converse_div(i, 8, y, x);
    lemma_fundamental_div_mod_converse_mod(i, 8, y, x);
    let xw = x * width;
    let yh = y * height;
    lemma_fundamental_div_mod_converse_div(xw, 8, c, xw - 8 * c);
    lemma_fundamental_div_mod_converse_div(yh, 8, r, yh - 8 * r);
}

/// Sum of the first `n` values of `s`.
pub open spec fn sum_first(s: Seq<u32>, n: nat) -> nat
    decreases n,
{
    if n == 0 {
        0
    } else {
        sum_first(s, (n - 1) as nat) + s[n - 1] as nat
    }
}

/// Hash of the first `n` samples: bit `i` set when sample `i` is at least `avg`.
pub open spec fn hash_bits(s: Seq<u32>, avg: u32, n: nat) -> u64
    decreases n,
{
    if n == 0 {
        0
    } else {
        let rest = hash_bits(s, avg, (n - 1) as nat);
        if s[n - 1] >= avg {
            rest | (1u64 << ((n - 1) as u64))
        } else {
            rest
        }
    }
}

/// The average hash of a grey image: 64 samples on an 8 by 8 grid, bit `i`
/// set when sample `i` is at least their (integer) mean.
pub open spec fn phash_of(width: u32, height: u32, luma: Seq<u8>) -> u64 {
    let s = samples(width, height, luma);
    hash_bits(s, (sum_first(s, 64) / 64) as u32, 64)
}

proof fn lemma_bit_of_or(x: u64, k: u64, j: u64)
    requires
        k < 64,
        j < 64,
    ensures
        ((x | (1u64 << k)) >> j) & 1 == if j == k {
            1u64
        } else {
            (x >> j) & 1
        },
{
    assert(((x | (1u64 << k)) >> j) & 1 == if j == k {
        1u64
    } else {
        (x >> j) & 1
    }) by (bit_vector)
        requires
            k < 64,
            j < 64,
    ;
}

proof fn lemma_zero_bits(j: u64)
    requires
        j < 64,
    ensures
        (0u64 >> j) & 1 == 0,
{
    assert((0u64 >> j) & 1 == 0) by (bit_vector);
}

/// Bit `i` of the hash of the first `n` samples is set exactly when `i < n`
/// and sample `i` is at least `avg`.
proof fn lemma_hash_bits_bit(s: Seq<u32>, avg: u32, n: nat, i: nat)
    requires
        n <= 64,
        i < 64,
    ensures
        (hash_bits(s, avg, n) >> (i as u64)) & 1 == if i < n && s[i as int] >= avg {
            1u64
        } else {
            0u64
        },
    decreases n,
{
    if n == 0 {
        lemma_zero_bits(i as u64);
    } else {
        lemma_hash_bits_bit(s, avg, (n - 1) as nat, i);
        let rest = hash_bits(s, avg, (n - 1) as nat);
        if s[n - 1] >= avg {
            lemma_bit_of_or(rest, (n - 1) as u64, i as u64);
        }
    }
}

/// Each bit of the hash says whether its sample is at least the integer mean
/// of the 64 samples: bit `i` is set exactly when sample `i` is at least it.
pub proof fn lemma_phash_bit(width: u32, height: u32, luma: Seq<u8>, i: nat)
    requires
        i < 64,
    ensures
        (phash_of(width, height, luma) >> (i as u64)) & 1 == if samples(width, height, luma)[i as int]
            >= (sum_first(samples(width, height, luma), 64) / 64) as u32 {
            1u64
        } else {
            0u64
        },
{
    let s = samples(width, height, luma);
    lemma_hash_bits_bit(s, (sum_first(s, 64) / 64) as u32, 64, i);
}

proof fn lemma_sum_uniform(s: Seq<u32>, v: u32, n: nat)
    requires
        n <= s.len(),
        forall|i: int| 0 <= i < n ==> s[i] == v,
    ensures
        sum_first(s, n) == n * v,
    decreases n,
{
    if n > 0 {
        lemma_sum_uniform(s, v, (n - 1) as nat);
        assert(s[n - 1] == v);
        let m = (n - 1) as nat;
        assert(n * v == m * v + v) by (nonlinear_arith)
            requires
                n == m + 1,
        ;
        assert(sum_first(s, n) == sum_first(s, m) + s[n - 1] as nat);
    } else {
        assert(n * v == 0) by (nonlinear_arith)
            requires
                n == 0,
        ;
    }
}

proof fn lemma_low_ones_step(k: u64)
    requires
        k < 64,
    ensures
        k < 63 ==> (((1u64 << k) - 1) as u64 | (1u64 << k)) == ((1u64 << (k + 1) as u64) - 1) as u64,
        k == 63 ==> (((1u64 << k) - 1) as u64 | (1u64 << k)) == 0xFFFF_FFFF_FFFF_FFFFu64,
{
    assert(k < 63 ==> (((1u64 << k) - 1) as u64 | (1u64 << k)) == ((1u64 << (k + 1) as u64) - 1) as u64)
        by (bit_vector)
        requires
            k < 64,
    ;
    assert(k == 63 ==> (((1u64 << k) - 1) as u64 | (1u64 << k)) == 0xFFFF_FFFF_FFFF_FFFFu64)
        by (bit_vector);
}

proof fn lemma_hash_bits_all_set(s: Seq<u32>, avg: u32, n: nat)
    requires
        n <= 64,
        forall|i: int| 0 <= i < n ==> s[i] >= avg,
    ensures
        n < 64 ==> hash_bits(s, avg, n) == ((1u64 << n as u64) - 1) as u64,
        n == 64 ==> hash_bits(s, avg, n) == 0xFFFF_FFFF_FFFF_FFFFu64,
    decreases n,
{
    if n == 0 {
        assert(((1u64 << 0u64) - 1) as u64 == 0) by (bit_vector);
    } else {
        lemma_hash_bits_all_set(s, avg, (n - 1) as nat);
        lemma_low_ones_step((n - 1) as u64);
    }
}

/// When the 64 grid samples all have one grey level (a uniform image), every
/// sample equals the mean, so every bit of the hash is set.
pub proof fn lemma_uniform_samples_hash_all_ones(width: u32, height: u32, luma: Seq<u8>, v: u32)
    requires
        forall|i: int| 0 <= i < 64 ==> #[trigger] samples(width, height, luma)[i] == v,
    ensures
        phash_of(width, height, luma) == 0xFFFF_FFFF_FFFF_FFFFu64,
{
    let s = samples(width, height, luma);
    lemma_sum_uniform(s, v, 64);
    assert((64 * v) / 64 == v) by (nonlinear_arith);
    lemma_hash_bits_all_set(s, (sum_first(s, 64) / 64) as u32, 64);
}

/// Images that [`phash64`] accepts: not empty, and small enough that the grid
/// coordinates fit in `u32`.
pub open spec fn hashable(img: RgbaImage) -> bool {
    &&& img.wf()
    &&& img.width > 0
    &&& img.height > 0
    &&& 7 * img.width <= u32::MAX
    &&& 7 * img.height <= u32::MAX
}

/// The 64-bit average hash of an image's grey levels, as [`phash_of`] states it.
pub fn phash64(img: &RgbaImage) -> (r: u64)
    requires
        hashable(*img),
    ensures
        r == phash_of(img.width, img.height, luma8_pixels(img.width, img.height, img.pixels@)),
{
    let gray = to_luma8(img);
    let w = img.width;
    let h = img.height;
    let ghost luma = gray@;
    let mut s: Vec<u32> = Vec::new();
    let mut y: u32 = 0;
    while y < 8
        invariant
            luma == gray@,
            w == img.width,
            h == img.height,
            hashable(*img),
            gray@.len() == w * h,
            y <= 8,
            s@.len() == y * 8,
            forall|i: int| 0 <= i < s@.len() ==> #[trigger] s@[i] == samples(w, h, luma)[i],
        decreases 8 - y,
    {
        let mut x: u32 = 0;
        while x < 8
            invariant
                luma == gray@,
                w == img.width,
                h == img.height,
                hashable(*img),
                gray@.len() == w * h,
                y < 8,
                x <= 8,
                s@.len() == y * 8 + x,
                forall|i: int| 0 <= i < s@.len() ==> #[trigger] s@[i] == samples(w, h, luma)[i],
            decreases 8 - x,
        {
            assert(x * w <= 7 * w && y * h <= 7 * h) by (nonlinear_arith)
                requires
                    x < 8,
                    y < 8,
            ;
            let sx = x * w / 8;
            let sy = y * h / 8;
            proof {
                assert(x * w / 8 < w && y * h / 8 < h) by (nonlinear_arith)
                    requires
                        x < 8,
                        y < 8,
                        w > 0,
                        h > 0,
                ;
                let sxi = sx as int;
                let syi = sy as int;
                assert(syi * w + sxi < w * h && syi * w <= syi * w + sxi) by (nonlinear_arith)
                    requires
                        0 <= sxi < w,
                        0 <= syi < h,
                ;
                let i = (y * 8 + x) as int;
                lemma_fundamental_div_mod_converse_div(i, 8, y as int, x as int);
                lemma_fundamental_div_mod_converse_mod(i, 8, y as int, x as int);
                assert(gray.len() == gray@.len());
            }
            let k = (sy as usize) * (w as usize) + (sx as usize);
            s.push(gray[k] as u32);
            x = x + 1;
        }
        y = y + 1;
    }
    let ghost smp = samples(w, h, luma);
    assert(s@ =~= smp);
    let mut sum: u32 = 0;
    let mut i: usize = 0;
    while i < 64
        invariant
            s@ == smp,
            s@.len() == 64,
            i <= 64,
            sum == sum_first(smp, i as nat),
            sum <= i * 255,
            forall|j: int| 0 <= j < 64 ==> #[trigger] smp[j] <= 255,
        decreases 64 - i,
    {
        sum = sum + s[i];
        i = i + 1;
    }
    let avg = sum / 64;
    let mut hash: u64 = 0;
    let mut j: usize = 0;
    while j < 64
        invariant
            s@ == smp,
            s@.len() == 64,
            j <= 64,
            avg == (sum_first(smp, 64) / 64) as u32,
            hash == hash_bits(smp, avg, j as nat),
        decreases 64 - j,
    {
        if s[j] >= avg {
            hash = hash | (1u64 << (j as u64));
        }
        j = j + 1;
    }
    hash
}

/// Two images with the same size and pixels have the same hash, so the
/// cascade keeps the caption between them when the region of interest did
/// not change.
pub proof fn lemma_identical_images_skip(a: RgbaImage, b: RgbaImage)
    requires
        a.width == b.width,
        a.height == b.height,
        a.pixels@ == b.pixels@,
    ensures
        phash_of(a.width, a.height, luma8_pixels(a.width, a.height, a.pixels@)) == phash_of(
            b.width,
            b.height,
            luma8_pixels(b.width, b.height, b.pixels@),
        ),
        cascade(
            Some(phash_of(a.width, a.height, luma8_pixels(a.width, a.height, a.pixels@))),
            phash_of(b.width, b.height, luma8_pixels(b.width, b.height, b.pixels@)),
            false,
        ) == CascadeDecision::SkipVlmReuseCaption,
{
    lemma_cascade_same_hash(phash_of(a.width, a.height, luma8_pixels(a.width, a.height, a.pixels@)), false);
}

// ---------------------------------------------------------------------------
// Region-of-interest change.
// ---------------------------------------------------------------------------

/// Pixels that differ by more than this (summed over the channels) count as changed.
pub const PIXEL_DELTA_THRESHOLD: u16 = 12;

/// Absolute difference of two channel values.
pub open spec fn channel_delta(x: u8, y: u8) -> nat {
    if x >= y {
        (x - y) as nat
    } else {
        (y - x) as nat
    }
}

/// Sum over the four channels of the absolute differences.
pub open spec fn spec_pixel_delta(a: Rgba, b: Rgba) -> nat {
    channel_delta(a.r, b.r) + channel_delta(a.g, b.g) + channel_delta(a.b, b.b) + channel_delta(a.a, b.a)
}

fn channel_delta_exec(x: u8, y: u8) -> (r: u16)
    ensures
        r == channel_delta(x, y),
{
    if x >= y {
        (x - y) as u16
    } else {
        (y - x) as u16
    }
}

/// Sum over the four channels of the absolute differences of two pixels.
pub fn pixel_delta(a: Rgba, b: Rgba) -> (r: u16)
    ensures
        r == spec_pixel_delta(a, b),
{
    channel_delta_exec(a.r, b.r) + channel_delta_exec(a.g, b.g) + channel_delta_exec(a.b, b.b)
        + channel_delta_exec(a.a, b.a)
}

/// The pixels that `imageops::resize` with the `Nearest` filter of the `image`
/// crate gives for an RGBA image resized to `new_width` by `new_height`.
pub uninterp spec fn resized_nearest(
    width: u32,
    height: u32,
    pixels: Seq<Rgba>,
    new_width: u32,
    new_height: u32,
) -> Seq<Rgba>;

/// `DynamicImage::resize_exact` with `FilterType::Nearest` of the `image`
/// crate. Its sampling is named, not stated; the source shows the new size,
/// and that an image resized to its own size is copied unchanged.
#[verifier::external_body]
fn resize_exact_nearest(img: &RgbaImage, new_width: u32, new_height: u32) -> (r: RgbaImage)
    requires
        img.wf(),
    ensures
        r.width == new_width,
        r.height == new_height,
        r.wf(),
        r.pixels@ == resized_nearest(img.width, img.height, img.pixels@, new_width, new_height),
        new_width == img.width && new_height == img.height ==> r.pixels@ == img.pixels@,
{
    let raw: Vec<u8> = img.pixels.iter().flat_map(|p| [p.r, p.g, p.b, p.a]).collect();
    let buffer = image::RgbaImage::from_raw(img.width, img.height, raw).unwrap();
    let resized = image::DynamicImage::ImageRgba8(buffer).resize_exact(
        new_width,
        new_height,
        image::imageops::FilterType::Nearest,
    ).into_rgba8();
    let pixels = resized.pixels().map(|p| Rgba { r: p.0[0], g: p.0[1], b: p.0[2], a: p.0[3] }).collect();
    RgbaImage { width: new_width, height: new_height, pixels }
}

/// How many of the first `n` pixels differ by more than [`PIXEL_DELTA_THRESHOLD`].
pub open spec fn changed_count(a: Seq<Rgba>, b: Seq<Rgba>, n: nat) -> nat
    decreases n,
{
    if n == 0 {
        0
    } else {
        changed_count(a, b, (n - 1) as nat) + if spec_pixel_delta(a[n - 1], b[n - 1])
            > PIXEL_DELTA_THRESHOLD {
            1nat
        } else {
            0nat
        }
    }
}

/// How much of the previous frame changed.
pub struct RoiChange {
    /// Pixels that changed.
    pub changed_pixels: u64,
    /// Pixels of the previous frame.
    pub total_pixels: u64,
}

/// Compares `current`, resized to the size of `prev`, with `prev` pixel by
/// pixel. The caller takes the region as changed when the changed share, in
/// percent, reaches its threshold.
pub fn roi_change(prev: &RgbaImage, current: &RgbaImage) -> (r: RoiChange)
    requires
        prev.wf(),
        current.wf(),
    ensures
        r.total_pixels == prev.width * prev.height,
        r.changed_pixels == changed_count(
            prev.pixels@,
            resized_nearest(current.width, current.height, current.pixels@, prev.width, prev.height),
            r.total_pixels as nat,
        ),
        current.width == prev.width && current.height == prev.height && current.pixels@
            == prev.pixels@ ==> r.changed_pixels == 0,
{
    let cur = resize_exact_nearest(current, prev.width, prev.height);
    let n = prev.pixels.len();
    let mut changed: u64 = 0;
    let mut k: usize = 0;
    while k < n
        invariant
            n == prev.pixels@.len(),
            cur.pixels@.len() == n,
            k <= n,
            changed == changed_count(prev.pixels@, cur.pixels@, k as nat),
            changed <= k,
        decreases n - k,
    {
        if pixel_delta(prev.pixels[k], cur.pixels[k]) > PIXEL_DELTA_THRESHOLD {
            changed = changed + 1;
        }
        k = k + 1;
    }
    proof {
        if current.width == prev.width && current.height == prev.height && current.pixels@
            == prev.pixels@ {
            lemma_changed_count_self(prev.pixels@, n as nat);
        }
    }
    let total = (prev.width as u64) * (prev.height as u64);
    RoiChange { changed_pixels: changed, total_pixels: total }
}

proof fn lemma_changed_count_self(a: Seq<Rgba>, n: nat)
    ensures
        changed_count(a, a, n) == 0,
    decreases n,
{
    if n > 0 {
        lemma_changed_count_self(a, (n - 1) as nat);
    }
}

} // verus!
