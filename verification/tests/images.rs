use agent_eyes::diff::{pixel_diff, Rgba, RgbaImage};
use agent_eyes::phash_cascade::{
    decide_cascade, hamming, phash64, pixel_delta, roi_change, CascadeDecision, PHASH_HAMMING_SKIP,
};

fn px(r: u8, g: u8, b: u8, a: u8) -> Rgba {
    Rgba { r, g, b, a }
}

fn from_image(img: &image::RgbaImage) -> RgbaImage {
    RgbaImage {
        width: img.width(),
        height: img.height(),
        pixels: img.pixels().map(|p| px(p.0[0], p.0[1], p.0[2], p.0[3])).collect(),
    }
}

fn filled(w: u32, h: u32, p: Rgba) -> RgbaImage {
    RgbaImage { width: w, height: h, pixels: vec![p; (w * h) as usize] }
}

#[test]
fn identical_images_share_phash() {
    let img = image::RgbaImage::from_pixel(32, 32, image::Rgba([10, 20, 30, 255]));
    let h1 = phash64(&from_image(&img));
    let h2 = phash64(&from_image(&img.clone()));
    assert_eq!(h1, h2);
    assert_eq!(decide_cascade(Some(h1), h2, false), CascadeDecision::SkipVlmReuseCaption);
}

#[test]
fn phash_of_split_image() {
    let img = image::RgbaImage::from_fn(16, 16, |x, _| {
        if x < 8 { image::Rgba([0, 0, 0, 255]) } else { image::Rgba([255, 255, 255, 255]) }
    });
    assert_eq!(phash64(&from_image(&img)), 0xF0F0_F0F0_F0F0_F0F0);
    let uniform = filled(3, 5, px(7, 7, 7, 255));
    assert_eq!(phash64(&uniform), u64::MAX);
}

#[test]
fn hamming_counts_differing_bits() {
    assert_eq!(hamming(0, u64::MAX), 64);
    assert_eq!(hamming(0b1011, 0b0001), 2);
    assert_eq!(hamming(42, 42), 0);
    assert_eq!(hamming(5, 9), hamming(9, 5));
}

#[test]
fn cascade_decisions() {
    assert_eq!(decide_cascade(None, 0, true), CascadeDecision::RunVlmOnRoi);
    assert_eq!(decide_cascade(None, 0, false), CascadeDecision::RunVlmFullFrame);
    assert_eq!(decide_cascade(Some(0), 0b111111, false), CascadeDecision::SkipVlmReuseCaption);
    assert_eq!(decide_cascade(Some(0), 0b1111111, false), CascadeDecision::RunVlmFullFrame);
    assert_eq!(decide_cascade(Some(7), 7, true), CascadeDecision::RunVlmOnRoi);
    assert_eq!(PHASH_HAMMING_SKIP, 6);
}

#[test]
fn pixel_delta_sums_channels() {
    assert_eq!(pixel_delta(px(10, 20, 30, 40), px(0, 25, 30, 255)), 10 + 5 + 0 + 215);
    assert_eq!(pixel_delta(px(255, 255, 255, 255), px(0, 0, 0, 0)), 1020);
}

#[test]
fn roi_change_counts_changed_pixels() {
    let prev = filled(2, 2, px(100, 100, 100, 255));
    let same = roi_change(&prev, &prev);
    assert_eq!((same.changed_pixels, same.total_pixels), (0, 4));
    let small = filled(1, 1, px(100, 100, 113, 255));
    let c = roi_change(&prev, &small);
    assert_eq!((c.changed_pixels, c.total_pixels), (4, 4));
    let near = filled(1, 1, px(100, 100, 112, 255));
    assert_eq!(roi_change(&prev, &near).changed_pixels, 0);
}

#[test]
fn pixel_diff_marks_differences() {
    let red = px(255, 0, 0, 255);
    let a = RgbaImage { width: 2, height: 1, pixels: vec![px(1, 1, 1, 255), px(2, 2, 2, 255)] };
    let b = RgbaImage { width: 1, height: 2, pixels: vec![px(1, 1, 1, 255), px(9, 9, 9, 255)] };
    let d = pixel_diff(&a, &b);
    assert_eq!((d.image.width, d.image.height), (2, 2));
    assert_eq!(d.total_pixels, 4);
    // (0,0): a(0,0) vs b(0,0) equal; (1,0): a(1,0) vs b(0,0) differ;
    // (0,1): a(0,0) vs b(0,1) differ; (1,1): a(1,0) vs b(0,1) differ.
    assert_eq!(d.diff_pixels, 3);
    assert_eq!(d.image.pixels, vec![px(1, 1, 1, 255), red, red, red]);
}

#[test]
fn pixel_diff_of_identical_images_is_clean() {
    let a = RgbaImage { width: 2, height: 2, pixels: vec![px(1, 2, 3, 4), px(5, 6, 7, 8), px(9, 9, 9, 9), px(0, 0, 0, 0)] };
    let d = pixel_diff(&a, &a);
    assert_eq!(d.diff_pixels, 0);
    assert_eq!(d.image.pixels, a.pixels);
    let empty = RgbaImage { width: 0, height: 0, pixels: vec![] };
    let e = pixel_diff(&empty, &empty);
    assert_eq!((e.diff_pixels, e.total_pixels), (0, 0));
}

#[test]
fn pixel_diff_counts_the_same_either_way() {
    let a = RgbaImage { width: 3, height: 1, pixels: vec![px(1, 0, 0, 255), px(2, 0, 0, 255), px(3, 0, 0, 255)] };
    let b = RgbaImage { width: 2, height: 2, pixels: vec![px(1, 0, 0, 255), px(5, 0, 0, 255), px(2, 0, 0, 255), px(3, 0, 0, 255)] };
    let ab = pixel_diff(&a, &b);
    let ba = pixel_diff(&b, &a);
    assert_eq!(ab.diff_pixels, ba.diff_pixels);
    assert_eq!(ab.total_pixels, 6);
    assert!(ab.diff_pixels <= ab.total_pixels);
}
