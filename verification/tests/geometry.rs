use thumbcache::geometry::{bounds, fits_box, is_well_fitted, BOX_SIDE};

#[test]
fn the_box_is_150_pixels_wide() {
    assert_eq!(BOX_SIDE, 150);
}

#[test]
fn image_within_the_box_fits() {
    assert!(fits_box(100, 50));
    assert!(fits_box(10, 30));
    assert!(fits_box(1, 1));
    assert!(fits_box(150, 150));
    assert!(fits_box(150, 1));
}

#[test]
fn image_beyond_the_box_does_not_fit() {
    assert!(!fits_box(151, 150));
    assert!(!fits_box(150, 151));
    assert!(!fits_box(800, 600));
    assert!(!fits_box(1, 4000));
    assert!(!fits_box(u32::MAX, u32::MAX));
}

#[test]
fn image_without_pixels_does_not_fit() {
    assert!(!fits_box(0, 0));
    assert!(!fits_box(0, 100));
    assert!(!fits_box(100, 0));
}

#[test]
fn small_image_is_bounded_by_its_own_size() {
    assert_eq!(bounds(100, 50), (100, 50));
    assert_eq!(bounds(10, 30), (10, 30));
    assert_eq!(bounds(1, 1), (1, 1));
    assert_eq!(bounds(150, 150), (150, 150));
}

#[test]
fn large_image_is_bounded_by_the_box() {
    assert_eq!(bounds(800, 600), (150, 150));
    assert_eq!(bounds(151, 1), (150, 150));
    assert_eq!(bounds(1, 151), (150, 150));
    assert_eq!(bounds(u32::MAX, u32::MAX), (150, 150));
}

#[test]
fn image_without_pixels_is_bounded_by_the_box() {
    assert_eq!(bounds(0, 0), (150, 150));
    assert_eq!(bounds(0, 100), (150, 150));
    assert_eq!(bounds(100, 0), (150, 150));
}

#[test]
fn small_image_is_well_fitted_by_its_own_size_only() {
    assert!(is_well_fitted(100, 50, 100, 50));
    assert!(is_well_fitted(1, 1, 1, 1));
    assert!(is_well_fitted(150, 150, 150, 150));
    assert!(!is_well_fitted(100, 50, 150, 75));
    assert!(!is_well_fitted(100, 50, 50, 25));
    assert!(!is_well_fitted(10, 30, 50, 150));
    assert!(!is_well_fitted(1, 1, 150, 150));
}

#[test]
fn landscape_is_well_fitted_when_its_width_fills_the_box() {
    assert!(is_well_fitted(800, 600, 150, 112));
    assert!(is_well_fitted(800, 600, 150, 113));
    assert!(!is_well_fitted(800, 600, 150, 111));
    assert!(!is_well_fitted(800, 600, 150, 114));
    assert!(!is_well_fitted(800, 600, 149, 112));
    assert!(!is_well_fitted(800, 600, 112, 150));
    assert!(is_well_fitted(1920, 1080, 150, 84));
    assert!(!is_well_fitted(1920, 1080, 150, 86));
}

#[test]
fn portrait_is_well_fitted_when_its_height_fills_the_box() {
    assert!(is_well_fitted(600, 800, 112, 150));
    assert!(is_well_fitted(600, 800, 113, 150));
    assert!(!is_well_fitted(600, 800, 150, 112));
    assert!(!is_well_fitted(600, 800, 114, 150));
}

#[test]
fn large_square_is_well_fitted_by_the_box_only() {
    assert!(is_well_fitted(300, 300, 150, 150));
    assert!(!is_well_fitted(300, 300, 150, 149));
    assert!(!is_well_fitted(300, 300, 149, 150));
    assert!(!is_well_fitted(300, 300, 300, 300));
}

#[test]
fn very_thin_images_keep_one_pixel() {
    assert!(is_well_fitted(4000, 1, 150, 1));
    assert!(!is_well_fitted(4000, 1, 150, 2));
    assert!(is_well_fitted(1, 4000, 1, 150));
    assert!(is_well_fitted(u32::MAX, 1, 150, 1));
    assert!(is_well_fitted(u32::MAX, u32::MAX, 150, 150));
    assert!(!is_well_fitted(u32::MAX, u32::MAX, 150, 1));
}

#[test]
fn nothing_beyond_the_box_or_without_pixels_is_well_fitted() {
    assert!(!is_well_fitted(800, 600, 151, 113));
    assert!(!is_well_fitted(800, 600, 150, 0));
    assert!(!is_well_fitted(800, 600, 0, 0));
    assert!(!is_well_fitted(0, 100, 0, 100));
    assert!(!is_well_fitted(0, 0, 151, 1));
}

#[test]
fn image_without_pixels_is_well_fitted_by_anything_within_the_box() {
    assert!(is_well_fitted(0, 0, 1, 1));
    assert!(is_well_fitted(0, 100, 1, 150));
    assert!(is_well_fitted(100, 0, 150, 1));
}

#[test]
fn aspect_is_preserved_within_one_pixel() {
    let sides = [1u32, 2, 3, 7, 149, 150, 151, 299, 640, 1000, 4032, 65535];
    for &w in &sides {
        for &h in &sides {
            let long = w.max(h) as u64;
            let short = w.min(h) as u64;
            let (tl, ts) = if long <= 150 {
                (long, short)
            } else {
                (150, (short * 150 / long).max(1))
            };
            let (tw, th) = if w >= h { (tl as u32, ts as u32) } else { (ts as u32, tl as u32) };
            assert!(is_well_fitted(w, h, tw, th), "{w}x{h} and {tw}x{th}");
            assert_eq!(tw.max(th) as u64, long.min(150));
        }
    }
}
