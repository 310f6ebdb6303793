use cr2_to_tiff_halpha::imagebuffer::{Error, ImageBuffer};
use cr2_to_tiff_halpha::raw_to_tiff::{align_frame, calibrate_frame, convert_frame};

fn float_buffer(v: Vec<f32>, w: usize, h: usize) -> ImageBuffer<f32> {
    ImageBuffer::from_vec(v, w, h).unwrap()
}

fn sub_floor(a: f32, b: f32) -> f32 {
    if a - b < 0.0 {
        0.0
    } else {
        a - b
    }
}

fn positive_mean(b: &ImageBuffer<f32>) -> f32 {
    let (total, count) = b.fold((0.0f32, 0.0f32), |acc: (f32, f32), v: f32| {
        if v > 0.0 {
            (acc.0 + v, acc.1 + 1.0)
        } else {
            acc
        }
    });
    total / count
}

#[test]
fn absent_reference_passes_light_through() {
    let light = float_buffer(vec![1.0, 2.0, 3.0, 4.0], 2, 2);
    let dark: ImageBuffer<f32> = ImageBuffer::new_empty().unwrap();
    let flat = float_buffer(vec![5.0, 5.0, 5.0, 5.0], 2, 2);
    let out = calibrate_frame(
        light,
        &dark,
        &flat,
        sub_floor,
        positive_mean,
        |a: f32, k: f32| a * k,
        |a: f32, b: f32| if b != 0.0 { a / b } else { 0.0 },
    )
    .unwrap();
    // no correction requested: the frame is unchanged, not zero-corrected
    assert_eq!(out.get(0, 0).unwrap(), 1.0);
    assert_eq!(out.get(1, 1).unwrap(), 4.0);
}

#[test]
fn calibration_applies_dark_flat_formula() {
    // flat - dark = [3, 1], its positive mean = 2;
    // (light - dark) * 2 / (flat - dark) = [8/3, 4]
    let light = float_buffer(vec![5.0, 3.0], 2, 1);
    let dark = float_buffer(vec![1.0, 1.0], 2, 1);
    let flat = float_buffer(vec![4.0, 2.0], 2, 1);
    let out = calibrate_frame(
        light,
        &dark,
        &flat,
        sub_floor,
        positive_mean,
        |a: f32, k: f32| a * k,
        |a: f32, b: f32| if b != 0.0 { a / b } else { 0.0 },
    )
    .unwrap();
    assert!((out.get(0, 0).unwrap() - 8.0 / 3.0).abs() <= 1e-6);
    assert!((out.get(1, 0).unwrap() - 4.0).abs() <= 1e-6);
}

#[test]
fn calibration_rejects_mismatched_references() {
    let light = float_buffer(vec![5.0, 3.0], 2, 1);
    let dark = float_buffer(vec![1.0], 1, 1);
    let flat = float_buffer(vec![4.0, 2.0], 2, 1);
    let r = calibrate_frame(
        light,
        &dark,
        &flat,
        sub_floor,
        positive_mean,
        |a: f32, k: f32| a * k,
        |a: f32, b: f32| if b != 0.0 { a / b } else { 0.0 },
    );
    assert_eq!(r.unwrap_err(), Error::ArraySizeMismatch);
}

#[test]
fn align_centres_bright_region_and_crops() {
    // 8 x 8 frame, lone bright pixel at (5, 5): offset (-1, -1) centres
    // it at (4, 4); the centred 4 x 4 window sees it at (2, 2)
    let mut v = vec![0.0f32; 64];
    v[5 * 8 + 5] = 100.0;
    let frame = float_buffer(v, 8, 8);
    let out = align_frame(&frame, |s: f32| s >= 50.0, 0.0, 4, 4).unwrap();
    assert_eq!(out.width, 4);
    assert_eq!(out.height, 4);
    for y in 0..4 {
        for x in 0..4 {
            let expected = if x == 2 && y == 2 { 100.0 } else { 0.0 };
            assert_eq!(out.get(x, y).unwrap(), expected);
        }
    }
}

fn normalize_to_hundred(b: ImageBuffer<f32>) -> ImageBuffer<f32> {
    let mm = b.get_min_max(|a: f32, c: f32| a < c, None).unwrap();
    let range = mm.max - mm.min;
    if range == 0.0 {
        b.apply(|_v: f32| 0.0)
    } else {
        b.apply(|v: f32| (v - mm.min) / range * 100.0)
    }
}

#[test]
fn convert_centres_and_normalizes() {
    // no references: the lone bright pixel at (5, 5) is normalized to
    // 100, centred at (2, 2) of the 4 x 4 crop, and kept at 100 by the
    // second normalization
    let mut v = vec![0.0f32; 64];
    v[5 * 8 + 5] = 10.0;
    let light = float_buffer(v, 8, 8);
    let dark: ImageBuffer<f32> = ImageBuffer::new_empty().unwrap();
    let flat: ImageBuffer<f32> = ImageBuffer::new_empty().unwrap();
    let out = convert_frame(
        light,
        &dark,
        &flat,
        sub_floor,
        positive_mean,
        |a: f32, k: f32| a * k,
        |a: f32, b: f32| if b != 0.0 { a / b } else { 0.0 },
        normalize_to_hundred,
        |s: f32| s >= 50.0,
        0.0,
        4,
        4,
    )
    .unwrap();
    assert_eq!(out.width, 4);
    assert_eq!(out.height, 4);
    for y in 0..4 {
        for x in 0..4 {
            let expected = if x == 2 && y == 2 { 100.0 } else { 0.0 };
            assert_eq!(out.get(x, y).unwrap(), expected);
        }
    }
}

#[test]
fn convert_rejects_mismatched_references() {
    let light = float_buffer(vec![1.0, 2.0], 2, 1);
    let dark = float_buffer(vec![0.0], 1, 1);
    let flat = float_buffer(vec![1.0], 1, 1);
    let r = convert_frame(
        light,
        &dark,
        &flat,
        sub_floor,
        positive_mean,
        |a: f32, k: f32| a * k,
        |a: f32, b: f32| if b != 0.0 { a / b } else { 0.0 },
        normalize_to_hundred,
        |s: f32| s >= 50.0,
        0.0,
        1,
        1,
    );
    assert_eq!(r.unwrap_err(), Error::ArraySizeMismatch);
}

#[test]
fn align_rejects_oversized_crop() {
    let frame = float_buffer(vec![0.0; 16], 4, 4);
    assert_eq!(
        align_frame(&frame, |s: f32| s >= 1.0, 0.0, 8, 8).unwrap_err(),
        Error::DimensionMismatch
    );
}
