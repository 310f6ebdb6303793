use cr2_to_tiff_halpha::imagebuffer::{Error, ImageBuffer, MinMax, Offset};

fn float_buffer(v: Vec<f32>, w: usize, h: usize) -> ImageBuffer<f32> {
    ImageBuffer::from_vec(v, w, h).unwrap()
}

fn lt(a: f32, b: f32) -> bool {
    a < b
}

fn min_max(b: &ImageBuffer<f32>, override_min: Option<f32>) -> MinMax<f32> {
    b.get_min_max(lt, override_min).unwrap()
}

#[test]
fn new_is_filled() {
    let b: ImageBuffer<f32> = ImageBuffer::new(3, 2, 0.0).unwrap();
    assert_eq!(b.width, 3);
    assert_eq!(b.height, 2);
    for y in 0..2 {
        for x in 0..3 {
            assert_eq!(b.get(x, y).unwrap(), 0.0);
        }
    }
}

#[test]
fn new_empty_is_absent() {
    let b: ImageBuffer<f32> = ImageBuffer::new_empty().unwrap();
    assert!(b.is_empty());
    assert_eq!(b.width, 0);
    assert_eq!(b.height, 0);
    let f: ImageBuffer<f32> = ImageBuffer::new(1, 1, 0.0).unwrap();
    assert!(!f.is_empty());
}

#[test]
fn from_vec_checks_length() {
    assert!(ImageBuffer::from_vec(vec![1.0f32, 2.0, 3.0], 3, 1).is_ok());
    assert_eq!(
        ImageBuffer::from_vec(vec![1.0f32, 2.0, 3.0], 2, 2).unwrap_err(),
        Error::DimensionMismatch
    );
}

#[test]
fn get_and_put_are_bounds_checked() {
    let mut b = float_buffer(vec![1.0, 2.0, 3.0, 4.0], 2, 2);
    assert_eq!(b.get(1, 0).unwrap(), 2.0);
    assert_eq!(b.get(2, 0).unwrap_err(), Error::InvalidCoordinate);
    assert_eq!(b.get(0, 2).unwrap_err(), Error::InvalidCoordinate);
    b.put(0, 1, 9.5).unwrap();
    assert_eq!(b.get(0, 1).unwrap(), 9.5);
    assert_eq!(b.put(2, 0, 1.0).unwrap_err(), Error::InvalidCoordinate);
    assert_eq!(b.get(1, 1).unwrap(), 4.0);
}

#[test]
fn combine_adds_elementwise() {
    let a = float_buffer(vec![1.0, 2.0, 3.0, 4.0], 2, 2);
    let b = float_buffer(vec![10.0, 20.0, 30.0, 40.0], 2, 2);
    let c = a.combine(&b, |x: f32, y: f32| x + y).unwrap();
    assert_eq!(c.get(0, 0).unwrap(), 11.0);
    assert_eq!(c.get(1, 0).unwrap(), 22.0);
    assert_eq!(c.get(0, 1).unwrap(), 33.0);
    assert_eq!(c.get(1, 1).unwrap(), 44.0);
    // operands unmodified
    assert_eq!(a.get(0, 0).unwrap(), 1.0);
    assert_eq!(b.get(0, 0).unwrap(), 10.0);
}

#[test]
fn combine_rejects_size_mismatch() {
    let a = float_buffer(vec![1.0, 2.0], 2, 1);
    let b = float_buffer(vec![1.0, 2.0], 1, 2);
    assert_eq!(
        a.combine(&b, |x: f32, y: f32| x + y).unwrap_err(),
        Error::ArraySizeMismatch
    );
}

#[test]
fn subtract_floors_at_zero() {
    let a = float_buffer(vec![5.0, 1.0, 3.0], 3, 1);
    let b = float_buffer(vec![2.0, 4.0, 3.0], 3, 1);
    let d = a
        .combine(&b, |x: f32, y: f32| if x - y < 0.0 { 0.0 } else { x - y })
        .unwrap();
    assert_eq!(d.get(0, 0).unwrap(), 3.0);
    assert_eq!(d.get(1, 0).unwrap(), 0.0);
    assert_eq!(d.get(2, 0).unwrap(), 0.0);
}

#[test]
fn add_then_subtract_restores_frame() {
    // the round-trip law, on cells where no clipping happens
    let a = float_buffer(vec![5.0, 7.0, 9.0, 11.0], 2, 2);
    let b = float_buffer(vec![2.0, 3.0, 4.0, 5.0], 2, 2);
    let c = a.combine(&b, |x: f32, y: f32| x + y).unwrap();
    let d = c
        .combine(&b, |x: f32, y: f32| if x - y < 0.0 { 0.0 } else { x - y })
        .unwrap();
    for y in 0..2 {
        for x in 0..2 {
            assert_eq!(d.get(x, y).unwrap(), a.get(x, y).unwrap());
        }
    }
}

#[test]
fn divide_by_zero_cell_yields_zero() {
    let a = float_buffer(vec![8.0, 9.0, -3.0], 3, 1);
    let b = float_buffer(vec![2.0, 0.0, 0.0], 3, 1);
    let q = a
        .combine(&b, |x: f32, y: f32| if y != 0.0 { x / y } else { 0.0 })
        .unwrap();
    assert_eq!(q.get(0, 0).unwrap(), 4.0);
    assert_eq!(q.get(1, 0).unwrap(), 0.0);
    assert_eq!(q.get(2, 0).unwrap(), 0.0);
    assert!(q.get(1, 0).unwrap().is_finite());
    assert!(q.get(2, 0).unwrap().is_finite());
}

#[test]
fn scale_twice_equals_scale_by_product() {
    let a = float_buffer(vec![1.0, 2.5, -3.0, 0.5], 2, 2);
    let mul = |x: f32, k: f32| x * k;
    let twice = a
        .scale(2.0, mul)
        .unwrap()
        .scale(4.0, mul)
        .unwrap();
    let once = a.scale(8.0, mul).unwrap();
    for y in 0..2 {
        for x in 0..2 {
            let d = (twice.get(x, y).unwrap() - once.get(x, y).unwrap()).abs();
            assert!(d <= 1e-6);
        }
    }
}

#[test]
fn divide_into_scalar_dividend() {
    let a = float_buffer(vec![4.0, 0.0, 8.0], 3, 1);
    let q = a
        .scale(2.0, |x: f32, k: f32| if x != 0.0 { k / x } else { 0.0 })
        .unwrap();
    assert_eq!(q.get(0, 0).unwrap(), 0.5);
    assert_eq!(q.get(1, 0).unwrap(), 0.0);
    assert_eq!(q.get(2, 0).unwrap(), 0.25);
}

#[test]
fn divide_into_known_extremes() {
    // a channel ranging over [935, 1223], divided into 2.0
    let b = float_buffer(vec![935.0, 1000.0, 1223.0, 940.0], 2, 2);
    let q = b
        .scale(2.0, |a: f32, k: f32| if a != 0.0 { k / a } else { 0.0 })
        .unwrap();
    let mm = q.get_min_max(lt, None).unwrap();
    assert_eq!(mm.min, 0.0016353229);
    assert_eq!(mm.max, 0.0021390375);
}

#[test]
fn get_min_max_scans_and_overrides() {
    let b = float_buffer(vec![935.0, 1000.0, 1223.0, 940.0], 2, 2);
    let mm = min_max(&b, None);
    assert_eq!(mm.min, 935.0);
    assert_eq!(mm.max, 1223.0);
    let mm2 = min_max(&b, Some(400.0));
    assert_eq!(mm2.min, 400.0);
    assert_eq!(mm2.max, 1223.0);
}

#[test]
fn scaled_min_max_doubles() {
    let b = float_buffer(vec![935.0, 1000.0, 1223.0, 940.0], 2, 2);
    let s = b.scale(2.0, |x: f32, k: f32| x * k).unwrap();
    let mm = min_max(&s, None);
    assert_eq!(mm.min, 935.0 * 2.0);
    assert_eq!(mm.max, 1223.0 * 2.0);
}

#[test]
fn normalize_recipe_maps_range() {
    // shift-to-zero then rescale, as the pipeline composes it
    let b = float_buffer(vec![10.0, 20.0, 35.0, 15.0], 2, 2);
    let mm = min_max(&b, None);
    let (lo, hi) = (0.0f32, 65535.0f32);
    let range = mm.max - mm.min;
    let n = b.apply(|v: f32| (v - mm.min) / range * (hi - lo) + lo);
    let nm = min_max(&n, None);
    assert_eq!(nm.min, lo);
    assert_eq!(nm.max, hi);
}

#[test]
fn normalize_constant_buffer_maps_to_min() {
    let b = float_buffer(vec![7.0, 7.0, 7.0, 7.0], 2, 2);
    let mm = min_max(&b, None);
    let (lo, hi) = (3.0f32, 10.0f32);
    let range = mm.max - mm.min;
    let n = if range == 0.0 {
        b.apply(|_v: f32| lo)
    } else {
        b.apply(|v: f32| (v - mm.min) / range * (hi - lo) + lo)
    };
    for y in 0..2 {
        for x in 0..2 {
            assert_eq!(n.get(x, y).unwrap(), 3.0);
        }
    }
}

#[test]
fn red_extracts_even_positions() {
    let b = float_buffer(
        (0..16).map(|i| i as f32).collect::<Vec<f32>>(),
        4,
        4,
    );
    let r = b.red().unwrap();
    assert_eq!(r.width, 2);
    assert_eq!(r.height, 2);
    assert_eq!(r.get(0, 0).unwrap(), 0.0);
    assert_eq!(r.get(1, 0).unwrap(), 2.0);
    assert_eq!(r.get(0, 1).unwrap(), 8.0);
    assert_eq!(r.get(1, 1).unwrap(), 10.0);
}

#[test]
fn red_halves_full_sensor_dimensions() {
    // the full-sensor geometry of a 4770 x 3176 Bayer frame
    let b: ImageBuffer<u16> = ImageBuffer::new(4770, 3176, 0u16).unwrap();
    let r = b.red().unwrap();
    assert_eq!(r.width, 2385);
    assert_eq!(r.height, 1588);
}

#[test]
fn crop_takes_centered_window() {
    let b = float_buffer(
        (0..16).map(|i| i as f32).collect::<Vec<f32>>(),
        4,
        4,
    );
    let c = b.crop(2, 2).unwrap();
    assert_eq!(c.width, 2);
    assert_eq!(c.height, 2);
    assert_eq!(c.get(0, 0).unwrap(), 5.0);
    assert_eq!(c.get(1, 0).unwrap(), 6.0);
    assert_eq!(c.get(0, 1).unwrap(), 9.0);
    assert_eq!(c.get(1, 1).unwrap(), 10.0);
}

#[test]
fn crop_larger_than_source_fails_fast() {
    let b = float_buffer(vec![1.0, 2.0, 3.0, 4.0], 2, 2);
    assert_eq!(b.crop(3, 2).unwrap_err(), Error::DimensionMismatch);
    assert_eq!(b.crop(2, 3).unwrap_err(), Error::DimensionMismatch);
    assert!(b.crop(2, 2).is_ok());
}

#[test]
fn shift_translates_and_fills() {
    let b = float_buffer(vec![1.0, 2.0, 3.0, 4.0], 2, 2);
    let s = b.shift(1, 0, 0.0).unwrap();
    assert_eq!(s.get(0, 0).unwrap(), 0.0);
    assert_eq!(s.get(1, 0).unwrap(), 1.0);
    assert_eq!(s.get(0, 1).unwrap(), 0.0);
    assert_eq!(s.get(1, 1).unwrap(), 3.0);
    let n = b.shift(-1, -1, 0.0).unwrap();
    assert_eq!(n.get(0, 0).unwrap(), 4.0);
    assert_eq!(n.get(1, 0).unwrap(), 0.0);
    assert_eq!(n.get(1, 1).unwrap(), 0.0);
}

#[test]
fn from_raw_trims_margins() {
    // 4 x 3 raw frame, top margin 1, left margin 2
    let raw: Vec<u16> = vec![
        0, 0, 0, 0, //
        9, 9, 5, 6, //
        9, 9, 7, 8,
    ];
    let b = ImageBuffer::from_raw(&raw, 4, 3, 1, 2).unwrap();
    assert_eq!(b.width, 2);
    assert_eq!(b.height, 2);
    assert_eq!(b.get(0, 0).unwrap(), 5);
    assert_eq!(b.get(1, 0).unwrap(), 6);
    assert_eq!(b.get(0, 1).unwrap(), 7);
    assert_eq!(b.get(1, 1).unwrap(), 8);
}

#[test]
fn from_raw_rejects_bad_geometry() {
    let raw: Vec<u16> = vec![1, 2, 3];
    assert_eq!(
        ImageBuffer::from_raw(&raw, 2, 2, 0, 0).unwrap_err(),
        Error::DimensionMismatch
    );
    let raw4: Vec<u16> = vec![1, 2, 3, 4];
    assert_eq!(
        ImageBuffer::from_raw(&raw4, 2, 2, 3, 0).unwrap_err(),
        Error::DimensionMismatch
    );
}

#[test]
fn center_of_mass_of_centered_pixel_is_zero() {
    // single bright pixel exactly at the geometric centre
    let mut v = vec![0.0f32; 16];
    v[2 * 4 + 2] = 100.0;
    let b = float_buffer(v, 4, 4);
    let o = b.calc_center_of_mass_offset(|s: f32| s >= 50.0).unwrap();
    assert_eq!(o, Offset { h: 0, v: 0 });
}

#[test]
fn center_of_mass_of_corner_pixel() {
    let mut v = vec![0.0f32; 16];
    v[0] = 100.0;
    let b = float_buffer(v, 4, 4);
    let o = b.calc_center_of_mass_offset(|s: f32| s >= 50.0).unwrap();
    assert_eq!(o, Offset { h: 2, v: 2 });
}

#[test]
fn center_of_mass_rounds_ties_away_from_zero() {
    // 3 x 3 frame, bright pixel at (0, 0): offset 3 / 2 - 0 = 1.5 -> 2
    let mut v = vec![0.0f32; 9];
    v[0] = 100.0;
    let b = float_buffer(v, 3, 3);
    let o = b.calc_center_of_mass_offset(|s: f32| s >= 50.0).unwrap();
    assert_eq!(o, Offset { h: 2, v: 2 });
}

#[test]
fn center_of_mass_without_bright_pixels_is_zero() {
    let b = float_buffer(vec![1.0; 9], 3, 3);
    let o = b.calc_center_of_mass_offset(|s: f32| s >= 50.0).unwrap();
    assert_eq!(o, Offset { h: 0, v: 0 });
}

#[test]
fn fold_computes_positive_mean() {
    // the mean over strictly positive samples, as the calibrator uses it
    let b = float_buffer(vec![2.0, 0.0, 4.0, -1.0, 6.0, 0.0], 3, 2);
    let (total, count) = b.fold((0.0f32, 0.0f32), |acc: (f32, f32), v: f32| {
        if v > 0.0 {
            (acc.0 + v, acc.1 + 1.0)
        } else {
            acc
        }
    });
    assert_eq!(total, 12.0);
    assert_eq!(count, 3.0);
    assert_eq!(total / count, 4.0);
}
