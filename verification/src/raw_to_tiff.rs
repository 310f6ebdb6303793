//! Calibration (dark/flat correction) and centre-of-mass alignment.

use vstd::prelude::*;

use crate::imagebuffer::{
    brightness_mask, com_offset_h, com_offset_v, elementwise, Error, ImageBuffer,
};

verus! {

/// Cell `i` of `out` carries the correction formula applied to cell `i`
/// of the light frame: subtract the dark, scale by the flat-dark mean
/// `m`, divide by the flat-dark cell.
pub open spec fn calibrated_cell<
    T: Copy,
    FSub: Fn(T, T) -> T,
    FScale: Fn(T, T) -> T,
    FDiv: Fn(T, T) -> T,
>(
    sub: FSub,
    scale_by: FScale,
    div: FDiv,
    light: Seq<T>,
    dark: Seq<T>,
    flatdark: Seq<T>,
    m: T,
    out: Seq<T>,
    i: int,
) -> bool {
    exists|ls: T, sc: T|
        {
            &&& call_ensures(sub, (light[i], dark[i]), ls)
            &&& #[trigger] call_ensures(scale_by, (ls, m), sc)
            &&& call_ensures(div, (sc, flatdark[i]), out[i])
        }
}

/// `out` is the calibrated version of `light` under the references `dark`
/// and `flat`, witnessed by the flat-dark frame `fd` and its mean `m`:
/// `fd = flat - dark` cell by cell, `m` is what `mean_of` reported of
/// `fd`, and every cell of `out` carries the correction formula.
pub open spec fn calibrated_with<
    T: Copy,
    FSub: Fn(T, T) -> T,
    FMean: Fn(&ImageBuffer<T>) -> T,
    FScale: Fn(T, T) -> T,
    FDiv: Fn(T, T) -> T,
>(
    sub: FSub,
    mean_of: FMean,
    scale_by: FScale,
    div: FDiv,
    light: ImageBuffer<T>,
    dark: ImageBuffer<T>,
    flat: ImageBuffer<T>,
    fd: ImageBuffer<T>,
    m: T,
    out: ImageBuffer<T>,
) -> bool {
    &&& fd.wf()
    &&& fd.width == flat.width
    &&& fd.height == flat.height
    &&& elementwise(sub, flat.samples(), dark.samples(), fd.samples())
    &&& call_ensures(mean_of, (&fd,), m)
    &&& out.samples().len() == light.samples().len()
    &&& forall|i: int|
        0 <= i < out.samples().len() ==> #[trigger] calibrated_cell(
            sub,
            scale_by,
            div,
            light.samples(),
            dark.samples(),
            fd.samples(),
            m,
            out.samples(),
            i,
        )
}

/// `out` is a calibration of `light` against `dark` and `flat` for some
/// flat-dark frame and mean.
pub open spec fn is_calibrated<
    T: Copy,
    FSub: Fn(T, T) -> T,
    FMean: Fn(&ImageBuffer<T>) -> T,
    FScale: Fn(T, T) -> T,
    FDiv: Fn(T, T) -> T,
>(
    sub: FSub,
    mean_of: FMean,
    scale_by: FScale,
    div: FDiv,
    light: ImageBuffer<T>,
    dark: ImageBuffer<T>,
    flat: ImageBuffer<T>,
    out: ImageBuffer<T>,
) -> bool {
    exists|fd: ImageBuffer<T>, m: T|
        #[trigger] calibrated_with(sub, mean_of, scale_by, div, light, dark, flat, fd, m, out)
}

/// Removes fixed-pattern bias and flat-field non-uniformity from a single
/// frame.  When either reference is the absent sentinel no correction is
/// requested and the light frame passes through unchanged.  Otherwise the
/// approximate correction `(light - dark) * mean(flat - dark) / (flat -
/// dark)` is applied cell by cell: a deliberate simplification that does
/// not normalise per-pixel gain independently of the mean flat level.
pub fn calibrate_frame<
    T: Copy,
    FSub: Fn(T, T) -> T + Copy,
    FMean: Fn(&ImageBuffer<T>) -> T,
    FScale: Fn(T, T) -> T,
    FDiv: Fn(T, T) -> T,
>(
    light: ImageBuffer<T>,
    dark: &ImageBuffer<T>,
    flat: &ImageBuffer<T>,
    sub: FSub,
    mean_of: FMean,
    scale_by: FScale,
    div: FDiv,
) -> (r: Result<ImageBuffer<T>, Error>)
    requires
        light.wf(),
        dark.wf(),
        flat.wf(),
        forall|a: T, b: T| call_requires(sub, (a, b)),
        forall|a: T, b: T| call_requires(scale_by, (a, b)),
        forall|a: T, b: T| call_requires(div, (a, b)),
        forall|b: ImageBuffer<T>| call_requires(mean_of, (&b,)),
    ensures
        dark.spec_is_empty() || flat.spec_is_empty() ==> r == Ok::<ImageBuffer<T>, Error>(light),
        !dark.spec_is_empty() && !flat.spec_is_empty() ==> {
            &&& r is Ok <==> flat.dims_match(dark) && light.dims_match(dark)
            &&& r is Err ==> r == Err::<ImageBuffer<T>, Error>(Error::ArraySizeMismatch)
        },
        r matches Ok(c) ==> !dark.spec_is_empty() && !flat.spec_is_empty() ==> {
            &&& c.wf()
            &&& !c.spec_is_empty()
            &&& c.width == light.width
            &&& c.height == light.height
            &&& is_calibrated(sub, mean_of, scale_by, div, light, *dark, *flat, c)
        },
{
    if dark.is_empty() || flat.is_empty() {
        return Ok(light);
    }
    let fd = match flat.combine(dark, sub) {
        Ok(b) => b,
        Err(e) => {
            return Err(e);
        },
    };
    let m = mean_of(&fd);
    let ls = match light.combine(dark, sub) {
        Ok(b) => b,
        Err(e) => {
            return Err(e);
        },
    };
    let sc = match ls.scale(m, scale_by) {
        Ok(b) => b,
        Err(e) => {
            return Err(e);
        },
    };
    let c = match sc.combine(&fd, div) {
        Ok(b) => b,
        Err(e) => {
            return Err(e);
        },
    };
    proof {
        assert forall|i: int| 0 <= i < c.samples().len() implies #[trigger] calibrated_cell(
            sub,
            scale_by,
            div,
            light.samples(),
            dark.samples(),
            fd.samples(),
            m,
            c.samples(),
            i,
        ) by {
            let lsv = ls.samples()[i];
            let scv = sc.samples()[i];
            assert(call_ensures(sub, (light.samples()[i], dark.samples()[i]), lsv));
            assert(call_ensures(scale_by, (lsv, m), scv));
            assert(call_ensures(div, (scv, fd.samples()[i]), c.samples()[i]));
        }
        assert(calibrated_with(sub, mean_of, scale_by, div, light, *dark, *flat, fd, m, c));
        assert(is_calibrated(sub, mean_of, scale_by, div, light, *dark, *flat, c));
    }
    Ok(c)
}

/// The intermediates of one convert pass: `light` calibrated into `cal`
/// (or passed through when a reference is absent), normalized into `n1`,
/// aligned into `al` over some brightness mask, and normalized again
/// into `out`.
pub open spec fn converted_with<
    T: Copy,
    FSub: Fn(T, T) -> T,
    FMean: Fn(&ImageBuffer<T>) -> T,
    FScale: Fn(T, T) -> T,
    FDiv: Fn(T, T) -> T,
    FNorm: Fn(ImageBuffer<T>) -> ImageBuffer<T>,
    FBright: Fn(T) -> bool,
>(
    sub: FSub,
    mean_of: FMean,
    scale_by: FScale,
    div: FDiv,
    normalize: FNorm,
    bright: FBright,
    light: ImageBuffer<T>,
    dark: ImageBuffer<T>,
    flat: ImageBuffer<T>,
    fill: T,
    ch: int,
    cw: int,
    cal: ImageBuffer<T>,
    n1: ImageBuffer<T>,
    al: ImageBuffer<T>,
    out: ImageBuffer<T>,
) -> bool {
    &&& (dark.spec_is_empty() || flat.spec_is_empty() ==> cal == light)
    &&& (!dark.spec_is_empty() && !flat.spec_is_empty() ==> is_calibrated(
        sub,
        mean_of,
        scale_by,
        div,
        light,
        dark,
        flat,
        cal,
    ))
    &&& call_ensures(normalize, (cal,), n1)
    &&& n1.width == light.width
    &&& n1.height == light.height
    &&& al.width == cw
    &&& al.height == ch
    &&& exists|mask: Seq<bool>|
        #[trigger] brightness_mask(bright, n1.samples(), mask) && aligned_cells(
            n1,
            mask,
            fill,
            al,
            ch,
            cw,
        )
    &&& call_ensures(normalize, (al,), out)
}

/// `out` is the result of one convert pass on `light` for some
/// calibrated, normalized and aligned intermediates.
pub open spec fn is_converted<
    T: Copy,
    FSub: Fn(T, T) -> T,
    FMean: Fn(&ImageBuffer<T>) -> T,
    FScale: Fn(T, T) -> T,
    FDiv: Fn(T, T) -> T,
    FNorm: Fn(ImageBuffer<T>) -> ImageBuffer<T>,
    FBright: Fn(T) -> bool,
>(
    sub: FSub,
    mean_of: FMean,
    scale_by: FScale,
    div: FDiv,
    normalize: FNorm,
    bright: FBright,
    light: ImageBuffer<T>,
    dark: ImageBuffer<T>,
    flat: ImageBuffer<T>,
    fill: T,
    ch: int,
    cw: int,
    out: ImageBuffer<T>,
) -> bool {
    exists|cal: ImageBuffer<T>, n1: ImageBuffer<T>, al: ImageBuffer<T>|
        #[trigger] converted_with(
            sub,
            mean_of,
            scale_by,
            div,
            normalize,
            bright,
            light,
            dark,
            flat,
            fill,
            ch,
            cw,
            cal,
            n1,
            al,
            out,
        )
}

/// One full convert pass: calibrate, normalize so the brightness
/// threshold is meaningful, centre and crop, then normalize again for
/// output.  The normalization pass is supplied as a grid-preserving
/// transform; diagnostics are the caller's business and never alter the
/// pipeline.
pub fn convert_frame<
    T: Copy,
    FSub: Fn(T, T) -> T + Copy,
    FMean: Fn(&ImageBuffer<T>) -> T,
    FScale: Fn(T, T) -> T,
    FDiv: Fn(T, T) -> T,
    FNorm: Fn(ImageBuffer<T>) -> ImageBuffer<T> + Copy,
    FBright: Fn(T) -> bool,
>(
    light: ImageBuffer<T>,
    dark: &ImageBuffer<T>,
    flat: &ImageBuffer<T>,
    sub: FSub,
    mean_of: FMean,
    scale_by: FScale,
    div: FDiv,
    normalize: FNorm,
    bright: FBright,
    fill: T,
    crop_height: usize,
    crop_width: usize,
) -> (r: Result<ImageBuffer<T>, Error>)
    requires
        light.wf(),
        dark.wf(),
        flat.wf(),
        light.width <= i32::MAX,
        light.height <= i32::MAX,
        forall|a: T, b: T| call_requires(sub, (a, b)),
        forall|a: T, b: T| call_requires(scale_by, (a, b)),
        forall|a: T, b: T| call_requires(div, (a, b)),
        forall|b: ImageBuffer<T>| call_requires(mean_of, (&b,)),
        forall|v: T| call_requires(bright, (v,)),
        forall|b: ImageBuffer<T>| call_requires(normalize, (b,)),
        // normalization keeps the grid
        forall|b: ImageBuffer<T>, o: ImageBuffer<T>|
            #[trigger] call_ensures(normalize, (b,), o) ==> o.wf() && o.width == b.width
                && o.height == b.height,
    ensures
        r is Ok <==> {
            &&& (dark.spec_is_empty() || flat.spec_is_empty()) || (flat.dims_match(dark)
                && light.dims_match(dark))
            &&& crop_width <= light.width
            &&& crop_height <= light.height
        },
        r matches Ok(out) ==> is_converted(
            sub,
            mean_of,
            scale_by,
            div,
            normalize,
            bright,
            light,
            *dark,
            *flat,
            fill,
            crop_height as int,
            crop_width as int,
            out,
        ),
{
    let cal = match calibrate_frame(light, dark, flat, sub, mean_of, scale_by, div) {
        Ok(b) => b,
        Err(e) => {
            return Err(e);
        },
    };
    let ghost cal_snapshot = cal;
    let n1 = normalize(cal);
    let al = match align_frame(&n1, bright, fill, crop_height, crop_width) {
        Ok(b) => b,
        Err(e) => {
            return Err(e);
        },
    };
    let ghost al_snapshot = al;
    let out = normalize(al);
    proof {
        assert(converted_with(
            sub,
            mean_of,
            scale_by,
            div,
            normalize,
            bright,
            light,
            *dark,
            *flat,
            fill,
            crop_height as int,
            crop_width as int,
            cal_snapshot,
            n1,
            al_snapshot,
            out,
        ));
        assert(is_converted(
            sub,
            mean_of,
            scale_by,
            div,
            normalize,
            bright,
            light,
            *dark,
            *flat,
            fill,
            crop_height as int,
            crop_width as int,
            out,
        ));
    }
    Ok(out)
}

/// The cells of `out` are the cells of `src` first shifted by the
/// centre-of-mass offset of `mask` and then cropped to the centred
/// `cw * ch` window.
pub open spec fn aligned_cells<T: Copy>(
    src: ImageBuffer<T>,
    mask: Seq<bool>,
    fill: T,
    out: ImageBuffer<T>,
    ch: int,
    cw: int,
) -> bool {
    forall|x: int, y: int|
        0 <= x < cw && 0 <= y < ch ==> #[trigger] out.sample(x, y) == src.shifted_sample(
            x + (src.width - cw) / 2,
            y + (src.height - ch) / 2,
            com_offset_h(mask, src.width as int),
            com_offset_v(mask, src.width as int, src.height as int),
            fill,
        )
}

/// Centres the bright region of interest and crops to a fixed output
/// size: the centre-of-mass offset of the pixels `bright` accepts is
/// computed, the frame is shifted by it (vacated cells filled with
/// `fill`), and the centred `crop_height * crop_width` window is cut out.
/// A crop larger than the frame fails with `DimensionMismatch`.
pub fn align_frame<T: Copy, F: Fn(T) -> bool>(
    frame: &ImageBuffer<T>,
    bright: F,
    fill: T,
    crop_height: usize,
    crop_width: usize,
) -> (r: Result<ImageBuffer<T>, Error>)
    requires
        frame.wf(),
        frame.width <= i32::MAX,
        frame.height <= i32::MAX,
        forall|v: T| call_requires(bright, (v,)),
    ensures
        r is Ok <==> crop_width <= frame.width && crop_height <= frame.height,
        r is Err ==> r == Err::<ImageBuffer<T>, Error>(Error::DimensionMismatch),
        r matches Ok(c) ==> {
            &&& c.wf()
            &&& !c.spec_is_empty()
            &&& c.width == crop_width
            &&& c.height == crop_height
            &&& exists|mask: Seq<bool>|
                {
                    &&& #[trigger] brightness_mask(bright, frame.samples(), mask)
                    &&& aligned_cells(
                        *frame,
                        mask,
                        fill,
                        c,
                        crop_height as int,
                        crop_width as int,
                    )
                }
        },
{
    let offset = match frame.calc_center_of_mass_offset(bright) {
        Ok(o) => o,
        Err(e) => {
            return Err(e);
        },
    };
    let ghost mask: Seq<bool> = choose|mask: Seq<bool>|
        {
            &&& #[trigger] brightness_mask(bright, frame.samples(), mask)
            &&& offset.h == com_offset_h(mask, frame.width as int)
            &&& offset.v == com_offset_v(mask, frame.width as int, frame.height as int)
        };
    let shifted = match frame.shift(offset.h, offset.v, fill) {
        Ok(b) => b,
        Err(e) => {
            return Err(e);
        },
    };
    let cropped = match shifted.crop(crop_height, crop_width) {
        Ok(b) => b,
        Err(e) => {
            return Err(e);
        },
    };
    proof {
        assert(aligned_cells(
            *frame,
            mask,
            fill,
            cropped,
            crop_height as int,
            crop_width as int,
        ));
    }
    Ok(cropped)
}

} // verus!
