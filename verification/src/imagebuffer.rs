//! A bounds-checked, single-channel raster buffer and its transforms.

use vstd::prelude::*;

verus! {

/// The failure kinds the pipeline can signal.  Geometry and arithmetic
/// errors indicate a contract violation for one frame; file-level kinds are
/// raised by the I/O collaborators at the boundary.
#[derive(Clone, Copy, Debug, PartialEq, Eq, Structural)]
pub enum Error {
    FileNotFound,
    DimensionMismatch,
    ArraySizeMismatch,
    InvalidCoordinate,
    ParentDirectoryUnwritable,
    NoFilesUsed,
    DecodeFailure,
    EncodeFailure,
}

/// An integer translation in pixel units, produced once per alignment pass
/// and consumed immediately by a shift.
#[derive(Clone, Copy, Debug, PartialEq, Eq, Structural)]
pub struct Offset {
    pub h: i32,
    pub v: i32,
}

/// A derived summary of a raster's dynamic range.
#[derive(Debug)]
pub struct MinMax<T> {
    pub min: T,
    pub max: T,
}

/// A single-channel raster: a flat vector of samples in row-major order
/// (index `y * width + x`), plus an "absent" sentinel state that stands for
/// "no reference frame supplied".
#[derive(Debug)]
pub struct ImageBuffer<T> {
    pub buffer: Vec<T>,
    pub width: usize,
    pub height: usize,
    pub empty: bool,
}

impl<T: Copy> ImageBuffer<T> {
    /// The raster's contents, row-major.
    pub open spec fn samples(&self) -> Seq<T> {
        self.buffer@
    }

    /// Whether this buffer is the "absent" sentinel.
    pub open spec fn spec_is_empty(&self) -> bool {
        self.empty
    }

    /// Structural invariant: the sample count matches the dimensions, and
    /// the absent sentinel has zero size.
    pub open spec fn wf(&self) -> bool {
        &&& self.samples().len() == self.width * self.height
        &&& self.width * self.height <= usize::MAX
        &&& (self.spec_is_empty() ==> self.width == 0 && self.height == 0)
    }

    /// Both rasters cover the same grid.
    pub open spec fn dims_match(&self, other: &ImageBuffer<T>) -> bool {
        self.width == other.width && self.height == other.height
    }

    /// Whether `(x, y)` is a valid coordinate of this raster.
    pub open spec fn in_bounds(&self, x: int, y: int) -> bool {
        0 <= x < self.width && 0 <= y < self.height
    }

    /// The sample at `(x, y)`.
    pub open spec fn sample(&self, x: int, y: int) -> T {
        self.samples()[y * self.width + x]
    }

    /// A buffer of the requested dimensions with every cell set to `fill`.
    /// Fails only when the sample count would not fit in memory.
    pub fn new(width: usize, height: usize, fill: T) -> (r: Result<ImageBuffer<T>, Error>)
        ensures
            r matches Ok(b) ==> {
                &&& b.wf()
                &&& !b.spec_is_empty()
                &&& b.width == width
                &&& b.height == height
                &&& forall|i: int| 0 <= i < b.samples().len() ==> b.samples()[i] == fill
            },
            r is Ok <==> width * height <= usize::MAX,
            r is Err ==> r == Err::<ImageBuffer<T>, Error>(Error::DimensionMismatch),
    {
        match width.checked_mul(height) {
            Some(total) => {
                let mut v: Vec<T> = Vec::new();
                let mut i: usize = 0;
                while i < total
                    invariant
                        i <= total,
                        v@.len() == i,
                        forall|j: int| 0 <= j < i ==> v@[j] == fill,
                    decreases total - i,
                {
                    v.push(fill);
                    i = i + 1;
                }
                Ok(ImageBuffer { buffer: v, width, height, empty: false })
            },
            None => Err(Error::DimensionMismatch),
        }
    }

    /// The absent sentinel: dimension 0 x 0.  A consumer must check
    /// `is_empty` before treating a buffer as calibration data.
    pub fn new_empty() -> (r: Result<ImageBuffer<T>, Error>)
        ensures
            r matches Ok(b) ==> {
                &&& b.wf()
                &&& b.spec_is_empty()
                &&& b.width == 0
                &&& b.height == 0
            },
            r is Ok,
    {
        Ok(ImageBuffer { buffer: Vec::new(), width: 0, height: 0, empty: true })
    }

    /// Wraps an existing sample vector.  Fails with `DimensionMismatch`
    /// when the vector's length does not equal `width * height`.
    pub fn from_vec(v: Vec<T>, width: usize, height: usize) -> (r: Result<ImageBuffer<T>, Error>)
        ensures
            r matches Ok(b) ==> {
                &&& b.wf()
                &&& !b.spec_is_empty()
                &&& b.width == width
                &&& b.height == height
                &&& b.samples() == v@
            },
            r is Ok <==> v@.len() == width * height,
            r is Err ==> r == Err::<ImageBuffer<T>, Error>(Error::DimensionMismatch),
    {
        match width.checked_mul(height) {
            Some(total) => {
                if v.len() == total {
                    Ok(ImageBuffer { buffer: v, width, height, empty: false })
                } else {
                    Err(Error::DimensionMismatch)
                }
            },
            None => {
                // `v` holds at most `usize::MAX` samples, so it cannot match
                // a sample count that overflows.
                let l = v.len();
                assert(l <= usize::MAX);
                Err(Error::DimensionMismatch)
            },
        }
    }

    /// Whether this buffer is the absent sentinel.
    pub fn is_empty(&self) -> (r: bool)
        ensures
            r == self.spec_is_empty(),
    {
        self.empty
    }

    /// The sample at `(x, y)`; `InvalidCoordinate` when out of range.
    pub fn get(&self, x: usize, y: usize) -> (r: Result<T, Error>)
        requires
            self.wf(),
        ensures
            self.in_bounds(x as int, y as int) ==> r == Ok::<T, Error>(self.sample(x as int, y as int)),
            !self.in_bounds(x as int, y as int) ==> r == Err::<T, Error>(Error::InvalidCoordinate),
    {
        if x < self.width && y < self.height {
            proof {
                lemma_row_major_index_bound(x as int, y as int, self.width as int, self.height as int);
            }
            let index: usize = y * self.width + x;
            Ok(self.buffer[index])
        } else {
            Err(Error::InvalidCoordinate)
        }
    }

    /// Overwrites the sample at `(x, y)`; `InvalidCoordinate` when out of
    /// range, leaving the buffer unchanged.
    pub fn put(&mut self, x: usize, y: usize, val: T) -> (r: Result<(), Error>)
        requires
            old(self).wf(),
        ensures
            final(self).wf(),
            final(self).width == old(self).width,
            final(self).height == old(self).height,
            final(self).spec_is_empty() == old(self).spec_is_empty(),
            old(self).in_bounds(x as int, y as int) ==> {
                &&& r == Ok::<(), Error>(())
                &&& final(self).samples() == old(self).samples().update(
                    y * old(self).width + x,
                    val,
                )
            },
            !old(self).in_bounds(x as int, y as int) ==> {
                &&& r == Err::<(), Error>(Error::InvalidCoordinate)
                &&& final(self).samples() == old(self).samples()
            },
    {
        if x < self.width && y < self.height {
            proof {
                lemma_row_major_index_bound(x as int, y as int, self.width as int, self.height as int);
            }
            let index: usize = y * self.width + x;
            self.put_to_index(index, val)
        } else {
            Err(Error::InvalidCoordinate)
        }
    }

    /// Overwrites the sample at a flat row-major index.
    fn put_to_index(&mut self, index: usize, val: T) -> (r: Result<(), Error>)
        requires
            old(self).wf(),
        ensures
            final(self).wf(),
            final(self).width == old(self).width,
            final(self).height == old(self).height,
            final(self).spec_is_empty() == old(self).spec_is_empty(),
            index < old(self).samples().len() ==> {
                &&& r == Ok::<(), Error>(())
                &&& final(self).samples() == old(self).samples().update(index as int, val)
            },
            index >= old(self).samples().len() ==> {
                &&& r == Err::<(), Error>(Error::InvalidCoordinate)
                &&& final(self).samples() == old(self).samples()
            },
    {
        if index < self.buffer.len() {
            self.buffer.set(index, val);
            Ok(())
        } else {
            Err(Error::InvalidCoordinate)
        }
    }
}

impl<T: Copy> ImageBuffer<T> {
    /// What a cell of this raster shifted by `(horiz, vert)` holds: the
    /// source sample that lands there, or `fill` where none does.
    pub open spec fn shifted_sample(&self, x: int, y: int, horiz: int, vert: int, fill: T) -> T {
        if self.in_bounds(x - horiz, y - vert) {
            self.sample(x - horiz, y - vert)
        } else {
            fill
        }
    }

    /// The centred sub-rectangle of the requested size (arguments in the
    /// order `height`, `width`).  A request larger than the source in either
    /// dimension fails fast with `DimensionMismatch`: the policy chosen for
    /// the otherwise-unspecified oversized-crop boundary.
    pub fn crop(&self, height: usize, width: usize) -> (r: Result<ImageBuffer<T>, Error>)
        requires
            self.wf(),
        ensures
            r is Ok <==> width <= self.width && height <= self.height,
            r matches Ok(c) ==> {
                &&& c.wf()
                &&& !c.spec_is_empty()
                &&& c.width == width
                &&& c.height == height
                &&& forall|x: int, y: int|
                    0 <= x < width && 0 <= y < height ==> #[trigger] c.sample(x, y) == self.sample(
                        x + (self.width - width) / 2,
                        y + (self.height - height) / 2,
                    )
            },
            r is Err ==> r == Err::<ImageBuffer<T>, Error>(Error::DimensionMismatch),
    {
        if width > self.width || height > self.height {
            return Err(Error::DimensionMismatch);
        }
        let x0 = (self.width - width) / 2;
        let y0 = (self.height - height) / 2;
        let v = Self::extract_rect(&self.buffer, self.width, self.height, x0, y0, width, height);
        let n = v.len();
        assert(n <= usize::MAX);
        Ok(ImageBuffer { buffer: v, width, height, empty: false })
    }

    /// Builds a raster from a decoded raw sensor frame: a flat row-major
    /// array of `raw_width * raw_height` readings whose top `top_margin`
    /// rows and left `left_margin` columns are masked border, not image.
    /// The margins are trimmed away; the result is the active area.
    pub fn from_raw(
        v: &Vec<T>,
        raw_width: usize,
        raw_height: usize,
        top_margin: usize,
        left_margin: usize,
    ) -> (r: Result<ImageBuffer<T>, Error>)
        ensures
            r is Ok <==> {
                &&& v@.len() == raw_width * raw_height
                &&& top_margin <= raw_height
                &&& left_margin <= raw_width
            },
            r matches Ok(b) ==> {
                &&& b.wf()
                &&& !b.spec_is_empty()
                &&& b.width == raw_width - left_margin
                &&& b.height == raw_height - top_margin
                &&& forall|x: int, y: int|
                    0 <= x < b.width && 0 <= y < b.height ==> #[trigger] b.sample(x, y) == v@[(
                    top_margin + y) * raw_width + (left_margin + x)]
            },
            r is Err ==> r == Err::<ImageBuffer<T>, Error>(Error::DimensionMismatch),
    {
        if left_margin > raw_width || top_margin > raw_height {
            let l = v.len();
            assert(l <= usize::MAX);
            return Err(Error::DimensionMismatch);
        }
        match raw_width.checked_mul(raw_height) {
            Some(total) => {
                if v.len() == total {
                    let w = raw_width - left_margin;
                    let h = raw_height - top_margin;
                    let buf = Self::extract_rect(
                        v,
                        raw_width,
                        raw_height,
                        left_margin,
                        top_margin,
                        w,
                        h,
                    );
                    let n = buf.len();
                    assert(n <= usize::MAX);
                    Ok(ImageBuffer { buffer: buf, width: w, height: h, empty: false })
                } else {
                    Err(Error::DimensionMismatch)
                }
            },
            None => {
                let l = v.len();
                assert(l <= usize::MAX);
                Err(Error::DimensionMismatch)
            },
        }
    }

    /// Extracts the red-filtered positions of an RGGB mosaic: the samples
    /// at even `(x, y)` coordinates, halving both dimensions.  A structural
    /// channel extraction, not an interpolating demosaic.
    pub fn red(&self) -> (r: Result<ImageBuffer<T>, Error>)
        requires
            self.wf(),
        ensures
            r is Ok,
            r matches Ok(b) ==> {
                &&& b.wf()
                &&& !b.spec_is_empty()
                &&& b.width == self.width / 2
                &&& b.height == self.height / 2
                &&& forall|x: int, y: int|
                    0 <= x < b.width && 0 <= y < b.height ==> #[trigger] b.sample(x, y)
                        == self.sample(2 * x, 2 * y)
            },
    {
        let w = self.width / 2;
        let h = self.height / 2;
        let mut out: Vec<T> = Vec::new();
        let mut y: usize = 0;
        while y < h
            invariant
                self.wf(),
                w == self.width / 2,
                h == self.height / 2,
                y <= h,
                out@.len() == y * w,
                forall|xx: int, yy: int|
                    0 <= xx < w && 0 <= yy < y ==> #[trigger] out@[yy * w + xx] == self.sample(
                        2 * xx,
                        2 * yy,
                    ),
            decreases h - y,
        {
            let mut x: usize = 0;
            while x < w
                invariant
                    self.wf(),
                    w == self.width / 2,
                    h == self.height / 2,
                    y < h,
                    x <= w,
                    out@.len() == y * w + x,
                    forall|xx: int, yy: int|
                        0 <= xx < w && 0 <= yy < y ==> #[trigger] out@[yy * w + xx] == self.sample(
                            2 * xx,
                            2 * yy,
                        ),
                    forall|xx: int|
                        0 <= xx < x ==> #[trigger] out@[y * w + xx] == self.sample(
                            2 * xx,
                            2 * y as int,
                        ),
                decreases w - x,
            {
                let sy = 2 * y;
                let sx = 2 * x;
                proof {
                    lemma_row_major_index_bound(
                        sx as int,
                        sy as int,
                        self.width as int,
                        self.height as int,
                    );
                }
                let idx: usize = sy * self.width + sx;
                out.push(self.buffer[idx]);
                x = x + 1;
                proof {
                    lemma_partial_row_in_prefix(y as int, x as int, w as int);
                }
            }
            proof {
                assert((y + 1) * w == y * w + w) by (nonlinear_arith);
            }
            y = y + 1;
        }
        proof {
            assert(h * w == w * h) by (nonlinear_arith);
        }
        let n = out.len();
        assert(n <= usize::MAX);
        Ok(ImageBuffer { buffer: out, width: w, height: h, empty: false })
    }

    /// Translates the content by an integer offset.  Samples pushed outside
    /// the bounds are dropped; cells that no source sample reaches hold
    /// `fill`.
    pub fn shift(&self, horiz: i32, vert: i32, fill: T) -> (r: Result<ImageBuffer<T>, Error>)
        requires
            self.wf(),
            self.width <= i32::MAX,
            self.height <= i32::MAX,
        ensures
            r is Ok,
            r matches Ok(b) ==> {
                &&& b.wf()
                &&& !b.spec_is_empty()
                &&& b.width == self.width
                &&& b.height == self.height
                &&& forall|x: int, y: int|
                    0 <= x < b.width && 0 <= y < b.height ==> #[trigger] b.sample(x, y)
                        == self.shifted_sample(x, y, horiz as int, vert as int, fill)
            },
    {
        let w = self.width;
        let h = self.height;
        let mut out: Vec<T> = Vec::new();
        let mut y: usize = 0;
        while y < h
            invariant
                self.wf(),
                w == self.width,
                h == self.height,
                w <= i32::MAX,
                h <= i32::MAX,
                y <= h,
                out@.len() == y * w,
                forall|xx: int, yy: int|
                    0 <= xx < w && 0 <= yy < y ==> #[trigger] out@[yy * w + xx]
                        == self.shifted_sample(xx, yy, horiz as int, vert as int, fill),
            decreases h - y,
        {
            let mut x: usize = 0;
            while x < w
                invariant
                    self.wf(),
                    w == self.width,
                    h == self.height,
                    w <= i32::MAX,
                    h <= i32::MAX,
                    y < h,
                    x <= w,
                    out@.len() == y * w + x,
                    forall|xx: int, yy: int|
                        0 <= xx < w && 0 <= yy < y ==> #[trigger] out@[yy * w + xx]
                            == self.shifted_sample(xx, yy, horiz as int, vert as int, fill),
                    forall|xx: int|
                        0 <= xx < x ==> #[trigger] out@[y * w + xx] == self.shifted_sample(
                            xx,
                            y as int,
                            horiz as int,
                            vert as int,
                            fill,
                        ),
                decreases w - x,
            {
                let sx: i64 = x as i64 - horiz as i64;
                let sy: i64 = y as i64 - vert as i64;
                if 0 <= sx && sx < w as i64 && 0 <= sy && sy < h as i64 {
                    proof {
                        lemma_row_major_index_bound(sx as int, sy as int, w as int, h as int);
                    }
                    let idx: usize = (sy as usize) * w + (sx as usize);
                    out.push(self.buffer[idx]);
                } else {
                    out.push(fill);
                }
                x = x + 1;
                proof {
                    lemma_partial_row_in_prefix(y as int, x as int, w as int);
                }
            }
            proof {
                assert((y + 1) * w == y * w + w) by (nonlinear_arith);
            }
            y = y + 1;
        }
        proof {
            assert(h * w == w * h) by (nonlinear_arith);
        }
        let n = out.len();
        assert(n <= usize::MAX);
        Ok(ImageBuffer { buffer: out, width: w, height: h, empty: false })
    }

    /// Combines two rasters of equal dimensions cell by cell with `f`.
    /// The elementwise arithmetic (add, subtract with its floor, multiply,
    /// divide with its zero-divisor rule) is whatever `f`'s contract says;
    /// this operation owns the dimension check and the cell pairing, and
    /// leaves both operands unmodified.
    pub fn combine<F: Fn(T, T) -> T>(&self, other: &ImageBuffer<T>, f: F) -> (r: Result<
        ImageBuffer<T>,
        Error,
    >)
        requires
            self.wf(),
            other.wf(),
            forall|a: T, b: T| call_requires(f, (a, b)),
        ensures
            r is Ok <==> self.dims_match(other),
            r matches Ok(c) ==> {
                &&& c.wf()
                &&& !c.spec_is_empty()
                &&& c.width == self.width
                &&& c.height == self.height
                &&& forall|i: int|
                    0 <= i < c.samples().len() ==> call_ensures(
                        f,
                        (self.samples()[i], other.samples()[i]),
                        #[trigger] c.samples()[i],
                    )
            },
            r is Err ==> r == Err::<ImageBuffer<T>, Error>(Error::ArraySizeMismatch),
    {
        if self.width != other.width || self.height != other.height {
            return Err(Error::ArraySizeMismatch);
        }
        let len = self.buffer.len();
        assert(other.samples().len() == len);
        let mut out: Vec<T> = Vec::new();
        let mut i: usize = 0;
        while i < len
            invariant
                self.wf(),
                other.wf(),
                forall|a: T, b: T| call_requires(f, (a, b)),
                len == self.samples().len(),
                len == other.samples().len(),
                i <= len,
                out@.len() == i,
                forall|j: int|
                    0 <= j < i ==> call_ensures(
                        f,
                        (self.samples()[j], other.samples()[j]),
                        #[trigger] out@[j],
                    ),
            decreases len - i,
        {
            let v = f(self.buffer[i], other.buffer[i]);
            out.push(v);
            i = i + 1;
        }
        Ok(ImageBuffer { buffer: out, width: self.width, height: self.height, empty: false })
    }

    /// Applies `f` to every cell, keeping the grid.  This carries the
    /// scalar transforms of the pipeline (and the sample-type conversions
    /// at its boundaries); what `f` computes is fixed by `f`'s contract.
    pub fn apply<U: Copy, F: Fn(T) -> U>(&self, f: F) -> (r: ImageBuffer<U>)
        requires
            self.wf(),
            forall|a: T| call_requires(f, (a,)),
        ensures
            r.wf(),
            r.spec_is_empty() == self.spec_is_empty(),
            r.width == self.width,
            r.height == self.height,
            forall|i: int|
                0 <= i < r.samples().len() ==> call_ensures(
                    f,
                    (self.samples()[i],),
                    #[trigger] r.samples()[i],
                ),
    {
        let len = self.buffer.len();
        let mut out: Vec<U> = Vec::new();
        let mut i: usize = 0;
        while i < len
            invariant
                self.wf(),
                forall|a: T| call_requires(f, (a,)),
                len == self.samples().len(),
                i <= len,
                out@.len() == i,
                forall|j: int|
                    0 <= j < i ==> call_ensures(f, (self.samples()[j],), #[trigger] out@[j]),
            decreases len - i,
        {
            let v = f(self.buffer[i]);
            out.push(v);
            i = i + 1;
        }
        ImageBuffer { buffer: out, width: self.width, height: self.height, empty: self.empty }
    }

    /// Combines every cell with one fixed `factor` through `f`: the shape
    /// of scaling by a scalar, and of division with a scalar dividend.
    pub fn scale<F: Fn(T, T) -> T>(&self, factor: T, f: F) -> (r: Result<ImageBuffer<T>, Error>)
        requires
            self.wf(),
            forall|a: T, b: T| call_requires(f, (a, b)),
        ensures
            r is Ok,
            r matches Ok(c) ==> {
                &&& c.wf()
                &&& !c.spec_is_empty()
                &&& c.width == self.width
                &&& c.height == self.height
                &&& forall|i: int|
                    0 <= i < c.samples().len() ==> call_ensures(
                        f,
                        (self.samples()[i], factor),
                        #[trigger] c.samples()[i],
                    )
            },
    {
        let len = self.buffer.len();
        let mut out: Vec<T> = Vec::new();
        let mut i: usize = 0;
        while i < len
            invariant
                self.wf(),
                forall|a: T, b: T| call_requires(f, (a, b)),
                len == self.samples().len(),
                i <= len,
                out@.len() == i,
                forall|j: int|
                    0 <= j < i ==> call_ensures(
                        f,
                        (self.samples()[j], factor),
                        #[trigger] out@[j],
                    ),
            decreases len - i,
        {
            let v = f(self.buffer[i], factor);
            out.push(v);
            i = i + 1;
        }
        Ok(ImageBuffer { buffer: out, width: self.width, height: self.height, empty: false })
    }

    /// Folds `f` over the samples in row-major order, starting from
    /// `init`.  The result is reached by some chain of `f`-steps through
    /// the whole raster, as `fold_chain` records; reductions such as the
    /// positive-sample mean are instances.
    pub fn fold<A, F: Fn(A, T) -> A>(&self, init: A, f: F) -> (r: A)
        requires
            self.wf(),
            forall|acc: A, v: T| call_requires(f, (acc, v)),
        ensures
            fold_chain(f, init, self.samples(), r),
    {
        let ghost orig_init = init;
        let len = self.buffer.len();
        let mut acc = init;
        let ghost mut trace: Seq<A> = seq![orig_init];
        let mut i: usize = 0;
        while i < len
            invariant
                self.wf(),
                forall|a: A, v: T| call_requires(f, (a, v)),
                len == self.samples().len(),
                i <= len,
                trace.len() == i + 1,
                trace[0] == orig_init,
                trace[i as int] == acc,
                forall|k: int|
                    0 <= k < i ==> call_ensures(
                        f,
                        (trace[k], self.samples()[k]),
                        #[trigger] trace[k + 1],
                    ),
            decreases len - i,
        {
            acc = f(acc, self.buffer[i]);
            proof {
                trace = trace.push(acc);
            }
            i = i + 1;
        }
        proof {
            assert(fold_trace(f, orig_init, self.samples(), trace, acc));
        }
        acc
    }

    /// Scans the raster for its extremes under the strict order `lt`.
    /// Both reported values are samples of this raster, no sample compares
    /// above the reported maximum and none below the reported minimum —
    /// provided `lt` decides a strict order, as the three order premises
    /// require.  A supplied `override_min` replaces the scanned minimum
    /// (used to force a known sensor black level in place of the
    /// empirical one).
    pub fn get_min_max<F: Fn(T, T) -> bool>(&self, lt: F, override_min: Option<T>) -> (r: Result<
        MinMax<T>,
        Error,
    >)
        requires
            self.wf(),
            self.width * self.height > 0,
            forall|a: T, b: T| call_requires(lt, (a, b)),
            // lt decides a strict order: it is asymmetric, and a value
            // above another is above everything that other is not below
            forall|a: T, b: T|
                call_ensures(lt, (a, b), true) ==> #[trigger] call_ensures(lt, (b, a), false),
            forall|a: T, b: T, c: T|
                #![trigger call_ensures(lt, (a, b), true), call_ensures(lt, (a, c), false)]
                call_ensures(lt, (a, b), true) && call_ensures(lt, (a, c), false)
                    ==> call_ensures(lt, (b, c), false),
            forall|a: T, b: T, c: T|
                #![trigger call_ensures(lt, (a, b), true), call_ensures(lt, (c, b), false)]
                call_ensures(lt, (a, b), true) && call_ensures(lt, (c, b), false)
                    ==> call_ensures(lt, (c, a), false),
        ensures
            r is Ok,
            r matches Ok(mm) ==> {
                &&& exists|i: int|
                    0 <= i < self.samples().len() && mm.max == #[trigger] self.samples()[i]
                &&& forall|i: int|
                    0 <= i < self.samples().len() ==> (#[trigger] call_ensures(
                        lt,
                        (mm.max, self.samples()[i]),
                        false,
                    ) || mm.max == self.samples()[i])
                &&& match override_min {
                    Some(o) => mm.min == o,
                    None => {
                        &&& exists|i: int|
                            0 <= i < self.samples().len() && mm.min == #[trigger] self.samples()[i]
                        &&& forall|i: int|
                            0 <= i < self.samples().len() ==> (#[trigger] call_ensures(
                                lt,
                                (self.samples()[i], mm.min),
                                false,
                            ) || mm.min == self.samples()[i])
                    },
                }
            },
    {
        let len = self.buffer.len();
        let mut mn = self.buffer[0];
        let mut mx = self.buffer[0];
        let mut i: usize = 1;
        while i < len
            invariant
                self.wf(),
                forall|a: T, b: T| call_requires(lt, (a, b)),
                forall|a: T, b: T|
                    call_ensures(lt, (a, b), true) ==> #[trigger] call_ensures(lt, (b, a), false),
                forall|a: T, b: T, c: T|
                    #![trigger call_ensures(lt, (a, b), true), call_ensures(lt, (a, c), false)]
                    call_ensures(lt, (a, b), true) && call_ensures(lt, (a, c), false)
                        ==> call_ensures(lt, (b, c), false),
                forall|a: T, b: T, c: T|
                    #![trigger call_ensures(lt, (a, b), true), call_ensures(lt, (c, b), false)]
                    call_ensures(lt, (a, b), true) && call_ensures(lt, (c, b), false)
                        ==> call_ensures(lt, (c, a), false),
                len == self.samples().len(),
                1 <= i <= len,
                exists|j: int| 0 <= j < i && mn == #[trigger] self.samples()[j],
                exists|j: int| 0 <= j < i && mx == #[trigger] self.samples()[j],
                forall|j: int|
                    0 <= j < i ==> (#[trigger] call_ensures(lt, (mx, self.samples()[j]), false)
                        || mx == self.samples()[j]),
                forall|j: int|
                    0 <= j < i ==> (#[trigger] call_ensures(lt, (self.samples()[j], mn), false)
                        || mn == self.samples()[j]),
            decreases len - i,
        {
            let val = self.buffer[i];
            let ghost old_mx = mx;
            if lt(mx, val) {
                mx = val;
            }
            let ghost old_mn = mn;
            if lt(val, mn) {
                mn = val;
            }
            i = i + 1;
            proof {
                assert forall|j: int| 0 <= j < i implies (#[trigger] call_ensures(
                    lt,
                    (mx, self.samples()[j]),
                    false,
                ) || mx == self.samples()[j]) by {
                    if j < i - 1 {
                        assert(call_ensures(lt, (old_mx, self.samples()[j]), false) || old_mx
                            == self.samples()[j]);
                    }
                }
                assert forall|j: int| 0 <= j < i implies (#[trigger] call_ensures(
                    lt,
                    (self.samples()[j], mn),
                    false,
                ) || mn == self.samples()[j]) by {
                    if j < i - 1 {
                        assert(call_ensures(lt, (self.samples()[j], old_mn), false) || old_mn
                            == self.samples()[j]);
                    }
                }
            }
        }
        match override_min {
            Some(o) => Ok(MinMax { min: o, max: mx }),
            None => Ok(MinMax { min: mn, max: mx }),
        }
    }

    /// The translation that would centre the region of samples `bright`
    /// accepts: among all accepted pixels the mean x and mean y are taken,
    /// and the offset is `(width / 2 - mean_x, height / 2 - mean_y)`,
    /// rounded to nearest (ties away from zero), exactly as `com_offset_h`
    /// and `com_offset_v` state.  When no pixel is accepted the offset is
    /// `(0, 0)`.
    pub fn calc_center_of_mass_offset<F: Fn(T) -> bool>(&self, bright: F) -> (r: Result<
        Offset,
        Error,
    >)
        requires
            self.wf(),
            self.width <= i32::MAX,
            self.height <= i32::MAX,
            forall|v: T| call_requires(bright, (v,)),
        ensures
            r is Ok,
            r matches Ok(o) ==> exists|mask: Seq<bool>|
                {
                    &&& #[trigger] brightness_mask(bright, self.samples(), mask)
                    &&& o.h == com_offset_h(mask, self.width as int)
                    &&& o.v == com_offset_v(mask, self.width as int, self.height as int)
                },
    {
        let w = self.width;
        let h = self.height;
        let len = self.buffer.len();
        if len == 0 {
            let ghost mask: Seq<bool> = Seq::empty();
            proof {
                assert(brightness_mask(bright, self.samples(), mask));
            }
            return Ok(Offset { h: 0, v: 0 });
        }
        proof {
            assert(w > 0 && h > 0) by (nonlinear_arith)
                requires
                    w * h > 0,
            ;
        }
        let mut count: usize = 0;
        let mut sum_x: u128 = 0;
        let mut sum_y: u128 = 0;
        let mut x: usize = 0;
        let mut y: usize = 0;
        let ghost mut mask: Seq<bool> = Seq::empty();
        let mut i: usize = 0;
        while i < len
            invariant
                self.wf(),
                forall|v: T| call_requires(bright, (v,)),
                w == self.width,
                h == self.height,
                0 < w <= i32::MAX,
                0 < h <= i32::MAX,
                0 < len,
                len == self.samples().len(),
                i <= len,
                i == y * w + x,
                x < w,
                y <= h,
                mask.len() == i,
                forall|k: int|
                    0 <= k < i ==> call_ensures(bright, (self.samples()[k],), #[trigger] mask[k]),
                count == mask_count(mask),
                sum_x == mask_sum_x(mask, w as int),
                sum_y == mask_sum_y(mask, w as int),
            decreases len - i,
        {
            let val = self.buffer[i];
            let b = bright(val);
            proof {
                lemma_mask_bounds(mask, w as int, h as int);
                lemma_mask_push(mask, b, w as int);
                vstd::arithmetic::div_mod::lemma_fundamental_div_mod_converse(
                    i as int,
                    w as int,
                    y as int,
                    x as int,
                );
                assert(mask_count(mask) * (w - 1) <= 0xffff_ffff_ffff_ffff * 0x7fff_ffff)
                    by (nonlinear_arith)
                    requires
                        0 <= mask_count(mask) <= 0xffff_ffff_ffff_ffff,
                        0 <= (w - 1) <= 0x7fff_ffff,
                ;
                assert(mask_count(mask) * (h - 1) <= 0xffff_ffff_ffff_ffff * 0x7fff_ffff)
                    by (nonlinear_arith)
                    requires
                        0 <= mask_count(mask) <= 0xffff_ffff_ffff_ffff,
                        0 <= (h - 1) <= 0x7fff_ffff,
                ;
                mask = mask.push(b);
            }
            if b {
                count = count + 1;
                sum_x = sum_x + x as u128;
                sum_y = sum_y + y as u128;
            }
            i = i + 1;
            x = x + 1;
            if x == w {
                x = 0;
                proof {
                    assert((y + 1) * w == y * w + w) by (nonlinear_arith);
                    assert(i <= w * h);
                    assert((y + 1) * w <= w * h);
                    assert(y + 1 <= h) by (nonlinear_arith)
                        requires
                            (y + 1) * w <= w * h,
                            0 < w,
                            0 <= y,
                    ;
                }
                y = y + 1;
            }
        }
        if count == 0 {
            proof {
                assert(brightness_mask(bright, self.samples(), mask));
            }
            return Ok(Offset { h: 0, v: 0 });
        }
        proof {
            lemma_mask_bounds(mask, w as int, h as int);
            assert(count <= 0xffff_ffff_ffff_ffff);
        }
        let c128: u128 = count as u128;
        let w128: u128 = w as u128;
        let h128: u128 = h as u128;
        proof {
            assert(w128 * c128 <= 0x7fff_ffff * c128 && w128 * c128 == (w * count) as int)
                by (nonlinear_arith)
                requires
                    w128 == w,
                    c128 == count,
                    0 <= w <= 0x7fff_ffff,
                    0 <= count,
            ;
            assert(h128 * c128 <= 0x7fff_ffff * c128 && h128 * c128 == (h * count) as int)
                by (nonlinear_arith)
                requires
                    h128 == h,
                    c128 == count,
                    0 <= h <= 0x7fff_ffff,
                    0 <= count,
            ;
            assert(sum_x <= w * count) by (nonlinear_arith)
                requires
                    sum_x <= count * (w - 1),
                    0 <= count,
                    0 < w,
            ;
            assert(sum_y <= h * count) by (nonlinear_arith)
                requires
                    sum_y <= count * (h - 1),
                    0 <= count,
                    0 < h,
            ;
        }
        let wc: u128 = w128 * c128;
        let hc: u128 = h128 * c128;
        let off_h = Self::rounded_centring_offset(wc, sum_x, c128);
        let off_v = Self::rounded_centring_offset(hc, sum_y, c128);
        proof {
            assert(-(w * count) <= w * count - 2 * sum_x <= w * count) by (nonlinear_arith)
                requires
                    0 <= sum_x <= count * (w - 1),
                    0 < count,
                    0 < w,
            ;
            assert(-(h * count) <= h * count - 2 * sum_y <= h * count) by (nonlinear_arith)
                requires
                    0 <= sum_y <= count * (h - 1),
                    0 < count,
                    0 < h,
            ;
            lemma_round_bounds((w * count - 2 * sum_x) as int, count as int, w as int);
            lemma_round_bounds((h * count - 2 * sum_y) as int, count as int, h as int);
            assert(brightness_mask(bright, self.samples(), mask));
        }
        let oh: i32 = off_h as i32;
        let ov: i32 = off_v as i32;
        Ok(Offset { h: oh, v: ov })
    }

    /// The rounding (ties away from zero) of `(target - 2 sum) / (2 c)`,
    /// computed without signed division.  `target` is a raster dimension
    /// times the count `c` of accepted pixels, `sum` their coordinate sum,
    /// so the value is `dimension / 2 - sum / c`, the centring offset.
    fn rounded_centring_offset(target: u128, sum: u128, c: u128) -> (r: i64)
        requires
            0 < c <= 0xffff_ffff_ffff_ffff,
            target <= 0x7fff_ffff * c,
            sum <= target,
        ensures
            r == round_half_away(target - 2 * sum, 2 * c),
            -0x4000_0000 <= r <= 0x4000_0000,
    {
        proof {
            assert(target <= 0x7fff_ffff * 0xffff_ffff_ffff_ffff) by (nonlinear_arith)
                requires
                    target <= 0x7fff_ffff * c,
                    0 < c <= 0xffff_ffff_ffff_ffff,
            ;
        }
        let num2: u128 = 2 * sum;
        let (num, neg): (u128, bool) = if target >= num2 {
            (target - num2, false)
        } else {
            (num2 - target, true)
        };
        let q: u128 = (2 * num + 2 * c) / (4 * c);
        proof {
            vstd::arithmetic::div_mod::lemma_div_pos_is_pos(2 * num + 2 * c, 4 * c);
            assert(2 * num + 2 * c <= 4 * c * 0x4000_0000) by (nonlinear_arith)
                requires
                    0 <= num <= target,
                    target <= 0x7fff_ffff * c,
                    0 < c,
            ;
            vstd::arithmetic::div_mod::lemma_div_is_ordered(
                2 * num + 2 * c,
                4 * c * 0x4000_0000,
                4 * c,
            );
            assert(4 * c * 0x4000_0000 == (4 * c) * 0x4000_0000) by (nonlinear_arith);
            vstd::arithmetic::div_mod::lemma_div_multiples_vanish(0x4000_0000, 4 * c);
            assert(q <= 0x4000_0000);
        }
        if neg {
            let qi: i64 = q as i64;
            -qi
        } else {
            q as i64
        }
    }

    /// Copies the axis-aligned rectangle of size `w * h` whose top-left
    /// corner sits at `(x0, y0)` out of a row-major raster of size
    /// `src_w * src_h`.
    fn extract_rect(
        v: &Vec<T>,
        src_w: usize,
        src_h: usize,
        x0: usize,
        y0: usize,
        w: usize,
        h: usize,
    ) -> (out: Vec<T>)
        requires
            v@.len() == src_w * src_h,
            x0 + w <= src_w,
            y0 + h <= src_h,
        ensures
            out@.len() == w * h,
            forall|x: int, y: int|
                0 <= x < w && 0 <= y < h ==> #[trigger] out@[y * w + x] == v@[(y0 + y) * src_w + (x0 + x)],
    {
        let total = v.len();
        assert(total == src_w * src_h);
        assert(src_w * src_h <= usize::MAX);
        let mut out: Vec<T> = Vec::new();
        let mut y: usize = 0;
        while y < h
            invariant
                v@.len() == src_w * src_h,
                src_w * src_h <= usize::MAX,
                x0 + w <= src_w,
                y0 + h <= src_h,
                y <= h,
                out@.len() == y * w,
                forall|xx: int, yy: int|
                    0 <= xx < w && 0 <= yy < y ==> #[trigger] out@[yy * w + xx] == v@[(y0 + yy) * src_w + (x0
                        + xx)],
            decreases h - y,
        {
            let mut x: usize = 0;
            while x < w
                invariant
                    v@.len() == src_w * src_h,
                    src_w * src_h <= usize::MAX,
                    x0 + w <= src_w,
                    y0 + h <= src_h,
                    y < h,
                    x <= w,
                    out@.len() == y * w + x,
                    forall|xx: int, yy: int|
                        0 <= xx < w && 0 <= yy < y ==> #[trigger] out@[yy * w + xx] == v@[(y0 + yy) * src_w + (
                        x0 + xx)],
                    forall|xx: int| 0 <= xx < x ==> #[trigger] out@[y * w + xx] == v@[(y0 + y) * src_w + (x0
                        + xx)],
                decreases w - x,
            {
                let sy = y0 + y;
                let sx = x0 + x;
                proof {
                    lemma_row_major_index_bound(sx as int, sy as int, src_w as int, src_h as int);
                }
                let idx: usize = sy * src_w + sx;
                out.push(v[idx]);
                x = x + 1;
                proof {
                    lemma_partial_row_in_prefix(y as int, x as int, w as int);
                }
            }
            proof {
                assert((y + 1) * w == y * w + w) by (nonlinear_arith);
            }
            y = y + 1;
        }
        proof {
            assert(h * w == w * h) by (nonlinear_arith);
        }
        out
    }
}

/// `out` holds, cell by cell, a value `f` may produce from the paired
/// cells of `a` and `b`.
pub open spec fn elementwise<T, F: Fn(T, T) -> T>(f: F, a: Seq<T>, b: Seq<T>, out: Seq<T>) -> bool {
    &&& out.len() == a.len()
    &&& forall|i: int| 0 <= i < out.len() ==> call_ensures(f, (a[i], b[i]), #[trigger] out[i])
}

/// `out` holds, cell by cell, a value `f` may produce from the paired
/// cell of `a` and the fixed scalar `k`.
pub open spec fn elementwise_scalar<T, F: Fn(T, T) -> T>(f: F, a: Seq<T>, k: T, out: Seq<T>) -> bool {
    &&& out.len() == a.len()
    &&& forall|i: int| 0 <= i < out.len() ==> call_ensures(f, (a[i], k), #[trigger] out[i])
}

/// Number of set cells in a brightness mask.
pub open spec fn mask_count(mask: Seq<bool>) -> int
    decreases mask.len(),
{
    if mask.len() <= 0 {
        0
    } else {
        mask_count(mask.drop_last()) + if mask.last() {
            1int
        } else {
            0int
        }
    }
}

/// Sum of the column coordinates (flat index modulo `w`) of the set cells
/// of a mask over a raster of width `w`.
pub open spec fn mask_sum_x(mask: Seq<bool>, w: int) -> int
    decreases mask.len(),
{
    if mask.len() <= 0 {
        0
    } else {
        mask_sum_x(mask.drop_last(), w) + if mask.last() {
            (mask.len() - 1) % w
        } else {
            0int
        }
    }
}

/// Sum of the row coordinates (flat index divided by `w`) of the set cells
/// of a mask over a raster of width `w`.
pub open spec fn mask_sum_y(mask: Seq<bool>, w: int) -> int
    decreases mask.len(),
{
    if mask.len() <= 0 {
        0
    } else {
        mask_sum_y(mask.drop_last(), w) + if mask.last() {
            (mask.len() - 1) / w
        } else {
            0int
        }
    }
}

/// Round-to-nearest of the rational `n / d` for `d > 0`, with ties going
/// away from zero.
pub open spec fn round_half_away(n: int, d: int) -> int {
    if n >= 0 {
        (2 * n + d) / (2 * d)
    } else {
        -((2 * -n + d) / (2 * d))
    }
}

/// The horizontal translation that moves the centroid of the set cells to
/// the horizontal centre of a raster of width `w`: the rounding of
/// `w / 2 - sum_x / count`, and `0` when no cell is set.
pub open spec fn com_offset_h(mask: Seq<bool>, w: int) -> int {
    let c = mask_count(mask);
    if c == 0 {
        0
    } else {
        round_half_away(w * c - 2 * mask_sum_x(mask, w), 2 * c)
    }
}

/// The vertical counterpart of `com_offset_h`: the rounding of
/// `h / 2 - sum_y / count`, and `0` when no cell is set.
pub open spec fn com_offset_v(mask: Seq<bool>, w: int, h: int) -> int {
    let c = mask_count(mask);
    if c == 0 {
        0
    } else {
        round_half_away(h * c - 2 * mask_sum_y(mask, w), 2 * c)
    }
}

/// `mask` records, cell by cell, a brightness decision `bright` may have
/// taken on `cells`.
pub open spec fn brightness_mask<T, F: Fn(T) -> bool>(
    bright: F,
    cells: Seq<T>,
    mask: Seq<bool>,
) -> bool {
    &&& mask.len() == cells.len()
    &&& forall|i: int|
        0 <= i < mask.len() ==> call_ensures(bright, (cells[i],), #[trigger] mask[i])
}

/// `trace` records a fold of `f` through `cells` left to right: it starts
/// at `init`, each step is an admissible result of `f` on the previous
/// value and the next cell, and it ends at `out`.
pub open spec fn fold_trace<A, T, F: Fn(A, T) -> A>(
    f: F,
    init: A,
    cells: Seq<T>,
    trace: Seq<A>,
    out: A,
) -> bool {
    &&& trace.len() == cells.len() + 1
    &&& trace[0] == init
    &&& trace[cells.len() as int] == out
    &&& forall|k: int|
        0 <= k < cells.len() ==> call_ensures(f, (trace[k], cells[k]), #[trigger] trace[k + 1])
}

/// Holds when `out` can be reached from `init` by folding `f` through
/// `cells` left to right.  With a deterministic `f` this pins the fold's
/// result.
pub open spec fn fold_chain<A, T, F: Fn(A, T) -> A>(f: F, init: A, cells: Seq<T>, out: A) -> bool {
    exists|trace: Seq<A>| fold_trace(f, init, cells, trace, out)
}

/// Every full row before row `y` ends below the flat index `y * w`: row
/// `yy < y` occupies indices `yy * w` up to `yy * w + w`, which stay below
/// `y * w`.
proof fn lemma_partial_row_in_prefix(y: int, x: int, w: int)
    requires
        0 <= x <= w,
        0 <= y,
    ensures
        forall|yy: int| 0 <= yy < y ==> 0 <= #[trigger] (yy * w) && yy * w + w <= y * w,
{
    assert forall|yy: int| 0 <= yy < y implies 0 <= #[trigger] (yy * w) && yy * w + w <= y
        * w by {
        assert(yy * w + w <= y * w) by (nonlinear_arith)
            requires
                0 <= yy < y,
                0 <= w,
        ;
        assert(yy * w >= 0) by (nonlinear_arith)
            requires
                0 <= yy,
                0 <= w,
        ;
    }
}

/// Extending a fold by one step: a chain from `init` to `mid` through
/// `cells` grows into a chain from `init` to `out` through `cells.push(v)`
/// when `out` is an admissible result of `f` on `(mid, v)`.
pub proof fn lemma_fold_chain_snoc<A, T, F: Fn(A, T) -> A>(
    f: F,
    init: A,
    cells: Seq<T>,
    mid: A,
    v: T,
    out: A,
)
    requires
        fold_chain(f, init, cells, mid),
        call_ensures(f, (mid, v), out),
    ensures
        fold_chain(f, init, cells.push(v), out),
{
    let trace = choose|trace: Seq<A>| fold_trace(f, init, cells, trace, mid);
    let t2 = trace.push(out);
    assert(fold_trace(f, init, cells.push(v), t2, out)) by {
        assert(t2[0] == trace[0]);
        assert(t2[cells.len() as int + 1] == out);
        assert forall|k: int| 0 <= k < cells.push(v).len() implies call_ensures(
            f,
            (t2[k], cells.push(v)[k]),
            #[trigger] t2[k + 1],
        ) by {
            if k < cells.len() {
                assert(t2[k] == trace[k]);
                assert(t2[k + 1] == trace[k + 1]);
                assert(cells.push(v)[k] == cells[k]);
            } else {
                assert(k == cells.len());
                assert(t2[k] == trace[k]);
                assert(trace[cells.len() as int] == mid);
                assert(cells.push(v)[k] == v);
                assert(t2[k + 1] == out);
            }
        }
    }
}

/// Appending one decision to a brightness mask grows the count by at most
/// one and the coordinate sums by the new cell's coordinates.
proof fn lemma_mask_push(mask: Seq<bool>, b: bool, w: int)
    requires
        w > 0,
    ensures
        mask_count(mask.push(b)) == mask_count(mask) + if b {
            1int
        } else {
            0int
        },
        mask_sum_x(mask.push(b), w) == mask_sum_x(mask, w) + if b {
            mask.len() as int % w
        } else {
            0int
        },
        mask_sum_y(mask.push(b), w) == mask_sum_y(mask, w) + if b {
            mask.len() as int / w
        } else {
            0int
        },
{
    let p = mask.push(b);
    assert(p.drop_last() =~= mask);
    assert(p.last() == b);
}

/// The count of a mask is at most its length, and each coordinate sum is
/// at most the count times the largest coordinate of a `w * h` raster.
proof fn lemma_mask_bounds(mask: Seq<bool>, w: int, h: int)
    requires
        w > 0,
        h > 0,
        mask.len() <= w * h,
    ensures
        0 <= mask_count(mask) <= mask.len(),
        0 <= mask_sum_x(mask, w) <= mask_count(mask) * (w - 1),
        0 <= mask_sum_y(mask, w) <= mask_count(mask) * (h - 1),
    decreases mask.len(),
{
    if mask.len() == 0 {
    } else {
        let m0 = mask.drop_last();
        lemma_mask_bounds(m0, w, h);
        let i = mask.len() - 1;
        vstd::arithmetic::div_mod::lemma_mod_bound(i as int, w);
        vstd::arithmetic::div_mod::lemma_div_pos_is_pos(i as int, w);
        assert(i < w * h);
        assert(w * h == h * w) by (nonlinear_arith);
        vstd::arithmetic::div_mod::lemma_multiply_divide_lt(i as int, w, h);
        let c0 = mask_count(m0);
        if mask.last() {
            assert((c0 + 1) * (w - 1) == c0 * (w - 1) + (w - 1)) by (nonlinear_arith);
            assert((c0 + 1) * (h - 1) == c0 * (h - 1) + (h - 1)) by (nonlinear_arith);
        }
    }
}

/// For `|n| <= w * c` the rounded rational `n / (2 c)`, ties away from
/// zero, stays within `[-w, w]`.
proof fn lemma_round_bounds(n: int, c: int, w: int)
    requires
        0 < c,
        0 < w,
        -(w * c) <= n <= w * c,
    ensures
        -w <= round_half_away(n, 2 * c) <= w,
{
    if n >= 0 {
        assert(2 * n + 2 * c <= 4 * c * w) by (nonlinear_arith)
            requires
                n <= w * c,
                1 <= w,
                0 < c,
        ;
        vstd::arithmetic::div_mod::lemma_div_is_ordered(2 * n + 2 * c, 4 * c * w, 4 * c);
        assert(4 * c * w == (4 * c) * w) by (nonlinear_arith);
        vstd::arithmetic::div_mod::lemma_div_multiples_vanish(w, 4 * c);
        vstd::arithmetic::div_mod::lemma_div_pos_is_pos(2 * n + 2 * c, 4 * c);
    } else {
        assert(2 * -n + 2 * c <= 4 * c * w) by (nonlinear_arith)
            requires
                -n <= w * c,
                1 <= w,
                0 < c,
        ;
        vstd::arithmetic::div_mod::lemma_div_is_ordered(2 * -n + 2 * c, 4 * c * w, 4 * c);
        assert(4 * c * w == (4 * c) * w) by (nonlinear_arith);
        vstd::arithmetic::div_mod::lemma_div_multiples_vanish(w, 4 * c);
        vstd::arithmetic::div_mod::lemma_div_pos_is_pos(2 * -n + 2 * c, 4 * c);
    }
}

/// Law: adding a frame cell by cell and subtracting it again gives back
/// the original exactly, whenever the two cell operations invert each
/// other exactly (`sub(add(a, b), b) == a`).  With floating-point cells
/// this inversion premise holds only up to rounding and up to
/// `subtract`'s floor at zero, so there the law holds within the same
/// bounds.
pub proof fn lemma_add_subtract_roundtrip<T: Copy, FA: Fn(T, T) -> T, FS: Fn(T, T) -> T>(
    a: ImageBuffer<T>,
    b: ImageBuffer<T>,
    c: ImageBuffer<T>,
    d: ImageBuffer<T>,
    add: FA,
    sub: FS,
)
    requires
        a.wf(),
        elementwise(add, a.samples(), b.samples(), c.samples()),
        elementwise(sub, c.samples(), b.samples(), d.samples()),
        forall|x: T, y: T, s: T, r: T|
            #[trigger] call_ensures(add, (x, y), s) && #[trigger] call_ensures(sub, (s, y), r)
                ==> r == x,
    ensures
        d.samples() == a.samples(),
{
    assert(d.samples() =~= a.samples());
}

/// Law: scaling by `k1` and then by `k2` equals scaling by the combined
/// factor `k12` in one pass, whenever the cell operation composes that
/// way (`mul(mul(x, k1), k2) == mul(x, k12)`).  With floating-point
/// cells and `k12 = k1 * k2` the composition premise holds within
/// rounding tolerance, and so then does the law.
pub proof fn lemma_scale_compose<T: Copy, F: Fn(T, T) -> T>(
    a: ImageBuffer<T>,
    c: ImageBuffer<T>,
    d: ImageBuffer<T>,
    e: ImageBuffer<T>,
    mul: F,
    k1: T,
    k2: T,
    k12: T,
)
    requires
        a.wf(),
        elementwise_scalar(mul, a.samples(), k1, c.samples()),
        elementwise_scalar(mul, c.samples(), k2, d.samples()),
        elementwise_scalar(mul, a.samples(), k12, e.samples()),
        forall|x: T, r1: T, r2: T, r3: T|
            #[trigger] call_ensures(mul, (x, k1), r1) && #[trigger] call_ensures(mul, (r1, k2), r2)
                && #[trigger] call_ensures(mul, (x, k12), r3) ==> r2 == r3,
    ensures
        d.samples() == e.samples(),
{
    assert(d.samples() =~= e.samples());
}

/// Every cell of an all-clear mask contributes nothing.
proof fn lemma_all_clear_mask(mask: Seq<bool>, w: int)
    requires
        w > 0,
        forall|i: int| 0 <= i < mask.len() ==> !(#[trigger] mask[i]),
    ensures
        mask_count(mask) == 0,
        mask_sum_x(mask, w) == 0,
        mask_sum_y(mask, w) == 0,
    decreases mask.len(),
{
    if mask.len() > 0 {
        let m0 = mask.drop_last();
        assert(forall|i: int| 0 <= i < m0.len() ==> !(#[trigger] m0[i]));
        lemma_all_clear_mask(m0, w);
    }
}

/// A mask with exactly one set cell, at flat index `j`, counts one pixel
/// whose coordinates are `(j % w, j / w)`.
proof fn lemma_single_pixel_mask(mask: Seq<bool>, w: int, j: int)
    requires
        w > 0,
        0 <= j < mask.len(),
        forall|i: int| 0 <= i < mask.len() ==> ((#[trigger] mask[i]) <==> i == j),
    ensures
        mask_count(mask) == 1,
        mask_sum_x(mask, w) == j % w,
        mask_sum_y(mask, w) == j / w,
    decreases mask.len(),
{
    let m0 = mask.drop_last();
    if j == mask.len() - 1 {
        assert(mask[j]);
        assert(forall|i: int| 0 <= i < m0.len() ==> !(#[trigger] m0[i]));
        lemma_all_clear_mask(m0, w);
    } else {
        assert(!mask[mask.len() - 1]);
        assert(forall|i: int| 0 <= i < m0.len() ==> ((#[trigger] m0[i]) <==> i == j));
        lemma_single_pixel_mask(m0, w, j);
    }
}

/// Law: on a raster of even dimensions whose only bright pixel sits
/// exactly at the geometric centre `(w / 2, h / 2)`, the centre-of-mass
/// offset is `(0, 0)`.
pub proof fn lemma_centered_single_pixel_offset(mask: Seq<bool>, w: int, h: int, x: int, y: int)
    requires
        0 < w,
        0 < h,
        w % 2 == 0,
        h % 2 == 0,
        x == w / 2,
        y == h / 2,
        mask.len() == w * h,
        forall|i: int| 0 <= i < mask.len() ==> ((#[trigger] mask[i]) <==> i == y * w + x),
    ensures
        com_offset_h(mask, w) == 0,
        com_offset_v(mask, w, h) == 0,
{
    let j = y * w + x;
    assert(y < h) by (nonlinear_arith)
        requires
            h % 2 == 0,
            y == h / 2,
            0 < h,
    ;
    lemma_row_major_index_bound(x, y, w, h);
    lemma_single_pixel_mask(mask, w, j);
    vstd::arithmetic::div_mod::lemma_fundamental_div_mod_converse(j, w, y, x);
    assert(mask_sum_x(mask, w) == x);
    assert(mask_sum_y(mask, w) == y);
    assert(w * 1 - 2 * x == 0);
    assert(h * 1 - 2 * y == 0);
    assert((2int * 0 + 2) / (2int * 2) == 0);
    assert(round_half_away(0, 2) == 0);
}

/// Law: the extremes that `get_min_max` reports for a cropped raster
/// stem from samples inside the crop window of the source — a crop
/// followed by a scan never reaches outside that window.  `v` stands for
/// either reported extreme, which `get_min_max` guarantees is a sample
/// of the crop; `c`'s cells are as `crop` guarantees them.
pub proof fn lemma_crop_min_max_within_window<T: Copy>(
    src: ImageBuffer<T>,
    c: ImageBuffer<T>,
    v: T,
    ch: int,
    cw: int,
)
    requires
        src.wf(),
        c.wf(),
        c.width == cw,
        c.height == ch,
        0 < cw <= src.width,
        0 < ch <= src.height,
        forall|x: int, y: int|
            0 <= x < cw && 0 <= y < ch ==> #[trigger] c.sample(x, y) == src.sample(
                x + (src.width - cw) / 2,
                y + (src.height - ch) / 2,
            ),
        exists|i: int| 0 <= i < c.samples().len() && v == #[trigger] c.samples()[i],
    ensures
        exists|x: int, y: int|
            {
                &&& (src.width - cw) / 2 <= x < (src.width - cw) / 2 + cw
                &&& (src.height - ch) / 2 <= y < (src.height - ch) / 2 + ch
                &&& v == #[trigger] src.sample(x, y)
            },
{
    let i = choose|i: int| 0 <= i < c.samples().len() && v == #[trigger] c.samples()[i];
    let x = i % cw;
    let y = i / cw;
    vstd::arithmetic::div_mod::lemma_mod_bound(i, cw);
    vstd::arithmetic::div_mod::lemma_div_pos_is_pos(i, cw);
    assert(cw * ch == ch * cw) by (nonlinear_arith);
    vstd::arithmetic::div_mod::lemma_multiply_divide_lt(i, cw, ch);
    vstd::arithmetic::div_mod::lemma_fundamental_div_mod(i, cw);
    assert(i == cw * (i / cw) + i % cw);
    assert(y * cw == cw * y) by (nonlinear_arith);
    assert(c.sample(x, y) == c.samples()[y * cw + x]);
    assert(y * cw + x == i);
    assert(c.sample(x, y) == v);
    assert(v == src.sample(x + (src.width - cw) / 2, y + (src.height - ch) / 2));
}

/// For `x < w` and `y < h`, the row-major index `y * w + x` lies inside a
/// raster of `w * h` samples.
proof fn lemma_row_major_index_bound(x: int, y: int, w: int, h: int)
    requires
        0 <= x < w,
        0 <= y < h,
    ensures
        0 <= y * w + x < w * h,
{
    assert(y * w + x < w * h) by (nonlinear_arith)
        requires
            0 <= x < w,
            0 <= y < h,
    ;
    assert(y * w + x >= 0) by (nonlinear_arith)
        requires
            0 <= x,
            0 <= y,
            0 < w,
    ;
}

} // verus!
