//! Multi-frame stacking: the arithmetic mean of equally sized frames.

use vstd::prelude::*;

use crate::imagebuffer::{
    fold_chain, lemma_fold_chain_snoc, Error, ImageBuffer,
};

verus! {

/// The cell values at flat index `i` across a sequence of frames.
pub open spec fn stack_cells<T: Copy>(frames: Seq<ImageBuffer<T>>, i: int) -> Seq<T> {
    Seq::new(frames.len(), |k: int| frames[k].samples()[i])
}

/// Cell `i` of `out` is a mean of cell `i` across `frames`: `scale`
/// applied to some value obtained by summing the cell through all frames
/// with `add`, the first frame seeding the sum.
pub open spec fn mean_cell<T: Copy, FA: Fn(T, T) -> T, FS: Fn(T) -> T>(
    add: FA,
    scale: FS,
    frames: Seq<ImageBuffer<T>>,
    out: ImageBuffer<T>,
    i: int,
) -> bool {
    exists|s: T|
        {
            &&& #[trigger] fold_chain(
                add,
                frames[0].samples()[i],
                stack_cells(frames, i).subrange(1, frames.len() as int),
                s,
            )
            &&& call_ensures(scale, (s,), out.samples()[i])
        }
}

/// `out` is a mean of `frames`: it has the first frame's grid, and each of
/// its cells is a stacked mean of that cell across all frames.
pub open spec fn is_stacked_mean<T: Copy, FA: Fn(T, T) -> T, FS: Fn(T) -> T>(
    add: FA,
    scale: FS,
    frames: Seq<ImageBuffer<T>>,
    out: ImageBuffer<T>,
) -> bool {
    &&& out.wf()
    &&& !out.spec_is_empty()
    &&& out.width == frames[0].width
    &&& out.height == frames[0].height
    &&& forall|i: int|
        0 <= i < out.samples().len() ==> #[trigger] mean_cell(add, scale, frames, out, i)
}

/// Stacks `frames` into their mean: the first frame seeds the running
/// accumulator directly (no spurious zero frame), the rest are summed in
/// with `add`, and the sum is brought back to a mean with `scale`, whose
/// contract should divide by the frame count.  A single frame is returned
/// exactly as it is.  An empty list fails with `NoFilesUsed`, a frame
/// whose dimensions differ from the first with `ArraySizeMismatch`.
pub fn run_mean_stack<T: Copy, FA: Fn(T, T) -> T + Copy, FS: Fn(T) -> T>(
    frames: Vec<ImageBuffer<T>>,
    add: FA,
    scale: FS,
) -> (r: Result<ImageBuffer<T>, Error>)
    requires
        forall|a: T, b: T| call_requires(add, (a, b)),
        forall|a: T| call_requires(scale, (a,)),
        forall|k: int| 0 <= k < frames@.len() ==> (#[trigger] frames@[k]).wf(),
    ensures
        r is Ok <==> frames@.len() > 0 && (forall|k: int|
            0 <= k < frames@.len() ==> (#[trigger] frames@[k]).dims_match(&frames@[0])),
        frames@.len() == 0 ==> r == Err::<ImageBuffer<T>, Error>(Error::NoFilesUsed),
        r is Err && frames@.len() > 0 ==> r == Err::<ImageBuffer<T>, Error>(
            Error::ArraySizeMismatch,
        ),
        frames@.len() == 1 ==> r == Ok::<ImageBuffer<T>, Error>(frames@[0]),
        r matches Ok(out) ==> frames@.len() > 1 ==> is_stacked_mean(add, scale, frames@, out),
{
    let n = frames.len();
    if n == 0 {
        return Err(Error::NoFilesUsed);
    }
    if n == 1 {
        let mut frames = frames;
        let only = frames.remove(0);
        return Ok(only);
    }
    let mut acc = match frames[0].combine(&frames[1], add) {
        Ok(b) => b,
        Err(e) => {
            return Err(e);
        },
    };
    proof {
        assert forall|i: int| 0 <= i < acc.samples().len() implies #[trigger] fold_chain(
            add,
            frames@[0].samples()[i],
            stack_cells(frames@, i).subrange(1, 2),
            acc.samples()[i],
        ) by {
            assert(fold_chain(add, frames@[0].samples()[i], Seq::<T>::empty(), frames@[0].samples()[i]))
                by {
                let t: Seq<T> = seq![frames@[0].samples()[i]];
                assert(crate::imagebuffer::fold_trace(
                    add,
                    frames@[0].samples()[i],
                    Seq::<T>::empty(),
                    t,
                    frames@[0].samples()[i],
                ));
            }
            lemma_fold_chain_snoc(
                add,
                frames@[0].samples()[i],
                Seq::<T>::empty(),
                frames@[0].samples()[i],
                frames@[1].samples()[i],
                acc.samples()[i],
            );
            assert(Seq::<T>::empty().push(frames@[1].samples()[i]) =~= stack_cells(
                frames@,
                i,
            ).subrange(1, 2));
        }
    }
    let mut k: usize = 2;
    while k < n
        invariant
            forall|a: T, b: T| call_requires(add, (a, b)),
            forall|j: int| 0 <= j < frames@.len() ==> (#[trigger] frames@[j]).wf(),
            n == frames@.len(),
            2 <= k <= n,
            acc.wf(),
            !acc.spec_is_empty(),
            acc.width == frames@[0].width,
            acc.height == frames@[0].height,
            forall|j: int| 0 <= j < k ==> (#[trigger] frames@[j]).dims_match(&frames@[0]),
            forall|i: int|
                0 <= i < acc.samples().len() ==> #[trigger] fold_chain(
                    add,
                    frames@[0].samples()[i],
                    stack_cells(frames@, i).subrange(1, k as int),
                    acc.samples()[i],
                ),
        decreases n - k,
    {
        let next = match acc.combine(&frames[k], add) {
            Ok(b) => b,
            Err(e) => {
                return Err(e);
            },
        };
        proof {
            assert forall|i: int| 0 <= i < next.samples().len() implies #[trigger] fold_chain(
                add,
                frames@[0].samples()[i],
                stack_cells(frames@, i).subrange(1, k + 1),
                next.samples()[i],
            ) by {
                lemma_fold_chain_snoc(
                    add,
                    frames@[0].samples()[i],
                    stack_cells(frames@, i).subrange(1, k as int),
                    acc.samples()[i],
                    frames@[k as int].samples()[i],
                    next.samples()[i],
                );
                assert(stack_cells(frames@, i).subrange(1, k as int).push(
                    frames@[k as int].samples()[i],
                ) =~= stack_cells(frames@, i).subrange(1, k + 1));
            }
        }
        acc = next;
        k = k + 1;
    }
    let out = acc.apply(scale);
    proof {
        assert forall|i: int| 0 <= i < out.samples().len() implies #[trigger] mean_cell(
            add,
            scale,
            frames@,
            out,
            i,
        ) by {
            let s = acc.samples()[i];
            assert(fold_chain(
                add,
                frames@[0].samples()[i],
                stack_cells(frames@, i).subrange(1, frames@.len() as int),
                s,
            ));
            assert(call_ensures(scale, (s,), out.samples()[i]));
        }
        assert(is_stacked_mean(add, scale, frames@, out));
    }
    Ok(out)
}

} // verus!

