//! Which signal of a recording is analysed, and many signals at once.
use crate::analysis::{Analysis, Fault};
use crate::basics::{copied, grid, repeated};
use crate::estimator::{Heard, Refined, estimates, fails, harvest, shaped};
use crate::harvest::{HarvestOption, frame_number};
use crate::scalar::Scalar;
use vstd::prelude::*;

verus! {

/// Why no channel of a recording can be analysed.
#[derive(Debug, PartialEq, Eq)]
pub enum ChannelError {
    /// The recording has no channel.
    NoSamples,
    /// There is no channel of that number.
    OutOfRange { channel: usize, channels: usize },
}

/// Tests that a recording of `channels` channels has channel `channel`.
pub fn choose_channel(channels: usize, channel: usize) -> (r: Result<usize, ChannelError>)
    ensures
        match r {
            Ok(k) => k == channel && channel < channels,
            Err(ChannelError::NoSamples) => channels == 0,
            Err(ChannelError::OutOfRange { channel: c, channels: n }) => {
                &&& 0 < channels <= channel
                &&& c == channel
                &&& n == channels
            },
        },
{
    if channels == 0 {
        return Err(ChannelError::NoSamples);
    }
    if channel >= channels {
        return Err(ChannelError::OutOfRange { channel, channels });
    }
    Ok(channel)
}

/// Why an array cannot be analysed.
#[derive(Debug, PartialEq, Eq)]
pub enum ShapeError {
    /// It has neither one nor two dimensions, but so many.
    Dimensions(usize),
    /// Its signals have no samples.
    EmptySequence,
}

/// What an array holds.
#[derive(Debug, PartialEq, Eq)]
pub enum Layout {
    /// One signal of `seq` samples.
    Single { seq: usize },
    /// No signal at all.
    Nothing,
    /// `rows` signals of `seq` samples each, one after the other.
    Rows { rows: usize, seq: usize },
}

/// Tells what an array of shape `shape` holds.
pub fn read_shape(shape: &[usize]) -> (r: Result<Layout, ShapeError>)
    ensures
        match r {
            Ok(Layout::Single { seq }) => shape@.len() == 1 && 0 < seq == shape@[0],
            Ok(Layout::Nothing) => shape@.len() == 2 && shape@[0] == 0 && shape@[1] != 0,
            Ok(Layout::Rows { rows, seq }) => {
                &&& shape@.len() == 2
                &&& 0 < rows == shape@[0]
                &&& 0 < seq == shape@[1]
            },
            Err(ShapeError::Dimensions(n)) => n == shape@.len() && n != 1 && n != 2,
            Err(ShapeError::EmptySequence) => {
                (shape@.len() == 1 || shape@.len() == 2) && shape@.last() == 0
            },
        },
{
    let dimensions: usize = shape.len();
    if !(dimensions == 1 || dimensions == 2) {
        return Err(ShapeError::Dimensions(dimensions));
    }
    let seq: usize = shape[dimensions - 1];
    if seq == 0 {
        return Err(ShapeError::EmptySequence);
    }
    if dimensions == 1 {
        return Ok(Layout::Single { seq });
    }
    let rows: usize = shape[0];
    if rows == 0 {
        return Ok(Layout::Nothing);
    }
    Ok(Layout::Rows { rows, seq })
}

/// Signal `i` of signals of `seq` samples each.
pub open spec fn row<T>(flat: Seq<T>, seq: int, i: int) -> Seq<T> {
    flat.subrange(i * seq, (i + 1) * seq)
}

/// The signals that lie one after the other in `flat`.
pub fn split_rows<T: Copy>(flat: &[T], rows: usize, seq: usize) -> (r: Vec<Vec<T>>)
    requires
        rows * seq <= flat@.len(),
    ensures
        grid(r@) == Seq::new(rows as nat, |i: int| row(flat@, seq as int, i)),
{
    let size: usize = flat.len();
    let mut r: Vec<Vec<T>> = Vec::with_capacity(rows);
    let mut start: usize = 0;
    assert(0 * seq == 0);
    for i in 0..rows
        invariant
            rows * seq <= size == flat@.len(),
            start == i * seq,
            r@.len() == i,
            forall|k: int| 0 <= k < i ==> (#[trigger] r@[k])@ == row(flat@, seq as int, k),
    {
        assert((i + 1) * seq == i * seq + seq && (i + 1) * seq <= rows * seq) by (nonlinear_arith)
            requires
                i < rows,
        ;
        let end: usize = start + seq;
        r.push(copied(vstd::slice::slice_subrange(flat, start, end)));
        start = end;
    }
    assert(grid(r@) =~= Seq::new(rows as nat, |i: int| row(flat@, seq as int, i)));
    r
}

/// A contour that is not as long as the first.
#[derive(Debug, PartialEq, Eq)]
pub struct LengthMismatch {
    pub expected: usize,
    pub row: usize,
    pub found: usize,
}

/// Whether the contours from the first up to `n` are as long as the first.
pub open spec fn even_upto<T>(contours: Seq<Seq<T>>, n: int) -> bool {
    forall|i: int| 0 <= i < n ==> (#[trigger] contours[i]).len() == contours[0].len()
}

/// The times of all signals, which are those of the first, where all contours are
/// equally long; else the first contour that is not.
pub fn join_rows<T: Scalar>(times: &[T], contours: &Vec<Vec<T>>) -> (r: Result<
    Vec<Vec<T>>,
    LengthMismatch,
>)
    requires
        0 < contours@.len(),
    ensures
        match r {
            Ok(t) => {
                &&& even_upto(grid(contours@), contours@.len() as int)
                &&& grid(t@) == repeated(contours@.len(), times@)
            },
            Err(e) => {
                &&& 0 < e.row < contours@.len()
                &&& even_upto(grid(contours@), e.row as int)
                &&& e.found == contours@[e.row as int]@.len()
                &&& e.expected == contours@[0]@.len()
                &&& e.found != e.expected
            },
        },
{
    let n: usize = contours[0].len();
    let rows: usize = contours.len();
    let mut t: Vec<Vec<T>> = Vec::with_capacity(rows);
    for i in 0..rows
        invariant
            0 < rows == contours@.len(),
            n == contours@[0]@.len(),
            even_upto(grid(contours@), i as int),
            t@.len() == i,
            forall|k: int| 0 <= k < i ==> (#[trigger] t@[k])@ == times@,
    {
        assert(grid(contours@)[i as int] == contours@[i as int]@);
        assert(grid(contours@)[0] == contours@[0]@);
        if contours[i].len() != n {
            return Err(LengthMismatch { expected: n, row: i, found: contours[i].len() });
        }
        t.push(copied(times));
    }
    assert(grid(t@) =~= repeated(contours@.len(), times@));
    Ok(t)
}

/// Whether `f0` are the frequencies of an estimate of `x`.
pub open spec fn estimated<T: Scalar, L, R>(
    x: Seq<T>,
    fs: i32,
    option: HarvestOption<T>,
    listen: L,
    refine: R,
    f0: Seq<T>,
) -> bool where
    L: Fn(&Analysis<T>) -> Heard<T>,
    R: Fn(&Analysis<T>, Vec<Vec<T>>, usize) -> Refined<T>,
 {
    exists|t: Seq<T>| #[trigger] estimates(x, fs, option, listen, refine, (t, f0))
}

/// Whether the two steps may be called in an analysis of `x`.
pub open spec fn callable<T: Scalar, L, R>(x: Seq<T>, listen: L, refine: R) -> bool where
    L: Fn(&Analysis<T>) -> Heard<T>,
    R: Fn(&Analysis<T>, Vec<Vec<T>>, usize) -> Refined<T>,
 {
    &&& forall|a: &Analysis<T>| a.analyses(x) ==> call_requires(listen, (a,))
    &&& forall|a: &Analysis<T>, c: Vec<Vec<T>>, n: usize|
        a.analyses(x) && shaped(c@, a.plan.f0_length as nat, a.plan.max_candidates as nat) && n
            <= a.plan.max_candidates ==> call_requires(refine, (a, c, n))
}

/// Times and frequencies of `rows` signals of `seq` samples each, which lie one
/// after the other in `flat`. The times of every row are those of the first.
pub fn harvest_rows<T: Scalar, L, R>(
    flat: &[T],
    rows: usize,
    seq: usize,
    fs: i32,
    option: &HarvestOption<T>,
    listen: L,
    refine: R,
) -> (r: Result<(Vec<Vec<T>>, Vec<Vec<T>>), Fault>) where
    L: Fn(&Analysis<T>) -> Heard<T> + Copy,
    R: Fn(&Analysis<T>, Vec<Vec<T>>, usize) -> Refined<T> + Copy,

    requires
        0 < rows,
        rows * seq <= flat@.len(),
        forall|i: int|
            0 <= i < rows ==> callable(#[trigger] row(flat@, seq as int, i), listen, refine),
    ensures
        match r {
            Ok((t, f0)) => {
                let n = frame_number(fs as int, seq as int, option.frame_period) as nat;
                &&& shaped(t@, rows as nat, n)
                &&& shaped(f0@, rows as nat, n)
                &&& forall|i: int|
                    0 <= i < rows ==> estimated(
                        row(flat@, seq as int, i),
                        fs,
                        *option,
                        listen,
                        refine,
                        (#[trigger] f0@[i])@,
                    )
                &&& forall|i: int|
                    0 <= i < rows ==> estimates(
                        row(flat@, seq as int, 0),
                        fs,
                        *option,
                        listen,
                        refine,
                        ((#[trigger] t@[i])@, f0@[0]@),
                    )
            },
            Err(e) => exists|i: int|
                0 <= i < rows && fails(
                    #[trigger] row(flat@, seq as int, i),
                    fs,
                    *option,
                    listen,
                    refine,
                    e,
                ),
        },
{
    let ghost n = frame_number(fs as int, seq as int, option.frame_period) as nat;
    let signals: Vec<Vec<T>> = split_rows(flat, rows, seq);
    assert(grid(signals@).len() == rows);
    let mut times: Vec<T> = Vec::new();
    let mut contours: Vec<Vec<T>> = Vec::new();
    for i in 0..rows
        invariant
            rows * seq <= flat@.len(),
            n == frame_number(fs as int, seq as int, option.frame_period) as nat,
            grid(signals@) == Seq::new(rows as nat, |k: int| row(flat@, seq as int, k)),
            signals@.len() == rows,
            forall|k: int|
                0 <= k < rows ==> callable(#[trigger] row(flat@, seq as int, k), listen, refine),
            contours@.len() == i,
            forall|k: int| 0 <= k < i ==> (#[trigger] contours@[k])@.len() == n,
            forall|k: int|
                0 <= k < i ==> estimated(
                    row(flat@, seq as int, k),
                    fs,
                    *option,
                    listen,
                    refine,
                    (#[trigger] contours@[k])@,
                ),
            i > 0 ==> times@.len() == n && estimates(
                row(flat@, seq as int, 0),
                fs,
                *option,
                listen,
                refine,
                (times@, contours@[0]@),
            ),
    {
        let ghost x = row(flat@, seq as int, i as int);
        proof {
            assert(grid(signals@)[i as int] == signals@[i as int]@);
            assert(signals@[i as int]@ == x);
            assert(callable(x, listen, refine));
            lemma_row_length(flat@, rows as int, seq as int, i as int);
        }
        match harvest(&signals[i], fs, option, listen, refine) {
            Ok((t, f0)) => {
                assert(estimates(x, fs, *option, listen, refine, (t@, f0@)));
                contours.push(f0);
                if i == 0 {
                    times = t;
                }
            },
            Err(e) => {
                assert(fails(row(flat@, seq as int, i as int), fs, *option, listen, refine, e));
                return Err(e);
            },
        }
    }
    match join_rows(&times, &contours) {
        Ok(t) => {
            assert(t@.len() == grid(t@).len() == rows);
            assert forall|k: int| 0 <= k < rows implies (#[trigger] t@[k])@ == times@ by {
                assert(grid(t@)[k] == t@[k]@);
            }
            Ok((t, contours))
        },
        Err(e) => {
            assert(contours@[e.row as int]@.len() == contours@[0]@.len());
            Err(Fault::Shape)
        },
    }
}

/// Every row is as long as was asked for.
pub proof fn lemma_row_length<T>(flat: Seq<T>, rows: int, seq: int, i: int)
    requires
        0 <= i < rows,
        0 <= seq,
        rows * seq <= flat.len(),
    ensures
        row(flat, seq, i).len() == seq,
{
    assert(0 <= i * seq && (i + 1) * seq == i * seq + seq && (i + 1) * seq <= rows * seq)
        by (nonlinear_arith)
        requires
            0 <= i < rows,
            0 <= seq,
    ;
}

/// Times and frequencies of what an array holds.
pub enum ArrayEstimate<T> {
    /// Of one signal.
    Single(Vec<T>, Vec<T>),
    /// Of many signals, one row each; no row where there is no signal.
    Rows(Vec<Vec<T>>, Vec<Vec<T>>),
}

/// Why there is no estimate of an array.
#[derive(Debug, PartialEq, Eq)]
pub enum ArrayFault {
    /// Its shape is not one that can be analysed.
    Shape(ShapeError),
    /// The estimate of a signal failed.
    Estimate(Fault),
}

/// Whether `flat` has as many values as an array of shape `shape`, for the shapes
/// that can be analysed.
pub open spec fn fills(shape: Seq<usize>, flat: nat) -> bool {
    &&& shape.len() == 1 ==> shape[0] == flat
    &&& shape.len() == 2 ==> shape[0] * shape[1] == flat
}

/// Whether `r` may be the outcome for the array of shape `shape` whose values in
/// order are `flat`: the estimate of one signal, or of one for each row with the
/// times of the first; or the fault of a shape that cannot be analysed or of a
/// signal whose estimate fails.
pub open spec fn array_outcome<T: Scalar, L, R>(
    shape: Seq<usize>,
    flat: Seq<T>,
    fs: i32,
    option: HarvestOption<T>,
    listen: L,
    refine: R,
    r: Result<ArrayEstimate<T>, ArrayFault>,
) -> bool where
    L: Fn(&Analysis<T>) -> Heard<T>,
    R: Fn(&Analysis<T>, Vec<Vec<T>>, usize) -> Refined<T>,
 {
    match r {
        Ok(ArrayEstimate::Single(t, f0)) => {
            &&& shape.len() == 1
            &&& shape[0] > 0
            &&& t@.len() == frame_number(fs as int, shape[0] as int, option.frame_period)
            &&& f0@.len() == t@.len()
            &&& estimates(flat, fs, option, listen, refine, (t@, f0@))
        },
        Ok(ArrayEstimate::Rows(t, f0)) => {
            let seq = shape[1] as int;
            let n = frame_number(fs as int, seq, option.frame_period) as nat;
            &&& shape.len() == 2
            &&& shape[1] > 0
            &&& shaped(t@, shape[0] as nat, n)
            &&& shaped(f0@, shape[0] as nat, n)
            &&& forall|i: int|
                0 <= i < shape[0] ==> estimated(
                    row(flat, seq, i),
                    fs,
                    option,
                    listen,
                    refine,
                    (#[trigger] f0@[i])@,
                )
            &&& forall|i: int|
                0 <= i < shape[0] ==> estimates(
                    row(flat, seq, 0),
                    fs,
                    option,
                    listen,
                    refine,
                    ((#[trigger] t@[i])@, f0@[0]@),
                )
        },
        Err(ArrayFault::Shape(ShapeError::Dimensions(n))) => {
            n == shape.len() && n != 1 && n != 2
        },
        Err(ArrayFault::Shape(ShapeError::EmptySequence)) => {
            (shape.len() == 1 || shape.len() == 2) && shape.last() == 0
        },
        Err(ArrayFault::Estimate(e)) => {
            ||| shape.len() == 1 && shape[0] > 0 && fails(
                flat,
                fs,
                option,
                listen,
                refine,
                e,
            )
            ||| shape.len() == 2 && shape[1] > 0 && exists|i: int|
                0 <= i < shape[0] && fails(
                    #[trigger] row(flat, shape[1] as int, i),
                    fs,
                    option,
                    listen,
                    refine,
                    e,
                )
        },
    }
}

/// Times and frequencies of the array of shape `shape` whose values in order are
/// `flat`: one signal for one dimension, one for each row for two.
pub fn harvest_array<T: Scalar, L, R>(
    shape: &[usize],
    flat: &[T],
    fs: i32,
    option: &HarvestOption<T>,
    listen: L,
    refine: R,
) -> (r: Result<ArrayEstimate<T>, ArrayFault>) where
    L: Fn(&Analysis<T>) -> Heard<T> + Copy,
    R: Fn(&Analysis<T>, Vec<Vec<T>>, usize) -> Refined<T> + Copy,

    requires
        fills(shape@, flat@.len()),
        shape@.len() == 1 ==> callable(flat@, listen, refine),
        shape@.len() == 2 ==> forall|i: int|
            0 <= i < shape@[0] ==> callable(
                #[trigger] row(flat@, shape@[1] as int, i),
                listen,
                refine,
            ),
    ensures
        array_outcome(shape@, flat@, fs, *option, listen, refine, r),
{
    match read_shape(shape) {
        Err(e) => Err(ArrayFault::Shape(e)),
        Ok(Layout::Nothing) => Ok(ArrayEstimate::Rows(Vec::new(), Vec::new())),
        Ok(Layout::Single { seq: _ }) => {
            assert(callable(flat@, listen, refine));
            match harvest(flat, fs, option, listen, refine) {
                Ok((t, f0)) => Ok(ArrayEstimate::Single(t, f0)),
                Err(e) => Err(ArrayFault::Estimate(e)),
            }
        },
        Ok(Layout::Rows { rows, seq }) => match harvest_rows(
            flat,
            rows,
            seq,
            fs,
            option,
            listen,
            refine,
        ) {
            Ok((t, f0)) => Ok(ArrayEstimate::Rows(t, f0)),
            Err(e) => Err(ArrayFault::Estimate(e)),
        },
    }
}

} // verus!
