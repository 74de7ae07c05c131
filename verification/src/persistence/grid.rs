//! Two-dimensional pixel buffers, held as `ndarray` arrays.
use vstd::prelude::*;

verus! {

/// A two-dimensional buffer of 16-bit samples.
#[verifier::external_body]
pub struct GridU16 {
    array: ndarray::Array2<u16>,
}

/// A two-dimensional buffer of 32-bit samples.
#[verifier::external_body]
pub struct GridI32 {
    array: ndarray::Array2<i32>,
}

/// The samples of a 16-bit buffer in row-major order.
pub uninterp spec fn samples_u16(grid: GridU16) -> Seq<u16>;

/// The numbers of rows and columns of a 16-bit buffer.
pub uninterp spec fn shape_u16(grid: GridU16) -> (usize, usize);

/// The samples of a 32-bit buffer in row-major order.
pub uninterp spec fn samples_i32(grid: GridI32) -> Seq<i32>;

/// The numbers of rows and columns of a 32-bit buffer.
pub uninterp spec fn shape_i32(grid: GridI32) -> (usize, usize);

/// The extent of an axis, an empty axis counting as one.
pub open spec fn extent(axis: usize) -> int {
    if axis == 0 {
        1
    } else {
        axis as int
    }
}

/// A buffer of a shape can hold so many samples: the shape has exactly that
/// many places, and its axes that are not empty multiply to no more than
/// `isize::MAX`.
pub open spec fn shape_fits(shape: (usize, usize), len: nat) -> bool {
    &&& shape.0 * shape.1 == len
    &&& extent(shape.0) * extent(shape.1) <= isize::MAX
}

/// `ndarray::Array2::from_shape_vec` with a `(rows, columns)` shape and the
/// default memory order: it succeeds exactly where the shape fits the number
/// of samples, and takes the samples in row-major order.
#[verifier::external_body]
pub(crate) fn grid_u16(shape: (usize, usize), samples: Vec<u16>) -> (r: Option<GridU16>)
    ensures
        r is Some <==> shape_fits(shape, samples@.len()),
        r matches Some(grid) ==> samples_u16(grid) == samples@ && shape_u16(grid) == shape,
{
    ndarray::Array2::from_shape_vec(shape, samples).ok().map(|array| GridU16 { array })
}

/// `ndarray::Array2::from_shape_vec` with a `(rows, columns)` shape and the
/// default memory order: it succeeds exactly where the shape fits the number
/// of samples, and takes the samples in row-major order.
#[verifier::external_body]
pub(crate) fn grid_i32(shape: (usize, usize), samples: Vec<i32>) -> (r: Option<GridI32>)
    ensures
        r is Some <==> shape_fits(shape, samples@.len()),
        r matches Some(grid) ==> samples_i32(grid) == samples@ && shape_i32(grid) == shape,
{
    ndarray::Array2::from_shape_vec(shape, samples).ok().map(|array| GridI32 { array })
}

impl GridU16 {
    /// `len` of an `ndarray` array: the number of its samples.
    #[verifier::external_body]
    pub(crate) fn len(&self) -> (r: usize)
        ensures
            r == samples_u16(*self).len(),
    {
        self.array.len()
    }

    /// `iter` of an `ndarray` array: its samples in logical order, the column
    /// varying fastest.
    #[verifier::external_body]
    pub(crate) fn samples(&self) -> (r: Vec<u16>)
        ensures
            r@ == samples_u16(*self),
    {
        self.array.iter().copied().collect()
    }
}

impl GridI32 {
    /// `len` of an `ndarray` array: the number of its samples.
    #[verifier::external_body]
    pub(crate) fn len(&self) -> (r: usize)
        ensures
            r == samples_i32(*self).len(),
    {
        self.array.len()
    }

    /// `iter` of an `ndarray` array: its samples in logical order, the column
    /// varying fastest.
    #[verifier::external_body]
    pub(crate) fn samples(&self) -> (r: Vec<i32>)
        ensures
            r@ == samples_i32(*self),
    {
        self.array.iter().copied().collect()
    }
}

/// A shape fits a number of samples only where its rows and its columns
/// multiply to that number, and always where they do and neither they nor
/// their product are beyond the range of a machine word.
pub proof fn shapes_fit_their_samples(rows: usize, columns: usize, len: nat)
    ensures
        shape_fits((rows, columns), len) ==> rows * columns == len,
        rows > 0 && columns > 0 && rows * columns == len && len <= isize::MAX ==> shape_fits(
            (rows, columns),
            len,
        ),
        shape_fits((rows, columns), len) <==> shape_fits((columns, rows), len),
{
    assert(rows * columns == columns * rows) by (nonlinear_arith);
    let (a, b) = (extent(rows), extent(columns));
    assert(a * b == b * a) by (nonlinear_arith);
}

} // verus!
