//! The two-dimensional array that holds a spiral, as the verifier sees it.

use array2d::Array2D;
use vstd::prelude::*;

verus! {

/// `array2d::Array2D`, a fixed-size two-dimensional array. The verifier does
/// not look inside; what an array holds is told by `array_rows`.
#[verifier::external_type_specification]
#[verifier::external_body]
#[verifier::reject_recursive_types(T)]
pub struct ExArray2D<T>(Array2D<T>);

/// The rows of an array, top row first, each row left to right: what
/// `Array2D::as_rows` hands out.
pub uninterp spec fn array_rows(a: Array2D<u32>) -> Seq<Seq<u32>>;

/// `Array2D::filled_with`: an array of `num_rows` rows of `num_columns`
/// copies of `element`. The product of the two counts must fit a `usize`.
#[verifier::external_body]
pub(crate) fn array_filled_with(element: u32, num_rows: usize, num_columns: usize) -> (a: Array2D<u32>)
    requires
        num_rows * num_columns <= usize::MAX,
    ensures
        array_rows(a) == Seq::new(
            num_rows as nat,
            |r: int| Seq::new(num_columns as nat, |c: int| element),
        ),
{
    Array2D::filled_with(element, num_rows, num_columns)
}

/// Indexing an `Array2D` by `(row, column)`: the element stored there. The
/// position must lie inside the array.
#[verifier::external_body]
pub(crate) fn array_get(a: &Array2D<u32>, row: usize, column: usize) -> (element: u32)
    requires
        row < array_rows(*a).len(),
        column < array_rows(*a)[row as int].len(),
    ensures
        element == array_rows(*a)[row as int][column as int],
{
    a[(row, column)]
}

/// Assigning through the `(row, column)` index of an `Array2D`: that one
/// element is replaced and every other one stays. The position must lie inside
/// the array.
#[verifier::external_body]
pub(crate) fn array_set(a: &mut Array2D<u32>, row: usize, column: usize, element: u32)
    requires
        row < array_rows(*old(a)).len(),
        column < array_rows(*old(a))[row as int].len(),
    ensures
        array_rows(*final(a)) == array_rows(*old(a)).update(
            row as int,
            array_rows(*old(a))[row as int].update(column as int, element),
        ),
{
    a[(row, column)] = element;
}

} // verus!
