//! The Ulam spiral on an `n x n` grid: which cell gets which number, what it
//! then holds, and what is true of the grid as a whole.
//!
//! A cell is given by its column `x` and its row `y`, both counted from 0 at
//! the top left.

use crate::primes::is_prime;
use crate::spiral::{
    heading, lemma_point_number, lemma_spiral_number_injective, lemma_spiral_number_positive,
    lemma_square_against, lemma_square_covers, lemma_square_double, lemma_square_shift,
    spiral_number, spiral_point,
};
use vstd::prelude::*;

verus! {

/// `(x, y)` is a cell of the `n x n` grid: column `x` of row `y`.
pub open spec fn in_grid(n: int, x: int, y: int) -> bool {
    0 <= x < n && 0 <= y < n
}

/// The spiral on an `n x n` grid starts at column and row `n / 2`. For an odd
/// `n` that is the middle; for an even `n` it is the cell below and right of
/// the middle.
pub open spec fn centre(n: int) -> int {
    n / 2
}

/// The sequence number of the cell `(x, y)` on the `n x n` grid: its rank
/// among the cells of the grid in the order in which the spiral passes them.
///
/// For an odd `n` the first `n * n` points of the spiral are the cells of the
/// grid. For an even `n` the spiral leaves the grid once: after the first
/// `(n - 1) * (n - 1)` points it passes `n` points of the column right of the
/// grid, which get no number.
pub open spec fn cell_number(n: int, x: int, y: int) -> int {
    let k = spiral_number(x - centre(n), y - centre(n));
    if n % 2 == 0 && k > (n - 1) * (n - 1) {
        k - n
    } else {
        k
    }
}

/// The cell of the `n x n` grid with the sequence number `k`.
pub open spec fn cell_of(n: int, k: int) -> (int, int) {
    let (a, b) = if n % 2 == 0 && k > (n - 1) * (n - 1) {
        spiral_point(k + n)
    } else {
        spiral_point(k)
    };
    (a + centre(n), b + centre(n))
}

/// What the spiral stores at the cell `(x, y)` of the `n x n` grid: the
/// cell's sequence number where that is prime, zero elsewhere.
pub open spec fn cell_value(n: int, x: int, y: int) -> int {
    let k = cell_number(n, x, y);
    if is_prime(k) {
        k
    } else {
        0
    }
}

/// The point with the number `t` is a cell of the `n x n` grid whose spiral
/// starts at `centre(n)`.
pub open spec fn counted(n: int, t: int) -> bool {
    &&& 1 <= t
    &&& if n % 2 == 0 {
        t <= (n - 1) * (n - 1) || (n - 1) * (n - 1) + n < t <= n * n + n
    } else {
        t <= n * n
    }
}

/// `rows` is the Ulam spiral of dimension `n`: `n` rows of `n` cells, each
/// holding its `cell_value`.
pub open spec fn is_ulam_matrix(rows: Seq<Seq<u32>>, n: int) -> bool {
    &&& rows.len() == n
    &&& forall|y: int| 0 <= y < n ==> (#[trigger] rows[y]).len() == n
    &&& forall|x: int, y: int|
        0 <= x < n && 0 <= y < n ==> (#[trigger] rows[y][x]) as int == cell_value(n, x, y)
}

/// The cells of a grid that hold the value `v`.
pub open spec fn occurrences(rows: Seq<Seq<u32>>, v: int) -> Set<(int, int)> {
    Set::new(
        |cell: (int, int)|
            0 <= cell.1 < rows.len() && 0 <= cell.0 < rows[cell.1].len() && rows[cell.1][cell.0]
                == v,
    )
}

/// Every cell of the grid holds zero or a prime that is at most `limit`.
pub open spec fn holds_zeros_and_primes(rows: Seq<Seq<u32>>, limit: int) -> bool {
    forall|x: int, y: int|
        0 <= y < rows.len() && 0 <= x < rows[y].len() ==> (#[trigger] rows[y][x]) == 0 || (is_prime(
            rows[y][x] as int,
        ) && rows[y][x] <= limit)
}

/// Every prime up to `limit` stands in exactly one cell of the grid, and no
/// other value but zero stands in any cell.
pub open spec fn holds_each_prime_once(rows: Seq<Seq<u32>>, limit: int) -> bool {
    forall|v: int|
        v != 0 ==> (#[trigger] occurrences(rows, v)).finite() && occurrences(rows, v).len() == (if
            is_prime(v) && v <= limit {
            1nat
        } else {
            0nat
        })
}

/// The squares that bound the `n x n` grid, written over its centre.
pub(crate) proof fn lemma_grid_squares(n: int)
    requires
        n >= 0,
    ensures
        n % 2 == 0 ==> n == 2 * centre(n) && n * n == 4 * (centre(n) * centre(n)) && (n - 1) * (n
            - 1) == 4 * (centre(n) * centre(n)) - 4 * centre(n) + 1,
        n % 2 != 0 ==> n == 2 * centre(n) + 1 && n * n == 4 * (centre(n) * centre(n)) + 4 * centre(
            n,
        ) + 1 && (n - 1) * (n - 1) == 4 * (centre(n) * centre(n)),
        (n - 1) * (n - 1) == n * n - 2 * n + 1,
        0 <= n * n,
{
    let c = centre(n);
    lemma_square_double(c);
    lemma_square_shift(n);
    lemma_square_covers(n);
    if n % 2 == 0 {
        assert(n == 2 * c);
        assert(n * n == (2 * c) * (2 * c));
        assert((n - 1) * (n - 1) == (2 * c - 1) * (2 * c - 1));
    } else {
        assert(n == 2 * c + 1);
        assert(n * n == (2 * c + 1) * (2 * c + 1));
        assert((n - 1) * (n - 1) == (2 * c) * (2 * c));
    }
}

/// A point of the plane is a cell of the `n x n` grid exactly if its number
/// is one of those that the grid counts.
pub proof fn lemma_grid_counted(n: int, a: int, b: int)
    requires
        n >= 1,
    ensures
        in_grid(n, a + centre(n), b + centre(n)) <==> counted(n, spiral_number(a, b)),
{
    let c = centre(n);
    lemma_grid_squares(n);
    lemma_spiral_number_positive(a, b);
    lemma_square_against(a, c);
    lemma_square_against(b, c);
    lemma_square_covers(a);
    lemma_square_covers(b);
}

/// The points that the spiral of an even `n` passes without counting them:
/// they follow the first `(n - 1) * (n - 1)` points and fill the column right
/// of the grid, from its last row but one up to its first.
pub proof fn lemma_uncounted_points(n: int, a: int, b: int)
    requires
        n >= 1,
        n % 2 == 0,
        (n - 1) * (n - 1) < spiral_number(a, b) <= (n - 1) * (n - 1) + n,
    ensures
        a + centre(n) == n,
        0 <= b + centre(n) < n,
        heading(a, b) == 1 || heading(a, b) == 2,
{
    let c = centre(n);
    lemma_grid_squares(n);
    lemma_square_against(a, c);
    lemma_square_against(b, c);
    lemma_square_covers(a);
    lemma_square_covers(b);
}

/// The sequence numbers of the cells of the `n x n` grid lie between 1 and
/// `n * n`.
pub proof fn lemma_cell_number_range(n: int, x: int, y: int)
    requires
        in_grid(n, x, y),
    ensures
        1 <= cell_number(n, x, y) <= n * n,
{
    lemma_grid_squares(n);
    lemma_grid_counted(n, x - centre(n), y - centre(n));
}

/// No two cells of the `n x n` grid have the same sequence number.
pub proof fn lemma_cell_number_injective(n: int, x1: int, y1: int, x2: int, y2: int)
    requires
        in_grid(n, x1, y1),
        in_grid(n, x2, y2),
        cell_number(n, x1, y1) == cell_number(n, x2, y2),
    ensures
        x1 == x2,
        y1 == y2,
{
    let c = centre(n);
    lemma_grid_squares(n);
    lemma_grid_counted(n, x1 - c, y1 - c);
    lemma_grid_counted(n, x2 - c, y2 - c);
    lemma_spiral_number_injective(x1 - c, y1 - c, x2 - c, y2 - c);
}

/// Every number from 1 to `n * n` is the sequence number of a cell of the
/// `n x n` grid, and `cell_of` finds that cell.
pub proof fn lemma_cell_of(n: int, k: int)
    requires
        n >= 0,
        1 <= k <= n * n,
    ensures
        in_grid(n, cell_of(n, k).0, cell_of(n, k).1),
        cell_number(n, cell_of(n, k).0, cell_of(n, k).1) == k,
{
    lemma_grid_squares(n);
    let t = if n % 2 == 0 && k > (n - 1) * (n - 1) {
        k + n
    } else {
        k
    };
    let (a, b) = spiral_point(t);
    lemma_point_number(t);
    lemma_grid_counted(n, a, b);
}

/// Nothing but zeros and primes up to `n * n` stands in the `n x n` spiral.
pub proof fn lemma_cell_value_zero_or_prime(n: int, x: int, y: int)
    requires
        in_grid(n, x, y),
    ensures
        cell_value(n, x, y) == 0 || (is_prime(cell_value(n, x, y)) && 2 <= cell_value(n, x, y) <= n
            * n),
{
    lemma_cell_number_range(n, x, y);
}

/// The spiral starts at the centre: that cell has the sequence number 1, which
/// is no prime, so it holds zero.
pub proof fn lemma_centre_holds_zero(n: int)
    requires
        n >= 1,
    ensures
        in_grid(n, centre(n), centre(n)),
        cell_number(n, centre(n), centre(n)) == 1,
        cell_value(n, centre(n), centre(n)) == 0,
{
    lemma_grid_squares(n);
    lemma_square_covers(n - 1);
}

/// The sequence numbers follow the spiral: of two cells of the grid, the one
/// that the spiral passes first has the smaller number.
pub proof fn lemma_cell_number_order(n: int, x1: int, y1: int, x2: int, y2: int)
    requires
        in_grid(n, x1, y1),
        in_grid(n, x2, y2),
    ensures
        cell_number(n, x1, y1) < cell_number(n, x2, y2) <==> spiral_number(
            x1 - centre(n),
            y1 - centre(n),
        ) < spiral_number(x2 - centre(n), y2 - centre(n)),
{
    let c = centre(n);
    lemma_grid_squares(n);
    lemma_grid_counted(n, x1 - c, y1 - c);
    lemma_grid_counted(n, x2 - c, y2 - c);
}

/// A grid of `height` rows of `width` cells each has `height * width` cells.
pub proof fn lemma_grid_size(rows: Seq<Seq<u32>>, width: int)
    requires
        forall|y: int| 0 <= y < rows.len() ==> (#[trigger] rows[y]).len() == width,
    ensures
        rows.flatten().len() == rows.len() * width,
    decreases rows.len(),
{
    if rows.len() > 0 {
        let rest = rows.drop_first();
        assert forall|y: int| 0 <= y < rest.len() implies (#[trigger] rest[y]).len() == width by {
            assert(rest[y] == rows[y + 1]);
        }
        lemma_grid_size(rest, width);
        assert((rows.len() - 1) * width + width == rows.len() * width) by (nonlinear_arith);
    }
}

/// The spiral of dimension `n` has exactly `n * n` cells.
pub proof fn lemma_ulam_matrix_size(rows: Seq<Seq<u32>>, n: int)
    requires
        is_ulam_matrix(rows, n),
    ensures
        rows.flatten().len() == n * n,
{
    lemma_grid_size(rows, n);
}

/// Every cell of the spiral of dimension `n` holds zero or a prime that is at
/// most `n * n`.
pub proof fn lemma_ulam_matrix_cells(rows: Seq<Seq<u32>>, n: int, x: int, y: int)
    requires
        is_ulam_matrix(rows, n),
        in_grid(n, x, y),
    ensures
        rows[y][x] == 0 || (is_prime(rows[y][x] as int) && rows[y][x] <= n * n),
{
    lemma_cell_value_zero_or_prime(n, x, y);
}

/// Every prime up to `n * n` stands in exactly one cell of the spiral of
/// dimension `n`, the cell that has it as its sequence number, and no other
/// value but zero stands in any cell.
pub proof fn lemma_ulam_matrix_primes(rows: Seq<Seq<u32>>, n: int, v: int)
    requires
        is_ulam_matrix(rows, n),
        v != 0,
    ensures
        occurrences(rows, v).finite(),
        occurrences(rows, v).len() == (if is_prime(v) && v <= n * n {
            1nat
        } else {
            0nat
        }),
        is_prime(v) && v <= n * n ==> occurrences(rows, v) == set![cell_of(n, v)],
{
    if is_prime(v) && v <= n * n {
        lemma_cell_of(n, v);
        let home = cell_of(n, v);
        assert forall|cell: (int, int)| occurrences(rows, v).contains(cell) implies cell
            == home by {
            assert(rows[cell.1][cell.0] as int == cell_value(n, cell.0, cell.1));
            lemma_cell_number_injective(n, cell.0, cell.1, home.0, home.1);
        }
        assert(occurrences(rows, v).contains(home)) by {
            assert(rows[home.1][home.0] as int == cell_value(n, home.0, home.1));
        }
        assert(occurrences(rows, v) =~= set![home]);
    } else {
        assert forall|cell: (int, int)| !occurrences(rows, v).contains(cell) by {
            if 0 <= cell.1 < rows.len() && 0 <= cell.0 < rows[cell.1].len() {
                assert(rows[cell.1][cell.0] as int == cell_value(n, cell.0, cell.1));
                lemma_cell_value_zero_or_prime(n, cell.0, cell.1);
            }
        }
        assert(occurrences(rows, v) =~= Set::<(int, int)>::empty());
    }
}

/// The spiral of dimension `n` has `n * n` cells, holds nothing but zeros and
/// primes up to `n * n`, and holds each of those primes exactly once.
pub proof fn lemma_ulam_matrix_laws(rows: Seq<Seq<u32>>, n: int)
    requires
        is_ulam_matrix(rows, n),
    ensures
        rows.flatten().len() == n * n,
        holds_zeros_and_primes(rows, n * n),
        holds_each_prime_once(rows, n * n),
{
    lemma_ulam_matrix_size(rows, n);
    assert forall|x: int, y: int| 0 <= y < rows.len() && 0 <= x < rows[y].len() implies (
    #[trigger] rows[y][x]) == 0 || (is_prime(rows[y][x] as int) && rows[y][x] <= n * n) by {
        lemma_ulam_matrix_cells(rows, n, x, y);
    }
    assert forall|v: int| v != 0 implies (#[trigger] occurrences(rows, v)).finite() && occurrences(
        rows,
        v,
    ).len() == (if is_prime(v) && v <= n * n {
        1nat
    } else {
        0nat
    }) by {
        lemma_ulam_matrix_primes(rows, n, v);
    }
}

/// The spiral of a dimension is one matrix: two matrices that both are the
/// spiral of dimension `n` are equal.
pub proof fn lemma_ulam_matrix_unique(first: Seq<Seq<u32>>, second: Seq<Seq<u32>>, n: int)
    requires
        is_ulam_matrix(first, n),
        is_ulam_matrix(second, n),
    ensures
        first == second,
{
    assert forall|y: int| 0 <= y < n implies first[y] == second[y] by {
        assert forall|x: int| 0 <= x < n implies first[y][x] == second[y][x] by {
            assert(first[y][x] as int == cell_value(n, x, y));
            assert(second[y][x] as int == cell_value(n, x, y));
        }
        assert(first[y] =~= second[y]);
    }
    assert(first =~= second);
}

} // verus!
