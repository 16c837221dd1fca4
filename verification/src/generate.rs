//! The walk that fills a grid with the Ulam spiral.

use crate::cells::{
    cell_number, cell_value, centre, holds_each_prime_once, holds_zeros_and_primes, in_grid,
    is_ulam_matrix, lemma_grid_counted, lemma_grid_squares, lemma_ulam_matrix_laws,
    lemma_uncounted_points,
};
use crate::grid::{array_filled_with, array_get, array_rows, array_set};
use crate::primes::{sieve_is_prime, sieve_new, sieve_upper_bound};
use crate::spiral::{
    direction_offset, heading, lemma_spiral_number_injective, lemma_spiral_number_positive,
    lemma_square_grows, lemma_successor_number, spiral_number,
};
use array2d::Array2D;
use primal::Sieve;
use vstd::prelude::*;

verus! {

/// How many cells of the `n x n` grid the spiral has passed before it reaches
/// its point number `t`.
spec fn placed(n: int, t: int) -> int {
    if n % 2 == 0 && t > (n - 1) * (n - 1) + 1 {
        if t <= (n - 1) * (n - 1) + n + 1 {
            (n - 1) * (n - 1)
        } else {
            t - 1 - n
        }
    } else {
        t - 1
    }
}

/// `rows` is an `n x n` grid in which the cells that the spiral passes before
/// its point number `t` hold their final value and all others hold zero.
spec fn filled_before(n: int, rows: Seq<Seq<u32>>, t: int) -> bool {
    &&& rows.len() == n
    &&& forall|y: int| 0 <= y < n ==> (#[trigger] rows[y]).len() == n
    &&& forall|x: int, y: int|
        0 <= x < n && 0 <= y < n ==> (#[trigger] rows[y][x]) as int == (if spiral_number(
            x - centre(n),
            y - centre(n),
        ) < t {
            cell_value(n, x, y)
        } else {
            0
        })
}

/// The walk stands at `(x, y)`, about to number that cell with `num` if it is
/// one of the grid.
spec fn walk_state(n: int, rows: Seq<Seq<u32>>, x: int, y: int, num: int) -> bool {
    let t = spiral_number(x - centre(n), y - centre(n));
    &&& 0 <= x <= n
    &&& 0 <= y <= n
    &&& num == placed(n, t) + 1
    &&& filled_before(n, rows, t)
}

/// `(a, b)` is where the spiral stands after `r` steps of a run of `step`
/// steps in the direction `i`.
spec fn on_run(step: int, i: int, r: int, a: int, b: int) -> bool {
    &&& 1 <= step
    &&& 0 <= r <= step
    &&& if i == 1 {
        step == 2 * a - 1 && b == a - 1 - r
    } else if i == 2 {
        step == -2 * b && a == -b - r
    } else if i == 3 {
        step == -2 * a && b == a + r
    } else {
        step == 2 * b + 1 && a == r - b
    }
}

/// A dimension whose square fits 32 bits is below 65536.
pub(crate) proof fn lemma_dimension_bound(n: int)
    requires
        0 <= n,
        n * n <= u32::MAX,
    ensures
        n <= 65535,
        n * n <= 4294836225,
{
    if n >= 65536 {
        lemma_square_grows(65536, n);
    }
    lemma_square_grows(n, 65535);
}

/// Once `n * n` cells are numbered the grid is the spiral, with all that holds
/// of the spiral.
proof fn lemma_walk_complete(n: int, rows: Seq<Seq<u32>>, t: int)
    requires
        n >= 0,
        filled_before(n, rows, t),
        placed(n, t) >= n * n,
    ensures
        is_ulam_matrix(rows, n),
        rows.flatten().len() == n * n,
        holds_zeros_and_primes(rows, n * n),
        holds_each_prime_once(rows, n * n),
{
    lemma_grid_squares(n);
    assert forall|x: int, y: int| 0 <= x < n && 0 <= y < n implies (#[trigger] rows[y][x]) as int
        == cell_value(n, x, y) by {
        lemma_grid_counted(n, x - centre(n), y - centre(n));
    }
    lemma_ulam_matrix_laws(rows, n);
}

/// The unit steps of the four directions in the order in which the walk takes
/// them: east, north, west, south. Rows are counted downwards, so north is -1.
pub const DIRECTIONS: [(i32, i32); 4] = [(1, 0), (0, -1), (-1, 0), (0, 1)];

/// The unit step of the direction `i`.
fn direction(i: usize) -> (offset: (i32, i32))
    requires
        i < 4,
    ensures
        (offset.0 as int, offset.1 as int) == direction_offset(i as int),
{
    DIRECTIONS[i]
}

/// Moves a coordinate by one unit step.
fn shift(position: usize, delta: i32) -> (moved: usize)
    requires
        -1 <= delta <= 1,
        0 <= position + delta <= usize::MAX,
    ensures
        moved == position + delta,
{
    if delta < 0 {
        position - 1
    } else if delta > 0 {
        position + 1
    } else {
        position
    }
}

/// Numbers the cell under the cursor, if the cursor stands on the grid and the
/// cell is still empty: the cell gets `num` where `num` is prime and zero
/// where it is not, and the next number is returned. Off the grid nothing
/// changes and `num` is returned as it came.
fn place(matrix: &mut Array2D<u32>, sieve: &Sieve, n: usize, x: usize, y: usize, num: u32) -> (next:
    u32)
    requires
        n * n <= u32::MAX,
        num <= n * n,
        sieve_upper_bound(*sieve) >= n * n,
        walk_state(n as int, array_rows(*old(matrix)), x as int, y as int, num as int),
    ensures
        next == placed(n as int, spiral_number(x - centre(n as int), y - centre(n as int)) + 1) + 1,
        filled_before(
            n as int,
            array_rows(*final(matrix)),
            spiral_number(x - centre(n as int), y - centre(n as int)) + 1,
        ),
        in_grid(n as int, x as int, y as int) || (n % 2 == 0 && x == n && y < n && (heading(
            x - centre(n as int),
            y - centre(n as int),
        ) == 1 || heading(x - centre(n as int), y - centre(n as int)) == 2)),
{
    let ghost c = centre(n as int);
    let ghost t = spiral_number(x - c, y - c);
    let ghost before = array_rows(*matrix);
    proof {
        lemma_dimension_bound(n as int);
        lemma_grid_squares(n as int);
        lemma_spiral_number_positive(x - c, y - c);
        lemma_grid_counted(n as int, x - c, y - c);
        if !in_grid(n as int, x as int, y as int) {
            lemma_uncounted_points(n as int, x - c, y - c);
        }
    }
    if x < n && y < n && array_get(matrix, y, x) == 0 {
        assert(num == cell_number(n as int, x as int, y as int));
        if sieve_is_prime(sieve, num as usize) {
            array_set(matrix, y, x, num);
        } else {
            array_set(matrix, y, x, 0);
        }
        proof {
            let after = array_rows(*matrix);
            assert forall|i: int, j: int| 0 <= i < n && 0 <= j < n implies (#[trigger] after[j][i])
                as int == (if spiral_number(i - c, j - c) < t + 1 {
                cell_value(n as int, i, j)
            } else {
                0
            }) by {
                if spiral_number(i - c, j - c) == t {
                    lemma_spiral_number_injective(i - c, j - c, x - c, y - c);
                }
                assert(before[j][i] as int == (if spiral_number(i - c, j - c) < t {
                    cell_value(n as int, i, j)
                } else {
                    0
                }));
            }
        }
        num + 1
    } else {
        proof {
            assert(!in_grid(n as int, x as int, y as int)) by {
                if in_grid(n as int, x as int, y as int) {
                    assert(before[y as int][x as int] as int == 0);
                }
            }
            assert forall|i: int, j: int| 0 <= i < n && 0 <= j < n implies (#[trigger] before[j][i])
                as int == (if spiral_number(i - c, j - c) < t + 1 {
                cell_value(n as int, i, j)
            } else {
                0
            }) by {
                if spiral_number(i - c, j - c) == t {
                    lemma_spiral_number_injective(i - c, j - c, x - c, y - c);
                }
            }
        }
        num
    }
}

/// Returns the Ulam spiral matrix of size `n x n`.
///
/// The walk starts at the cell in column and row `n / 2` and runs east, north,
/// west and south in turn, in runs of 1, 1, 2, 2, 3, 3, ... steps. Each cell
/// of the grid that it reaches gets the next number, kept where it is prime
/// and replaced by zero where it is not; the walk ends as soon as `n * n`
/// cells are numbered. The square of `n` must fit 32 bits.
pub fn generate_ulam_matrix(n: usize) -> (matrix: Array2D<u32>)
    requires
        n * n <= u32::MAX,
    ensures
        is_ulam_matrix(array_rows(matrix), n as int),
        array_rows(matrix).flatten().len() == n * n,
        holds_zeros_and_primes(array_rows(matrix), n * n),
        holds_each_prime_once(array_rows(matrix), n * n),
{
    let ghost c = centre(n as int);
    proof {
        lemma_dimension_bound(n as int);
        lemma_grid_squares(n as int);
    }
    let mut matrix = array_filled_with(0, n, n);
    let mut x: usize = n / 2;
    let mut y: usize = n / 2;
    let mut num: u32 = 1;
    let cells: usize = n * n;
    let sieve = sieve_new(cells);
    let mut step: usize = 1;
    while num as usize <= cells
        invariant
            n * n <= u32::MAX,
            n <= 65535,
            cells == n * n,
            c == centre(n as int),
            sieve_upper_bound(sieve) >= n * n,
            num <= n * n + 1,
            walk_state(n as int, array_rows(matrix), x as int, y as int, num as int),
            on_run(step as int, 0, 0, x - c, y - c),
        decreases n * n + n + 2 - spiral_number(x - c, y - c),
    {
        let ghost start = spiral_number(x - c, y - c);
        proof {
            lemma_grid_squares(n as int);
        }
        let mut i: usize = 0;
        while i < 4
            invariant
                n * n <= u32::MAX,
                n <= 65535,
                cells == n * n,
                c == centre(n as int),
                sieve_upper_bound(sieve) >= n * n,
                num <= n * n,
                i <= 4,
                walk_state(n as int, array_rows(matrix), x as int, y as int, num as int),
                on_run(step as int, if i == 4 { 0 } else { i as int }, 0, x - c, y - c),
                spiral_number(x - c, y - c) >= start + i,
            decreases 4 - i,
        {
            let (dx, dy) = direction(i);
            let ghost run = spiral_number(x - c, y - c);
            let mut r: usize = 0;
            while r < step
                invariant
                    n * n <= u32::MAX,
                    n <= 65535,
                    cells == n * n,
                    c == centre(n as int),
                    sieve_upper_bound(sieve) >= n * n,
                    num <= n * n,
                    i < 4,
                    (dx as int, dy as int) == direction_offset(i as int),
                    walk_state(n as int, array_rows(matrix), x as int, y as int, num as int),
                    on_run(step as int, i as int, r as int, x - c, y - c),
                    spiral_number(x - c, y - c) == run + r,
                decreases step - r,
            {
                proof {
                    lemma_successor_number(x - c, y - c);
                }
                num = place(&mut matrix, &sieve, n, x, y, num);
                x = shift(x, dx);
                y = shift(y, dy);
                if num as usize > cells {
                    proof {
                        lemma_walk_complete(
                            n as int,
                            array_rows(matrix),
                            spiral_number(x - c, y - c),
                        );
                    }
                    return matrix;
                }
                r += 1;
            }
            if i % 2 == 1 {
                step += 1;
            }
            i += 1;
        }
    }
    proof {
        lemma_walk_complete(n as int, array_rows(matrix), spiral_number(x - c, y - c));
    }
    matrix
}

} // verus!
