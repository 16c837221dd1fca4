//! The numbering of the square spiral on the unbounded plane.
//!
//! Points of the plane are given by their offset `(a, b)` from the point where
//! the spiral starts: `a` columns to the right of it and `b` rows below it.
//! The spiral runs east, north, west, south and so on, with runs of length
//! 1, 1, 2, 2, 3, 3, ...

use vstd::prelude::*;

verus! {

/// The direction in which the spiral leaves the point `(a, b)`: 0 for east,
/// 1 for north, 2 for west, 3 for south.
pub open spec fn heading(a: int, b: int) -> int {
    if b >= 0 && -b <= a <= b {
        0
    } else if a >= 1 && -a < b < a {
        1
    } else if b <= -1 && b < a <= -b {
        2
    } else {
        3
    }
}

/// The unit step of a direction, as columns to the right and rows down.
pub open spec fn direction_offset(direction: int) -> (int, int) {
    if direction == 0 {
        (1, 0)
    } else if direction == 1 {
        (0, -1)
    } else if direction == 2 {
        (-1, 0)
    } else {
        (0, 1)
    }
}

/// The point that follows `(a, b)` on the spiral.
pub open spec fn successor(a: int, b: int) -> (int, int) {
    let (da, db) = direction_offset(heading(a, b));
    (a + da, b + db)
}

/// The point that `(a, b)` follows on the spiral; the start has none and is
/// given itself.
pub open spec fn predecessor(a: int, b: int) -> (int, int) {
    if a == 0 && b == 0 {
        (0, 0)
    } else if b >= 0 && -b < a <= b + 1 {
        (a - 1, b)
    } else if a >= 1 && -a <= b <= a - 2 {
        (a, b + 1)
    } else if b <= -1 && b <= a < -b {
        (a + 1, b)
    } else {
        (a, b - 1)
    }
}

/// The number that the spiral gives to the point `(a, b)`, counting from 1 at
/// its start.
pub open spec fn spiral_number(a: int, b: int) -> int {
    if b >= 0 && -b <= a <= b {
        4 * (b * b) + 3 * b + a + 1
    } else if a >= 1 && -a < b < a {
        4 * (a * a) - 3 * a - b + 1
    } else if b <= -1 && b < a <= -b {
        4 * (b * b) + b - a + 1
    } else {
        4 * (a * a) - a + b + 1
    }
}

/// The point with the number `k`, found by following the spiral from its
/// start.
pub open spec fn spiral_point(k: int) -> (int, int)
    decreases k,
{
    if k <= 1 {
        (0, 0)
    } else {
        let (a, b) = spiral_point(k - 1);
        successor(a, b)
    }
}

/// Squares grow with their base, from zero on.
pub(crate) proof fn lemma_square_grows(p: int, q: int)
    by (nonlinear_arith)
    requires
        0 <= p <= q,
    ensures
        p * p <= q * q,
{
}

/// A square is at least as large as its base, whatever the sign.
pub(crate) proof fn lemma_square_covers(p: int)
    by (nonlinear_arith)
    ensures
        p * p >= p,
        p * p >= -p,
{
}

/// The squares of the neighbours of `p` and of its negative, over `p * p`.
pub(crate) proof fn lemma_square_shift(p: int)
    by (nonlinear_arith)
    ensures
        (p + 1) * (p + 1) == p * p + 2 * p + 1,
        (p - 1) * (p - 1) == p * p - 2 * p + 1,
        (-p) * (-p) == p * p,
{
}

/// The squares of `2 * p` and of its neighbours, over `p * p`.
pub(crate) proof fn lemma_square_double(p: int)
    by (nonlinear_arith)
    ensures
        (2 * p) * (2 * p) == 4 * (p * p),
        (2 * p + 1) * (2 * p + 1) == 4 * (p * p) + 4 * p + 1,
        (2 * p - 1) * (2 * p - 1) == 4 * (p * p) - 4 * p + 1,
{
}

/// How `p * p` compares with `c * c`, by where `p` lies relative to `-c` and
/// `c`.
pub(crate) proof fn lemma_square_against(p: int, c: int)
    by (nonlinear_arith)
    requires
        c >= 0,
    ensures
        -c <= p <= c ==> p * p <= c * c,
        -c < p < c ==> p * p <= c * c - 2 * c + 1,
        p >= c || p <= -c ==> p * p >= c * c,
        p > c || p < -c ==> p * p >= c * c + 2 * c + 1,
        p > c ==> p * p - p >= c * c + c,
        p < -c ==> p * p + p >= c * c + c,
{
}

/// Every point has a number of at least 1, and only the start has 1.
pub proof fn lemma_spiral_number_positive(a: int, b: int)
    ensures
        spiral_number(a, b) >= 1,
        spiral_number(a, b) == 1 <==> a == 0 && b == 0,
{
    lemma_square_covers(a);
    lemma_square_covers(b);
}

/// One step along the spiral raises the number by one.
pub proof fn lemma_successor_number(a: int, b: int)
    ensures
        spiral_number(successor(a, b).0, successor(a, b).1) == spiral_number(a, b) + 1,
{
    lemma_square_shift(a);
    lemma_square_shift(b);
}

/// One step back along the spiral lowers the number by one, and the step
/// forward from there leads back.
pub proof fn lemma_predecessor_number(a: int, b: int)
    requires
        a != 0 || b != 0,
    ensures
        spiral_number(predecessor(a, b).0, predecessor(a, b).1) == spiral_number(a, b) - 1,
        successor(predecessor(a, b).0, predecessor(a, b).1) == (a, b),
{
    lemma_square_shift(a);
    lemma_square_shift(b);
}

/// The point with the number `k` has the number `k`.
pub proof fn lemma_point_number(k: int)
    requires
        k >= 1,
    ensures
        spiral_number(spiral_point(k).0, spiral_point(k).1) == k,
    decreases k,
{
    if k > 1 {
        lemma_point_number(k - 1);
        let (a, b) = spiral_point(k - 1);
        lemma_successor_number(a, b);
    }
}

/// The point with the number of `(a, b)` is `(a, b)`.
pub proof fn lemma_number_point(a: int, b: int)
    ensures
        spiral_point(spiral_number(a, b)) == (a, b),
    decreases spiral_number(a, b),
{
    lemma_spiral_number_positive(a, b);
    if a != 0 || b != 0 {
        let (pa, pb) = predecessor(a, b);
        lemma_predecessor_number(a, b);
        lemma_number_point(pa, pb);
    }
}

/// No two points of the plane have the same number.
pub proof fn lemma_spiral_number_injective(a1: int, b1: int, a2: int, b2: int)
    requires
        spiral_number(a1, b1) == spiral_number(a2, b2),
    ensures
        a1 == a2,
        b1 == b2,
{
    lemma_number_point(a1, b1);
    lemma_number_point(a2, b2);
}

} // verus!
