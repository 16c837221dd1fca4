use array2d::Array2D;
use ulam_spiral::generate::DIRECTIONS;
use ulam_spiral::generate_ulam_matrix;

fn is_prime(k: u32) -> bool {
    if k < 2 {
        return false;
    }
    let mut d: u32 = 2;
    while d * d <= k {
        if k % d == 0 {
            return false;
        }
        d += 1;
    }
    true
}

/// The spiral by its definition, one step at a time on the unbounded plane:
/// runs of 1, 1, 2, 2, 3, 3, ... steps east, north, west, south; only the
/// cells of the grid are counted.
fn spiral_by_steps(n: usize) -> Vec<Vec<u32>> {
    let mut rows = vec![vec![0u32; n]; n];
    let mut x = (n / 2) as i64;
    let mut y = (n / 2) as i64;
    let mut number: u32 = 1;
    let mut run: usize = 1;
    let mut direction: usize = 0;
    let offsets: [(i64, i64); 4] = [(1, 0), (0, -1), (-1, 0), (0, 1)];
    while (number as usize) <= n * n {
        for _ in 0..run {
            if (number as usize) > n * n {
                break;
            }
            if x >= 0 && y >= 0 && (x as usize) < n && (y as usize) < n {
                if is_prime(number) {
                    rows[y as usize][x as usize] = number;
                }
                number += 1;
            }
            x += offsets[direction].0;
            y += offsets[direction].1;
        }
        if direction % 2 == 1 {
            run += 1;
        }
        direction = (direction + 1) % 4;
    }
    rows
}

fn nonzero_values(matrix: &Array2D<u32>) -> Vec<u32> {
    let mut values: Vec<u32> = Vec::new();
    for row in matrix.as_rows() {
        for value in row {
            if value != 0 {
                values.push(value);
            }
        }
    }
    values.sort();
    values
}

fn primes_up_to(limit: u32) -> Vec<u32> {
    let mut primes: Vec<u32> = Vec::new();
    for k in 2..=limit {
        if is_prime(k) {
            primes.push(k);
        }
    }
    primes
}

#[test]
fn dimension_of_zero_results_in_empty_matrix() {
    let matrix = generate_ulam_matrix(0);
    assert_eq!(matrix.num_elements(), 0);
}

#[test]
fn generate_ulam_spiral_returns_valid_7_by_7_matrix() {
    let expected_matrix = vec![
        vec![37, 0, 0, 0, 0, 0, 31],
        vec![0, 17, 0, 0, 0, 13, 0],
        vec![0, 0, 5, 0, 3, 0, 29],
        vec![0, 19, 0, 0, 2, 11, 0],
        vec![41, 0, 7, 0, 0, 0, 0],
        vec![0, 0, 0, 23, 0, 0, 0],
        vec![43, 0, 0, 0, 47, 0, 0],
    ];
    let actual_matrix = generate_ulam_matrix(7);
    assert_eq!(actual_matrix.as_rows(), expected_matrix);
}

#[test]
fn walk_turns_east_north_west_south() {
    assert_eq!(DIRECTIONS, [(1, 0), (0, -1), (-1, 0), (0, 1)]);
}

#[test]
fn dimension_of_zero_has_no_rows() {
    let matrix = generate_ulam_matrix(0);
    assert_eq!(matrix.num_rows(), 0);
    assert_eq!(matrix.as_rows(), Vec::<Vec<u32>>::new());
}

#[test]
fn dimension_of_one_holds_a_single_zero() {
    let matrix = generate_ulam_matrix(1);
    assert_eq!(matrix.as_rows(), vec![vec![0]]);
}

#[test]
fn dimension_of_two_starts_below_and_right_of_the_middle() {
    let matrix = generate_ulam_matrix(2);
    assert_eq!(matrix.as_rows(), vec![vec![3, 2], vec![0, 0]]);
}

#[test]
fn dimension_of_three_is_the_first_ring() {
    let matrix = generate_ulam_matrix(3);
    assert_eq!(matrix.as_rows(), vec![vec![5, 0, 3], vec![0, 0, 2], vec![7, 0, 0]]);
}

#[test]
fn dimension_of_four_skips_the_column_right_of_the_grid() {
    let matrix = generate_ulam_matrix(4);
    let expected = vec![
        vec![13, 0, 11, 0],
        vec![0, 5, 0, 3],
        vec![0, 0, 0, 2],
        vec![0, 7, 0, 0],
    ];
    assert_eq!(matrix.as_rows(), expected);
}

#[test]
fn centre_of_the_7_by_7_matrix_is_zero_and_its_east_neighbour_is_two() {
    let matrix = generate_ulam_matrix(7);
    assert_eq!(matrix[(3, 3)], 0);
    assert_eq!(matrix[(3, 4)], 2);
    assert_eq!(matrix[(2, 4)], 3);
    assert_eq!(matrix[(6, 6)], 0);
    assert_eq!(matrix[(6, 4)], 47);
}

#[test]
fn matrix_has_n_squared_cells() {
    for n in [0usize, 1, 2, 3, 8, 15, 64, 129] {
        let matrix = generate_ulam_matrix(n);
        assert_eq!(matrix.num_rows(), n);
        assert_eq!(matrix.num_elements(), n * n);
        for row in matrix.as_rows() {
            assert_eq!(row.len(), n);
        }
    }
}

#[test]
fn every_cell_is_zero_or_a_prime_up_to_n_squared() {
    for n in [1usize, 2, 5, 6, 30, 31] {
        let matrix = generate_ulam_matrix(n);
        for row in matrix.as_rows() {
            for value in row {
                assert!(value == 0 || (is_prime(value) && (value as usize) <= n * n));
            }
        }
    }
}

#[test]
fn every_prime_up_to_n_squared_occurs_exactly_once() {
    for n in [1usize, 2, 3, 4, 7, 10, 25, 64, 101] {
        let matrix = generate_ulam_matrix(n);
        assert_eq!(nonzero_values(&matrix), primes_up_to((n * n) as u32));
    }
}

#[test]
fn generating_twice_gives_the_same_matrix() {
    for n in [0usize, 1, 2, 7, 64, 255] {
        assert_eq!(generate_ulam_matrix(n), generate_ulam_matrix(n));
    }
}

#[test]
fn matrix_agrees_with_the_spiral_walked_step_by_step() {
    for n in 0usize..=40 {
        assert_eq!(generate_ulam_matrix(n).as_rows(), spiral_by_steps(n));
    }
    for n in [128usize, 255, 256] {
        assert_eq!(generate_ulam_matrix(n).as_rows(), spiral_by_steps(n));
    }
}

#[test]
fn largest_accepted_dimension_is_generated() {
    let n: usize = 4096;
    let matrix = generate_ulam_matrix(n);
    assert_eq!(matrix.num_elements(), n * n);
    assert_eq!(matrix[(n / 2, n / 2)], 0);
    assert_eq!(matrix[(n / 2, n / 2 + 1)], 2);
    assert_eq!(matrix[(n / 2 - 1, n / 2 + 1)], 3);
}
