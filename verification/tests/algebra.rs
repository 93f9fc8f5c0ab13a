//! The uncertainty algebra on concrete values: construction, block stacking
//! with exact layout, and read views.

use rust_livo2::linalg::Matrix;
use rust_livo2::uncertain::Uncertainty;

#[test]
fn from_element_fills_every_entry() {
    let u = Uncertainty::from_element(3, 5);
    assert_eq!(u.dimension(), 3);
    for i in 0..3 {
        for j in 0..3 {
            assert_eq!(u.entry(i, j), 5);
        }
    }
}

#[test]
fn from_diagonal_element_is_diagonal() {
    let u = Uncertainty::from_diagonal_element(2, 7);
    assert_eq!(u.entry(0, 0), 7);
    assert_eq!(u.entry(1, 1), 7);
    assert_eq!(u.entry(0, 1), 0);
    assert_eq!(u.entry(1, 0), 0);
}

#[test]
fn stacking_is_exact_block_diagonal() {
    // Given a 3x3 block A and a 3x3 block B, the 6x6 composite is exactly
    // [[A, 0], [0, B]].
    let a = Uncertainty::from_element(3, 4);
    let b = Uncertainty::from_diagonal_element(3, 9);
    let c = a.stacked_with(&b);
    assert_eq!(c.dimension(), 6);
    for i in 0..6 {
        for j in 0..6 {
            let expected = if i < 3 && j < 3 {
                a.entry(i, j)
            } else if i >= 3 && j >= 3 {
                b.entry(i - 3, j - 3)
            } else {
                0
            };
            assert_eq!(c.entry(i, j), expected);
        }
    }
}

#[test]
fn views_read_back_the_original_blocks() {
    let a = Uncertainty::from_element(3, 4);
    let b = Uncertainty::from_diagonal_element(3, 9);
    let c = a.stacked_with(&b);
    let va = c.view_block(0, 3);
    let vb = c.view_block(3, 3);
    for i in 0..3 {
        for j in 0..3 {
            assert_eq!(va.entry(i, j), a.entry(i, j));
            assert_eq!(vb.entry(i, j), b.entry(i, j));
        }
    }
}

#[test]
fn composite_stays_symmetric() {
    // Any covariance the library hands out is symmetric; spot-check one
    // composite entry by entry.
    let a = Uncertainty::from_element(3, 11);
    let b = Uncertainty::from_element(3, 2);
    let c = a.stacked_with(&b);
    for i in 0..6 {
        for j in 0..6 {
            assert_eq!(c.entry(i, j), c.entry(j, i));
        }
    }
}

#[test]
fn bound_check_matches_entries() {
    let u = Uncertainty::from_element(2, 100);
    assert!(u.bounded_within(100));
    assert!(!u.bounded_within(99));
}

#[test]
fn matrix_constructors_have_exact_entries() {
    let z = Matrix::zeros(2, 3);
    for i in 0..2 {
        for j in 0..3 {
            assert_eq!(z.at(i, j), 0);
        }
    }
    let d = Matrix::diagonal(3, 5);
    for i in 0..3 {
        for j in 0..3 {
            assert_eq!(d.at(i, j), if i == j { 5 } else { 0 });
        }
    }
    assert_eq!(d.height(), 3);
}

#[test]
fn from_element_with_len_matches_from_element() {
    let a = Uncertainty::from_element(4, 3);
    let b = Uncertainty::from_element_with_len(3, 4);
    for i in 0..4 {
        for j in 0..4 {
            assert_eq!(a.entry(i, j), b.entry(i, j));
        }
    }
}
