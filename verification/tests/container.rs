use fps::{FPS, FPS998244353};

const M: u32 = 998_244_353;

#[test]
fn new_is_empty_and_zero() {
    let f = FPS::new();
    assert_eq!(f.len(), 0);
    assert!(f.is_zero());
    assert_eq!(f.coefficients(), Vec::<u32>::new());
    assert_eq!(f.at(0), 0);
}

#[test]
fn constant_reduces_into_the_field() {
    assert_eq!(FPS::constant(5).coefficients(), vec![5]);
    assert_eq!(FPS::constant(-1).coefficients(), vec![M - 1]);
    assert_eq!(FPS::constant(M as i64).coefficients(), vec![0]);
    assert_eq!(FPS::constant(M as i64 + 7).coefficients(), vec![7]);
}

#[test]
fn from_coefficients_takes_least_nonnegative_remainders() {
    let f = FPS::from_coefficients(&vec![0, -1, M as i64, -(M as i64) - 2, i64::MAX, i64::MIN]);
    let max_rem = (i64::MAX as i128).rem_euclid(M as i128) as u32;
    let min_rem = (i64::MIN as i128).rem_euclid(M as i128) as u32;
    assert_eq!(f.coefficients(), vec![0, M - 1, 0, M - 2, max_rem, min_rem]);
    assert_eq!(f.len(), 6);
}

#[test]
fn at_reads_zero_beyond_the_stored_length() {
    let f = FPS::from_coefficients(&vec![3, 1, 4]);
    assert_eq!(f.at(0), 3);
    assert_eq!(f.at(2), 4);
    assert_eq!(f.at(3), 0);
    assert_eq!(f.at(usize::MAX), 0);
}

#[test]
fn pre_truncates_and_pads() {
    let f = FPS::from_coefficients(&vec![3, 1, 4, 1, 5]);
    assert_eq!(f.pre(2).coefficients(), vec![3, 1]);
    assert_eq!(f.pre(5).coefficients(), vec![3, 1, 4, 1, 5]);
    assert_eq!(f.pre(7).coefficients(), vec![3, 1, 4, 1, 5, 0, 0]);
    assert_eq!(f.pre(0).coefficients(), Vec::<u32>::new());
    assert_eq!(FPS::new().pre(3).coefficients(), vec![0, 0, 0]);
}

#[test]
fn set_growing_writes_in_place() {
    let mut f = FPS::from_coefficients(&vec![3, 1, 4]);
    f.set_growing(1, -2);
    assert_eq!(f.coefficients(), vec![3, M - 2, 4]);
}

#[test]
fn set_growing_grows_with_zeros() {
    let mut f = FPS::from_coefficients(&vec![3]);
    f.set_growing(4, 9);
    assert_eq!(f.coefficients(), vec![3, 0, 0, 0, 9]);
    let mut g = FPS::new();
    g.set_growing(0, 1);
    assert_eq!(g.coefficients(), vec![1]);
}

#[test]
fn shrink_removes_trailing_zeros() {
    let mut f = FPS::from_coefficients(&vec![0, 2, 0, 1, 0, 0]);
    f.shrink();
    assert_eq!(f.coefficients(), vec![0, 2, 0, 1]);
}

#[test]
fn shrink_keeps_one_coefficient_of_the_zero_series() {
    let mut f = FPS::from_coefficients(&vec![0, 0, 0]);
    f.shrink();
    assert_eq!(f.coefficients(), vec![0]);
    let mut g = FPS::new();
    g.shrink();
    assert_eq!(g.coefficients(), Vec::<u32>::new());
    let mut h = FPS::from_coefficients(&vec![7]);
    h.shrink();
    assert_eq!(h.coefficients(), vec![7]);
}

#[test]
fn is_zero_looks_at_every_coefficient() {
    assert!(FPS::from_coefficients(&vec![0, 0, 0]).is_zero());
    assert!(FPS::from_coefficients(&vec![M as i64]).is_zero());
    assert!(!FPS::from_coefficients(&vec![0, 0, 1]).is_zero());
    assert!(!FPS::from_coefficients(&vec![1, 0, 0]).is_zero());
}

#[test]
fn zero_series_empty_and_padded_agree_on_every_coefficient() {
    let a = FPS::new();
    let b = FPS::from_coefficients(&vec![0, 0]);
    for i in 0..4 {
        assert_eq!(a.at(i), b.at(i));
    }
}

#[test]
fn clone_keeps_the_coefficients() {
    let f = FPS::from_coefficients(&vec![3, 1, 4, 0]);
    let g = f.clone();
    assert_eq!(g.coefficients(), vec![3, 1, 4, 0]);
}

#[test]
fn the_full_name_is_the_same_type() {
    let f: FPS998244353 = FPS::constant(998_244_354);
    assert_eq!(f.coefficients(), vec![1]);
}
