use fps::FPS;

const M: u32 = 998_244_353;

#[test]
fn differential_multiplies_by_the_index() {
    let f = FPS::from_coefficients(&vec![5, 3, 2, 1]);
    assert_eq!(f.differential().coefficients(), vec![3, 4, 3]);
    let g = FPS::from_coefficients(&vec![0, 0, (M - 1) as i64]);
    assert_eq!(g.differential().coefficients(), vec![0, M - 2]);
}

#[test]
fn differential_of_short_series_is_empty() {
    assert_eq!(FPS::new().differential().coefficients(), Vec::<u32>::new());
    assert_eq!(FPS::constant(9).differential().coefficients(), Vec::<u32>::new());
}

#[test]
fn integral_divides_by_the_index() {
    let f = FPS::from_coefficients(&vec![1, 1, 1]);
    // 1/2 and 1/3 in the field
    assert_eq!(f.integral().coefficients(), vec![0, 1, 499_122_177, 332_748_118]);
    let g = FPS::from_coefficients(&vec![3, 4, 3]);
    assert_eq!(g.integral().coefficients(), vec![0, 3, 2, 1]);
}

#[test]
fn integral_of_the_empty_series_is_zero() {
    assert_eq!(FPS::new().integral().coefficients(), vec![0]);
}

#[test]
fn differential_of_integral_is_the_series() {
    let f = FPS::from_coefficients(&vec![3, 1, 4, 1, 5, 9, 2, 6, 0, 0]);
    assert_eq!(f.integral().differential().coefficients(), f.coefficients());
    assert_eq!(FPS::new().integral().differential().coefficients(), Vec::<u32>::new());
}

#[test]
fn integral_of_differential_drops_the_constant_term() {
    let f = FPS::from_coefficients(&vec![3, 1, 4, 1, 5, 9, 2, 6]);
    assert_eq!(f.differential().integral().coefficients(), vec![0, 1, 4, 1, 5, 9, 2, 6]);
    assert_eq!(FPS::constant(5).differential().integral().coefficients(), vec![0]);
    assert_eq!(FPS::new().differential().integral().coefficients(), vec![0]);
}
