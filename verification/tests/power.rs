use fps::FPS;

fn repeated_product(f: &FPS, n: usize, e: usize) -> Vec<u32> {
    let mut r = FPS::constant(1);
    for _ in 0..e {
        r = r.mul(f).pre(n);
    }
    r.pre(n).coefficients()
}

#[test]
fn power_of_two_x_plus_x_squared() {
    let f = FPS::from_coefficients(&vec![0, 2, 1]);
    assert_eq!(f.pow_n(10, 3).coefficients(), vec![0, 0, 0, 8, 12, 6, 1, 0, 0, 0]);
}

#[test]
fn power_zero_is_one() {
    let f = FPS::from_coefficients(&vec![0, 2, 1]);
    assert_eq!(f.pow_n(4, 0).coefficients(), vec![1, 0, 0, 0]);
    assert_eq!(f.pow_n(1, 0).coefficients(), vec![1]);
    assert_eq!(f.pow_n(0, 0).coefficients(), Vec::<u32>::new());
}

#[test]
fn power_zero_of_the_zero_series_is_one() {
    assert_eq!(FPS::new().pow_n(3, 0).coefficients(), vec![1, 0, 0]);
    assert_eq!(FPS::from_coefficients(&vec![0, 0]).pow_n(3, 0).coefficients(), vec![1, 0, 0]);
}

#[test]
fn power_of_the_zero_series_is_zero() {
    assert_eq!(FPS::new().pow_n(3, 2).coefficients(), vec![0, 0, 0]);
    assert_eq!(FPS::from_coefficients(&vec![0, 0]).pow_n(4, 1).coefficients(), vec![0, 0, 0, 0]);
}

#[test]
fn power_is_zero_where_the_valuation_exceeds_the_precision() {
    let f = FPS::from_coefficients(&vec![0, 0, 5, 1]);
    // valuation 2: 2 * 3 >= 6 and 2 * 3 >= 5
    assert_eq!(f.pow_n(6, 3).coefficients(), vec![0, 0, 0, 0, 0, 0]);
    assert_eq!(f.pow_n(5, 3).coefficients(), vec![0, 0, 0, 0, 0]);
    // one more coefficient and the leading term 125 x^6 shows
    assert_eq!(f.pow_n(7, 3).coefficients(), vec![0, 0, 0, 0, 0, 0, 125]);
    assert_eq!(f.pow_n(3, usize::MAX).coefficients(), vec![0, 0, 0]);
}

#[test]
fn power_with_a_large_exponent_and_valuation_zero() {
    // (1 + x)^e = 1 + e x + ...
    let f = FPS::from_coefficients(&vec![1, 1]);
    let e = 1_000_000_007usize;
    let r = f.pow_n(2, e).coefficients();
    assert_eq!(r, vec![1, (e % 998_244_353) as u32]);
}

#[test]
fn power_scales_by_the_power_of_the_leading_coefficient() {
    let f = FPS::from_coefficients(&vec![3]);
    assert_eq!(f.pow_n(3, 4).coefficients(), vec![81, 0, 0]);
    let g = FPS::from_coefficients(&vec![0, 3]);
    assert_eq!(g.pow_n(4, 2).coefficients(), vec![0, 0, 9, 0]);
}

#[test]
fn power_agrees_with_repeated_multiplication() {
    let seeds: Vec<Vec<i64>> = vec![
        vec![0, 2, 1],
        vec![1, 1],
        vec![3, 1, 4, 1, 5],
        vec![0, 0, 7, -2],
        vec![-1],
        vec![0, 0, 0],
        vec![],
        vec![5, 0, 0, 0, 0, 0, 1],
    ];
    for xs in seeds.iter() {
        let f = FPS::from_coefficients(xs);
        for e in 0..4 {
            for n in 0..14 {
                assert_eq!(f.pow_n(n, e).coefficients(), repeated_product(&f, n, e));
            }
        }
    }
}

#[test]
fn power_one_is_the_series_itself() {
    let f = FPS::from_coefficients(&vec![0, 3, 1, 4, 1, 5]);
    assert_eq!(f.pow_n(6, 1).coefficients(), f.coefficients());
    assert_eq!(f.pow_n(8, 1).coefficients(), vec![0, 3, 1, 4, 1, 5, 0, 0]);
}

#[test]
fn pow_uses_the_stored_length() {
    let f = FPS::from_coefficients(&vec![1, 1, 0, 0]);
    assert_eq!(f.pow(3).coefficients(), vec![1, 3, 3, 1]);
    assert_eq!(f.pow(5).coefficients(), vec![1, 5, 10, 10]);
}

#[test]
fn power_of_a_long_series_agrees_with_repeated_multiplication() {
    let xs: Vec<i64> = (0..90).map(|i| if i < 2 { 0 } else { (i * 17 + 3) % 101 }).collect();
    let f = FPS::from_coefficients(&xs);
    assert_eq!(f.pow_n(200, 3).coefficients(), repeated_product(&f, 200, 3));
    assert_eq!(f.pow_n(200, 5).coefficients(), repeated_product(&f, 200, 5));
}
