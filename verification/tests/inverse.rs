use fps::FPS;

const M: u32 = 998_244_353;

fn times_low(f: &FPS, g: &FPS, n: usize) -> Vec<u32> {
    f.mul(g).pre(n).coefficients()
}

fn unit(n: usize) -> Vec<u32> {
    let mut v = vec![0; n];
    if n > 0 {
        v[0] = 1;
    }
    v
}

#[test]
fn inverse_of_one_minus_x_is_the_geometric_series() {
    let f = FPS::from_coefficients(&vec![1, -1]);
    assert_eq!(f.inv_n(5).coefficients(), vec![1, 1, 1, 1, 1]);
}

#[test]
fn inverse_of_a_constant_is_the_field_inverse() {
    let f = FPS::constant(2);
    assert_eq!(f.inv_n(1).coefficients(), vec![499_122_177]);
    assert_eq!(f.inv_n(4).coefficients(), vec![499_122_177, 0, 0, 0]);
    assert_eq!(FPS::constant(-1).inv_n(2).coefficients(), vec![M - 1, 0]);
}

#[test]
fn inverse_to_precision_zero_is_empty() {
    let f = FPS::from_coefficients(&vec![3, 1]);
    assert_eq!(f.inv_n(0).coefficients(), Vec::<u32>::new());
}

#[test]
fn inverse_times_series_is_one_at_every_precision() {
    let f = FPS::from_coefficients(&vec![3, 1, 4, 1, 5, 9, 2, 6, 5, 3, 5]);
    for n in 1..40 {
        let g = f.inv_n(n);
        assert_eq!(g.len(), n);
        assert_eq!(times_low(&f, &g, n), unit(n));
    }
}

#[test]
fn inverse_has_the_inverse_constant_term() {
    let f = FPS::from_coefficients(&vec![7, 11, 13]);
    let g = f.inv_n(6);
    assert_eq!(g.at(0) as u64 * 7 % M as u64, 1);
}

#[test]
fn inverse_reads_coefficients_beyond_the_precision_as_needed() {
    let long = FPS::from_coefficients(&vec![1, 2, 3, 4, 5, 6, 7, 8]);
    let short = FPS::from_coefficients(&vec![1, 2, 3]);
    assert_eq!(long.inv_n(3).coefficients(), short.inv_n(3).coefficients());
    // 1 / (1 + 2x + 3x^2) = 1 - 2x + x^2 + 4x^3 - ...
    assert_eq!(short.inv_n(4).coefficients(), vec![1, M - 2, 1, 4]);
}

#[test]
fn inv_uses_the_stored_length() {
    let f = FPS::from_coefficients(&vec![1, -1, 0, 0]);
    assert_eq!(f.inv().coefficients(), vec![1, 1, 1, 1]);
    assert_eq!(FPS::new().pre(0).len(), 0);
}

#[test]
fn inverse_of_long_series_at_a_large_precision() {
    let xs: Vec<i64> = (0..300).map(|i| (i * 37 + 5) % 1000).collect();
    let f = FPS::from_coefficients(&xs);
    let n = 300;
    let g = f.inv_n(n);
    assert_eq!(times_low(&f, &g, n), unit(n));
}
