use fps::FPS;

const M: u32 = 998_244_353;

#[test]
fn add_is_elementwise_and_keeps_the_longer_length() {
    let a = FPS::from_coefficients(&vec![1, 2, 3]);
    let b = FPS::from_coefficients(&vec![10, -3]);
    assert_eq!(a.add(&b).coefficients(), vec![11, M - 1, 3]);
    assert_eq!(b.add(&a).coefficients(), vec![11, M - 1, 3]);
}

#[test]
fn add_wraps_around_the_modulus() {
    let a = FPS::from_coefficients(&vec![(M - 1) as i64, 5]);
    let b = FPS::from_coefficients(&vec![2, (M - 5) as i64]);
    assert_eq!(a.add(&b).coefficients(), vec![1, 0]);
}

#[test]
fn add_assign_does_not_shrink_the_receiver() {
    let mut a = FPS::from_coefficients(&vec![1, 0, 0, 0]);
    a.add_assign(&FPS::from_coefficients(&vec![1]));
    assert_eq!(a.coefficients(), vec![2, 0, 0, 0]);
    let mut e = FPS::new();
    e.add_assign(&FPS::from_coefficients(&vec![4, 5]));
    assert_eq!(e.coefficients(), vec![4, 5]);
}

#[test]
fn sub_is_elementwise() {
    let a = FPS::from_coefficients(&vec![1, 2]);
    let b = FPS::from_coefficients(&vec![3, 2, 1]);
    assert_eq!(a.sub(&b).coefficients(), vec![M - 2, 0, M - 1]);
    let mut c = b.clone();
    c.sub_assign(&a);
    assert_eq!(c.coefficients(), vec![2, 0, 1]);
}

#[test]
fn scalars_touch_the_constant_term_only() {
    let a = FPS::from_coefficients(&vec![1, 2, 3]);
    assert_eq!(a.add_scalar(5).coefficients(), vec![6, 2, 3]);
    assert_eq!(a.sub_scalar(5).coefficients(), vec![M - 4, 2, 3]);
    assert_eq!(a.add_scalar(M - 1).coefficients(), vec![0, 2, 3]);
}

#[test]
fn scalar_on_the_empty_series_grows_it() {
    assert_eq!(FPS::new().add_scalar(7).coefficients(), vec![7]);
    assert_eq!(FPS::new().sub_scalar(7).coefficients(), vec![M - 7]);
    let mut e = FPS::new();
    e.add_scalar_assign(0);
    assert_eq!(e.coefficients(), vec![0]);
}

#[test]
fn scale_multiplies_every_coefficient() {
    let a = FPS::from_coefficients(&vec![1, 2, 0, 499_122_177]);
    assert_eq!(a.scale(2).coefficients(), vec![2, 4, 0, 1]);
    assert_eq!(a.scale(0).coefficients(), vec![0, 0, 0, 0]);
    assert_eq!(FPS::new().scale(3).coefficients(), Vec::<u32>::new());
    let mut b = FPS::from_coefficients(&vec![5, 6]);
    b.scale_assign(M - 1);
    assert_eq!(b.coefficients(), vec![M - 5, M - 6]);
}

#[test]
fn shr_drops_low_order_terms() {
    let a = FPS::from_coefficients(&vec![1, 2, 3, 4]);
    assert_eq!(a.shr(0).coefficients(), vec![1, 2, 3, 4]);
    assert_eq!(a.shr(1).coefficients(), vec![2, 3, 4]);
    assert_eq!(a.shr(4).coefficients(), Vec::<u32>::new());
    assert_eq!(a.shr(9).coefficients(), Vec::<u32>::new());
}

#[test]
fn shl_prepends_zeros() {
    let a = FPS::from_coefficients(&vec![1, 2]);
    assert_eq!(a.shl(0).coefficients(), vec![1, 2]);
    assert_eq!(a.shl(3).coefficients(), vec![0, 0, 0, 1, 2]);
    assert_eq!(FPS::new().shl(2).coefficients(), vec![0, 0]);
    let mut b = a.clone();
    b.shl_assign(1);
    b.shr_assign(1);
    assert_eq!(b.coefficients(), a.coefficients());
}

#[test]
fn mul_is_the_exact_product() {
    let a = FPS::from_coefficients(&vec![1, 2, 3]);
    let b = FPS::from_coefficients(&vec![4, 5]);
    assert_eq!(a.mul(&b).coefficients(), vec![4, 13, 22, 15]);
    let c = FPS::from_coefficients(&vec![1, -1]);
    let d = FPS::from_coefficients(&vec![1, 1]);
    assert_eq!(c.mul(&d).coefficients(), vec![1, 0, M - 1]);
}

#[test]
fn mul_shrinks_the_left_operand_only() {
    let a = FPS::from_coefficients(&vec![1, 2, 0, 0]);
    let b = FPS::from_coefficients(&vec![3, 0, 0]);
    assert_eq!(a.mul(&b).coefficients(), vec![3, 6, 0, 0]);
    assert_eq!(b.mul(&a).coefficients(), vec![3, 6, 0, 0]);
    let z = FPS::from_coefficients(&vec![0, 0, 0]);
    assert_eq!(z.mul(&b).coefficients(), vec![0, 0, 0]);
}

#[test]
fn mul_result_does_not_depend_on_which_operand_is_shrunk() {
    let a = FPS::from_coefficients(&vec![5, 0, 7, 0, 0, 0]);
    let b = FPS::from_coefficients(&vec![0, 2, 9, 0]);
    let ab = a.mul(&b);
    let ba = b.mul(&a);
    let mut a_shrunk = a.clone();
    a_shrunk.shrink();
    let mut b_shrunk = b.clone();
    b_shrunk.shrink();
    let both = a_shrunk.mul(&b_shrunk);
    for i in 0..12 {
        assert_eq!(ab.at(i), ba.at(i));
        assert_eq!(ab.at(i), both.at(i));
    }
    assert_eq!(both.coefficients(), vec![0, 10, 45, 14, 63]);
}

#[test]
fn mul_with_an_empty_operand_is_empty() {
    let a = FPS::from_coefficients(&vec![1, 2, 3]);
    assert_eq!(a.mul(&FPS::new()).coefficients(), Vec::<u32>::new());
    assert_eq!(FPS::new().mul(&a).coefficients(), Vec::<u32>::new());
}

#[test]
fn mul_of_long_series_matches_the_schoolbook_product() {
    let n = 200usize;
    let xs: Vec<i64> = (0..n as i64).map(|i| i * i + 3).collect();
    let ys: Vec<i64> = (0..n as i64).map(|i| 7 * i + 1).collect();
    let a = FPS::from_coefficients(&xs);
    let b = FPS::from_coefficients(&ys);
    let c = a.mul(&b).coefficients();
    assert_eq!(c.len(), 2 * n - 1);
    for k in 0..2 * n - 1 {
        let mut s: u64 = 0;
        for i in 0..=k {
            if i < n && k - i < n {
                s = (s + (xs[i] as u64 % M as u64) * (ys[k - i] as u64 % M as u64)) % M as u64;
            }
        }
        assert_eq!(c[k] as u64, s);
    }
}

#[test]
fn mul_assign_replaces_the_receiver() {
    let mut a = FPS::from_coefficients(&vec![1, 1]);
    a.mul_assign(&FPS::from_coefficients(&vec![1, 1]));
    a.mul_assign(&FPS::from_coefficients(&vec![1, 1]));
    assert_eq!(a.coefficients(), vec![1, 3, 3, 1]);
}

#[test]
fn div_multiplies_by_the_inverse_to_the_longer_length() {
    // (1 - x^2) / (1 - x): the inverse of 1 - x to three coefficients is 1 + x + x^2
    let a = FPS::from_coefficients(&vec![1, 0, -1]);
    let b = FPS::from_coefficients(&vec![1, -1]);
    assert_eq!(a.div(&b).coefficients(), vec![1, 1, 0, M - 1, M - 1]);
    let mut c = FPS::from_coefficients(&vec![6, 4]);
    c.div_assign(&FPS::from_coefficients(&vec![2]));
    assert_eq!(c.coefficients(), vec![3, 2, 0]);
}
