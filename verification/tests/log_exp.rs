use fps::FPS;

const M: u64 = 998_244_353;

fn power_mod(mut a: u64, mut e: u64) -> u64 {
    let mut r = 1u64;
    a %= M;
    while e > 0 {
        if e & 1 == 1 {
            r = r * a % M;
        }
        a = a * a % M;
        e >>= 1;
    }
    r
}

/// The exponential by the recurrence k g[k] = sum of i f[i] g[k - i].
fn exp_by_recurrence(f: &[u64], n: usize) -> Vec<u32> {
    let mut g = vec![0u64; n];
    if n > 0 {
        g[0] = 1;
    }
    for k in 1..n {
        let mut s = 0u64;
        for i in 1..=k {
            if i < f.len() {
                s = (s + (i as u64 % M) * f[i] % M * g[k - i]) % M;
            }
        }
        g[k] = s * power_mod(k as u64, M - 2) % M;
    }
    g.into_iter().map(|x| x as u32).collect()
}

#[test]
fn log_of_one_is_zero() {
    assert_eq!(FPS::constant(1).log_n(4).coefficients(), vec![0, 0, 0, 0]);
}

#[test]
fn log_of_one_minus_x_has_negative_reciprocals() {
    // log(1 - x) = -x - x^2/2 - x^3/3 - ...
    let f = FPS::from_coefficients(&vec![1, -1]);
    let h = f.log_n(5).coefficients();
    assert_eq!(h.len(), 5);
    assert_eq!(h[0], 0);
    for k in 1..5u64 {
        assert_eq!((h[k as usize] as u64 * k + 1) % M, 0);
    }
    assert_eq!(h[2], 499_122_176);
}

#[test]
fn log_to_precision_zero_and_one() {
    let f = FPS::from_coefficients(&vec![1, 5, 7]);
    assert_eq!(f.log_n(0).coefficients(), Vec::<u32>::new());
    assert_eq!(f.log_n(1).coefficients(), vec![0]);
}

#[test]
fn log_uses_the_stored_length() {
    let f = FPS::from_coefficients(&vec![1, 1, 0]);
    // log(1 + x) = x - x^2/2
    assert_eq!(f.log().coefficients(), vec![0, 1, 499_122_176]);
}

#[test]
fn exp_of_zero_is_one() {
    assert_eq!(FPS::new().exp_n(3).coefficients(), vec![1, 0, 0]);
    assert_eq!(FPS::constant(0).exp_n(3).coefficients(), vec![1, 0, 0]);
}

#[test]
fn exp_of_x_has_reciprocal_factorials() {
    let f = FPS::from_coefficients(&vec![0, 1]);
    let g = f.exp_n(6).coefficients();
    assert_eq!(g, vec![1, 1, 499_122_177, 166_374_059, 291_154_603, 856_826_403]);
}

#[test]
fn exp_to_precision_zero_and_one() {
    let f = FPS::from_coefficients(&vec![0, 5, 7]);
    assert_eq!(f.exp_n(0).coefficients(), Vec::<u32>::new());
    assert_eq!(f.exp_n(1).coefficients(), vec![1]);
}

#[test]
fn exp_uses_the_stored_length() {
    let f = FPS::from_coefficients(&vec![0, 1, 0]);
    assert_eq!(f.exp().coefficients(), vec![1, 1, 499_122_177]);
}

#[test]
fn exp_matches_the_recurrence_of_its_differential_equation() {
    let seeds: Vec<Vec<i64>> = vec![
        vec![0, 1],
        vec![0, 3, 1, 4, 1, 5, 9, 2, 6],
        vec![0, 0, 0, 7],
        vec![0, -1, -1, -1, -1, -1, -1, -1, -1, -1, -1, -1, -1],
        vec![0],
    ];
    for xs in seeds.iter() {
        let f = FPS::from_coefficients(xs);
        let reduced: Vec<u64> = f.coefficients().into_iter().map(|x| x as u64).collect();
        for n in 0..35 {
            assert_eq!(f.exp_n(n).coefficients(), exp_by_recurrence(&reduced, n));
        }
    }
}

#[test]
fn exp_of_a_long_series_matches_the_recurrence() {
    let xs: Vec<i64> = (0..150).map(|i| (i * i * 31 + i) % 997).collect();
    let f = FPS::from_coefficients(&xs);
    let reduced: Vec<u64> = f.coefficients().into_iter().map(|x| x as u64).collect();
    assert_eq!(f.exp_n(150).coefficients(), exp_by_recurrence(&reduced, 150));
}

#[test]
fn log_of_exp_gives_the_series_back() {
    let f = FPS::from_coefficients(&vec![0, 3, 1, 4, 1, 5, 9, 2, 6]);
    for n in 1..30 {
        let h = f.exp_n(n).log_n(n);
        assert_eq!(h.pre(n).coefficients(), f.pre(n).coefficients());
    }
}

#[test]
fn exp_of_log_gives_the_series_back() {
    let f = FPS::from_coefficients(&vec![1, 3, 1, 4, 1, 5, 9, 2, 6]);
    for n in 1..30 {
        let g = f.log_n(n).exp_n(n);
        assert_eq!(g.coefficients(), f.pre(n).coefficients());
    }
}
