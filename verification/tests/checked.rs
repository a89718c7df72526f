use fps::{DomainError, FPS};

#[test]
fn checked_inverse_rejects_a_zero_constant_term() {
    let f = FPS::from_coefficients(&vec![0, 1]);
    assert_eq!(f.checked_inv_n(3).err(), Some(DomainError::ZeroConstantTerm));
    assert_eq!(FPS::new().checked_inv_n(3).err(), Some(DomainError::ZeroConstantTerm));
    let g = FPS::from_coefficients(&vec![1, -1]);
    assert_eq!(g.checked_inv_n(3).ok().map(|r| r.coefficients()), Some(vec![1, 1, 1]));
}

#[test]
fn checked_log_rejects_a_constant_term_other_than_one() {
    let f = FPS::from_coefficients(&vec![2, 1]);
    assert_eq!(f.checked_log_n(3).err(), Some(DomainError::ConstantTermNotOne));
    assert_eq!(FPS::new().checked_log_n(3).err(), Some(DomainError::ConstantTermNotOne));
    let g = FPS::from_coefficients(&vec![1, 1, 0]);
    assert_eq!(
        g.checked_log_n(3).ok().map(|r| r.coefficients()),
        Some(vec![0, 1, 499_122_176])
    );
}

#[test]
fn checked_exp_rejects_a_nonzero_constant_term() {
    let f = FPS::from_coefficients(&vec![1, 1]);
    assert_eq!(f.checked_exp_n(3).err(), Some(DomainError::ConstantTermNotZero));
    let g = FPS::from_coefficients(&vec![0, 1]);
    assert_eq!(
        g.checked_exp_n(3).ok().map(|r| r.coefficients()),
        Some(vec![1, 1, 499_122_177])
    );
    assert_eq!(FPS::new().checked_exp_n(2).ok().map(|r| r.coefficients()), Some(vec![1, 0]));
}
