//! The operations that are defined on a part of the series only, with the
//! test on their argument made at run time.

use crate::fps::FPS;
use crate::inverse::{inverse_of, is_inverse, PRECISION_LIMIT};
use crate::log_exp::{exp_of, is_exp, is_log, log_of};
use vstd::prelude::*;

verus! {

/// Why an operation is not defined on a series.
#[derive(Debug, Clone, Copy, PartialEq, Eq, Structural)]
pub enum DomainError {
    /// A series with constant term zero has no inverse.
    ZeroConstantTerm,
    /// A series whose constant term is not one has no logarithm.
    ConstantTermNotOne,
    /// A series whose constant term is not zero has no exponential.
    ConstantTermNotZero,
}

impl FPS {
    /// `inv_n`, or the reason why the series has no inverse.
    pub fn checked_inv_n(&self, n: usize) -> (r: Result<FPS, DomainError>)
        requires
            self.wf(),
            n <= PRECISION_LIMIT,
        ensures
            match r {
                Ok(g) => {
                    &&& self.series()(0) != 0
                    &&& g.wf()
                    &&& g@.len() == n
                    &&& g@ == inverse_of(self@, n as nat)
                    &&& is_inverse(self.series(), g.series(), n as nat)
                },
                Err(e) => self.series()(0) == 0 && e == DomainError::ZeroConstantTerm,
            },
    {
        if self.at(0) == 0 {
            Err(DomainError::ZeroConstantTerm)
        } else {
            Ok(self.inv_n(n))
        }
    }

    /// `log_n`, or the reason why the series has no logarithm.
    pub fn checked_log_n(&self, n: usize) -> (r: Result<FPS, DomainError>)
        requires
            self.wf(),
            n <= PRECISION_LIMIT,
        ensures
            match r {
                Ok(h) => {
                    &&& self.series()(0) == 1
                    &&& h.wf()
                    &&& h@.len() == n
                    &&& h@ == log_of(self@, n as nat)
                    &&& is_log(self.series(), h.series(), n as nat)
                },
                Err(e) => self.series()(0) != 1 && e == DomainError::ConstantTermNotOne,
            },
    {
        if self.at(0) != 1 {
            Err(DomainError::ConstantTermNotOne)
        } else {
            Ok(self.log_n(n))
        }
    }

    /// `exp_n`, or the reason why the series has no exponential.
    pub fn checked_exp_n(&self, n: usize) -> (r: Result<FPS, DomainError>)
        requires
            self.wf(),
            n <= PRECISION_LIMIT,
        ensures
            match r {
                Ok(g) => {
                    &&& self.series()(0) == 0
                    &&& g.wf()
                    &&& g@.len() == n
                    &&& g@ == exp_of(self@, n as nat)
                    &&& is_exp(self.series(), g.series(), n as nat)
                },
                Err(e) => self.series()(0) != 0 && e == DomainError::ConstantTermNotZero,
            },
    {
        if self.at(0) != 0 {
            Err(DomainError::ConstantTermNotZero)
        } else {
            Ok(self.exp_n(n))
        }
    }
}

} // verus!
