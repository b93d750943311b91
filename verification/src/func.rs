//! Time-dependent data supplied from outside the solver.
//!
//! Boundary conditions and initial conditions are functions from a rational
//! argument (time, or position) to a rational value.  The solver only needs a
//! single `evaluate` capability; implementations state the exact value they
//! return through the trait's specification functions, so that the stepping
//! contracts can speak about the boundary data precisely.

use vstd::prelude::*;
use crate::rat::{q_add, q_int, q_mul, q_norm, q_norm_opt, q_small, q_wf, rat_opt_is, Q, Rat};

verus! {

/// A function from one rational to one rational, evaluated exactly.
///
/// `spec_eval` names the exact representative an implementation returns and
/// `eval_ok` tells on which arguments evaluation succeeds; `fwf` is the
/// implementation's own invariant.
pub trait TimeFunction: Sized {
    /// Invariant of the function value itself.
    spec fn fwf(&self) -> bool;

    /// The exact representative returned for argument `t`.
    spec fn spec_eval(&self, t: Q) -> Q;

    /// Whether evaluation succeeds on argument `t`.
    spec fn eval_ok(&self, t: Q) -> bool;

    /// Evaluate the function at `t`.
    fn evaluate(&self, t: &Rat) -> (r: Option<Rat>)
        requires
            self.fwf(),
            t.wf(),
        ensures
            r is Some <==> self.eval_ok(t@),
            r matches Some(v) ==> v.wf() && v@ == self.spec_eval(t@),
    ;
}

/// The constant function `t |-> c`.
#[derive(Clone, Copy, Debug)]
pub struct ConstFn {
    pub c: Rat,
}

impl ConstFn {
    pub fn new(c: Rat) -> (r: ConstFn)
        ensures
            r.c == c,
    {
        ConstFn { c }
    }
}

impl TimeFunction for ConstFn {
    open spec fn fwf(&self) -> bool {
        self.c.wf()
    }

    open spec fn spec_eval(&self, t: Q) -> Q {
        self.c@
    }

    open spec fn eval_ok(&self, t: Q) -> bool {
        true
    }

    fn evaluate(&self, t: &Rat) -> (r: Option<Rat>) {
        Some(self.c)
    }
}

/// The affine function `t |-> b + k * t`.
#[derive(Clone, Copy, Debug)]
pub struct AffineFn {
    pub b: Rat,
    pub k: Rat,
}

impl AffineFn {
    pub fn new(b: Rat, k: Rat) -> (r: AffineFn)
        ensures
            r.b == b,
            r.k == k,
    {
        AffineFn { b, k }
    }
}

impl TimeFunction for AffineFn {
    open spec fn fwf(&self) -> bool {
        self.b.wf() && self.k.wf()
    }

    open spec fn spec_eval(&self, t: Q) -> Q {
        q_norm(q_add(self.b@, q_norm(q_mul(self.k@, t))))
    }

    open spec fn eval_ok(&self, t: Q) -> bool {
        q_small(q_mul(self.k@, t)) && q_small(q_add(self.b@, q_norm(q_mul(self.k@, t))))
    }

    fn evaluate(&self, t: &Rat) -> (r: Option<Rat>) {
        let m = self.k.times(t)?;
        let r = self.b.plus(&m)?;
        Some(r)
    }
}

} // verus!
