//! Exact rational arithmetic.
//!
//! A mathematical rational is modelled by the ghost pair [`Q`] (numerator and
//! nonzero denominator); two pairs denote the same value exactly when their
//! cross products agree ([`q_eq`]).  The executable type [`Rat`] carries a
//! rational in lowest terms with a positive denominator that fits in `i64`.
//! Every arithmetic operation either returns the canonical representative of
//! the exact result or reports, by returning `None`, that this canonical
//! representative does not fit ([`q_small`]); the contracts state which of the
//! two happens for every input.

use vstd::prelude::*;
use vstd::arithmetic::mul::{
    lemma_mul_is_commutative, lemma_mul_is_distributive_add_other_way,
    lemma_mul_is_distributive_sub_other_way,
};
use vstd::arithmetic::div_mod::{
    lemma_div_of0, lemma_fundamental_div_mod, lemma_mod_multiples_basic, lemma_mod_self_0,
    lemma_small_mod,
};

verus! {

/// A rational number as a ghost pair: the value `n / d`, meaningful when `d != 0`.
pub ghost struct Q {
    pub n: int,
    pub d: int,
}

/// The pair denotes a rational value.
pub open spec fn q_wf(p: Q) -> bool {
    p.d != 0
}

/// `a` and `b` denote the same rational value.
pub open spec fn q_eq(a: Q, b: Q) -> bool {
    a.n * b.d == b.n * a.d
}

pub open spec fn q_add(a: Q, b: Q) -> Q {
    Q { n: a.n * b.d + b.n * a.d, d: a.d * b.d }
}

pub open spec fn q_sub(a: Q, b: Q) -> Q {
    Q { n: a.n * b.d - b.n * a.d, d: a.d * b.d }
}

pub open spec fn q_mul(a: Q, b: Q) -> Q {
    Q { n: a.n * b.n, d: a.d * b.d }
}

pub open spec fn q_div(a: Q, b: Q) -> Q {
    Q { n: a.n * b.d, d: a.d * b.n }
}

pub open spec fn q_neg(a: Q) -> Q {
    Q { n: -a.n, d: a.d }
}

pub open spec fn q_int(i: int) -> Q {
    Q { n: i, d: 1 }
}

/// The value of `a` is at most the value of `b` (any nonzero denominators):
/// the defining inequality is `n_a/d_a <= n_b/d_b` multiplied by `(d_a*d_b)^2 > 0`.
pub open spec fn q_le(a: Q, b: Q) -> bool {
    a.n * a.d * (b.d * b.d) <= b.n * b.d * (a.d * a.d)
}

/// Strict version of [`q_le`].
pub open spec fn q_lt(a: Q, b: Q) -> bool {
    a.n * a.d * (b.d * b.d) < b.n * b.d * (a.d * a.d)
}

/// The value of `a` is strictly positive.
pub open spec fn q_pos(a: Q) -> bool {
    0 < a.n * a.d
}

/// The value of `a` is nonnegative.
pub open spec fn q_nonneg(a: Q) -> bool {
    0 <= a.n * a.d
}

pub open spec fn abs_int(i: int) -> nat {
    if i < 0 {
        (-i) as nat
    } else {
        i as nat
    }
}

/// Greatest common divisor by Euclid's recursion.
pub open spec fn gcd_nat(a: nat, b: nat) -> nat
    decreases b,
{
    if b == 0 {
        a
    } else {
        gcd_nat(b, a % b)
    }
}

/// The canonical representative of the value of `p`: lowest terms, positive
/// denominator, sign on the numerator.
pub open spec fn q_norm(p: Q) -> Q {
    let un = abs_int(p.n);
    let ud = abs_int(p.d);
    let g = gcd_nat(un, ud);
    let qn = (un / g) as int;
    let qd = (ud / g) as int;
    if (p.n < 0) == (p.d < 0) {
        Q { n: qn, d: qd }
    } else {
        Q { n: -qn, d: qd }
    }
}

/// The canonical representative of `p` fits the executable representation.
pub open spec fn q_small(p: Q) -> bool {
    &&& q_wf(p)
    &&& -(i64::MAX as int) <= q_norm(p).n <= i64::MAX as int
    &&& q_norm(p).d <= i64::MAX as int
}

/// The canonical representative of `p`, if it fits; `None` otherwise.
pub open spec fn q_norm_opt(p: Q) -> Option<Q> {
    if q_small(p) {
        Some(q_norm(p))
    } else {
        None
    }
}

/// `gcd_nat` is positive on a nonzero argument pair and divides both arguments.
pub proof fn lemma_gcd_props(a: nat, b: nat)
    ensures
        a > 0 || b > 0 ==> gcd_nat(a, b) > 0,
        gcd_nat(a, b) > 0 ==> a % gcd_nat(a, b) == 0 && b % gcd_nat(a, b) == 0,
    decreases b,
{
    if b == 0 {
        if a > 0 {
            lemma_mod_self_0(a as int);
            lemma_small_mod(0, a);
        }
    } else {
        lemma_gcd_props(b, a % b);
        let g = gcd_nat(b, a % b);
        assert(g > 0);
        lemma_fundamental_div_mod(a as int, b as int);
        lemma_fundamental_div_mod(b as int, g as int);
        lemma_fundamental_div_mod((a % b) as int, g as int);
        let qb = b as int / g as int;
        let qr = (a % b) as int / g as int;
        let qa = a as int / b as int;
        assert(a as int == (qb * qa + qr) * g as int) by (nonlinear_arith)
            requires
                a as int == b as int * qa + (a % b) as int,
                b as int == g as int * qb,
                (a % b) as int == g as int * qr,
        ;
        lemma_mod_multiples_basic(qb * qa + qr, g as int);
    }
}

/// Normalisation preserves the denoted value and yields a positive denominator.
pub proof fn lemma_q_norm(p: Q)
    requires
        q_wf(p),
    ensures
        q_wf(q_norm(p)),
        0 < q_norm(p).d,
        q_eq(q_norm(p), p),
{
    let un = abs_int(p.n);
    let ud = abs_int(p.d);
    lemma_gcd_props(un, ud);
    let g = gcd_nat(un, ud);
    assert(g > 0);
    lemma_fundamental_div_mod(un as int, g as int);
    lemma_fundamental_div_mod(ud as int, g as int);
    let qn = (un / g) as int;
    let qd = (ud / g) as int;
    assert(qn * ud as int == un as int * qd && 0 < qd) by (nonlinear_arith)
        requires
            un as int == g as int * qn + (un % g) as int,
            ud as int == g as int * qd + (ud % g) as int,
            un % g == 0,
            ud % g == 0,
            g > 0,
            qn >= 0,
            qd >= 0,
            ud > 0,
    ;
    let np = q_norm(p);
    if p.d > 0 {
        if p.n >= 0 {
            assert(np.n * p.d == p.n * np.d) by (nonlinear_arith)
                requires
                    np.n == qn,
                    np.d == qd,
                    qn * (ud as int) == (un as int) * qd,
                    un as int == p.n,
                    ud as int == p.d,
            ;
        } else {
            assert(np.n * p.d == p.n * np.d) by (nonlinear_arith)
                requires
                    np.n == -qn,
                    np.d == qd,
                    qn * (ud as int) == (un as int) * qd,
                    un as int == -p.n,
                    ud as int == p.d,
            ;
        }
    } else {
        if p.n >= 0 {
            assert(np.n * p.d == p.n * np.d) by (nonlinear_arith)
                requires
                    np.n == -qn,
                    np.d == qd,
                    qn * (ud as int) == (un as int) * qd,
                    un as int == p.n,
                    ud as int == -p.d,
            ;
        } else {
            assert(np.n * p.d == p.n * np.d) by (nonlinear_arith)
                requires
                    np.n == qn,
                    np.d == qd,
                    qn * (ud as int) == (un as int) * qd,
                    un as int == -p.n,
                    ud as int == -p.d,
            ;
        }
    }
}

/// Jointly negating numerator and denominator does not change the canonical form.
pub proof fn lemma_q_norm_flip(p: Q)
    requires
        q_wf(p),
    ensures
        q_norm(Q { n: -p.n, d: -p.d }) == q_norm(p),
        q_small(Q { n: -p.n, d: -p.d }) == q_small(p),
{
    let f = Q { n: -p.n, d: -p.d };
    assert(abs_int(f.n) == abs_int(p.n));
    assert(abs_int(f.d) == abs_int(p.d));
    if p.n == 0 {
        let ud = abs_int(p.d);
        lemma_gcd_props(0, ud);
        let g = gcd_nat(0, ud);
        lemma_div_of0(g as int);
        assert(0nat / g == 0);
        assert(q_norm(f).n == 0 && q_norm(p).n == 0);
    }
    assert(q_norm(f) == q_norm(p));
}

/// Exact rational value in canonical form: positive denominator, and the
/// numerator magnitude bounded so that negation never overflows.
#[derive(Clone, Copy, Debug)]
pub struct Rat {
    num: i64,
    den: i64,
}

impl View for Rat {
    type V = Q;

    closed spec fn view(&self) -> Q {
        Q { n: self.num as int, d: self.den as int }
    }
}

/// Relates an executable result to the ghost outcome it must mirror.
pub open spec fn rat_opt_is(r: Option<Rat>, s: Option<Q>) -> bool {
    match r {
        Some(v) => v.wf() && s == Some(v@),
        None => s is None,
    }
}

impl Rat {
    /// Well-formed: positive denominator, symmetric numerator range.
    pub open spec fn wf(self) -> bool {
        &&& 0 < self@.d <= i64::MAX as int
        &&& -(i64::MAX as int) <= self@.n <= i64::MAX as int
    }

    pub fn num(&self) -> (r: i64)
        ensures
            r as int == self@.n,
    {
        self.num
    }

    pub fn den(&self) -> (r: i64)
        ensures
            r as int == self@.d,
    {
        self.den
    }

    /// The integer `i` as a rational.
    pub fn from_int(i: i64) -> (r: Rat)
        requires
            i != i64::MIN,
        ensures
            r.wf(),
            r@ == q_int(i as int),
    {
        Rat { num: i, den: 1 }
    }

    /// The value `num / den` in canonical form, if `den` is nonzero and the
    /// canonical form fits; `None` otherwise.
    pub fn new(num: i64, den: i64) -> (r: Option<Rat>)
        ensures
            rat_opt_is(r, q_norm_opt(Q { n: num as int, d: den as int })),
    {
        let p = Ghost(Q { n: num as int, d: den as int });
        if den == 0 {
            assert(!q_small(p@));
            return None;
        }
        let mut n: i128 = num as i128;
        let mut d: i128 = den as i128;
        if d < 0 {
            proof {
                lemma_q_norm_flip(p@);
            }
            n = -n;
            d = -d;
        }
        normalize128(n, d)
    }

    /// Exact negation; always representable thanks to the symmetric range.
    pub fn neg(&self) -> (r: Rat)
        requires
            self.wf(),
        ensures
            r.wf(),
            r@ == q_neg(self@),
    {
        Rat { num: -self.num, den: self.den }
    }

    /// Exact sum in canonical form, or `None` exactly when it does not fit.
    pub fn plus(&self, other: &Rat) -> (r: Option<Rat>)
        requires
            self.wf(),
            other.wf(),
        ensures
            rat_opt_is(r, q_norm_opt(q_add(self@, other@))),
    {
        proof {
            lemma_i64_prod_bound(self.num as int, other.den as int);
            lemma_i64_prod_bound(other.num as int, self.den as int);
            lemma_i64_prod_bound(self.den as int, other.den as int);
            lemma_pos_prod(self.den as int, other.den as int);
        }
        let n: i128 = (self.num as i128) * (other.den as i128) + (other.num as i128) * (self.den
            as i128);
        let d: i128 = (self.den as i128) * (other.den as i128);
        normalize128(n, d)
    }

    /// Exact difference in canonical form, or `None` exactly when it does not fit.
    pub fn minus(&self, other: &Rat) -> (r: Option<Rat>)
        requires
            self.wf(),
            other.wf(),
        ensures
            rat_opt_is(r, q_norm_opt(q_sub(self@, other@))),
    {
        proof {
            lemma_i64_prod_bound(self.num as int, other.den as int);
            lemma_i64_prod_bound(other.num as int, self.den as int);
            lemma_i64_prod_bound(self.den as int, other.den as int);
            lemma_pos_prod(self.den as int, other.den as int);
        }
        let n: i128 = (self.num as i128) * (other.den as i128) - (other.num as i128) * (self.den
            as i128);
        let d: i128 = (self.den as i128) * (other.den as i128);
        normalize128(n, d)
    }

    /// Exact product in canonical form, or `None` exactly when it does not fit.
    pub fn times(&self, other: &Rat) -> (r: Option<Rat>)
        requires
            self.wf(),
            other.wf(),
        ensures
            rat_opt_is(r, q_norm_opt(q_mul(self@, other@))),
    {
        proof {
            lemma_i64_prod_bound(self.num as int, other.num as int);
            lemma_i64_prod_bound(self.den as int, other.den as int);
            lemma_pos_prod(self.den as int, other.den as int);
        }
        let n: i128 = (self.num as i128) * (other.num as i128);
        let d: i128 = (self.den as i128) * (other.den as i128);
        normalize128(n, d)
    }

    /// Exact quotient in canonical form, or `None` exactly when it does not
    /// fit; the divisor must be nonzero.
    pub fn div_by(&self, other: &Rat) -> (r: Option<Rat>)
        requires
            self.wf(),
            other.wf(),
            other@.n != 0,
        ensures
            rat_opt_is(r, q_norm_opt(q_div(self@, other@))),
    {
        proof {
            lemma_i64_prod_bound(self.num as int, other.den as int);
            lemma_i64_prod_bound(self.den as int, other.num as int);
            lemma_nonzero_prod(self.den as int, other.num as int);
        }
        let mut n: i128 = (self.num as i128) * (other.den as i128);
        let mut d: i128 = (self.den as i128) * (other.num as i128);
        if d < 0 {
            proof {
                lemma_q_norm_flip(Q { n: n as int, d: d as int });
            }
            n = -n;
            d = -d;
        }
        normalize128(n, d)
    }

    /// Exact value comparison.
    pub fn le(&self, other: &Rat) -> (r: bool)
        requires
            self.wf(),
            other.wf(),
        ensures
            r == q_le(self@, other@),
    {
        proof {
            lemma_q_cmp_pos_den(self@, other@);
            lemma_i64_prod_bound(self.num as int, other.den as int);
            lemma_i64_prod_bound(other.num as int, self.den as int);
        }
        (self.num as i128) * (other.den as i128) <= (other.num as i128) * (self.den as i128)
    }

    /// Exact strict value comparison.
    pub fn lt(&self, other: &Rat) -> (r: bool)
        requires
            self.wf(),
            other.wf(),
        ensures
            r == q_lt(self@, other@),
    {
        proof {
            lemma_q_cmp_pos_den(self@, other@);
            lemma_i64_prod_bound(self.num as int, other.den as int);
            lemma_i64_prod_bound(other.num as int, self.den as int);
        }
        (self.num as i128) * (other.den as i128) < (other.num as i128) * (self.den as i128)
    }

    /// Exact value equality test.
    pub fn eq_val(&self, other: &Rat) -> (r: bool)
        requires
            self.wf(),
            other.wf(),
        ensures
            r == q_eq(self@, other@),
    {
        proof {
            lemma_i64_prod_bound(self.num as int, other.den as int);
            lemma_i64_prod_bound(other.num as int, self.den as int);
        }
        (self.num as i128) * (other.den as i128) == (other.num as i128) * (self.den as i128)
    }
}

/// `q_eq` is transitive (it is reflexive and symmetric by its shape).
pub proof fn lemma_q_eq_trans(a: Q, b: Q, c: Q) by (nonlinear_arith)
    requires
        q_wf(b),
        q_eq(a, b),
        q_eq(b, c),
    ensures
        q_eq(a, c),
{
}

/// The pair operations stay well formed.
pub proof fn lemma_q_ops_wf(a: Q, b: Q)
    requires
        q_wf(a),
        q_wf(b),
    ensures
        q_wf(q_add(a, b)),
        q_wf(q_sub(a, b)),
        q_wf(q_mul(a, b)),
        q_wf(q_neg(a)),
        b.n != 0 ==> q_wf(q_div(a, b)),
{
    lemma_nonzero_prod(a.d, b.d);
    if b.n != 0 {
        lemma_nonzero_prod(a.d, b.n);
    }
}

/// Pure reassociation identity used to substitute cross products.
pub(crate) proof fn lemma_regroup(x: int, s: int, y: int, t: int) by (nonlinear_arith)
    ensures
        (x * s) * (y * t) == (x * y) * (s * t),
{
}

/// Variant of [`lemma_regroup`] with the second pair swapped.
proof fn lemma_regroup2(x: int, s: int, t: int, y: int) by (nonlinear_arith)
    ensures
        (x * s) * (t * y) == (x * y) * (s * t),
{
}

/// Scaling both sides of a comparison by a positive factor preserves it.
proof fn lemma_le_scale(x: int, y: int, z: int) by (nonlinear_arith)
    requires
        0 < z,
    ensures
        (x <= y) <==> (x * z <= y * z),
        (x < y) <==> (x * z < y * z),
{
}

/// Addition respects value equality.
pub proof fn lemma_q_add_cong(a: Q, b: Q, a2: Q, b2: Q)
    requires
        q_wf(a),
        q_wf(b),
        q_wf(a2),
        q_wf(b2),
        q_eq(a, a2),
        q_eq(b, b2),
    ensures
        q_eq(q_add(a, b), q_add(a2, b2)),
{
    lemma_mul_is_distributive_add_other_way(a2.d * b2.d, a.n * b.d, b.n * a.d);
    lemma_regroup(a.n, b.d, a2.d, b2.d);
    lemma_regroup2(b.n, a.d, a2.d, b2.d);
    lemma_mul_is_distributive_add_other_way(a.d * b.d, a2.n * b2.d, b2.n * a2.d);
    lemma_regroup(a2.n, b2.d, a.d, b.d);
    lemma_regroup2(b2.n, a2.d, a.d, b.d);
    lemma_mul_is_commutative(b.d, b2.d);
    lemma_mul_is_commutative(a.d, a2.d);
}

/// Subtraction respects value equality.
pub proof fn lemma_q_sub_cong(a: Q, b: Q, a2: Q, b2: Q)
    requires
        q_wf(a),
        q_wf(b),
        q_wf(a2),
        q_wf(b2),
        q_eq(a, a2),
        q_eq(b, b2),
    ensures
        q_eq(q_sub(a, b), q_sub(a2, b2)),
{
    lemma_mul_is_distributive_sub_other_way(a2.d * b2.d, a.n * b.d, b.n * a.d);
    lemma_regroup(a.n, b.d, a2.d, b2.d);
    lemma_regroup2(b.n, a.d, a2.d, b2.d);
    lemma_mul_is_distributive_sub_other_way(a.d * b.d, a2.n * b2.d, b2.n * a2.d);
    lemma_regroup(a2.n, b2.d, a.d, b.d);
    lemma_regroup2(b2.n, a2.d, a.d, b.d);
    lemma_mul_is_commutative(b.d, b2.d);
    lemma_mul_is_commutative(a.d, a2.d);
}

/// Multiplication respects value equality.
pub proof fn lemma_q_mul_cong(a: Q, b: Q, a2: Q, b2: Q)
    requires
        q_wf(a),
        q_wf(b),
        q_wf(a2),
        q_wf(b2),
        q_eq(a, a2),
        q_eq(b, b2),
    ensures
        q_eq(q_mul(a, b), q_mul(a2, b2)),
{
    lemma_regroup(a.n, b.n, a2.d, b2.d);
    lemma_regroup(a2.n, b2.n, a.d, b.d);
    assert((a.n * a2.d) * (b.n * b2.d) == (a2.n * a.d) * (b2.n * b.d));
    assert((a.n * a2.d) * (b.n * b2.d) == (a.n * b.n) * (a2.d * b2.d)) by (nonlinear_arith);
    assert((a2.n * a.d) * (b2.n * b.d) == (a2.n * b2.n) * (a.d * b.d)) by (nonlinear_arith);
}

/// Division respects value equality (nonzero divisors).
pub proof fn lemma_q_div_cong(a: Q, b: Q, a2: Q, b2: Q)
    requires
        q_wf(a),
        q_wf(b),
        q_wf(a2),
        q_wf(b2),
        b.n != 0,
        b2.n != 0,
        q_eq(a, a2),
        q_eq(b, b2),
    ensures
        q_eq(q_div(a, b), q_div(a2, b2)),
{
    lemma_mul_is_commutative(b.n, b2.d);
    lemma_mul_is_commutative(b2.n, b.d);
    assert((a.n * a2.d) * (b2.n * b.d) == (a2.n * a.d) * (b.n * b2.d));
    assert((a.n * a2.d) * (b2.n * b.d) == (a.n * b.d) * (a2.d * b2.n)) by (nonlinear_arith);
    assert((a2.n * a.d) * (b.n * b2.d) == (a2.n * b2.d) * (a.d * b.n)) by (nonlinear_arith);
}

/// Value equality preserves the sign and zeroness of the denoted value.
pub proof fn lemma_q_sign(a: Q, b: Q) by (nonlinear_arith)
    requires
        q_wf(a),
        q_wf(b),
        q_eq(a, b),
    ensures
        q_pos(a) <==> q_pos(b),
        q_nonneg(a) <==> q_nonneg(b),
        (a.n == 0) <==> (b.n == 0),
{
}

/// Order is invariant under value equality (positive denominators).
pub proof fn lemma_q_le_cong(a: Q, b: Q, a2: Q, b2: Q)
    requires
        0 < a.d,
        0 < b.d,
        0 < a2.d,
        0 < b2.d,
        q_eq(a, a2),
        q_eq(b, b2),
    ensures
        q_le(a, b) <==> q_le(a2, b2),
        q_lt(a, b) <==> q_lt(a2, b2),
{
    lemma_q_cmp_pos_den(a, b);
    lemma_q_cmp_pos_den(a2, b2);
    lemma_pos_prod(a2.d, b2.d);
    lemma_pos_prod(a.d, b.d);
    lemma_le_scale(a.n * b.d, b.n * a.d, a2.d * b2.d);
    lemma_le_scale(a2.n * b2.d, b2.n * a2.d, a.d * b.d);
    assert((a.n * b.d) * (a2.d * b2.d) == (a.n * a2.d) * (b.d * b2.d)) by (nonlinear_arith);
    assert((b.n * a.d) * (a2.d * b2.d) == (b.n * b2.d) * (a.d * a2.d)) by (nonlinear_arith);
    assert((a2.n * b2.d) * (a.d * b.d) == (a2.n * a.d) * (b2.d * b.d)) by (nonlinear_arith);
    assert((b2.n * a2.d) * (a.d * b.d) == (b2.n * b.d) * (a2.d * a.d)) by (nonlinear_arith);
    lemma_mul_is_commutative(b.d, b2.d);
    lemma_mul_is_commutative(a.d, a2.d);
}

/// With a positive denominator the sign of the value is the sign of the
/// numerator.
pub proof fn lemma_q_num_pos(a: Q) by (nonlinear_arith)
    requires
        0 < a.d,
    ensures
        q_pos(a) <==> 0 < a.n,
        q_nonneg(a) <==> 0 <= a.n,
{
}

/// Products and quotients of positive values are positive.
pub proof fn lemma_q_pos_mul(a: Q, b: Q) by (nonlinear_arith)
    requires
        q_wf(a),
        q_wf(b),
        q_pos(a),
        q_pos(b),
    ensures
        q_pos(q_mul(a, b)),
        b.n != 0 ==> q_pos(q_div(a, b)),
{
}

/// With positive denominators the comparisons reduce to one cross product.
proof fn lemma_q_cmp_pos_den(a: Q, b: Q) by (nonlinear_arith)
    requires
        0 < a.d,
        0 < b.d,
    ensures
        q_le(a, b) <==> a.n * b.d <= b.n * a.d,
        q_lt(a, b) <==> a.n * b.d < b.n * a.d,
{
}

/// Bound on a product of two factors from the symmetric `i64` range; the
/// bound leaves room to add two such products inside `i128`.
pub proof fn lemma_i64_prod_bound(x: int, y: int) by (nonlinear_arith)
    requires
        -(i64::MAX as int) <= x <= i64::MAX as int,
        -(i64::MAX as int) <= y <= i64::MAX as int,
    ensures
        -0x3fff_ffff_ffff_ffff_ffff_ffff_ffff_ffff <= x * y
            <= 0x3fff_ffff_ffff_ffff_ffff_ffff_ffff_ffff,
{
}

pub proof fn lemma_pos_prod(x: int, y: int) by (nonlinear_arith)
    requires
        0 < x,
        0 < y,
    ensures
        0 < x * y,
{
}

proof fn lemma_nonzero_prod(x: int, y: int) by (nonlinear_arith)
    requires
        x != 0,
        y != 0,
    ensures
        x * y != 0,
{
}

/// Euclid's algorithm.
fn gcd_u128(a0: u128, b0: u128) -> (g: u128)
    ensures
        g as nat == gcd_nat(a0 as nat, b0 as nat),
{
    let mut a: u128 = a0;
    let mut b: u128 = b0;
    while b != 0
        invariant
            gcd_nat(a as nat, b as nat) == gcd_nat(a0 as nat, b0 as nat),
        decreases b,
    {
        let t: u128 = a % b;
        a = b;
        b = t;
    }
    a
}

/// Reduce `n / d` (with `d > 0`) to canonical form, if that form fits `i64`.
fn normalize128(n: i128, d: i128) -> (r: Option<Rat>)
    requires
        0 < d,
        i128::MIN < n,
    ensures
        rat_opt_is(r, q_norm_opt(Q { n: n as int, d: d as int })),
{
    let ghost p = Q { n: n as int, d: d as int };
    let neg: bool = n < 0;
    let un: u128 = if neg {
        (-n) as u128
    } else {
        n as u128
    };
    let ud: u128 = d as u128;
    assert(un as nat == abs_int(p.n));
    assert(ud as nat == abs_int(p.d));
    let g: u128 = gcd_u128(un, ud);
    proof {
        lemma_gcd_props(un as nat, ud as nat);
    }
    let rn: u128 = un / g;
    let rd: u128 = ud / g;
    assert(rn as nat == abs_int(p.n) / gcd_nat(abs_int(p.n), abs_int(p.d)));
    assert(rd as nat == abs_int(p.d) / gcd_nat(abs_int(p.n), abs_int(p.d)));
    proof {
        lemma_q_norm(p);
        if neg {
            assert(q_norm(p).n == -1 * (rn as int) && q_norm(p).d == rd as int);
        } else {
            assert(q_norm(p).n == 1 * (rn as int) && q_norm(p).d == rd as int);
        }
    }
    if rn <= i64::MAX as u128 && rd <= i64::MAX as u128 {
        let num: i64 = if neg {
            -(rn as i64)
        } else {
            rn as i64
        };
        let r = Rat { num, den: rd as i64 };
        assert(r@ == q_norm(p));
        assert(q_small(p));
        Some(r)
    } else {
        assert(!q_small(p));
        None
    }
}

} // verus!
