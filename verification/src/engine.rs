//! Discretisation and explicit time marching for the one-dimensional wave
//! equation on a string of length `l` with wave speed `a`.
//!
//! The state at one instant is a row of [`StatePoint`]s carrying the time and
//! space derivative of the displacement at evenly spaced positions.  One step
//! rewrites the row into a scratch row of the same length: interior points by
//! the characteristic average ([`chr_ux_raw`], [`chr_ut_raw`]) and the two
//! edge points from the prescribed boundary data, then the rows swap roles.
//! Every executable routine returns the canonical rational result and its
//! contract pins that result down exactly; `None` reports precisely that one
//! canonical intermediate fell outside the `i64` range.

use vstd::prelude::*;
use vstd::arithmetic::div_mod::lemma_fundamental_div_mod;
use crate::rat::{
    lemma_pos_prod, lemma_q_add_cong, lemma_q_div_cong, lemma_q_eq_trans, lemma_q_norm,
    lemma_q_num_pos, lemma_q_ops_wf, lemma_q_pos_mul, lemma_q_sign, lemma_q_sub_cong, q_add,
    q_div, q_eq, q_int, q_lt, q_mul, q_nonneg, q_norm, q_norm_opt, q_pos, q_small, q_sub, q_wf,
    rat_opt_is, Q, Rat,
};
use crate::func::TimeFunction;

verus! {

/// Ghost image of one state point.
pub ghost struct QPoint {
    pub ut: Q,
    pub ux: Q,
}

pub open spec fn qp_wf(p: QPoint) -> bool {
    0 < p.ut.d && 0 < p.ux.d
}

/// One spatial sample: time derivative and space derivative of displacement.
#[derive(Clone, Copy, Debug)]
pub struct StatePoint {
    pub u_t: Rat,
    pub u_x: Rat,
}

impl View for StatePoint {
    type V = QPoint;

    open spec fn view(&self) -> QPoint {
        QPoint { ut: self.u_t@, ux: self.u_x@ }
    }
}

impl StatePoint {
    pub open spec fn wf(self) -> bool {
        self.u_t.wf() && self.u_x.wf()
    }

    pub fn new(u_t: Rat, u_x: Rat) -> (r: StatePoint)
        ensures
            r.u_t == u_t,
            r.u_x == u_x,
    {
        StatePoint { u_t, u_x }
    }
}

/// Which derivative a boundary condition prescribes.
#[derive(Clone, Copy, Debug, PartialEq, Eq, Structural)]
pub enum UDiffType {
    Ut,
    Ux,
}

/// A boundary condition: the prescribed derivative kind and its time function.
#[derive(Clone, Copy, Debug)]
pub struct UDiff<F: TimeFunction> {
    pub ty: UDiffType,
    pub func: F,
}

impl<F: TimeFunction> UDiff<F> {
    pub fn new(ty: UDiffType, func: F) -> (r: UDiff<F>)
        ensures
            r.ty == ty,
            r.func == func,
    {
        UDiff { ty, func }
    }
}

/// Relates an executable optional point to its ghost mirror.
pub open spec fn point_opt_is(r: Option<StatePoint>, s: Option<QPoint>) -> bool {
    match r {
        Some(v) => v.wf() && s == Some(v@),
        None => s is None,
    }
}

/// Exact interior update for the space derivative:
/// `u_x' = (left.u_x - left.u_t/a + right.u_x + right.u_t/a) / 2`.
pub open spec fn chr_ux_raw(a: Q, lp: QPoint, rp: QPoint) -> Q {
    q_div(q_add(q_add(q_sub(lp.ux, q_div(lp.ut, a)), rp.ux), q_div(rp.ut, a)), q_int(2))
}

/// Exact interior update for the time derivative:
/// `u_t' = (left.u_t - left.u_x*a + right.u_t + right.u_x*a) / 2`.
pub open spec fn chr_ut_raw(a: Q, lp: QPoint, rp: QPoint) -> Q {
    q_div(q_add(q_add(q_sub(lp.ut, q_mul(lp.ux, a)), rp.ut), q_mul(rp.ux, a)), q_int(2))
}

/// Mirror of the executable chain computing [`chr_ux_raw`] in canonical form.
pub open spec fn chr_ux_spec(a: Q, lp: QPoint, rp: QPoint) -> Option<Q> {
    match q_norm_opt(q_div(lp.ut, a)) {
        None => None,
        Some(d1) => match q_norm_opt(q_sub(lp.ux, d1)) {
            None => None,
            Some(s1) => match q_norm_opt(q_add(s1, rp.ux)) {
                None => None,
                Some(s2) => match q_norm_opt(q_div(rp.ut, a)) {
                    None => None,
                    Some(d2) => match q_norm_opt(q_add(s2, d2)) {
                        None => None,
                        Some(s3) => q_norm_opt(q_div(s3, q_int(2))),
                    },
                },
            },
        },
    }
}

/// Mirror of the executable chain computing [`chr_ut_raw`] in canonical form.
pub open spec fn chr_ut_spec(a: Q, lp: QPoint, rp: QPoint) -> Option<Q> {
    match q_norm_opt(q_mul(lp.ux, a)) {
        None => None,
        Some(m1) => match q_norm_opt(q_sub(lp.ut, m1)) {
            None => None,
            Some(s1) => match q_norm_opt(q_add(s1, rp.ut)) {
                None => None,
                Some(s2) => match q_norm_opt(q_mul(rp.ux, a)) {
                    None => None,
                    Some(m2) => match q_norm_opt(q_add(s2, m2)) {
                        None => None,
                        Some(s3) => q_norm_opt(q_div(s3, q_int(2))),
                    },
                },
            },
        },
    }
}

/// Mirror of the full interior update.
pub open spec fn calc_point_spec(a: Q, lp: QPoint, rp: QPoint) -> Option<QPoint> {
    match (chr_ux_spec(a, lp, rp), chr_ut_spec(a, lp, rp)) {
        (Some(x), Some(t)) => Some(QPoint { ut: t, ux: x }),
        _ => None,
    }
}

/// Mirror of the boundary update at the left end, at new time `t`, from the
/// old interior neighbour `p`.
pub open spec fn left_point_spec<F: TimeFunction>(u: UDiff<F>, a: Q, t: Q, p: QPoint) -> Option<
    QPoint,
> {
    if !u.func.eval_ok(t) {
        None
    } else {
        let v = u.func.spec_eval(t);
        match u.ty {
            UDiffType::Ut => match q_norm_opt(q_sub(v, p.ut)) {
                None => None,
                Some(s1) => match q_norm_opt(q_div(s1, a)) {
                    None => None,
                    Some(d1) => match q_norm_opt(q_sub(p.ux, d1)) {
                        None => None,
                        Some(x) => Some(QPoint { ut: v, ux: x }),
                    },
                },
            },
            UDiffType::Ux => match q_norm_opt(q_sub(v, p.ux)) {
                None => None,
                Some(s1) => match q_norm_opt(q_mul(s1, a)) {
                    None => None,
                    Some(m1) => match q_norm_opt(q_sub(p.ut, m1)) {
                        None => None,
                        Some(t2) => Some(QPoint { ut: t2, ux: v }),
                    },
                },
            },
        }
    }
}

/// Mirror of the boundary update at the right end.
pub open spec fn right_point_spec<F: TimeFunction>(u: UDiff<F>, a: Q, t: Q, p: QPoint) -> Option<
    QPoint,
> {
    if !u.func.eval_ok(t) {
        None
    } else {
        let v = u.func.spec_eval(t);
        match u.ty {
            UDiffType::Ut => match q_norm_opt(q_sub(v, p.ut)) {
                None => None,
                Some(s1) => match q_norm_opt(q_div(s1, a)) {
                    None => None,
                    Some(d1) => match q_norm_opt(q_add(p.ux, d1)) {
                        None => None,
                        Some(x) => Some(QPoint { ut: v, ux: x }),
                    },
                },
            },
            UDiffType::Ux => match q_norm_opt(q_sub(v, p.ux)) {
                None => None,
                Some(s1) => match q_norm_opt(q_mul(s1, a)) {
                    None => None,
                    Some(m1) => match q_norm_opt(q_add(p.ut, m1)) {
                        None => None,
                        Some(t2) => Some(QPoint { ut: t2, ux: v }),
                    },
                },
            },
        }
    }
}

/// Number of spatial samples: `max(257, ceil(2*l/a * 60 + 1))`, as one
/// integer formula over the positive rationals `a` and `l`.
pub open spec fn spec_tab_size(a: Q, l: Q) -> int {
    let t = 120 * l.n * a.d;
    let d = l.d * a.n;
    let c = (t + d - 1) / d + 1;
    if c < 257 {
        257
    } else {
        c
    }
}

/// The sample count is computable: the scaled numerator stays inside the
/// machine word used for it and the count itself stays inside the grid cap.
pub open spec fn tab_fits(a: Q, l: Q) -> bool {
    &&& 120 * l.n * a.d + l.d * a.n - 1 <= 0xffff_ffff_ffff_ffff_ffff_ffff_ffff_ffff
    &&& spec_tab_size(a, l) <= 0x7fff_ffff
}

/// `x <= m / y` exactly captures `x * y <= m` (all nonnegative, `y > 0`).
proof fn lemma_div_check(x: int, y: int, m: int)
    requires
        0 < y,
        0 <= x,
        0 <= m,
    ensures
        (x <= m / y) <==> (x * y <= m),
{
    lemma_fundamental_div_mod(m, y);
    if x <= m / y {
        assert(x * y <= (m / y) * y) by (nonlinear_arith)
            requires
                x <= m / y,
                y > 0,
        ;
        assert((m / y) * y <= m) by (nonlinear_arith)
            requires
                m == y * (m / y) + m % y,
                m % y >= 0,
        ;
    } else {
        assert(x * y >= (m / y + 1) * y) by (nonlinear_arith)
            requires
                x >= m / y + 1,
                y > 0,
        ;
        assert((m / y + 1) * y > m) by (nonlinear_arith)
            requires
                m == y * (m / y) + m % y,
                m % y < y,
                y > 0,
        ;
    }
}

/// Grid sizer: the number of samples for speed `a` and length `l`, so that
/// the induced step `2l/(a(n-1))` gives at least sixty steps per unit of
/// simulated time and never fewer than 257 samples.
pub fn calc_tabulation_size(a: &Rat, l: &Rat) -> (r: Option<usize>)
    requires
        a.wf(),
        l.wf(),
        q_pos(a@),
        q_pos(l@),
    ensures
        r is Some <==> tab_fits(a@, l@),
        r matches Some(n) ==> n as int == spec_tab_size(a@, l@) && 257 <= n <= 0x7fff_ffff,
{
    proof {
        lemma_q_num_pos(a@);
        lemma_q_num_pos(l@);
    }
    let ln: u128 = l.num() as u128;
    let ad: u128 = a.den() as u128;
    let ld: u128 = l.den() as u128;
    let an: u128 = a.num() as u128;
    let t1: u128 = 120 * ln;
    proof {
        lemma_pos_prod(ld as int, an as int);
        crate::rat::lemma_i64_prod_bound(ld as int, an as int);
    }
    let dd: u128 = ld * an;
    if t1 > u128::MAX / ad {
        proof {
            lemma_div_check(t1 as int, ad as int, u128::MAX as int);
        }
        assert(!tab_fits(a@, l@));
        return None;
    }
    proof {
        lemma_div_check(t1 as int, ad as int, u128::MAX as int);
    }
    let t2: u128 = t1 * ad;
    if t2 > u128::MAX - (dd - 1) {
        return None;
    }
    let t3: u128 = t2 + (dd - 1);
    let c0: u128 = t3 / dd;
    if c0 > 0x7fff_fffe {
        return None;
    }
    let c: u128 = c0 + 1;
    let n: usize = if c < 257 {
        257
    } else {
        c as usize
    };
    assert(n as int == spec_tab_size(a@, l@));
    Some(n)
}

/// Exact step length `2l/(a(n-1))` of a grid with `n` samples.
pub open spec fn raw_dt(a: Q, l: Q, n: int) -> Q {
    q_div(q_mul(l, q_int(2)), q_mul(a, q_int(n - 1)))
}

/// Mirror of the executable chain computing [`raw_dt`] in canonical form.
pub open spec fn dt_spec(a: Q, l: Q, n: int) -> Option<Q> {
    match q_norm_opt(q_mul(l, q_int(2))) {
        None => None,
        Some(l2) => match q_norm_opt(q_mul(a, q_int(n - 1))) {
            None => None,
            Some(den) => if den.n != 0 {
                q_norm_opt(q_div(l2, den))
            } else {
                None
            },
        },
    }
}

/// One whole discrete step on ghost data: new time and new row, or `None` if
/// some canonical intermediate does not fit.
pub open spec fn sim_step<F: TimeFunction>(
    left: UDiff<F>,
    right: UDiff<F>,
    a: Q,
    l: Q,
    t: Q,
    pts: Seq<QPoint>,
) -> Option<(Q, Seq<QPoint>)> {
    let n = pts.len() as int;
    match dt_spec(a, l, n) {
        None => None,
        Some(sd) => match q_norm_opt(q_add(t, sd)) {
            None => None,
            Some(t2) => match left_point_spec(left, a, t2, pts[1]) {
                None => None,
                Some(p0) => match right_point_spec(right, a, t2, pts[n - 1 - 1]) {
                    None => None,
                    Some(pn) => if forall|i: int|
                        1 <= i < n - 1 ==> (#[trigger] calc_point_spec(
                            a,
                            pts[i - 1],
                            pts[i + 1],
                        )) is Some {
                        Some(
                            (
                                t2,
                                Seq::new(
                                    pts.len(),
                                    |i: int|
                                        if i == 0 {
                                            p0
                                        } else if i == n - 1 {
                                            pn
                                        } else {
                                            calc_point_spec(a, pts[i - 1], pts[i + 1]).unwrap()
                                        },
                                ),
                            ),
                        )
                    } else {
                        None
                    },
                },
            },
        },
    }
}

/// `k` whole discrete steps in sequence.
pub open spec fn sim_steps<F: TimeFunction>(
    left: UDiff<F>,
    right: UDiff<F>,
    a: Q,
    l: Q,
    t: Q,
    pts: Seq<QPoint>,
    k: nat,
) -> Option<(Q, Seq<QPoint>)>
    decreases k,
{
    if k == 0 {
        Some((t, pts))
    } else {
        match sim_step(left, right, a, l, t, pts) {
            None => None,
            Some((t2, p2)) => sim_steps(left, right, a, l, t2, p2, (k - 1) as nat),
        }
    }
}

/// The number of whole steps of length `sd` inside the duration `dt`.
pub open spec fn floor_steps(dt: Q, sd: Q) -> int {
    (dt.n * sd.d) / (dt.d * sd.n)
}

/// The simulator: current row, scratch row, parameters, boundary conditions
/// and the clock.
pub struct Renderer<F: TimeFunction> {
    pub left: UDiff<F>,
    pub right: UDiff<F>,
    pub floor: Vec<StatePoint>,
    pub floor_buffer: Vec<StatePoint>,
    pub a: Rat,
    pub l: Rat,
    pub rem_t: Rat,
    pub cur_t: Rat,
}

impl<F: TimeFunction> Renderer<F> {
    /// Structural invariant of a simulator value.
    pub open spec fn wf(self) -> bool {
        &&& self.a.wf() && q_pos(self.a@)
        &&& self.l.wf() && q_pos(self.l@)
        &&& self.cur_t.wf()
        &&& self.rem_t.wf()
        &&& 257 <= self.floor@.len() <= 0x7fff_ffff
        &&& self.floor_buffer@.len() == self.floor@.len()
        &&& forall|i: int| 0 <= i < self.floor@.len() ==> (#[trigger] self.floor@[i]).wf()
        &&& forall|i: int|
            0 <= i < self.floor_buffer@.len() ==> (#[trigger] self.floor_buffer@[i]).wf()
        &&& self.left.func.fwf()
        &&& self.right.func.fwf()
    }

    /// The ghost row of the current state.
    pub open spec fn points(self) -> Seq<QPoint> {
        self.floor@.map_values(|p: StatePoint| p@)
    }

    pub fn len(&self) -> (r: usize)
        ensures
            r == self.floor@.len(),
    {
        self.floor.len()
    }

    /// Read one sample of the current row.
    pub fn point(&self, i: usize) -> (r: StatePoint)
        requires
            i < self.floor@.len(),
        ensures
            r == self.floor@[i as int],
    {
        self.floor[i]
    }

    pub fn cur_time(&self) -> (r: Rat)
        ensures
            r == self.cur_t,
    {
        self.cur_t
    }

    pub fn rem_time(&self) -> (r: Rat)
        ensures
            r == self.rem_t,
    {
        self.rem_t
    }

    pub fn set_left_ty(&mut self, ty: UDiffType)
        ensures
            final(self).left.ty == ty,
            final(self).left.func == old(self).left.func,
            final(self).right == old(self).right,
            final(self).floor == old(self).floor,
            final(self).floor_buffer == old(self).floor_buffer,
            final(self).a == old(self).a,
            final(self).l == old(self).l,
            final(self).rem_t == old(self).rem_t,
            final(self).cur_t == old(self).cur_t,
    {
        self.left.ty = ty;
    }

    pub fn set_right_ty(&mut self, ty: UDiffType)
        ensures
            final(self).right.ty == ty,
            final(self).right.func == old(self).right.func,
            final(self).left == old(self).left,
            final(self).floor == old(self).floor,
            final(self).floor_buffer == old(self).floor_buffer,
            final(self).a == old(self).a,
            final(self).l == old(self).l,
            final(self).rem_t == old(self).rem_t,
            final(self).cur_t == old(self).cur_t,
    {
        self.right.ty = ty;
    }

    pub fn set_left_func(&mut self, func: F)
        ensures
            final(self).left.ty == old(self).left.ty,
            final(self).left.func == func,
            final(self).right == old(self).right,
            final(self).floor == old(self).floor,
            final(self).floor_buffer == old(self).floor_buffer,
            final(self).a == old(self).a,
            final(self).l == old(self).l,
            final(self).rem_t == old(self).rem_t,
            final(self).cur_t == old(self).cur_t,
    {
        self.left.func = func;
    }

    pub fn set_right_func(&mut self, func: F)
        ensures
            final(self).right.ty == old(self).right.ty,
            final(self).right.func == func,
            final(self).left == old(self).left,
            final(self).floor == old(self).floor,
            final(self).floor_buffer == old(self).floor_buffer,
            final(self).a == old(self).a,
            final(self).l == old(self).l,
            final(self).rem_t == old(self).rem_t,
            final(self).cur_t == old(self).cur_t,
    {
        self.right.func = func;
    }

    /// The exact discrete step length of the current grid, `2l/(a(n-1))`.
    pub fn step_dt(&self) -> (r: Option<Rat>)
        requires
            self.wf(),
        ensures
            rat_opt_is(r, dt_spec(self.a@, self.l@, self.floor@.len() as int)),
            r matches Some(v) ==> q_pos(v@) && q_eq(
                v@,
                raw_dt(self.a@, self.l@, self.floor@.len() as int),
            ),
    {
        let n: usize = self.floor.len();
        let two = Rat::from_int(2);
        let nm1 = Rat::from_int((n - 1) as i64);
        let l2 = match self.l.times(&two) {
            Some(v) => v,
            None => {
                return None;
            },
        };
        let den = match self.a.times(&nm1) {
            Some(v) => v,
            None => {
                return None;
            },
        };
        proof {
            lemma_q_norm(q_mul(self.l@, q_int(2)));
            lemma_q_norm(q_mul(self.a@, q_int(n - 1)));
            lemma_q_pos_mul(self.l@, q_int(2));
            lemma_q_pos_mul(self.a@, q_int(n - 1));
            lemma_q_sign(l2@, q_mul(self.l@, q_int(2)));
            lemma_q_sign(den@, q_mul(self.a@, q_int(n - 1)));
            lemma_q_num_pos(den@);
            lemma_q_num_pos(l2@);
        }
        let r = match l2.div_by(&den) {
            Some(v) => v,
            None => {
                return None;
            },
        };
        proof {
            lemma_q_ops_wf(l2@, den@);
            lemma_q_norm(q_div(l2@, den@));
            lemma_q_pos_mul(l2@, den@);
            lemma_q_sign(r@, q_div(l2@, den@));
            lemma_q_div_cong(
                l2@,
                den@,
                q_mul(self.l@, q_int(2)),
                q_mul(self.a@, q_int(n - 1)),
            );
            lemma_q_eq_trans(
                r@,
                q_div(l2@, den@),
                raw_dt(self.a@, self.l@, self.floor@.len() as int),
            );
        }
        Some(r)
    }

    /// Interior update: the new point between old neighbours `left` and
    /// `right` (one to each side), by the characteristic average.
    pub fn calc_point(&self, left: &StatePoint, right: &StatePoint) -> (r: Option<StatePoint>)
        requires
            self.a.wf(),
            q_pos(self.a@),
            left.wf(),
            right.wf(),
        ensures
            point_opt_is(r, calc_point_spec(self.a@, left@, right@)),
            r matches Some(p) ==> q_eq(p@.ux, chr_ux_raw(self.a@, left@, right@)) && q_eq(
                p@.ut,
                chr_ut_raw(self.a@, left@, right@),
            ),
    {
        let ghost aq = self.a@;
        proof {
            lemma_q_num_pos(aq);
        }
        let two = Rat::from_int(2);
        let d1 = left.u_t.div_by(&self.a)?;
        let s1 = left.u_x.minus(&d1)?;
        let s2 = s1.plus(&right.u_x)?;
        let d2 = right.u_t.div_by(&self.a)?;
        let s3 = s2.plus(&d2)?;
        let ux = s3.div_by(&two)?;
        let m1 = left.u_x.times(&self.a)?;
        let t1 = left.u_t.minus(&m1)?;
        let t2 = t1.plus(&right.u_t)?;
        let m2 = right.u_x.times(&self.a)?;
        let t3 = t2.plus(&m2)?;
        let ut = t3.div_by(&two)?;
        proof {
            lemma_chain_ux(aq, left@, right@, d1@, s1@, s2@, d2@, s3@, ux@);
            lemma_chain_ut(aq, left@, right@, m1@, t1@, t2@, m2@, t3@, ut@);
        }
        Some(StatePoint { u_t: ut, u_x: ux })
    }

    /// Boundary update at the left end for new time `t`, from the old state
    /// `point` of the surviving interior neighbour.
    pub fn left_calc_point(&self, t: &Rat, point: &StatePoint) -> (r: Option<StatePoint>)
        requires
            self.a.wf(),
            q_pos(self.a@),
            self.left.func.fwf(),
            t.wf(),
            point.wf(),
        ensures
            point_opt_is(r, left_point_spec(self.left, self.a@, t@, point@)),
            r matches Some(p) ==> (self.left.ty == UDiffType::Ut ==> p@.ut
                == self.left.func.spec_eval(t@)) && (self.left.ty == UDiffType::Ux ==> p@.ux
                == self.left.func.spec_eval(t@)),
    {
        proof {
            lemma_q_num_pos(self.a@);
        }
        let u_diff = self.left.func.evaluate(t)?;
        match self.left.ty {
            UDiffType::Ut => {
                let s1 = u_diff.minus(&point.u_t)?;
                let d1 = s1.div_by(&self.a)?;
                let ux = point.u_x.minus(&d1)?;
                Some(StatePoint { u_t: u_diff, u_x: ux })
            },
            UDiffType::Ux => {
                let s1 = u_diff.minus(&point.u_x)?;
                let m1 = s1.times(&self.a)?;
                let ut = point.u_t.minus(&m1)?;
                Some(StatePoint { u_t: ut, u_x: u_diff })
            },
        }
    }

    /// Boundary update at the right end for new time `t`.
    pub fn right_calc_point(&self, t: &Rat, point: &StatePoint) -> (r: Option<StatePoint>)
        requires
            self.a.wf(),
            q_pos(self.a@),
            self.right.func.fwf(),
            t.wf(),
            point.wf(),
        ensures
            point_opt_is(r, right_point_spec(self.right, self.a@, t@, point@)),
            r matches Some(p) ==> (self.right.ty == UDiffType::Ut ==> p@.ut
                == self.right.func.spec_eval(t@)) && (self.right.ty == UDiffType::Ux ==> p@.ux
                == self.right.func.spec_eval(t@)),
    {
        proof {
            lemma_q_num_pos(self.a@);
        }
        let u_diff = self.right.func.evaluate(t)?;
        match self.right.ty {
            UDiffType::Ut => {
                let s1 = u_diff.minus(&point.u_t)?;
                let d1 = s1.div_by(&self.a)?;
                let ux = point.u_x.plus(&d1)?;
                Some(StatePoint { u_t: u_diff, u_x: ux })
            },
            UDiffType::Ux => {
                let s1 = u_diff.minus(&point.u_x)?;
                let m1 = s1.times(&self.a)?;
                let ut = point.u_t.plus(&m1)?;
                Some(StatePoint { u_t: ut, u_x: u_diff })
            },
        }
    }
}

/// One evenly spaced initial sample: position `i/(n-1) * l` and the two
/// prescribed initial derivatives there.
pub open spec fn sample_spec<F: TimeFunction>(bx: F, bt: F, l: Q, n: int, i: int) -> Option<
    QPoint,
> {
    match q_norm_opt(Q { n: i, d: n - 1 }) {
        None => None,
        Some(f) => match q_norm_opt(q_mul(f, l)) {
            None => None,
            Some(x) => if bt.eval_ok(x) && bx.eval_ok(x) {
                Some(QPoint { ut: bt.spec_eval(x), ux: bx.spec_eval(x) })
            } else {
                None
            },
        },
    }
}

/// Success condition of the whole advance operation: the step length is
/// computable, the step count fits, the leftover time is representable and
/// all the steps go through.
pub open spec fn advance_ok<F: TimeFunction>(
    left: UDiff<F>,
    right: UDiff<F>,
    a: Q,
    l: Q,
    t: Q,
    pts: Seq<QPoint>,
    dtq: Q,
) -> bool {
    match dt_spec(a, l, pts.len() as int) {
        None => false,
        Some(sd) => {
            let k = floor_steps(dtq, sd);
            &&& 0 <= k <= 0x7fff_ffff
            &&& q_small(q_mul(sd, q_int(k)))
            &&& q_small(q_sub(dtq, q_norm(q_mul(sd, q_int(k)))))
            &&& sim_steps(left, right, a, l, t, pts, k as nat) is Some
        },
    }
}

/// Splitting a run of steps at `j`.
pub proof fn lemma_sim_steps_more<F: TimeFunction>(
    left: UDiff<F>,
    right: UDiff<F>,
    a: Q,
    l: Q,
    t: Q,
    pts: Seq<QPoint>,
    j: nat,
    k: nat,
)
    requires
        j <= k,
    ensures
        sim_steps(left, right, a, l, t, pts, j) is None ==> sim_steps(
            left,
            right,
            a,
            l,
            t,
            pts,
            k,
        ) is None,
        sim_steps(left, right, a, l, t, pts, j) matches Some((t1, p1)) ==> sim_steps(
            left,
            right,
            a,
            l,
            t,
            pts,
            k,
        ) == sim_steps(left, right, a, l, t1, p1, (k - j) as nat),
    decreases j,
{
    if j != 0 {
        let st = sim_step(left, right, a, l, t, pts);
        if st is Some {
            let (t2, p2) = st.unwrap();
            lemma_sim_steps_more(left, right, a, l, t2, p2, (j - 1) as nat, (k - 1) as nat);
        }
    }
}

impl<F: TimeFunction> Renderer<F> {
    /// Tabulate the two initial-condition functions on the fresh grid.
    fn generate_floor(bottom_u_x: &F, bottom_u_t: &F, a: &Rat, l: &Rat) -> (r: Option<
        Vec<StatePoint>,
    >)
        requires
            bottom_u_x.fwf(),
            bottom_u_t.fwf(),
            a.wf(),
            l.wf(),
            q_pos(a@),
            q_pos(l@),
        ensures
            r matches Some(v) ==> {
                &&& tab_fits(a@, l@)
                &&& v@.len() == spec_tab_size(a@, l@)
                &&& forall|i: int|
                    0 <= i < v@.len() ==> (#[trigger] v@[i]).wf() && sample_spec(
                        *bottom_u_x,
                        *bottom_u_t,
                        l@,
                        v@.len() as int,
                        i,
                    ) == Some(v@[i]@)
            },
            r is Some <==> tab_fits(a@, l@) && (forall|i: int|
                0 <= i < spec_tab_size(a@, l@) ==> (#[trigger] sample_spec(
                    *bottom_u_x,
                    *bottom_u_t,
                    l@,
                    spec_tab_size(a@, l@),
                    i,
                )) is Some),
    {
        let n: usize = match calc_tabulation_size(a, l) {
            Some(n) => n,
            None => {
                return None;
            },
        };
        let mut v: Vec<StatePoint> = Vec::new();
        let mut i: usize = 0;
        while i < n
            invariant
                i <= n,
                v@.len() == i,
                257 <= n <= 0x7fff_ffff,
                n as int == spec_tab_size(a@, l@),
                tab_fits(a@, l@),
                bottom_u_x.fwf(),
                bottom_u_t.fwf(),
                a.wf(),
                l.wf(),
                q_pos(a@),
                q_pos(l@),
                forall|j: int|
                    0 <= j < i ==> (#[trigger] v@[j]).wf() && sample_spec(
                        *bottom_u_x,
                        *bottom_u_t,
                        l@,
                        spec_tab_size(a@, l@),
                        j,
                    ) == Some(v@[j]@),
            decreases n - i,
        {
            let x0 = match Rat::new(i as i64, (n - 1) as i64) {
                Some(x) => x,
                None => {
                    assert(sample_spec(
                        *bottom_u_x,
                        *bottom_u_t,
                        l@,
                        spec_tab_size(a@, l@),
                        i as int,
                    ) is None);
                    return None;
                },
            };
            let x = match x0.times(l) {
                Some(x) => x,
                None => {
                    assert(sample_spec(
                        *bottom_u_x,
                        *bottom_u_t,
                        l@,
                        spec_tab_size(a@, l@),
                        i as int,
                    ) is None);
                    return None;
                },
            };
            let ut = match bottom_u_t.evaluate(&x) {
                Some(u) => u,
                None => {
                    assert(sample_spec(
                        *bottom_u_x,
                        *bottom_u_t,
                        l@,
                        spec_tab_size(a@, l@),
                        i as int,
                    ) is None);
                    return None;
                },
            };
            let ux = match bottom_u_x.evaluate(&x) {
                Some(u) => u,
                None => {
                    assert(sample_spec(
                        *bottom_u_x,
                        *bottom_u_t,
                        l@,
                        spec_tab_size(a@, l@),
                        i as int,
                    ) is None);
                    return None;
                },
            };
            v.push(StatePoint { u_t: ut, u_x: ux });
            i += 1;
        }
        proof {
            assert forall|i2: int|
                0 <= i2 < spec_tab_size(a@, l@) implies (#[trigger] sample_spec(
                *bottom_u_x,
                *bottom_u_t,
                l@,
                spec_tab_size(a@, l@),
                i2,
            )) is Some by {
                assert(v@[i2].wf());
            }
        }
        Some(v)
    }

    /// Build a simulator: reject non-positive parameters, size the grid and
    /// tabulate the initial conditions; the scratch row starts zeroed.
    pub fn new(
        left: UDiff<F>,
        right: UDiff<F>,
        bottom_u_x: F,
        bottom_u_t: F,
        a: Rat,
        l: Rat,
    ) -> (r: Option<Renderer<F>>)
        requires
            left.func.fwf(),
            right.func.fwf(),
            bottom_u_x.fwf(),
            bottom_u_t.fwf(),
            a.wf(),
            l.wf(),
        ensures
            r matches Some(s) ==> {
                &&& s.wf()
                &&& s.a == a
                &&& s.l == l
                &&& s.left == left
                &&& s.right == right
                &&& s.cur_t@ == q_int(0)
                &&& s.rem_t@ == q_int(0)
                &&& s.points().len() == spec_tab_size(a@, l@)
                &&& forall|i: int|
                    0 <= i < s.points().len() ==> sample_spec(
                        bottom_u_x,
                        bottom_u_t,
                        l@,
                        s.points().len() as int,
                        i,
                    ) == Some(#[trigger] s.points()[i])
            },
            r is Some <==> q_pos(a@) && q_pos(l@) && tab_fits(a@, l@) && (forall|i: int|
                0 <= i < spec_tab_size(a@, l@) ==> (#[trigger] sample_spec(
                    bottom_u_x,
                    bottom_u_t,
                    l@,
                    spec_tab_size(a@, l@),
                    i,
                )) is Some),
    {
        let zero = Rat::from_int(0);
        proof {
            lemma_q_num_pos(a@);
            lemma_q_num_pos(l@);
        }
        if !zero.lt(&a) || !zero.lt(&l) {
            proof {
                lemma_q_zero_lt(a@);
                lemma_q_zero_lt(l@);
            }
            return None;
        }
        proof {
            lemma_q_zero_lt(a@);
            lemma_q_zero_lt(l@);
        }
        let floor = match Self::generate_floor(&bottom_u_x, &bottom_u_t, &a, &l) {
            Some(f) => f,
            None => {
                return None;
            },
        };
        let n: usize = floor.len();
        let z = StatePoint { u_t: zero, u_x: zero };
        let mut buffer: Vec<StatePoint> = Vec::new();
        let mut i: usize = 0;
        while i < n
            invariant
                i <= n,
                buffer@.len() == i,
                z.wf(),
                forall|j: int| 0 <= j < i ==> (#[trigger] buffer@[j]).wf(),
            decreases n - i,
        {
            buffer.push(z);
            i += 1;
        }
        Some(Renderer { left, right, floor, floor_buffer: buffer, a, l, rem_t: zero, cur_t: zero })
    }

    /// Replace the parameters and regenerate the grid; the boundary
    /// conditions and the clock are kept.  On failure nothing changes.
    pub fn reset(&mut self, bottom_u_x: F, bottom_u_t: F, a: Rat, l: Rat) -> (ok: bool)
        requires
            old(self).wf(),
            bottom_u_x.fwf(),
            bottom_u_t.fwf(),
            a.wf(),
            l.wf(),
        ensures
            final(self).wf(),
            final(self).left == old(self).left,
            final(self).right == old(self).right,
            final(self).cur_t == old(self).cur_t,
            final(self).rem_t == old(self).rem_t,
            ok <==> q_pos(a@) && q_pos(l@) && tab_fits(a@, l@) && (forall|i: int|
                0 <= i < spec_tab_size(a@, l@) ==> (#[trigger] sample_spec(
                    bottom_u_x,
                    bottom_u_t,
                    l@,
                    spec_tab_size(a@, l@),
                    i,
                )) is Some),
            ok ==> final(self).a == a && final(self).l == l && final(self).points().len()
                == spec_tab_size(a@, l@) && (forall|i: int|
                0 <= i < final(self).points().len() ==> sample_spec(
                    bottom_u_x,
                    bottom_u_t,
                    l@,
                    final(self).points().len() as int,
                    i,
                ) == Some(#[trigger] final(self).points()[i])),
            !ok ==> final(self).a == old(self).a && final(self).l == old(self).l && final(self).floor == old(self).floor && final(self).floor_buffer == old(self).floor_buffer,
    {
        let zero = Rat::from_int(0);
        proof {
            lemma_q_num_pos(a@);
            lemma_q_num_pos(l@);
        }
        if !zero.lt(&a) || !zero.lt(&l) {
            proof {
                lemma_q_zero_lt(a@);
                lemma_q_zero_lt(l@);
            }
            return false;
        }
        proof {
            lemma_q_zero_lt(a@);
            lemma_q_zero_lt(l@);
        }
        let floor = match Self::generate_floor(&bottom_u_x, &bottom_u_t, &a, &l) {
            Some(f) => f,
            None => {
                return false;
            },
        };
        let n: usize = floor.len();
        let z = StatePoint { u_t: zero, u_x: zero };
        let mut buffer: Vec<StatePoint> = Vec::new();
        let mut i: usize = 0;
        while i < n
            invariant
                i <= n,
                buffer@.len() == i,
                z.wf(),
                forall|j: int| 0 <= j < i ==> (#[trigger] buffer@[j]).wf(),
            decreases n - i,
        {
            buffer.push(z);
            i += 1;
        }
        self.a = a;
        self.l = l;
        self.floor = floor;
        self.floor_buffer = buffer;
        true
    }

    /// One whole discrete step: advance the clock by the exact step length,
    /// write the boundary points and the characteristic average of the
    /// interior into the scratch row, and swap the rows.
    pub fn step(&mut self) -> (ok: bool)
        requires
            old(self).wf(),
        ensures
            final(self).wf(),
            final(self).a == old(self).a,
            final(self).l == old(self).l,
            final(self).left == old(self).left,
            final(self).right == old(self).right,
            final(self).rem_t == old(self).rem_t,
            final(self).floor@.len() == old(self).floor@.len(),
            ok <==> sim_step(
                old(self).left,
                old(self).right,
                old(self).a@,
                old(self).l@,
                old(self).cur_t@,
                old(self).points(),
            ) is Some,
            ok ==> sim_step(
                old(self).left,
                old(self).right,
                old(self).a@,
                old(self).l@,
                old(self).cur_t@,
                old(self).points(),
            ) == Some((final(self).cur_t@, final(self).points())),
            !ok ==> final(self).floor == old(self).floor && final(self).cur_t == old(self).cur_t,
            ok ==> q_eq(
                final(self).cur_t@,
                q_add(
                    old(self).cur_t@,
                    raw_dt(old(self).a@, old(self).l@, old(self).floor@.len() as int),
                ),
            ),
            ok && old(self).left.ty == UDiffType::Ut ==> final(self).points()[0].ut == old(self).left.func.spec_eval(final(self).cur_t@),
            ok && old(self).left.ty == UDiffType::Ux ==> final(self).points()[0].ux == old(self).left.func.spec_eval(final(self).cur_t@),
            ok && old(self).right.ty == UDiffType::Ut ==> final(self).points()[old(self).floor@.len() - 1].ut == old(self).right.func.spec_eval(final(self).cur_t@),
            ok && old(self).right.ty == UDiffType::Ux ==> final(self).points()[old(self).floor@.len() - 1].ux == old(self).right.func.spec_eval(final(self).cur_t@),
    {
        let ghost s0 = *self;
        let n: usize = self.floor.len();
        let sdt = match self.step_dt() {
            Some(v) => v,
            None => {
                return false;
            },
        };
        let new_t = match self.cur_t.plus(&sdt) {
            Some(v) => v,
            None => {
                return false;
            },
        };
        proof {
            lemma_q_ops_wf(s0.cur_t@, sdt@);
            lemma_q_norm(q_add(s0.cur_t@, sdt@));
            lemma_q_num_pos(s0.a@);
            lemma_pos_prod(s0.a@.n, n - 1);
            lemma_q_ops_wf(q_mul(s0.l@, q_int(2)), q_mul(s0.a@, q_int(n - 1)));
            lemma_q_add_cong(
                s0.cur_t@,
                sdt@,
                s0.cur_t@,
                raw_dt(s0.a@, s0.l@, n as int),
            );
            lemma_q_eq_trans(
                new_t@,
                q_add(s0.cur_t@, sdt@),
                q_add(s0.cur_t@, raw_dt(s0.a@, s0.l@, n as int)),
            );
        }
        let p1 = self.point(1);
        let lp = match self.left_calc_point(&new_t, &p1) {
            Some(v) => v,
            None => {
                return false;
            },
        };
        self.floor_buffer.set(0, lp);
        let mut i: usize = 1;
        while i < n - 1
            invariant
                1 <= i <= n - 1,
                257 <= n,
                n == s0.floor@.len(),
                s0 == *old(self),
                s0.wf(),
                *self == (Renderer { floor_buffer: self.floor_buffer, ..s0 }),
                self.floor_buffer@.len() == n,
                forall|j: int| 0 <= j < n ==> (#[trigger] self.floor_buffer@[j]).wf(),
                self.floor_buffer@[0] == lp,
                lp.wf(),
                new_t.wf(),
                sdt.wf(),
                rat_opt_is(Some(sdt), dt_spec(s0.a@, s0.l@, n as int)),
                rat_opt_is(Some(new_t), q_norm_opt(q_add(s0.cur_t@, sdt@))),
                point_opt_is(Some(lp), left_point_spec(s0.left, s0.a@, new_t@, s0.points()[1])),
                forall|j: int|
                    1 <= j < i ==> ((#[trigger] calc_point_spec(
                        s0.a@,
                        s0.points()[j - 1],
                        s0.points()[j + 1],
                    )) matches Some(q) && self.floor_buffer@[j]@ == q),
            decreases n - 1 - i,
        {
            let pl = self.point(i - 1);
            let pr = self.point(i + 1);
            let cp = match self.calc_point(&pl, &pr) {
                Some(c) => c,
                None => {
                    assert(calc_point_spec(s0.a@, s0.points()[i - 1], s0.points()[i + 1])
                        is None);
                    return false;
                },
            };
            self.floor_buffer.set(i, cp);
            i += 1;
        }
        let pn2 = self.point(n - 2);
        let rp = match self.right_calc_point(&new_t, &pn2) {
            Some(v) => v,
            None => {
                return false;
            },
        };
        self.floor_buffer.set(n - 1, rp);
        proof {
            let st = sim_step(s0.left, s0.right, s0.a@, s0.l@, s0.cur_t@, s0.points());
            let target = Seq::new(
                s0.points().len(),
                |i: int|
                    if i == 0 {
                        lp@
                    } else if i == n - 1 {
                        rp@
                    } else {
                        calc_point_spec(s0.a@, s0.points()[i - 1], s0.points()[i + 1]).unwrap()
                    },
            );
            assert(self.floor_buffer@.map_values(|p: StatePoint| p@) =~= target);
            assert(st == Some((new_t@, target)));
        }
        core::mem::swap(&mut self.floor, &mut self.floor_buffer);
        self.cur_t = new_t;
        true
    }

    /// Perform as many whole steps as fit in the elapsed duration `dt` and
    /// record the leftover fraction of a step in `rem_t`; returns the number
    /// of steps taken.
    pub fn advance(&mut self, dt: &Rat) -> (r: Option<usize>)
        requires
            old(self).wf(),
            dt.wf(),
            q_nonneg(dt@),
        ensures
            final(self).wf(),
            final(self).a == old(self).a,
            final(self).l == old(self).l,
            final(self).left == old(self).left,
            final(self).right == old(self).right,
            final(self).floor@.len() == old(self).floor@.len(),
            r is Some <==> advance_ok(
                old(self).left,
                old(self).right,
                old(self).a@,
                old(self).l@,
                old(self).cur_t@,
                old(self).points(),
                dt@,
            ),
            r matches Some(k) ==> (dt_spec(
                old(self).a@,
                old(self).l@,
                old(self).floor@.len() as int,
            ) matches Some(sd) && {
                &&& k as int == floor_steps(dt@, sd)
                &&& sim_steps(
                    old(self).left,
                    old(self).right,
                    old(self).a@,
                    old(self).l@,
                    old(self).cur_t@,
                    old(self).points(),
                    k as nat,
                ) == Some((final(self).cur_t@, final(self).points()))
                &&& final(self).rem_t@ == q_norm(q_sub(dt@, q_norm(q_mul(sd, q_int(k as int)))))
                &&& q_eq(final(self).rem_t@, q_sub(dt@, q_mul(sd, q_int(k as int))))
            }),
            r is None ==> final(self).rem_t == old(self).rem_t,
    {
        let ghost s0 = *self;
        let n: usize = self.floor.len();
        let sdt = match self.step_dt() {
            Some(v) => v,
            None => {
                return None;
            },
        };
        proof {
            lemma_q_num_pos(sdt@);
            lemma_q_num_pos(dt@);
            crate::rat::lemma_i64_prod_bound(dt@.n, sdt@.d);
            crate::rat::lemma_i64_prod_bound(dt@.d, sdt@.n);
            lemma_pos_prod(dt@.d, sdt@.n);
        }
        let nn: u128 = (dt.num() as u128) * (sdt.den() as u128);
        let dd: u128 = (dt.den() as u128) * (sdt.num() as u128);
        let k_u: u128 = nn / dd;
        assert(k_u as int == floor_steps(dt@, sdt@));
        if k_u > 0x7fff_ffff {
            return None;
        }
        let krat = Rat::from_int(k_u as i64);
        let prod = match sdt.times(&krat) {
            Some(p) => p,
            None => {
                return None;
            },
        };
        let rem = match dt.minus(&prod) {
            Some(rm) => rm,
            None => {
                return None;
            },
        };
        proof {
            lemma_q_ops_wf(sdt@, q_int(k_u as int));
            lemma_q_norm(q_mul(sdt@, q_int(k_u as int)));
            lemma_q_ops_wf(dt@, prod@);
            lemma_q_ops_wf(dt@, q_mul(sdt@, q_int(k_u as int)));
            lemma_q_norm(q_sub(dt@, prod@));
            lemma_q_sub_cong(dt@, prod@, dt@, q_mul(sdt@, q_int(k_u as int)));
            lemma_q_eq_trans(
                rem@,
                q_sub(dt@, prod@),
                q_sub(dt@, q_mul(sdt@, q_int(k_u as int))),
            );
        }
        let k: usize = k_u as usize;
        let mut j: usize = 0;
        while j < k
            invariant
                j <= k,
                k <= 0x7fff_ffff,
                s0 == *old(self),
                sdt.wf(),
                rat_opt_is(Some(sdt), dt_spec(s0.a@, s0.l@, s0.floor@.len() as int)),
                k as int == floor_steps(dt@, sdt@),
                self.wf(),
                *self == (Renderer {
                    floor: self.floor,
                    floor_buffer: self.floor_buffer,
                    cur_t: self.cur_t,
                    ..s0
                }),
                self.floor@.len() == s0.floor@.len(),
                s0.wf(),
                sim_steps(
                    s0.left,
                    s0.right,
                    s0.a@,
                    s0.l@,
                    s0.cur_t@,
                    s0.points(),
                    j as nat,
                ) == Some((self.cur_t@, self.points())),
            decreases k - j,
        {
            let ghost pre = *self;
            let ghost jj = j as nat;
            if !self.step() {
                proof {
                    lemma_sim_steps_more(
                        s0.left,
                        s0.right,
                        s0.a@,
                        s0.l@,
                        s0.cur_t@,
                        s0.points(),
                        jj,
                        k as nat,
                    );
                }
                return None;
            }
            proof {
                let t2 = self.cur_t@;
                let p2 = self.points();
                assert(sim_step(s0.left, s0.right, s0.a@, s0.l@, pre.cur_t@, pre.points())
                    == Some((t2, p2)));
                assert(sim_steps(s0.left, s0.right, s0.a@, s0.l@, t2, p2, 0nat) == Some(
                    (t2, p2),
                ));
                lemma_sim_steps_more(
                    s0.left,
                    s0.right,
                    s0.a@,
                    s0.l@,
                    s0.cur_t@,
                    s0.points(),
                    jj,
                    jj + 1,
                );
                assert(sim_steps(s0.left, s0.right, s0.a@, s0.l@, s0.cur_t@, s0.points(), jj + 1)
                    == Some((t2, p2)));
            }
            j += 1;
        }
        self.rem_t = rem;
        Some(k)
    }
}

/// `0 < x` as a comparison of values.
proof fn lemma_q_zero_lt(x: Q) by (nonlinear_arith)
    requires
        q_wf(x),
    ensures
        q_lt(q_int(0), x) <==> q_pos(x),
{
}

/// The normalised interior chain denotes the raw space-derivative formula.
pub(crate) proof fn lemma_chain_ux(a: Q, lp: QPoint, rp: QPoint, d1: Q, s1: Q, s2: Q, d2: Q, s3: Q, ux: Q)
    requires
        0 < a.d,
        a.n != 0,
        qp_wf(lp),
        qp_wf(rp),
        d1 == q_norm(q_div(lp.ut, a)),
        s1 == q_norm(q_sub(lp.ux, d1)),
        s2 == q_norm(q_add(s1, rp.ux)),
        d2 == q_norm(q_div(rp.ut, a)),
        s3 == q_norm(q_add(s2, d2)),
        ux == q_norm(q_div(s3, q_int(2))),
    ensures
        q_eq(ux, chr_ux_raw(a, lp, rp)),
{
    let rd1 = q_div(lp.ut, a);
    let rs1 = q_sub(lp.ux, rd1);
    let rs2 = q_add(rs1, rp.ux);
    let rd2 = q_div(rp.ut, a);
    let rs3 = q_add(rs2, rd2);
    lemma_q_ops_wf(lp.ut, a);
    lemma_q_ops_wf(rp.ut, a);
    lemma_q_norm(rd1);
    lemma_q_ops_wf(lp.ux, d1);
    lemma_q_ops_wf(lp.ux, rd1);
    lemma_q_sub_cong(lp.ux, d1, lp.ux, rd1);
    lemma_q_norm(q_sub(lp.ux, d1));
    lemma_q_eq_trans(s1, q_sub(lp.ux, d1), rs1);
    lemma_q_ops_wf(s1, rp.ux);
    lemma_q_ops_wf(rs1, rp.ux);
    lemma_q_add_cong(s1, rp.ux, rs1, rp.ux);
    lemma_q_norm(q_add(s1, rp.ux));
    lemma_q_eq_trans(s2, q_add(s1, rp.ux), rs2);
    lemma_q_norm(rd2);
    lemma_q_ops_wf(s2, d2);
    lemma_q_ops_wf(rs2, rd2);
    lemma_q_add_cong(s2, d2, rs2, rd2);
    lemma_q_norm(q_add(s2, d2));
    lemma_q_eq_trans(s3, q_add(s2, d2), rs3);
    lemma_q_ops_wf(s3, q_int(2));
    lemma_q_ops_wf(rs3, q_int(2));
    lemma_q_div_cong(s3, q_int(2), rs3, q_int(2));
    lemma_q_norm(q_div(s3, q_int(2)));
    lemma_q_eq_trans(ux, q_div(s3, q_int(2)), chr_ux_raw(a, lp, rp));
}

/// The normalised interior chain denotes the raw time-derivative formula.
pub(crate) proof fn lemma_chain_ut(a: Q, lp: QPoint, rp: QPoint, m1: Q, t1: Q, t2: Q, m2: Q, t3: Q, ut: Q)
    requires
        0 < a.d,
        a.n != 0,
        qp_wf(lp),
        qp_wf(rp),
        m1 == q_norm(q_mul(lp.ux, a)),
        t1 == q_norm(q_sub(lp.ut, m1)),
        t2 == q_norm(q_add(t1, rp.ut)),
        m2 == q_norm(q_mul(rp.ux, a)),
        t3 == q_norm(q_add(t2, m2)),
        ut == q_norm(q_div(t3, q_int(2))),
    ensures
        q_eq(ut, chr_ut_raw(a, lp, rp)),
{
    let rm1 = q_mul(lp.ux, a);
    let rt1 = q_sub(lp.ut, rm1);
    let rt2 = q_add(rt1, rp.ut);
    let rm2 = q_mul(rp.ux, a);
    let rt3 = q_add(rt2, rm2);
    lemma_q_ops_wf(lp.ux, a);
    lemma_q_ops_wf(rp.ux, a);
    lemma_q_norm(rm1);
    lemma_q_ops_wf(lp.ut, m1);
    lemma_q_ops_wf(lp.ut, rm1);
    lemma_q_sub_cong(lp.ut, m1, lp.ut, rm1);
    lemma_q_norm(q_sub(lp.ut, m1));
    lemma_q_eq_trans(t1, q_sub(lp.ut, m1), rt1);
    lemma_q_ops_wf(t1, rp.ut);
    lemma_q_ops_wf(rt1, rp.ut);
    lemma_q_add_cong(t1, rp.ut, rt1, rp.ut);
    lemma_q_norm(q_add(t1, rp.ut));
    lemma_q_eq_trans(t2, q_add(t1, rp.ut), rt2);
    lemma_q_norm(rm2);
    lemma_q_ops_wf(t2, m2);
    lemma_q_ops_wf(rt2, rm2);
    lemma_q_add_cong(t2, m2, rt2, rm2);
    lemma_q_norm(q_add(t2, m2));
    lemma_q_eq_trans(t3, q_add(t2, m2), rt3);
    lemma_q_ops_wf(t3, q_int(2));
    lemma_q_ops_wf(rt3, q_int(2));
    lemma_q_div_cong(t3, q_int(2), rt3, q_int(2));
    lemma_q_norm(q_div(t3, q_int(2)));
    lemma_q_eq_trans(ut, q_div(t3, q_int(2)), chr_ut_raw(a, lp, rp));
}

} // verus!
