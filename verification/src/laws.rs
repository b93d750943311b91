//! The general laws of the scheme, stated and proved once and for all.
//!
//! These are the facts a caller can rely on beyond the per-function
//! contracts: the grid sizer is monotone in `l/a`, a constant state with
//! matching constant boundary data is a fixed point of the update, and the
//! interior update transports the two Riemann invariants exactly.

use vstd::prelude::*;
use vstd::arithmetic::div_mod::{lemma_basic_div, lemma_div_is_ordered, lemma_fundamental_div_mod};
use vstd::arithmetic::mul::{
    lemma_mul_is_associative, lemma_mul_is_distributive_add, lemma_mul_is_distributive_sub,
};
use crate::rat::{
    lemma_pos_prod, lemma_q_div_cong, lemma_q_eq_trans, lemma_q_mul_cong, lemma_q_norm,
    lemma_q_num_pos, lemma_q_ops_wf, lemma_q_sub_cong, lemma_q_add_cong, q_add, q_div, q_eq,
    q_int, q_le, q_mul, q_neg, q_norm, q_pos, q_sub, q_wf, Q,
};
use crate::engine::{
    calc_point_spec, chr_ut_raw, chr_ut_spec, chr_ux_raw, chr_ux_spec, lemma_chain_ut,
    lemma_chain_ux, qp_wf, spec_tab_size, QPoint,
};

verus! {

/// The right-moving Riemann invariant `u_t - a * u_x` of a state point.
pub open spec fn riemann_r(a: Q, p: QPoint) -> Q {
    q_sub(p.ut, q_mul(a, p.ux))
}

/// The left-moving Riemann invariant `u_t + a * u_x` of a state point.
pub open spec fn riemann_s(a: Q, p: QPoint) -> Q {
    q_add(p.ut, q_mul(a, p.ux))
}

/// `((x - u) + x) + u` denotes `2 * x`, whatever the pairs are.
proof fn lemma_uniform_core(x: Q, u: Q)
    requires
        q_wf(x),
        q_wf(u),
    ensures
        q_eq(q_div(q_add(q_add(q_sub(x, u), x), u), q_int(2)), x),
{
    let b = q_add(q_sub(x, u), x);
    let c = q_add(b, u);
    assert(b.n == x.d * (2 * x.n * u.d - u.n * x.d) && b.d == (x.d * u.d) * x.d)
        by (nonlinear_arith)
        requires
            b.n == (x.n * u.d - u.n * x.d) * x.d + x.n * (x.d * u.d),
            b.d == (x.d * u.d) * x.d,
    ;
    assert(c.n == 2 * x.n * x.d * (u.d * u.d) && c.d == (x.d * x.d) * (u.d * u.d))
        by (nonlinear_arith)
        requires
            c.n == b.n * u.d + u.n * b.d,
            c.d == b.d * u.d,
            b.n == x.d * (2 * x.n * u.d - u.n * x.d),
            b.d == (x.d * u.d) * x.d,
    ;
    assert(c.n * x.d == x.n * (c.d * 2)) by (nonlinear_arith)
        requires
            c.n == 2 * x.n * x.d * (u.d * u.d),
            c.d == (x.d * x.d) * (u.d * u.d),
    ;
}

/// A uniform row is a fixed point of the interior update: when both
/// neighbours carry the same pair `c`, the characteristic average returns
/// `c` again (exactly, as rational values).
pub proof fn lemma_interior_fixed_point(a: Q, c: QPoint)
    requires
        q_wf(a),
        a.n != 0,
        qp_wf(c),
    ensures
        q_eq(chr_ux_raw(a, c, c), c.ux),
        q_eq(chr_ut_raw(a, c, c), c.ut),
{
    lemma_q_ops_wf(c.ut, a);
    lemma_q_ops_wf(c.ux, a);
    lemma_uniform_core(c.ux, q_div(c.ut, a));
    lemma_uniform_core(c.ut, q_mul(c.ux, a));
}

/// The interior update transports the Riemann invariants: the new point's
/// right-moving invariant is the left neighbour's, and its left-moving
/// invariant is the right neighbour's.
/// Associativity of pair addition, up to value equality.
proof fn lemma_q_add_assoc(u: Q, v: Q, w: Q)
    requires
        q_wf(u),
        q_wf(v),
        q_wf(w),
    ensures
        q_eq(q_add(q_add(u, v), w), q_add(u, q_add(v, w))),
{
    assoc_h(u.n, u.d, v.n, v.d, w.n, w.d);
    let l = q_add(q_add(u, v), w);
    let r = q_add(u, q_add(v, w));
    assert(l.n == r.n && l.d == r.d);
}

proof fn assoc_h(un: int, ud: int, vn: int, vd: int, wn: int, wd: int) by (nonlinear_arith)
    ensures
        (un * vd + vn * ud) * wd + wn * (ud * vd) == un * (vd * wd) + (vn * wd + wn * vd) * ud,
        (ud * vd) * wd == ud * (vd * wd),
{
}

/// Commutativity of pair addition, up to value equality.
proof fn lemma_q_add_comm(u: Q, v: Q)
    requires
        q_wf(u),
        q_wf(v),
    ensures
        q_eq(q_add(u, v), q_add(v, u)),
{
    comm_h(u.n, u.d, v.n, v.d);
    let l = q_add(u, v);
    let r = q_add(v, u);
    assert(l.n == r.n && l.d == r.d);
}

proof fn comm_h(un: int, ud: int, vn: int, vd: int) by (nonlinear_arith)
    ensures
        un * vd + vn * ud == vn * ud + un * vd,
        ud * vd == vd * ud,
{
}

/// Multiplication distributes over pair addition, up to value equality.
proof fn lemma_q_mul_add_dist(a: Q, u: Q, v: Q)
    requires
        q_wf(a),
        q_wf(u),
        q_wf(v),
    ensures
        q_eq(q_mul(a, q_add(u, v)), q_add(q_mul(a, u), q_mul(a, v))),
{
    mul_add_h(a.n, a.d, u.n, u.d, v.n, v.d);
    let l = q_mul(a, q_add(u, v));
    let r = q_add(q_mul(a, u), q_mul(a, v));
    assert(l.n * r.d == r.n * l.d);
}

proof fn mul_add_h(an: int, ad: int, un: int, ud: int, vn: int, vd: int)
    ensures
        (an * (un * vd + vn * ud)) * ((ad * ud) * (ad * vd)) == ((an * un) * (ad * vd) + (an * vn)
            * (ad * ud)) * (ad * (ud * vd)),
{
    let s = un * vd + vn * ud;
    let uv = ud * vd;
    crate::rat::lemma_regroup(an, un, ad, vd);
    crate::rat::lemma_regroup(an, vn, ad, ud);
    lemma_mul_is_distributive_add(an * ad, un * vd, vn * ud);
    crate::rat::lemma_regroup(ad, ud, ad, vd);
    crate::rat::lemma_regroup(an, s, ad * ad, uv);
    crate::rat::lemma_regroup(an * ad, s, ad, uv);
    lemma_mul_is_associative(an, ad, ad);
}

/// Multiplication distributes over pair subtraction, up to value equality.
proof fn lemma_q_mul_sub_dist(a: Q, u: Q, v: Q)
    requires
        q_wf(a),
        q_wf(u),
        q_wf(v),
    ensures
        q_eq(q_mul(a, q_sub(u, v)), q_sub(q_mul(a, u), q_mul(a, v))),
{
    mul_sub_h(a.n, a.d, u.n, u.d, v.n, v.d);
    let l = q_mul(a, q_sub(u, v));
    let r = q_sub(q_mul(a, u), q_mul(a, v));
    assert(l.n * r.d == r.n * l.d);
}

proof fn mul_sub_h(an: int, ad: int, un: int, ud: int, vn: int, vd: int)
    ensures
        (an * (un * vd - vn * ud)) * ((ad * ud) * (ad * vd)) == ((an * un) * (ad * vd) - (an * vn)
            * (ad * ud)) * (ad * (ud * vd)),
{
    let s = un * vd - vn * ud;
    let uv = ud * vd;
    crate::rat::lemma_regroup(an, un, ad, vd);
    crate::rat::lemma_regroup(an, vn, ad, ud);
    lemma_mul_is_distributive_sub(an * ad, un * vd, vn * ud);
    crate::rat::lemma_regroup(ad, ud, ad, vd);
    crate::rat::lemma_regroup(an, s, ad * ad, uv);
    crate::rat::lemma_regroup(an * ad, s, ad, uv);
    lemma_mul_is_associative(an, ad, ad);
}

/// `a * (t / a)` denotes `t` again.
proof fn lemma_q_cancel(a: Q, t: Q)
    requires
        q_wf(a),
        q_wf(t),
        a.n != 0,
    ensures
        q_eq(q_mul(a, q_div(t, a)), t),
{
    cancel_h(a.n, a.d, t.n, t.d);
    let l = q_mul(a, q_div(t, a));
    assert(l.n * t.d == t.n * l.d);
}

proof fn cancel_h(an: int, ad: int, tn: int, td: int) by (nonlinear_arith)
    ensures
        (an * (tn * ad)) * td == tn * (ad * (td * an)),
{
}

/// `(x + y) - (-x + y)` denotes `2x`, and `(x + y) + (-x + y)` denotes `2y`.
proof fn lemma_q_mirror(x: Q, y: Q)
    requires
        q_wf(x),
        q_wf(y),
    ensures
        q_eq(q_sub(q_add(x, y), q_add(q_neg(x), y)), q_mul(q_int(2), x)),
        q_eq(q_add(q_add(x, y), q_add(q_neg(x), y)), q_mul(q_int(2), y)),
{
    mirror_h(x.n, x.d, y.n, y.d);
    let sdif = q_sub(q_add(x, y), q_add(q_neg(x), y));
    let ssum = q_add(q_add(x, y), q_add(q_neg(x), y));
    assert(sdif.n * x.d == (2 * x.n) * sdif.d);
    assert(ssum.n * y.d == (2 * y.n) * ssum.d);
}

proof fn mirror_h(xn: int, xd: int, yn: int, yd: int) by (nonlinear_arith)
    ensures
        ((xn * yd + yn * xd) * (xd * yd) - ((-xn) * yd + yn * xd) * (xd * yd)) * xd == (2 * xn) * (
        (xd * yd) * (xd * yd)),
        ((xn * yd + yn * xd) * (xd * yd) + ((-xn) * yd + yn * xd) * (xd * yd)) * yd == (2 * yn) * (
        (xd * yd) * (xd * yd)),
{
}

/// Halving commutes with the linear combinations used by the invariants.
proof fn lemma_q_half_lin(u5: Q, v5: Q, a: Q)
    requires
        q_wf(u5),
        q_wf(v5),
        q_wf(a),
    ensures
        q_eq(
            q_sub(q_div(u5, q_int(2)), q_mul(a, q_div(v5, q_int(2)))),
            q_div(q_sub(u5, q_mul(a, v5)), q_int(2)),
        ),
        q_eq(
            q_add(q_div(u5, q_int(2)), q_mul(a, q_div(v5, q_int(2)))),
            q_div(q_add(u5, q_mul(a, v5)), q_int(2)),
        ),
{
    half_lin_h(u5.n, u5.d, v5.n, v5.d, a.n, a.d);
    let ld = q_sub(q_div(u5, q_int(2)), q_mul(a, q_div(v5, q_int(2))));
    let ls = q_add(q_div(u5, q_int(2)), q_mul(a, q_div(v5, q_int(2))));
    let rd = q_div(q_sub(u5, q_mul(a, v5)), q_int(2));
    let rs = q_div(q_add(u5, q_mul(a, v5)), q_int(2));
    assert(ld.n * rd.d == rd.n * ld.d);
    assert(ls.n * rs.d == rs.n * ls.d);
}

proof fn half_lin_h(u5n: int, u5d: int, v5n: int, v5d: int, an: int, ad: int)
    ensures
        ((u5n * 1) * (ad * (v5d * 2)) - (an * (v5n * 1)) * (u5d * 2)) * ((u5d * (ad * v5d)) * 2)
            == (u5n * (ad * v5d) - (an * v5n) * u5d) * ((u5d * 2) * (ad * (v5d * 2))),
        ((u5n * 1) * (ad * (v5d * 2)) + (an * (v5n * 1)) * (u5d * 2)) * ((u5d * (ad * v5d)) * 2)
            == (u5n * (ad * v5d) + (an * v5n) * u5d) * ((u5d * 2) * (ad * (v5d * 2))),
{
    let ap = u5n * (ad * v5d);
    let bp = (an * v5n) * u5d;
    let e = u5d * (ad * v5d);
    lemma_mul_is_associative(ad, v5d, 2);
    lemma_mul_is_associative(u5n, ad * v5d, 2);
    lemma_mul_is_associative(an * v5n, u5d, 2);
    crate::rat::lemma_regroup(u5d, 2, ad * v5d, 2);
    assert((u5n * 1) * (ad * (v5d * 2)) == ap * 2);
    assert((an * (v5n * 1)) * (u5d * 2) == bp * 2);
    assert((u5d * 2) * (ad * (v5d * 2)) == e * (2 * 2));
    assert((ap * 2 - bp * 2) * (e * 2) == (ap - bp) * (e * (2 * 2))) by (nonlinear_arith);
    assert((ap * 2 + bp * 2) * (e * 2) == (ap + bp) * (e * (2 * 2))) by (nonlinear_arith);
}

/// Half of a doubled value is the value again.
proof fn lemma_q_half_double(x: Q)
    requires
        q_wf(x),
    ensures
        q_eq(q_div(q_mul(q_int(2), x), q_int(2)), x),
{
    half_double_h(x.n, x.d);
    let l = q_div(q_mul(q_int(2), x), q_int(2));
    assert(l.n * x.d == x.n * l.d);
}

proof fn half_double_h(xn: int, xd: int) by (nonlinear_arith)
    ensures
        ((2 * xn) * 1) * xd == xn * ((1 * xd) * 2),
{
}

/// The interior update transports the Riemann invariants: subtracting or
/// adding `a` times the new space derivative recovers the neighbours'
/// invariants exactly.
proof fn lemma_riemann_core(a: Q, lp: QPoint, rp: QPoint)
    requires
        q_wf(a),
        a.n != 0,
        qp_wf(lp),
        qp_wf(rp),
    ensures
        q_eq(
            q_sub(chr_ut_raw(a, lp, rp), q_mul(a, chr_ux_raw(a, lp, rp))),
            q_sub(lp.ut, q_mul(a, lp.ux)),
        ),
        q_eq(
            q_add(chr_ut_raw(a, lp, rp), q_mul(a, chr_ux_raw(a, lp, rp))),
            q_add(rp.ut, q_mul(a, rp.ux)),
        ),
{
    let rl = q_sub(lp.ut, q_mul(a, lp.ux));
    let sr = q_add(rp.ut, q_mul(a, rp.ux));
    let v1 = q_div(lp.ut, a);
    let v2 = q_sub(lp.ux, v1);
    let v3 = q_add(v2, rp.ux);
    let v4 = q_div(rp.ut, a);
    let v5 = q_add(v3, v4);
    let u2 = q_sub(lp.ut, q_mul(lp.ux, a));
    let u3 = q_add(u2, rp.ut);
    let u5 = q_add(u3, q_mul(rp.ux, a));
    let nl = q_sub(q_mul(a, lp.ux), lp.ut);
    // well-formedness of every composite
    lemma_q_ops_wf(lp.ut, a);
    lemma_q_ops_wf(rp.ut, a);
    lemma_q_ops_wf(lp.ux, a);
    lemma_q_ops_wf(rp.ux, a);
    lemma_q_ops_wf(a, lp.ux);
    lemma_q_ops_wf(a, rp.ux);
    lemma_q_ops_wf(lp.ux, v1);
    lemma_q_ops_wf(v2, rp.ux);
    lemma_q_ops_wf(v3, v4);
    lemma_q_ops_wf(lp.ut, q_mul(lp.ux, a));
    lemma_q_ops_wf(u2, rp.ut);
    lemma_q_ops_wf(u3, q_mul(rp.ux, a));
    lemma_q_ops_wf(lp.ut, q_mul(a, lp.ux));
    lemma_q_ops_wf(rp.ut, q_mul(a, rp.ux));
    lemma_q_ops_wf(q_mul(a, lp.ux), lp.ut);
    lemma_q_ops_wf(a, v5);
    lemma_q_ops_wf(a, v2);
    lemma_q_ops_wf(a, v3);
    lemma_q_ops_wf(a, v1);
    lemma_q_ops_wf(a, v4);
    lemma_q_ops_wf(q_mul(a, v3), q_mul(a, v4));
    lemma_q_ops_wf(q_mul(a, v3), rp.ut);
    lemma_q_ops_wf(q_mul(a, v2), q_mul(a, rp.ux));
    lemma_q_ops_wf(q_mul(a, lp.ux), q_mul(a, v1));
    lemma_q_ops_wf(nl, q_mul(a, rp.ux));
    lemma_q_ops_wf(q_add(nl, q_mul(a, rp.ux)), rp.ut);
    lemma_q_ops_wf(q_mul(a, rp.ux), rp.ut);
    lemma_q_ops_wf(nl, sr);
    lemma_q_ops_wf(q_neg(rl), sr);
    lemma_q_ops_wf(rl, sr);
    lemma_q_ops_wf(nl, q_add(q_mul(a, rp.ux), rp.ut));
    // u5 denotes rl + sr
    assert(q_mul(lp.ux, a) == q_mul(a, lp.ux)) by (nonlinear_arith);
    assert(q_mul(rp.ux, a) == q_mul(a, rp.ux)) by (nonlinear_arith);
    assert(u2 == rl);
    lemma_q_add_assoc(rl, rp.ut, q_mul(a, rp.ux));
    assert(q_eq(u5, q_add(rl, sr)));
    // a * v5 denotes (-rl) + sr
    lemma_q_mul_add_dist(a, v3, v4);
    lemma_q_cancel(a, rp.ut);
    lemma_q_add_cong(q_mul(a, v3), q_mul(a, v4), q_mul(a, v3), rp.ut);
    lemma_q_eq_trans(q_mul(a, v5), q_add(q_mul(a, v3), q_mul(a, v4)), q_add(q_mul(a, v3), rp.ut));
    lemma_q_mul_add_dist(a, v2, rp.ux);
    lemma_q_mul_sub_dist(a, lp.ux, v1);
    lemma_q_cancel(a, lp.ut);
    lemma_q_sub_cong(q_mul(a, lp.ux), q_mul(a, v1), q_mul(a, lp.ux), lp.ut);
    lemma_q_eq_trans(q_mul(a, v2), q_sub(q_mul(a, lp.ux), q_mul(a, v1)), nl);
    lemma_q_add_cong(q_mul(a, v2), q_mul(a, rp.ux), nl, q_mul(a, rp.ux));
    lemma_q_eq_trans(q_mul(a, v3), q_add(q_mul(a, v2), q_mul(a, rp.ux)), q_add(nl, q_mul(a, rp.ux)));
    lemma_q_add_cong(q_mul(a, v3), rp.ut, q_add(nl, q_mul(a, rp.ux)), rp.ut);
    lemma_q_eq_trans(
        q_mul(a, v5),
        q_add(q_mul(a, v3), rp.ut),
        q_add(q_add(nl, q_mul(a, rp.ux)), rp.ut),
    );
    lemma_q_add_assoc(nl, q_mul(a, rp.ux), rp.ut);
    lemma_q_add_comm(q_mul(a, rp.ux), rp.ut);
    lemma_q_add_cong(nl, q_add(q_mul(a, rp.ux), rp.ut), nl, sr);
    lemma_q_eq_trans(
        q_mul(a, v5),
        q_add(q_add(nl, q_mul(a, rp.ux)), rp.ut),
        q_add(nl, q_add(q_mul(a, rp.ux), rp.ut)),
    );
    lemma_q_eq_trans(q_mul(a, v5), q_add(nl, q_add(q_mul(a, rp.ux), rp.ut)), q_add(nl, sr));
    assert(nl == q_neg(rl));
    // halve and collapse
    lemma_q_half_lin(u5, v5, a);
    lemma_q_sub_cong(u5, q_mul(a, v5), q_add(rl, sr), q_add(q_neg(rl), sr));
    lemma_q_add_cong(u5, q_mul(a, v5), q_add(rl, sr), q_add(q_neg(rl), sr));
    lemma_q_mirror(rl, sr);
    lemma_q_ops_wf(u5, q_mul(a, v5));
    lemma_q_ops_wf(q_add(rl, sr), q_add(q_neg(rl), sr));
    lemma_q_eq_trans(
        q_sub(u5, q_mul(a, v5)),
        q_sub(q_add(rl, sr), q_add(q_neg(rl), sr)),
        q_mul(q_int(2), rl),
    );
    lemma_q_eq_trans(
        q_add(u5, q_mul(a, v5)),
        q_add(q_add(rl, sr), q_add(q_neg(rl), sr)),
        q_mul(q_int(2), sr),
    );
    lemma_q_ops_wf(q_int(2), rl);
    lemma_q_ops_wf(q_int(2), sr);
    lemma_q_ops_wf(q_sub(u5, q_mul(a, v5)), q_int(2));
    lemma_q_ops_wf(q_add(u5, q_mul(a, v5)), q_int(2));
    lemma_q_div_cong(
        q_sub(u5, q_mul(a, v5)),
        q_int(2),
        q_mul(q_int(2), rl),
        q_int(2),
    );
    lemma_q_div_cong(
        q_add(u5, q_mul(a, v5)),
        q_int(2),
        q_mul(q_int(2), sr),
        q_int(2),
    );
    lemma_q_half_double(rl);
    lemma_q_half_double(sr);
    lemma_q_ops_wf(q_mul(q_int(2), rl), q_int(2));
    lemma_q_ops_wf(q_mul(q_int(2), sr), q_int(2));
    lemma_q_eq_trans(
        q_sub(chr_ut_raw(a, lp, rp), q_mul(a, chr_ux_raw(a, lp, rp))),
        q_div(q_sub(u5, q_mul(a, v5)), q_int(2)),
        q_div(q_mul(q_int(2), rl), q_int(2)),
    );
    lemma_q_eq_trans(
        q_sub(chr_ut_raw(a, lp, rp), q_mul(a, chr_ux_raw(a, lp, rp))),
        q_div(q_mul(q_int(2), rl), q_int(2)),
        rl,
    );
    lemma_q_eq_trans(
        q_add(chr_ut_raw(a, lp, rp), q_mul(a, chr_ux_raw(a, lp, rp))),
        q_div(q_add(u5, q_mul(a, v5)), q_int(2)),
        q_div(q_mul(q_int(2), sr), q_int(2)),
    );
    lemma_q_eq_trans(
        q_add(chr_ut_raw(a, lp, rp), q_mul(a, chr_ux_raw(a, lp, rp))),
        q_div(q_mul(q_int(2), sr), q_int(2)),
        sr,
    );
}

/// Well-formedness of the raw interior formulas.
proof fn lemma_chr_raw_wf(a: Q, lp: QPoint, rp: QPoint)
    requires
        q_wf(a),
        a.n != 0,
        qp_wf(lp),
        qp_wf(rp),
    ensures
        q_wf(chr_ux_raw(a, lp, rp)),
        q_wf(chr_ut_raw(a, lp, rp)),
{
    lemma_q_ops_wf(lp.ut, a);
    lemma_q_ops_wf(rp.ut, a);
    lemma_q_ops_wf(lp.ux, q_div(lp.ut, a));
    lemma_q_ops_wf(q_sub(lp.ux, q_div(lp.ut, a)), rp.ux);
    lemma_q_ops_wf(q_add(q_sub(lp.ux, q_div(lp.ut, a)), rp.ux), q_div(rp.ut, a));
    lemma_q_ops_wf(q_add(q_add(q_sub(lp.ux, q_div(lp.ut, a)), rp.ux), q_div(rp.ut, a)), q_int(2));
    lemma_q_ops_wf(lp.ux, a);
    lemma_q_ops_wf(rp.ux, a);
    lemma_q_ops_wf(lp.ut, q_mul(lp.ux, a));
    lemma_q_ops_wf(q_sub(lp.ut, q_mul(lp.ux, a)), rp.ut);
    lemma_q_ops_wf(q_add(q_sub(lp.ut, q_mul(lp.ux, a)), rp.ut), q_mul(rp.ux, a));
    lemma_q_ops_wf(q_add(q_add(q_sub(lp.ut, q_mul(lp.ux, a)), rp.ut), q_mul(rp.ux, a)), q_int(2));
}

/// What the computed interior point denotes: exactly the raw formulas.
pub proof fn lemma_calc_point_value(a: Q, lp: QPoint, rp: QPoint, p: QPoint)
    requires
        q_wf(a),
        0 < a.d,
        a.n != 0,
        qp_wf(lp),
        qp_wf(rp),
        calc_point_spec(a, lp, rp) == Some(p),
    ensures
        q_eq(p.ux, chr_ux_raw(a, lp, rp)),
        q_eq(p.ut, chr_ut_raw(a, lp, rp)),
        qp_wf(p),
{
    let d1 = q_norm(q_div(lp.ut, a));
    let s1 = q_norm(q_sub(lp.ux, d1));
    let s2 = q_norm(q_add(s1, rp.ux));
    let d2 = q_norm(q_div(rp.ut, a));
    let s3 = q_norm(q_add(s2, d2));
    let ux = q_norm(q_div(s3, q_int(2)));
    assert(chr_ux_spec(a, lp, rp) == Some(ux));
    let m1 = q_norm(q_mul(lp.ux, a));
    let t1 = q_norm(q_sub(lp.ut, m1));
    let t2 = q_norm(q_add(t1, rp.ut));
    let m2 = q_norm(q_mul(rp.ux, a));
    let t3 = q_norm(q_add(t2, m2));
    let ut = q_norm(q_div(t3, q_int(2)));
    assert(chr_ut_spec(a, lp, rp) == Some(ut));
    lemma_chain_ux(a, lp, rp, d1, s1, s2, d2, s3, ux);
    lemma_chain_ut(a, lp, rp, m1, t1, t2, m2, t3, ut);
    lemma_q_ops_wf(t3, q_int(2));
    lemma_q_ops_wf(s3, q_int(2));
    lemma_q_norm(q_div(t3, q_int(2)));
    lemma_q_norm(q_div(s3, q_int(2)));
}

/// Characteristic conservation for one computed interior point: the quantity
/// `u_t - a * u_x` of the new point equals that of the old left neighbour,
/// and `u_t + a * u_x` equals that of the old right neighbour.
pub proof fn lemma_riemann_transport(a: Q, lp: QPoint, rp: QPoint, p: QPoint)
    requires
        q_wf(a),
        0 < a.d,
        a.n != 0,
        qp_wf(lp),
        qp_wf(rp),
        calc_point_spec(a, lp, rp) == Some(p),
    ensures
        q_eq(riemann_r(a, p), riemann_r(a, lp)),
        q_eq(riemann_s(a, p), riemann_s(a, rp)),
{
    lemma_calc_point_value(a, lp, rp, p);
    lemma_chr_raw_wf(a, lp, rp);
    lemma_riemann_core(a, lp, rp);
    lemma_q_ops_wf(a, p.ux);
    lemma_q_ops_wf(a, chr_ux_raw(a, lp, rp));
    lemma_q_mul_cong(a, p.ux, a, chr_ux_raw(a, lp, rp));
    lemma_q_ops_wf(p.ut, q_mul(a, p.ux));
    lemma_q_ops_wf(chr_ut_raw(a, lp, rp), q_mul(a, chr_ux_raw(a, lp, rp)));
    lemma_q_sub_cong(p.ut, q_mul(a, p.ux), chr_ut_raw(a, lp, rp), q_mul(a, chr_ux_raw(a, lp, rp)));
    lemma_q_add_cong(p.ut, q_mul(a, p.ux), chr_ut_raw(a, lp, rp), q_mul(a, chr_ux_raw(a, lp, rp)));
    lemma_q_ops_wf(lp.ut, q_mul(a, lp.ux));
    lemma_q_ops_wf(rp.ut, q_mul(a, rp.ux));
    lemma_q_eq_trans(
        riemann_r(a, p),
        q_sub(chr_ut_raw(a, lp, rp), q_mul(a, chr_ux_raw(a, lp, rp))),
        riemann_r(a, lp),
    );
    lemma_q_eq_trans(
        riemann_s(a, p),
        q_add(chr_ut_raw(a, lp, rp), q_mul(a, chr_ux_raw(a, lp, rp))),
        riemann_s(a, rp),
    );
}

/// The grid sizer is monotone in the ratio `l/a` and never under 257.
pub proof fn lemma_tab_size_monotone(a1: Q, l1: Q, a2: Q, l2: Q)
    requires
        0 < a1.d,
        0 < l1.d,
        0 < a2.d,
        0 < l2.d,
        q_pos(a1),
        q_pos(l1),
        q_pos(a2),
        q_pos(l2),
        q_le(q_div(l1, a1), q_div(l2, a2)),
    ensures
        257 <= spec_tab_size(a1, l1),
        spec_tab_size(a1, l1) <= spec_tab_size(a2, l2),
{
    lemma_q_num_pos(a1);
    lemma_q_num_pos(l1);
    lemma_q_num_pos(a2);
    lemma_q_num_pos(l2);
    let t1 = 120 * l1.n * a1.d;
    let d1 = l1.d * a1.n;
    let t2 = 120 * l2.n * a2.d;
    let d2 = l2.d * a2.n;
    lemma_pos_prod(l1.d, a1.n);
    lemma_pos_prod(l2.d, a2.n);
    assert(t1 > 0 && t2 > 0) by (nonlinear_arith)
        requires
            l1.n > 0,
            a1.d > 0,
            l2.n > 0,
            a2.d > 0,
            t1 == 120 * l1.n * a1.d,
            t2 == 120 * l2.n * a2.d,
    ;
    assert(t1 * d2 <= t2 * d1) by (nonlinear_arith)
        requires
            q_le(q_div(l1, a1), q_div(l2, a2)),
            0 < l1.d * a1.n,
            0 < l2.d * a2.n,
            t1 == 120 * l1.n * a1.d,
            d1 == l1.d * a1.n,
            t2 == 120 * l2.n * a2.d,
            d2 == l2.d * a2.n,
    ;
    let c1 = (t1 + d1 - 1) / d1;
    let c2 = (t2 + d2 - 1) / d2;
    lemma_fundamental_div_mod(t2 + d2 - 1, d2);
    assert(t2 <= c2 * d2) by (nonlinear_arith)
        requires
            t2 + d2 - 1 == d2 * c2 + (t2 + d2 - 1) % d2,
            (t2 + d2 - 1) % d2 < d2,
            d2 > 0,
    ;
    assert(t1 <= c2 * d1) by (nonlinear_arith)
        requires
            t1 * d2 <= t2 * d1,
            t2 <= c2 * d2,
            d1 > 0,
            d2 > 0,
            t1 > 0,
    ;
    lemma_div_is_ordered(t1 + d1 - 1, c2 * d1 + d1 - 1, d1);
    lemma_fundamental_div_mod(c2 * d1 + d1 - 1, d1);
    lemma_basic_div(d1 - 1, d1);
    assert((c2 * d1 + d1 - 1) / d1 == c2) by (nonlinear_arith)
        requires
            c2 * d1 + d1 - 1 == d1 * ((c2 * d1 + d1 - 1) / d1) + (c2 * d1 + d1 - 1) % d1,
            0 <= (c2 * d1 + d1 - 1) % d1 < d1,
            d1 > 0,
    ;
    assert(c1 <= c2);
}

} // verus!
