use wavesim::engine::{calc_tabulation_size, Renderer, UDiff, UDiffType};
use wavesim::func::{AffineFn, ConstFn};
use wavesim::rat::Rat;

fn rat(n: i64, d: i64) -> Rat {
    Rat::new(n, d).unwrap()
}

#[test]
fn grid_sizer_floor_and_formula() {
    // 120 * l/a small: the 257 floor wins
    let n = calc_tabulation_size(&rat(2, 1), &rat(1, 1)).unwrap();
    assert_eq!(n, 257);
    let n = calc_tabulation_size(&rat(1, 1), &rat(1, 1)).unwrap();
    assert_eq!(n, 257);
    // 120 * 10 / 1 = 1200, so ceil + 1 = 1201
    let n = calc_tabulation_size(&rat(1, 1), &rat(10, 1)).unwrap();
    assert_eq!(n, 1201);
    // a fractional ratio: 120 * (7/3) = 280, + 1
    let n = calc_tabulation_size(&rat(3, 1), &rat(7, 1)).unwrap();
    assert_eq!(n, 281);
}

#[test]
fn non_positive_parameters_are_rejected() {
    let zero = ConstFn::new(Rat::from_int(0));
    let left = UDiff::new(UDiffType::Ut, zero);
    let right = UDiff::new(UDiffType::Ut, zero);
    assert!(Renderer::new(left, right, zero, zero, Rat::from_int(-1), rat(1, 1)).is_none());
    let left = UDiff::new(UDiffType::Ut, zero);
    let right = UDiff::new(UDiffType::Ut, zero);
    assert!(Renderer::new(left, right, zero, zero, rat(1, 1), Rat::from_int(0)).is_none());
}

fn steady_state() -> Renderer<ConstFn> {
    // a = 2, l = 1: n = 257, dt = 2*1/(2*256) = 1/256
    let zero = ConstFn::new(Rat::from_int(0));
    let one = ConstFn::new(Rat::from_int(1));
    let left = UDiff::new(UDiffType::Ut, zero);
    let right = UDiff::new(UDiffType::Ut, zero);
    Renderer::new(left, right, one, zero, rat(2, 1), rat(1, 1)).unwrap()
}

#[test]
fn step_length_is_exact() {
    let r = steady_state();
    let dt = r.step_dt().unwrap();
    assert_eq!((dt.num(), dt.den()), (1, 256));
}

#[test]
fn advance_counts_whole_steps_and_keeps_remainder() {
    // dt = 3.4 * step = 17/1280: exactly 3 steps, remainder 0.4 * step = 1/640
    let mut r = steady_state();
    let k = r.advance(&rat(17, 1280)).unwrap();
    assert_eq!(k, 3);
    let rem = r.rem_time();
    assert_eq!((rem.num(), rem.den()), (1, 640));
    let t = r.cur_time();
    assert_eq!((t.num(), t.den()), (3, 256));
    assert_eq!(r.len(), 257);
}

#[test]
fn advance_below_one_step_does_nothing() {
    let mut r = steady_state();
    let k = r.advance(&rat(1, 1000)).unwrap();
    assert_eq!(k, 0);
    let t = r.cur_time();
    assert_eq!(t.num(), 0);
}

#[test]
fn constant_state_is_a_fixed_point() {
    // constant boundary data equal to the initial derivatives: stepping
    // leaves every sample exactly unchanged
    let mut r = steady_state();
    let k = r.advance(&rat(5, 256)).unwrap();
    assert_eq!(k, 5);
    for i in [0usize, 1, 128, 255, 256] {
        let p = r.point(i);
        assert_eq!((p.u_t.num(), p.u_t.den()), (0, 1));
        assert_eq!((p.u_x.num(), p.u_x.den()), (1, 1));
    }
}

#[test]
fn boundary_time_derivative_is_met_exactly() {
    // left end prescribes u_t(t) = t; after one step u_t at the end is the
    // new clock value exactly
    let zero = AffineFn::new(Rat::from_int(0), Rat::from_int(0));
    let ramp = AffineFn::new(Rat::from_int(0), Rat::from_int(1));
    let left = UDiff::new(UDiffType::Ut, ramp);
    let right = UDiff::new(UDiffType::Ut, zero);
    let mut r = Renderer::new(left, right, zero, zero, rat(2, 1), rat(1, 1)).unwrap();
    let k = r.advance(&rat(1, 256)).unwrap();
    assert_eq!(k, 1);
    let p = r.point(0);
    assert_eq!((p.u_t.num(), p.u_t.den()), (1, 256));
}

#[test]
fn boundary_space_derivative_is_met_exactly() {
    let zero = AffineFn::new(Rat::from_int(0), Rat::from_int(0));
    let ramp = AffineFn::new(Rat::from_int(0), Rat::from_int(1));
    let left = UDiff::new(UDiffType::Ux, ramp);
    let right = UDiff::new(UDiffType::Ut, zero);
    let mut r = Renderer::new(left, right, zero, zero, rat(2, 1), rat(1, 1)).unwrap();
    assert!(r.advance(&rat(1, 256)).is_some());
    let p = r.point(0);
    assert_eq!((p.u_x.num(), p.u_x.den()), (1, 256));
}

#[test]
fn interior_update_transports_characteristics() {
    // initial u_x(x) = x, u_t = 0, a = 2, l = 1, n = 257, dx = 1/256:
    // after one step an interior point i has
    //   u_t' = (x_{i+1} - x_{i-1}) = 1/128,  u_x' = (x_{i-1} + x_{i+1})/2 = x_i
    let zero = AffineFn::new(Rat::from_int(0), Rat::from_int(0));
    let slope = AffineFn::new(Rat::from_int(0), Rat::from_int(1));
    let left = UDiff::new(UDiffType::Ut, zero);
    let right = UDiff::new(UDiffType::Ut, zero);
    let mut r = Renderer::new(left, right, slope, zero, rat(2, 1), rat(1, 1)).unwrap();
    assert!(r.advance(&rat(1, 256)).is_some());
    let p = r.point(128);
    assert_eq!((p.u_t.num(), p.u_t.den()), (1, 128));
    assert_eq!((p.u_x.num(), p.u_x.den()), (1, 2));
    // the right-moving invariant u_t - a*u_x now equals the old one at 127:
    // 1/128 - 2 * 1/2 == 0 - 2 * 127/256
    let a = rat(2, 1);
    let lhs = p.u_t.minus(&a.times(&p.u_x).unwrap()).unwrap();
    assert_eq!((lhs.num(), lhs.den()), (-127, 128));
}

#[test]
fn reset_regenerates_the_grid() {
    let mut r = steady_state();
    let zero = ConstFn::new(Rat::from_int(0));
    assert!(r.reset(zero, zero, rat(1, 1), rat(10, 1)));
    assert_eq!(r.len(), 1201);
    assert!(!r.reset(zero, zero, Rat::from_int(-2), rat(10, 1)));
    assert_eq!(r.len(), 1201);
}

#[test]
fn boundary_setters_take_effect_on_later_steps() {
    let mut r = steady_state();
    r.set_left_ty(UDiffType::Ux);
    r.set_left_func(ConstFn::new(rat(1, 1)));
    assert!(r.advance(&rat(1, 256)).is_some());
    let p = r.point(0);
    assert_eq!((p.u_x.num(), p.u_x.den()), (1, 1));
}
