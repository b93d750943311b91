use wavesim::rat::Rat;

#[test]
fn construction_reduces_to_lowest_terms() {
    let r = Rat::new(6, 4).unwrap();
    assert_eq!(r.num(), 3);
    assert_eq!(r.den(), 2);
    let r = Rat::new(1, -2).unwrap();
    assert_eq!(r.num(), -1);
    assert_eq!(r.den(), 2);
    let r = Rat::new(0, -7).unwrap();
    assert_eq!(r.num(), 0);
    assert_eq!(r.den(), 1);
    assert!(Rat::new(1, 0).is_none());
}

#[test]
fn exact_field_operations() {
    let half = Rat::new(1, 2).unwrap();
    let third = Rat::new(1, 3).unwrap();
    let s = half.plus(&third).unwrap();
    assert_eq!((s.num(), s.den()), (5, 6));
    let d = half.minus(&third).unwrap();
    assert_eq!((d.num(), d.den()), (1, 6));
    let p = half.times(&third).unwrap();
    assert_eq!((p.num(), p.den()), (1, 6));
    let q = half.div_by(&third).unwrap();
    assert_eq!((q.num(), q.den()), (3, 2));
    let n = half.neg();
    assert_eq!((n.num(), n.den()), (-1, 2));
    assert!(third.lt(&half));
    assert!(third.le(&half));
    assert!(!half.le(&third));
    assert!(half.eq_val(&Rat::new(2, 4).unwrap()));
}

#[test]
fn overflow_is_reported_not_wrapped() {
    let big = Rat::new(i64::MAX, 1).unwrap();
    assert!(big.plus(&Rat::from_int(1)).is_none());
    assert!(big.times(&big).is_none());
}
