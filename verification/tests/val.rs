use dimval::dim::{BaseUnit, Dim};
use dimval::rat::Rat;
use dimval::unit::Unit;
use dimval::val::{Val, ValError};

fn meter_val(n: i128, d: i128) -> Val {
    Val::try_from(Rat::new(n, d), Unit::base(BaseUnit::Meter)).unwrap()
}

#[test]
fn create_val() {
    let val = meter_val(25, 10);
    assert_eq!(val.to_display_string(), "2.5 m");
}

#[test]
fn add_val_success() {
    let val1 = meter_val(9, 10);
    let val2 = meter_val(1, 10);
    assert_eq!(val1.add(&val2).unwrap().to_display_string(), "1 m");
}

#[test]
fn add_val_failure() {
    let val1 = meter_val(9, 10);
    let val2 = Val::try_from(Rat::new(1, 10), Unit::base(BaseUnit::Gram)).unwrap();
    assert_eq!(val1.add(&val2), Err(ValError::IncompatibleDimension));
    assert_eq!(val1.subtract(&val2), Err(ValError::IncompatibleDimension));
}

#[test]
fn scale_carry() {
    // 9 m + 2 m is 11 m: mantissa 1.1, exponent raised by one.
    let a = meter_val(9, 1);
    let b = meter_val(2, 1);
    let sum = a.add(&b).unwrap();
    assert_eq!(sum.num, Rat::new(11, 10));
    assert_eq!(sum.unit.exp, 1);
    assert_eq!(sum.to_display_string(), "11 m");
}

#[test]
fn zero_add() {
    // 0 m + 0 m keeps a zero mantissa and raises no scaling error.
    let a = meter_val(0, 1);
    let b = meter_val(0, 1);
    let sum = a.add(&b).unwrap();
    assert_eq!(sum.num.n, 0);
    assert_eq!(sum.to_display_string(), "0 m");
}

#[test]
fn pow_square() {
    // (2)^(2) on dimensionless operands: mantissa 4, exponent 0.
    let base = Val::empty(Rat::whole(2));
    let exp = Val::empty(Rat::whole(2));
    let r = base.pow(&exp).unwrap();
    assert_eq!(r.num, Rat::new(4, 1));
    assert_eq!(r.unit.exp, 0);
    assert_eq!(r.to_display_string(), "4");
}

#[test]
fn pow_negative_exponent() {
    let base = Val::empty(Rat::whole(2));
    let exp = Val::empty(Rat::whole(-2));
    let r = base.pow(&exp).unwrap();
    // 2^-2 is 1/4; canonicalized to 10/4 (that is 2.5) times 10^-1.
    assert_eq!(r.num, Rat::new(10, 4));
    assert_eq!(r.unit.exp, -1);
    assert_eq!(r.to_display_string(), "0.25");
}

#[test]
fn pow_fractional_rejected() {
    // The exact engine takes only whole effective powers; a fractional
    // one is a recoverable error.
    let base = Val::empty(Rat::new(2, 1));
    let exp = Val::empty(Rat::new(1, 2));
    assert_eq!(base.pow(&exp), Err(ValError::InvalidExponent));
}

#[test]
fn pow_dimensioned_fractional_rejected() {
    let base = Val::empty(Rat::new(2, 1));
    let exp = meter_val(1, 2);
    assert_eq!(base.pow(&exp), Err(ValError::InvalidExponent));
}

#[test]
fn pow_dimensioned_whole_mantissa() {
    // A dimensioned exponent with a whole mantissa is accepted.
    let base = Val::empty(Rat::new(3, 1));
    let exp = meter_val(2, 1);
    let r = base.pow(&exp).unwrap();
    assert_eq!(r.num, Rat::new(9, 1));
}

#[test]
fn multiply_units() {
    let a = meter_val(2, 1);
    let b = meter_val(3, 1);
    let prod = a.multiply(&b);
    assert_eq!(prod.num, Rat::new(6, 1));
    assert_eq!(prod.unit.desc, Dim { length: 2, mass: 0, time: 0 });
    assert_eq!(prod.to_display_string(), "6 m^2");
}

#[test]
fn divide_units() {
    let a = meter_val(6, 1);
    let b = Val::try_from(Rat::new(2, 1), Unit::base(BaseUnit::Second)).unwrap();
    let q = a.divide(&b);
    // 6/2 denotes 3 and already lies in [1,10).
    assert_eq!(q.num, Rat::new(6, 2));
    assert_eq!(q.unit.desc, Dim { length: 1, mass: 0, time: -1 });
    assert_eq!(q.to_display_string(), "3 m*s^-1");
}

#[test]
fn divide_thirds_exact() {
    // 1 / 3 is held exactly as a rational, not rounded.
    let a = Val::empty(Rat::new(1, 1));
    let b = Val::empty(Rat::new(3, 1));
    let q = a.divide(&b);
    assert_eq!(q.num, Rat::new(10, 3));
    assert_eq!(q.unit.exp, -1);
}

#[test]
fn clamp_idempotent() {
    // A value already in canonical form is returned unchanged.
    let v = meter_val(25, 10);
    assert_eq!(v.clamp_num(), v);
    let w = v.clamp_num();
    assert_eq!(w.clamp_num(), w);
}

#[test]
fn clamp_folds_orders_of_ten() {
    let v = meter_val(100, 1);
    let c = v.clamp_num();
    assert_eq!(c.num, Rat::new(1, 1));
    assert_eq!(c.unit.exp, 2);
}

#[test]
fn clamp_small_magnitude() {
    // A mantissa below one is scaled up and the exponent drops.
    let v = meter_val(9, 100);
    let c = v.clamp_num();
    assert_eq!(c.num, Rat::new(9, 1));
    assert_eq!(c.unit.exp, -2);
}

#[test]
fn add_commutes() {
    let a = meter_val(17, 10);
    let b = meter_val(55, 10);
    let r1 = a.add(&b).unwrap();
    let r2 = b.add(&a).unwrap();
    assert_eq!(r1.to_display_string(), r2.to_display_string());
    assert_eq!(r1.to_display_string(), "7.2 m");
}

#[test]
fn subtract_example() {
    let a = meter_val(1, 1);
    let b = meter_val(1, 10);
    let diff = a.subtract(&b).unwrap();
    assert_eq!(diff.num, Rat::new(9, 1));
    assert_eq!(diff.unit.exp, -1);
    assert_eq!(diff.to_display_string(), "0.9 m");
}

#[test]
fn subtract_below_zero() {
    let a = meter_val(1, 10);
    let b = meter_val(1, 1);
    let diff = a.subtract(&b).unwrap();
    assert_eq!(diff.to_display_string(), "-0.9 m");
}

#[test]
fn try_from_never_fails() {
    let r = Val::try_from(Rat::new(7, 2), Unit::base(BaseUnit::Second));
    assert!(r.is_ok());
}

#[test]
fn with_unit_keeps_mantissa() {
    let v = meter_val(25, 10);
    let w = v.with_unit(&Unit::base(BaseUnit::Second));
    assert_eq!(w.num, Rat::new(25, 10));
    assert_eq!(w.unit.desc, Dim { length: 1, mass: 0, time: 1 });
}

#[test]
fn unit_algebra() {
    let m = Unit::base(BaseUnit::Meter);
    let s = Unit::base(BaseUnit::Second);
    assert!(m.equal_dimension(&Unit::base(BaseUnit::Meter)));
    assert!(!m.equal_dimension(&s));
    let ms = m.multiply(s);
    assert_eq!(ms.desc, Dim { length: 1, mass: 0, time: 1 });
    let back = ms.divide(s);
    assert_eq!(back.desc, Dim { length: 1, mass: 0, time: 0 });
    let cube = m.pow(3);
    assert_eq!(cube.desc, Dim { length: 3, mass: 0, time: 0 });
    assert_eq!(Unit::empty().desc, Dim { length: 0, mass: 0, time: 0 });
}

#[test]
fn canonical_invariant_of_results() {
    // Non-zero results of every operation keep the mantissa's and the
    // multiplier's magnitude in [1,10).
    let cases = [
        meter_val(9, 1).add(&meter_val(2, 1)).unwrap(),
        meter_val(1, 1).subtract(&meter_val(1, 10)).unwrap(),
        meter_val(70, 1).multiply(&meter_val(80, 1)),
        meter_val(1, 1).divide(&meter_val(400, 1)),
        Val::empty(Rat::new(12, 1)).pow(&Val::empty(Rat::new(3, 1))).unwrap(),
    ];
    for v in cases.iter() {
        assert!(v.num.n != 0);
        let mag = if v.num.n < 0 { -v.num.n } else { v.num.n };
        assert!(v.num.d <= mag && mag < 10 * v.num.d);
        assert!(v.unit.mult.d <= v.unit.mult.n && v.unit.mult.n < 10 * v.unit.mult.d);
    }
}
