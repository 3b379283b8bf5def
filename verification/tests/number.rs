use s2_tiler::number::Real;

fn num(v: f64) -> Real {
    Real::from_bits(v.to_bits())
}

fn value(r: Real) -> f64 {
    f64::from_bits(r.to_bits())
}

#[test]
fn order_agrees_with_floats() {
    let values = [
        f64::NEG_INFINITY,
        f64::MIN,
        -2.5,
        -f64::MIN_POSITIVE,
        -0.0,
        0.0,
        1e-300,
        1.0,
        3.25,
        f64::MAX,
        f64::INFINITY,
        f64::NAN,
    ];
    for a in values {
        for b in values {
            assert_eq!(num(a).lt(&num(b)), a < b);
            assert_eq!(num(a).le(&num(b)), a <= b);
        }
        assert_eq!(num(a).is_nan(), a.is_nan());
    }
}

#[test]
fn max_and_min_prefer_numbers() {
    assert_eq!(value(num(2.0).max(&num(-3.0))), 2.0);
    assert_eq!(value(num(2.0).min(&num(-3.0))), -3.0);
    assert_eq!(value(num(f64::NAN).max(&num(1.0))), 1.0);
    assert_eq!(value(num(1.0).min(&num(f64::NAN))), 1.0);
    assert!(num(f64::NAN).max(&num(f64::NAN)).is_nan());
}

#[test]
fn abs_drops_the_sign() {
    assert_eq!(value(num(-10.0).abs()), 10.0);
    assert_eq!(value(num(10.0).abs()), 10.0);
    assert_eq!(num(-0.0).abs().to_bits(), 0);
}

#[test]
fn zeros_are_of_one_rank() {
    assert_eq!(num(-0.0).order(), num(0.0).order());
    assert!(num(-1.0).order() < num(0.0).order());
}
