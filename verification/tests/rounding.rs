use uiua_native::analysis::error::ErrorKind;
use uiua_native::analysis::impls::pervasive_monadic::{ceiling, floor, round};
use uiua_native::float::{float_to_whole, Rounding};
use uiua_native::tir::{ArrayInfo, ArrayValue, ScalarInfo, ValueInfo};

fn float_info(x: f64) -> ValueInfo {
    ValueInfo::Scalar(ScalarInfo::Float(Some(x.to_bits())))
}

fn scalar_of(v: &ValueInfo) -> ScalarInfo {
    match v {
        ValueInfo::Scalar(s) => *s,
        _ => panic!("expected a scalar"),
    }
}

fn cast_like_std(x: f64) -> i64 {
    let i = x as i64;
    if x == f64::NEG_INFINITY {
        i + 1
    } else {
        i
    }
}

fn samples() -> Vec<f64> {
    let mut v = vec![
        0.0, -0.0, 0.5, -0.5, 1.5, -1.5, 2.5, -2.5, 0.49999999999999994, -0.49999999999999994, 1.0, -1.0,
        3.7, -3.7, 1e-300, -1e-300, 5e-324, -5e-324, 4503599627370495.5, -4503599627370495.5,
        4503599627370497.0, 9007199254740993.0, 1e18, -1e18, 9.223372036854775e18, -9.223372036854775e18,
        9.223372036854776e18, -9.223372036854776e18, 1e19, -1e19, 1e300, -1e300, f64::MAX, f64::MIN,
        f64::INFINITY, f64::NEG_INFINITY, f64::NAN, 123456.789, -123456.789, 0.75, -0.75,
    ];
    let mut x = 1.0e-5f64;
    while x < 1.0e20 {
        v.push(x);
        v.push(-x);
        v.push(x * 1.37);
        v.push(-x * 2.61);
        x *= 3.3;
    }
    v
}

#[test]
fn whole_numbers_agree_with_std() {
    for x in samples() {
        assert_eq!(float_to_whole(x.to_bits(), Rounding::TowardZero), cast_like_std(x.trunc()), "trunc {x}");
        assert_eq!(float_to_whole(x.to_bits(), Rounding::Floor), cast_like_std(x.floor()), "floor {x}");
        assert_eq!(float_to_whole(x.to_bits(), Rounding::Ceiling), cast_like_std(x.ceil()), "ceil {x}");
        assert_eq!(float_to_whole(x.to_bits(), Rounding::Nearest), cast_like_std(x.round()), "round {x}");
    }
}

#[test]
fn float_to_int_casts_toward_zero() {
    assert_eq!(ScalarInfo::float_to_int(Some((-1.9f64).to_bits())), (Some(-1), false));
    assert_eq!(ScalarInfo::float_to_int(Some(2.9f64.to_bits())), (Some(2), false));
    assert_eq!(ScalarInfo::float_to_int(Some(f64::INFINITY.to_bits())), (Some(i64::MAX), true));
    assert_eq!(ScalarInfo::float_to_int(Some(f64::NEG_INFINITY.to_bits())), (Some(i64::MIN + 1), true));
    assert_eq!(ScalarInfo::float_to_int(Some(f64::NAN.to_bits())), (Some(0), false));
    assert_eq!(ScalarInfo::float_to_int(None), (None, true));
}

#[test]
fn map_inf_keeps_infinities() {
    assert_eq!(ScalarInfo::map_inf(Some(4), true, |i| 1 - i), Some(-3));
    assert_eq!(ScalarInfo::map_inf(Some(i64::MAX), true, |i| 1 - i), Some(i64::MAX));
    assert_eq!(ScalarInfo::map_inf(Some(i64::MIN + 1), true, |i| 1 - i), Some(i64::MIN + 1));
    assert_eq!(ScalarInfo::map_inf(Some(i64::MAX - 1), false, |i| 1 - i), Some(2 - i64::MAX));
    assert_eq!(ScalarInfo::map_inf(None, true, |i| 1 - i), None);
}

#[test]
fn floor_ceiling_and_round_of_scalars() {
    assert!(matches!(scalar_of(&floor(&float_info(-1.5)).unwrap()), ScalarInfo::Int(Some(-2), false)));
    assert!(matches!(scalar_of(&ceiling(&float_info(-1.5)).unwrap()), ScalarInfo::Int(Some(-1), false)));
    assert!(matches!(scalar_of(&round(&float_info(-1.5)).unwrap()), ScalarInfo::Int(Some(-2), false)));
    assert!(matches!(scalar_of(&round(&float_info(2.5)).unwrap()), ScalarInfo::Int(Some(3), false)));
    assert!(matches!(scalar_of(&floor(&float_info(f64::NEG_INFINITY)).unwrap()), ScalarInfo::Int(Some(v), true) if v == i64::MIN + 1));
    assert!(matches!(scalar_of(&ceiling(&float_info(1e300)).unwrap()), ScalarInfo::Int(Some(i64::MAX), false)));
    let unknown = ValueInfo::Scalar(ScalarInfo::Float(None));
    assert!(matches!(scalar_of(&floor(&unknown).unwrap()), ScalarInfo::Int(None, true)));
    let i = ValueInfo::Scalar(ScalarInfo::Int(Some(7), true));
    assert!(matches!(scalar_of(&round(&i).unwrap()), ScalarInfo::Int(Some(7), true)));
    let b = ValueInfo::Scalar(ScalarInfo::Bool(Some(false)));
    assert!(matches!(scalar_of(&ceiling(&b).unwrap()), ScalarInfo::Bool(Some(false))));
}

#[test]
fn rounding_refuses_characters() {
    let c = ValueInfo::Scalar(ScalarInfo::Char(Some('a')));
    assert_eq!(floor(&c).err(), Some(ErrorKind::ExpectedNumber("floor", "character".to_string())));
    assert_eq!(ceiling(&c).err(), Some(ErrorKind::ExpectedNumber("ceiling", "character".to_string())));
    assert_eq!(round(&c).err(), Some(ErrorKind::ExpectedNumber("round", "character".to_string())));
}

#[test]
fn rounding_twice_is_rounding_once() {
    let v = ValueInfo::Array(Box::new(ArrayInfo::Known {
        element_type: ValueInfo::Scalar(ScalarInfo::Float(None)),
        value: ArrayValue { shape: vec![2], data: vec![float_info(0.5), float_info(-7.25)] },
    }));
    let once = round(&v).unwrap();
    let twice = round(&once).unwrap();
    assert_eq!(format!("{once:?}"), format!("{twice:?}"));
    assert!(format!("{once:?}").contains("Int(Some(-7), false)"));
}
