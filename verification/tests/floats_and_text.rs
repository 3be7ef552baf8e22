use uiua_native::float::{float_equals, float_is_infinite, float_less, float_less_eq, float_whole, int_to_float};
use uiua_native::text::push_encoded;

#[test]
fn float_equality_follows_ieee() {
    assert!(float_equals(0.0f64.to_bits(), (-0.0f64).to_bits()));
    assert!(!float_equals(f64::NAN.to_bits(), f64::NAN.to_bits()));
    assert!(float_equals(1.5f64.to_bits(), 1.5f64.to_bits()));
    assert!(!float_equals(1.5f64.to_bits(), 2.5f64.to_bits()));
    assert!(float_is_infinite(f64::INFINITY.to_bits()));
    assert!(float_is_infinite(f64::NEG_INFINITY.to_bits()));
    assert!(!float_is_infinite(f64::NAN.to_bits()));
}

#[test]
fn float_order_follows_ieee() {
    let b = |x: f64| x.to_bits();
    assert!(float_less(b(-3.0), b(-2.0)));
    assert!(float_less(b(-1.0), b(0.5)));
    assert!(!float_less(b(0.0), b(-0.0)));
    assert!(float_less_eq(b(0.0), b(-0.0)));
    assert!(!float_less(b(f64::NAN), b(1.0)));
    assert!(!float_less_eq(b(1.0), b(f64::NAN)));
    assert!(float_less(b(1.0), b(f64::INFINITY)));
    assert!(float_less(b(f64::NEG_INFINITY), b(-1e300)));
}

#[test]
fn integers_as_doubles_round_to_nearest() {
    for i in [0i64, 1, -1, 3, 1 << 53, (1 << 53) + 1, i64::MAX, i64::MIN, -123456789] {
        assert_eq!(int_to_float(i), (i as f64).to_bits(), "{i}");
    }
}

#[test]
fn whole_doubles() {
    let b = |x: f64| x.to_bits();
    assert_eq!(float_whole(b(0.0)), Some(0));
    assert_eq!(float_whole(b(42.0)), Some(42));
    assert_eq!(float_whole(b(-7.0)), Some(-7));
    assert_eq!(float_whole(b(0.5)), None);
    assert_eq!(float_whole(b(9007199254740991.0)), Some(9007199254740991));
    assert_eq!(float_whole(b(9007199254740992.0)), None);
    assert_eq!(float_whole(b(f64::INFINITY)), None);
    assert_eq!(float_whole(b(f64::NAN)), None);
}

#[test]
fn encoding_digits() {
    let mut s = String::from("n=");
    push_encoded(&mut s, 2024, &['0', '1', '2', '3', '4', '5', '6', '7', '8', '9']);
    assert_eq!(s, "n=2024");
    let mut t = String::new();
    push_encoded(&mut t, 0, &['⁰', '¹', '²', '³', '⁴', '⁵', '⁶', '⁷', '⁸', '⁹']);
    assert_eq!(t, "⁰");
}
