use uiua_native::analysis::{UValue, UiuaValueError};
use uiua_native::mir::polynomial::Expr;
use uiua_native::tir::{
    demote_known_shape, fmt_shape, scalar_supertype, ArrayInfo, ArrayValue, MapInfo, ScalarInfo, ValueInfo,
};

fn int_info(v: i64) -> ValueInfo {
    ValueInfo::Scalar(ScalarInfo::Int(Some(v), false))
}

fn ranked(e: ValueInfo, shape: Vec<Expr>) -> ValueInfo {
    ValueInfo::Array(Box::new(ArrayInfo::Ranked { element_type: e, shape }))
}

fn known(e: ValueInfo, shape: Vec<usize>, data: Vec<ValueInfo>) -> ValueInfo {
    ValueInfo::Array(Box::new(ArrayInfo::Known { element_type: e, value: ArrayValue { shape, data } }))
}

fn is_int(v: &ValueInfo, x: Option<i64>, inf: bool) -> bool {
    matches!(v, ValueInfo::Scalar(ScalarInfo::Int(a, b)) if *a == x && *b == inf)
}

#[test]
fn fmt_shape_writes_unknown_axes_as_question_marks() {
    let mut n: usize = 0;
    let shape = vec![Expr::from_isize(3), Expr::new_var(&mut n), Expr::from_isize(2)];
    assert_eq!(fmt_shape(&shape), "3×?×2");
    assert_eq!(fmt_shape(&[]), "");
    assert_eq!(fmt_shape(&[Expr::from_isize(-4)]), "-4");
}

#[test]
fn demote_known_shape_gives_constant_axes() {
    let s = demote_known_shape(&[2, 0, 5]);
    let c: Vec<Option<isize>> = s.iter().map(|e| e.as_const()).collect();
    assert_eq!(c, vec![Some(2), Some(0), Some(5)]);
}

#[test]
fn type_labels() {
    assert_eq!(ScalarInfo::Bool(None).type_label(), "boolean");
    assert_eq!(ScalarInfo::Int(None, false).type_label(), "integer");
    assert_eq!(ScalarInfo::Int(None, true).type_label(), "integer-or-infinity");
    assert_eq!(ScalarInfo::Float(None).type_label(), "float");
    assert_eq!(ScalarInfo::Char(None).type_label(), "character");
    let k = known(ValueInfo::Scalar(ScalarInfo::Bool(None)), vec![2, 3], vec![]);
    assert_eq!(k.type_label(), "shape 2×3 array of boolean");
    let mut n: usize = 0;
    let r = ranked(ValueInfo::Scalar(ScalarInfo::Float(None)), vec![Expr::from_isize(2), Expr::new_var(&mut n)]);
    assert_eq!(r.type_label(), "shape 2×? array of float");
    let u = ValueInfo::Array(Box::new(ArrayInfo::Unranked {
        element_type: ValueInfo::Scalar(ScalarInfo::Char(None)),
        shape_prefix: vec![],
        shape_suffix: vec![],
    }));
    assert_eq!(u.type_label(), "array of character");
    let m = ValueInfo::Mapping(Box::new(MapInfo { key_type: int_info(1), value_type: ValueInfo::Scalar(ScalarInfo::Bool(None)) }));
    assert_eq!(m.type_label(), "map from integer to boolean");
}

#[test]
fn scalar_supertypes() {
    let r = scalar_supertype(ScalarInfo::Int(Some(2), false), ScalarInfo::Int(Some(3), true));
    assert!(matches!(r, Some(ScalarInfo::Int(None, true))));
    let r = scalar_supertype(ScalarInfo::Bool(Some(true)), ScalarInfo::Int(Some(1), false));
    assert!(matches!(r, Some(ScalarInfo::Int(Some(1), false))));
    let r = scalar_supertype(ScalarInfo::Int(Some(2), false), ScalarInfo::Float(Some(2.0f64.to_bits())));
    assert!(matches!(r, Some(ScalarInfo::Float(Some(b))) if b == 2.0f64.to_bits()));
    assert!(scalar_supertype(ScalarInfo::Char(None), ScalarInfo::Int(None, false)).is_none());
    // commutes
    let a = scalar_supertype(ScalarInfo::Float(Some(1.5f64.to_bits())), ScalarInfo::Bool(Some(true)));
    let b = scalar_supertype(ScalarInfo::Bool(Some(true)), ScalarInfo::Float(Some(1.5f64.to_bits())));
    assert!(matches!((a, b), (Some(ScalarInfo::Float(None)), Some(ScalarInfo::Float(None)))));
}

#[test]
fn supertype_of_known_arrays_with_different_shapes_is_ranked() {
    let a = known(int_info(1), vec![2], vec![int_info(1), int_info(2)]);
    let b = known(int_info(1), vec![3], vec![int_info(1), int_info(2), int_info(3)]);
    let mut n: usize = 0;
    let s = a.supertype(&b, &mut n).unwrap();
    assert_eq!(n, 1);
    match &s {
        ValueInfo::Array(arr) => match &**arr {
            ArrayInfo::Ranked { element_type, shape } => {
                assert!(is_int(element_type, Some(1), false));
                assert_eq!(shape.len(), 1);
                assert_eq!(shape[0].as_single_var(), Some(0));
            }
            _ => panic!("expected a ranked array"),
        },
        _ => panic!("expected an array"),
    }
    // equal known arrays stay known
    let c = a.supertype(&a.duplicate(), &mut n).unwrap();
    assert!(matches!(&c, ValueInfo::Array(arr) if matches!(&**arr, ArrayInfo::Known { .. })));
    assert!(int_info(1).supertype(&a, &mut n).is_none());
}

#[test]
fn a_value_matches_its_own_call_supertype() {
    let mut n: usize = 0;
    let x = Expr::new_var(&mut n);
    let v = ranked(int_info(4), vec![Expr::from_isize(3), x]);
    let (f, substs) = v.func_supertype(&mut n).unwrap();
    assert_eq!(n, 2);
    assert_eq!(substs.len(), 1);
    assert_eq!(substs[0].0, 1);
    assert_eq!(substs[0].1.as_single_var(), Some(0));
    let m = v.match_monomorphization(&f).unwrap();
    assert_eq!(m.len(), 1);
    assert_eq!(m[0].0, 1);
    assert!(m[0].1.equals(&substs[0].1));
    // a known value does not match a function made for another known value
    assert!(int_info(3).match_monomorphization(&int_info(4)).is_none());
    assert!(int_info(3).match_monomorphization(&ValueInfo::Scalar(ScalarInfo::Int(None, false))).is_some());
    // an unranked array has no call supertype
    let u = ValueInfo::Array(Box::new(ArrayInfo::Unranked { element_type: int_info(1), shape_prefix: vec![], shape_suffix: vec![] }));
    assert!(u.func_supertype(&mut n).is_none());
}

#[test]
fn array_accessors() {
    let k = known(ValueInfo::Scalar(ScalarInfo::Char(None)), vec![2], vec![]);
    assert!(matches!(k.scalar_type(), Some(ScalarInfo::Char(None))));
    match &k {
        ValueInfo::Array(a) => {
            assert!(matches!(a.element_type(), ValueInfo::Scalar(ScalarInfo::Char(None))));
            let s = a.sym_shape().unwrap();
            assert_eq!(s.len(), 1);
            assert_eq!(s[0].as_const(), Some(2));
        }
        _ => panic!(),
    }
    let mut m = ValueInfo::Mapping(Box::new(MapInfo { key_type: int_info(1), value_type: int_info(2) }));
    if let Some(s) = m.scalar_type_mut() {
        *s = ScalarInfo::Float(None);
    }
    assert!(matches!(m.scalar_type(), Some(ScalarInfo::Float(None))));
}

#[test]
fn typing_constants() {
    let mut n: usize = 0;
    assert!(matches!(ValueInfo::try_from(&UValue::Byte(0), &mut n), Ok(ValueInfo::Scalar(ScalarInfo::Bool(Some(false))))));
    assert!(matches!(ValueInfo::try_from(&UValue::Byte(1), &mut n), Ok(ValueInfo::Scalar(ScalarInfo::Bool(Some(true))))));
    assert!(matches!(ValueInfo::try_from(&UValue::Byte(7), &mut n), Ok(ValueInfo::Scalar(ScalarInfo::Int(Some(7), false)))));
    assert!(matches!(ValueInfo::try_from(&UValue::Num(1.0f64.to_bits()), &mut n), Ok(ValueInfo::Scalar(ScalarInfo::Bool(Some(true))))));
    assert!(matches!(ValueInfo::try_from(&UValue::Num((-0.0f64).to_bits()), &mut n), Ok(ValueInfo::Scalar(ScalarInfo::Bool(Some(false))))));
    assert!(matches!(ValueInfo::try_from(&UValue::Num((-12.0f64).to_bits()), &mut n), Ok(ValueInfo::Scalar(ScalarInfo::Int(Some(-12), false)))));
    let half = 2.5f64.to_bits();
    assert!(matches!(ValueInfo::try_from(&UValue::Num(half), &mut n), Ok(ValueInfo::Scalar(ScalarInfo::Float(Some(b)))) if b == half));
    assert!(matches!(ValueInfo::try_from(&UValue::Num(f64::INFINITY.to_bits()), &mut n), Ok(ValueInfo::Scalar(ScalarInfo::Int(Some(i64::MAX), true)))));
    assert!(matches!(ValueInfo::try_from(&UValue::Num(f64::NEG_INFINITY.to_bits()), &mut n), Ok(ValueInfo::Scalar(ScalarInfo::Int(Some(v), true))) if v == i64::MIN + 1));
    let big = 2.0f64.powi(60).to_bits();
    assert!(matches!(ValueInfo::try_from(&UValue::Num(big), &mut n), Ok(ValueInfo::Scalar(ScalarInfo::Float(Some(b)))) if b == big));
    assert!(matches!(ValueInfo::try_from(&UValue::Char('q'), &mut n), Ok(ValueInfo::Scalar(ScalarInfo::Char(Some('q'))))));
    assert!(matches!(ValueInfo::try_from(&UValue::Boxed(Box::new(UValue::Byte(9))), &mut n), Ok(ValueInfo::Scalar(ScalarInfo::Int(Some(9), false)))));
}

#[test]
fn typing_arrays_widens_scalars_to_the_element_type() {
    let mut n: usize = 0;
    let v = UValue::Array(vec![3], vec![UValue::Byte(0), UValue::Byte(1), UValue::Byte(2)]);
    let t = ValueInfo::try_from(&v, &mut n).unwrap();
    match &t {
        ValueInfo::Array(a) => match &**a {
            ArrayInfo::Known { element_type, value } => {
                assert!(is_int(element_type, None, false));
                assert_eq!(value.shape, vec![3]);
                assert!(is_int(&value.data[0], Some(0), false));
                assert!(is_int(&value.data[1], Some(1), false));
                assert!(is_int(&value.data[2], Some(2), false));
            }
            _ => panic!(),
        },
        _ => panic!(),
    }
    assert_eq!(t.type_label(), "shape 3 array of integer");
}

#[test]
fn typing_arrays_without_a_common_type_fails() {
    let mut n: usize = 0;
    let empty = UValue::Array(vec![0], vec![]);
    assert_eq!(ValueInfo::try_from(&empty, &mut n).err(), Some(UiuaValueError::NoArrayType));
    let mixed = UValue::Array(vec![2], vec![UValue::Char('a'), UValue::Byte(3)]);
    assert_eq!(ValueInfo::try_from(&mixed, &mut n).err(), Some(UiuaValueError::NoArrayType));
    assert_eq!(UiuaValueError::NoArrayType.message(), "Could not infer array type");
}

#[test]
fn supertype_axes_are_shared_or_fresh() {
    let mut n: usize = 0;
    let x0 = Expr::new_var(&mut n);
    let a = ranked(int_info(1), vec![x0.duplicate(), Expr::from_isize(3)]);
    let b = ranked(int_info(1), vec![x0.duplicate(), Expr::from_isize(4)]);
    let s = a.supertype(&b, &mut n).unwrap();
    assert_eq!(n, 2);
    match &s {
        ValueInfo::Array(arr) => match &**arr {
            ArrayInfo::Ranked { shape, .. } => {
                assert_eq!(shape.len(), 2);
                // the shared axis is kept
                assert!(shape[0].equals(&x0));
                // the other is a new variable, none of the inputs' axes
                assert_eq!(shape[1].as_single_var(), Some(1));
                assert!(!shape[1].equals(&x0));
                assert_eq!(shape[1].as_const(), None);
            }
            _ => panic!("expected a ranked array"),
        },
        _ => panic!("expected an array"),
    }
}
