use uiua_native::analysis::error::{capitalize_first_letter, ErrorKind};
use uiua_native::analysis::impls::comparison::{
    equals, greater_or_equal, greater_than, less_or_equal, less_than, not_equals,
};
use uiua_native::analysis::impls::pervasive_dyadic::{
    pervasive_dyadic_rec, try_match_scalar_types, try_match_shapes_rec, try_match_types, ScalarTypeMatch, ShapeCheck,
    Side,
};
use uiua_native::analysis::impls::pervasive_monadic::{absolute_value, negate, pervasive_monadic, sign};
use uiua_native::mir::polynomial::Expr;
use uiua_native::tir::{ArrayInfo, ArrayValue, ScalarInfo, TirOp, ValueInfo};

fn int_info(v: i64) -> ValueInfo {
    ValueInfo::Scalar(ScalarInfo::Int(Some(v), false))
}

fn scalar_of(v: &ValueInfo) -> ScalarInfo {
    match v {
        ValueInfo::Scalar(s) => *s,
        _ => panic!("expected a scalar"),
    }
}

fn ranked(e: ValueInfo, shape: Vec<Expr>) -> ValueInfo {
    ValueInfo::Array(Box::new(ArrayInfo::Ranked { element_type: e, shape }))
}

fn known(e: ValueInfo, shape: Vec<usize>, data: Vec<ValueInfo>) -> ValueInfo {
    ValueInfo::Array(Box::new(ArrayInfo::Known { element_type: e, value: ArrayValue { shape, data } }))
}

#[test]
fn sign_of_each_kind() {
    assert!(matches!(scalar_of(&sign(&int_info(-7)).unwrap()), ScalarInfo::Int(Some(-1), false)));
    assert!(matches!(scalar_of(&sign(&int_info(0)).unwrap()), ScalarInfo::Int(Some(0), false)));
    let f = ValueInfo::Scalar(ScalarInfo::Float(Some((-2.5f64).to_bits())));
    assert!(matches!(scalar_of(&sign(&f).unwrap()), ScalarInfo::Int(Some(-1), false)));
    let c = ValueInfo::Scalar(ScalarInfo::Char(Some('A')));
    assert!(matches!(scalar_of(&sign(&c).unwrap()), ScalarInfo::Int(Some(1), false)));
    let c = ValueInfo::Scalar(ScalarInfo::Char(Some('a')));
    assert!(matches!(scalar_of(&sign(&c).unwrap()), ScalarInfo::Int(Some(-1), false)));
    let b = ValueInfo::Scalar(ScalarInfo::Bool(Some(true)));
    assert!(matches!(scalar_of(&sign(&b).unwrap()), ScalarInfo::Bool(Some(true))));
}

#[test]
fn sign_twice_is_sign_once() {
    for v in [int_info(-9), int_info(4), ValueInfo::Scalar(ScalarInfo::Char(Some('x'))), ValueInfo::Scalar(ScalarInfo::Float(Some(3.0f64.to_bits())))] {
        let once = sign(&v).unwrap();
        let twice = sign(&once).unwrap();
        assert!(matches!((scalar_of(&once), scalar_of(&twice)), (ScalarInfo::Int(a, x), ScalarInfo::Int(b, y)) if a == b && x == y));
    }
}

#[test]
fn negate_and_absolute_value() {
    assert!(matches!(scalar_of(&negate(&int_info(5)).unwrap()), ScalarInfo::Int(Some(-5), false)));
    let b = ValueInfo::Scalar(ScalarInfo::Bool(Some(true)));
    assert!(matches!(scalar_of(&negate(&b).unwrap()), ScalarInfo::Int(Some(-1), false)));
    let c = ValueInfo::Scalar(ScalarInfo::Char(Some('a')));
    assert!(matches!(scalar_of(&negate(&c).unwrap()), ScalarInfo::Char(Some('A'))));
    let f = ValueInfo::Scalar(ScalarInfo::Float(Some(1.25f64.to_bits())));
    assert!(matches!(scalar_of(&negate(&f).unwrap()), ScalarInfo::Float(Some(x)) if x == (-1.25f64).to_bits()));
    assert!(matches!(scalar_of(&absolute_value(&int_info(-5)).unwrap()), ScalarInfo::Int(Some(5), false)));
    assert!(matches!(scalar_of(&absolute_value(&c).unwrap()), ScalarInfo::Char(Some('A'))));
    let nf = ValueInfo::Scalar(ScalarInfo::Float(Some((-0.5f64).to_bits())));
    assert!(matches!(scalar_of(&absolute_value(&nf).unwrap()), ScalarInfo::Float(Some(x)) if x == 0.5f64.to_bits()));
}

#[test]
fn negating_numbers_twice_gives_them_back() {
    let v = known(int_info(0), vec![2], vec![int_info(3), int_info(-8)]);
    let back = negate(&negate(&v).unwrap()).unwrap();
    match &back {
        ValueInfo::Array(a) => match &**a {
            ArrayInfo::Known { value, .. } => {
                assert!(matches!(scalar_of(&value.data[0]), ScalarInfo::Int(Some(3), false)));
                assert!(matches!(scalar_of(&value.data[1]), ScalarInfo::Int(Some(-8), false)));
            }
            _ => panic!(),
        },
        _ => panic!(),
    }
}

#[test]
fn monadic_errors_pass_through() {
    let f = |s: ScalarInfo| match s {
        ScalarInfo::Char(_) => Err(ErrorKind::ExpectedNumber("not", "character".to_string())),
        other => Ok(other),
    };
    let c = ValueInfo::Scalar(ScalarInfo::Char(None));
    assert_eq!(pervasive_monadic(&c, &f).err(), Some(ErrorKind::ExpectedNumber("not", "character".to_string())));
    assert!(pervasive_monadic(&int_info(1), &f).is_ok());
}

#[test]
fn scalar_type_matching_and_its_symmetry() {
    match try_match_scalar_types(ScalarInfo::Bool(Some(true)), ScalarInfo::Int(None, false)) {
        ScalarTypeMatch::Matching(Side::Left, ScalarInfo::Bool(Some(true)), ScalarInfo::Int(Some(1), false)) => {}
        other => panic!("{other:?}"),
    }
    match try_match_scalar_types(ScalarInfo::Int(None, false), ScalarInfo::Bool(Some(true))) {
        ScalarTypeMatch::Matching(Side::Right, ScalarInfo::Bool(Some(true)), ScalarInfo::Int(Some(1), false)) => {}
        other => panic!("{other:?}"),
    }
    match try_match_scalar_types(ScalarInfo::Int(Some(3), false), ScalarInfo::Float(None)) {
        ScalarTypeMatch::Matching(Side::Left, _, ScalarInfo::Float(Some(b))) => assert_eq!(b, 3.0f64.to_bits()),
        other => panic!("{other:?}"),
    }
    assert!(matches!(try_match_scalar_types(ScalarInfo::Char(None), ScalarInfo::Int(None, false)), ScalarTypeMatch::Mismatched));
    assert!(matches!(try_match_scalar_types(ScalarInfo::Char(None), ScalarInfo::Char(Some('a'))), ScalarTypeMatch::Identical));
    assert_eq!(Side::Left.select(1, 2), 1);
    assert_eq!(Side::Right.place_first(1, 2), (2, 1));
}

#[test]
fn type_matching_casts_and_errors() {
    let b = ValueInfo::Scalar(ScalarInfo::Bool(None));
    let arr = ranked(int_info(1), vec![Expr::from_isize(2)]);
    // an array against a scalar: the scalar is cast, and it is on the right
    let c = try_match_types("add", &arr, &b).unwrap().unwrap();
    assert_eq!(c.side, Side::Right);
    assert!(matches!(c.op, TirOp::CastNum { from: ScalarInfo::Bool(None), to: ScalarInfo::Int(None, false) }));
    assert!(try_match_types("add", &int_info(1), &int_info(2)).unwrap().is_none());
    let ch = ValueInfo::Scalar(ScalarInfo::Char(None));
    assert_eq!(
        try_match_types("add", &arr, &ch).err(),
        Some(ErrorKind::IncompatibleTypes("add", "character".to_string(), "shape 2 array of integer".to_string()))
    );
    assert_eq!(
        try_match_types("add", &ch, &int_info(1)).err(),
        Some(ErrorKind::IncompatibleTypes("add", "character".to_string(), "integer".to_string()))
    );
}

#[test]
fn shape_matching() {
    let mut n: usize = 0;
    let x = Expr::new_var(&mut n);
    let l = ranked(int_info(1), vec![Expr::from_isize(3), x.duplicate()]);
    let r = ranked(int_info(1), vec![Expr::from_isize(3), Expr::from_isize(4)]);
    let checks = try_match_shapes_rec("add", &l, &r).unwrap();
    assert_eq!(checks.len(), 1);
    assert!(matches!(checks[0], ShapeCheck::One(Side::Left, TirOp::CheckAxis { depth: 0, ax_i: 1, length: 4 })));
    let r2 = ranked(int_info(1), vec![Expr::from_isize(5)]);
    assert_eq!(
        try_match_shapes_rec("add", &l, &r2).err(),
        Some(ErrorKind::IncompatibleShapes("shape 3×? array of integer".to_string(), "shape 5 array of integer".to_string()))
    );
    let y = Expr::new_var(&mut n);
    let r3 = ranked(int_info(1), vec![Expr::from_isize(1), y]);
    let checks = try_match_shapes_rec("add", &l, &r3).unwrap();
    assert_eq!(checks.len(), 1);
    assert!(matches!(checks[0], ShapeCheck::Both(TirOp::CheckAxes { lhs_depth: 0, lhs_ax_i: 1, rhs_depth: 0, rhs_ax_i: 1 })));
    let u = ValueInfo::Array(Box::new(ArrayInfo::Unranked { element_type: int_info(1), shape_prefix: vec![], shape_suffix: vec![] }));
    assert_eq!(try_match_shapes_rec("add", &l, &u).err(), Some(ErrorKind::Unranked("add")));
    assert!(try_match_shapes_rec("add", &int_info(1), &l).unwrap().is_empty());
}

#[test]
fn pervasive_dyadic_broadcasts_a_scalar() {
    let f = |a: ScalarInfo, b: ScalarInfo| match (a, b) {
        (ScalarInfo::Int(Some(x), _), ScalarInfo::Int(Some(y), _)) => Ok(ScalarInfo::Int(Some(x.wrapping_add(y)), false)),
        _ => Ok(ScalarInfo::Int(None, false)),
    };
    let arr = known(int_info(0), vec![2], vec![int_info(1), int_info(2)]);
    let out = pervasive_dyadic_rec(&arr, &int_info(10), &f).unwrap();
    match &out {
        ValueInfo::Array(a) => match &**a {
            ArrayInfo::Known { element_type, value } => {
                assert!(matches!(scalar_of(element_type), ScalarInfo::Int(Some(10), false)));
                assert!(matches!(scalar_of(&value.data[0]), ScalarInfo::Int(Some(11), false)));
                assert!(matches!(scalar_of(&value.data[1]), ScalarInfo::Int(Some(12), false)));
            }
            _ => panic!(),
        },
        _ => panic!(),
    }
}

#[test]
fn comparisons_of_scalars() {
    let b = |v: &ValueInfo| match v {
        ValueInfo::Scalar(ScalarInfo::Bool(x)) => *x,
        _ => panic!("expected a boolean"),
    };
    // "less than" holds when the right argument is less than the left one
    assert_eq!(b(&less_than(&int_info(2), &int_info(3)).unwrap().output), Some(false));
    assert_eq!(b(&less_than(&int_info(3), &int_info(2)).unwrap().output), Some(true));
    assert_eq!(b(&less_or_equal(&int_info(2), &int_info(2)).unwrap().output), Some(true));
    assert_eq!(b(&greater_than(&int_info(2), &int_info(3)).unwrap().output), Some(true));
    assert_eq!(b(&greater_or_equal(&int_info(3), &int_info(2)).unwrap().output), Some(false));
    assert_eq!(b(&equals(&int_info(2), &int_info(2)).unwrap().output), Some(true));
    assert_eq!(b(&not_equals(&int_info(2), &int_info(2)).unwrap().output), Some(false));
    let z = ValueInfo::Scalar(ScalarInfo::Float(Some(0.0f64.to_bits())));
    let nz = ValueInfo::Scalar(ScalarInfo::Float(Some((-0.0f64).to_bits())));
    assert_eq!(b(&equals(&z, &nz).unwrap().output), Some(true));
    let nan = ValueInfo::Scalar(ScalarInfo::Float(Some(f64::NAN.to_bits())));
    assert_eq!(b(&equals(&nan, &nan).unwrap().output), Some(false));
    assert_eq!(b(&not_equals(&nan, &nan).unwrap().output), Some(true));
    assert_eq!(b(&equals(&int_info(1), &ValueInfo::Scalar(ScalarInfo::Int(None, false))).unwrap().output), None);
    // a boolean is cast to an integer before comparing
    let t = ValueInfo::Scalar(ScalarInfo::Bool(Some(true)));
    let plan = equals(&t, &int_info(1)).unwrap();
    assert!(plan.cast.is_some());
    assert_eq!(b(&plan.output), Some(true));
    // characters cannot be compared with numbers
    let c = ValueInfo::Scalar(ScalarInfo::Char(Some('a')));
    assert_eq!(
        equals(&c, &int_info(1)).err(),
        Some(ErrorKind::IncompatibleTypes("equals", "character".to_string(), "integer".to_string()))
    );
}

#[test]
fn capitalizing_messages() {
    assert_eq!(capitalize_first_letter("could not"), "Could not");
    assert_eq!(capitalize_first_letter("Already"), "Already");
    assert_eq!(capitalize_first_letter(""), "");
    assert_eq!(capitalize_first_letter("ßig"), "SSig");
    assert_eq!(capitalize_first_letter("1abc"), "1abc");
}

#[test]
fn two_monadic_maps_compose() {
    let v = known(int_info(0), vec![3], vec![int_info(-4), int_info(0), int_info(9)]);
    let once = negate(&absolute_value(&v).unwrap()).unwrap();
    let direct = pervasive_monadic(&v, &|s: ScalarInfo| match s {
        ScalarInfo::Int(Some(x), inf) => Ok(ScalarInfo::Int(Some(-x.abs()), inf)),
        other => Ok(other),
    })
    .unwrap();
    assert_eq!(format!("{once:?}"), format!("{direct:?}"));
    let same = pervasive_monadic(&v, &|s: ScalarInfo| Ok(s)).unwrap();
    assert_eq!(format!("{same:?}"), format!("{v:?}"));
}
