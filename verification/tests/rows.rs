use uiua_native::analysis::error::ErrorKind;
use uiua_native::analysis::impls::mapping_mod::{plan_rows, row_outputs, with_prepended_first_axis, RowCheck};
use uiua_native::mir::polynomial::Expr;
use uiua_native::tir::{ArrayInfo, ArrayValue, ScalarInfo, ValueInfo};

fn int_info() -> ValueInfo {
    ValueInfo::Scalar(ScalarInfo::Int(None, false))
}

fn ranked(shape: Vec<Expr>) -> ValueInfo {
    ValueInfo::Array(Box::new(ArrayInfo::Ranked { element_type: int_info(), shape }))
}

fn known(shape: Vec<usize>) -> ValueInfo {
    let n: usize = shape.iter().product();
    let data = (0..n).map(|_| ValueInfo::Scalar(ScalarInfo::Int(Some(1), false))).collect();
    ValueInfo::Array(Box::new(ArrayInfo::Known { element_type: int_info(), value: ArrayValue { shape, data } }))
}

#[test]
fn constant_row_counts_agree_or_fail() {
    let p = plan_rows(&vec![known(vec![3, 2]), ranked(vec![Expr::from_usize(3)])]).unwrap();
    let (n, i) = p.count.unwrap();
    assert_eq!(n.as_const(), Some(3));
    assert_eq!(i, 0);
    assert!(p.checks.is_empty());
    assert!(matches!(&p.rows[0], ValueInfo::Array(a) if matches!(&**a, ArrayInfo::Ranked { shape, .. } if shape.len() == 1 && shape[0].as_const() == Some(2))));
    assert!(matches!(p.rows[1], ValueInfo::Scalar(ScalarInfo::Int(None, false))));
    let err = plan_rows(&vec![known(vec![3]), int_info(), known(vec![4])]).err();
    assert_eq!(err, Some(ErrorKind::MismatchedRowCounts(3, 0, 4, 2)));
    // a count of one agrees with any other
    let p = plan_rows(&vec![known(vec![1]), known(vec![5])]).unwrap();
    assert_eq!(p.count.unwrap().0.as_const(), Some(5));
}

#[test]
fn unknown_row_counts_are_checked() {
    let mut nv: usize = 0;
    let x = Expr::new_var(&mut nv);
    let y = Expr::new_var(&mut nv);
    // an unknown count takes over from a constant other than one, unchecked
    let p = plan_rows(&vec![ranked(vec![x.duplicate()]), known(vec![4])]).unwrap();
    assert!(p.checks.is_empty());
    assert_eq!(p.count.unwrap().1, 0);
    let p = plan_rows(&vec![known(vec![4]), ranked(vec![x.duplicate()])]).unwrap();
    assert!(p.checks.is_empty());
    assert_eq!(p.count.unwrap().1, 1);
    // a constant count of one is kept, and the unknown axis checked to be one
    let p = plan_rows(&vec![ranked(vec![x.duplicate()]), known(vec![1])]).unwrap();
    assert!(matches!(p.checks[..], [RowCheck::Axis { input: 0, length: 1 }]));
    let (n, i) = p.count.unwrap();
    assert_eq!((n.as_const(), i), (Some(1), 1));
    let p = plan_rows(&vec![ranked(vec![x.duplicate()]), ranked(vec![y.duplicate()])]).unwrap();
    assert!(matches!(p.checks[..], [RowCheck::Axes { lhs: 0, rhs: 1 }]));
    let p = plan_rows(&vec![ranked(vec![x.duplicate()]), ranked(vec![x.duplicate()])]).unwrap();
    assert!(p.checks.is_empty());
}

#[test]
fn unranked_arguments_are_refused() {
    let u = ValueInfo::Array(Box::new(ArrayInfo::Unranked { element_type: int_info(), shape_prefix: vec![], shape_suffix: vec![] }));
    assert_eq!(plan_rows(&vec![u]).err(), Some(ErrorKind::Unranked("rows")));
    let p = plan_rows(&vec![int_info()]).unwrap();
    assert!(p.count.is_none());
}

#[test]
fn outputs_get_the_row_axis_back() {
    let p = plan_rows(&vec![known(vec![3, 2])]).unwrap();
    let outs = row_outputs(&p, &vec![int_info(), ranked(vec![Expr::from_usize(7)])]);
    assert!(matches!(&outs[0], ValueInfo::Array(a) if matches!(&**a, ArrayInfo::Ranked { shape, .. } if shape.len() == 1 && shape[0].as_const() == Some(3))));
    assert!(matches!(&outs[1], ValueInfo::Array(a) if matches!(&**a, ArrayInfo::Ranked { shape, .. } if shape.len() == 2 && shape[0].as_const() == Some(3) && shape[1].as_const() == Some(7))));
    let back = with_prepended_first_axis(&p.rows[0], &Expr::from_usize(3));
    assert!(matches!(&back, ValueInfo::Array(a) if matches!(&**a, ArrayInfo::Ranked { shape, .. } if shape.len() == 2 && shape[1].as_const() == Some(2))));
}
