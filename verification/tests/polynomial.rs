use std::collections::HashMap;
use uiua_native::mir::polynomial::{encode_num, Expr};

#[test]
fn new_var_counts_up_and_never_repeats() {
    let mut n: usize = 0;
    let x0 = Expr::new_var(&mut n);
    let x1 = Expr::new_var(&mut n);
    assert_eq!(n, 2);
    assert_eq!(x0.as_single_var(), Some(0));
    assert_eq!(x1.as_single_var(), Some(1));
    assert!(!x0.equals(&x1));
    assert_eq!(x0.to_string(), "x₀");
    assert_eq!(x1.to_string(), "x₁");
}

#[test]
fn constants_read_back() {
    assert_eq!(Expr::from_isize(7).as_const(), Some(7));
    assert_eq!(Expr::from_isize(0).as_const(), Some(0));
    assert_eq!(Expr::from_usize(12).as_const(), Some(12));
    assert_eq!(Expr::zero().as_const(), Some(0));
    let mut n: usize = 0;
    assert_eq!(Expr::new_var(&mut n).as_const(), None);
    assert_eq!(Expr::from_isize(3).as_single_var(), None);
}

#[test]
fn sum_difference_and_product() {
    let mut n: usize = 0;
    let x = Expr::new_var(&mut n);
    let y = Expr::new_var(&mut n);
    let s = x.duplicate().add(y.duplicate());
    let t = y.duplicate().add(x.duplicate());
    assert!(s.equals(&t));
    assert_eq!(s.to_string(), "x₁ + x₀");
    let d = s.duplicate().sub(t.duplicate());
    assert_eq!(d.as_const(), Some(0));
    let p = x.duplicate().mul(x.duplicate()).mul(Expr::from_isize(3));
    assert_eq!(p.to_string(), "3x₀²");
    let q = x.duplicate().add(Expr::from_isize(1)).pow(2);
    // (x + 1)^2 = 1 + 2x + x^2; a coefficient is written only above one,
    // so the constant term 1 shows as nothing
    assert_eq!(q.to_string(), " + 2x₀ + x₀²");
    let c = Expr::product(vec![Expr::from_isize(2), Expr::from_isize(3), Expr::from_isize(7)]);
    assert_eq!(c.as_const(), Some(42));
}

#[test]
fn coefficient_written_only_above_one() {
    assert_eq!(Expr::from_isize(4).to_string(), "4");
    assert_eq!(Expr::from_isize(1).to_string(), "");
    assert_eq!(Expr::from_isize(-4).to_string(), "");
    let mut n: usize = 0;
    let x = Expr::new_var(&mut n);
    let e = Expr::zero().sub(x.duplicate().mul(Expr::from_isize(2)));
    assert_eq!(e.to_string(), "x₀");
    let f = Expr::zero().sub(x.duplicate());
    assert_eq!(f.to_string(), "x₀");
    let g = x.duplicate().mul(Expr::from_isize(12));
    assert_eq!(g.to_string(), "12x₀");
}

#[test]
fn subtracting_itself_is_zero() {
    let mut n: usize = 0;
    let x = Expr::new_var(&mut n);
    let e = x.duplicate().mul(Expr::from_isize(5)).add(Expr::from_isize(4));
    let z = e.duplicate().sub(e.duplicate());
    assert_eq!(z.as_const(), Some(0));
    assert_eq!(z.to_string(), "");
}

#[test]
fn encode_num_uses_the_digit_characters() {
    let sub = ['₀', '₁', '₂', '₃', '₄', '₅', '₆', '₇', '₈', '₉'];
    assert_eq!(encode_num(105, &sub), "₁₀₅");
    assert_eq!(encode_num(0, &sub), "₀");
}

#[test]
fn instantiate_vars_substitutes_and_freshens() {
    // x0 * x1 + 2 with x0 := 5 and x1 unknown: x1 becomes a fresh variable
    let mut n: usize = 0;
    let x0 = Expr::new_var(&mut n);
    let x1 = Expr::new_var(&mut n);
    let e = x0.duplicate().mul(x1.duplicate()).add(Expr::from_isize(2));
    let mut cache: HashMap<usize, Expr> = HashMap::new();
    cache.insert(0, Expr::from_isize(5));
    let mut fresh: usize = 10;
    let r = e.instantiate_vars(&mut cache, &mut fresh);
    assert_eq!(fresh, 11);
    assert_eq!(cache.get(&1).and_then(|v| v.as_single_var()), Some(10));
    assert_eq!(r.to_string(), "2 + 5x₁₀");
    // the same variable is replaced alike the second time
    let r2 = x1.instantiate_vars(&mut cache, &mut fresh);
    assert_eq!(fresh, 11);
    assert_eq!(r2.as_single_var(), Some(10));
}

#[test]
fn a_fresh_variable_is_absent_from_older_expressions() {
    let mut n: usize = 0;
    let x = Expr::new_var(&mut n);
    let e = x.duplicate().mul(x.duplicate()).add(Expr::from_isize(3));
    let y = Expr::new_var(&mut n);
    let d = e.duplicate().sub(y.duplicate()).add(y.duplicate());
    assert!(d.equals(&e));
    assert!(!e.duplicate().add(y.duplicate()).equals(&e));
}
