//! The pervasive dyadic primitives as a whole, and the comparisons.
use vstd::prelude::*;

use crate::analysis::error::ErrorKind;
use crate::analysis::impls::pervasive_dyadic::{
    dmap, dy_all, dy_fails, dy_mapped, dy_sup, lemma_dy_all_true, lemma_dy_all_weaken, lemma_dy_fails_kind,
    lemma_dy_mapped_all, lemma_dy_mapped_det, ok2_of, on_side, pervasive_dyadic_rec, pre2_of, shape_checks,
    try_match_shapes_rec, try_match_types, type_match, ShapeCheck, ShapeResult, Side, TypeCast, TypeMatch,
};
use crate::float::{float_eq, float_equals, float_le, float_less, float_less_eq, float_lt, is_nan, lemma_order_key_sign};
use crate::analysis::impls::pervasive_monadic::float_sign;
use crate::tir::{scalar_name, vinfo, with_scalar, ScalarInfo, TirOp, VInfo, ValueInfo};
use vstd::string::StringExecFns;

verus! {

/// The argument types after the cast that type matching asks for.
pub open spec fn cast_infos(l: VInfo, r: VInfo) -> (VInfo, VInfo) {
    match type_match(l, r) {
        TypeMatch::Cast(Side::Left, _, to) => (with_scalar(l, to), r),
        TypeMatch::Cast(Side::Right, _, to) => (l, with_scalar(r, to)),
        _ => (l, r),
    }
}

/// What a pervasive dyadic primitive adds before its node: a cast of one
/// argument if their types need one, the shape checks; and the type of its
/// output.
pub struct DyadicPlan {
    pub cast: Option<TypeCast>,
    pub checks: Vec<ShapeCheck>,
    pub output: ValueInfo,
}

/// Whether the analysis has a rule for a pervasive dyadic primitive on
/// these argument types: types it can match, and, when they match, shapes
/// it can match and a supported combination of the two.
pub open spec fn dyadic_defined(l: VInfo, r: VInfo) -> bool {
    let (l2, r2) = cast_infos(l, r);
    &&& !(type_match(l, r) is Unsupported)
    &&& !(type_match(l, r) is Mismatch) ==> !(shape_checks(l2, r2) is Stuck)
    &&& !(type_match(l, r) is Mismatch) && shape_checks(l2, r2) is Checks ==> dy_sup(l2, r2)
}

/// What typing a pervasive dyadic primitive named `name` with the scalar
/// function `f` gives: the error of type matching, else that of shape
/// matching, else the cast, the checks and the output type that `f` gives
/// pair by pair (or an error it gives).
pub open spec fn dyadic_post<F: Fn(ScalarInfo, ScalarInfo) -> Result<ScalarInfo, ErrorKind>>(
    lhs: ValueInfo,
    rhs: ValueInfo,
    name: &'static str,
    f: F,
    res: Result<DyadicPlan, ErrorKind>,
) -> bool {
    let l = vinfo(lhs);
    let r = vinfo(rhs);
    let (l2, r2) = cast_infos(l, r);
    &&& type_match(l, r) matches TypeMatch::Mismatch(a, b) ==> (res matches Err(ErrorKind::IncompatibleTypes(n, x, y))
        && n == name && x@ == a && y@ == b)
    &&& !(type_match(l, r) is Mismatch) ==> {
        &&& shape_checks(l2, r2) is Unranked ==> res == Err::<DyadicPlan, ErrorKind>(ErrorKind::Unranked(name))
        &&& shape_checks(l2, r2) matches ShapeResult::Incompatible(a, b) ==> (res matches Err(
            ErrorKind::IncompatibleShapes(x, y),
        ) && x@ == a && y@ == b)
        &&& shape_checks(l2, r2) matches ShapeResult::Checks(cs) ==> {
            &&& res matches Ok(plan) ==> plan.checks@ == cs && dy_mapped(f, l2, r2, vinfo(plan.output))
            &&& res matches Err(e) ==> dy_fails(f, l2, r2, e)
            &&& dy_all(l2, r2, ok2_of(f)) ==> res is Ok
        }
    }
    &&& res matches Ok(plan) ==> (type_match(l, r) is Same ==> plan.cast is None)
    &&& res matches Ok(plan) ==> (type_match(l, r) matches TypeMatch::Cast(side, from, to) ==> plan.cast matches Some(c)
        && c.side == side && c.op == (TirOp::CastNum { from, to }) && vinfo(c.info) == with_scalar(
        vinfo(on_side(side, lhs, rhs)),
        to,
    ))
}

/// Types a pervasive dyadic primitive: the argument types are brought to one
/// scalar kind, their shapes are matched, and `scalar_func` meets their
/// scalars pairwise.
pub fn pervasive_dyadic<F: Fn(ScalarInfo, ScalarInfo) -> Result<ScalarInfo, ErrorKind>>(
    func_name: &'static str,
    lhs_info: &ValueInfo,
    rhs_info: &ValueInfo,
    scalar_func: &F,
) -> (r: Result<DyadicPlan, ErrorKind>)
    requires
        dyadic_defined(vinfo(*lhs_info), vinfo(*rhs_info)),
        dy_all(
            cast_infos(vinfo(*lhs_info), vinfo(*rhs_info)).0,
            cast_infos(vinfo(*lhs_info), vinfo(*rhs_info)).1,
            pre2_of(*scalar_func),
        ),
    ensures
        dyadic_post(*lhs_info, *rhs_info, func_name, *scalar_func, r),
{
    let cast = match try_match_types(func_name, lhs_info, rhs_info) {
        Ok(c) => c,
        Err(e) => return Err(e),
    };
    let (l2, r2) = match &cast {
        Some(c) => match c.side {
            Side::Left => (c.info.duplicate(), rhs_info.duplicate()),
            Side::Right => (lhs_info.duplicate(), c.info.duplicate()),
        },
        None => (lhs_info.duplicate(), rhs_info.duplicate()),
    };
    assert((vinfo(l2), vinfo(r2)) == cast_infos(vinfo(*lhs_info), vinfo(*rhs_info)));
    let checks = match try_match_shapes_rec(func_name, &l2, &r2) {
        Ok(c) => c,
        Err(e) => return Err(e),
    };
    let output = match pervasive_dyadic_rec(&l2, &r2, scalar_func) {
        Ok(o) => o,
        Err(e) => return Err(e),
    };
    Ok(DyadicPlan { cast, checks, output })
}

/// The comparisons of the language.
#[derive(Clone, Copy, Debug, PartialEq, Eq)]
pub enum Comparison {
    Equals,
    NotEquals,
    LessThan,
    LessOrEqual,
    GreaterThan,
    GreaterOrEqual,
}

/// The name of a comparison, as shown in error messages.
pub open spec fn comparison_name(op: Comparison) -> Seq<char> {
    match op {
        Comparison::Equals => "equals"@,
        Comparison::NotEquals => "not equals"@,
        Comparison::LessThan => "less than"@,
        Comparison::LessOrEqual => "less or equal"@,
        Comparison::GreaterThan => "greater than"@,
        Comparison::GreaterOrEqual => "greater or equal"@,
    }
}

/// A comparison of two known values of one kind, the left argument first.
/// As in the language, "less than" holds when the right argument is less
/// than the left one; booleans order false before true, characters by code
/// point, and floats as IEEE numbers.
pub open spec fn compares(op: Comparison, eq: bool, lt: bool, gt: bool) -> bool {
    match op {
        Comparison::Equals => eq,
        Comparison::NotEquals => !eq,
        Comparison::LessThan => gt,
        Comparison::LessOrEqual => gt || eq,
        Comparison::GreaterThan => lt,
        Comparison::GreaterOrEqual => lt || eq,
    }
}

/// The type of comparing two scalars of one kind: a boolean, known when both
/// values are; `None` for scalars of two kinds.
pub open spec fn compare_info(op: Comparison, l: ScalarInfo, r: ScalarInfo) -> Option<ScalarInfo> {
    match (l, r) {
        (ScalarInfo::Bool(a), ScalarInfo::Bool(b)) => Some(
            ScalarInfo::Bool(
                match (a, b) {
                    (Some(x), Some(y)) => Some(compares(op, x == y, !x && y, x && !y)),
                    _ => None,
                },
            ),
        ),
        (ScalarInfo::Int(a, _), ScalarInfo::Int(b, _)) => Some(
            ScalarInfo::Bool(
                match (a, b) {
                    (Some(x), Some(y)) => Some(compares(op, x == y, x < y, x > y)),
                    _ => None,
                },
            ),
        ),
        (ScalarInfo::Float(a), ScalarInfo::Float(b)) => Some(
            ScalarInfo::Bool(
                match (a, b) {
                    (Some(x), Some(y)) => Some(
                        match op {
                            Comparison::Equals => float_eq(x, y),
                            Comparison::NotEquals => !float_eq(x, y),
                            Comparison::LessThan => float_lt(y, x),
                            Comparison::LessOrEqual => float_le(y, x),
                            Comparison::GreaterThan => float_lt(x, y),
                            Comparison::GreaterOrEqual => float_le(x, y),
                        },
                    ),
                    _ => None,
                },
            ),
        ),
        (ScalarInfo::Char(a), ScalarInfo::Char(b)) => Some(
            ScalarInfo::Bool(
                match (a, b) {
                    (Some(x), Some(y)) => Some(compares(op, x == y, (x as u32) < (y as u32), (x as u32) > (y as u32))),
                    _ => None,
                },
            ),
        ),
        _ => None,
    }
}

/// What comparing two scalars gives: their type, or the error naming the
/// comparison and the two scalar types.
pub open spec fn compare_ok(op: Comparison, l: ScalarInfo, r: ScalarInfo, res: Result<ScalarInfo, ErrorKind>) -> bool {
    match compare_info(op, l, r) {
        Some(s) => res == Ok::<ScalarInfo, ErrorKind>(s),
        None => res matches Err(ErrorKind::IncompatibleTypes(n, a, b)) && n@ == comparison_name(op) && a@ == scalar_name(
            l,
        ) && b@ == scalar_name(r),
    }
}

fn comparison_label(op: Comparison) -> (r: &'static str)
    ensures
        r@ == comparison_name(op),
{
    match op {
        Comparison::Equals => "equals",
        Comparison::NotEquals => "not equals",
        Comparison::LessThan => "less than",
        Comparison::LessOrEqual => "less or equal",
        Comparison::GreaterThan => "greater than",
        Comparison::GreaterOrEqual => "greater or equal",
    }
}

fn pick(op: Comparison, eq: bool, lt: bool, gt: bool) -> (r: bool)
    ensures
        r == compares(op, eq, lt, gt),
{
    match op {
        Comparison::Equals => eq,
        Comparison::NotEquals => !eq,
        Comparison::LessThan => gt,
        Comparison::LessOrEqual => gt || eq,
        Comparison::GreaterThan => lt,
        Comparison::GreaterOrEqual => lt || eq,
    }
}

/// Compares two scalars.
fn compare_scalars(op: Comparison, l: ScalarInfo, r: ScalarInfo) -> (res: Result<ScalarInfo, ErrorKind>)
    ensures
        compare_ok(op, l, r, res),
{
    match (l, r) {
        (ScalarInfo::Bool(a), ScalarInfo::Bool(b)) => Ok(
            ScalarInfo::Bool(
                match (a, b) {
                    (Some(x), Some(y)) => Some(pick(op, x == y, !x && y, x && !y)),
                    _ => None,
                },
            ),
        ),
        (ScalarInfo::Int(a, _), ScalarInfo::Int(b, _)) => Ok(
            ScalarInfo::Bool(
                match (a, b) {
                    (Some(x), Some(y)) => Some(pick(op, x == y, x < y, x > y)),
                    _ => None,
                },
            ),
        ),
        (ScalarInfo::Float(a), ScalarInfo::Float(b)) => Ok(
            ScalarInfo::Bool(
                match (a, b) {
                    (Some(x), Some(y)) => Some(
                        match op {
                            Comparison::Equals => float_equals(x, y),
                            Comparison::NotEquals => !float_equals(x, y),
                            Comparison::LessThan => float_less(y, x),
                            Comparison::LessOrEqual => float_less_eq(y, x),
                            Comparison::GreaterThan => float_less(x, y),
                            Comparison::GreaterOrEqual => float_less_eq(x, y),
                        },
                    ),
                    _ => None,
                },
            ),
        ),
        (ScalarInfo::Char(a), ScalarInfo::Char(b)) => Ok(
            ScalarInfo::Bool(
                match (a, b) {
                    (Some(x), Some(y)) => Some(pick(op, x == y, (x as u32) < (y as u32), (x as u32) > (y as u32))),
                    _ => None,
                },
            ),
        ),
        _ => Err(
            ErrorKind::IncompatibleTypes(
                comparison_label(op),
                String::from_str(l.type_label()),
                String::from_str(r.type_label()),
            ),
        ),
    }
}



/// The boolean that comparing two scalars of one kind gives.
pub open spec fn compare_map(op: Comparison) -> spec_fn(ScalarInfo, ScalarInfo) -> ScalarInfo {
    |x: ScalarInfo, y: ScalarInfo| compare_info(op, x, y)->Some_0
}

/// Whether two scalars are of one kind, so that they can be compared.
pub open spec fn comparable(op: Comparison) -> spec_fn(ScalarInfo, ScalarInfo) -> bool {
    |x: ScalarInfo, y: ScalarInfo| compare_info(op, x, y) is Some
}

/// What typing a comparison gives: the error of type matching, else that of
/// shape matching, else the cast, the checks and the output type, a boolean
/// for each pair of scalars met, when every pair is of one kind, and else an
/// error naming the comparison and two types.
pub open spec fn comparison_post(op: Comparison, lhs: ValueInfo, rhs: ValueInfo, res: Result<DyadicPlan, ErrorKind>) -> bool {
    let l = vinfo(lhs);
    let r = vinfo(rhs);
    let (l2, r2) = cast_infos(l, r);
    &&& type_match(l, r) matches TypeMatch::Mismatch(a, b) ==> (res matches Err(ErrorKind::IncompatibleTypes(n, x, y))
        && n@ == comparison_name(op) && x@ == a && y@ == b)
    &&& !(type_match(l, r) is Mismatch) ==> {
        &&& shape_checks(l2, r2) is Unranked ==> (res matches Err(ErrorKind::Unranked(n)) && n@ == comparison_name(op))
        &&& shape_checks(l2, r2) matches ShapeResult::Incompatible(a, b) ==> (res matches Err(
            ErrorKind::IncompatibleShapes(x, y),
        ) && x@ == a && y@ == b)
        &&& shape_checks(l2, r2) matches ShapeResult::Checks(cs) ==> {
            &&& res is Ok <==> dy_all(l2, r2, comparable(op))
            &&& res matches Ok(plan) ==> plan.checks@ == cs && vinfo(plan.output) == dmap(l2, r2, compare_map(op))
            &&& res matches Err(e) ==> (e matches ErrorKind::IncompatibleTypes(n, _, _) && n@ == comparison_name(op))
        }
    }
    &&& res matches Ok(plan) ==> (type_match(l, r) is Same ==> plan.cast is None)
    &&& res matches Ok(plan) ==> (type_match(l, r) matches TypeMatch::Cast(side, from, to) ==> plan.cast matches Some(c)
        && c.side == side && c.op == (TirOp::CastNum { from, to }) && vinfo(c.info) == with_scalar(
        vinfo(on_side(side, lhs, rhs)),
        to,
    ))
}

/// Types a comparison.
pub(crate) fn comparison(op: Comparison, lhs_info: &ValueInfo, rhs_info: &ValueInfo) -> (r: Result<DyadicPlan, ErrorKind>)
    requires
        dyadic_defined(vinfo(*lhs_info), vinfo(*rhs_info)),
    ensures
        comparison_post(op, *lhs_info, *rhs_info, r),
{
    let f = |x: ScalarInfo, y: ScalarInfo| -> (res: Result<ScalarInfo, ErrorKind>)
        ensures
            compare_ok(op, x, y, res),
        { compare_scalars(op, x, y) };
    let ghost l2 = cast_infos(vinfo(*lhs_info), vinfo(*rhs_info)).0;
    let ghost r2 = cast_infos(vinfo(*lhs_info), vinfo(*rhs_info)).1;
    proof {
        lemma_dy_all_true(l2, r2, pre2_of(f));
        assert forall|x: ScalarInfo, y: ScalarInfo, z: ScalarInfo| #[trigger] call_ensures(f, (x, y), Ok::<ScalarInfo, ErrorKind>(z))
            implies z == compare_map(op)(x, y) && comparable(op)(x, y) by {}
        assert forall|x: ScalarInfo, y: ScalarInfo| #[trigger] comparable(op)(x, y) implies ok2_of(f)(x, y) by {}
    }
    let name = comparison_label(op);
    let r = pervasive_dyadic(name, lhs_info, rhs_info, &f);
    proof {
        if !(type_match(vinfo(*lhs_info), vinfo(*rhs_info)) is Mismatch) && shape_checks(l2, r2) is Checks {
            match &r {
                Ok(plan) => {
                    lemma_dy_mapped_det(f, compare_map(op), l2, r2, vinfo(plan.output));
                    lemma_dy_mapped_all(f, comparable(op), l2, r2, vinfo(plan.output));
                },
                Err(e) => {
                    let h = |e2: ErrorKind| e2 matches ErrorKind::IncompatibleTypes(n, _, _) && n@ == comparison_name(op);
                    assert forall|x: ScalarInfo, y: ScalarInfo, e2: ErrorKind| #[trigger] call_ensures(f, (x, y), Err::<ScalarInfo, ErrorKind>(e2))
                        implies h(e2) by {}
                    lemma_dy_fails_kind(f, h, l2, r2, *e);
                    if dy_all(l2, r2, comparable(op)) {
                        lemma_dy_all_weaken(l2, r2, comparable(op), ok2_of(f));
                    }
                },
            }
        }
    }
    r
}

/// Types the comparison that tells whether the arguments are equal: a boolean for each pair of
/// scalars, known where both are.
pub fn equals(lhs_info: &ValueInfo, rhs_info: &ValueInfo) -> (r: Result<DyadicPlan, ErrorKind>)
    requires
        dyadic_defined(vinfo(*lhs_info), vinfo(*rhs_info)),
    ensures
        comparison_post(Comparison::Equals, *lhs_info, *rhs_info, r),
{
    comparison(Comparison::Equals, lhs_info, rhs_info)
}

/// Types the comparison that tells whether the arguments differ: a boolean for each pair of
/// scalars, known where both are.
pub fn not_equals(lhs_info: &ValueInfo, rhs_info: &ValueInfo) -> (r: Result<DyadicPlan, ErrorKind>)
    requires
        dyadic_defined(vinfo(*lhs_info), vinfo(*rhs_info)),
    ensures
        comparison_post(Comparison::NotEquals, *lhs_info, *rhs_info, r),
{
    comparison(Comparison::NotEquals, lhs_info, rhs_info)
}

/// Types the comparison that tells whether the right argument is less than the left one: a boolean for each pair of
/// scalars, known where both are.
pub fn less_than(lhs_info: &ValueInfo, rhs_info: &ValueInfo) -> (r: Result<DyadicPlan, ErrorKind>)
    requires
        dyadic_defined(vinfo(*lhs_info), vinfo(*rhs_info)),
    ensures
        comparison_post(Comparison::LessThan, *lhs_info, *rhs_info, r),
{
    comparison(Comparison::LessThan, lhs_info, rhs_info)
}

/// Types the comparison that tells whether the right argument is at most the left one: a boolean for each pair of
/// scalars, known where both are.
pub fn less_or_equal(lhs_info: &ValueInfo, rhs_info: &ValueInfo) -> (r: Result<DyadicPlan, ErrorKind>)
    requires
        dyadic_defined(vinfo(*lhs_info), vinfo(*rhs_info)),
    ensures
        comparison_post(Comparison::LessOrEqual, *lhs_info, *rhs_info, r),
{
    comparison(Comparison::LessOrEqual, lhs_info, rhs_info)
}

/// Types the comparison that tells whether the right argument is greater than the left one: a boolean for each pair of
/// scalars, known where both are.
pub fn greater_than(lhs_info: &ValueInfo, rhs_info: &ValueInfo) -> (r: Result<DyadicPlan, ErrorKind>)
    requires
        dyadic_defined(vinfo(*lhs_info), vinfo(*rhs_info)),
    ensures
        comparison_post(Comparison::GreaterThan, *lhs_info, *rhs_info, r),
{
    comparison(Comparison::GreaterThan, lhs_info, rhs_info)
}

/// Types the comparison that tells whether the right argument is at least the left one: a boolean for each pair of
/// scalars, known where both are.
pub fn greater_or_equal(lhs_info: &ValueInfo, rhs_info: &ValueInfo) -> (r: Result<DyadicPlan, ErrorKind>)
    requires
        dyadic_defined(vinfo(*lhs_info), vinfo(*rhs_info)),
    ensures
        comparison_post(Comparison::GreaterOrEqual, *lhs_info, *rhs_info, r),
{
    comparison(Comparison::GreaterOrEqual, lhs_info, rhs_info)
}


/// Whether comparison `op` holds between two numbers, the left one `x` and
/// the right one `y`, as the language reads it: "less than" asks whether
/// the right argument is less than the left one, and so on.
pub open spec fn holds_between(op: Comparison, x: int, y: int) -> bool {
    match op {
        Comparison::Equals => x == y,
        Comparison::NotEquals => x != y,
        Comparison::LessThan => y < x,
        Comparison::LessOrEqual => y <= x,
        Comparison::GreaterThan => y > x,
        Comparison::GreaterOrEqual => y >= x,
    }
}

/// The number a boolean stands for when ordered: false before true.
pub open spec fn bool_num(b: bool) -> int {
    if b {
        1
    } else {
        0
    }
}

/// Comparing two known integers gives, with no cast and no check, the
/// boolean that the comparison has between the two numbers.
pub proof fn lemma_compare_ints(op: Comparison, x: i64, xi: bool, y: i64, yi: bool, res: Result<DyadicPlan, ErrorKind>)
    requires
        comparison_post(
            op,
            ValueInfo::Scalar(ScalarInfo::Int(Some(x), xi)),
            ValueInfo::Scalar(ScalarInfo::Int(Some(y), yi)),
            res,
        ),
    ensures
        res matches Ok(plan) && plan.cast is None && plan.checks@.len() == 0 && vinfo(plan.output) == VInfo::Scalar(
            ScalarInfo::Bool(Some(holds_between(op, x as int, y as int))),
        ),
{
}

/// Comparing two known characters orders them by code point: it gives the
/// boolean that the comparison has between their code points, as on two
/// integers.
pub proof fn lemma_compare_chars(op: Comparison, x: char, y: char, res: Result<DyadicPlan, ErrorKind>)
    requires
        comparison_post(op, ValueInfo::Scalar(ScalarInfo::Char(Some(x))), ValueInfo::Scalar(ScalarInfo::Char(Some(y))), res),
    ensures
        res matches Ok(plan) && plan.cast is None && plan.checks@.len() == 0 && vinfo(plan.output) == VInfo::Scalar(
            ScalarInfo::Bool(Some(holds_between(op, x as int, y as int))),
        ),
{
}

/// Two known characters compare as the integers of their code points do:
/// typing the comparison on the characters and on those integers gives the
/// same output.
pub proof fn lemma_compare_chars_as_ints(
    op: Comparison,
    x: char,
    y: char,
    rc: Result<DyadicPlan, ErrorKind>,
    ri: Result<DyadicPlan, ErrorKind>,
)
    requires
        comparison_post(op, ValueInfo::Scalar(ScalarInfo::Char(Some(x))), ValueInfo::Scalar(ScalarInfo::Char(Some(y))), rc),
        comparison_post(
            op,
            ValueInfo::Scalar(ScalarInfo::Int(Some(x as i64), false)),
            ValueInfo::Scalar(ScalarInfo::Int(Some(y as i64), false)),
            ri,
        ),
    ensures
        rc matches Ok(pc) && ri matches Ok(pi) && vinfo(pc.output) == vinfo(pi.output),
{
    lemma_compare_chars(op, x, y, rc);
    lemma_compare_ints(op, x as i64, false, y as i64, false, ri);
}

/// Comparing two known booleans orders false before true.
pub proof fn lemma_compare_bools(op: Comparison, x: bool, y: bool, res: Result<DyadicPlan, ErrorKind>)
    requires
        comparison_post(op, ValueInfo::Scalar(ScalarInfo::Bool(Some(x))), ValueInfo::Scalar(ScalarInfo::Bool(Some(y))), res),
    ensures
        res matches Ok(plan) && vinfo(plan.output) == VInfo::Scalar(
            ScalarInfo::Bool(Some(holds_between(op, bool_num(x), bool_num(y)))),
        ),
{
}

/// Each ordering comparison is the converse of another: "less than" on `l`
/// and `r` is "greater than" on `r` and `l`, and likewise for the others;
/// equality does not depend on the order of its arguments. This holds for
/// scalars of every kind, floats included.
pub proof fn lemma_comparison_converse(l: ScalarInfo, r: ScalarInfo)
    ensures
        compare_info(Comparison::LessThan, l, r) == compare_info(Comparison::GreaterThan, r, l),
        compare_info(Comparison::LessOrEqual, l, r) == compare_info(Comparison::GreaterOrEqual, r, l),
        compare_info(Comparison::Equals, l, r) == compare_info(Comparison::Equals, r, l),
        compare_info(Comparison::NotEquals, l, r) == compare_info(Comparison::NotEquals, r, l),
{
}


/// A double that is not NaN compares against zero as its sign does against
/// 0: "less than" with zero on the right holds exactly for positive
/// doubles, and both zeros are equal to zero.
pub proof fn lemma_compare_float_with_zero(op: Comparison, x: u64, res: Result<DyadicPlan, ErrorKind>)
    requires
        !is_nan(x),
        comparison_post(op, ValueInfo::Scalar(ScalarInfo::Float(Some(x))), ValueInfo::Scalar(ScalarInfo::Float(Some(0u64))), res),
    ensures
        res matches Ok(plan) && vinfo(plan.output) == VInfo::Scalar(
            ScalarInfo::Bool(Some(holds_between(op, float_sign(x) as int, 0))),
        ),
{
    lemma_order_key_sign(x);
    lemma_order_key_sign(0u64);
}

} // verus!
