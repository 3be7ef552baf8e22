//! Primitives that act on pairs of scalars of two arguments.
use vstd::prelude::*;

use crate::analysis::error::ErrorKind;
use vstd::string::StringExecFns;
use crate::mir::polynomial::{const_of, Expr};
use crate::tir::{
    a_with_scalar, elem_of, scalar_name, scalar_of, with_scalar, ainfo, anameable, atype_text, bool_int, clone_shape, clone_usizes, dims_fit, int_to_float_opt,
    nameable, shape_view, sym_shape_of, type_text, vinfo, AInfo, ArrayInfo, ArrayValue, MapInfo,
    Poly, ScalarInfo, TirOp, VInfo, ValueInfo, values_view, lemma_values_view,
};

verus! {

/// One of the two arguments of a dyadic primitive.
#[derive(Clone, Copy, Debug, PartialEq, Eq)]
pub enum Side {
    Left,
    Right,
}

impl Side {
    /// The argument on this side.
    pub fn select<T>(self, lhs: T, rhs: T) -> (r: T)
        ensures
            r == (if self == Side::Left { lhs } else { rhs }),
    {
        match self {
            Side::Left => lhs,
            Side::Right => rhs,
        }
    }

    /// The pair with the argument on this side first.
    pub fn place_first<T>(self, lhs: T, rhs: T) -> (r: (T, T))
        ensures
            r == (if self == Side::Left { (lhs, rhs) } else { (rhs, lhs) }),
    {
        match self {
            Side::Left => (lhs, rhs),
            Side::Right => (rhs, lhs),
        }
    }
}

/// How two scalar types can be brought to one.
#[derive(Clone, Copy, Debug)]
pub enum ScalarTypeMatch {
    /// They are already of one kind.
    Identical,
    /// The scalar on this side is cast from the first type to the second.
    Matching(Side, ScalarInfo, ScalarInfo),
    /// No cast brings them together.
    Mismatched,
}

/// Booleans widen to integers and floats, and integers to floats.
pub open spec fn scalar_match(lhs: ScalarInfo, rhs: ScalarInfo) -> ScalarTypeMatch {
    match (lhs, rhs) {
        (ScalarInfo::Bool(_), ScalarInfo::Bool(_)) => ScalarTypeMatch::Identical,
        (ScalarInfo::Int(_, _), ScalarInfo::Int(_, _)) => ScalarTypeMatch::Identical,
        (ScalarInfo::Float(_), ScalarInfo::Float(_)) => ScalarTypeMatch::Identical,
        (ScalarInfo::Char(_), ScalarInfo::Char(_)) => ScalarTypeMatch::Identical,
        (ScalarInfo::Bool(l), ScalarInfo::Int(_, _)) => ScalarTypeMatch::Matching(
            Side::Left,
            ScalarInfo::Bool(l),
            ScalarInfo::Int(bool_int(l), false),
        ),
        (ScalarInfo::Bool(l), ScalarInfo::Float(_)) => ScalarTypeMatch::Matching(
            Side::Left,
            ScalarInfo::Bool(l),
            ScalarInfo::Float(int_to_float_opt(bool_int(l), false)),
        ),
        (ScalarInfo::Int(_, _), ScalarInfo::Bool(r)) => ScalarTypeMatch::Matching(
            Side::Right,
            ScalarInfo::Bool(r),
            ScalarInfo::Int(bool_int(r), false),
        ),
        (ScalarInfo::Int(l, inf), ScalarInfo::Float(_)) => ScalarTypeMatch::Matching(
            Side::Left,
            ScalarInfo::Int(l, inf),
            ScalarInfo::Float(int_to_float_opt(l, inf)),
        ),
        (ScalarInfo::Float(_), ScalarInfo::Bool(r)) => ScalarTypeMatch::Matching(
            Side::Right,
            ScalarInfo::Bool(r),
            ScalarInfo::Float(int_to_float_opt(bool_int(r), false)),
        ),
        (ScalarInfo::Float(_), ScalarInfo::Int(r, inf)) => ScalarTypeMatch::Matching(
            Side::Right,
            ScalarInfo::Int(r, inf),
            ScalarInfo::Float(int_to_float_opt(r, inf)),
        ),
        _ => ScalarTypeMatch::Mismatched,
    }
}

fn bool_to_int(b: Option<bool>) -> (r: Option<i64>)
    ensures
        r == bool_int(b),
{
    match b {
        Some(x) => Some(if x { 1 } else { 0 }),
        None => None,
    }
}

/// Which scalar to cast, and to what, to bring two scalar types to one.
pub fn try_match_scalar_types(lhs: ScalarInfo, rhs: ScalarInfo) -> (r: ScalarTypeMatch)
    ensures
        r == scalar_match(lhs, rhs),
{
    match (lhs, rhs) {
        (ScalarInfo::Bool(_), ScalarInfo::Bool(_)) => ScalarTypeMatch::Identical,
        (ScalarInfo::Int(_, _), ScalarInfo::Int(_, _)) => ScalarTypeMatch::Identical,
        (ScalarInfo::Float(_), ScalarInfo::Float(_)) => ScalarTypeMatch::Identical,
        (ScalarInfo::Char(_), ScalarInfo::Char(_)) => ScalarTypeMatch::Identical,
        (ScalarInfo::Bool(l), ScalarInfo::Int(_, _)) => ScalarTypeMatch::Matching(
            Side::Left,
            ScalarInfo::Bool(l),
            ScalarInfo::Int(bool_to_int(l), false),
        ),
        (ScalarInfo::Bool(l), ScalarInfo::Float(_)) => ScalarTypeMatch::Matching(
            Side::Left,
            ScalarInfo::Bool(l),
            ScalarInfo::Float(ScalarInfo::int_to_float(bool_to_int(l), false)),
        ),
        (ScalarInfo::Int(_, _), ScalarInfo::Bool(r)) => ScalarTypeMatch::Matching(
            Side::Right,
            ScalarInfo::Bool(r),
            ScalarInfo::Int(bool_to_int(r), false),
        ),
        (ScalarInfo::Int(l, inf), ScalarInfo::Float(_)) => ScalarTypeMatch::Matching(
            Side::Left,
            ScalarInfo::Int(l, inf),
            ScalarInfo::Float(ScalarInfo::int_to_float(l, inf)),
        ),
        (ScalarInfo::Float(_), ScalarInfo::Bool(r)) => ScalarTypeMatch::Matching(
            Side::Right,
            ScalarInfo::Bool(r),
            ScalarInfo::Float(ScalarInfo::int_to_float(bool_to_int(r), false)),
        ),
        (ScalarInfo::Float(_), ScalarInfo::Int(r, inf)) => ScalarTypeMatch::Matching(
            Side::Right,
            ScalarInfo::Int(r, inf),
            ScalarInfo::Float(ScalarInfo::int_to_float(r, inf)),
        ),
        _ => ScalarTypeMatch::Mismatched,
    }
}

/// A scalar widened to the kind of `t` when it is of a narrower kind.
pub open spec fn upcast_scalar(s: ScalarInfo, t: ScalarInfo) -> ScalarInfo {
    match scalar_match(s, t) {
        ScalarTypeMatch::Matching(Side::Left, _, to) => to,
        _ => s,
    }
}

/// Whether every value met in widening scalars can be widened: structures
/// and enums cannot.
pub open spec fn upcastable(v: VInfo) -> bool
    decreases v,
{
    match v {
        VInfo::Scalar(_) => true,
        VInfo::Array(a) => aupcastable(*a),
        VInfo::Mapping(_, val) => upcastable(*val),
        _ => false,
    }
}

pub open spec fn aupcastable(a: AInfo) -> bool
    decreases a,
{
    match a {
        AInfo::Known(e, _, d) => upcastable(e) && upcastable_all(d),
        AInfo::Ranked(e, _) => upcastable(e),
        AInfo::Unranked(e, _, _) => upcastable(e),
    }
}

pub open spec fn upcastable_all(d: Seq<VInfo>) -> bool
    decreases d,
{
    if d.len() == 0 {
        true
    } else {
        upcastable(d[0]) && upcastable_all(d.subrange(1, d.len() as int))
    }
}

/// Every scalar of a value widened to the kind of `t` where it is narrower.
pub open spec fn upcast(v: VInfo, t: ScalarInfo) -> VInfo
    decreases v,
{
    match v {
        VInfo::Scalar(s) => VInfo::Scalar(upcast_scalar(s, t)),
        VInfo::Array(a) => VInfo::Array(Box::new(aupcast(*a, t))),
        VInfo::Mapping(k, val) => VInfo::Mapping(k, Box::new(upcast(*val, t))),
        _ => v,
    }
}

pub open spec fn aupcast(a: AInfo, t: ScalarInfo) -> AInfo
    decreases a,
{
    match a {
        AInfo::Known(e, sh, d) => AInfo::Known(upcast(e, t), sh, upcast_all(d, t)),
        AInfo::Ranked(e, sh) => AInfo::Ranked(upcast(e, t), sh),
        AInfo::Unranked(e, p, q) => AInfo::Unranked(upcast(e, t), p, q),
    }
}

pub open spec fn upcast_all(d: Seq<VInfo>, t: ScalarInfo) -> Seq<VInfo>
    decreases d,
{
    if d.len() == 0 {
        seq![]
    } else {
        seq![upcast(d[0], t)] + upcast_all(d.subrange(1, d.len() as int), t)
    }
}

proof fn lemma_upcast_all(d: Seq<VInfo>, t: ScalarInfo)
    ensures
        upcast_all(d, t).len() == d.len(),
        forall|i: int| 0 <= i < d.len() ==> #[trigger] upcast_all(d, t)[i] == upcast(d[i], t),
        upcastable_all(d) <==> forall|i: int| 0 <= i < d.len() ==> upcastable(#[trigger] d[i]),
    decreases d.len(),
{
    if d.len() > 0 {
        let rest = d.subrange(1, d.len() as int);
        lemma_upcast_all(rest, t);
        assert forall|i: int| 0 <= i < d.len() implies #[trigger] upcast_all(d, t)[i] == upcast(d[i], t) by {
            if i > 0 {
                assert(rest[i - 1] == d[i]);
            }
        }
        if upcastable_all(d) {
            assert forall|i: int| 0 <= i < d.len() implies upcastable(#[trigger] d[i]) by {
                if i > 0 {
                    assert(rest[i - 1] == d[i]);
                }
            }
        }
        if forall|i: int| 0 <= i < d.len() ==> upcastable(#[trigger] d[i]) {
            assert forall|i: int| 0 <= i < rest.len() implies upcastable(#[trigger] rest[i]) by {
                assert(rest[i] == d[i + 1]);
            }
            assert(upcastable(d[0]));
        }
    }
}

/// The size of a value as far as widening goes through it, the measure by
/// which widening ends.
pub open spec fn vsize(v: VInfo) -> nat
    decreases v,
{
    match v {
        VInfo::Array(a) => match *a {
            AInfo::Known(e, _, d) => 2 + vsize(e) + ssize(d),
            AInfo::Ranked(e, _) => 2 + vsize(e),
            AInfo::Unranked(e, _, _) => 2 + vsize(e),
        },
        VInfo::Mapping(_, val) => 1 + vsize(*val),
        _ => 0,
    }
}

pub open spec fn asize(a: AInfo) -> nat {
    match a {
        AInfo::Known(e, _, d) => 1 + vsize(e) + ssize(d),
        AInfo::Ranked(e, _) => 1 + vsize(e),
        AInfo::Unranked(e, _, _) => 1 + vsize(e),
    }
}

pub open spec fn ssize(d: Seq<VInfo>) -> nat
    decreases d,
{
    if d.len() == 0 {
        0
    } else {
        vsize(d[0]) + 1 + ssize(d.subrange(1, d.len() as int))
    }
}

proof fn lemma_ssize_elem(d: Seq<VInfo>, i: int)
    requires
        0 <= i < d.len(),
    ensures
        vsize(d[i]) < ssize(d),
    decreases i,
{
    if i > 0 {
        let t = d.subrange(1, d.len() as int);
        lemma_ssize_elem(t, i - 1);
        assert(t[i - 1] == d[i]);
    }
}

impl ValueInfo {
    /// Widens every scalar of this value that is of a narrower kind than
    /// `scalar_type` to that kind.
    pub fn upcast_scalars(&mut self, scalar_type: ScalarInfo)
        requires
            upcastable(vinfo(*old(self))),
        ensures
            vinfo(*final(self)) == upcast(vinfo(*old(self)), scalar_type),
        decreases vsize(vinfo(*old(self))),
    {
        match self {
            ValueInfo::Scalar(scalar) => {
                if let ScalarTypeMatch::Matching(Side::Left, _, to) = try_match_scalar_types(*scalar, scalar_type) {
                    *scalar = to;
                }
            },
            ValueInfo::Array(array) => {
                array.upcast_scalars(scalar_type);
            },
            ValueInfo::Mapping(map) => {
                map.value_type.upcast_scalars(scalar_type);
            },
            _ => {},
        }
    }
}

impl ArrayInfo {
    /// Widens every scalar of this array, elements and known values alike.
    pub fn upcast_scalars(&mut self, scalar_type: ScalarInfo)
        requires
            aupcastable(ainfo(*old(self))),
        ensures
            ainfo(*final(self)) == aupcast(ainfo(*old(self)), scalar_type),
        decreases asize(ainfo(*old(self))),
    {
        match self {
            ArrayInfo::Known { element_type, value } => {
                let ghost e0 = vinfo(*element_type);
                let ghost d0 = value.data@;
                let ghost sh0 = value.shape@;
                assert(ainfo(*old(self)) == AInfo::Known(e0, sh0, values_view(d0)));
                proof {
                    lemma_values_view(d0);
                    lemma_upcast_all(values_view(d0), scalar_type);
                }
                element_type.upcast_scalars(scalar_type);
                let mut i: usize = 0;
                while i < value.data.len()
                    invariant
                        i <= value.data.len(),
                        value.data.len() == d0.len(),
                        values_view(d0).len() == d0.len(),
                        forall|j: int| 0 <= j < d0.len() ==> #[trigger] values_view(d0)[j] == vinfo(d0[j]),
                        forall|j: int| 0 <= j < d0.len() ==> upcastable(#[trigger] values_view(d0)[j]),
                        forall|j: int| 0 <= j < i ==> vinfo(#[trigger] value.data@[j]) == upcast(vinfo(d0[j]), scalar_type),
                        forall|j: int| i <= j < d0.len() ==> #[trigger] value.data@[j] == d0[j],
                        ssize(values_view(d0)) < asize(ainfo(*old(self))),
                        value.shape@ == sh0,
                    decreases value.data.len() - i,
                {
                    let mut x = value.data[i].duplicate();
                    assert(upcastable(values_view(d0)[i as int]));
                    proof {
                        lemma_ssize_elem(values_view(d0), i as int);
                    }
                    x.upcast_scalars(scalar_type);
                    value.data.set(i, x);
                    i = i + 1;
                }
                proof {
                    lemma_values_view(value.data@);
                    lemma_upcast_all(values_view(d0), scalar_type);
                    assert(values_view(value.data@) =~= upcast_all(values_view(d0), scalar_type));
                }
            },
            ArrayInfo::Ranked { element_type, .. } => {
                element_type.upcast_scalars(scalar_type);
            },
            ArrayInfo::Unranked { element_type, .. } => {
                element_type.upcast_scalars(scalar_type);
            },
        }
    }
}


/// A shape check to add before a dyadic primitive: one that reads both
/// inputs, or one that reads the input on one side.
#[derive(Clone, Copy, Debug)]
pub enum ShapeCheck {
    Both(TirOp),
    One(Side, TirOp),
}

/// How matching the shapes of two values ends: with the checks to add, with
/// one of two errors, or not at all (a case the analysis does not support).
pub enum ShapeResult {
    Stuck,
    Unranked,
    Incompatible(Seq<char>, Seq<char>),
    Checks(Seq<ShapeCheck>),
}

/// The check, if any, that axis `i` needs: constant lengths must agree
/// unless one is 1; a constant against an unknown length checks the unknown
/// side; two unknown lengths need a check unless they are the same
/// expression. `None` when two constants conflict.
pub open spec fn axis_check(l: Poly, r: Poly, i: nat) -> Option<Seq<ShapeCheck>> {
    match (const_of(l), const_of(r)) {
        (Some(a), Some(b)) => if a != 1 && b != 1 && a != b {
            None
        } else {
            Some(seq![])
        },
        (Some(a), None) => Some(seq![ShapeCheck::One(Side::Right, TirOp::CheckAxis { depth: 0, ax_i: i as usize, length: (a as isize) as usize })]),
        (None, Some(b)) => Some(seq![ShapeCheck::One(Side::Left, TirOp::CheckAxis { depth: 0, ax_i: i as usize, length: (b as isize) as usize })]),
        (None, None) => if l == r {
            Some(seq![])
        } else {
            Some(seq![ShapeCheck::Both(TirOp::CheckAxes { lhs_depth: 0, lhs_ax_i: i as usize, rhs_depth: 0, rhs_ax_i: i as usize })])
        },
    }
}

/// The checks for the first `k` axes that both shapes have.
pub open spec fn axes_checks(l: Seq<Poly>, r: Seq<Poly>, k: nat) -> Option<Seq<ShapeCheck>>
    decreases k,
{
    if k == 0 {
        Some(seq![])
    } else {
        match axes_checks(l, r, (k - 1) as nat) {
            None => None,
            Some(c) => match axis_check(l[k - 1], r[k - 1], (k - 1) as nat) {
                None => None,
                Some(d) => Some(c + d),
            },
        }
    }
}

/// A check one array level further down.
pub open spec fn deepen(c: ShapeCheck) -> Option<ShapeCheck> {
    match c {
        ShapeCheck::Both(TirOp::CheckAxes { lhs_depth, lhs_ax_i, rhs_depth, rhs_ax_i }) =>
            if lhs_depth < usize::MAX && rhs_depth < usize::MAX {
                Some(ShapeCheck::Both(TirOp::CheckAxes {
                    lhs_depth: (lhs_depth + 1) as usize,
                    lhs_ax_i,
                    rhs_depth: (rhs_depth + 1) as usize,
                    rhs_ax_i,
                }))
            } else {
                None
            },
        ShapeCheck::One(side, TirOp::CheckAxis { depth, ax_i, length }) => if depth < usize::MAX {
            Some(ShapeCheck::One(side, TirOp::CheckAxis { depth: (depth + 1) as usize, ax_i, length }))
        } else {
            None
        },
        _ => None,
    }
}

/// Every check one level further down, or `None` if one cannot be.
pub open spec fn deepen_all(cs: Seq<ShapeCheck>) -> Option<Seq<ShapeCheck>>
    decreases cs.len(),
{
    if cs.len() == 0 {
        Some(seq![])
    } else {
        match deepen_all(cs.drop_last()) {
            None => None,
            Some(p) => match deepen(cs.last()) {
                None => None,
                Some(c) => Some(p.push(c)),
            },
        }
    }
}

/// The shape checks that make two values agree, level by level: the axes of
/// two arrays, then those of their element types, one level deeper. A
/// scalar on either side needs none.
pub open spec fn shape_checks(l: VInfo, r: VInfo) -> ShapeResult
    decreases l, 0nat,
{
    match (l, r) {
        (VInfo::Scalar(_), _) => ShapeResult::Checks(seq![]),
        (_, VInfo::Scalar(_)) => ShapeResult::Checks(seq![]),
        (VInfo::Array(la), VInfo::Array(ra)) => {
            let lsh = sym_shape_of(*la);
            let rsh = sym_shape_of(*ra);
            if (*la is Known && !dims_fit((*la)->Known_1)) || (lsh is Some && *ra is Known && !dims_fit(
                (*ra)->Known_1,
            )) {
                ShapeResult::Stuck
            } else if lsh is None || rsh is None {
                ShapeResult::Unranked
            } else {
                let a = lsh->Some_0;
                let b = rsh->Some_0;
                let k = if a.len() < b.len() { a.len() } else { b.len() };
                match axes_checks(a, b, k) {
                    None => if anameable(*la) && anameable(*ra) {
                        ShapeResult::Incompatible(atype_text(*la), atype_text(*ra))
                    } else {
                        ShapeResult::Stuck
                    },
                    Some(here) => match *la {
                        AInfo::Known(le, _, _) => shape_checks_below(le, r, here),
                        AInfo::Ranked(le, _) => shape_checks_below(le, r, here),
                        AInfo::Unranked(le, _, _) => shape_checks_below(le, r, here),
                    },
                }
            }
        },
        _ => if nameable(l) && nameable(r) {
            ShapeResult::Incompatible(type_text(l), type_text(r))
        } else {
            ShapeResult::Stuck
        },
    }
}

/// The checks of this level followed by those of the element types, one
/// level deeper; `r` is the right array.
pub open spec fn shape_checks_below(le: VInfo, r: VInfo, here: Seq<ShapeCheck>) -> ShapeResult
    decreases le, 1nat,
{
    match r {
        VInfo::Array(ra) => {
            let re = match *ra {
                AInfo::Known(e, _, _) => e,
                AInfo::Ranked(e, _) => e,
                AInfo::Unranked(e, _, _) => e,
            };
            match shape_checks(le, re) {
                ShapeResult::Checks(below) => match deepen_all(below) {
                    Some(d) => ShapeResult::Checks(here + d),
                    None => ShapeResult::Stuck,
                },
                other => other,
            }
        },
        _ => ShapeResult::Stuck,
    }
}


proof fn lemma_deepen_prefix(cs: Seq<ShapeCheck>, j: int)
    requires
        0 <= j <= cs.len(),
        deepen_all(cs) is Some,
    ensures
        deepen_all(cs.take(j)) is Some,
    decreases cs.len(),
{
    if j == cs.len() {
        assert(cs.take(j) =~= cs);
    } else {
        assert(cs.drop_last().take(j) =~= cs.take(j));
        lemma_deepen_prefix(cs.drop_last(), j);
    }
}

/// Every check one level further down.
fn deepen_checks(below: &Vec<ShapeCheck>, out: &mut Vec<ShapeCheck>)
    requires
        deepen_all(below@) is Some,
    ensures
        final(out)@ == old(out)@ + deepen_all(below@)->Some_0,
{
    let ghost o0 = out@;
    let mut j: usize = 0;
    assert(o0 + seq![] =~= o0);
    while j < below.len()
        invariant
            j <= below.len(),
            deepen_all(below@) is Some,
            deepen_all(below@.take(j as int)) is Some,
            out@ == o0 + deepen_all(below@.take(j as int))->Some_0,
        decreases below.len() - j,
    {
        proof {
            lemma_deepen_prefix(below@, j + 1);
            assert(below@.take(j + 1).drop_last() =~= below@.take(j as int));
            assert(below@.take(j + 1).last() == below@[j as int]);
        }
        let c = match below[j] {
            ShapeCheck::Both(TirOp::CheckAxes { lhs_depth, lhs_ax_i, rhs_depth, rhs_ax_i }) => ShapeCheck::Both(
                TirOp::CheckAxes { lhs_depth: lhs_depth + 1, lhs_ax_i, rhs_depth: rhs_depth + 1, rhs_ax_i },
            ),
            ShapeCheck::One(side, TirOp::CheckAxis { depth, ax_i, length }) => ShapeCheck::One(
                side,
                TirOp::CheckAxis { depth: depth + 1, ax_i, length },
            ),
            _ => {
                proof {
                    assert(false);
                }
                below[j]
            },
        };
        let ghost before = out@;
        out.push(c);
        j = j + 1;
        assert(out@ =~= o0 + deepen_all(below@.take(j as int))->Some_0);
    }
    assert(below@.take(j as int) =~= below@);
}

/// The shape checks that make two values agree, level by level, or the error
/// that their shapes cannot agree.
pub fn try_match_shapes_rec(func_name: &'static str, lhs_info: &ValueInfo, rhs_info: &ValueInfo) -> (r: Result<
    Vec<ShapeCheck>,
    ErrorKind,
>)
    requires
        !(shape_checks(vinfo(*lhs_info), vinfo(*rhs_info)) is Stuck),
    ensures
        shape_checks(vinfo(*lhs_info), vinfo(*rhs_info)) is Unranked ==> r == Err::<Vec<ShapeCheck>, ErrorKind>(
            ErrorKind::Unranked(func_name),
        ),
        shape_checks(vinfo(*lhs_info), vinfo(*rhs_info)) matches ShapeResult::Incompatible(a, b) ==> (r matches Err(
            ErrorKind::IncompatibleShapes(x, y),
        ) && x@ == a && y@ == b),
        shape_checks(vinfo(*lhs_info), vinfo(*rhs_info)) matches ShapeResult::Checks(c) ==> (r matches Ok(v)
            && v@ == c),
    decreases lhs_info,
{
    match (lhs_info, rhs_info) {
        (ValueInfo::Scalar(_), _) => Ok(Vec::new()),
        (_, ValueInfo::Scalar(_)) => Ok(Vec::new()),
        (ValueInfo::Array(la), ValueInfo::Array(ra)) => {
            let lsh = match la.sym_shape() {
                Some(v) => v,
                None => return Err(ErrorKind::Unranked(func_name)),
            };
            let rsh = match ra.sym_shape() {
                Some(v) => v,
                None => return Err(ErrorKind::Unranked(func_name)),
            };
            let ghost a = shape_view(lsh@);
            let ghost b = shape_view(rsh@);
            let k: usize = if lsh.len() < rsh.len() { lsh.len() } else { rsh.len() };
            assert(vinfo(*lhs_info) == VInfo::Array(Box::new(ainfo(**la))));
            assert(vinfo(*rhs_info) == VInfo::Array(Box::new(ainfo(**ra))));
            assert(axes_checks(a, b, k as nat) is None ==> shape_checks(vinfo(*lhs_info), vinfo(*rhs_info))
                == ShapeResult::Incompatible(atype_text(ainfo(**la)), atype_text(ainfo(**ra))));
            let mut checks: Vec<ShapeCheck> = Vec::new();
            let mut i: usize = 0;
            while i < k
                invariant
                    i <= k,
                    k <= lsh.len(),
                    k <= rsh.len(),
                    a == shape_view(lsh@),
                    b == shape_view(rsh@),
                    axes_checks(a, b, i as nat) == Some(checks@),
                    axes_checks(a, b, k as nat) is None ==> anameable(ainfo(**la)) && anameable(ainfo(**ra)),
                    axes_checks(a, b, k as nat) is None ==> shape_checks(vinfo(*lhs_info), vinfo(*rhs_info))
                        == ShapeResult::Incompatible(atype_text(ainfo(**la)), atype_text(ainfo(**ra))),
                decreases k - i,
            {
                let ghost before = checks@;
                assert(a[i as int] == lsh@[i as int]@);
                assert(b[i as int] == rsh@[i as int]@);
                match (lsh[i].as_const(), rsh[i].as_const()) {
                    (Some(lc), Some(rc)) => {
                        if lc != 1 && rc != 1 && lc != rc {
                            assert(axes_checks(a, b, (i + 1) as nat) is None);
                            proof {
                                lemma_axes_checks_prefix(a, b, (i + 1) as nat, k as nat);
                            }
                            let lt = la.type_label();
                            let rt = ra.type_label();
                            return Err(ErrorKind::IncompatibleShapes(lt, rt));
                        }
                    },
                    (Some(lc), None) => {
                        checks.push(ShapeCheck::One(Side::Right, TirOp::CheckAxis { depth: 0, ax_i: i, length: #[verifier::truncate] (lc as usize) }));
                    },
                    (None, Some(rc)) => {
                        checks.push(ShapeCheck::One(Side::Left, TirOp::CheckAxis { depth: 0, ax_i: i, length: #[verifier::truncate] (rc as usize) }));
                    },
                    (None, None) => {
                        if !lsh[i].equals(&rsh[i]) {
                            checks.push(ShapeCheck::Both(TirOp::CheckAxes { lhs_depth: 0, lhs_ax_i: i, rhs_depth: 0, rhs_ax_i: i }));
                        }
                    },
                }
                assert(checks@ =~= before + axis_check(a[i as int], b[i as int], i as nat)->Some_0);
                i = i + 1;
            }
            let below = match (&**la, &**ra) {
                (ArrayInfo::Known { element_type: le, .. }, ArrayInfo::Known { element_type: re, .. }) => try_match_shapes_rec(func_name, le, re),
                (ArrayInfo::Known { element_type: le, .. }, ArrayInfo::Ranked { element_type: re, .. }) => try_match_shapes_rec(func_name, le, re),
                (ArrayInfo::Ranked { element_type: le, .. }, ArrayInfo::Known { element_type: re, .. }) => try_match_shapes_rec(func_name, le, re),
                (ArrayInfo::Ranked { element_type: le, .. }, ArrayInfo::Ranked { element_type: re, .. }) => try_match_shapes_rec(func_name, le, re),
                _ => {
                    proof {
                        assert(false);
                    }
                    return Err(ErrorKind::Unranked(func_name));
                },
            };
            let below = match below {
                Ok(v) => v,
                Err(e) => return Err(e),
            };
            deepen_checks(&below, &mut checks);
            Ok(checks)
        },
        _ => {
            let lt = lhs_info.type_label();
            let rt = rhs_info.type_label();
            Err(ErrorKind::IncompatibleShapes(lt, rt))
        },
    }
}

proof fn lemma_axes_checks_prefix(a: Seq<Poly>, b: Seq<Poly>, j: nat, k: nat)
    requires
        j <= k,
        axes_checks(a, b, j) is None,
    ensures
        axes_checks(a, b, k) is None,
    decreases k,
{
    if j < k {
        lemma_axes_checks_prefix(a, b, j, (k - 1) as nat);
    }
}


/// The axis of a broadcast shape where both shapes have one: a length of 1
/// gives way to the other, equal constants stay, and an unknown length gives
/// way to a constant one.
pub open spec fn pick_axis(a: Poly, b: Poly) -> Poly {
    match (const_of(a), const_of(b)) {
        (Some(x), Some(y)) => if x == 1 {
            b
        } else if y == 1 {
            a
        } else {
            crate::mir::polynomial::const_terms(x)
        },
        (_, Some(_)) => b,
        _ => a,
    }
}

/// Whether two axes can be broadcast: constants other than 1 must agree.
pub open spec fn axes_agree(a: Poly, b: Poly) -> bool {
    match (const_of(a), const_of(b)) {
        (Some(x), Some(y)) => x == 1 || y == 1 || x == y,
        _ => true,
    }
}

/// Whether every axis the two shapes both have can be broadcast.
pub open spec fn shapes_agree(a: Seq<Poly>, b: Seq<Poly>) -> bool {
    forall|i: int| 0 <= i < a.len() && i < b.len() ==> axes_agree(#[trigger] a[i], b[i])
}

/// The shape of the result of a pervasive primitive on two arrays: the
/// longer shape, with each axis both have picked by `pick_axis`.
pub open spec fn bshape(l: Seq<Poly>, r: Seq<Poly>) -> Seq<Poly> {
    Seq::new(
        if l.len() < r.len() { r.len() } else { l.len() },
        |i: int| if i < l.len() && i < r.len() {
            pick_axis(l[i], r[i])
        } else if i < l.len() {
            l[i]
        } else {
            r[i]
        },
    )
}

/// Whether `o` is the result of applying `f` to each pair of scalars that a
/// pervasive primitive meets in `l` and `r`: a scalar against an array or
/// map goes with each element (and the element type); two arrays pair their
/// element types under the broadcast shape.
pub open spec fn dy_mapped<F: Fn(ScalarInfo, ScalarInfo) -> Result<ScalarInfo, ErrorKind>>(f: F, l: VInfo, r: VInfo, o: VInfo) -> bool
    decreases vsize(l) + vsize(r),
{
    match (l, r) {
        (VInfo::Scalar(x), VInfo::Scalar(y)) => o matches VInfo::Scalar(z) && call_ensures(f, (x, y), Ok(z)),
        (VInfo::Array(aa), VInfo::Scalar(_)) => o matches VInfo::Array(oo) && match (*aa, *oo) {
            (AInfo::Known(e, sh, d), AInfo::Known(e2, sh2, d2)) => sh2 == sh && dy_mapped(f, e, r, e2) && dy_seq(f, d, r, true, d2),
            (AInfo::Ranked(e, sh), AInfo::Ranked(e2, sh2)) => sh2 == sh && dy_mapped(f, e, r, e2),
            (AInfo::Unranked(e, p, q), AInfo::Unranked(e2, p2, q2)) => p2 == p && q2 == q && dy_mapped(f, e, r, e2),
            _ => false,
        },
        (VInfo::Scalar(_), VInfo::Array(aa)) => o matches VInfo::Array(oo) && match (*aa, *oo) {
            (AInfo::Known(e, sh, d), AInfo::Known(e2, sh2, d2)) => sh2 == sh && dy_mapped(f, l, e, e2) && dy_seq(f, d, l, false, d2),
            (AInfo::Ranked(e, sh), AInfo::Ranked(e2, sh2)) => sh2 == sh && dy_mapped(f, l, e, e2),
            (AInfo::Unranked(e, p, q), AInfo::Unranked(e2, p2, q2)) => p2 == p && q2 == q && dy_mapped(f, l, e, e2),
            _ => false,
        },
        (VInfo::Mapping(k, v), VInfo::Scalar(_)) => o matches VInfo::Mapping(k2, v2) && k2 == k && dy_mapped(f, *v, r, *v2),
        (VInfo::Scalar(_), VInfo::Mapping(k, v)) => o matches VInfo::Mapping(k2, v2) && k2 == k && dy_mapped(f, l, *v, *v2),
        (VInfo::Array(la), VInfo::Array(ra)) => o matches VInfo::Array(oo) && match (*oo, sym_shape_of(*la), sym_shape_of(*ra)) {
            (AInfo::Ranked(e2, sh2), Some(a), Some(b)) => sh2 == bshape(a, b) && match (*la, *ra) {
                (AInfo::Known(x, _, _), AInfo::Known(y, _, _)) => dy_mapped(f, x, y, e2),
                (AInfo::Known(x, _, _), AInfo::Ranked(y, _)) => dy_mapped(f, x, y, e2),
                (AInfo::Ranked(x, _), AInfo::Known(y, _, _)) => dy_mapped(f, x, y, e2),
                (AInfo::Ranked(x, _), AInfo::Ranked(y, _)) => dy_mapped(f, x, y, e2),
                _ => false,
            },
            _ => false,
        },
        _ => false,
    }
}

/// `dy_mapped` of each element of `d` with the scalar `s`, the element first
/// when `arr_left`.
pub open spec fn dy_seq<F: Fn(ScalarInfo, ScalarInfo) -> Result<ScalarInfo, ErrorKind>>(f: F, d: Seq<VInfo>, s: VInfo, arr_left: bool, d2: Seq<VInfo>) -> bool
    decreases ssize(d) + vsize(s),
{
    d2.len() == d.len() && (d.len() == 0 || ((if arr_left {
        dy_mapped(f, d[0], s, d2[0])
    } else {
        dy_mapped(f, s, d[0], d2[0])
    }) && dy_seq(f, d.subrange(1, d.len() as int), s, arr_left, d2.subrange(1, d2.len() as int))))
}

/// Whether every pair of scalars that a pervasive primitive meets satisfies
/// `p`.
pub open spec fn dy_all(l: VInfo, r: VInfo, p: spec_fn(ScalarInfo, ScalarInfo) -> bool) -> bool
    decreases vsize(l) + vsize(r),
{
    match (l, r) {
        (VInfo::Scalar(x), VInfo::Scalar(y)) => p(x, y),
        (VInfo::Array(aa), VInfo::Scalar(_)) => match *aa {
            AInfo::Known(e, _, d) => dy_all(e, r, p) && dy_all_seq(d, r, true, p),
            AInfo::Ranked(e, _) => dy_all(e, r, p),
            AInfo::Unranked(e, _, _) => dy_all(e, r, p),
        },
        (VInfo::Scalar(_), VInfo::Array(aa)) => match *aa {
            AInfo::Known(e, _, d) => dy_all(l, e, p) && dy_all_seq(d, l, false, p),
            AInfo::Ranked(e, _) => dy_all(l, e, p),
            AInfo::Unranked(e, _, _) => dy_all(l, e, p),
        },
        (VInfo::Mapping(_, v), VInfo::Scalar(_)) => dy_all(*v, r, p),
        (VInfo::Scalar(_), VInfo::Mapping(_, v)) => dy_all(l, *v, p),
        (VInfo::Array(la), VInfo::Array(ra)) => match (*la, *ra) {
            (AInfo::Known(x, _, _), AInfo::Known(y, _, _)) => dy_all(x, y, p),
            (AInfo::Known(x, _, _), AInfo::Ranked(y, _)) => dy_all(x, y, p),
            (AInfo::Ranked(x, _), AInfo::Known(y, _, _)) => dy_all(x, y, p),
            (AInfo::Ranked(x, _), AInfo::Ranked(y, _)) => dy_all(x, y, p),
            _ => true,
        },
        _ => true,
    }
}

pub open spec fn dy_all_seq(d: Seq<VInfo>, s: VInfo, arr_left: bool, p: spec_fn(ScalarInfo, ScalarInfo) -> bool) -> bool
    decreases ssize(d) + vsize(s),
{
    d.len() == 0 || ((if arr_left {
        dy_all(d[0], s, p)
    } else {
        dy_all(s, d[0], p)
    }) && dy_all_seq(d.subrange(1, d.len() as int), s, arr_left, p))
}

/// Whether `f` may fail with `e` on some pair of scalars met.
pub open spec fn dy_fails<F: Fn(ScalarInfo, ScalarInfo) -> Result<ScalarInfo, ErrorKind>>(f: F, l: VInfo, r: VInfo, e: ErrorKind) -> bool
    decreases vsize(l) + vsize(r),
{
    match (l, r) {
        (VInfo::Scalar(x), VInfo::Scalar(y)) => call_ensures(f, (x, y), Err(e)),
        (VInfo::Array(aa), VInfo::Scalar(_)) => match *aa {
            AInfo::Known(el, _, d) => dy_fails(f, el, r, e) || dy_fails_seq(f, d, r, true, e),
            AInfo::Ranked(el, _) => dy_fails(f, el, r, e),
            AInfo::Unranked(el, _, _) => dy_fails(f, el, r, e),
        },
        (VInfo::Scalar(_), VInfo::Array(aa)) => match *aa {
            AInfo::Known(el, _, d) => dy_fails(f, l, el, e) || dy_fails_seq(f, d, l, false, e),
            AInfo::Ranked(el, _) => dy_fails(f, l, el, e),
            AInfo::Unranked(el, _, _) => dy_fails(f, l, el, e),
        },
        (VInfo::Mapping(_, v), VInfo::Scalar(_)) => dy_fails(f, *v, r, e),
        (VInfo::Scalar(_), VInfo::Mapping(_, v)) => dy_fails(f, l, *v, e),
        (VInfo::Array(la), VInfo::Array(ra)) => match (*la, *ra) {
            (AInfo::Known(x, _, _), AInfo::Known(y, _, _)) => dy_fails(f, x, y, e),
            (AInfo::Known(x, _, _), AInfo::Ranked(y, _)) => dy_fails(f, x, y, e),
            (AInfo::Ranked(x, _), AInfo::Known(y, _, _)) => dy_fails(f, x, y, e),
            (AInfo::Ranked(x, _), AInfo::Ranked(y, _)) => dy_fails(f, x, y, e),
            _ => false,
        },
        _ => false,
    }
}

pub open spec fn dy_fails_seq<F: Fn(ScalarInfo, ScalarInfo) -> Result<ScalarInfo, ErrorKind>>(f: F, d: Seq<VInfo>, s: VInfo, arr_left: bool, e: ErrorKind) -> bool
    decreases ssize(d) + vsize(s),
{
    d.len() > 0 && ((if arr_left {
        dy_fails(f, d[0], s, e)
    } else {
        dy_fails(f, s, d[0], e)
    }) || dy_fails_seq(f, d.subrange(1, d.len() as int), s, arr_left, e))
}

/// Whether the pervasive computation on `l` and `r` is supported: a scalar
/// meets scalars, arrays or maps, and two arrays of known rank meet with
/// agreeing axes; known shapes must fit in `isize`.
pub open spec fn dy_sup(l: VInfo, r: VInfo) -> bool
    decreases vsize(l) + vsize(r),
{
    match (l, r) {
        (VInfo::Scalar(_), VInfo::Scalar(_)) => true,
        (VInfo::Array(aa), VInfo::Scalar(_)) => match *aa {
            AInfo::Known(e, _, d) => dy_sup(e, r) && dy_sup_seq(d, r, true),
            AInfo::Ranked(e, _) => dy_sup(e, r),
            AInfo::Unranked(e, _, _) => dy_sup(e, r),
        },
        (VInfo::Scalar(_), VInfo::Array(aa)) => match *aa {
            AInfo::Known(e, _, d) => dy_sup(l, e) && dy_sup_seq(d, l, false),
            AInfo::Ranked(e, _) => dy_sup(l, e),
            AInfo::Unranked(e, _, _) => dy_sup(l, e),
        },
        (VInfo::Mapping(_, v), VInfo::Scalar(_)) => dy_sup(*v, r),
        (VInfo::Scalar(_), VInfo::Mapping(_, v)) => dy_sup(l, *v),
        (VInfo::Array(la), VInfo::Array(ra)) => match (sym_shape_of(*la), sym_shape_of(*ra)) {
            (Some(a), Some(b)) => (*la is Known ==> dims_fit((*la)->Known_1)) && (*ra is Known ==> dims_fit(
                (*ra)->Known_1,
            )) && shapes_agree(a, b) && match (*la, *ra) {
                (AInfo::Known(x, _, _), AInfo::Known(y, _, _)) => dy_sup(x, y),
                (AInfo::Known(x, _, _), AInfo::Ranked(y, _)) => dy_sup(x, y),
                (AInfo::Ranked(x, _), AInfo::Known(y, _, _)) => dy_sup(x, y),
                (AInfo::Ranked(x, _), AInfo::Ranked(y, _)) => dy_sup(x, y),
                _ => false,
            },
            _ => false,
        },
        _ => false,
    }
}

pub open spec fn dy_sup_seq(d: Seq<VInfo>, s: VInfo, arr_left: bool) -> bool
    decreases ssize(d) + vsize(s),
{
    d.len() == 0 || ((if arr_left {
        dy_sup(d[0], s)
    } else {
        dy_sup(s, d[0])
    }) && dy_sup_seq(d.subrange(1, d.len() as int), s, arr_left))
}


/// The pairs of scalars that `f` may be called on.
pub open spec fn pre2_of<F: Fn(ScalarInfo, ScalarInfo) -> Result<ScalarInfo, ErrorKind>>(f: F) -> spec_fn(ScalarInfo, ScalarInfo) -> bool {
    |x: ScalarInfo, y: ScalarInfo| f.requires((x, y))
}

/// The pairs of scalars that `f` surely succeeds on.
pub open spec fn ok2_of<F: Fn(ScalarInfo, ScalarInfo) -> Result<ScalarInfo, ErrorKind>>(f: F) -> spec_fn(ScalarInfo, ScalarInfo) -> bool {
    |x: ScalarInfo, y: ScalarInfo| forall|r: Result<ScalarInfo, ErrorKind>| call_ensures(f, (x, y), r) ==> r is Ok
}

/// The left argument: the array when `arr_left`, else the scalar.
pub open spec fn lhs_of(arr_left: bool, a: VInfo, s: VInfo) -> VInfo {
    if arr_left { a } else { s }
}

/// The right argument: the scalar when `arr_left`, else the array.
pub open spec fn rhs_of(arr_left: bool, a: VInfo, s: VInfo) -> VInfo {
    if arr_left { s } else { a }
}

proof fn lemma_dy_seq<F: Fn(ScalarInfo, ScalarInfo) -> Result<ScalarInfo, ErrorKind>>(
    f: F,
    d: Seq<VInfo>,
    s: VInfo,
    al: bool,
    d2: Seq<VInfo>,
    e: ErrorKind,
    p: spec_fn(ScalarInfo, ScalarInfo) -> bool,
)
    ensures
        dy_seq(f, d, s, al, d2) <==> (d2.len() == d.len() && forall|i: int|
            0 <= i < d.len() ==> dy_mapped(f, lhs_of(al, #[trigger] d[i], s), rhs_of(al, d[i], s), d2[i])),
        dy_all_seq(d, s, al, p) <==> forall|i: int| 0 <= i < d.len() ==> dy_all(lhs_of(al, #[trigger] d[i], s), rhs_of(al, d[i], s), p),
        dy_fails_seq(f, d, s, al, e) <==> exists|i: int| 0 <= i < d.len() && dy_fails(f, lhs_of(al, #[trigger] d[i], s), rhs_of(al, d[i], s), e),
        dy_sup_seq(d, s, al) <==> forall|i: int| 0 <= i < d.len() ==> dy_sup(lhs_of(al, #[trigger] d[i], s), rhs_of(al, d[i], s)),
    decreases d.len(),
{
    if d.len() > 0 {
        let t = d.subrange(1, d.len() as int);
        let t2 = d2.subrange(1, d2.len() as int);
        lemma_dy_seq(f, t, s, al, t2, e, p);
        assert forall|i: int| 0 < i < d.len() implies #[trigger] d[i] == t[i - 1] by {}
        if d2.len() == d.len() {
            assert forall|i: int| 0 < i < d.len() implies #[trigger] d2[i] == t2[i - 1] by {}
            if forall|i: int| 0 <= i < d.len() ==> dy_mapped(f, lhs_of(al, #[trigger] d[i], s), rhs_of(al, d[i], s), d2[i]) {
                assert forall|i: int| 0 <= i < t.len() implies dy_mapped(f, lhs_of(al, #[trigger] t[i], s), rhs_of(al, t[i], s), t2[i]) by {
                    assert(d[i + 1] == t[i]);
                }
            }
        }
        if forall|i: int| 0 <= i < d.len() ==> dy_all(lhs_of(al, #[trigger] d[i], s), rhs_of(al, d[i], s), p) {
            assert forall|i: int| 0 <= i < t.len() implies dy_all(lhs_of(al, #[trigger] t[i], s), rhs_of(al, t[i], s), p) by {
                assert(d[i + 1] == t[i]);
            }
        }
        if forall|i: int| 0 <= i < d.len() ==> dy_sup(lhs_of(al, #[trigger] d[i], s), rhs_of(al, d[i], s)) {
            assert forall|i: int| 0 <= i < t.len() implies dy_sup(lhs_of(al, #[trigger] t[i], s), rhs_of(al, t[i], s)) by {
                assert(d[i + 1] == t[i]);
            }
        }
        if dy_fails_seq(f, t, s, al, e) {
            let i = choose|i: int| 0 <= i < t.len() && dy_fails(f, lhs_of(al, #[trigger] t[i], s), rhs_of(al, t[i], s), e);
            assert(d[i + 1] == t[i]);
        }
        if exists|i: int| 0 <= i < d.len() && dy_fails(f, lhs_of(al, #[trigger] d[i], s), rhs_of(al, d[i], s), e) {
            let i = choose|i: int| 0 <= i < d.len() && dy_fails(f, lhs_of(al, #[trigger] d[i], s), rhs_of(al, d[i], s), e);
            if i > 0 {
                assert(t[i - 1] == d[i]);
            }
        }
    }
}


/// A pervasive primitive on an array and a scalar, the array first when
/// `arr_left`: each element and the element type meet the scalar.
fn dyadic_array_scalar<F: Fn(ScalarInfo, ScalarInfo) -> Result<ScalarInfo, ErrorKind>>(
    arr: &ArrayInfo,
    sc: &ValueInfo,
    arr_left: bool,
    scalar_func: &F,
) -> (r: Result<ArrayInfo, ErrorKind>)
    requires
        vinfo(*sc) is Scalar,
        dy_sup(lhs_of(arr_left, VInfo::Array(Box::new(ainfo(*arr))), vinfo(*sc)), rhs_of(arr_left, VInfo::Array(Box::new(ainfo(*arr))), vinfo(*sc))),
        dy_all(lhs_of(arr_left, VInfo::Array(Box::new(ainfo(*arr))), vinfo(*sc)), rhs_of(arr_left, VInfo::Array(Box::new(ainfo(*arr))), vinfo(*sc)), pre2_of(*scalar_func)),
    ensures
        r matches Ok(o) ==> dy_mapped(
            *scalar_func,
            lhs_of(arr_left, VInfo::Array(Box::new(ainfo(*arr))), vinfo(*sc)),
            rhs_of(arr_left, VInfo::Array(Box::new(ainfo(*arr))), vinfo(*sc)),
            VInfo::Array(Box::new(ainfo(o))),
        ),
        r matches Err(e) ==> dy_fails(
            *scalar_func,
            lhs_of(arr_left, VInfo::Array(Box::new(ainfo(*arr))), vinfo(*sc)),
            rhs_of(arr_left, VInfo::Array(Box::new(ainfo(*arr))), vinfo(*sc)),
            e,
        ),
        dy_all(lhs_of(arr_left, VInfo::Array(Box::new(ainfo(*arr))), vinfo(*sc)), rhs_of(arr_left, VInfo::Array(Box::new(ainfo(*arr))), vinfo(*sc)), ok2_of(*scalar_func)) ==> r is Ok,
    decreases asize(ainfo(*arr)) + vsize(vinfo(*sc)),
{
    let ghost a = VInfo::Array(Box::new(ainfo(*arr)));
    let ghost sv = vinfo(*sc);
    match arr {
        ArrayInfo::Known { element_type, value } => {
            let ghost d = values_view(value.data@);
            proof {
                lemma_values_view(value.data@);
                lemma_dy_seq(*scalar_func, d, sv, arr_left, d, ErrorKind::Unranked(""), pre2_of(*scalar_func));
                lemma_dy_seq(*scalar_func, d, sv, arr_left, d, ErrorKind::Unranked(""), ok2_of(*scalar_func));
            }
            assert(ainfo(*arr) == AInfo::Known(vinfo(*element_type), value.shape@, d));
            let (l, r) = if arr_left { (element_type, sc) } else { (sc, element_type) };
            let e = match pervasive_dyadic_rec(l, r, scalar_func) {
                Ok(e) => e,
                Err(err) => return Err(err),
            };
            let mut out: Vec<ValueInfo> = Vec::new();
            let mut i: usize = 0;
            while i < value.data.len()
                invariant
                    i <= value.data.len(),
                    out.len() == i,
                    d == values_view(value.data@),
                    d.len() == value.data.len(),
                    sv == vinfo(*sc),
                    sv is Scalar,
                    ssize(d) < asize(ainfo(*arr)),
                    ainfo(*arr) == AInfo::Known(vinfo(*element_type), value.shape@, d),
                    a == VInfo::Array(Box::new(ainfo(*arr))),
                    forall|j: int| 0 <= j < value.data.len() ==> #[trigger] d[j] == vinfo(value.data@[j]),
                    forall|j: int| 0 <= j < d.len() ==> dy_sup(lhs_of(arr_left, #[trigger] d[j], sv), rhs_of(arr_left, d[j], sv)),
                    forall|j: int| 0 <= j < d.len() ==> dy_all(lhs_of(arr_left, #[trigger] d[j], sv), rhs_of(arr_left, d[j], sv), pre2_of(*scalar_func)),
                    forall|j: int| 0 <= j < i ==> dy_mapped(*scalar_func, lhs_of(arr_left, #[trigger] d[j], sv), rhs_of(arr_left, d[j], sv), vinfo(out@[j])),
                decreases value.data.len() - i,
            {
                assert(d[i as int] == vinfo(value.data@[i as int]));
                proof {
                    lemma_ssize_elem(d, i as int);
                }
                let (l, r) = if arr_left { (&value.data[i], sc) } else { (sc, &value.data[i]) };
                match pervasive_dyadic_rec(l, r, scalar_func) {
                    Ok(v) => {
                        out.push(v);
                    },
                    Err(err) => {
                        proof {
                            lemma_dy_seq(*scalar_func, d, sv, arr_left, d, err, ok2_of(*scalar_func));
                            assert(dy_fails(*scalar_func, lhs_of(arr_left, d[i as int], sv), rhs_of(arr_left, d[i as int], sv), err));
                            assert(dy_fails_seq(*scalar_func, d, sv, arr_left, err));
                            if arr_left {
                                assert(dy_fails(*scalar_func, a, sv, err));
                                if dy_all(a, sv, ok2_of(*scalar_func)) {
                                    assert(dy_all_seq(d, sv, arr_left, ok2_of(*scalar_func)));
                                    assert(dy_all(lhs_of(arr_left, d[i as int], sv), rhs_of(arr_left, d[i as int], sv), ok2_of(*scalar_func)));
                                }
                            } else {
                                assert(dy_fails(*scalar_func, sv, a, err));
                                if dy_all(sv, a, ok2_of(*scalar_func)) {
                                    assert(dy_all_seq(d, sv, arr_left, ok2_of(*scalar_func)));
                                    assert(dy_all(lhs_of(arr_left, d[i as int], sv), rhs_of(arr_left, d[i as int], sv), ok2_of(*scalar_func)));
                                }
                            }
                        }
                        return Err(err);
                    },
                }
                i = i + 1;
            }
            proof {
                lemma_values_view(out@);
                lemma_dy_seq(*scalar_func, d, sv, arr_left, values_view(out@), ErrorKind::Unranked(""), ok2_of(*scalar_func));
                assert forall|j: int| 0 <= j < d.len() implies dy_mapped(*scalar_func, lhs_of(arr_left, #[trigger] d[j], sv), rhs_of(arr_left, d[j], sv), values_view(out@)[j]) by {
                    assert(values_view(out@)[j] == vinfo(out@[j]));
                }
            }
            let res = ArrayInfo::Known { element_type: e, value: ArrayValue { shape: clone_usizes(&value.shape), data: out } };
            assert(ainfo(res) == AInfo::Known(vinfo(e), value.shape@, values_view(out@)));
            Ok(res)
        },
        ArrayInfo::Ranked { element_type, shape } => {
            assert(ainfo(*arr) == AInfo::Ranked(vinfo(*element_type), shape_view(shape@)));
            let (l, r) = if arr_left { (element_type, sc) } else { (sc, element_type) };
            let e = match pervasive_dyadic_rec(l, r, scalar_func) {
                Ok(e) => e,
                Err(err) => return Err(err),
            };
            let res = ArrayInfo::Ranked { element_type: e, shape: clone_shape(shape) };
            assert(ainfo(res) == AInfo::Ranked(vinfo(e), shape_view(shape@)));
            Ok(res)
        },
        ArrayInfo::Unranked { element_type, shape_prefix, shape_suffix } => {
            assert(ainfo(*arr) == AInfo::Unranked(vinfo(*element_type), shape_view(shape_prefix@), shape_view(shape_suffix@)));
            let (l, r) = if arr_left { (element_type, sc) } else { (sc, element_type) };
            let e = match pervasive_dyadic_rec(l, r, scalar_func) {
                Ok(e) => e,
                Err(err) => return Err(err),
            };
            let res = ArrayInfo::Unranked {
                element_type: e,
                shape_prefix: clone_shape(shape_prefix),
                shape_suffix: clone_shape(shape_suffix),
            };
            assert(ainfo(res) == AInfo::Unranked(vinfo(e), shape_view(shape_prefix@), shape_view(shape_suffix@)));
            Ok(res)
        },
    }
}

/// The broadcast of two symbolic shapes.
fn broadcast_shape(lsh: &Vec<Expr>, rsh: &Vec<Expr>) -> (r: Vec<Expr>)
    requires
        forall|i: int| 0 <= i < lsh.len() && i < rsh.len() ==> axes_agree(#[trigger] shape_view(lsh@)[i], shape_view(rsh@)[i]),
    ensures
        shape_view(r@) == bshape(shape_view(lsh@), shape_view(rsh@)),
{
    let ghost a = shape_view(lsh@);
    let ghost b = shape_view(rsh@);
    let n: usize = if lsh.len() < rsh.len() { rsh.len() } else { lsh.len() };
    let mut out: Vec<Expr> = Vec::new();
    let mut i: usize = 0;
    while i < n
        invariant
            i <= n,
            n == bshape(a, b).len(),
            n == (if lsh.len() < rsh.len() { rsh.len() } else { lsh.len() }),
            a == shape_view(lsh@),
            b == shape_view(rsh@),
            forall|j: int| 0 <= j < lsh.len() && j < rsh.len() ==> axes_agree(#[trigger] a[j], b[j]),
            shape_view(out@) =~= bshape(a, b).take(i as int),
        decreases n - i,
    {
        let ghost before = out@;
        let ax = if i < lsh.len() && i < rsh.len() {
            assert(a[i as int] == lsh@[i as int]@);
            assert(b[i as int] == rsh@[i as int]@);
            assert(axes_agree(a[i as int], b[i as int]));
            match (lsh[i].as_const(), rsh[i].as_const()) {
                (Some(lc), Some(rc)) => {
                    if lc == 1 {
                        rsh[i].duplicate()
                    } else if rc == 1 {
                        lsh[i].duplicate()
                    } else {
                        Expr::from_isize(lc)
                    }
                },
                (_, Some(_)) => rsh[i].duplicate(),
                _ => lsh[i].duplicate(),
            }
        } else if i < lsh.len() {
            assert(a[i as int] == lsh@[i as int]@);
            lsh[i].duplicate()
        } else {
            assert(b[i as int] == rsh@[i as int]@);
            rsh[i].duplicate()
        };
        out.push(ax);
        assert(shape_view(out@) =~= shape_view(before).push(ax@));
        assert(bshape(a, b).take(i + 1) =~= bshape(a, b).take(i as int).push(bshape(a, b)[i as int]));
        i = i + 1;
    }
    assert(bshape(a, b).take(i as int) =~= bshape(a, b));
    out
}

/// The type of the result of a pervasive dyadic primitive with the scalar
/// function `scalar_func`: a scalar meets every element of an array (and its
/// element type) or the value type of a map; two arrays of known rank give a
/// ranked array of the broadcast shape. Shapes must already have been
/// matched.
pub fn pervasive_dyadic_rec<F: Fn(ScalarInfo, ScalarInfo) -> Result<ScalarInfo, ErrorKind>>(
    lhs_info: &ValueInfo,
    rhs_info: &ValueInfo,
    scalar_func: &F,
) -> (r: Result<ValueInfo, ErrorKind>)
    requires
        dy_sup(vinfo(*lhs_info), vinfo(*rhs_info)),
        dy_all(vinfo(*lhs_info), vinfo(*rhs_info), pre2_of(*scalar_func)),
    ensures
        r matches Ok(o) ==> dy_mapped(*scalar_func, vinfo(*lhs_info), vinfo(*rhs_info), vinfo(o)),
        r matches Err(e) ==> dy_fails(*scalar_func, vinfo(*lhs_info), vinfo(*rhs_info), e),
        dy_all(vinfo(*lhs_info), vinfo(*rhs_info), ok2_of(*scalar_func)) ==> r is Ok,
    decreases vsize(vinfo(*lhs_info)) + vsize(vinfo(*rhs_info)),
{
    match (lhs_info, rhs_info) {
        (ValueInfo::Scalar(x), ValueInfo::Scalar(y)) => {
            let z = scalar_func(*x, *y);
            match z {
                Ok(v) => Ok(ValueInfo::Scalar(v)),
                Err(e) => Err(e),
            }
        },
        (ValueInfo::Array(a), ValueInfo::Scalar(_)) => {
            assert(vinfo(*lhs_info) == VInfo::Array(Box::new(ainfo(**a))));
            match dyadic_array_scalar(a, rhs_info, true, scalar_func) {
                Ok(o) => Ok(ValueInfo::Array(Box::new(o))),
                Err(e) => Err(e),
            }
        },
        (ValueInfo::Scalar(_), ValueInfo::Array(a)) => {
            assert(vinfo(*rhs_info) == VInfo::Array(Box::new(ainfo(**a))));
            match dyadic_array_scalar(a, lhs_info, false, scalar_func) {
                Ok(o) => Ok(ValueInfo::Array(Box::new(o))),
                Err(e) => Err(e),
            }
        },
        (ValueInfo::Mapping(m), ValueInfo::Scalar(_)) => {
            let v = match pervasive_dyadic_rec(&m.value_type, rhs_info, scalar_func) {
                Ok(v) => v,
                Err(e) => return Err(e),
            };
            Ok(ValueInfo::Mapping(Box::new(MapInfo { key_type: m.key_type.duplicate(), value_type: v })))
        },
        (ValueInfo::Scalar(_), ValueInfo::Mapping(m)) => {
            let v = match pervasive_dyadic_rec(lhs_info, &m.value_type, scalar_func) {
                Ok(v) => v,
                Err(e) => return Err(e),
            };
            Ok(ValueInfo::Mapping(Box::new(MapInfo { key_type: m.key_type.duplicate(), value_type: v })))
        },
        (ValueInfo::Array(la), ValueInfo::Array(ra)) => {
            assert(vinfo(*lhs_info) == VInfo::Array(Box::new(ainfo(**la))));
            assert(vinfo(*rhs_info) == VInfo::Array(Box::new(ainfo(**ra))));
            let lsh = match la.sym_shape() {
                Some(s) => s,
                None => {
                    proof {
                        assert(false);
                    }
                    return Err(ErrorKind::Unranked(""));
                },
            };
            let rsh = match ra.sym_shape() {
                Some(s) => s,
                None => {
                    proof {
                        assert(false);
                    }
                    return Err(ErrorKind::Unranked(""));
                },
            };
            let ghost sa = shape_view(lsh@);
            let ghost sb = shape_view(rsh@);
            assert(sym_shape_of(ainfo(**la)) == Some(sa));
            assert(sym_shape_of(ainfo(**ra)) == Some(sb));
            assert(forall|i: int| 0 <= i < sa.len() && i < sb.len() ==> axes_agree(#[trigger] sa[i], sb[i]));
            let shape = broadcast_shape(&lsh, &rsh);
            let e = match (&**la, &**ra) {
                (ArrayInfo::Known { element_type: x, .. }, ArrayInfo::Known { element_type: y, .. }) => pervasive_dyadic_rec(x, y, scalar_func),
                (ArrayInfo::Known { element_type: x, .. }, ArrayInfo::Ranked { element_type: y, .. }) => pervasive_dyadic_rec(x, y, scalar_func),
                (ArrayInfo::Ranked { element_type: x, .. }, ArrayInfo::Known { element_type: y, .. }) => pervasive_dyadic_rec(x, y, scalar_func),
                (ArrayInfo::Ranked { element_type: x, .. }, ArrayInfo::Ranked { element_type: y, .. }) => pervasive_dyadic_rec(x, y, scalar_func),
                _ => {
                    proof {
                        assert(false);
                    }
                    return Err(ErrorKind::Unranked(""));
                },
            };
            let e = match e {
                Ok(e) => e,
                Err(err) => return Err(err),
            };
            let inner = ArrayInfo::Ranked { element_type: e, shape };
            assert(ainfo(inner) == AInfo::Ranked(vinfo(e), shape_view(shape@)));
            Ok(ValueInfo::Array(Box::new(inner)))
        },
        _ => {
            proof {
                assert(false);
            }
            Err(ErrorKind::Unranked(""))
        },
    }
}


/// The value on a side.
pub open spec fn on_side<T>(s: Side, lhs: T, rhs: T) -> T {
    if s == Side::Left { lhs } else { rhs }
}

/// The other side.
pub open spec fn flip(s: Side) -> Side {
    match s {
        Side::Left => Side::Right,
        Side::Right => Side::Left,
    }
}

/// How the types of the two arguments of a dyadic primitive are brought to
/// one scalar kind: they already are, the argument on one side is cast from
/// one scalar type to another, they cannot be (with the names of the two
/// types for the message), or the analysis has no rule for them.
pub enum TypeMatch {
    Same,
    Cast(Side, ScalarInfo, ScalarInfo),
    Mismatch(Seq<char>, Seq<char>),
    Unsupported,
}

/// A cast between scalar types as a type match.
pub open spec fn as_type_match(m: ScalarTypeMatch, mismatch: TypeMatch) -> TypeMatch {
    match m {
        ScalarTypeMatch::Identical => TypeMatch::Same,
        ScalarTypeMatch::Matching(side, from, to) => TypeMatch::Cast(side, from, to),
        ScalarTypeMatch::Mismatched => mismatch,
    }
}

/// The mismatch naming a scalar type and an array type, if the array's type
/// can be named.
pub open spec fn scalar_array_mismatch(a: ScalarInfo, arr: AInfo) -> TypeMatch {
    if anameable(arr) {
        TypeMatch::Mismatch(scalar_name(a), atype_text(arr))
    } else {
        TypeMatch::Unsupported
    }
}

/// A scalar (first) against an array (second): the scalar type of the array's
/// elements decides.
pub open spec fn scalar_array_match(a: ScalarInfo, arr: AInfo) -> TypeMatch {
    match scalar_of(elem_of(arr)) {
        None => scalar_array_mismatch(a, arr),
        Some(t) => as_type_match(scalar_match(a, t), scalar_array_mismatch(a, arr)),
    }
}

/// The mismatch naming two array types, if both can be named.
pub open spec fn arrays_mismatch(x: AInfo, y: AInfo) -> TypeMatch {
    if anameable(x) && anameable(y) {
        TypeMatch::Mismatch(atype_text(x), atype_text(y))
    } else {
        TypeMatch::Unsupported
    }
}

/// How the types of a left and a right argument are brought to one scalar
/// kind. An array against a scalar is matched as the scalar against the
/// array, so its message names the scalar type first.
pub open spec fn type_match(l: VInfo, r: VInfo) -> TypeMatch {
    match (l, r) {
        (VInfo::Scalar(a), VInfo::Scalar(b)) => as_type_match(
            scalar_match(a, b),
            TypeMatch::Mismatch(scalar_name(a), scalar_name(b)),
        ),
        (VInfo::Scalar(a), VInfo::Array(arr)) => scalar_array_match(a, *arr),
        (VInfo::Array(arr), VInfo::Scalar(a)) => match scalar_array_match(a, *arr) {
            TypeMatch::Cast(side, from, to) => TypeMatch::Cast(flip(side), from, to),
            other => other,
        },
        (VInfo::Array(x), VInfo::Array(y)) => match (scalar_of(elem_of(*x)), scalar_of(elem_of(*y))) {
            (Some(a), Some(b)) => as_type_match(scalar_match(a, b), arrays_mismatch(*x, *y)),
            _ => arrays_mismatch(*x, *y),
        },
        _ => TypeMatch::Unsupported,
    }
}

/// A cast to insert before a dyadic primitive: the argument on `side` goes
/// through the operation `op` and then has the type `info`.
pub struct TypeCast {
    pub side: Side,
    pub op: TirOp,
    pub info: ValueInfo,
}

/// A value's type with the scalar type at its bottom replaced by `to`.
fn cast_info(info: &ValueInfo, to: ScalarInfo) -> (r: ValueInfo)
    requires
        scalar_of(vinfo(*info)) is Some,
    ensures
        vinfo(r) == with_scalar(vinfo(*info), to),
{
    let mut v = info.duplicate();
    match v.scalar_type_mut() {
        Some(x) => {
            *x = to;
        },
        None => {},
    }
    v
}

/// The cast a type match asks for, with the new type of the cast argument.
fn cast_for(side: Side, from: ScalarInfo, to: ScalarInfo, lhs_info: &ValueInfo, rhs_info: &ValueInfo) -> (r: TypeCast)
    requires
        scalar_of(vinfo(on_side(side, *lhs_info, *rhs_info))) is Some,
    ensures
        r.side == side,
        r.op == (TirOp::CastNum { from, to }),
        vinfo(r.info) == with_scalar(vinfo(on_side(side, *lhs_info, *rhs_info)), to),
{
    let info = cast_info(side.select(lhs_info, rhs_info), to);
    TypeCast { side, op: TirOp::CastNum { from, to }, info }
}

/// The error for two types that no cast brings together.
fn incompatible(func_name: &'static str, a: String, b: String) -> (r: ErrorKind)
    ensures
        r == ErrorKind::IncompatibleTypes(func_name, a, b),
{
    ErrorKind::IncompatibleTypes(func_name, a, b)
}

/// Which argument of a dyadic primitive to cast, and to what, so that both
/// have one scalar kind: `None` when they already have, the cast otherwise,
/// or an error naming the two types when no cast brings them together.
pub fn try_match_types(func_name: &'static str, lhs_info: &ValueInfo, rhs_info: &ValueInfo) -> (r: Result<Option<TypeCast>, ErrorKind>)
    requires
        !(type_match(vinfo(*lhs_info), vinfo(*rhs_info)) is Unsupported),
    ensures
        type_match(vinfo(*lhs_info), vinfo(*rhs_info)) is Same <==> r matches Ok(None),
        type_match(vinfo(*lhs_info), vinfo(*rhs_info)) matches TypeMatch::Cast(side, from, to) ==> r matches Ok(
            Some(c),
        ) && c.side == side && c.op == (TirOp::CastNum { from, to }) && vinfo(c.info) == with_scalar(
            vinfo(on_side(side, *lhs_info, *rhs_info)),
            to,
        ),
        type_match(vinfo(*lhs_info), vinfo(*rhs_info)) matches TypeMatch::Mismatch(a, b) ==> r matches Err(
            ErrorKind::IncompatibleTypes(n, x, y),
        ) && n == func_name && x@ == a && y@ == b,
{
    match (lhs_info, rhs_info) {
        (ValueInfo::Scalar(l), ValueInfo::Scalar(r)) => match try_match_scalar_types(*l, *r) {
            ScalarTypeMatch::Identical => Ok(None),
            ScalarTypeMatch::Matching(side, from, to) => Ok(Some(cast_for(side, from, to, lhs_info, rhs_info))),
            ScalarTypeMatch::Mismatched => Err(
                incompatible(func_name, String::from_str(l.type_label()), String::from_str(r.type_label())),
            ),
        },
        (ValueInfo::Scalar(s), ValueInfo::Array(arr)) => {
            match arr.scalar_type() {
                None => Err(incompatible(func_name, String::from_str(s.type_label()), arr.type_label())),
                Some(t) => match try_match_scalar_types(*s, t) {
                    ScalarTypeMatch::Identical => Ok(None),
                    ScalarTypeMatch::Matching(side, from, to) => Ok(
                        Some(cast_for(side, from, to, lhs_info, rhs_info)),
                    ),
                    ScalarTypeMatch::Mismatched => Err(
                        incompatible(func_name, String::from_str(s.type_label()), arr.type_label()),
                    ),
                },
            }
        },
        (ValueInfo::Array(arr), ValueInfo::Scalar(s)) => {
            match arr.scalar_type() {
                None => Err(incompatible(func_name, String::from_str(s.type_label()), arr.type_label())),
                Some(t) => match try_match_scalar_types(*s, t) {
                    ScalarTypeMatch::Identical => Ok(None),
                    ScalarTypeMatch::Matching(side, from, to) => {
                        let actual = match side {
                            Side::Left => Side::Right,
                            Side::Right => Side::Left,
                        };
                        Ok(Some(cast_for(actual, from, to, lhs_info, rhs_info)))
                    },
                    ScalarTypeMatch::Mismatched => Err(
                        incompatible(func_name, String::from_str(s.type_label()), arr.type_label()),
                    ),
                },
            }
        },
        (ValueInfo::Array(x), ValueInfo::Array(y)) => {
            match (x.scalar_type(), y.scalar_type()) {
                (Some(a), Some(b)) => match try_match_scalar_types(a, b) {
                    ScalarTypeMatch::Identical => Ok(None),
                    ScalarTypeMatch::Matching(side, from, to) => Ok(
                        Some(cast_for(side, from, to, lhs_info, rhs_info)),
                    ),
                    ScalarTypeMatch::Mismatched => Err(incompatible(func_name, x.type_label(), y.type_label())),
                },
                _ => Err(incompatible(func_name, x.type_label(), y.type_label())),
            }
        },
        _ => {
            // No rule covers these kinds: `requires` rules them out.
            proof {
                assert(false);
            }
            Ok(None)
        },
    }
}


/// Matching scalar types does not depend on the order of the arguments:
/// swapping them swaps the side that is cast, and nothing else.
pub proof fn lemma_scalar_match_symmetric(a: ScalarInfo, b: ScalarInfo)
    ensures
        scalar_match(a, b) is Identical <==> scalar_match(b, a) is Identical,
        scalar_match(a, b) is Mismatched <==> scalar_match(b, a) is Mismatched,
        scalar_match(a, b) matches ScalarTypeMatch::Matching(side, from, to) ==> scalar_match(b, a)
            == ScalarTypeMatch::Matching(flip(side), from, to),
{
}

/// Matching the types of two arguments does not depend on their order when
/// a cast is needed: swapping the arguments swaps the side that is cast,
/// and the cast stays the same.
pub proof fn lemma_type_match_symmetric(l: VInfo, r: VInfo)
    ensures
        type_match(l, r) is Same <==> type_match(r, l) is Same,
        type_match(l, r) matches TypeMatch::Cast(side, from, to) ==> type_match(r, l) == TypeMatch::Cast(
            flip(side),
            from,
            to,
        ),
{
    match (l, r) {
        (VInfo::Scalar(a), VInfo::Scalar(b)) => lemma_scalar_match_symmetric(a, b),
        (VInfo::Array(x), VInfo::Array(y)) => match (scalar_of(elem_of(*x)), scalar_of(elem_of(*y))) {
            (Some(a), Some(b)) => lemma_scalar_match_symmetric(a, b),
            _ => {},
        },
        _ => {},
    }
}


/// A property of every pair of scalars holds of all pairs a primitive meets.
pub proof fn lemma_dy_all_true(l: VInfo, r: VInfo, p: spec_fn(ScalarInfo, ScalarInfo) -> bool)
    requires
        forall|x: ScalarInfo, y: ScalarInfo| #[trigger] p(x, y),
    ensures
        dy_all(l, r, p),
    decreases vsize(l) + vsize(r),
{
    match (l, r) {
        (VInfo::Array(aa), VInfo::Scalar(_)) => match *aa {
            AInfo::Known(e, _, d) => {
                lemma_dy_all_true(e, r, p);
                lemma_dy_all_true_seq(d, r, true, p);
            },
            AInfo::Ranked(e, _) => lemma_dy_all_true(e, r, p),
            AInfo::Unranked(e, _, _) => lemma_dy_all_true(e, r, p),
        },
        (VInfo::Scalar(_), VInfo::Array(aa)) => match *aa {
            AInfo::Known(e, _, d) => {
                lemma_dy_all_true(l, e, p);
                lemma_dy_all_true_seq(d, l, false, p);
            },
            AInfo::Ranked(e, _) => lemma_dy_all_true(l, e, p),
            AInfo::Unranked(e, _, _) => lemma_dy_all_true(l, e, p),
        },
        (VInfo::Mapping(_, v), VInfo::Scalar(_)) => lemma_dy_all_true(*v, r, p),
        (VInfo::Scalar(_), VInfo::Mapping(_, v)) => lemma_dy_all_true(l, *v, p),
        (VInfo::Array(la), VInfo::Array(ra)) => match (*la, *ra) {
            (AInfo::Known(x, _, _), AInfo::Known(y, _, _)) => lemma_dy_all_true(x, y, p),
            (AInfo::Known(x, _, _), AInfo::Ranked(y, _)) => lemma_dy_all_true(x, y, p),
            (AInfo::Ranked(x, _), AInfo::Known(y, _, _)) => lemma_dy_all_true(x, y, p),
            (AInfo::Ranked(x, _), AInfo::Ranked(y, _)) => lemma_dy_all_true(x, y, p),
            _ => {},
        },
        _ => {},
    }
}

proof fn lemma_dy_all_true_seq(d: Seq<VInfo>, s: VInfo, arr_left: bool, p: spec_fn(ScalarInfo, ScalarInfo) -> bool)
    requires
        forall|x: ScalarInfo, y: ScalarInfo| #[trigger] p(x, y),
    ensures
        dy_all_seq(d, s, arr_left, p),
    decreases ssize(d) + vsize(s),
{
    if d.len() > 0 {
        lemma_ssize_elem(d, 0);
        let t = d.subrange(1, d.len() as int);
        assert(ssize(d) == vsize(d[0]) + 1 + ssize(t));
        if arr_left {
            lemma_dy_all_true(d[0], s, p);
        } else {
            lemma_dy_all_true(s, d[0], p);
        }
        lemma_dy_all_true_seq(t, s, arr_left, p);
    }
}


/// The output type of a pervasive dyadic primitive whose scalar function
/// gives `g` of each pair of scalars: a scalar against an array or a map
/// goes with each element (and the element type), and two arrays of known
/// rank give a ranked array of their element types under the broadcast
/// shape.
pub open spec fn dmap(l: VInfo, r: VInfo, g: spec_fn(ScalarInfo, ScalarInfo) -> ScalarInfo) -> VInfo
    decreases vsize(l) + vsize(r),
{
    match (l, r) {
        (VInfo::Scalar(x), VInfo::Scalar(y)) => VInfo::Scalar(g(x, y)),
        (VInfo::Array(aa), VInfo::Scalar(_)) => VInfo::Array(
            Box::new(
                match *aa {
                    AInfo::Known(e, sh, d) => AInfo::Known(dmap(e, r, g), sh, dmap_seq(d, r, true, g)),
                    AInfo::Ranked(e, sh) => AInfo::Ranked(dmap(e, r, g), sh),
                    AInfo::Unranked(e, p, q) => AInfo::Unranked(dmap(e, r, g), p, q),
                },
            ),
        ),
        (VInfo::Scalar(_), VInfo::Array(aa)) => VInfo::Array(
            Box::new(
                match *aa {
                    AInfo::Known(e, sh, d) => AInfo::Known(dmap(l, e, g), sh, dmap_seq(d, l, false, g)),
                    AInfo::Ranked(e, sh) => AInfo::Ranked(dmap(l, e, g), sh),
                    AInfo::Unranked(e, p, q) => AInfo::Unranked(dmap(l, e, g), p, q),
                },
            ),
        ),
        (VInfo::Mapping(k, v), VInfo::Scalar(_)) => VInfo::Mapping(k, Box::new(dmap(*v, r, g))),
        (VInfo::Scalar(_), VInfo::Mapping(k, v)) => VInfo::Mapping(k, Box::new(dmap(l, *v, g))),
        (VInfo::Array(la), VInfo::Array(ra)) => match (*la, *ra) {
            (AInfo::Unranked(_, _, _), _) => l,
            (_, AInfo::Unranked(_, _, _)) => l,
            _ => VInfo::Array(
                Box::new(
                    AInfo::Ranked(
                        dmap(elem_of(*la), elem_of(*ra), g),
                        bshape(sym_shape_of(*la)->Some_0, sym_shape_of(*ra)->Some_0),
                    ),
                ),
            ),
        },
        _ => l,
    }
}

/// `dmap` of each element of `d` with the scalar `s`, the element first when
/// `arr_left`.
pub open spec fn dmap_seq(d: Seq<VInfo>, s: VInfo, arr_left: bool, g: spec_fn(ScalarInfo, ScalarInfo) -> ScalarInfo) -> Seq<
    VInfo,
>
    decreases ssize(d) + vsize(s),
{
    if d.len() == 0 {
        seq![]
    } else {
        seq![if arr_left { dmap(d[0], s, g) } else { dmap(s, d[0], g) }] + dmap_seq(
            d.subrange(1, d.len() as int),
            s,
            arr_left,
            g,
        )
    }
}

/// When every success of `f` on a pair is `g` of the pair, the output that
/// `dy_mapped` admits is `dmap` of the arguments.
pub proof fn lemma_dy_mapped_det<F: Fn(ScalarInfo, ScalarInfo) -> Result<ScalarInfo, ErrorKind>>(
    f: F,
    g: spec_fn(ScalarInfo, ScalarInfo) -> ScalarInfo,
    l: VInfo,
    r: VInfo,
    o: VInfo,
)
    requires
        forall|x: ScalarInfo, y: ScalarInfo, z: ScalarInfo| #[trigger] call_ensures(f, (x, y), Ok::<ScalarInfo, ErrorKind>(z)) ==> z == g(x, y),
        dy_mapped(f, l, r, o),
    ensures
        o == dmap(l, r, g),
    decreases vsize(l) + vsize(r),
{
    match (l, r) {
        (VInfo::Array(aa), VInfo::Scalar(_)) => {
            let oo = o->Array_0;
            match (*aa, *oo) {
                (AInfo::Known(e, sh, d), AInfo::Known(e2, sh2, d2)) => {
                    lemma_dy_mapped_det(f, g, e, r, e2);
                    lemma_dy_seq_det(f, g, d, r, true, d2);
                },
                (AInfo::Ranked(e, _), AInfo::Ranked(e2, _)) => lemma_dy_mapped_det(f, g, e, r, e2),
                (AInfo::Unranked(e, _, _), AInfo::Unranked(e2, _, _)) => lemma_dy_mapped_det(f, g, e, r, e2),
                _ => {},
            }
        },
        (VInfo::Scalar(_), VInfo::Array(aa)) => {
            let oo = o->Array_0;
            match (*aa, *oo) {
                (AInfo::Known(e, sh, d), AInfo::Known(e2, sh2, d2)) => {
                    lemma_dy_mapped_det(f, g, l, e, e2);
                    lemma_dy_seq_det(f, g, d, l, false, d2);
                },
                (AInfo::Ranked(e, _), AInfo::Ranked(e2, _)) => lemma_dy_mapped_det(f, g, l, e, e2),
                (AInfo::Unranked(e, _, _), AInfo::Unranked(e2, _, _)) => lemma_dy_mapped_det(f, g, l, e, e2),
                _ => {},
            }
        },
        (VInfo::Mapping(_, v), VInfo::Scalar(_)) => lemma_dy_mapped_det(f, g, *v, r, *(o->Mapping_1)),
        (VInfo::Scalar(_), VInfo::Mapping(_, v)) => lemma_dy_mapped_det(f, g, l, *v, *(o->Mapping_1)),
        (VInfo::Array(la), VInfo::Array(ra)) => {
            let oo = o->Array_0;
            match (*oo, *la, *ra) {
                (AInfo::Ranked(e2, _), AInfo::Known(x, _, _), AInfo::Known(y, _, _)) => lemma_dy_mapped_det(f, g, x, y, e2),
                (AInfo::Ranked(e2, _), AInfo::Known(x, _, _), AInfo::Ranked(y, _)) => lemma_dy_mapped_det(f, g, x, y, e2),
                (AInfo::Ranked(e2, _), AInfo::Ranked(x, _), AInfo::Known(y, _, _)) => lemma_dy_mapped_det(f, g, x, y, e2),
                (AInfo::Ranked(e2, _), AInfo::Ranked(x, _), AInfo::Ranked(y, _)) => lemma_dy_mapped_det(f, g, x, y, e2),
                _ => {},
            }
        },
        _ => {},
    }
}

proof fn lemma_dy_seq_det<F: Fn(ScalarInfo, ScalarInfo) -> Result<ScalarInfo, ErrorKind>>(
    f: F,
    g: spec_fn(ScalarInfo, ScalarInfo) -> ScalarInfo,
    d: Seq<VInfo>,
    s: VInfo,
    al: bool,
    d2: Seq<VInfo>,
)
    requires
        forall|x: ScalarInfo, y: ScalarInfo, z: ScalarInfo| #[trigger] call_ensures(f, (x, y), Ok::<ScalarInfo, ErrorKind>(z)) ==> z == g(x, y),
        dy_seq(f, d, s, al, d2),
    ensures
        d2 == dmap_seq(d, s, al, g),
    decreases ssize(d) + vsize(s),
{
    if d.len() > 0 {
        lemma_ssize_elem(d, 0);
        let t = d.subrange(1, d.len() as int);
        let t2 = d2.subrange(1, d2.len() as int);
        assert(ssize(d) == vsize(d[0]) + 1 + ssize(t));
        if al {
            lemma_dy_mapped_det(f, g, d[0], s, d2[0]);
        } else {
            lemma_dy_mapped_det(f, g, s, d[0], d2[0]);
        }
        lemma_dy_seq_det(f, g, t, s, al, t2);
        assert(d2 =~= seq![d2[0]] + t2);
    } else {
        assert(d2 =~= Seq::<VInfo>::empty());
    }
}

/// A property implied by another holds of all pairs a primitive meets when
/// the other does.
pub proof fn lemma_dy_all_weaken(l: VInfo, r: VInfo, p: spec_fn(ScalarInfo, ScalarInfo) -> bool, q: spec_fn(ScalarInfo, ScalarInfo) -> bool)
    requires
        forall|x: ScalarInfo, y: ScalarInfo| #[trigger] p(x, y) ==> q(x, y),
        dy_all(l, r, p),
    ensures
        dy_all(l, r, q),
    decreases vsize(l) + vsize(r),
{
    match (l, r) {
        (VInfo::Array(aa), VInfo::Scalar(_)) => match *aa {
            AInfo::Known(e, _, d) => {
                lemma_dy_all_weaken(e, r, p, q);
                lemma_dy_all_weaken_seq(d, r, true, p, q);
            },
            AInfo::Ranked(e, _) => lemma_dy_all_weaken(e, r, p, q),
            AInfo::Unranked(e, _, _) => lemma_dy_all_weaken(e, r, p, q),
        },
        (VInfo::Scalar(_), VInfo::Array(aa)) => match *aa {
            AInfo::Known(e, _, d) => {
                lemma_dy_all_weaken(l, e, p, q);
                lemma_dy_all_weaken_seq(d, l, false, p, q);
            },
            AInfo::Ranked(e, _) => lemma_dy_all_weaken(l, e, p, q),
            AInfo::Unranked(e, _, _) => lemma_dy_all_weaken(l, e, p, q),
        },
        (VInfo::Mapping(_, v), VInfo::Scalar(_)) => lemma_dy_all_weaken(*v, r, p, q),
        (VInfo::Scalar(_), VInfo::Mapping(_, v)) => lemma_dy_all_weaken(l, *v, p, q),
        (VInfo::Array(la), VInfo::Array(ra)) => match (*la, *ra) {
            (AInfo::Known(x, _, _), AInfo::Known(y, _, _)) => lemma_dy_all_weaken(x, y, p, q),
            (AInfo::Known(x, _, _), AInfo::Ranked(y, _)) => lemma_dy_all_weaken(x, y, p, q),
            (AInfo::Ranked(x, _), AInfo::Known(y, _, _)) => lemma_dy_all_weaken(x, y, p, q),
            (AInfo::Ranked(x, _), AInfo::Ranked(y, _)) => lemma_dy_all_weaken(x, y, p, q),
            _ => {},
        },
        _ => {},
    }
}

proof fn lemma_dy_all_weaken_seq(
    d: Seq<VInfo>,
    s: VInfo,
    arr_left: bool,
    p: spec_fn(ScalarInfo, ScalarInfo) -> bool,
    q: spec_fn(ScalarInfo, ScalarInfo) -> bool,
)
    requires
        forall|x: ScalarInfo, y: ScalarInfo| #[trigger] p(x, y) ==> q(x, y),
        dy_all_seq(d, s, arr_left, p),
    ensures
        dy_all_seq(d, s, arr_left, q),
    decreases ssize(d) + vsize(s),
{
    if d.len() > 0 {
        lemma_ssize_elem(d, 0);
        let t = d.subrange(1, d.len() as int);
        assert(ssize(d) == vsize(d[0]) + 1 + ssize(t));
        if arr_left {
            lemma_dy_all_weaken(d[0], s, p, q);
        } else {
            lemma_dy_all_weaken(s, d[0], p, q);
        }
        lemma_dy_all_weaken_seq(t, s, arr_left, p, q);
    }
}


/// When every success of `f` on a pair implies `q` of it, every pair that an
/// output admitted by `dy_mapped` met satisfies `q`.
pub proof fn lemma_dy_mapped_all<F: Fn(ScalarInfo, ScalarInfo) -> Result<ScalarInfo, ErrorKind>>(
    f: F,
    q: spec_fn(ScalarInfo, ScalarInfo) -> bool,
    l: VInfo,
    r: VInfo,
    o: VInfo,
)
    requires
        forall|x: ScalarInfo, y: ScalarInfo, z: ScalarInfo| #[trigger] call_ensures(f, (x, y), Ok::<ScalarInfo, ErrorKind>(z)) ==> q(x, y),
        dy_mapped(f, l, r, o),
    ensures
        dy_all(l, r, q),
    decreases vsize(l) + vsize(r),
{
    match (l, r) {
        (VInfo::Array(aa), VInfo::Scalar(_)) => {
            let oo = o->Array_0;
            match (*aa, *oo) {
                (AInfo::Known(e, _, d), AInfo::Known(e2, _, d2)) => {
                    lemma_dy_mapped_all(f, q, e, r, e2);
                    lemma_dy_seq_all(f, q, d, r, true, d2);
                },
                (AInfo::Ranked(e, _), AInfo::Ranked(e2, _)) => lemma_dy_mapped_all(f, q, e, r, e2),
                (AInfo::Unranked(e, _, _), AInfo::Unranked(e2, _, _)) => lemma_dy_mapped_all(f, q, e, r, e2),
                _ => {},
            }
        },
        (VInfo::Scalar(_), VInfo::Array(aa)) => {
            let oo = o->Array_0;
            match (*aa, *oo) {
                (AInfo::Known(e, _, d), AInfo::Known(e2, _, d2)) => {
                    lemma_dy_mapped_all(f, q, l, e, e2);
                    lemma_dy_seq_all(f, q, d, l, false, d2);
                },
                (AInfo::Ranked(e, _), AInfo::Ranked(e2, _)) => lemma_dy_mapped_all(f, q, l, e, e2),
                (AInfo::Unranked(e, _, _), AInfo::Unranked(e2, _, _)) => lemma_dy_mapped_all(f, q, l, e, e2),
                _ => {},
            }
        },
        (VInfo::Mapping(_, v), VInfo::Scalar(_)) => lemma_dy_mapped_all(f, q, *v, r, *(o->Mapping_1)),
        (VInfo::Scalar(_), VInfo::Mapping(_, v)) => lemma_dy_mapped_all(f, q, l, *v, *(o->Mapping_1)),
        (VInfo::Array(la), VInfo::Array(ra)) => {
            let oo = o->Array_0;
            match (*oo, *la, *ra) {
                (AInfo::Ranked(e2, _), AInfo::Known(x, _, _), AInfo::Known(y, _, _)) => lemma_dy_mapped_all(f, q, x, y, e2),
                (AInfo::Ranked(e2, _), AInfo::Known(x, _, _), AInfo::Ranked(y, _)) => lemma_dy_mapped_all(f, q, x, y, e2),
                (AInfo::Ranked(e2, _), AInfo::Ranked(x, _), AInfo::Known(y, _, _)) => lemma_dy_mapped_all(f, q, x, y, e2),
                (AInfo::Ranked(e2, _), AInfo::Ranked(x, _), AInfo::Ranked(y, _)) => lemma_dy_mapped_all(f, q, x, y, e2),
                _ => {},
            }
        },
        _ => {},
    }
}

proof fn lemma_dy_seq_all<F: Fn(ScalarInfo, ScalarInfo) -> Result<ScalarInfo, ErrorKind>>(
    f: F,
    q: spec_fn(ScalarInfo, ScalarInfo) -> bool,
    d: Seq<VInfo>,
    s: VInfo,
    al: bool,
    d2: Seq<VInfo>,
)
    requires
        forall|x: ScalarInfo, y: ScalarInfo, z: ScalarInfo| #[trigger] call_ensures(f, (x, y), Ok::<ScalarInfo, ErrorKind>(z)) ==> q(x, y),
        dy_seq(f, d, s, al, d2),
    ensures
        dy_all_seq(d, s, al, q),
    decreases ssize(d) + vsize(s),
{
    if d.len() > 0 {
        lemma_ssize_elem(d, 0);
        let t = d.subrange(1, d.len() as int);
        let t2 = d2.subrange(1, d2.len() as int);
        assert(ssize(d) == vsize(d[0]) + 1 + ssize(t));
        if al {
            lemma_dy_mapped_all(f, q, d[0], s, d2[0]);
        } else {
            lemma_dy_mapped_all(f, q, s, d[0], d2[0]);
        }
        lemma_dy_seq_all(f, q, t, s, al, t2);
    }
}

/// When every failure of `f` on a pair satisfies `h`, so does every error
/// that `dy_fails` admits.
pub proof fn lemma_dy_fails_kind<F: Fn(ScalarInfo, ScalarInfo) -> Result<ScalarInfo, ErrorKind>>(
    f: F,
    h: spec_fn(ErrorKind) -> bool,
    l: VInfo,
    r: VInfo,
    e: ErrorKind,
)
    requires
        forall|x: ScalarInfo, y: ScalarInfo, e2: ErrorKind| #[trigger] call_ensures(f, (x, y), Err::<ScalarInfo, ErrorKind>(e2)) ==> h(e2),
        dy_fails(f, l, r, e),
    ensures
        h(e),
    decreases vsize(l) + vsize(r),
{
    match (l, r) {
        (VInfo::Array(aa), VInfo::Scalar(_)) => match *aa {
            AInfo::Known(el, _, d) => {
                if dy_fails(f, el, r, e) {
                    lemma_dy_fails_kind(f, h, el, r, e);
                } else {
                    lemma_dy_fails_seq_kind(f, h, d, r, true, e);
                }
            },
            AInfo::Ranked(el, _) => lemma_dy_fails_kind(f, h, el, r, e),
            AInfo::Unranked(el, _, _) => lemma_dy_fails_kind(f, h, el, r, e),
        },
        (VInfo::Scalar(_), VInfo::Array(aa)) => match *aa {
            AInfo::Known(el, _, d) => {
                if dy_fails(f, l, el, e) {
                    lemma_dy_fails_kind(f, h, l, el, e);
                } else {
                    lemma_dy_fails_seq_kind(f, h, d, l, false, e);
                }
            },
            AInfo::Ranked(el, _) => lemma_dy_fails_kind(f, h, l, el, e),
            AInfo::Unranked(el, _, _) => lemma_dy_fails_kind(f, h, l, el, e),
        },
        (VInfo::Mapping(_, v), VInfo::Scalar(_)) => lemma_dy_fails_kind(f, h, *v, r, e),
        (VInfo::Scalar(_), VInfo::Mapping(_, v)) => lemma_dy_fails_kind(f, h, l, *v, e),
        (VInfo::Array(la), VInfo::Array(ra)) => match (*la, *ra) {
            (AInfo::Known(x, _, _), AInfo::Known(y, _, _)) => lemma_dy_fails_kind(f, h, x, y, e),
            (AInfo::Known(x, _, _), AInfo::Ranked(y, _)) => lemma_dy_fails_kind(f, h, x, y, e),
            (AInfo::Ranked(x, _), AInfo::Known(y, _, _)) => lemma_dy_fails_kind(f, h, x, y, e),
            (AInfo::Ranked(x, _), AInfo::Ranked(y, _)) => lemma_dy_fails_kind(f, h, x, y, e),
            _ => {},
        },
        _ => {},
    }
}

proof fn lemma_dy_fails_seq_kind<F: Fn(ScalarInfo, ScalarInfo) -> Result<ScalarInfo, ErrorKind>>(
    f: F,
    h: spec_fn(ErrorKind) -> bool,
    d: Seq<VInfo>,
    s: VInfo,
    al: bool,
    e: ErrorKind,
)
    requires
        forall|x: ScalarInfo, y: ScalarInfo, e2: ErrorKind| #[trigger] call_ensures(f, (x, y), Err::<ScalarInfo, ErrorKind>(e2)) ==> h(e2),
        dy_fails_seq(f, d, s, al, e),
    ensures
        h(e),
    decreases ssize(d) + vsize(s),
{
    if d.len() > 0 {
        lemma_ssize_elem(d, 0);
        let t = d.subrange(1, d.len() as int);
        assert(ssize(d) == vsize(d[0]) + 1 + ssize(t));
        if al && dy_fails(f, d[0], s, e) {
            lemma_dy_fails_kind(f, h, d[0], s, e);
        } else if !al && dy_fails(f, s, d[0], e) {
            lemma_dy_fails_kind(f, h, s, d[0], e);
        } else {
            lemma_dy_fails_seq_kind(f, h, t, s, al, e);
        }
    }
}

} // verus!
