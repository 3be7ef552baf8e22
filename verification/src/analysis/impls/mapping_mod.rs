//! Modifiers that map a function over the rows of their arguments: how many
//! rows there are, what type each row has, and what the call gives back.
use vstd::prelude::*;

use crate::analysis::error::ErrorKind;
use crate::mir::polynomial::{const_of, const_terms, Expr};
use crate::tir::{
    ainfo, clone_shape, demoted, dims_fit, lemma_values_view, shape_view, values_view, vinfo, AInfo, ArrayInfo, Poly, VInfo,
    ValueInfo,
};

verus! {

/// A check that a row-wise call adds to its arguments before it runs.
#[derive(Clone, Copy, Debug)]
pub enum RowCheck {
    /// The first axis of argument `input` has length `length`.
    Axis { input: usize, length: isize },
    /// The first axes of arguments `lhs` and `rhs` have the same length.
    Axes { lhs: usize, rhs: usize },
}

/// How an argument takes part in a row-wise call.
pub enum RowSplit {
    /// An array, by the length of its first axis and the type of its rows.
    Rows(Poly, VInfo),
    /// Anything else (a scalar or an array of rank 0), whole in every row.
    Whole(VInfo),
    /// An array of unknown rank, whose rows cannot be told.
    Unranked,
}

/// The type of the rows of an array with element type `e` and shape `sh`.
pub open spec fn row_type(e: VInfo, rest: Seq<Poly>) -> VInfo {
    if rest.len() == 0 {
        e
    } else {
        VInfo::Array(Box::new(AInfo::Ranked(e, rest)))
    }
}

/// How the value type `v` takes part in a row-wise call.
pub open spec fn split_rows(v: VInfo) -> RowSplit {
    match v {
        VInfo::Array(a) => match *a {
            AInfo::Known(e, sh, _) => if sh.len() == 0 {
                RowSplit::Whole(v)
            } else {
                RowSplit::Rows(const_terms(sh[0] as int), row_type(e, demoted(sh.drop_first())))
            },
            AInfo::Ranked(e, sh) => if sh.len() == 0 {
                RowSplit::Whole(v)
            } else {
                RowSplit::Rows(sh[0], row_type(e, sh.drop_first()))
            },
            AInfo::Unranked(..) => RowSplit::Unranked,
        },
        _ => RowSplit::Whole(v),
    }
}

/// Why a row-wise call cannot be planned.
pub enum RowFail {
    Unranked,
    /// Two constant row counts differ, neither being one: the first count
    /// with its argument's position, then the second.
    Mismatch(int, usize, int, usize),
}

/// The plan of a row-wise call: the row count with the position of the
/// argument it comes from, the type of each argument's rows, and the checks
/// to add; or why there is none.
pub enum RowPlanView {
    Planned(Option<(Poly, usize)>, Seq<VInfo>, Seq<RowCheck>),
    Fails(RowFail),
}

/// The plan after taking argument `i`, of type `v`, into the plan `prev`.
/// Equal counts, or a count of one, agree; two different constants fail.
/// Against an unknown count, a constant count of one is kept and the
/// unknown argument's axis is checked to be one, and any other constant
/// gives way to the unknown count unchecked. Two different unknown counts
/// are checked against each other.
pub open spec fn plan_step(prev: RowPlanView, v: VInfo, i: usize) -> RowPlanView {
    match prev {
        RowPlanView::Fails(f) => RowPlanView::Fails(f),
        RowPlanView::Planned(count, rows, checks) => match split_rows(v) {
            RowSplit::Unranked => RowPlanView::Fails(RowFail::Unranked),
            RowSplit::Whole(w) => RowPlanView::Planned(count, rows.push(w), checks),
            RowSplit::Rows(m, r) => match count {
                None => RowPlanView::Planned(Some((m, i)), rows.push(r), checks),
                Some((n, j)) => match (const_of(n), const_of(m)) {
                    (Some(a), Some(b)) => if a == b || b == 1 {
                        RowPlanView::Planned(count, rows.push(r), checks)
                    } else if a == 1 {
                        RowPlanView::Planned(Some((m, i)), rows.push(r), checks)
                    } else {
                        RowPlanView::Fails(RowFail::Mismatch(a, j, b, i))
                    },
                    (Some(a), None) => if a == 1 {
                        RowPlanView::Planned(count, rows.push(r), checks.push(RowCheck::Axis { input: i, length: a as isize }))
                    } else {
                        RowPlanView::Planned(Some((m, i)), rows.push(r), checks)
                    },
                    (None, Some(b)) => if b == 1 {
                        RowPlanView::Planned(Some((m, i)), rows.push(r), checks.push(RowCheck::Axis { input: j, length: b as isize }))
                    } else {
                        RowPlanView::Planned(count, rows.push(r), checks)
                    },
                    (None, None) => if n == m {
                        RowPlanView::Planned(count, rows.push(r), checks)
                    } else {
                        RowPlanView::Planned(count, rows.push(r), checks.push(RowCheck::Axes { lhs: j, rhs: i }))
                    },
                },
            },
        },
    }
}

/// The plan of a row-wise call on arguments of types `vs`.
pub open spec fn row_plan(vs: Seq<VInfo>) -> RowPlanView
    decreases vs.len(),
{
    if vs.len() == 0 {
        RowPlanView::Planned(None, seq![], seq![])
    } else {
        plan_step(row_plan(vs.drop_last()), vs.last(), (vs.len() - 1) as usize)
    }
}

/// A plan that fails on the first arguments fails alike on all of them.
proof fn lemma_fails_stay(vs: Seq<VInfo>, k: int, f: RowFail)
    requires
        0 <= k <= vs.len(),
        row_plan(vs.take(k)) == RowPlanView::Fails(f),
    ensures
        row_plan(vs) == RowPlanView::Fails(f),
    decreases vs.len(),
{
    if k == vs.len() {
        assert(vs.take(k) =~= vs);
    } else {
        assert(vs.drop_last().take(k) =~= vs.take(k));
        lemma_fails_stay(vs.drop_last(), k, f);
    }
}

/// Whether a known array among the arguments has a shape whose lengths fit
/// in `isize`.
pub open spec fn known_fits(v: VInfo) -> bool {
    match v {
        VInfo::Array(a) => match *a {
            AInfo::Known(_, sh, _) => dims_fit(sh),
            _ => true,
        },
        _ => true,
    }
}

/// The plan of a row-wise call.
pub struct RowPlan {
    /// The number of rows with the position of the argument it comes from,
    /// or nothing when no argument is an array.
    pub count: Option<(Expr, usize)>,
    /// The type of each argument's rows.
    pub rows: Vec<ValueInfo>,
    /// The checks to add to the arguments.
    pub checks: Vec<RowCheck>,
}

pub open spec fn count_view(c: Option<(Expr, usize)>) -> Option<(Poly, usize)> {
    match c {
        Some((e, i)) => Some((e@, i)),
        None => None,
    }
}

fn shape_tail(s: &Vec<Expr>) -> (r: Vec<Expr>)
    requires
        s.len() > 0,
    ensures
        shape_view(r@) == shape_view(s@).drop_first(),
{
    let mut r: Vec<Expr> = Vec::new();
    let mut i: usize = 1;
    while i < s.len()
        invariant
            1 <= i <= s.len(),
            shape_view(r@) == shape_view(s@).subrange(1, i as int),
        decreases s.len() - i,
    {
        let ghost before = r@;
        let x = s[i].duplicate();
        r.push(x);
        assert(shape_view(r@) =~= shape_view(before).push(x@));
        assert(shape_view(s@).subrange(1, i + 1) =~= shape_view(s@).subrange(1, i as int).push(s@[i as int]@));
        i = i + 1;
    }
    assert(shape_view(s@).subrange(1, i as int) =~= shape_view(s@).drop_first());
    r
}

fn demote_tail(s: &Vec<usize>) -> (r: Vec<Expr>)
    requires
        s.len() > 0,
        dims_fit(s@),
    ensures
        shape_view(r@) == demoted(s@.drop_first()),
{
    let mut r: Vec<Expr> = Vec::new();
    let mut i: usize = 1;
    while i < s.len()
        invariant
            1 <= i <= s.len(),
            dims_fit(s@),
            shape_view(r@) == demoted(s@.subrange(1, i as int)),
        decreases s.len() - i,
    {
        assert(s@[i as int] <= isize::MAX);
        let ghost before = r@;
        let x = Expr::from_usize(s[i]);
        r.push(x);
        assert(shape_view(r@) =~= shape_view(before).push(x@));
        assert(demoted(s@.subrange(1, i + 1)) =~= demoted(s@.subrange(1, i as int)).push(const_terms(s@[i as int] as int)));
        i = i + 1;
    }
    assert(s@.subrange(1, i as int) =~= s@.drop_first());
    r
}

fn make_row_type(e: &ValueInfo, rest: Vec<Expr>) -> (r: ValueInfo)
    ensures
        vinfo(r) == row_type(vinfo(*e), shape_view(rest@)),
{
    if rest.len() == 0 {
        e.duplicate()
    } else {
        let a = ArrayInfo::Ranked { element_type: e.duplicate(), shape: rest };
        assert(ainfo(a) == AInfo::Ranked(vinfo(*e), shape_view(rest@)));
        ValueInfo::Array(Box::new(a))
    }
}

/// What `split_rows` gives, held as values.
enum RowSplitExec {
    Rows(Expr, ValueInfo),
    Whole(ValueInfo),
    Unranked,
}

fn split_first_axis(v: &ValueInfo) -> (r: RowSplitExec)
    requires
        known_fits(vinfo(*v)),
    ensures
        match split_rows(vinfo(*v)) {
            RowSplit::Rows(m, t) => r matches RowSplitExec::Rows(e, w) && e@ == m && vinfo(w) == t,
            RowSplit::Whole(t) => r matches RowSplitExec::Whole(w) && vinfo(w) == t,
            RowSplit::Unranked => r is Unranked,
        },
{
    match v {
        ValueInfo::Array(a) => {
            let ghost av = ainfo(**a);
            assert(vinfo(*v) == VInfo::Array(Box::new(av)));
            match &**a {
                ArrayInfo::Known { element_type, value } => {
                    if value.shape.len() == 0 {
                        RowSplitExec::Whole(v.duplicate())
                    } else {
                        assert(value.shape@[0] <= isize::MAX);
                        let n = Expr::from_usize(value.shape[0]);
                        let rest = demote_tail(&value.shape);
                        RowSplitExec::Rows(n, make_row_type(element_type, rest))
                    }
                },
                ArrayInfo::Ranked { element_type, shape } => {
                    if shape.len() == 0 {
                        RowSplitExec::Whole(v.duplicate())
                    } else {
                        let n = shape[0].duplicate();
                        let rest = shape_tail(shape);
                        RowSplitExec::Rows(n, make_row_type(element_type, rest))
                    }
                },
                ArrayInfo::Unranked { .. } => RowSplitExec::Unranked,
            }
        },
        _ => RowSplitExec::Whole(v.duplicate()),
    }
}

/// The plan of a row-wise call on arguments of the types `inputs`: how many
/// rows there are, the type of each argument's rows, and the checks that the
/// row counts agree. Two constant counts that differ, neither being one,
/// give `MismatchedRowCounts`; an array of unknown rank gives `Unranked`.
pub fn plan_rows(inputs: &Vec<ValueInfo>) -> (r: Result<RowPlan, ErrorKind>)
    requires
        forall|i: int| 0 <= i < inputs.len() ==> known_fits(#[trigger] vinfo(inputs@[i])),
    ensures
        match row_plan(values_view(inputs@)) {
            RowPlanView::Planned(c, rows, checks) => r matches Ok(p) && count_view(p.count) == c
                && values_view(p.rows@) == rows && p.checks@ == checks,
            RowPlanView::Fails(RowFail::Unranked) => r matches Err(ErrorKind::Unranked(n)) && n@ == "rows"@,
            RowPlanView::Fails(RowFail::Mismatch(a, j, b, i)) => r matches Err(
                ErrorKind::MismatchedRowCounts(a2, j2, b2, i2),
            ) && a2 == a && j2 == j && b2 == b && i2 == i,
        },
{
    let ghost vs = values_view(inputs@);
    proof {
        lemma_values_view(inputs@);
    }
    let mut count: Option<(Expr, usize)> = None;
    let mut rows: Vec<ValueInfo> = Vec::new();
    let mut checks: Vec<RowCheck> = Vec::new();
    let mut i: usize = 0;
    assert(vs.take(0) =~= Seq::<VInfo>::empty());
    while i < inputs.len()
        invariant
            i <= inputs.len(),
            vs == values_view(inputs@),
            vs.len() == inputs.len(),
            forall|k: int| 0 <= k < inputs.len() ==> #[trigger] vs[k] == vinfo(inputs@[k]),
            forall|k: int| 0 <= k < inputs.len() ==> known_fits(#[trigger] vinfo(inputs@[k])),
            row_plan(vs.take(i as int)) == RowPlanView::Planned(count_view(count), values_view(rows@), checks@),
        decreases inputs.len() - i,
    {
        let ghost prev = row_plan(vs.take(i as int));
        assert(vs.take(i + 1).drop_last() =~= vs.take(i as int));
        assert(vs.take(i + 1).last() == vinfo(inputs@[i as int]));
        let ghost next = row_plan(vs.take(i + 1));
        assert(next == plan_step(prev, vinfo(inputs@[i as int]), i));
        let ghost rows0 = rows@;
        match split_first_axis(&inputs[i]) {
            RowSplitExec::Unranked => {
                proof {
                    lemma_fails_stay(vs, i + 1, RowFail::Unranked);
                }
                return Err(ErrorKind::Unranked("rows"));
            },
            RowSplitExec::Whole(w) => {
                rows.push(w);
            },
            RowSplitExec::Rows(m, t) => {
                rows.push(t);
                match count {
                    None => {
                        count = Some((m, i));
                    },
                    Some((n, j)) => {
                        match (n.as_const(), m.as_const()) {
                            (Some(a), Some(b)) => {
                                if a == b || b == 1 {
                                    count = Some((n, j));
                                } else if a == 1 {
                                    count = Some((m, i));
                                } else {
                                    proof {
                                        lemma_fails_stay(vs, i + 1, RowFail::Mismatch(a as int, j, b as int, i));
                                    }
                                    return Err(ErrorKind::MismatchedRowCounts(a, j, b, i));
                                }
                            },
                            (Some(a), None) => {
                                if a == 1 {
                                    checks.push(RowCheck::Axis { input: i, length: a });
                                    count = Some((n, j));
                                } else {
                                    count = Some((m, i));
                                }
                            },
                            (None, Some(b)) => {
                                if b == 1 {
                                    checks.push(RowCheck::Axis { input: j, length: b });
                                    count = Some((m, i));
                                } else {
                                    count = Some((n, j));
                                }
                            },
                            (None, None) => {
                                if !n.equals(&m) {
                                    checks.push(RowCheck::Axes { lhs: j, rhs: i });
                                }
                                count = Some((n, j));
                            },
                        }
                    },
                }
            },
        }
        proof {
            assert(rows@.drop_last() =~= rows0);
        }
        i = i + 1;
    }
    assert(vs.take(i as int) =~= vs);
    Ok(RowPlan { count, rows, checks })
}

/// The type of an array whose rows have type `v`, and whose first axis has
/// length `n`.
pub open spec fn prepended(v: VInfo, n: Poly) -> VInfo {
    match v {
        VInfo::Array(a) => match *a {
            AInfo::Known(e, sh, _) => VInfo::Array(Box::new(AInfo::Ranked(e, seq![n] + demoted(sh)))),
            AInfo::Ranked(e, sh) => VInfo::Array(Box::new(AInfo::Ranked(e, seq![n] + sh))),
            AInfo::Unranked(e, p, q) => VInfo::Array(Box::new(AInfo::Unranked(e, seq![n] + p, q))),
        },
        _ => VInfo::Array(Box::new(AInfo::Ranked(v, seq![n]))),
    }
}

fn prepend_shape(n: &Expr, rest: Vec<Expr>) -> (r: Vec<Expr>)
    ensures
        shape_view(r@) == seq![n@] + shape_view(rest@),
{
    let mut r: Vec<Expr> = Vec::new();
    r.push(n.duplicate());
    let mut i: usize = 0;
    while i < rest.len()
        invariant
            i <= rest.len(),
            shape_view(r@) == seq![n@] + shape_view(rest@).take(i as int),
        decreases rest.len() - i,
    {
        let ghost before = r@;
        let x = rest[i].duplicate();
        r.push(x);
        assert(shape_view(r@) =~= shape_view(before).push(x@));
        assert(shape_view(rest@).take(i + 1) =~= shape_view(rest@).take(i as int).push(rest@[i as int]@));
        i = i + 1;
    }
    assert(shape_view(rest@).take(i as int) =~= shape_view(rest@));
    r
}

fn demote_all(s: &Vec<usize>) -> (r: Vec<Expr>)
    requires
        dims_fit(s@),
    ensures
        shape_view(r@) == demoted(s@),
{
    let mut r: Vec<Expr> = Vec::new();
    let mut i: usize = 0;
    while i < s.len()
        invariant
            i <= s.len(),
            dims_fit(s@),
            shape_view(r@) == demoted(s@.take(i as int)),
        decreases s.len() - i,
    {
        assert(s@[i as int] <= isize::MAX);
        let ghost before = r@;
        let x = Expr::from_usize(s[i]);
        r.push(x);
        assert(shape_view(r@) =~= shape_view(before).push(x@));
        assert(demoted(s@.take(i + 1)) =~= demoted(s@.take(i as int)).push(const_terms(s@[i as int] as int)));
        i = i + 1;
    }
    assert(s@.take(i as int) =~= s@);
    r
}

/// The type of an array whose rows have the type `info` and whose first axis
/// has length `n`: a known array loses its values, and anything that is not
/// an array becomes the element type of an array of rank one.
pub fn with_prepended_first_axis(info: &ValueInfo, n: &Expr) -> (r: ValueInfo)
    requires
        known_fits(vinfo(*info)),
    ensures
        vinfo(r) == prepended(vinfo(*info), n@),
{
    match info {
        ValueInfo::Array(a) => {
            let ghost av = ainfo(**a);
            assert(vinfo(*info) == VInfo::Array(Box::new(av)));
            let out = match &**a {
                ArrayInfo::Known { element_type, value } => {
                    let rest = demote_all(&value.shape);
                    let o = ArrayInfo::Ranked { element_type: element_type.duplicate(), shape: prepend_shape(n, rest) };
                    assert(ainfo(o) == AInfo::Ranked(vinfo(*element_type), seq![n@] + demoted(value.shape@)));
                    o
                },
                ArrayInfo::Ranked { element_type, shape } => {
                    let o = ArrayInfo::Ranked { element_type: element_type.duplicate(), shape: prepend_shape(n, clone_shape(shape)) };
                    assert(ainfo(o) == AInfo::Ranked(vinfo(*element_type), seq![n@] + shape_view(shape@)));
                    o
                },
                ArrayInfo::Unranked { element_type, shape_prefix, shape_suffix } => {
                    let o = ArrayInfo::Unranked {
                        element_type: element_type.duplicate(),
                        shape_prefix: prepend_shape(n, clone_shape(shape_prefix)),
                        shape_suffix: clone_shape(shape_suffix),
                    };
                    assert(ainfo(o) == AInfo::Unranked(
                        vinfo(*element_type),
                        seq![n@] + shape_view(shape_prefix@),
                        shape_view(shape_suffix@),
                    ));
                    o
                },
            };
            assert(vinfo(ValueInfo::Array(Box::new(out))) == VInfo::Array(Box::new(ainfo(out))));
            ValueInfo::Array(Box::new(out))
        },
        _ => {
            let mut sh: Vec<Expr> = Vec::new();
            sh.push(n.duplicate());
            assert(shape_view(sh@) =~= seq![n@]);
            let out = ArrayInfo::Ranked { element_type: info.duplicate(), shape: sh };
            assert(ainfo(out) == AInfo::Ranked(vinfo(*info), seq![n@]));
            ValueInfo::Array(Box::new(out))
        },
    }
}

/// The types of what a row-wise call gives: each output type of the
/// function called on the rows, as an array with one row per row of the
/// arguments; when no argument is an array, the output types themselves.
pub fn row_outputs(plan: &RowPlan, outputs: &Vec<ValueInfo>) -> (r: Vec<ValueInfo>)
    requires
        forall|i: int| 0 <= i < outputs.len() ==> known_fits(#[trigger] vinfo(outputs@[i])),
    ensures
        r.len() == outputs.len(),
        forall|i: int| 0 <= i < outputs.len() ==> #[trigger] vinfo(r@[i]) == match count_view(plan.count) {
            Some((n, _)) => prepended(vinfo(outputs@[i]), n),
            None => vinfo(outputs@[i]),
        },
{
    let mut r: Vec<ValueInfo> = Vec::new();
    let mut i: usize = 0;
    while i < outputs.len()
        invariant
            i <= outputs.len(),
            r.len() == i,
            forall|k: int| 0 <= k < outputs.len() ==> known_fits(#[trigger] vinfo(outputs@[k])),
            forall|k: int| 0 <= k < i ==> #[trigger] vinfo(r@[k]) == match count_view(plan.count) {
                Some((n, _)) => prepended(vinfo(outputs@[k]), n),
                None => vinfo(outputs@[k]),
            },
        decreases outputs.len() - i,
    {
        let v = match &plan.count {
            Some((n, _)) => with_prepended_first_axis(&outputs[i], n),
            None => outputs[i].duplicate(),
        };
        r.push(v);
        i = i + 1;
    }
    r
}

/// Putting the first axis back on the rows of a ranked array gives the array
/// back, where its elements are not arrays themselves.
pub proof fn lemma_rows_round_trip(e: VInfo, sh: Seq<Poly>)
    requires
        sh.len() > 0,
        !(e is Array),
    ensures
        split_rows(VInfo::Array(Box::new(AInfo::Ranked(e, sh)))) == RowSplit::Rows(sh[0], row_type(e, sh.drop_first())),
        prepended(row_type(e, sh.drop_first()), sh[0]) == VInfo::Array(Box::new(AInfo::Ranked(e, sh))),
{
    assert(seq![sh[0]] + sh.drop_first() =~= sh);
}


/// A constant row count of one agrees with any constant row count, in
/// either order: planning two arguments whose counts are `c` and one, or one
/// and `c`, succeeds with no check, and the count planned is `c`; it comes
/// from the argument whose count is `c` (the first one when `c` is one too).
pub proof fn lemma_row_count_one_agrees(u: VInfo, m: Poly, r: VInfo, w: VInfo, m1: Poly, r1: VInfo, c: int)
    requires
        split_rows(u) == RowSplit::Rows(m, r),
        const_of(m) == Some(c),
        split_rows(w) == RowSplit::Rows(m1, r1),
        const_of(m1) == Some(1int),
    ensures
        row_plan(seq![u, w]) == RowPlanView::Planned(Some((m, 0usize)), seq![r, r1], seq![]),
        row_plan(seq![w, u]) == RowPlanView::Planned(
            Some(if c == 1 { (m1, 0usize) } else { (m, 1usize) }),
            seq![r1, r],
            seq![],
        ),
{
    let s1 = seq![u, w];
    let s2 = seq![w, u];
    assert(s1.drop_last() =~= seq![u]);
    assert(seq![u].drop_last() =~= Seq::<VInfo>::empty());
    assert(s2.drop_last() =~= seq![w]);
    assert(seq![w].drop_last() =~= Seq::<VInfo>::empty());
    assert(row_plan(Seq::<VInfo>::empty()) == RowPlanView::Planned(None, seq![], seq![]));
    assert(Seq::<VInfo>::empty().push(r) =~= seq![r]);
    assert(Seq::<VInfo>::empty().push(r1) =~= seq![r1]);
    assert(seq![u].last() == u && seq![w].last() == w);
    assert(row_plan(seq![u]) == plan_step(row_plan(Seq::<VInfo>::empty()), u, 0usize));
    assert(row_plan(seq![w]) == plan_step(row_plan(Seq::<VInfo>::empty()), w, 0usize));
    assert(row_plan(seq![u]) == RowPlanView::Planned(Some((m, 0usize)), seq![r], seq![]));
    assert(row_plan(seq![w]) == RowPlanView::Planned(Some((m1, 0usize)), seq![r1], seq![]));
    assert(seq![r].push(r1) =~= seq![r, r1]);
    assert(seq![r1].push(r) =~= seq![r1, r]);
}

/// Once the plan has a constant row count, an argument whose count is the
/// constant one changes neither the count nor the checks.
pub proof fn lemma_row_count_one_absorbed(
    count: Poly,
    j: usize,
    rows: Seq<VInfo>,
    checks: Seq<RowCheck>,
    v: VInfo,
    m: Poly,
    r: VInfo,
    i: usize,
)
    requires
        const_of(count) is Some,
        split_rows(v) == RowSplit::Rows(m, r),
        const_of(m) == Some(1int),
    ensures
        plan_step(RowPlanView::Planned(Some((count, j)), rows, checks), v, i) == RowPlanView::Planned(
            Some((count, j)),
            rows.push(r),
            checks,
        ),
{
}

} // verus!
