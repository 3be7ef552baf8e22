//! Construction of the typed IR: every function of the HIR that the program
//! reaches is analysed for the types of the values its nodes give, once for
//! each distinct set of argument types it is called with.
use vstd::prelude::*;

use crate::analysis::error::ErrorKind;
use crate::analysis::impls::comparison::{
    cast_infos, compare_map, comparable, comparison, comparison_name, dyadic_defined, Comparison, DyadicPlan,
};
use crate::analysis::impls::pervasive_dyadic::{dmap, dy_all, shape_checks, type_match, ShapeCheck, ShapeResult, Side, TypeMatch};
use crate::analysis::impls::func::{
    all_fsuper, call_input_types, find_from, find_monomorphization, instantiate_outputs, mono_keys, outs_inst,
    outs_ok, subst_cache, substs_map,
};
use crate::analysis::impls::pervasive_monadic::{
    absolute_value, abs_map, all_scalars, ceiling, floor, negate, negate_map, not_char, not_int_min, rounded_map,
    round, sign, sign_map, vmap,
};
use crate::analysis::{typing, Typing, UValue, UiuaValueError};
use crate::float::Rounding;
use crate::generic_ir::{
    graph_add_edge, graph_add_node, graph_edge_bound, graph_edge_endpoints, graph_edge_weight, graph_edges,
    graph_new, graph_nodes, Graph,
};
use crate::hir::{bindings_view, copy_files, files_view, fview, strings_view, FView, Hir, HirFunction, NView};
use crate::tir::{
    clone_values, copy_string, lemma_values_view, nameable, type_text, values_view, vinfo, Binding, Function, FunctionMeta, Node,
    Prim, Tir, TirOp, VInfo, ValueInfo,
};
use std::collections::HashMap;

verus! {

/// How the analysis types a primitive of the program, by its position in the
/// program's table of primitives.
#[derive(Clone, Copy, Debug)]
pub enum PrimKind {
    Sign,
    Negate,
    AbsoluteValue,
    Floor,
    Ceiling,
    Round,
    /// One of the comparisons.
    Compare(Comparison),
    /// A primitive the analysis has no rule for.
    Unsupported,
}

/// The deepest chain of calls that is analysed.
pub const CALL_DEPTH: usize = 256;

/// The mathematical view of a node of a typed function.
pub enum TNView {
    Input,
    Output,
    Constant(VInfo),
    FuncPrim(Prim),
    TirOp(TirOp),
    ModPrim(Prim, Seq<TFView>),
    Call(usize),
}

/// The mathematical view of a typed function: its graph, node payloads,
/// input and output nodes, numbers of inputs and outputs, the output types
/// of each node, the spans of the nodes, and its input and output types.
pub struct TFView {
    pub slots: Seq<Option<usize>>,
    pub edges: Seq<Option<(usize, usize, (usize, usize))>>,
    pub nodes: Seq<TNView>,
    pub input: usize,
    pub output: usize,
    pub args: usize,
    pub outs: usize,
    pub metas: Map<usize, Seq<VInfo>>,
    pub spans: Map<usize, usize>,
    pub inputs: Seq<VInfo>,
    pub outputs: Seq<VInfo>,
}

pub open spec fn tnview(n: Node) -> TNView
    decreases n,
{
    match n {
        Node::Input => TNView::Input,
        Node::Output => TNView::Output,
        Node::Constant(v) => TNView::Constant(vinfo(v)),
        Node::FuncPrim(p) => TNView::FuncPrim(p),
        Node::TirOp(o) => TNView::TirOp(o),
        Node::ModPrim(p, fs) => TNView::ModPrim(p, tfviews(fs@)),
        Node::Call(c) => TNView::Call(c),
    }
}

pub open spec fn tnviews(s: Seq<Node>) -> Seq<TNView>
    decreases s,
{
    if s.len() == 0 {
        seq![]
    } else {
        tnviews(s.drop_last()).push(tnview(s.last()))
    }
}

pub open spec fn metas_view(m: Map<usize, Vec<ValueInfo>>) -> Map<usize, Seq<VInfo>> {
    m.map_values(|v: Vec<ValueInfo>| values_view(v@))
}

pub open spec fn tfview(f: Function) -> TFView
    decreases f,
{
    TFView {
        slots: graph_nodes(f.graph),
        edges: graph_edges(f.graph),
        nodes: tnviews(f.nodes@),
        input: f.input_idx,
        output: f.output_idx,
        args: f.args,
        outs: f.outs,
        metas: metas_view(f.node_metas@),
        spans: f.spans@,
        inputs: values_view(f.meta.inputs@),
        outputs: values_view(f.meta.outputs@),
    }
}

pub open spec fn tfviews(s: Seq<Function>) -> Seq<TFView>
    decreases s,
{
    if s.len() == 0 {
        seq![]
    } else {
        tfviews(s.drop_last()).push(tfview(s.last()))
    }
}

/// The view of a typed binding: span, function id, hash and function.
pub open spec fn tbview(b: Binding) -> (usize, usize, u64, TFView) {
    (b.span, b.func_id, b.hash, tfview(b.func))
}

pub open spec fn tbviews(s: Seq<Binding>) -> Seq<(usize, usize, u64, TFView)> {
    s.map_values(|b: Binding| tbview(b))
}

/// The view of a typed program: its bindings and its main function with its
/// span.
pub open spec fn tir_view(t: Tir) -> (Seq<(usize, usize, u64, TFView)>, Option<(TFView, usize)>) {
    (
        tbviews(t.bindings@),
        match t.main {
            Some((f, s)) => Some((tfview(f), s)),
            None => None,
        },
    )
}

/// The view of a HIR: its bindings and its main function with its span.
pub open spec fn hir_view(h: Hir) -> (Seq<(usize, usize, u64, FView)>, Option<(FView, usize)>) {
    (
        bindings_view(h.bindings@),
        match h.main {
            Some((f, s)) => Some((fview(f), s)),
            None => None,
        },
    )
}

/// An error of the analysis, as a value.
pub enum TirError {
    /// A constant has no type.
    Value(UiuaValueError),
    /// The named primitive got characters within a value of the named type.
    ExpectedNumber(Seq<char>, Seq<char>),
    /// The named operation needs arrays of known rank.
    Unranked(Seq<char>),
    /// The named comparison cannot compare the two named types; where the
    /// types are not given, it is two scalar types met within the values.
    IncompatibleTypes(Seq<char>, Option<(Seq<char>, Seq<char>)>),
    /// The two named array types have shapes that cannot be matched.
    IncompatibleShapes(Seq<char>, Seq<char>),
}

pub open spec fn err_is(e: ErrorKind, t: TirError) -> bool {
    match t {
        TirError::Value(v) => e == ErrorKind::UiuaValue(v),
        TirError::ExpectedNumber(n, x) => e matches ErrorKind::ExpectedNumber(a, b) && a@ == n && b@ == x,
        TirError::Unranked(n) => e matches ErrorKind::Unranked(a) && a@ == n,
        TirError::IncompatibleTypes(n, Some((x, y))) => e matches ErrorKind::IncompatibleTypes(a, b, c) && a@ == n && b@
            == x && c@ == y,
        TirError::IncompatibleTypes(n, None) => e matches ErrorKind::IncompatibleTypes(a, _, _) && a@ == n,
        TirError::IncompatibleShapes(x, y) => e matches ErrorKind::IncompatibleShapes(a, b) && a@ == x && b@ == y,
    }
}

/// How a step of the analysis ends: it does not complete (where the
/// analysis has no rule or a machine limit is reached), it fails with an
/// error, or it gives a result.
pub enum TRes<T> {
    Stuck,
    Fails(TirError),
    Done(T),
}

/// What the analysis of the whole program carries from call to call: the
/// monomorphizations made so far and the variable counter.
pub struct TState {
    pub bindings: Seq<(usize, usize, u64, TFView)>,
    pub nvars: nat,
}

/// What the analysis of one function has built so far: a node payload and
/// the output types of each node, in node order, with what the node reads
/// where that is not what its edges give; and the nodes added before nodes
/// (casts and checks), each with its output types and what it reads.
pub struct BState {
    pub nodes: Seq<TNView>,
    pub outs: Seq<Seq<VInfo>>,
    pub reads: Seq<Option<Seq<(usize, usize)>>>,
    pub extras: Seq<(TNView, Seq<VInfo>, Seq<(usize, usize)>)>,
}

/// The state with a node of payload `x` and output types `v` added.
pub open spec fn add_node(b: BState, x: TNView, v: Seq<VInfo>) -> BState {
    BState { nodes: b.nodes.push(x), outs: b.outs.push(v), reads: b.reads.push(None), extras: b.extras }
}

/// The cast node that type matching asks for before a comparison: none, or
/// one that reads the value on one side; with the values read after.
pub open spec fn cast_extras(tm: TypeMatch, l: VInfo, r: VInfo, lr: (usize, usize), rr: (usize, usize), base: nat) -> (
    Seq<(TNView, Seq<VInfo>, Seq<(usize, usize)>)>,
    (usize, usize),
    (usize, usize),
) {
    match tm {
        TypeMatch::Cast(Side::Left, from, to) => (
            seq![(TNView::TirOp(TirOp::CastNum { from, to }), seq![crate::tir::with_scalar(l, to)], seq![lr])],
            (base as usize, 0usize),
            rr,
        ),
        TypeMatch::Cast(Side::Right, from, to) => (
            seq![(TNView::TirOp(TirOp::CastNum { from, to }), seq![crate::tir::with_scalar(r, to)], seq![rr])],
            lr,
            (base as usize, 0usize),
        ),
        _ => (seq![], lr, rr),
    }
}

/// The nodes of the first `k` shape checks, in order, numbered from `base`;
/// with the values read after.
pub open spec fn check_extras(
    cs: Seq<ShapeCheck>,
    k: nat,
    l: VInfo,
    r: VInfo,
    lr: (usize, usize),
    rr: (usize, usize),
    base: nat,
) -> (Seq<(TNView, Seq<VInfo>, Seq<(usize, usize)>)>, (usize, usize), (usize, usize))
    decreases k,
{
    if k == 0 || k > cs.len() {
        (seq![], lr, rr)
    } else {
        let (xs, a, c) = check_extras(cs, (k - 1) as nat, l, r, lr, rr, base);
        let idx = (base + xs.len()) as usize;
        match cs[k - 1] {
            ShapeCheck::Both(op) => (xs.push((TNView::TirOp(op), seq![l, r], seq![a, c])), (idx, 0usize), (idx, 1usize)),
            ShapeCheck::One(Side::Left, op) => (xs.push((TNView::TirOp(op), seq![l], seq![a])), (idx, 0usize), c),
            ShapeCheck::One(Side::Right, op) => (xs.push((TNView::TirOp(op), seq![r], seq![c])), a, (idx, 0usize)),
        }
    }
}

/// The analysis of a comparison `op`, primitive `p`, as node `k` reading
/// the values `lr` and `rr` of the types `l` and `r`: the cast and checks
/// that type and shape matching ask for are added first, and the
/// comparison reads what they give.
pub open spec fn compare_step(
    fv: FView,
    b: BState,
    op: Comparison,
    p: crate::hir::Prim,
    l: VInfo,
    r: VInfo,
    lr: (usize, usize),
    rr: (usize, usize),
) -> TRes<BState> {
    if !dyadic_defined(l, r) {
        TRes::Stuck
    } else {
        match type_match(l, r) {
            TypeMatch::Mismatch(a, c) => TRes::Fails(TirError::IncompatibleTypes(comparison_name(op), Some((a, c)))),
            TypeMatch::Unsupported => TRes::Stuck,
            tm => {
                let (l2, r2) = cast_infos(l, r);
                match shape_checks(l2, r2) {
                    ShapeResult::Stuck => TRes::Stuck,
                    ShapeResult::Unranked => TRes::Fails(TirError::Unranked(comparison_name(op))),
                    ShapeResult::Incompatible(a, c) => TRes::Fails(TirError::IncompatibleShapes(a, c)),
                    ShapeResult::Checks(cs) => if fv.nodes.len() + b.extras.len() + cs.len() + 1 >= usize::MAX {
                        TRes::Stuck
                    } else if dy_all(l2, r2, comparable(op)) {
                        let base = fv.nodes.len() + b.extras.len();
                        let (x1, lr1, rr1) = cast_extras(tm, l, r, lr, rr, base);
                        let (x2, lr2, rr2) = check_extras(cs, cs.len(), l2, r2, lr1, rr1, base + x1.len());
                        TRes::Done(BState {
                            nodes: b.nodes.push(TNView::FuncPrim(Prim::Prim(p))),
                            outs: b.outs.push(seq![dmap(l2, r2, compare_map(op))]),
                            reads: b.reads.push(Some(seq![lr2, rr2])),
                            extras: b.extras + x1 + x2,
                        })
                    } else {
                        TRes::Fails(TirError::IncompatibleTypes(comparison_name(op), None))
                    },
                }
            },
        }
    }
}

/// The nodes added before nodes of a typed function (casts and checks):
/// payloads, output types and what each reads, position by position.
pub struct Added {
    pub nodes: Vec<Node>,
    pub outs: Vec<Vec<ValueInfo>>,
    pub reads: Vec<Vec<(usize, usize)>>,
}

pub open spec fn added_wf(a: Added) -> bool {
    a.outs.len() == a.nodes.len() && a.reads.len() == a.nodes.len()
}

pub open spec fn added_view(a: Added) -> Seq<(TNView, Seq<VInfo>, Seq<(usize, usize)>)> {
    Seq::new(a.nodes@.len(), |i: int| (tnview(a.nodes@[i]), values_view(a.outs@[i]@), a.reads@[i]@))
}

pub open spec fn reads_view(s: Seq<Option<Vec<(usize, usize)>>>) -> Seq<Option<Seq<(usize, usize)>>> {
    s.map_values(|o: Option<Vec<(usize, usize)>>| match o {
        Some(v) => Some(v@),
        None => None,
    })
}

impl Added {
    fn add(&mut self, n: Node, v: Vec<ValueInfo>, r: Vec<(usize, usize)>)
        requires
            added_wf(*old(self)),
        ensures
            added_wf(*final(self)),
            added_view(*final(self)) == added_view(*old(self)).push((tnview(n), values_view(v@), r@)),
    {
        let ghost a0 = added_view(*self);
        self.nodes.push(n);
        self.outs.push(v);
        self.reads.push(r);
        assert(added_view(*self) =~= a0.push((tnview(n), values_view(v@), r@)));
    }
}

/// The number of edges among the first `upto` slots that leave node `k`.
pub open spec fn in_count(edges: Seq<Option<(usize, usize, (usize, usize))>>, k: usize, upto: nat) -> nat
    decreases upto,
{
    if upto == 0 || upto > edges.len() {
        0
    } else {
        in_count(edges, k, (upto - 1) as nat) + match edges[upto - 1] {
            Some((a, _, _)) => if a == k { 1nat } else { 0nat },
            None => 0nat,
        }
    }
}

/// What the first edge among the first `upto` slots that feeds input `j` of
/// node `k` reads: a node and its output.
pub open spec fn find_in(edges: Seq<Option<(usize, usize, (usize, usize))>>, k: usize, j: usize, upto: nat) -> Option<(usize, usize)>
    decreases upto,
{
    if upto == 0 || upto > edges.len() {
        None
    } else {
        match find_in(edges, k, j, (upto - 1) as nat) {
            Some(x) => Some(x),
            None => match edges[upto - 1] {
                Some((a, b, w)) => if a == k && w.1 == j { Some((b, w.0)) } else { None },
                None => None,
            },
        }
    }
}

/// The types of the first `m` inputs of node `k`, read from the output
/// types `outs` of the nodes typed so far; nothing when an input is missing
/// or reads a node not yet typed.
pub open spec fn ins_from(fv: FView, outs: Seq<Seq<VInfo>>, k: usize, m: nat) -> Option<Seq<VInfo>>
    decreases m,
{
    if m == 0 {
        Some(seq![])
    } else {
        match ins_from(fv, outs, k, (m - 1) as nat) {
            Some(xs) => match find_in(fv.edges, k, (m - 1) as usize, fv.edges.len()) {
                Some((t, o)) => if t < outs.len() && o < outs[t as int].len() {
                    Some(xs.push(outs[t as int][o as int]))
                } else {
                    None
                },
                None => None,
            },
            None => None,
        }
    }
}

/// The types of all inputs of node `k`.
pub open spec fn node_ins(fv: FView, outs: Seq<Seq<VInfo>>, k: usize) -> Option<Seq<VInfo>> {
    ins_from(fv, outs, k, in_count(fv.edges, k, fv.edges.len()))
}

/// The name of a rounding primitive.
pub open spec fn rounding_name(mode: Rounding) -> Seq<char> {
    match mode {
        Rounding::Floor => "floor"@,
        Rounding::Ceiling => "ceiling"@,
        _ => "round"@,
    }
}

pub open spec fn rounding_of(kind: PrimKind) -> Rounding {
    match kind {
        PrimKind::Floor => Rounding::Floor,
        PrimKind::Ceiling => Rounding::Ceiling,
        _ => Rounding::Nearest,
    }
}

/// The output type of a primitive of kind `kind` on an argument of type `x`.
pub open spec fn prim_out(kind: PrimKind, x: VInfo) -> TRes<VInfo> {
    match kind {
        PrimKind::Sign => TRes::Done(vmap(x, sign_map())),
        PrimKind::Negate => if all_scalars(x, not_int_min()) {
            TRes::Done(vmap(x, negate_map()))
        } else {
            TRes::Stuck
        },
        PrimKind::AbsoluteValue => if all_scalars(x, not_int_min()) {
            TRes::Done(vmap(x, abs_map()))
        } else {
            TRes::Stuck
        },
        PrimKind::Floor | PrimKind::Ceiling | PrimKind::Round => if all_scalars(x, not_char()) {
            TRes::Done(vmap(x, rounded_map(rounding_of(kind))))
        } else if nameable(x) {
            TRes::Fails(TirError::ExpectedNumber(rounding_name(rounding_of(kind)), type_text(x)))
        } else {
            TRes::Stuck
        },
        PrimKind::Compare(_) | PrimKind::Unsupported => TRes::Stuck,
    }
}

/// The position of the first HIR binding, among the first `upto`, of the
/// function with id `f`.
pub open spec fn find_binding(bs: Seq<(usize, usize, u64, FView)>, f: usize, upto: nat) -> Option<nat>
    decreases upto,
{
    if upto == 0 || upto > bs.len() {
        None
    } else {
        match find_binding(bs, f, (upto - 1) as nat) {
            Some(i) => Some(i),
            None => if bs[upto - 1].1 == f { Some((upto - 1) as nat) } else { None },
        }
    }
}

/// The keys by which a monomorphization is found again: its hash and its
/// input types.
pub open spec fn tb_keys(bs: Seq<(usize, usize, u64, TFView)>) -> Seq<(u64, Seq<VInfo>)> {
    bs.map_values(|b: (usize, usize, u64, TFView)| (b.2, b.3.inputs))
}

/// The output types of a call of the monomorphization `i` with the
/// substitutions `p`, and the counter after.
pub open spec fn call_outs(st: TState, i: nat, p: Seq<(nat, Seq<(Seq<u32>, int)>)>) -> TRes<(Seq<VInfo>, nat)> {
    let outs = st.bindings[i as int].3.outputs;
    let c = substs_map(p, p.len());
    if i < st.bindings.len() && outs_ok(outs, c, st.nvars) {
        let (v, _, n2) = outs_inst(outs, outs.len(), c, st.nvars);
        TRes::Done((v, n2))
    } else {
        TRes::Stuck
    }
}

/// Whether a HIR function has the form the analysis reads: every node slot
/// holds its own position, every edge slot an edge between nodes, and the
/// input and output are nodes.
pub open spec fn fv_wf(fv: FView) -> bool {
    &&& fv.slots == Seq::new(fv.nodes.len(), |i: int| Some(i as usize))
    &&& forall|i: int| 0 <= i < fv.edges.len() ==> (#[trigger] fv.edges[i] matches Some((a, b, _)) && a < fv.nodes.len() && b < fv.nodes.len())
    &&& fv.input < fv.nodes.len()
    &&& fv.output < fv.nodes.len()
    &&& fv.nodes.len() < u32::MAX
    &&& fv.edges.len() < u32::MAX
}

/// The analysis of node `k` of a function, after its earlier nodes.
pub open spec fn node_step(
    hv: (Seq<(usize, usize, u64, FView)>, Option<(FView, usize)>),
    cs: Seq<UValue>,
    ps: Seq<PrimKind>,
    fv: FView,
    ins: Seq<VInfo>,
    b: BState,
    st: TState,
    fuel: nat,
    k: nat,
) -> TRes<(BState, TState)>
    decreases fuel, k, 0nat,
{
    if k >= fv.nodes.len() {
        TRes::Stuck
    } else {
        match fv.nodes[k as int] {
            NView::Input => TRes::Done((add_node(b, TNView::Input, ins), st)),
            NView::Output => TRes::Done((add_node(b, TNView::Output, seq![]), st)),
            NView::Constant(c) => if c < cs.len() {
                match typing(cs[c as int], st.nvars) {
                    Typing::Typed(v, m) => TRes::Done((add_node(b, TNView::Constant(v), seq![v]), TState { nvars: m, ..st })),
                    Typing::NoType(_) => TRes::Fails(TirError::Value(UiuaValueError::NoArrayType)),
                    Typing::Unsupported => TRes::Stuck,
                }
            } else {
                TRes::Stuck
            },
            NView::FuncPrim(p) => match (p, node_ins(fv, b.outs, k as usize)) {
                (crate::hir::Prim::Other(q), Some(xs)) => if q < ps.len() {
                    match ps[q as int] {
                        PrimKind::Compare(op) => if xs.len() == 2 {
                            match (
                                find_in(fv.edges, k as usize, 0, fv.edges.len()),
                                find_in(fv.edges, k as usize, 1, fv.edges.len()),
                            ) {
                                (Some(lr), Some(rr)) => match compare_step(fv, b, op, p, xs[0], xs[1], lr, rr) {
                                    TRes::Done(b2) => TRes::Done((b2, st)),
                                    TRes::Fails(e) => TRes::Fails(e),
                                    TRes::Stuck => TRes::Stuck,
                                },
                                _ => TRes::Stuck,
                            }
                        } else {
                            TRes::Stuck
                        },
                        kind => if xs.len() == 1 {
                            match prim_out(kind, xs[0]) {
                                TRes::Done(y) => TRes::Done((add_node(b, TNView::FuncPrim(Prim::Prim(p)), seq![y]), st)),
                                TRes::Fails(e) => TRes::Fails(e),
                                TRes::Stuck => TRes::Stuck,
                            }
                        } else {
                            TRes::Stuck
                        },
                    }
                } else {
                    TRes::Stuck
                },
                _ => TRes::Stuck,
            },
            NView::Call(f) => match (node_ins(fv, b.outs, k as usize), find_binding(hv.0, f, hv.0.len())) {
                (Some(xs), Some(bi)) => {
                    let hb = hv.0[bi as int];
                    match find_from(tb_keys(st.bindings), hb.2, xs, 0) {
                        Some((i, p)) => match call_outs(st, i, p) {
                            TRes::Done((v, n2)) => TRes::Done((add_node(b, TNView::Call(i as usize), v), TState { nvars: n2, ..st })),
                            _ => TRes::Stuck,
                        },
                        None => match all_fsuper(xs, xs.len(), st.nvars) {
                            crate::tir::Outcome::Found((fs, p), m) => if fuel == 0 {
                                TRes::Stuck
                            } else {
                                match tir_fn(hv, cs, ps, hb.3, fs, TState { nvars: m, ..st }, (fuel - 1) as nat) {
                                    TRes::Done((tf, st2)) => {
                                        let st3 = TState { bindings: st2.bindings.push((hb.0, hb.1, hb.2, tf)), ..st2 };
                                        let i = st2.bindings.len();
                                        match call_outs(st3, i, p) {
                                            TRes::Done((v, n2)) => TRes::Done((
                                                add_node(b, TNView::Call(i as usize), v),
                                                TState { nvars: n2, ..st3 },
                                            )),
                                            _ => TRes::Stuck,
                                        }
                                    },
                                    TRes::Fails(e) => TRes::Fails(e),
                                    TRes::Stuck => TRes::Stuck,
                                }
                            },
                            crate::tir::Outcome::Absent(_) => TRes::Fails(TirError::Unranked("function call"@)),
                            crate::tir::Outcome::Unsupported => TRes::Stuck,
                        },
                    }
                },
                _ => TRes::Stuck,
            },
            _ => TRes::Stuck,
        }
    }
}

/// The analysis of the first `k` nodes of a function.
pub open spec fn tir_nodes(
    hv: (Seq<(usize, usize, u64, FView)>, Option<(FView, usize)>),
    cs: Seq<UValue>,
    ps: Seq<PrimKind>,
    fv: FView,
    ins: Seq<VInfo>,
    st: TState,
    fuel: nat,
    k: nat,
) -> TRes<(BState, TState)>
    decreases fuel, k, 1nat,
{
    if k == 0 {
        TRes::Done((BState { nodes: seq![], outs: seq![], reads: seq![], extras: seq![] }, st))
    } else {
        match tir_nodes(hv, cs, ps, fv, ins, st, fuel, (k - 1) as nat) {
            TRes::Done((b, s)) => node_step(hv, cs, ps, fv, ins, b, s, fuel, (k - 1) as nat),
            TRes::Fails(e) => TRes::Fails(e),
            TRes::Stuck => TRes::Stuck,
        }
    }
}

/// The edges of a function with each edge of a node that reads other
/// values than its edges give sent to those values.
pub open spec fn mapped_edges(
    edges: Seq<Option<(usize, usize, (usize, usize))>>,
    reads: Seq<Option<Seq<(usize, usize)>>>,
) -> Seq<Option<(usize, usize, (usize, usize))>> {
    Seq::new(edges.len(), |i: int| mapped_edge(edges[i], reads))
}

pub open spec fn mapped_edge(
    e: Option<(usize, usize, (usize, usize))>,
    reads: Seq<Option<Seq<(usize, usize)>>>,
) -> Option<(usize, usize, (usize, usize))> {
    match e {
        Some((a, c, w)) => if a < reads.len() && reads[a as int] is Some && w.1 < reads[a as int]->Some_0.len() {
            Some((a, reads[a as int]->Some_0[w.1 as int].0, (reads[a as int]->Some_0[w.1 as int].1, w.1)))
        } else {
            Some((a, c, w))
        },
        None => None,
    }
}

/// The edges of the first `k` added nodes, numbered from `n`: one for each
/// value a node reads, in order.
pub open spec fn extra_edges(xs: Seq<(TNView, Seq<VInfo>, Seq<(usize, usize)>)>, n: nat, k: nat) -> Seq<
    Option<(usize, usize, (usize, usize))>,
>
    decreases k,
{
    if k == 0 || k > xs.len() {
        seq![]
    } else {
        let rs = xs[k - 1].2;
        extra_edges(xs, n, (k - 1) as nat) + Seq::new(
            rs.len(),
            |j: int| Some(((n + k - 1) as usize, rs[j].0, (rs[j].1, j as usize))),
        )
    }
}

/// Whether the typed function can be built: its nodes and edges within the
/// graph's limits, and every value read a node of it.
pub open spec fn built_ok(fv: FView, b: BState) -> bool {
    let t = fv.nodes.len() + b.extras.len();
    &&& t < u32::MAX
    &&& fv.edges.len() + extra_edges(b.extras, fv.nodes.len(), b.extras.len()).len() < u32::MAX
    &&& b.reads.len() == fv.nodes.len()
    &&& forall|i: int| 0 <= i < b.reads.len() ==> (#[trigger] b.reads[i] matches Some(rs) ==> forall|j: int|
        0 <= j < rs.len() ==> rs[j].0 < t)
    &&& forall|i: int| 0 <= i < b.extras.len() ==> forall|j: int| 0 <= j < (#[trigger] b.extras[i]).2.len() ==> b.extras[i].2[j].0 < t
}

/// The spans of the first `n` nodes.
pub open spec fn spans_below(s: Map<usize, usize>, n: nat) -> Map<usize, usize> {
    Map::new(|i: usize| i < n && s.dom().contains(i), |i: usize| s[i])
}

/// The analysis of a function called with arguments of the types `ins`:
/// each node in order, its input types read through its edges; then the
/// types that the output node reads are the function's output types. The
/// typed function has the graph of the HIR function.
pub open spec fn tir_fn(
    hv: (Seq<(usize, usize, u64, FView)>, Option<(FView, usize)>),
    cs: Seq<UValue>,
    ps: Seq<PrimKind>,
    fv: FView,
    ins: Seq<VInfo>,
    st: TState,
    fuel: nat,
) -> TRes<(TFView, TState)>
    decreases fuel, fv.nodes.len() + 1, 2nat,
{
    if !fv_wf(fv) || ins.len() > usize::MAX {
        TRes::Stuck
    } else {
        let n = fv.nodes.len();
        match tir_nodes(hv, cs, ps, fv, ins, st, fuel, n) {
            TRes::Done((b, s)) => match node_ins(fv, b.outs, fv.output) {
                Some(os) => if built_ok(fv, b) {
                    let t = n + b.extras.len();
                    TRes::Done((
                        TFView {
                            slots: Seq::new(t, |i: int| Some(i as usize)),
                            edges: mapped_edges(fv.edges, b.reads) + extra_edges(b.extras, n, b.extras.len()),
                            nodes: b.nodes + b.extras.map_values(|x: (TNView, Seq<VInfo>, Seq<(usize, usize)>)| x.0),
                            input: fv.input,
                            output: fv.output,
                            args: ins.len() as usize,
                            outs: os.len() as usize,
                            metas: Map::new(
                                |i: usize| i < t,
                                |i: usize| if i < n { b.outs[i as int] } else { b.extras[i - n].1 },
                            ),
                            spans: spans_below(fv.spans, n),
                            inputs: ins,
                            outputs: os,
                        },
                        s,
                    ))
                } else {
                    TRes::Stuck
                },
                None => TRes::Stuck,
            },
            TRes::Fails(e) => TRes::Fails(e),
            TRes::Stuck => TRes::Stuck,
        }
    }
}

/// The typed IR of a program: its main function analysed with no
/// arguments, and the monomorphizations of the functions it calls, in the
/// order they were made; with the counter after.
pub open spec fn tir_of(
    hv: (Seq<(usize, usize, u64, FView)>, Option<(FView, usize)>),
    cs: Seq<UValue>,
    ps: Seq<PrimKind>,
    n: nat,
) -> TRes<((Seq<(usize, usize, u64, TFView)>, Option<(TFView, usize)>), nat)> {
    match hv.1 {
        None => TRes::Done(((seq![], None), n)),
        Some((fv, span)) => match tir_fn(hv, cs, ps, fv, seq![], TState { bindings: seq![], nvars: n }, CALL_DEPTH as nat) {
            TRes::Done((tf, s)) => TRes::Done(((s.bindings, Some((tf, span))), s.nvars)),
            TRes::Fails(e) => TRes::Fails(e),
            TRes::Stuck => TRes::Stuck,
        },
    }
}

pub open spec fn outs_view(s: Seq<Vec<ValueInfo>>) -> Seq<Seq<VInfo>> {
    s.map_values(|v: Vec<ValueInfo>| values_view(v@))
}

/// Slots past the last edge change neither count nor search.
proof fn lemma_edges_past(edges: Seq<Option<(usize, usize, (usize, usize))>>, k: usize, j: usize, b: nat, u: nat)
    requires
        b <= u <= edges.len(),
        forall|i: int| b <= i < edges.len() ==> #[trigger] edges[i] is None,
    ensures
        in_count(edges, k, u) == in_count(edges, k, b),
        find_in(edges, k, j, u) == find_in(edges, k, j, b),
    decreases u,
{
    if u > b {
        lemma_edges_past(edges, k, j, b, (u - 1) as nat);
    }
}

/// The number of edges that leave node `k`: the number of its inputs.
fn count_inputs(g: &Graph, k: usize) -> (r: usize)
    ensures
        r == in_count(graph_edges(*g), k, graph_edges(*g).len()),
{
    let ghost edges = graph_edges(*g);
    let bound = graph_edge_bound(g);
    proof {
        lemma_edges_past(edges, k, 0, bound as nat, edges.len());
    }
    let mut r: usize = 0;
    let mut i: usize = 0;
    while i < bound
        invariant
            i <= bound <= edges.len(),
            edges == graph_edges(*g),
            r == in_count(edges, k, i as nat),
            r <= i,
        decreases bound - i,
    {
        match graph_edge_endpoints(g, i) {
            Some((a, _)) => {
                if a == k {
                    r = r + 1;
                }
            },
            None => {},
        }
        i = i + 1;
    }
    r
}

/// What the first edge feeding input `j` of node `k` reads.
fn find_input(g: &Graph, k: usize, j: usize) -> (r: Option<(usize, usize)>)
    ensures
        r == find_in(graph_edges(*g), k, j, graph_edges(*g).len()),
{
    let ghost edges = graph_edges(*g);
    let bound = graph_edge_bound(g);
    proof {
        lemma_edges_past(edges, k, j, bound as nat, edges.len());
    }
    let mut i: usize = 0;
    while i < bound
        invariant
            i <= bound <= edges.len(),
            edges == graph_edges(*g),
            find_in(edges, k, j, i as nat) is None,
            find_in(edges, k, j, edges.len()) == find_in(edges, k, j, bound as nat),
        decreases bound - i,
    {
        match (graph_edge_endpoints(g, i), graph_edge_weight(g, i)) {
            (Some((a, b)), Some(w)) => {
                if a == k && w.1 == j {
                    proof {
                        assert(edges[i as int] == Some((a, b, w)));
                        assert(find_in(edges, k, j, (i + 1) as nat) == Some((b, w.0)));
                        lemma_find_stays(edges, k, j, (i + 1) as nat, bound as nat);
                    }
                    return Some((b, w.0));
                }
            },
            _ => {},
        }
        i = i + 1;
    }
    None
}

/// Once found among the first `u` slots, an edge stays the one found.
proof fn lemma_find_stays(edges: Seq<Option<(usize, usize, (usize, usize))>>, k: usize, j: usize, u: nat, v: nat)
    requires
        u <= v <= edges.len(),
    ensures
        find_in(edges, k, j, u) is Some ==> find_in(edges, k, j, v) == find_in(edges, k, j, u),
    decreases v,
{
    if u < v {
        lemma_find_stays(edges, k, j, u, (v - 1) as nat);
    }
}

/// Nothing found among the first inputs stays so.
proof fn lemma_ins_stops(fv: FView, outs: Seq<Seq<VInfo>>, k: usize, m: nat, n: nat)
    requires
        m <= n,
        ins_from(fv, outs, k, m) is None,
    ensures
        ins_from(fv, outs, k, n) is None,
    decreases n,
{
    if m < n {
        lemma_ins_stops(fv, outs, k, m, (n - 1) as nat);
    }
}

/// The types of the inputs of node `k` of `f`, from the output types of the
/// nodes typed so far; nothing where an input is missing.
fn input_types(f: &HirFunction, outs: &Vec<Vec<ValueInfo>>, k: usize) -> (r: Option<Vec<ValueInfo>>)
    ensures
        r matches Some(v) ==> node_ins(fview(*f), outs_view(outs@), k) == Some(values_view(v@)),
        r is None ==> node_ins(fview(*f), outs_view(outs@), k) is None,
{
    let ghost fv = fview(*f);
    let ghost ov = outs_view(outs@);
    let m = count_inputs(&f.graph, k);
    let mut v: Vec<ValueInfo> = Vec::new();
    let mut j: usize = 0;
    assert(values_view(v@) =~= Seq::<VInfo>::empty());
    while j < m
        invariant
            j <= m,
            fv == fview(*f),
            ov == outs_view(outs@),
            m == in_count(fv.edges, k, fv.edges.len()),
            ins_from(fv, ov, k, j as nat) == Some(values_view(v@)),
        decreases m - j,
    {
        match find_input(&f.graph, k, j) {
            Some((t, o)) => {
                if t < outs.len() && o < outs[t].len() {
                    proof {
                        lemma_values_view(outs@[t as int]@);
                    }
                    let x = outs[t][o].duplicate();
                    let ghost before = v@;
                    v.push(x);
                    assert(v@.drop_last() =~= before);
                } else {
                    proof {
                        lemma_values_view(outs@[t as int]@);
                        lemma_ins_stops(fv, ov, k, (j + 1) as nat, m as nat);
                    }
                    return None;
                }
            },
            None => {
                proof {
                    lemma_ins_stops(fv, ov, k, (j + 1) as nat, m as nat);
                }
                return None;
            },
        }
        j = j + 1;
    }
    Some(v)
}

proof fn lemma_nviews_index(s: Seq<crate::hir::Node>)
    ensures
        crate::hir::nviews(s).len() == s.len(),
        forall|i: int| 0 <= i < s.len() ==> #[trigger] crate::hir::nviews(s)[i] == crate::hir::nview(s[i]),
    decreases s.len(),
{
    if s.len() > 0 {
        lemma_nviews_index(s.drop_last());
        assert forall|i: int| 0 <= i < s.len() implies #[trigger] crate::hir::nviews(s)[i] == crate::hir::nview(s[i]) by {
            if i < s.len() - 1 {
                assert(s.drop_last()[i] == s[i]);
            }
        }
    }
}

proof fn lemma_tnviews_push(s: Seq<Node>, n: Node)
    ensures
        tnviews(s.push(n)) == tnviews(s).push(tnview(n)),
{
    assert(s.push(n).drop_last() =~= s);
}

proof fn lemma_mono_keys(bs: Seq<Binding>)
    ensures
        mono_keys(bs) == tb_keys(tbviews(bs)),
{
    assert(mono_keys(bs) =~= tb_keys(tbviews(bs)));
}

proof fn lemma_one_value(v: ValueInfo)
    ensures
        values_view(seq![v]) == seq![vinfo(v)],
{
    assert(seq![v].drop_last() =~= Seq::<ValueInfo>::empty());
    assert(values_view(Seq::<ValueInfo>::empty()) == Seq::<VInfo>::empty());
    assert(seq![vinfo(v)] =~= Seq::<VInfo>::empty().push(vinfo(v)));
}

/// Failing or not completing on the first nodes does so on more.
proof fn lemma_nodes_stops(
    hv: (Seq<(usize, usize, u64, FView)>, Option<(FView, usize)>),
    cs: Seq<UValue>,
    ps: Seq<PrimKind>,
    fv: FView,
    ins: Seq<VInfo>,
    st: TState,
    fuel: nat,
    j: nat,
    k: nat,
)
    requires
        j <= k,
    ensures
        tir_nodes(hv, cs, ps, fv, ins, st, fuel, j) is Stuck ==> tir_nodes(hv, cs, ps, fv, ins, st, fuel, k) is Stuck,
        tir_nodes(hv, cs, ps, fv, ins, st, fuel, j) matches TRes::Fails(e) ==> tir_nodes(hv, cs, ps, fv, ins, st, fuel, k)
            == TRes::<(BState, TState)>::Fails(e),
    decreases k,
{
    if j < k {
        lemma_nodes_stops(hv, cs, ps, fv, ins, st, fuel, j, (k - 1) as nat);
    }
}

/// The position of the first HIR binding of the function with id `f`.
fn find_hir_binding(bindings: &Vec<crate::hir::Binding>, f: usize) -> (r: Option<usize>)
    ensures
        r matches Some(i) ==> find_binding(bindings_view(bindings@), f, bindings@.len()) == Some(i as nat),
        r is None ==> find_binding(bindings_view(bindings@), f, bindings@.len()) is None,
{
    let ghost bv = bindings_view(bindings@);
    let mut i: usize = 0;
    while i < bindings.len()
        invariant
            i <= bindings.len(),
            bv == bindings_view(bindings@),
            bv.len() == bindings.len(),
            find_binding(bv, f, i as nat) is None,
        decreases bindings.len() - i,
    {
        if bindings[i].func_id == f {
            assert(bv[i as int].1 == f);
            proof {
                lemma_binding_stays(bv, f, (i + 1) as nat, bv.len());
            }
            return Some(i);
        }
        i = i + 1;
    }
    None
}

proof fn lemma_binding_found(bs: Seq<(usize, usize, u64, FView)>, f: usize, u: nat)
    ensures
        find_binding(bs, f, u) matches Some(i) ==> i < u && u <= bs.len() && bs[i as int].1 == f,
    decreases u,
{
    if u > 0 && u <= bs.len() {
        lemma_binding_found(bs, f, (u - 1) as nat);
    }
}

proof fn lemma_binding_stays(bs: Seq<(usize, usize, u64, FView)>, f: usize, u: nat, v: nat)
    requires
        u <= v <= bs.len(),
    ensures
        find_binding(bs, f, u) is Some ==> find_binding(bs, f, v) == find_binding(bs, f, u),
    decreases v,
{
    if u < v {
        lemma_binding_stays(bs, f, u, (v - 1) as nat);
    }
}

/// The output type of a primitive on its argument.
fn prim_type(kind: PrimKind, x: &ValueInfo) -> (r: Result<ValueInfo, ErrorKind>)
    requires
        !(prim_out(kind, vinfo(*x)) is Stuck),
    ensures
        prim_out(kind, vinfo(*x)) matches TRes::Done(y) ==> r matches Ok(v) && vinfo(v) == y,
        prim_out(kind, vinfo(*x)) matches TRes::Fails(e) ==> r matches Err(z) && err_is(z, e),
{
    match kind {
        PrimKind::Sign => sign(x),
        PrimKind::Negate => negate(x),
        PrimKind::AbsoluteValue => absolute_value(x),
        PrimKind::Floor => floor(x),
        PrimKind::Ceiling => ceiling(x),
        PrimKind::Round => round(x),
        PrimKind::Compare(_) | PrimKind::Unsupported => Err(ErrorKind::Unranked("primitive")),
    }
}

proof fn lemma_two_values(a: ValueInfo, b: ValueInfo)
    ensures
        values_view(seq![a, b]) == seq![vinfo(a), vinfo(b)],
{
    assert(seq![a, b].drop_last() =~= seq![a]);
    lemma_one_value(a);
    assert(seq![vinfo(a), vinfo(b)] =~= seq![vinfo(a)].push(vinfo(b)));
}

/// Types a comparison `op`, primitive `p`, as node `k` of `f` on arguments
/// of the types `xs`: the cast and the shape checks it needs are added to
/// `added`, and the types of its output and the values it reads are given.
#[verifier::spinoff_prover]
#[verifier::rlimit(60)]
fn translate_comparison(
    f: &HirFunction,
    k: usize,
    op: Comparison,
    p: crate::hir::Prim,
    xs: &Vec<ValueInfo>,
    added: &mut Added,
    Ghost(b): Ghost<BState>,
) -> (r: Result<(Vec<ValueInfo>, Vec<(usize, usize)>), ErrorKind>)
    requires
        xs.len() == 2,
        added_wf(*old(added)),
        b.extras == added_view(*old(added)),
        find_in(fview(*f).edges, k, 0, fview(*f).edges.len()) is Some,
        find_in(fview(*f).edges, k, 1, fview(*f).edges.len()) is Some,
        !(compare_step(
            fview(*f),
            b,
            op,
            p,
            vinfo(xs@[0]),
            vinfo(xs@[1]),
            find_in(fview(*f).edges, k, 0, fview(*f).edges.len())->Some_0,
            find_in(fview(*f).edges, k, 1, fview(*f).edges.len())->Some_0,
        ) is Stuck),
    ensures
        compare_step(
            fview(*f),
            b,
            op,
            p,
            vinfo(xs@[0]),
            vinfo(xs@[1]),
            find_in(fview(*f).edges, k, 0, fview(*f).edges.len())->Some_0,
            find_in(fview(*f).edges, k, 1, fview(*f).edges.len())->Some_0,
        ) matches TRes::Done(b2) ==> (r matches Ok((v, rd)) && added_wf(*final(added)) && b2 == BState {
            nodes: b.nodes.push(TNView::FuncPrim(Prim::Prim(p))),
            outs: b.outs.push(values_view(v@)),
            reads: b.reads.push(Some(rd@)),
            extras: added_view(*final(added)),
        }),
        compare_step(
            fview(*f),
            b,
            op,
            p,
            vinfo(xs@[0]),
            vinfo(xs@[1]),
            find_in(fview(*f).edges, k, 0, fview(*f).edges.len())->Some_0,
            find_in(fview(*f).edges, k, 1, fview(*f).edges.len())->Some_0,
        ) matches TRes::Fails(e) ==> (r matches Err(z) && err_is(z, e)),
{
    let ghost fv = fview(*f);
    let ghost l = vinfo(xs@[0]);
    let ghost rv = vinfo(xs@[1]);
    let ghost a0 = added_view(*added);
    let lr0 = match find_input(&f.graph, k, 0) {
        Some(x) => x,
        None => return Err(ErrorKind::Unranked("comparison")),
    };
    let rr0 = match find_input(&f.graph, k, 1) {
        Some(x) => x,
        None => return Err(ErrorKind::Unranked("comparison")),
    };
    let plan = match comparison(op, &xs[0], &xs[1]) {
        Ok(pl) => pl,
        Err(e) => return Err(e),
    };
    let ghost tm = type_match(l, rv);
    let ghost l2 = cast_infos(l, rv).0;
    let ghost r2 = cast_infos(l, rv).1;
    let ghost cs = shape_checks(l2, r2)->Checks_0;
    proof {
        lemma_nviews_index(f.nodes@);
    }
    assert(!(tm is Mismatch));
    assert(shape_checks(l2, r2) is Checks);
    assert(fv.nodes.len() + b.extras.len() + cs.len() + 1 < usize::MAX);
    assert(b.extras.len() == added.nodes.len());
    let base = f.nodes.len() + added.nodes.len();
    let ghost ce = cast_extras(tm, l, rv, lr0, rr0, base as nat);
    let mut lr = lr0;
    let mut rr = rr0;
    let (lx, rx) = match &plan.cast {
        Some(c) => {
            let mut v: Vec<ValueInfo> = Vec::new();
            v.push(c.info.duplicate());
            proof {
                lemma_one_value(v@[0]);
            }
            assert(v@ =~= seq![v@[0]]);
            match c.side {
                Side::Left => {
                    let mut rd: Vec<(usize, usize)> = Vec::new();
                    rd.push(lr);
                    assert(rd@ =~= seq![lr]);
                    added.add(Node::TirOp(c.op), v, rd);
                    lr = (base, 0);
                    (c.info.duplicate(), xs[1].duplicate())
                },
                Side::Right => {
                    let mut rd: Vec<(usize, usize)> = Vec::new();
                    rd.push(rr);
                    assert(rd@ =~= seq![rr]);
                    added.add(Node::TirOp(c.op), v, rd);
                    rr = (base, 0);
                    (xs[0].duplicate(), c.info.duplicate())
                },
            }
        },
        None => (xs[0].duplicate(), xs[1].duplicate()),
    };
    assert(vinfo(lx) == l2 && vinfo(rx) == r2);
    assert(added_view(*added) =~= a0 + ce.0);
    assert(lr == ce.1 && rr == ce.2);
    let ghost b1 = (base + ce.0.len()) as nat;
    let mut i: usize = 0;
    assert(check_extras(cs, 0, l2, r2, ce.1, ce.2, b1).0 =~= Seq::<(TNView, Seq<VInfo>, Seq<(usize, usize)>)>::empty());
    assert(added_view(*added) =~= a0 + ce.0 + check_extras(cs, 0, l2, r2, ce.1, ce.2, b1).0);
    while i < plan.checks.len()
        invariant
            i <= plan.checks.len(),
            plan.checks@ == cs,
            added_wf(*added),
            vinfo(lx) == l2,
            vinfo(rx) == r2,
            fv == fview(*f),
            f.nodes.len() + a0.len() + cs.len() + 1 < usize::MAX,
            ce.0.len() <= 1,
            f.nodes.len() + a0.len() == base,
            b1 == base + ce.0.len(),
            added_view(*added) == a0 + ce.0 + check_extras(cs, i as nat, l2, r2, ce.1, ce.2, b1).0,
            lr == check_extras(cs, i as nat, l2, r2, ce.1, ce.2, b1).1,
            rr == check_extras(cs, i as nat, l2, r2, ce.1, ce.2, b1).2,
            check_extras(cs, i as nat, l2, r2, ce.1, ce.2, b1).0.len() == i,
        decreases plan.checks.len() - i,
    {
        let ghost prev = check_extras(cs, i as nat, l2, r2, ce.1, ce.2, b1);
        assert(added.nodes.len() == added_view(*added).len());
        assert(added.nodes.len() == a0.len() + ce.0.len() + prev.0.len());
        let idx = f.nodes.len() + added.nodes.len();
        assert(idx == b1 + prev.0.len());
        match plan.checks[i] {
            ShapeCheck::Both(o) => {
                let mut v: Vec<ValueInfo> = Vec::new();
                v.push(lx.duplicate());
                v.push(rx.duplicate());
                proof {
                    lemma_two_values(v@[0], v@[1]);
                }
                assert(v@ =~= seq![v@[0], v@[1]]);
                let mut rd: Vec<(usize, usize)> = Vec::new();
                rd.push(lr);
                rd.push(rr);
                assert(rd@ =~= seq![lr, rr]);
                added.add(Node::TirOp(o), v, rd);
                lr = (idx, 0);
                rr = (idx, 1);
            },
            ShapeCheck::One(Side::Left, o) => {
                let mut v: Vec<ValueInfo> = Vec::new();
                v.push(lx.duplicate());
                proof {
                    lemma_one_value(v@[0]);
                }
                assert(v@ =~= seq![v@[0]]);
                let mut rd: Vec<(usize, usize)> = Vec::new();
                rd.push(lr);
                assert(rd@ =~= seq![lr]);
                added.add(Node::TirOp(o), v, rd);
                lr = (idx, 0);
            },
            ShapeCheck::One(Side::Right, o) => {
                let mut v: Vec<ValueInfo> = Vec::new();
                v.push(rx.duplicate());
                proof {
                    lemma_one_value(v@[0]);
                }
                assert(v@ =~= seq![v@[0]]);
                let mut rd: Vec<(usize, usize)> = Vec::new();
                rd.push(rr);
                assert(rd@ =~= seq![rr]);
                added.add(Node::TirOp(o), v, rd);
                rr = (idx, 0);
            },
        }
        i = i + 1;
        assert(added_view(*added) =~= a0 + ce.0 + check_extras(cs, i as nat, l2, r2, ce.1, ce.2, b1).0);
    }
    let mut v: Vec<ValueInfo> = Vec::new();
    let out = plan.output;
    v.push(out);
    proof {
        lemma_one_value(v@[0]);
    }
    assert(v@ =~= seq![v@[0]]);
    let mut rd: Vec<(usize, usize)> = Vec::new();
    rd.push(lr);
    rd.push(rr);
    assert(rd@ =~= seq![lr, rr]);
    assert(a0 + ce.0 + check_extras(cs, cs.len(), l2, r2, ce.1, ce.2, b1).0 =~= b.extras + ce.0 + check_extras(
        cs,
        cs.len(),
        l2,
        r2,
        ce.1,
        ce.2,
        b1,
    ).0);
    Ok((v, rd))
}

#[verifier::spinoff_prover]
#[verifier::rlimit(60)]
/// Types node `k` of `f`, after its earlier nodes gave `outs`: its payload
/// in the typed function and the types of its outputs.
fn translate_node(
    hir: &Hir,
    cs: &Vec<UValue>,
    ps: &Vec<PrimKind>,
    f: &HirFunction,
    inputs: &Vec<ValueInfo>,
    k: usize,
    outs: &Vec<Vec<ValueInfo>>,
    added: &mut Added,
    bindings: &mut Vec<Binding>,
    nvars: &mut usize,
    fuel: usize,
    Ghost(bn): Ghost<Seq<TNView>>,
    Ghost(br): Ghost<Seq<Option<Seq<(usize, usize)>>>>,
) -> (r: Result<(Node, Vec<ValueInfo>, Option<Vec<(usize, usize)>>), ErrorKind>)
    requires
        added_wf(*old(added)),
        !(node_step(
            hir_view(*hir),
            cs@,
            ps@,
            fview(*f),
            values_view(inputs@),
            BState { nodes: bn, outs: outs_view(outs@), reads: br, extras: added_view(*old(added)) },
            TState { bindings: tbviews(old(bindings)@), nvars: *old(nvars) as nat },
            fuel as nat,
            k as nat,
        ) is Stuck),
    ensures
        node_step(
            hir_view(*hir),
            cs@,
            ps@,
            fview(*f),
            values_view(inputs@),
            BState { nodes: bn, outs: outs_view(outs@), reads: br, extras: added_view(*old(added)) },
            TState { bindings: tbviews(old(bindings)@), nvars: *old(nvars) as nat },
            fuel as nat,
            k as nat,
        ) matches TRes::Done((b2, s2)) ==> (r matches Ok((n, v, rd)) && added_wf(*final(added)) && b2 == BState {
            nodes: bn.push(tnview(n)),
            outs: outs_view(outs@).push(values_view(v@)),
            reads: br.push(
                match rd {
                    Some(x) => Some(x@),
                    None => None,
                },
            ),
            extras: added_view(*final(added)),
        } && s2 == TState { bindings: tbviews(final(bindings)@), nvars: *final(nvars) as nat }),
        node_step(
            hir_view(*hir),
            cs@,
            ps@,
            fview(*f),
            values_view(inputs@),
            BState { nodes: bn, outs: outs_view(outs@), reads: br, extras: added_view(*old(added)) },
            TState { bindings: tbviews(old(bindings)@), nvars: *old(nvars) as nat },
            fuel as nat,
            k as nat,
        ) matches TRes::Fails(e) ==> (r matches Err(z) && err_is(z, e)),
    decreases fuel, k, 0nat,
{
    let ghost fv = fview(*f);
    let ghost hv = hir_view(*hir);
    proof {
        lemma_nviews_index(f.nodes@);
        lemma_values_view(inputs@);
    }
    match &f.nodes[k] {
        crate::hir::Node::Input => Ok((Node::Input, clone_values(inputs), None)),
        crate::hir::Node::Output => {
            let v: Vec<ValueInfo> = Vec::new();
            assert(values_view(v@) =~= Seq::<VInfo>::empty());
            Ok((Node::Output, v, None))
        },
        crate::hir::Node::Constant(c) => {
            match ValueInfo::try_from(&cs[*c], nvars) {
                Ok(v) => {
                    let n = Node::Constant(v.duplicate());
                    proof {
                        lemma_one_value(v);
                    }
                    let mut out: Vec<ValueInfo> = Vec::new();
                    out.push(v);
                    assert(out@ =~= seq![v]);
                    Ok((n, out, None))
                },
                Err(e) => Err(ErrorKind::UiuaValue(e)),
            }
        },
        crate::hir::Node::FuncPrim(p) => {
            let xs = match input_types(f, outs, k) {
                Some(xs) => xs,
                None => return Err(ErrorKind::Unranked("primitive")),
            };
            proof {
                lemma_values_view(xs@);
            }
            match p {
                crate::hir::Prim::Other(q) => {
                    match ps[*q as usize] {
                        PrimKind::Compare(op) => {
                            let ghost b = BState { nodes: bn, outs: outs_view(outs@), reads: br, extras: added_view(*added) };
                            let (v, rd) = match translate_comparison(f, k, op, *p, &xs, added, Ghost(b)) {
                                Ok(x) => x,
                                Err(e) => return Err(e),
                            };
                            Ok((Node::FuncPrim(Prim::Prim(*p)), v, Some(rd)))
                        },
                        kind => {
                            let y = match prim_type(kind, &xs[0]) {
                                Ok(y) => y,
                                Err(e) => return Err(e),
                            };
                            proof {
                                lemma_one_value(y);
                            }
                            let mut out: Vec<ValueInfo> = Vec::new();
                            out.push(y);
                            assert(out@ =~= seq![y]);
                            Ok((Node::FuncPrim(Prim::Prim(*p)), out, None))
                        },
                    }
                },
                _ => Err(ErrorKind::Unranked("primitive")),
            }
        },
        crate::hir::Node::Call(fid) => {
            let xs = match input_types(f, outs, k) {
                Some(xs) => xs,
                None => return Err(ErrorKind::Unranked("function call")),
            };
            let bi = match find_hir_binding(&hir.bindings, *fid) {
                Some(i) => i,
                None => return Err(ErrorKind::Unranked("function call")),
            };
            proof {
                lemma_binding_found(hv.0, *fid, hv.0.len());
            }
            let hb = &hir.bindings[bi];
            assert(hv.0[bi as int] == crate::hir::binding_view(*hb));
            assert(fv.nodes[k as int] == NView::Call(*fid));
            assert(node_ins(fv, outs_view(outs@), k) == Some(values_view(xs@)));
            proof {
                lemma_values_view(xs@);
            }
            proof {
                lemma_mono_keys(bindings@);
            }
            match find_monomorphization(bindings, hb.hash, &xs) {
                Some((i, substs)) => {
                    proof {
                        lemma_values_view(bindings@[i as int].func.meta.outputs@);
                    }
                    let mut cache = subst_cache(&substs);
                    let v = instantiate_outputs(&bindings[i].func.meta.outputs, &mut cache, nvars);
                    Ok((Node::Call(i), v, None))
                },
                None => {
                    let (fs, substs) = match call_input_types(&xs, nvars) {
                        Ok(x) => x,
                        Err(e) => return Err(e),
                    };
                    if fuel == 0 {
                        return Err(ErrorKind::Unranked("function call"));
                    }
                    let tf = match monomorphize_and_analyze(hir, cs, ps, &hb.func, fs, bindings, nvars, fuel - 1) {
                        Ok(t) => t,
                        Err(e) => return Err(e),
                    };
                    let ghost before = bindings@;
                    bindings.push(Binding { span: hb.span, func_id: hb.func_id, hash: hb.hash, func: tf });
                    assert(tbviews(bindings@) =~= tbviews(before).push(tbview(bindings@[before.len() as int])));
                    let i = bindings.len() - 1;
                    proof {
                        lemma_values_view(bindings@[i as int].func.meta.outputs@);
                    }
                    let mut cache = subst_cache(&substs);
                    let v = instantiate_outputs(&bindings[i].func.meta.outputs, &mut cache, nvars);
                    Ok((Node::Call(i), v, None))
                },
            }
        },
        _ => Err(ErrorKind::Unranked("primitive")),
    }
}

/// Analyses `f` called with arguments of the types `inputs`: a typed
/// function with the graph of `f`, each node typed in order, its input
/// types read through its edges from the nodes before it. A call is typed
/// by a monomorphization of the called function made before for arguments
/// it matches, else by a new one, analysed first and added to `bindings`.
#[verifier::spinoff_prover]
#[verifier::rlimit(60)]
pub fn monomorphize_and_analyze(
    hir: &Hir,
    cs: &Vec<UValue>,
    ps: &Vec<PrimKind>,
    f: &HirFunction,
    inputs: Vec<ValueInfo>,
    bindings: &mut Vec<Binding>,
    nvars: &mut usize,
    fuel: usize,
) -> (r: Result<Function, ErrorKind>)
    requires
        !(tir_fn(
            hir_view(*hir),
            cs@,
            ps@,
            fview(*f),
            values_view(inputs@),
            TState { bindings: tbviews(old(bindings)@), nvars: *old(nvars) as nat },
            fuel as nat,
        ) is Stuck),
    ensures
        tir_fn(
            hir_view(*hir),
            cs@,
            ps@,
            fview(*f),
            values_view(inputs@),
            TState { bindings: tbviews(old(bindings)@), nvars: *old(nvars) as nat },
            fuel as nat,
        ) matches TRes::Done((tf, s)) ==> (r matches Ok(x) && tfview(x) == tf && tbviews(final(bindings)@) == s.bindings
            && *final(nvars) == s.nvars),
        tir_fn(
            hir_view(*hir),
            cs@,
            ps@,
            fview(*f),
            values_view(inputs@),
            TState { bindings: tbviews(old(bindings)@), nvars: *old(nvars) as nat },
            fuel as nat,
        ) matches TRes::Fails(e) ==> (r matches Err(z) && err_is(z, e)),
    decreases fuel, fview(*f).nodes.len() + 1, 2nat,
{
    let ghost hv = hir_view(*hir);
    let ghost fv = fview(*f);
    let ghost ins = values_view(inputs@);
    let ghost st0 = TState { bindings: tbviews(bindings@), nvars: *nvars as nat };
    proof {
        lemma_nviews_index(f.nodes@);
    }
    let n = f.nodes.len();
    proof {
        lemma_nodes_stops(hv, cs@, ps@, fv, ins, st0, fuel as nat, 0, n as nat);
    }
    let mut graph = graph_new();
    let mut nodes: Vec<Node> = Vec::new();
    let mut outs: Vec<Vec<ValueInfo>> = Vec::new();
    let mut reads: Vec<Option<Vec<(usize, usize)>>> = Vec::new();
    let mut added = Added { nodes: Vec::new(), outs: Vec::new(), reads: Vec::new() };
    let mut k: usize = 0;
    assert(tnviews(nodes@) =~= Seq::<TNView>::empty());
    assert(outs_view(outs@) =~= Seq::<Seq<VInfo>>::empty());
    assert(reads_view(reads@) =~= Seq::<Option<Seq<(usize, usize)>>>::empty());
    assert(added_view(added) =~= Seq::<(TNView, Seq<VInfo>, Seq<(usize, usize)>)>::empty());
    while k < n
        invariant
            k <= n,
            n == f.nodes.len(),
            hv == hir_view(*hir),
            fv == fview(*f),
            ins == values_view(inputs@),
            fv_wf(fv),
            fv.nodes.len() == n,
            st0 == (TState { bindings: tbviews(old(bindings)@), nvars: *old(nvars) as nat }),
            !(tir_nodes(hv, cs@, ps@, fv, ins, st0, fuel as nat, n as nat) is Stuck),
            tir_nodes(hv, cs@, ps@, fv, ins, st0, fuel as nat, n as nat) matches TRes::Fails(e) ==> tir_fn(hv, cs@, ps@, fv, ins, st0, fuel as nat) == TRes::<(TFView, TState)>::Fails(e),
            tir_nodes(hv, cs@, ps@, fv, ins, st0, fuel as nat, k as nat) == TRes::Done((
                BState {
                    nodes: tnviews(nodes@),
                    outs: outs_view(outs@),
                    reads: reads_view(reads@),
                    extras: added_view(added),
                },
                TState { bindings: tbviews(bindings@), nvars: *nvars as nat },
            )),
            added_wf(added),
            graph_nodes(graph) == Seq::new(k as nat, |i: int| Some(i as usize)),
            graph_edges(graph) == Seq::<Option<(usize, usize, (usize, usize))>>::empty(),
            nodes.len() == k,
            outs.len() == k,
            reads.len() == k,
        decreases n - k,
    {
        proof {
            lemma_nodes_stops(hv, cs@, ps@, fv, ins, st0, fuel as nat, (k + 1) as nat, n as nat);
        }
        let ghost step = node_step(
            hv,
            cs@,
            ps@,
            fv,
            ins,
            BState { nodes: tnviews(nodes@), outs: outs_view(outs@), reads: reads_view(reads@), extras: added_view(added) },
            TState { bindings: tbviews(bindings@), nvars: *nvars as nat },
            fuel as nat,
            k as nat,
        );
        assert(tir_nodes(hv, cs@, ps@, fv, ins, st0, fuel as nat, (k + 1) as nat) == step);
        let (node, vs, rd) = match translate_node(
            hir,
            cs,
            ps,
            f,
            &inputs,
            k,
            &outs,
            &mut added,
            bindings,
            nvars,
            fuel,
            Ghost(tnviews(nodes@)),
            Ghost(reads_view(reads@)),
        ) {
            Ok(x) => x,
            Err(e) => {
                proof {
                    assert(step is Fails);
                    assert(tir_nodes(hv, cs@, ps@, fv, ins, st0, fuel as nat, n as nat) == step);
                    assert(tir_fn(hv, cs@, ps@, fv, ins, st0, fuel as nat) is Fails);
                }
                return Err(e);
            },
        };
        let idx = graph_add_node(&mut graph, k);
        assert(graph_nodes(graph) =~= Seq::new((k + 1) as nat, |i: int| Some(i as usize)));
        let ghost nb = nodes@;
        let ghost ob = outs@;
        let ghost rb = reads@;
        proof {
            lemma_tnviews_push(nb, node);
        }
        nodes.push(node);
        outs.push(vs);
        reads.push(rd);
        assert(outs_view(outs@) =~= outs_view(ob).push(values_view(outs@[k as int]@)));
        assert(reads_view(reads@) =~= reads_view(rb).push(
            match rd {
                Some(x) => Some(x@),
                None => None,
            },
        ));
        k = k + 1;
    }
    let ghost b = BState { nodes: tnviews(nodes@), outs: outs_view(outs@), reads: reads_view(reads@), extras: added_view(added) };
    // The output types are what the output node reads.
    let os = match input_types(f, &outs, f.output_idx) {
        Some(os) => os,
        None => return Err(ErrorKind::Unranked("function call")),
    };
    assert(built_ok(fv, b));
    let e = added.nodes.len();
    let ghost t = (n + e) as nat;
    // The added nodes follow the nodes of `f`.
    let mut x: usize = 0;
    while x < e
        invariant
            x <= e,
            e == added.nodes.len(),
            n + e < u32::MAX,
            graph_nodes(graph) == Seq::new((n + x) as nat, |i: int| Some(i as usize)),
            graph_edges(graph) == Seq::<Option<(usize, usize, (usize, usize))>>::empty(),
        decreases e - x,
    {
        let idx = graph_add_node(&mut graph, n + x);
        assert(graph_nodes(graph) =~= Seq::new((n + x + 1) as nat, |i: int| Some(i as usize)));
        x = x + 1;
    }
    // The edges of `f`, each sent where its node reads.
    let bound = graph_edge_bound(&f.graph);
    assert(bound == fv.edges.len()) by {
        if bound < fv.edges.len() {
            assert(fv.edges[bound as int] is Some);
        }
    }
    let ghost me = mapped_edges(fv.edges, b.reads);
    let mut i: usize = 0;
    assert(me.take(0) =~= Seq::<Option<(usize, usize, (usize, usize))>>::empty());
    while i < bound
        invariant
            i <= bound == fv.edges.len(),
            fv == fview(*f),
            fv_wf(fv),
            fv.nodes.len() == n,
            b.reads == reads_view(reads@),
            reads.len() == n,
            built_ok(fv, b),
            t == n + b.extras.len(),
            me == mapped_edges(fv.edges, b.reads),
            graph_nodes(graph) == Seq::new(t, |j: int| Some(j as usize)),
            graph_edges(graph) == me.take(i as int),
        decreases bound - i,
    {
        assert(fv.edges[i as int] is Some);
        let (a, c) = match graph_edge_endpoints(&f.graph, i) {
            Some(y) => y,
            None => return Err(ErrorKind::Unranked("function call")),
        };
        let w = match graph_edge_weight(&f.graph, i) {
            Some(y) => y,
            None => return Err(ErrorKind::Unranked("function call")),
        };
        assert(forall|j: int| 0 <= j < graph_edges(graph).len() ==> #[trigger] graph_edges(graph)[j] == me[j]);
        let ghost ra = reads@[a as int];
        let (tgt, wt) = match &reads[a] {
            Some(rs) => {
                if w.1 < rs.len() {
                    assert(b.reads[a as int] == Some(rs@));
                    (rs[w.1].0, (rs[w.1].1, w.1))
                } else {
                    (c, w)
                }
            },
            None => (c, w),
        };
        assert(me[i as int] == Some((a, tgt, wt)));
        graph_add_edge(&mut graph, a, tgt, wt);
        assert(graph_edges(graph) =~= me.take(i + 1));
        i = i + 1;
    }
    assert(me.take(i as int) =~= me);
    assert forall|jj: int| 0 <= jj < me.len() implies #[trigger] me[jj] is Some by {
        assert(fv.edges[jj] is Some);
    }
    // The edges of the added nodes, one for each value each reads.
    let mut x: usize = 0;
    assert(me + extra_edges(b.extras, n as nat, 0) =~= me);
    while x < e
        invariant
            x <= e,
            e == added.nodes.len(),
            added_wf(added),
            b.extras == added_view(added),
            built_ok(fv, b),
            fv.nodes.len() == n,
            t == n + e,
            me.len() == fv.edges.len(),
            graph_nodes(graph) == Seq::new(t, |j: int| Some(j as usize)),
            graph_edges(graph) == me + extra_edges(b.extras, n as nat, x as nat),
            forall|jj: int| 0 <= jj < me.len() ==> #[trigger] me[jj] is Some,
            n + e < u32::MAX,
        decreases e - x,
    {
        let ghost before = graph_edges(graph);
        proof {
            lemma_extra_edges_some(b.extras, n as nat, x as nat);
        }
        assert forall|jj: int| 0 <= jj < before.len() implies #[trigger] before[jj] is Some by {
            if jj >= me.len() {
                assert(before[jj] == extra_edges(b.extras, n as nat, x as nat)[jj - me.len()]);
            } else {
                assert(before[jj] == me[jj]);
            }
        }
        let mut j: usize = 0;
        assert(b.extras[x as int].2 == added.reads@[x as int]@);
        assert(extra_edges(b.extras, n as nat, (x + 1) as nat) == extra_edges(b.extras, n as nat, x as nat) + Seq::new(
            added.reads@[x as int]@.len(),
            |jj: int| Some(((n + x) as usize, added.reads@[x as int]@[jj].0, (added.reads@[x as int]@[jj].1, jj as usize))),
        ));
        proof {
            lemma_extra_edges_len(b.extras, n as nat, (x + 1) as nat, e as nat);
        }
        while j < added.reads[x].len()
            invariant
                j <= added.reads@[x as int].len(),
                x < e,
                e == added.nodes.len(),
                added_wf(added),
                b.extras == added_view(added),
                built_ok(fv, b),
                t == n + e,
                before.len() + added.reads@[x as int].len() <= me.len() + extra_edges(b.extras, n as nat, e as nat).len(),
                me.len() == fv.edges.len(),
                fv.nodes.len() == n,
                n + e < u32::MAX,
                forall|jj: int| 0 <= jj < before.len() ==> #[trigger] before[jj] is Some,
                graph_nodes(graph) == Seq::new(t, |jj: int| Some(jj as usize)),
                graph_edges(graph) == before + Seq::new(
                    j as nat,
                    |jj: int| Some(((n + x) as usize, added.reads@[x as int]@[jj].0, (added.reads@[x as int]@[jj].1, jj as usize))),
                ),
            decreases added.reads@[x as int].len() - j,
        {
            let rf = added.reads[x][j];
            assert(b.extras[x as int].2[j as int] == rf);
            assert(forall|jj: int| 0 <= jj < graph_edges(graph).len() ==> #[trigger] graph_edges(graph)[jj] is Some);
            graph_add_edge(&mut graph, n + x, rf.0, (rf.1, j));
            j = j + 1;
            assert(graph_edges(graph) =~= before + Seq::new(
                j as nat,
                |jj: int| Some(((n + x) as usize, added.reads@[x as int]@[jj].0, (added.reads@[x as int]@[jj].1, jj as usize))),
            ));
        }
        x = x + 1;
        assert(graph_edges(graph) =~= me + extra_edges(b.extras, n as nat, x as nat));
    }
    // The output types of each node.
    let mut node_metas: HashMap<usize, Vec<ValueInfo>> = HashMap::new();
    let mut k: usize = 0;
    let ghost mv = Map::new(|j: usize| j < t, |j: usize| if j < n { b.outs[j as int] } else { b.extras[j - n].1 });
    assert(metas_view(node_metas@) =~= Map::new(|j: usize| j < 0, |j: usize| mv[j]));
    while k < n + e
        invariant
            k <= n + e,
            n == outs.len(),
            e == added.nodes.len(),
            added_wf(added),
            t == n + e,
            b.outs == outs_view(outs@),
            b.extras == added_view(added),
            mv == Map::new(|j: usize| j < t, |j: usize| if j < n { b.outs[j as int] } else { b.extras[j - n].1 }),
            n + e < u32::MAX,
            metas_view(node_metas@) == Map::new(|j: usize| j < k, |j: usize| mv[j]),
        decreases n + e - k,
    {
        let v = if k < n {
            clone_values(&outs[k])
        } else {
            clone_values(&added.outs[k - n])
        };
        let ghost m0 = node_metas@;
        let ghost vv = values_view(v@);
        assert(vv == mv[k]);
        node_metas.insert(k, v);
        assert(node_metas@ == m0.insert(k, v));
        assert(metas_view(node_metas@) =~= metas_view(m0).insert(k, vv));
        assert(metas_view(node_metas@) =~= Map::new(|j: usize| j < k + 1, |j: usize| mv[j]));
        k = k + 1;
    }
    assert(Map::new(|j: usize| j < k, |j: usize| mv[j]) =~= mv);
    // The spans of the nodes.
    let mut spans: HashMap<usize, usize> = HashMap::new();
    let mut k: usize = 0;
    assert(spans@ =~= spans_below(fv.spans, 0));
    while k < n
        invariant
            k <= n,
            fv == fview(*f),
            spans@ == spans_below(fv.spans, k as nat),
        decreases n - k,
    {
        match f.spans.get(&k) {
            Some(sp) => {
                spans.insert(k, *sp);
            },
            None => {},
        }
        assert(spans@ =~= spans_below(fv.spans, (k + 1) as nat));
        k = k + 1;
    }
    proof {
        lemma_values_view(inputs@);
        lemma_values_view(os@);
        lemma_tnviews_append(nodes@, added.nodes@);
    }
    assert(tnviews(added.nodes@) =~= b.extras.map_values(|y: (TNView, Seq<VInfo>, Seq<(usize, usize)>)| y.0));
    let ghost nodes_before = nodes@;
    let mut more = added.nodes;
    nodes.append(&mut more);
    assert(nodes@ == nodes_before + added.nodes@);
    let args = inputs.len();
    let nouts = os.len();
    let r = Function {
        meta: FunctionMeta { inputs, outputs: os },
        graph,
        nodes,
        input_idx: f.input_idx,
        output_idx: f.output_idx,
        args,
        outs: nouts,
        node_metas,
        spans,
    };
    Ok(r)
}

proof fn lemma_tnviews_append(a: Seq<Node>, c: Seq<Node>)
    ensures
        tnviews(a + c) == tnviews(a) + tnviews(c),
        tnviews(c).len() == c.len(),
        forall|i: int| 0 <= i < c.len() ==> #[trigger] tnviews(c)[i] == tnview(c[i]),
    decreases c.len(),
{
    if c.len() > 0 {
        lemma_tnviews_append(a, c.drop_last());
        assert((a + c).drop_last() =~= a + c.drop_last());
        assert forall|i: int| 0 <= i < c.len() implies #[trigger] tnviews(c)[i] == tnview(c[i]) by {
            if i < c.len() - 1 {
                assert(c.drop_last()[i] == c[i]);
            }
        }
    } else {
        assert(a + c =~= a);
    }
}

proof fn lemma_extra_edges_some(xs: Seq<(TNView, Seq<VInfo>, Seq<(usize, usize)>)>, n: nat, k: nat)
    ensures
        forall|i: int| 0 <= i < extra_edges(xs, n, k).len() ==> #[trigger] extra_edges(xs, n, k)[i] is Some,
    decreases k,
{
    if k > 0 && k <= xs.len() {
        lemma_extra_edges_some(xs, n, (k - 1) as nat);
        let p = extra_edges(xs, n, (k - 1) as nat);
        assert forall|i: int| 0 <= i < extra_edges(xs, n, k).len() implies #[trigger] extra_edges(xs, n, k)[i] is Some by {
            if i < p.len() {
                assert(extra_edges(xs, n, k)[i] == p[i]);
            }
        }
    }
}

proof fn lemma_extra_edges_len(xs: Seq<(TNView, Seq<VInfo>, Seq<(usize, usize)>)>, n: nat, j: nat, k: nat)
    requires
        j <= k <= xs.len(),
    ensures
        extra_edges(xs, n, j).len() <= extra_edges(xs, n, k).len(),
    decreases k,
{
    if j < k {
        lemma_extra_edges_len(xs, n, j, (k - 1) as nat);
    }
}

/// Builds the typed IR of a program: its main function is analysed with no
/// arguments, and each function it calls is analysed for the types it is
/// called with, once per distinct set of them. Constants are read from
/// `constants` and primitives typed by their kinds in `prims`, both by the
/// positions the HIR holds them by; shape variables are numbered from
/// `*nvars`.
pub fn construct_tir(hir: &Hir, constants: &Vec<UValue>, prims: &Vec<PrimKind>, nvars: &mut usize) -> (r: Result<Tir, ErrorKind>)
    requires
        !(tir_of(hir_view(*hir), constants@, prims@, *old(nvars) as nat) is Stuck),
    ensures
        tir_of(hir_view(*hir), constants@, prims@, *old(nvars) as nat) matches TRes::Done((t, m)) ==> (r matches Ok(x)
            && tir_view(x) == t && *final(nvars) == m && x.structs.len() == 0 && x.enums.len() == 0
            && strings_view(x.spans@) == strings_view(hir.spans@) && files_view(x.files@) == files_view(hir.files@)),
        tir_of(hir_view(*hir), constants@, prims@, *old(nvars) as nat) matches TRes::Fails(e) ==> (r matches Err(z)
            && err_is(z, e)),
{
    let mut spans: Vec<String> = Vec::new();
    let mut j: usize = 0;
    while j < hir.spans.len()
        invariant
            j <= hir.spans.len(),
            strings_view(spans@) == strings_view(hir.spans@).take(j as int),
        decreases hir.spans.len() - j,
    {
        let ghost before = spans@;
        let x = copy_string(&hir.spans[j]);
        spans.push(x);
        assert(strings_view(spans@) =~= strings_view(before).push(x@));
        assert(strings_view(hir.spans@).take(j + 1) =~= strings_view(hir.spans@).take(j as int).push(hir.spans@[j as int]@));
        j = j + 1;
    }
    assert(strings_view(hir.spans@).take(j as int) =~= strings_view(hir.spans@));
    let mut bindings: Vec<Binding> = Vec::new();
    assert(tbviews(bindings@) =~= Seq::<(usize, usize, u64, TFView)>::empty());
    match &hir.main {
        None => Ok(Tir { structs: Vec::new(), enums: Vec::new(), bindings, main: None, spans, files: copy_files(&hir.files) }),
        Some((f, span)) => {
            let main = match monomorphize_and_analyze(hir, constants, prims, f, Vec::new(), &mut bindings, nvars, CALL_DEPTH) {
                Ok(m) => m,
                Err(e) => return Err(e),
            };
            let files = copy_files(&hir.files);
            Ok(Tir { structs: Vec::new(), enums: Vec::new(), bindings, main: Some((main, *span)), spans, files })
        },
    }
}

} // verus!
