//! Simulation of data flow through a program: a stack machine that turns
//! the nodes of an assembly into a HIR data-flow graph.
use vstd::prelude::*;

use crate::generic_ir::{graph_add_edge, graph_add_node, graph_edges, graph_new, graph_nodes, Function, Graph};
use crate::hir::{
    binding_view, bindings_view, copy_files, files_view, fview, fviews, nview, nviews, strings_view, Binding, FView, Hir, HirFunction, ImplPrim,
    NView, Node, Prim,
};
use crate::tir::copy_string;
use std::collections::HashMap;

verus! {

/// How many values a function takes from the stack and leaves on it.
#[derive(Clone, Copy, Debug, PartialEq, Eq)]
pub struct Signature {
    pub args: usize,
    pub outputs: usize,
}

/// A function given as a node, with its signature.
pub struct SigNode {
    pub sig: Signature,
    pub node: UiuaNode,
}

/// A node of an assembly, with its signature or the text of the error that
/// computing it gave.
pub struct UiuaNode {
    pub sig: Result<Signature, String>,
    pub kind: NodeKind,
}

/// The kinds of assembly nodes. Spans, constants and called functions are
/// held by their positions in the assembly's lists.
pub enum NodeKind {
    /// The normal branch of a node with a custom inverse, or the text of the
    /// error that it has none.
    CustomInverse(Result<Box<SigNode>, String>),
    PushUnder(usize),
    CopyToUnder(usize),
    PopUnder(usize),
    Prim(Prim, usize),
    ImplPrim(ImplPrim, usize),
    Mod(Prim, Vec<SigNode>, usize),
    ImplMod(ImplPrim, Vec<SigNode>, usize),
    Run(Vec<UiuaNode>),
    Push(usize),
    TrackCaller(Box<SigNode>),
    Label,
    RemoveLabel,
    Call(usize, usize),
    /// Any other kind, which the simulation does not support.
    Other,
}

/// Why data flow could not be simulated.
#[derive(Debug)]
pub enum Error {
    Other(String),
}

/// The state of the simulation of one function, viewed mathematically: the
/// graph's node and edge slots, the node payloads, the input and output
/// nodes, the stack and the under stack of (node, output index) pairs, the
/// number of arguments taken so far, and the spans of nodes.
pub struct WState {
    pub slots: Seq<Option<usize>>,
    pub edges: Seq<Option<(usize, usize, (usize, usize))>>,
    pub nodes: Seq<NView>,
    pub input: usize,
    pub output: usize,
    pub stack: Seq<(usize, usize)>,
    pub under: Seq<(usize, usize)>,
    pub args: usize,
    pub spans: Map<usize, usize>,
}

/// How a step of the simulation ends: it does not complete (a case not
/// supported, a stack too short, or a limit of the graph), it fails with an
/// error text, or it gives a result.
pub enum Res<T> {
    Stuck,
    Fails(Seq<char>),
    Done(T),
}

pub open spec fn set_stack(st: WState, s: Seq<(usize, usize)>) -> WState {
    WState { stack: s, ..st }
}

pub open spec fn set_stacks(st: WState, s: Seq<(usize, usize)>, u: Seq<(usize, usize)>) -> WState {
    WState { stack: s, under: u, ..st }
}

/// The state with arguments of the function put under the stack until it
/// holds at least `m` values; each new argument is the input's next output.
pub open spec fn extend(st: WState, m: usize) -> Option<WState> {
    let k: nat = if m > st.stack.len() { (m - st.stack.len()) as nat } else { 0 };
    if st.args + k > usize::MAX {
        None
    } else {
        Some(
            WState {
                stack: Seq::new(k, |i: int| (st.input, (st.args + k - 1 - i) as usize)) + st.stack,
                args: (st.args + k) as usize,
                ..st
            },
        )
    }
}

/// The state after the step `r` with `extra` pushed on its stack.
pub open spec fn after(r: Res<WState>, extra: Seq<(usize, usize)>) -> Res<WState> {
    match r {
        Res::Done(st) => Res::Done(set_stack(st, st.stack + extra)),
        other => other,
    }
}

/// A new node `n` at the span `span` that takes the top `sig.args` values of
/// the stack, the top one as its last input, and pushes its `sig.outputs`
/// outputs, the first one on top.
pub open spec fn gen_node(st: WState, n: NView, span: usize, sig: Signature) -> Res<WState> {
    let k = st.nodes.len();
    let s = st.stack;
    let a = sig.args as int;
    if k >= u32::MAX || a > s.len() || st.edges.len() + a > u32::MAX {
        Res::Stuck
    } else {
        let drained = s.subrange(s.len() - a, s.len() as int);
        Res::Done(
            WState {
                slots: st.slots.push(Some(k as usize)),
                nodes: st.nodes.push(n),
                spans: st.spans.insert(k as usize, span),
                edges: st.edges + Seq::new(
                    a as nat,
                    |i: int| Some((k as usize, drained[a - 1 - i].0, (drained[a - 1 - i].1, i as usize))),
                ),
                stack: s.subrange(0, s.len() - a) + Seq::new(
                    sig.outputs as nat,
                    |j: int| (k as usize, (sig.outputs - 1 - j) as usize),
                ),
                ..st
            },
        )
    }
}

/// The state with a constant node pushed.
pub open spec fn push_node(st: WState, c: usize) -> Res<WState> {
    let k = st.nodes.len();
    if k >= u32::MAX {
        Res::Stuck
    } else {
        Res::Done(
            WState {
                slots: st.slots.push(Some(k as usize)),
                nodes: st.nodes.push(NView::Constant(c)),
                stack: st.stack.push((k as usize, 0usize)),
                ..st
            },
        )
    }
}

/// The state of a new function: an input node and an output node.
pub open spec fn empty_state() -> WState {
    WState {
        slots: seq![Some(0usize), Some(1usize)],
        edges: seq![],
        nodes: seq![NView::Input, NView::Output],
        input: 0,
        output: 1,
        stack: seq![],
        under: seq![],
        args: 0,
        spans: Map::empty(),
    }
}

/// The function a finished simulation gives: the values left on the stack
/// become the outputs, the top one last.
pub open spec fn finish(st: WState) -> Res<FView> {
    let s = st.stack;
    let n = s.len() as int;
    if st.edges.len() + n > u32::MAX {
        Res::Stuck
    } else {
        Res::Done(
            FView {
                slots: st.slots,
                edges: st.edges + Seq::new(
                    n as nat,
                    |i: int| Some((st.output, s[n - 1 - i].0, (s[n - 1 - i].1, i as usize))),
                ),
                nodes: st.nodes,
                input: st.input,
                output: st.output,
                args: st.args,
                outs: n as usize,
                metas: Map::new(|i: usize| i < st.nodes.len(), |i: usize| ()),
                spans: st.spans,
            },
        )
    }
}

/// One node of the simulation.
pub open spec fn step(node: UiuaNode, st0: WState) -> Res<WState>
    decreases node, 1nat, 0nat,
{
    match node.sig {
        Err(m) => Res::Fails(m@),
        Ok(sig) => match extend(st0, sig.args) {
            None => Res::Stuck,
            Some(st) => {
                let s = st.stack;
                let n = s.len() as int;
                match node.kind {
                    NodeKind::CustomInverse(normal) => match normal {
                        Err(m) => Res::Fails(m@),
                        Ok(sn) => step(sn.node, st),
                    },
                    NodeKind::PushUnder(k) => if k <= n {
                        Res::Done(set_stacks(st, s.subrange(0, n - k), st.under + s.subrange(n - k, n).reverse()))
                    } else {
                        Res::Stuck
                    },
                    NodeKind::CopyToUnder(k) => if k <= n {
                        Res::Done(set_stacks(st, s, st.under + s.subrange(n - k, n).reverse()))
                    } else {
                        Res::Stuck
                    },
                    NodeKind::PopUnder(k) => {
                        let u = st.under;
                        if k <= u.len() {
                            Res::Done(set_stacks(st, s + u.subrange(u.len() - k, u.len() as int), u.subrange(0, u.len() - k)))
                        } else {
                            Res::Stuck
                        }
                    },
                    NodeKind::Prim(Prim::Identity, _) => Res::Done(st),
                    NodeKind::Prim(Prim::Pop, _) => if n >= 1 {
                        Res::Done(set_stack(st, s.drop_last()))
                    } else {
                        Res::Stuck
                    },
                    NodeKind::Prim(Prim::Dup, _) => if n >= 1 {
                        Res::Done(set_stack(st, s.push(s.last())))
                    } else {
                        Res::Stuck
                    },
                    NodeKind::Prim(Prim::Flip, _) => if n >= 2 {
                        Res::Done(set_stack(st, s.subrange(0, n - 2).push(s[n - 1]).push(s[n - 2])))
                    } else {
                        Res::Stuck
                    },
                    NodeKind::Mod(Prim::On, funcs, _) => if funcs.len() >= 1 && n >= 1 {
                        after(step(funcs@[0].node, st), seq![s.last()])
                    } else {
                        Res::Stuck
                    },
                    NodeKind::ImplMod(ImplPrim::OnSub(k), funcs, _) => if funcs.len() >= 1 && k <= n {
                        after(step(funcs@[0].node, st), s.subrange(n - k, n))
                    } else {
                        Res::Stuck
                    },
                    NodeKind::Mod(Prim::By, funcs, _) => if funcs.len() >= 1 && funcs@[0].sig.args + 1 <= n {
                        let a = funcs@[0].sig.args as int;
                        step(funcs@[0].node, set_stack(st, s.insert(n - a, s[n - a - 1])))
                    } else {
                        Res::Stuck
                    },
                    NodeKind::ImplMod(ImplPrim::BySub(k), funcs, _) => if funcs.len() >= 1 && funcs@[0].sig.args <= n
                        && n - funcs@[0].sig.args + k <= n {
                        let start = n - funcs@[0].sig.args;
                        step(funcs@[0].node, set_stack(st, s.subrange(0, start) + s.subrange(start, start + k) + s.subrange(start, n)))
                    } else {
                        Res::Stuck
                    },
                    NodeKind::Mod(Prim::Off, funcs, _) => if funcs.len() >= 1 && n >= 1 && funcs@[0].sig.args <= n {
                        let a = funcs@[0].sig.args as int;
                        step(funcs@[0].node, set_stack(st, s.insert(n - a, s.last())))
                    } else {
                        Res::Stuck
                    },
                    NodeKind::ImplMod(ImplPrim::OffSub(k), funcs, _) => if funcs.len() >= 1 && funcs@[0].sig.args <= n && k <= n {
                        let start = n - funcs@[0].sig.args;
                        step(funcs@[0].node, set_stack(st, s.subrange(0, start) + s.subrange(n - k, n) + s.subrange(start, n)))
                    } else {
                        Res::Stuck
                    },
                    NodeKind::Mod(Prim::With, funcs, _) => if funcs.len() >= 1 && funcs@[0].sig.args + 1 <= n {
                        let a = funcs@[0].sig.args as int;
                        after(step(funcs@[0].node, st), seq![s[n - a - 1]])
                    } else {
                        Res::Stuck
                    },
                    NodeKind::ImplMod(ImplPrim::WithSub(k), funcs, _) => if funcs.len() >= 1 && funcs@[0].sig.args <= n
                        && n - funcs@[0].sig.args + k <= n {
                        let start = n - funcs@[0].sig.args;
                        after(step(funcs@[0].node, st), s.subrange(start, start + k))
                    } else {
                        Res::Stuck
                    },
                    NodeKind::Mod(Prim::Dip, funcs, _) => if funcs.len() >= 1 && n >= 1 {
                        after(step(funcs@[0].node, set_stack(st, s.drop_last())), seq![s.last()])
                    } else {
                        Res::Stuck
                    },
                    NodeKind::ImplMod(ImplPrim::DipN(k), funcs, _) => if funcs.len() >= 1 && k <= n {
                        after(step(funcs@[0].node, set_stack(st, s.subrange(0, n - k))), s.subrange(n - k, n))
                    } else {
                        Res::Stuck
                    },
                    NodeKind::Mod(Prim::Fork, funcs, _) => if sig.args <= n {
                        fork_from(node, funcs.len() as nat, s.subrange(n - sig.args, n), set_stack(st, s.subrange(0, n - sig.args)))
                    } else {
                        Res::Stuck
                    },
                    NodeKind::Mod(Prim::Bracket, funcs, _) => if sig.args <= n {
                        bracket_from(
                            node,
                            funcs.len() as nat,
                            s.subrange(n - sig.args, n).reverse(),
                            set_stack(st, s.subrange(0, n - sig.args)),
                        )
                    } else {
                        Res::Stuck
                    },
                    NodeKind::ImplMod(ImplPrim::SidedBracket, _, _) => Res::Stuck,
                    NodeKind::Mod(Prim::Below, funcs, _) => if funcs.len() >= 1 && funcs@[0].sig.args <= n {
                        let a = funcs@[0].sig.args as int;
                        step(funcs@[0].node, set_stack(st, s + s.subrange(n - a, n)))
                    } else {
                        Res::Stuck
                    },
                    NodeKind::Mod(Prim::Both, funcs, _) => if funcs.len() >= 1 && funcs@[0].sig.args <= n {
                        let a = funcs@[0].sig.args as int;
                        match step(funcs@[0].node, set_stack(st, s.subrange(0, n - a))) {
                            Res::Done(st1) => step(funcs@[0].node, set_stack(st1, st1.stack + s.subrange(n - a, n))),
                            other => other,
                        }
                    } else {
                        Res::Stuck
                    },
                    NodeKind::ImplMod(ImplPrim::BothImpl, _, _) => Res::Stuck,
                    NodeKind::Run(_) => run_from(node, 0, st),
                    NodeKind::Push(c) => push_node(st, c),
                    NodeKind::TrackCaller(sn) => step(sn.node, st),
                    NodeKind::Label => Res::Done(st),
                    NodeKind::RemoveLabel => Res::Done(st),
                    NodeKind::Prim(p, span) => gen_node(st, NView::FuncPrim(p), span, sig),
                    NodeKind::ImplPrim(p, span) => gen_node(st, NView::FuncImplPrim(p), span, sig),
                    NodeKind::Mod(p, _, span) => match mods_from(node, 0, seq![]) {
                        Res::Done(fvs) => gen_node(st, NView::ModPrim(p, fvs), span, sig),
                        Res::Fails(m) => Res::Fails(m),
                        Res::Stuck => Res::Stuck,
                    },
                    NodeKind::ImplMod(p, _, span) => match mods_from(node, 0, seq![]) {
                        Res::Done(fvs) => gen_node(st, NView::ModImplPrim(p, fvs), span, sig),
                        Res::Fails(m) => Res::Fails(m),
                        Res::Stuck => Res::Stuck,
                    },
                    NodeKind::Call(f, span) => gen_node(st, NView::Call(f), span, sig),
                    NodeKind::Other => Res::Stuck,
                }
            },
        },
    }
}

/// The functions of a modifier node, from the `k`-th down to the first, each
/// given the top values of `reused` that it takes.
pub open spec fn fork_from(parent: UiuaNode, k: nat, reused: Seq<(usize, usize)>, st: WState) -> Res<WState>
    decreases parent, 0nat, k,
{
    match parent.kind {
        NodeKind::Mod(_, funcs, _) => if k == 0 || k > funcs.len() {
            Res::Done(st)
        } else {
            let f = funcs@[k - 1];
            let a = f.sig.args as int;
            if a <= reused.len() {
                match step(f.node, set_stack(st, st.stack + reused.subrange(reused.len() - a, reused.len() as int))) {
                    Res::Done(st1) => fork_from(parent, (k - 1) as nat, reused, st1),
                    other => other,
                }
            } else {
                Res::Stuck
            }
        },
        _ => Res::Done(st),
    }
}

/// The functions of a modifier node, from the `k`-th down to the first, each
/// given its own values taken from the top of `args`.
pub open spec fn bracket_from(parent: UiuaNode, k: nat, args: Seq<(usize, usize)>, st: WState) -> Res<WState>
    decreases parent, 0nat, k,
{
    match parent.kind {
        NodeKind::Mod(_, funcs, _) => if k == 0 || k > funcs.len() {
            Res::Done(st)
        } else {
            let f = funcs@[k - 1];
            let a = f.sig.args as int;
            if a <= args.len() {
                let top = args.subrange(args.len() - a, args.len() as int);
                match step(f.node, set_stack(st, st.stack + top.reverse())) {
                    Res::Done(st1) => bracket_from(parent, (k - 1) as nat, args.subrange(0, args.len() - a), st1),
                    other => other,
                }
            } else {
                Res::Stuck
            }
        },
        _ => Res::Done(st),
    }
}

/// The nodes of a `Run`, from the `i`-th on, in order.
pub open spec fn run_from(parent: UiuaNode, i: nat, st: WState) -> Res<WState>
    decreases parent, 0nat, (match parent.kind {
        NodeKind::Run(subs) => subs.len() as int - i,
        _ => 0,
    }),
{
    match parent.kind {
        NodeKind::Run(subs) => if i >= subs.len() {
            Res::Done(st)
        } else {
            match step(subs@[i as int], st) {
                Res::Done(st1) => run_from(parent, i + 1, st1),
                other => other,
            }
        },
        _ => Res::Done(st),
    }
}

/// The functions of a modifier node, from the `i`-th on, each simulated on
/// its own, after those in `acc`.
pub open spec fn mods_from(parent: UiuaNode, i: nat, acc: Seq<FView>) -> Res<Seq<FView>>
    decreases parent, 0nat, (match parent.kind {
        NodeKind::Mod(_, funcs, _) => funcs.len() as int - i,
        NodeKind::ImplMod(_, funcs, _) => funcs.len() as int - i,
        _ => 0,
    }),
{
    let funcs = match parent.kind {
        NodeKind::Mod(_, funcs, _) => funcs@,
        NodeKind::ImplMod(_, funcs, _) => funcs@,
        _ => seq![],
    };
    if i >= funcs.len() {
        Res::Done(acc)
    } else {
        match sim(funcs[i as int].node) {
            Res::Done(fv) => mods_from(parent, i + 1, acc.push(fv)),
            Res::Fails(m) => Res::Fails(m),
            Res::Stuck => Res::Stuck,
        }
    }
}

/// The function that simulating a node on its own gives.
pub open spec fn sim(node: UiuaNode) -> Res<FView>
    decreases node, 2nat, 0nat,
{
    match step(node, empty_state()) {
        Res::Done(st) => finish(st),
        Res::Fails(m) => Res::Fails(m),
        Res::Stuck => Res::Stuck,
    }
}


/// A later state of a simulation: the input and output nodes are the same,
/// and the nodes made before are still there, unchanged.
pub open spec fn keeps(st: WState, st2: WState) -> bool {
    &&& st2.input == st.input
    &&& st2.output == st.output
    &&& st.nodes.len() <= st2.nodes.len()
    &&& forall|i: int| 0 <= i < st.nodes.len() ==> #[trigger] st2.nodes[i] == st.nodes[i]
}

proof fn lemma_keeps_trans(a: WState, b: WState, c: WState)
    requires
        keeps(a, b),
        keeps(b, c),
    ensures
        keeps(a, c),
{
    assert forall|i: int| 0 <= i < a.nodes.len() implies #[trigger] c.nodes[i] == a.nodes[i] by {
        assert(b.nodes[i] == a.nodes[i]);
    }
}

/// A sub-step from a state that keeps `st`, done in `st3`, and followed by a
/// change of the stack giving `st2`.
proof fn lemma_keeps_sub(st: WState, x: WState, st3: WState, st2: WState)
    requires
        keeps(st, x),
        keeps(x, st3),
        st2.input == st3.input,
        st2.output == st3.output,
        st2.nodes == st3.nodes,
    ensures
        keeps(st, st2),
{
    lemma_keeps_trans(st, x, st3);
}

proof fn lemma_step_keeps(node: UiuaNode, st: WState)
    ensures
        step(node, st) matches Res::Done(st2) ==> keeps(st, st2),
    decreases node, 1nat, 0nat,
{
    if let Res::Done(st2) = step(node, st) {
        let sig = node.sig->Ok_0;
        let st1 = extend(st, sig.args)->Some_0;
        assert(keeps(st, st1));
        let s = st1.stack;
        let n = s.len() as int;
        match node.kind {
            NodeKind::CustomInverse(Ok(sn)) => {
                lemma_step_keeps(sn.node, st1);
                lemma_keeps_trans(st, st1, st2);
            },
            NodeKind::TrackCaller(sn) => {
                lemma_step_keeps(sn.node, st1);
                lemma_keeps_trans(st, st1, st2);
            },
            NodeKind::Mod(Prim::On, funcs, _) => {
                lemma_step_keeps(funcs@[0].node, st1);
                lemma_keeps_sub(st, st1, step(funcs@[0].node, st1)->Done_0, st2);
            },
            NodeKind::ImplMod(ImplPrim::OnSub(_), funcs, _) => {
                lemma_step_keeps(funcs@[0].node, st1);
                lemma_keeps_sub(st, st1, step(funcs@[0].node, st1)->Done_0, st2);
            },
            NodeKind::Mod(Prim::By, funcs, _) => {
                let a = funcs@[0].sig.args as int;
                let x = set_stack(st1, s.insert(n - a, s[n - a - 1]));
                lemma_step_keeps(funcs@[0].node, x);
                lemma_keeps_sub(st, x, st2, st2);
            },
            NodeKind::ImplMod(ImplPrim::BySub(k), funcs, _) => {
                let start = n - funcs@[0].sig.args;
                let x = set_stack(st1, s.subrange(0, start) + s.subrange(start, start + k) + s.subrange(start, n));
                lemma_step_keeps(funcs@[0].node, x);
                lemma_keeps_sub(st, x, st2, st2);
            },
            NodeKind::Mod(Prim::Off, funcs, _) => {
                let a = funcs@[0].sig.args as int;
                let x = set_stack(st1, s.insert(n - a, s.last()));
                lemma_step_keeps(funcs@[0].node, x);
                lemma_keeps_sub(st, x, st2, st2);
            },
            NodeKind::ImplMod(ImplPrim::OffSub(k), funcs, _) => {
                let start = n - funcs@[0].sig.args;
                let x = set_stack(st1, s.subrange(0, start) + s.subrange(n - k, n) + s.subrange(start, n));
                lemma_step_keeps(funcs@[0].node, x);
                lemma_keeps_sub(st, x, st2, st2);
            },
            NodeKind::Mod(Prim::With, funcs, _) => {
                lemma_step_keeps(funcs@[0].node, st1);
                lemma_keeps_sub(st, st1, step(funcs@[0].node, st1)->Done_0, st2);
            },
            NodeKind::ImplMod(ImplPrim::WithSub(_), funcs, _) => {
                lemma_step_keeps(funcs@[0].node, st1);
                lemma_keeps_sub(st, st1, step(funcs@[0].node, st1)->Done_0, st2);
            },
            NodeKind::Mod(Prim::Dip, funcs, _) => {
                let x = set_stack(st1, s.drop_last());
                lemma_step_keeps(funcs@[0].node, x);
                lemma_keeps_sub(st, x, step(funcs@[0].node, x)->Done_0, st2);
            },
            NodeKind::ImplMod(ImplPrim::DipN(k), funcs, _) => {
                let x = set_stack(st1, s.subrange(0, n - k));
                lemma_step_keeps(funcs@[0].node, x);
                lemma_keeps_sub(st, x, step(funcs@[0].node, x)->Done_0, st2);
            },
            NodeKind::Mod(Prim::Fork, funcs, _) => {
                let x = set_stack(st1, s.subrange(0, n - sig.args));
                lemma_fork_keeps(node, funcs.len() as nat, s.subrange(n - sig.args, n), x);
                lemma_keeps_sub(st, x, st2, st2);
            },
            NodeKind::Mod(Prim::Bracket, funcs, _) => {
                let x = set_stack(st1, s.subrange(0, n - sig.args));
                lemma_bracket_keeps(node, funcs.len() as nat, s.subrange(n - sig.args, n).reverse(), x);
                lemma_keeps_sub(st, x, st2, st2);
            },
            NodeKind::Mod(Prim::Below, funcs, _) => {
                let a = funcs@[0].sig.args as int;
                let x = set_stack(st1, s + s.subrange(n - a, n));
                lemma_step_keeps(funcs@[0].node, x);
                lemma_keeps_sub(st, x, st2, st2);
            },
            NodeKind::Mod(Prim::Both, funcs, _) => {
                let a = funcs@[0].sig.args as int;
                let x = set_stack(st1, s.subrange(0, n - a));
                lemma_step_keeps(funcs@[0].node, x);
                let sa = step(funcs@[0].node, x)->Done_0;
                let y = set_stack(sa, sa.stack + s.subrange(n - a, n));
                lemma_keeps_sub(st, x, sa, y);
                lemma_step_keeps(funcs@[0].node, y);
                lemma_keeps_trans(st, y, st2);
            },
            NodeKind::Run(_) => {
                lemma_run_keeps(node, 0, st1);
                lemma_keeps_trans(st, st1, st2);
            },
            NodeKind::Push(_) => {},
            NodeKind::Prim(_, _) => {},
            NodeKind::ImplPrim(_, _) => {},
            NodeKind::Call(_, _) => {},
            NodeKind::Mod(_, _, _) => {},
            NodeKind::ImplMod(_, _, _) => {},
            _ => {},
        }
    }
}

proof fn lemma_fork_keeps(parent: UiuaNode, k: nat, reused: Seq<(usize, usize)>, st: WState)
    ensures
        fork_from(parent, k, reused, st) matches Res::Done(st2) ==> keeps(st, st2),
    decreases parent, 0nat, k,
{
    if let Res::Done(st2) = fork_from(parent, k, reused, st) {
        match parent.kind {
            NodeKind::Mod(_, funcs, _) => if k > 0 && k <= funcs.len() {
                let f = funcs@[k - 1];
                let a = f.sig.args as int;
                let x = set_stack(st, st.stack + reused.subrange(reused.len() - a, reused.len() as int));
                lemma_step_keeps(f.node, x);
                let st1 = step(f.node, x)->Done_0;
                lemma_fork_keeps(parent, (k - 1) as nat, reused, st1);
                lemma_keeps_sub(st, x, st1, st1);
                lemma_keeps_trans(st, st1, st2);
            },
            _ => {},
        }
    }
}

proof fn lemma_bracket_keeps(parent: UiuaNode, k: nat, args: Seq<(usize, usize)>, st: WState)
    ensures
        bracket_from(parent, k, args, st) matches Res::Done(st2) ==> keeps(st, st2),
    decreases parent, 0nat, k,
{
    if let Res::Done(st2) = bracket_from(parent, k, args, st) {
        match parent.kind {
            NodeKind::Mod(_, funcs, _) => if k > 0 && k <= funcs.len() {
                let f = funcs@[k - 1];
                let a = f.sig.args as int;
                let top = args.subrange(args.len() - a, args.len() as int);
                let x = set_stack(st, st.stack + top.reverse());
                lemma_step_keeps(f.node, x);
                let st1 = step(f.node, x)->Done_0;
                lemma_bracket_keeps(parent, (k - 1) as nat, args.subrange(0, args.len() - a), st1);
                lemma_keeps_sub(st, x, st1, st1);
                lemma_keeps_trans(st, st1, st2);
            },
            _ => {},
        }
    }
}

proof fn lemma_run_keeps(parent: UiuaNode, i: nat, st: WState)
    ensures
        run_from(parent, i, st) matches Res::Done(st2) ==> keeps(st, st2),
    decreases parent, 0nat, (match parent.kind {
        NodeKind::Run(subs) => subs.len() as int - i,
        _ => 0,
    }),
{
    if let Res::Done(st2) = run_from(parent, i, st) {
        match parent.kind {
            NodeKind::Run(subs) => if i < subs.len() {
                lemma_step_keeps(subs@[i as int], st);
                let st1 = step(subs@[i as int], st)->Done_0;
                lemma_run_keeps(parent, i + 1, st1);
                lemma_keeps_trans(st, st1, st2);
            },
            _ => {},
        }
    }
}

/// Every function that simulating a node on its own gives begins with its
/// input node, at index 0, and its output node, at index 1: the simulation
/// only ever adds nodes after them.
pub proof fn lemma_sim_input_output(node: UiuaNode)
    ensures
        sim(node) matches Res::Done(fv) ==> fv.input == 0 && fv.output == 1 && fv.nodes.len() >= 2
            && fv.nodes[0] == NView::Input && fv.nodes[1] == NView::Output,
{
    lemma_step_keeps(node, empty_state());
    assert(empty_state().nodes[0] == NView::Input);
    assert(empty_state().nodes[1] == NView::Output);
}

broadcast use vstd::std_specs::hash::group_hash_axioms;

/// A function under construction: its graph with the payload of each node,
/// the stack and the under stack of (node, output index) pairs, the number
/// of arguments taken so far, and the spans of nodes.
pub struct WorkingFuncGraph {
    graph: Graph,
    nodes: Vec<Node>,
    input_idx: usize,
    output_idx: usize,
    stack: Vec<(usize, usize)>,
    under_stack: Vec<(usize, usize)>,
    arg_count: usize,
    spans: HashMap<usize, usize>,
}

pub closed spec fn wview(w: WorkingFuncGraph) -> WState {
    WState {
        slots: graph_nodes(w.graph),
        edges: graph_edges(w.graph),
        nodes: nviews(w.nodes@),
        input: w.input_idx,
        output: w.output_idx,
        stack: w.stack@,
        under: w.under_stack@,
        args: w.arg_count,
        spans: w.spans@,
    }
}

/// Every node slot is taken, by its own position; every edge slot is taken;
/// and every node that the stacks and the input and output name exists.
pub open spec fn wf(st: WState) -> bool {
    &&& st.slots == Seq::new(st.nodes.len(), |i: int| Some(i as usize))
    &&& forall|i: int| 0 <= i < st.edges.len() ==> #[trigger] st.edges[i] is Some
    &&& st.input < st.nodes.len()
    &&& st.output < st.nodes.len()
    &&& valid_refs(st.stack, st.nodes.len())
    &&& valid_refs(st.under, st.nodes.len())
    &&& st.nodes.len() <= u32::MAX
}

/// Whether every (node, output) pair names a node below `n`.
pub open spec fn valid_refs(s: Seq<(usize, usize)>, n: nat) -> bool {
    forall|i: int| 0 <= i < s.len() ==> #[trigger] s[i].0 < n
}

proof fn lemma_refs(s: Seq<(usize, usize)>, t: Seq<(usize, usize)>, n: nat, m: nat)
    requires
        valid_refs(s, n),
        valid_refs(t, n),
        n <= m,
    ensures
        valid_refs(s + t, m),
        valid_refs(s.reverse(), m),
        forall|a: int, b: int| 0 <= a <= b <= s.len() ==> valid_refs(#[trigger] s.subrange(a, b), m),
        forall|x: (usize, usize)| x.0 < m ==> valid_refs(#[trigger] s.push(x), m),
        forall|i: int, x: (usize, usize)| 0 <= i <= s.len() && x.0 < m ==> valid_refs(#[trigger] s.insert(i, x), m),
{
    assert forall|i: int| 0 <= i < (s + t).len() implies #[trigger] (s + t)[i].0 < m by {
        if i < s.len() {
            assert((s + t)[i] == s[i]);
        } else {
            assert((s + t)[i] == t[i - s.len()]);
        }
    }
    assert forall|i: int| 0 <= i < s.reverse().len() implies #[trigger] s.reverse()[i].0 < m by {
        assert(s.reverse()[i] == s[s.len() - 1 - i]);
    }
    assert forall|a: int, b: int| 0 <= a <= b <= s.len() implies valid_refs(#[trigger] s.subrange(a, b), m) by {
        assert forall|i: int| 0 <= i < s.subrange(a, b).len() implies #[trigger] s.subrange(a, b)[i].0 < m by {
            assert(s.subrange(a, b)[i] == s[a + i]);
        }
    }
    assert forall|x: (usize, usize)| x.0 < m implies valid_refs(#[trigger] s.push(x), m) by {
        assert forall|i: int| 0 <= i < s.push(x).len() implies #[trigger] s.push(x)[i].0 < m by {
            if i < s.len() {
                assert(s.push(x)[i] == s[i]);
            }
        }
    }
    assert forall|i: int, x: (usize, usize)| 0 <= i <= s.len() && x.0 < m implies valid_refs(#[trigger] s.insert(i, x), m) by {
        assert forall|j: int| 0 <= j < s.insert(i, x).len() implies #[trigger] s.insert(i, x)[j].0 < m by {
            if j < i {
                assert(s.insert(i, x)[j] == s[j]);
            } else if j > i {
                assert(s.insert(i, x)[j] == s[j - 1]);
            }
        }
    }
}

proof fn lemma_nviews_push(s: Seq<Node>, n: Node)
    ensures
        nviews(s.push(n)) == nviews(s).push(nview(n)),
        nviews(s).len() == s.len(),
{
    assert(s.push(n).drop_last() =~= s);
    lemma_nviews_len(s);
}

proof fn lemma_nviews_len(s: Seq<Node>)
    ensures
        nviews(s).len() == s.len(),
    decreases s.len(),
{
    if s.len() > 0 {
        lemma_nviews_len(s.drop_last());
    }
}

impl WorkingFuncGraph {
    /// A function with only an input node and an output node.
    fn empty() -> (r: Self)
        ensures
            wview(r) == empty_state(),
            wf(wview(r)),
    {
        let mut graph = graph_new();
        let mut nodes: Vec<Node> = Vec::new();
        let input_idx = graph_add_node(&mut graph, 0);
        nodes.push(Node::Input);
        let output_idx = graph_add_node(&mut graph, 1);
        nodes.push(Node::Output);
        let r = WorkingFuncGraph {
            graph,
            nodes,
            input_idx,
            output_idx,
            stack: Vec::new(),
            under_stack: Vec::new(),
            arg_count: 0,
            spans: HashMap::new(),
        };
        proof {
            lemma_nviews_push(seq![], Node::Input);
            lemma_nviews_push(seq![Node::Input], Node::Output);
            assert(r.nodes@ =~= seq![Node::Input].push(Node::Output));
            assert(seq![Node::Input] =~= Seq::<Node>::empty().push(Node::Input));
            assert(nviews(r.nodes@) =~= seq![NView::Input, NView::Output]);
            assert(graph_nodes(r.graph) =~= seq![Some(0usize), Some(1usize)]);
            assert(wview(r).slots =~= Seq::new(2, |i: int| Some(i as usize)));
        }
        r
    }

    /// Adds arguments to the function until the stack holds at least
    /// `min_args` values.
    fn extend_args(&mut self, min_args: usize)
        requires
            wf(wview(*old(self))),
            extend(wview(*old(self)), min_args) is Some,
        ensures
            wview(*final(self)) == extend(wview(*old(self)), min_args)->Some_0,
            wf(wview(*final(self))),
    {
        let ghost st = wview(*self);
        if min_args > self.stack.len() {
            let k = min_args - self.stack.len();
            let ghost a0 = self.arg_count;
            let mut j: usize = 0;
            while j < k
                invariant
                    j <= k,
                    k == min_args - st.stack.len(),
                    a0 == st.args,
                    st.args + k <= usize::MAX,
                    self.arg_count == a0 + j,
                    self.stack@ == Seq::new(j as nat, |i: int| (st.input, (a0 + j - 1 - i) as usize)) + st.stack,
                    self.input_idx == st.input,
                    wview(*self) == (WState { stack: self.stack@, args: self.arg_count, ..st }),
                decreases k - j,
            {
                let ghost before = self.stack@;
                self.stack.insert(0, (self.input_idx, self.arg_count));
                self.arg_count = self.arg_count + 1;
                j = j + 1;
                assert(self.stack@ =~= Seq::new(j as nat, |i: int| (st.input, (a0 + j - 1 - i) as usize)) + st.stack);
            }
        } else {
            assert(Seq::new(0, |i: int| (st.input, (st.args + 0 - 1 - i) as usize)) + st.stack =~= st.stack);
        }
    }

    /// Pops and returns the top stack value.
    fn stack_pop(&mut self) -> (r: (usize, usize))
        requires
            old(self).stack.len() >= 1,
        ensures
            r == old(self).stack@.last(),
            wview(*final(self)) == set_stack(wview(*old(self)), old(self).stack@.drop_last()),
    {
        let r = self.stack.pop();
        match r {
            Some(v) => v,
            None => (0, 0),
        }
    }

    /// The top stack value.
    fn stack_top(&self) -> (r: (usize, usize))
        requires
            self.stack.len() >= 1,
        ensures
            r == self.stack@.last(),
    {
        self.stack[self.stack.len() - 1]
    }

    /// The `n`-th stack value from the top, where 0 is the top value.
    fn stack_n(&self, n: usize) -> (r: (usize, usize))
        requires
            n < self.stack.len(),
        ensures
            r == self.stack@[self.stack.len() - n - 1],
    {
        self.stack[self.stack.len() - n - 1]
    }
}


impl WorkingFuncGraph {
    /// Adds a node with payload `n`, returning its index.
    fn add_node(&mut self, n: Node) -> (k: usize)
        requires
            wf(wview(*old(self))),
            old(self).nodes.len() < u32::MAX,
        ensures
            k == old(self).nodes.len(),
            final(self).nodes@ == old(self).nodes@.push(n),
            wview(*final(self)) == (WState {
                slots: wview(*old(self)).slots.push(Some(k)),
                nodes: wview(*old(self)).nodes.push(nview(n)),
                ..wview(*old(self))
            }),
            wf(wview(*final(self))),
    {
        proof {
            lemma_nviews_push(self.nodes@, n);
        }
        let ghost st = wview(*self);
        let k = self.nodes.len();
        let r = graph_add_node(&mut self.graph, k);
        assert(forall|i: int| 0 <= i < st.slots.len() ==> #[trigger] st.slots[i] is Some);
        self.nodes.push(n);
        assert(wview(*self).slots =~= Seq::new(wview(*self).nodes.len(), |i: int| Some(i as usize)));
        r
    }

    /// Adds an edge from node `a` to node `b`.
    fn add_edge(&mut self, a: usize, b: usize, w: (usize, usize))
        requires
            wf(wview(*old(self))),
            a < old(self).nodes.len(),
            b < old(self).nodes.len(),
            graph_edges(old(self).graph).len() < u32::MAX,
        ensures
            final(self).nodes@ == old(self).nodes@,
            wview(*final(self)) == (WState { edges: wview(*old(self)).edges.push(Some((a, b, w))), ..wview(*old(self)) }),
            wf(wview(*final(self))),
    {
        proof {
            lemma_nviews_len(self.nodes@);
        }
        let ghost st = wview(*self);
        assert(st.slots[a as int] is Some);
        assert(st.slots[b as int] is Some);
        graph_add_edge(&mut self.graph, a, b, w);
    }
}

/// The top `n` values of a slice.
pub fn top_n<T: Copy>(slice: &[T], n: usize) -> (r: Vec<T>)
    requires
        n <= slice@.len(),
    ensures
        r@ == slice@.subrange(slice@.len() - n, slice@.len() as int),
{
    let start = slice.len() - n;
    let mut r: Vec<T> = Vec::new();
    let mut i: usize = start;
    while i < slice.len()
        invariant
            start <= i <= slice@.len(),
            start == slice@.len() - n,
            r@ == slice@.subrange(start as int, i as int),
        decreases slice.len() - i,
    {
        r.push(slice[i]);
        i = i + 1;
        assert(r@ =~= slice@.subrange(start as int, i as int));
    }
    r
}

/// Removes the top `n` values of a stack and returns them, in order.
pub fn drain_top_n<T>(stack: &mut Vec<T>, n: usize) -> (r: Vec<T>)
    requires
        n <= old(stack)@.len(),
    ensures
        r@ == old(stack)@.subrange(old(stack)@.len() - n, old(stack)@.len() as int),
        final(stack)@ == old(stack)@.subrange(0, old(stack)@.len() - n),
{
    let at = stack.len() - n;
    stack.split_off(at)
}

/// Appends the values of `src` in reverse order.
fn extend_reversed(dst: &mut Vec<(usize, usize)>, src: &Vec<(usize, usize)>)
    ensures
        final(dst)@ == old(dst)@ + src@.reverse(),
{
    let ghost d0 = dst@;
    let mut i: usize = src.len();
    while i > 0
        invariant
            i <= src.len(),
            dst@ == d0 + src@.subrange(i as int, src@.len() as int).reverse(),
        decreases i,
    {
        i = i - 1;
        dst.push(src[i]);
        assert(dst@ =~= d0 + src@.subrange(i as int, src@.len() as int).reverse());
    }
    assert(src@.subrange(0, src@.len() as int) =~= src@);
}

/// Appends the values of `src` in order.
fn extend_from(dst: &mut Vec<(usize, usize)>, src: &Vec<(usize, usize)>)
    ensures
        final(dst)@ == old(dst)@ + src@,
{
    let ghost d0 = dst@;
    let mut i: usize = 0;
    while i < src.len()
        invariant
            i <= src.len(),
            dst@ == d0 + src@.take(i as int),
        decreases src.len() - i,
    {
        dst.push(src[i]);
        i = i + 1;
        assert(dst@ =~= d0 + src@.take(i as int));
    }
    assert(src@.take(i as int) =~= src@);
}

/// Adds a node `n` at the span `span` that takes the top `sig.args` values of
/// the stack and pushes its outputs.
fn add_generic(wg: &mut WorkingFuncGraph, n: Node, span: usize, sig: Signature)
    requires
        wf(wview(*old(wg))),
        !(gen_node(wview(*old(wg)), nview(n), span, sig) is Stuck),
    ensures
        wview(*final(wg)) == gen_node(wview(*old(wg)), nview(n), span, sig)->Done_0,
        wf(wview(*final(wg))),
{
    let ghost st = wview(*wg);
    proof {
        lemma_nviews_len(wg.nodes@);
    }
    let k = wg.add_node(n);
    wg.spans.insert(k, span);
    let a = sig.args;
    let drained = drain_top_n(&mut wg.stack, a);
    let ghost st1 = wview(*wg);
    assert(forall|i: int| 0 <= i < drained@.len() ==> #[trigger] drained@[i] == st.stack[st.stack.len() - a + i]);
    let mut in_i: usize = 0;
    while in_i < a
        invariant
            in_i <= a,
            a == sig.args,
            drained@ == st.stack.subrange(st.stack.len() - a, st.stack.len() as int),
            k == st.nodes.len(),
            a <= st.stack.len(),
            st.edges.len() + a <= u32::MAX,
            wf(st),
            wf(wview(*wg)),
            wview(*wg) == (WState {
                edges: st.edges + Seq::new(
                    in_i as nat,
                    |i: int| Some((k, drained@[a - 1 - i].0, (drained@[a - 1 - i].1, i as usize))),
                ),
                ..st1
            }),
            st1.nodes.len() == st.nodes.len() + 1,
            wg.nodes.len() == k + 1,
        decreases a - in_i,
    {
        let (arg, out_i) = drained[a - 1 - in_i];
        assert(st.stack[st.stack.len() - a + (a - 1 - in_i)].0 < st.nodes.len());
        wg.add_edge(k, arg, (out_i, in_i));
        in_i = in_i + 1;
        assert(wview(*wg).edges =~= st.edges + Seq::new(
            in_i as nat,
            |i: int| Some((k, drained@[a - 1 - i].0, (drained@[a - 1 - i].1, i as usize))),
        ));
    }
    let ghost st2 = wview(*wg);
    let mut j: usize = 0;
    while j < sig.outputs
        invariant
            j <= sig.outputs,
            k == st.nodes.len(),
            wf(wview(*wg)),
            wview(*wg).nodes.len() == st.nodes.len() + 1,
            wview(*wg) == (WState {
                stack: st2.stack + Seq::new(j as nat, |x: int| (k, (sig.outputs - 1 - x) as usize)),
                ..st2
            }),
        decreases sig.outputs - j,
    {
        let ghost before = wview(*wg);
        wg.stack.push((k, sig.outputs - 1 - j));
        proof {
            lemma_refs(before.stack, before.stack, before.nodes.len(), before.nodes.len());
        }
        assert(wview(*wg).slots == before.slots);
        assert(wview(*wg).nodes == before.nodes);
        assert(wview(*wg).edges == before.edges);
        assert(wview(*wg).under == before.under);
        j = j + 1;
        assert(wview(*wg).stack =~= st2.stack + Seq::new(j as nat, |x: int| (k, (sig.outputs - 1 - x) as usize)));
    }
}


/// A copy of the values of `v` from `lo` up to `hi`.
fn copy_range(v: &Vec<(usize, usize)>, lo: usize, hi: usize) -> (r: Vec<(usize, usize)>)
    requires
        lo <= hi <= v@.len(),
    ensures
        r@ == v@.subrange(lo as int, hi as int),
{
    let mut r: Vec<(usize, usize)> = Vec::new();
    let mut i: usize = lo;
    while i < hi
        invariant
            lo <= i <= hi,
            hi <= v@.len(),
            r@ == v@.subrange(lo as int, i as int),
        decreases hi - i,
    {
        r.push(v[i]);
        i = i + 1;
        assert(r@ =~= v@.subrange(lo as int, i as int));
    }
    r
}

/// A copy of an error text.
fn error_text(m: &String) -> (r: Error)
    ensures
        r matches Error::Other(t) && t@ == m@,
{
    Error::Other(m.clone())
}

/// Simulates one node of an assembly on the function under construction:
/// stack primitives and modifiers rearrange the stack, and any other node
/// becomes a graph node that takes its arguments from the stack and pushes
/// its outputs.
#[verifier::spinoff_prover]
#[verifier::rlimit(60)]
fn process_node(node: &UiuaNode, wg: &mut WorkingFuncGraph) -> (r: Result<(), Error>)
    requires
        wf(wview(*old(wg))),
        !(step(*node, wview(*old(wg))) is Stuck),
    ensures
        step(*node, wview(*old(wg))) matches Res::Done(st) ==> r is Ok && wview(*final(wg)) == st && wf(st)
            && st.nodes.len() >= wview(*old(wg)).nodes.len(),
        step(*node, wview(*old(wg))) matches Res::Fails(m) ==> (r matches Err(Error::Other(t)) && t@ == m),
    decreases node, 1nat, 0nat,
{
    let ghost st0 = wview(*wg);
    let sig = match &node.sig {
        Ok(sig) => *sig,
        Err(m) => return Err(error_text(m)),
    };
    wg.extend_args(sig.args);
    let ghost st = wview(*wg);
    let ghost s = st.stack;
    let ghost nn = st.nodes.len();
    proof {
        lemma_nviews_len(wg.nodes@);
        lemma_refs(s, s, nn, nn);
        lemma_refs(st.under, st.under, nn, nn);
    }
    let n = wg.stack.len();
    match &node.kind {
        NodeKind::CustomInverse(normal) => match normal {
            Err(m) => Err(error_text(m)),
            Ok(sn) => process_node(&sn.node, wg),
        },
        NodeKind::PushUnder(k) => {
            let drained = drain_top_n(&mut wg.stack, *k);
            extend_reversed(&mut wg.under_stack, &drained);
            proof {
                lemma_refs(st.under, s.subrange(n - *k, n as int).reverse(), nn, nn);
                lemma_refs(s.subrange(n - *k, n as int), s, nn, nn);
            }
            Ok(())
        },
        NodeKind::CopyToUnder(k) => {
            let top = top_n(wg.stack.as_slice(), *k);
            extend_reversed(&mut wg.under_stack, &top);
            proof {
                lemma_refs(st.under, s.subrange(n - *k, n as int).reverse(), nn, nn);
                lemma_refs(s.subrange(n - *k, n as int), s, nn, nn);
            }
            Ok(())
        },
        NodeKind::PopUnder(k) => {
            let ghost u = st.under;
            let popped = drain_top_n(&mut wg.under_stack, *k);
            extend_from(&mut wg.stack, &popped);
            proof {
                lemma_refs(s, u.subrange(u.len() - *k, u.len() as int), nn, nn);
            }
            Ok(())
        },
        NodeKind::Prim(Prim::Identity, _) => Ok(()),
        NodeKind::Prim(Prim::Pop, _) => {
            wg.stack_pop();
            Ok(())
        },
        NodeKind::Prim(Prim::Dup, _) => {
            let t = wg.stack_top();
            wg.stack.push(t);
            Ok(())
        },
        NodeKind::Prim(Prim::Flip, _) => {
            let a = wg.stack_pop();
            let b = wg.stack_pop();
            wg.stack.push(a);
            wg.stack.push(b);
            proof {
                lemma_refs(s.subrange(0, n - 2), s, nn, nn);
                assert(wg.stack@ =~= s.subrange(0, n - 2).push(s[n - 1]).push(s[n - 2]));
            }
            Ok(())
        },
        NodeKind::Mod(Prim::On, funcs, _) => {
            let preserved = wg.stack_top();
            match process_node(&funcs[0].node, wg) {
                Ok(()) => {},
                Err(e) => return Err(e),
            }
            let ghost st1 = wview(*wg);
            wg.stack.push(preserved);
            proof {
                lemma_refs(st1.stack, st1.stack, st1.nodes.len(), st1.nodes.len());
                assert(wg.stack@ =~= st1.stack + seq![s.last()]);
            }
            Ok(())
        },
        NodeKind::ImplMod(ImplPrim::OnSub(k), funcs, _) => {
            let preserved = top_n(wg.stack.as_slice(), *k);
            match process_node(&funcs[0].node, wg) {
                Ok(()) => {},
                Err(e) => return Err(e),
            }
            let ghost st1 = wview(*wg);
            extend_from(&mut wg.stack, &preserved);
            proof {
                lemma_refs(st1.stack, s.subrange(n - *k, n as int), st1.nodes.len(), st1.nodes.len());
                lemma_refs(s.subrange(n - *k, n as int), s, nn, st1.nodes.len());
            }
            Ok(())
        },
        NodeKind::Mod(Prim::By, funcs, _) => {
            let a = funcs[0].sig.args;
            let preserved = wg.stack_n(a);
            wg.stack.insert(n - a, preserved);
            process_node(&funcs[0].node, wg)
        },
        NodeKind::ImplMod(ImplPrim::BySub(k), funcs, _) => {
            let a = funcs[0].sig.args;
            let start = n - a;
            let preserved = copy_range(&wg.stack, start, start + *k);
            let tail = wg.stack.split_off(start);
            extend_from(&mut wg.stack, &preserved);
            extend_from(&mut wg.stack, &tail);
            proof {
                lemma_refs(s.subrange(0, start as int), s.subrange(start as int, start + *k), nn, nn);
                lemma_refs(s.subrange(0, start as int) + s.subrange(start as int, start + *k), s.subrange(start as int, n as int), nn, nn);
                lemma_refs(s.subrange(start as int, start + *k), s, nn, nn);
                lemma_refs(s.subrange(start as int, n as int), s, nn, nn);
            }
            process_node(&funcs[0].node, wg)
        },
        NodeKind::Mod(Prim::Off, funcs, _) => {
            let a = funcs[0].sig.args;
            let preserved = wg.stack_top();
            wg.stack.insert(n - a, preserved);
            process_node(&funcs[0].node, wg)
        },
        NodeKind::ImplMod(ImplPrim::OffSub(k), funcs, _) => {
            let a = funcs[0].sig.args;
            let start = n - a;
            let preserved = top_n(wg.stack.as_slice(), *k);
            let tail = wg.stack.split_off(start);
            extend_from(&mut wg.stack, &preserved);
            extend_from(&mut wg.stack, &tail);
            proof {
                lemma_refs(s.subrange(0, start as int), s.subrange(n - *k, n as int), nn, nn);
                lemma_refs(s.subrange(0, start as int) + s.subrange(n - *k, n as int), s.subrange(start as int, n as int), nn, nn);
                lemma_refs(s.subrange(n - *k, n as int), s, nn, nn);
                lemma_refs(s.subrange(start as int, n as int), s, nn, nn);
            }
            process_node(&funcs[0].node, wg)
        },
        NodeKind::Mod(Prim::With, funcs, _) => {
            let a = funcs[0].sig.args;
            let preserved = wg.stack_n(a);
            match process_node(&funcs[0].node, wg) {
                Ok(()) => {},
                Err(e) => return Err(e),
            }
            let ghost st1 = wview(*wg);
            wg.stack.push(preserved);
            proof {
                lemma_refs(st1.stack, st1.stack, st1.nodes.len(), st1.nodes.len());
                assert(wg.stack@ =~= st1.stack + seq![s[n - a - 1]]);
            }
            Ok(())
        },
        NodeKind::ImplMod(ImplPrim::WithSub(k), funcs, _) => {
            let a = funcs[0].sig.args;
            let start = n - a;
            let preserved = copy_range(&wg.stack, start, start + *k);
            match process_node(&funcs[0].node, wg) {
                Ok(()) => {},
                Err(e) => return Err(e),
            }
            let ghost st1 = wview(*wg);
            extend_from(&mut wg.stack, &preserved);
            proof {
                lemma_refs(s.subrange(start as int, start + *k), s, nn, st1.nodes.len());
                lemma_refs(st1.stack, s.subrange(start as int, start + *k), st1.nodes.len(), st1.nodes.len());
            }
            Ok(())
        },
        NodeKind::Mod(Prim::Dip, funcs, _) => {
            let skipped = wg.stack_pop();
            match process_node(&funcs[0].node, wg) {
                Ok(()) => {},
                Err(e) => return Err(e),
            }
            let ghost st1 = wview(*wg);
            wg.stack.push(skipped);
            proof {
                lemma_refs(st1.stack, st1.stack, st1.nodes.len(), st1.nodes.len());
                assert(wg.stack@ =~= st1.stack + seq![s.last()]);
            }
            Ok(())
        },
        NodeKind::ImplMod(ImplPrim::DipN(k), funcs, _) => {
            let skipped = drain_top_n(&mut wg.stack, *k);
            match process_node(&funcs[0].node, wg) {
                Ok(()) => {},
                Err(e) => return Err(e),
            }
            let ghost st1 = wview(*wg);
            extend_from(&mut wg.stack, &skipped);
            proof {
                lemma_refs(s.subrange(n - *k, n as int), s, nn, st1.nodes.len());
                lemma_refs(st1.stack, s.subrange(n - *k, n as int), st1.nodes.len(), st1.nodes.len());
            }
            Ok(())
        },
        NodeKind::Mod(Prim::Below, funcs, _) => {
            let a = funcs[0].sig.args;
            let top = top_n(wg.stack.as_slice(), a);
            extend_from(&mut wg.stack, &top);
            proof {
                lemma_refs(s, s.subrange(n - a, n as int), nn, nn);
            }
            process_node(&funcs[0].node, wg)
        },
        NodeKind::Mod(Prim::Both, funcs, _) => {
            let a = funcs[0].sig.args;
            let saved = drain_top_n(&mut wg.stack, a);
            match process_node(&funcs[0].node, wg) {
                Ok(()) => {},
                Err(e) => return Err(e),
            }
            let ghost st1 = wview(*wg);
            extend_from(&mut wg.stack, &saved);
            proof {
                lemma_refs(s.subrange(n - a, n as int), s, nn, st1.nodes.len());
                lemma_refs(st1.stack, s.subrange(n - a, n as int), st1.nodes.len(), st1.nodes.len());
            }
            process_node(&funcs[0].node, wg)
        },
        NodeKind::Push(c) => {
            let k = wg.add_node(Node::Constant(*c));
            wg.stack.push((k, 0));
            proof {
                let st1 = wview(*wg);
                lemma_refs(s, s, nn, nn + 1);
            }
            Ok(())
        },
        NodeKind::TrackCaller(sn) => process_node(&sn.node, wg),
        NodeKind::Label => Ok(()),
        NodeKind::RemoveLabel => Ok(()),
        NodeKind::Prim(p, span) => {
            add_generic(wg, Node::FuncPrim(*p), *span, sig);
            Ok(())
        },
        NodeKind::ImplPrim(p, span) => {
            add_generic(wg, Node::FuncImplPrim(*p), *span, sig);
            Ok(())
        },
        NodeKind::Call(f, span) => {
            add_generic(wg, Node::Call(*f), *span, sig);
            Ok(())
        },
        NodeKind::Mod(Prim::Fork, funcs, sp) => {
            let reused = drain_top_n(&mut wg.stack, sig.args);
            proof {
                lemma_refs(s.subrange(n - sig.args, n as int), s, nn, nn);
                lemma_refs(s.subrange(0, n - sig.args), s, nn, nn);
                assert(wview(*wg) == set_stack(st, s.subrange(0, n - sig.args)));
            }
            let mut k = funcs.len();
            while k > 0
                invariant
                    k <= funcs.len(),
                    node.kind == NodeKind::Mod(Prim::Fork, *funcs, *sp),
                    wf(wview(*wg)),
                    wview(*wg).nodes.len() >= st0.nodes.len(),
                    valid_refs(reused@, wview(*wg).nodes.len()),
                    fork_from(*node, k as nat, reused@, wview(*wg)) == step(*node, st0),
                    !(step(*node, st0) is Stuck),
                    st0 == wview(*old(wg)),
                decreases k,
            {
                let f = &funcs[k - 1];
                let a = f.sig.args;
                let ghost cur = wview(*wg);
                let top = top_n(reused.as_slice(), a);
                extend_from(&mut wg.stack, &top);
                proof {
                    lemma_refs(reused@, reused@, cur.nodes.len(), cur.nodes.len());
                    lemma_refs(cur.stack, top@, cur.nodes.len(), cur.nodes.len());
                    assert(wview(*wg) == set_stack(cur, cur.stack + top@));
                }
                match process_node(&f.node, wg) {
                    Ok(()) => {},
                    Err(e) => return Err(e),
                }
                proof {
                    lemma_refs(reused@, reused@, cur.nodes.len(), wview(*wg).nodes.len());
                }
                k = k - 1;
            }
            Ok(())
        },
        NodeKind::Mod(Prim::Bracket, funcs, sp) => {
            let drained = drain_top_n(&mut wg.stack, sig.args);
            let mut args: Vec<(usize, usize)> = Vec::new();
            extend_reversed(&mut args, &drained);
            proof {
                lemma_refs(s.subrange(n - sig.args, n as int), s, nn, nn);
                lemma_refs(s.subrange(0, n - sig.args), s, nn, nn);
                lemma_refs(drained@, drained@, nn, nn);
                assert(args@ =~= s.subrange(n - sig.args, n as int).reverse());
                assert(wview(*wg) == set_stack(st, s.subrange(0, n - sig.args)));
            }
            let mut k = funcs.len();
            while k > 0
                invariant
                    k <= funcs.len(),
                    node.kind == NodeKind::Mod(Prim::Bracket, *funcs, *sp),
                    wf(wview(*wg)),
                    wview(*wg).nodes.len() >= st0.nodes.len(),
                    valid_refs(args@, wview(*wg).nodes.len()),
                    bracket_from(*node, k as nat, args@, wview(*wg)) == step(*node, st0),
                    !(step(*node, st0) is Stuck),
                    st0 == wview(*old(wg)),
                decreases k,
            {
                let f = &funcs[k - 1];
                let a = f.sig.args;
                let ghost cur = wview(*wg);
                let ghost before = args@;
                let top = drain_top_n(&mut args, a);
                extend_reversed(&mut wg.stack, &top);
                proof {
                    lemma_refs(before, before, cur.nodes.len(), cur.nodes.len());
                    lemma_refs(top@, top@, cur.nodes.len(), cur.nodes.len());
                    lemma_refs(cur.stack, top@.reverse(), cur.nodes.len(), cur.nodes.len());
                    assert(wview(*wg) == set_stack(cur, cur.stack + top@.reverse()));
                }
                match process_node(&f.node, wg) {
                    Ok(()) => {},
                    Err(e) => return Err(e),
                }
                proof {
                    lemma_refs(args@, args@, cur.nodes.len(), wview(*wg).nodes.len());
                }
                k = k - 1;
            }
            Ok(())
        },
        NodeKind::Run(subs) => {
            let mut i: usize = 0;
            while i < subs.len()
                invariant
                    i <= subs.len(),
                    node.kind == NodeKind::Run(*subs),
                    wf(wview(*wg)),
                    wview(*wg).nodes.len() >= st0.nodes.len(),
                    run_from(*node, i as nat, wview(*wg)) == step(*node, st0),
                    !(step(*node, st0) is Stuck),
                    st0 == wview(*old(wg)),
                decreases subs.len() - i,
            {
                match process_node(&subs[i], wg) {
                    Ok(()) => {},
                    Err(e) => return Err(e),
                }
                i = i + 1;
            }
            Ok(())
        },
        NodeKind::Mod(p, _, span) => {
            let fs = match simulate_all(node) {
                Ok(fs) => fs,
                Err(e) => return Err(e),
            };
            add_generic(wg, Node::ModPrim(*p, fs), *span, sig);
            Ok(())
        },
        NodeKind::ImplMod(p, _, span) => {
            let fs = match simulate_all(node) {
                Ok(fs) => fs,
                Err(e) => return Err(e),
            };
            add_generic(wg, Node::ModImplPrim(*p, fs), *span, sig);
            Ok(())
        },
        NodeKind::Other => {
            // The simulation has no rule for this kind: `requires` rules it out.
            proof {
                assert(false);
            }
            Ok(())
        },
    }
}

/// Simulates each function of a modifier node on its own, in order.
fn simulate_all(parent: &UiuaNode) -> (r: Result<Vec<HirFunction>, Error>)
    requires
        !(mods_from(*parent, 0, seq![]) is Stuck),
    ensures
        mods_from(*parent, 0, seq![]) matches Res::Done(fvs) ==> r matches Ok(fs) && fviews(fs@) == fvs,
        mods_from(*parent, 0, seq![]) matches Res::Fails(m) ==> (r matches Err(Error::Other(t)) && t@ == m),
    decreases parent, 0nat, 0nat,
{
    let funcs = match &parent.kind {
        NodeKind::Mod(_, fs, _) => fs,
        NodeKind::ImplMod(_, fs, _) => fs,
        _ => return Ok(Vec::new()),
    };
    let mut out: Vec<HirFunction> = Vec::new();
    let mut i: usize = 0;
    while i < funcs.len()
        invariant
            i <= funcs.len(),
            parent.kind matches NodeKind::Mod(_, fs, _) ==> fs == *funcs,
            parent.kind matches NodeKind::ImplMod(_, fs, _) ==> fs == *funcs,
            parent.kind is Mod || parent.kind is ImplMod,
            mods_from(*parent, i as nat, fviews(out@)) == mods_from(*parent, 0, seq![]),
            !(mods_from(*parent, 0, seq![]) is Stuck),
        decreases funcs.len() - i,
    {
        let f = match simulate_data_flow(&funcs[i].node) {
            Ok(f) => f,
            Err(e) => return Err(e),
        };
        let ghost before = out@;
        out.push(f);
        proof {
            assert(out@.drop_last() =~= before);
        }
        i = i + 1;
    }
    Ok(out)
}

/// Simulates the data flow of a node on its own: a new function whose input
/// node gives the arguments the node takes, and whose output node reads the
/// values left on the stack, the top one as its last output.
pub fn simulate_data_flow(node: &UiuaNode) -> (r: Result<HirFunction, Error>)
    requires
        !(sim(*node) is Stuck),
    ensures
        sim(*node) matches Res::Done(fv) ==> r matches Ok(f) && fview(f) == fv,
        sim(*node) matches Res::Fails(m) ==> (r matches Err(Error::Other(t)) && t@ == m),
    decreases node, 2nat, 0nat,
{
    let mut wg = WorkingFuncGraph::empty();
    match process_node(node, &mut wg) {
        Ok(()) => {},
        Err(e) => return Err(e),
    }
    let ghost st = wview(wg);
    let ghost s = st.stack;
    proof {
        lemma_nviews_len(wg.nodes@);
    }
    let n = wg.stack.len();
    let mut in_i: usize = 0;
    while in_i < n
        invariant
            in_i <= n,
            n == s.len(),
            wg.stack@ == s,
            wf(st),
            st.edges.len() + n <= u32::MAX,
            wf(wview(wg)),
            wview(wg) == (WState {
                edges: st.edges + Seq::new(
                    in_i as nat,
                    |i: int| Some((st.output, s[n - 1 - i].0, (s[n - 1 - i].1, i as usize))),
                ),
                ..st
            }),
            wg.nodes.len() == st.nodes.len(),
        decreases n - in_i,
    {
        let (node_idx, out_i) = wg.stack[n - 1 - in_i];
        let out = wg.output_idx;
        assert(s[n - 1 - in_i].0 < st.nodes.len());
        wg.add_edge(out, node_idx, (out_i, in_i));
        in_i = in_i + 1;
        assert(wview(wg).edges =~= st.edges + Seq::new(
            in_i as nat,
            |i: int| Some((st.output, s[n - 1 - i].0, (s[n - 1 - i].1, i as usize))),
        ));
    }
    let mut node_metas: HashMap<usize, ()> = HashMap::new();
    let mut k: usize = 0;
    while k < wg.nodes.len()
        invariant
            k <= wg.nodes.len(),
            node_metas@.dom() == Set::new(|i: usize| i < k),
        decreases wg.nodes.len() - k,
    {
        node_metas.insert(k, ());
        k = k + 1;
        assert(node_metas@.dom() =~= Set::new(|i: usize| i < k));
    }
    assert(node_metas@ =~= Map::new(|i: usize| i < st.nodes.len(), |i: usize| ()));
    let f = Function {
        meta: (),
        graph: wg.graph,
        nodes: wg.nodes,
        input_idx: wg.input_idx,
        output_idx: wg.output_idx,
        args: wg.arg_count,
        outs: n,
        node_metas,
        spans: wg.spans,
    };
    proof {
        assert(fview(f).edges == wview(wg).edges);
    }
    Ok(f)
}


/// `below f`, with `f` a primitive, copies the top values that `f` takes in
/// their order and runs `f` on them: `f`'s node is the one that running `f`
/// on the stack alone adds, reading the same values at the same inputs, and
/// the stack ends as it was with `f`'s outputs on top.
pub proof fn lemma_below_copies_in_order(
    below: UiuaNode,
    bsig: Signature,
    funcs: Vec<SigNode>,
    bspan: usize,
    p: Prim,
    pspan: usize,
    st: WState,
)
    requires
        below.sig == Ok::<Signature, String>(bsig),
        below.kind == NodeKind::Mod(Prim::Below, funcs, bspan),
        funcs@.len() >= 1,
        funcs@[0].node.kind == NodeKind::Prim(p, pspan),
        funcs@[0].node.sig == Ok::<Signature, String>(funcs@[0].sig),
        !(p is Identity || p is Pop || p is Dup || p is Flip),
        bsig.args <= st.stack.len(),
        funcs@[0].sig.args <= st.stack.len(),
    ensures
        step(below, st) == match step(funcs@[0].node, st) {
            Res::Done(y) => Res::Done(
                set_stack(y, st.stack + y.stack.subrange(st.stack.len() - funcs@[0].sig.args, y.stack.len() as int)),
            ),
            other => other,
        },
{
    let s = st.stack;
    let n = s.len() as int;
    let fsig = funcs@[0].sig;
    let a = fsig.args as int;
    let f = funcs@[0].node;
    let s2 = s + s.subrange(n - a, n);
    assert(extend(st, bsig.args) == Some(st)) by {
        assert(Seq::new(0, |i: int| (st.input, (st.args + 0 - 1 - i) as usize)) + s =~= s);
    }
    assert(extend(st, fsig.args) == Some(st)) by {
        assert(Seq::new(0, |i: int| (st.input, (st.args + 0 - 1 - i) as usize)) + s =~= s);
    }
    let st2 = set_stack(st, s2);
    assert(extend(st2, fsig.args) == Some(st2)) by {
        assert(Seq::new(0, |i: int| (st2.input, (st2.args + 0 - 1 - i) as usize)) + s2 =~= s2);
    }
    assert(step(below, st) == step(f, st2));
    assert(step(f, st) == gen_node(st, NView::FuncPrim(p), pspan, fsig));
    assert(step(f, st2) == gen_node(st2, NView::FuncPrim(p), pspan, fsig));
    let d1 = s.subrange(n - a, n);
    let d2 = s2.subrange(s2.len() - a, s2.len() as int);
    assert(d1 =~= d2);
    if let Res::Done(y) = gen_node(st, NView::FuncPrim(p), pspan, fsig) {
        let outs = Seq::new(fsig.outputs as nat, |j: int| (st.nodes.len() as usize, (fsig.outputs - 1 - j) as usize));
        assert(y.stack == s.subrange(0, n - a) + outs);
        assert(y.stack.subrange(n - a, y.stack.len() as int) =~= outs);
        assert(s2.subrange(0, s2.len() - a) =~= s);
        let z = gen_node(st2, NView::FuncPrim(p), pspan, fsig)->Done_0;
        assert(z.stack =~= s + outs);
        assert(z == set_stack(y, s + y.stack.subrange(n - a, y.stack.len() as int)));
    }
}

/// What a binding of an assembly binds, as far as building the HIR reads it:
/// a function, by its position in the assembly's list of functions, a
/// constant, or anything else.
pub enum BindingKind {
    Func(usize),
    Const,
    Other,
}

/// A binding of an assembly: what it binds, its code span, and, for a
/// function, its function id (spans and ids by their positions in the
/// assembly's lists) and the hash of its code.
pub struct BindingInfo {
    pub kind: BindingKind,
    pub span: usize,
    pub func_id: usize,
    pub hash: u64,
}

/// A compiled program as building the HIR reads it: its bindings, the code
/// of its functions, its top-level code and that code's span.
pub struct Assembly {
    pub bindings: Vec<BindingInfo>,
    pub functions: Vec<UiuaNode>,
    pub root: UiuaNode,
    pub root_span: usize,
    /// The program's table of code spans, which spans index, as text.
    pub spans: Vec<String>,
    /// The program's source files: each path, as text, with its contents.
    pub files: Vec<(String, String)>,
}

/// The simulation of a node on its own, as the HIR of an assembly speaks of
/// it.
#[verifier::opaque]
pub open spec fn simulated(n: UiuaNode) -> Res<FView> {
    sim(n)
}

/// Whether top-level code is empty: a run of no nodes.
pub open spec fn node_is_empty(n: UiuaNode) -> bool {
    n.kind matches NodeKind::Run(v) && v@.len() == 0
}

/// The HIR bindings of the first `k` bindings of an assembly: each function
/// binding, in order, with its simulated function; other bindings give none.
pub open spec fn hir_bindings(a: Assembly, k: nat) -> Res<Seq<(usize, usize, u64, FView)>>
    decreases k,
{
    if k == 0 {
        Res::Done(seq![])
    } else if k > a.bindings@.len() {
        Res::Stuck
    } else {
        match hir_bindings(a, (k - 1) as nat) {
            Res::Done(bs) => {
                let b = a.bindings@[k - 1];
                match b.kind {
                    BindingKind::Func(f) => if f < a.functions@.len() {
                        match simulated(a.functions@[f as int]) {
                            Res::Done(fv) => Res::Done(bs.push((b.span, b.func_id, b.hash, fv))),
                            Res::Fails(m) => Res::Fails(m),
                            Res::Stuck => Res::Stuck,
                        }
                    } else {
                        Res::Stuck
                    },
                    _ => Res::Done(bs),
                }
            },
            other => other,
        }
    }
}

/// The HIR of an assembly: its function bindings, and its top-level code
/// simulated as a function with its span when that code is not empty.
pub open spec fn hir_of(a: Assembly) -> Res<(Seq<(usize, usize, u64, FView)>, Option<(FView, usize)>)> {
    match hir_bindings(a, a.bindings@.len()) {
        Res::Done(bs) => if node_is_empty(a.root) {
            Res::Done((bs, None))
        } else {
            match simulated(a.root) {
                Res::Done(fv) => Res::Done((bs, Some((fv, a.root_span)))),
                Res::Fails(m) => Res::Fails(m),
                Res::Stuck => Res::Stuck,
            }
        },
        Res::Fails(m) => Res::Fails(m),
        Res::Stuck => Res::Stuck,
    }
}

proof fn lemma_hir_bindings_stops(a: Assembly, j: nat, k: nat)
    requires
        j <= k <= a.bindings@.len(),
    ensures
        hir_bindings(a, j) is Stuck ==> hir_bindings(a, k) is Stuck,
        hir_bindings(a, j) matches Res::Fails(m) ==> hir_bindings(a, k) == Res::<Seq<(usize, usize, u64, FView)>>::Fails(m),
    decreases k,
{
    if j < k {
        lemma_hir_bindings_stops(a, j, (k - 1) as nat);
    }
}

/// Whether top-level code is empty.
fn is_empty_node(n: &UiuaNode) -> (r: bool)
    ensures
        r == node_is_empty(*n),
{
    match &n.kind {
        NodeKind::Run(v) => v.len() == 0,
        _ => false,
    }
}

/// Builds the HIR of an assembly: every function binding is simulated on its
/// own, in order, and so is the top-level code when it is not empty.
#[verifier::spinoff_prover]
#[verifier::rlimit(50)]
pub fn construct_hir(uasm: &Assembly) -> (r: Result<Hir, Error>)
    requires
        !(hir_of(*uasm) is Stuck),
    ensures
        hir_of(*uasm) matches Res::Done((bs, main)) ==> r matches Ok(h) && bindings_view(h.bindings@) == bs && (
        match main {
            Some((fv, span)) => h.main matches Some((f, sp)) && fview(f) == fv && sp == span,
            None => h.main is None,
        }) && strings_view(h.spans@) == strings_view(uasm.spans@) && files_view(h.files@) == files_view(uasm.files@),
        hir_of(*uasm) matches Res::Fails(m) ==> (r matches Err(Error::Other(t)) && t@ == m),
{
    let ghost a = *uasm;
    proof {
        lemma_hir_bindings_stops(a, 0, a.bindings@.len());
    }
    let mut bindings: Vec<Binding> = Vec::new();
    assert(bindings_view(bindings@) =~= Seq::<(usize, usize, u64, FView)>::empty());
    let mut i: usize = 0;
    while i < uasm.bindings.len()
        invariant
            i <= uasm.bindings.len(),
            a == *uasm,
            !(hir_of(a) is Stuck),
            !(hir_bindings(a, a.bindings@.len()) is Stuck),
            hir_bindings(a, i as nat) == Res::Done(bindings_view(bindings@)),
        decreases uasm.bindings.len() - i,
    {
        proof {
            lemma_hir_bindings_stops(a, (i + 1) as nat, a.bindings@.len());
        }
        let b = &uasm.bindings[i];
        match b.kind {
            BindingKind::Func(f) => {
                assert(simulated(uasm.functions@[f as int]) == sim(uasm.functions@[f as int])) by {
                    reveal(simulated);
                }
                let func = match simulate_data_flow(&uasm.functions[f]) {
                    Ok(func) => func,
                    Err(e) => return Err(e),
                };
                let ghost before = bindings@;
                bindings.push(Binding { span: b.span, func_id: b.func_id, hash: b.hash, func });
                assert(bindings_view(bindings@) =~= bindings_view(before).push(binding_view(bindings@.last())));
            },
            _ => {},
        }
        i = i + 1;
    }
    assert(simulated(uasm.root) == sim(uasm.root)) by {
        reveal(simulated);
    }
    let main = if is_empty_node(&uasm.root) {
        None
    } else {
        match simulate_data_flow(&uasm.root) {
            Ok(func) => Some((func, uasm.root_span)),
            Err(e) => return Err(e),
        }
    };
    let mut spans: Vec<String> = Vec::new();
    let mut j: usize = 0;
    while j < uasm.spans.len()
        invariant
            j <= uasm.spans.len(),
            strings_view(spans@) == strings_view(uasm.spans@).take(j as int),
        decreases uasm.spans.len() - j,
    {
        let ghost before = spans@;
        let x = copy_string(&uasm.spans[j]);
        spans.push(x);
        assert(strings_view(spans@) =~= strings_view(before).push(x@));
        assert(strings_view(uasm.spans@).take(j + 1) =~= strings_view(uasm.spans@).take(j as int).push(uasm.spans@[j as int]@));
        j = j + 1;
    }
    assert(strings_view(uasm.spans@).take(j as int) =~= strings_view(uasm.spans@));
    let files = copy_files(&uasm.files);
    Ok(Hir { bindings, main, spans, files })
}

} // verus!
