//! High-level IR: the data-flow graph of a program, as simulated from its
//! assembly.
use vstd::prelude::*;

use crate::generic_ir::{graph_edges, graph_nodes, Function};

verus! {

/// A primitive of the language, as far as the data-flow simulation reads it:
/// the stack primitives and modifiers it handles itself, and any other by its
/// number in the language's list of primitives.
#[derive(Clone, Copy, Debug, PartialEq, Eq)]
pub enum Prim {
    Identity,
    Pop,
    Dup,
    Flip,
    On,
    By,
    Off,
    With,
    Dip,
    Fork,
    Bracket,
    Below,
    Both,
    Other(u16),
}

/// An implementation primitive, as far as the data-flow simulation reads it.
#[derive(Clone, Copy, Debug, PartialEq, Eq)]
pub enum ImplPrim {
    OnSub(usize),
    BySub(usize),
    OffSub(usize),
    WithSub(usize),
    DipN(usize),
    SidedBracket,
    BothImpl,
    Other(u16),
}

/// A node of a HIR function. Constants and called functions are held by
/// their positions in the assembly's lists.
pub enum Node {
    Input,
    Output,
    Constant(usize),
    FuncPrim(Prim),
    FuncImplPrim(ImplPrim),
    ModPrim(Prim, Vec<HirFunction>),
    ModImplPrim(ImplPrim, Vec<HirFunction>),
    Call(usize),
}

impl crate::generic_ir::FunctionNode for Node {
    open spec fn input_node(&self) -> bool {
        self is Input
    }

    open spec fn output_node(&self) -> bool {
        self is Output
    }

    open spec fn the_input() -> Self {
        Node::Input
    }

    open spec fn the_output() -> Self {
        Node::Output
    }

    fn is_input(&self) -> (r: bool) {
        matches!(self, Node::Input)
    }

    fn is_output(&self) -> (r: bool) {
        matches!(self, Node::Output)
    }

    fn input() -> (r: Self) {
        Node::Input
    }

    fn output() -> (r: Self) {
        Node::Output
    }
}

/// A function of the HIR.
pub type HirFunction = Function<(), Node, ()>;

/// The mathematical view of a HIR node.
pub enum NView {
    Input,
    Output,
    Constant(usize),
    FuncPrim(Prim),
    FuncImplPrim(ImplPrim),
    ModPrim(Prim, Seq<FView>),
    ModImplPrim(ImplPrim, Seq<FView>),
    Call(usize),
}

/// The mathematical view of a HIR function: its node slots, edge slots,
/// node payloads, input and output nodes, and the span of each node.
pub struct FView {
    pub slots: Seq<Option<usize>>,
    pub edges: Seq<Option<(usize, usize, (usize, usize))>>,
    pub nodes: Seq<NView>,
    pub input: usize,
    pub output: usize,
    pub args: usize,
    pub outs: usize,
    pub metas: Map<usize, ()>,
    pub spans: Map<usize, usize>,
}

pub open spec fn nview(n: Node) -> NView
    decreases n,
{
    match n {
        Node::Input => NView::Input,
        Node::Output => NView::Output,
        Node::Constant(c) => NView::Constant(c),
        Node::FuncPrim(p) => NView::FuncPrim(p),
        Node::FuncImplPrim(p) => NView::FuncImplPrim(p),
        Node::ModPrim(p, fs) => NView::ModPrim(p, fviews(fs@)),
        Node::ModImplPrim(p, fs) => NView::ModImplPrim(p, fviews(fs@)),
        Node::Call(c) => NView::Call(c),
    }
}

pub open spec fn nviews(s: Seq<Node>) -> Seq<NView>
    decreases s,
{
    if s.len() == 0 {
        seq![]
    } else {
        nviews(s.drop_last()).push(nview(s.last()))
    }
}

pub open spec fn fview(f: HirFunction) -> FView
    decreases f,
{
    FView {
        slots: graph_nodes(f.graph),
        edges: graph_edges(f.graph),
        nodes: nviews(f.nodes@),
        input: f.input_idx,
        output: f.output_idx,
        args: f.args,
        outs: f.outs,
        metas: f.node_metas@,
        spans: f.spans@,
    }
}

pub open spec fn fviews(s: Seq<HirFunction>) -> Seq<FView>
    decreases s,
{
    if s.len() == 0 {
        seq![]
    } else {
        fviews(s.drop_last()).push(fview(s.last()))
    }
}


/// A function bound by a name: its code span and function id (positions in
/// the assembly's lists), the hash of its code, and its data-flow graph.
pub struct Binding {
    pub span: usize,
    pub func_id: usize,
    pub hash: u64,
    pub func: HirFunction,
}

/// The HIR of a program: its bound functions and, when the program has top
/// level code, that code as a function with its span.
pub struct Hir {
    pub bindings: Vec<Binding>,
    pub main: Option<(HirFunction, usize)>,
    /// The program's table of code spans, which spans index, as text.
    pub spans: Vec<String>,
    /// The program's source files: each path, as text, with its contents.
    pub files: Vec<(String, String)>,
}

/// The text of each path and contents of a list of source files.
pub open spec fn files_view(s: Seq<(String, String)>) -> Seq<(Seq<char>, Seq<char>)> {
    s.map_values(|x: (String, String)| (x.0@, x.1@))
}

/// Copies a list of source files.
pub fn copy_files(fs: &Vec<(String, String)>) -> (r: Vec<(String, String)>)
    ensures
        files_view(r@) == files_view(fs@),
{
    let mut r: Vec<(String, String)> = Vec::new();
    let mut j: usize = 0;
    while j < fs.len()
        invariant
            j <= fs.len(),
            files_view(r@) == files_view(fs@).take(j as int),
        decreases fs.len() - j,
    {
        let ghost before = r@;
        let path = crate::tir::copy_string(&fs[j].0);
        let text = crate::tir::copy_string(&fs[j].1);
        r.push((path, text));
        assert(files_view(r@) =~= files_view(before).push((path@, text@)));
        assert(files_view(fs@).take(j + 1) =~= files_view(fs@).take(j as int).push((fs@[j as int].0@, fs@[j as int].1@)));
        j = j + 1;
    }
    assert(files_view(fs@).take(j as int) =~= files_view(fs@));
    r
}

/// The text of each string of a list.
pub open spec fn strings_view(s: Seq<String>) -> Seq<Seq<char>> {
    s.map_values(|x: String| x@)
}

/// The mathematical view of a binding.
pub open spec fn binding_view(b: Binding) -> (usize, usize, u64, FView) {
    (b.span, b.func_id, b.hash, fview(b.func))
}

pub open spec fn bindings_view(s: Seq<Binding>) -> Seq<(usize, usize, u64, FView)> {
    s.map_values(|b: Binding| binding_view(b))
}

} // verus!
