//! The data-flow graph that every intermediate representation is made of.
use vstd::prelude::*;

use petgraph::stable_graph::StableGraph;
use petgraph::visit::EdgeIndexable;
use std::collections::HashMap;

verus! {

broadcast use vstd::std_specs::hash::group_hash_axioms;

#[verifier::external_type_specification]
#[verifier::external_body]
#[verifier::reject_recursive_types(N)]
#[verifier::reject_recursive_types(E)]
#[verifier::reject_recursive_types(Ty)]
#[verifier::reject_recursive_types(Ix)]
pub struct ExStableGraph<N, E, Ty, Ix>(StableGraph<N, E, Ty, Ix>);

#[verifier::external_type_specification]
#[verifier::external_body]
pub struct ExDirected(petgraph::Directed);

/// A data-flow graph. Each node holds the position of its payload in a list
/// kept beside the graph; an edge goes from a node to a node it reads, and
/// holds the output index read and the input index it feeds.
pub type Graph = StableGraph<usize, (usize, usize)>;

/// The node slots of a graph in index order: the payload position of each
/// node, or nothing for a vacant slot.
pub uninterp spec fn graph_nodes(g: StableGraph<usize, (usize, usize)>) -> Seq<Option<usize>>;

/// The edge slots of a graph in index order: source, target and weight of
/// each edge, or nothing for a vacant slot.
pub uninterp spec fn graph_edges(g: StableGraph<usize, (usize, usize)>) -> Seq<Option<(usize, usize, (usize, usize))>>;

/// Trusted: wraps `StableGraph::new` of petgraph, which makes a graph with no
/// node and no edge.
#[verifier::external_body]
pub(crate) fn graph_new() -> (g: Graph)
    ensures
        graph_nodes(g) == Seq::<Option<usize>>::empty(),
        graph_edges(g) == Seq::<Option<(usize, usize, (usize, usize))>>::empty(),
{
    StableGraph::new()
}

/// Trusted: wraps `StableGraph::add_node` of petgraph. The node takes a
/// vacant slot if there is one, else a new slot at the end; it panics only
/// when a new slot would get the index `u32::MAX`, which `requires` rules
/// out. Edges are unchanged. Which vacant slot is taken is not stated.
#[verifier::external_body]
pub(crate) fn graph_add_node(g: &mut Graph, w: usize) -> (r: usize)
    requires
        graph_nodes(*old(g)).len() < u32::MAX,
    ensures
        r <= graph_nodes(*old(g)).len(),
        r == graph_nodes(*old(g)).len() ==> graph_nodes(*final(g)) == graph_nodes(*old(g)).push(Some(w)),
        r < graph_nodes(*old(g)).len() ==> graph_nodes(*old(g))[r as int] is None && graph_nodes(*final(g))
            == graph_nodes(*old(g)).update(r as int, Some(w)),
        (forall|i: int| 0 <= i < graph_nodes(*old(g)).len() ==> #[trigger] graph_nodes(*old(g))[i] is Some) ==> r
            == graph_nodes(*old(g)).len(),
        graph_edges(*final(g)) == graph_edges(*old(g)),
{
    g.add_node(w).index()
}

/// Trusted: wraps `StableGraph::add_edge` of petgraph, which adds an edge
/// from `a` to `b` with weight `w`, in a vacant edge slot if there is one,
/// else in a new slot at the end. It panics when `a` or `b` is not a node,
/// or when a new slot would get the index `u32::MAX`; `requires` rules both
/// out. Nodes are unchanged. Which vacant slot is taken is not stated.
#[verifier::external_body]
pub(crate) fn graph_add_edge(g: &mut Graph, a: usize, b: usize, w: (usize, usize))
    requires
        a < graph_nodes(*old(g)).len(),
        b < graph_nodes(*old(g)).len(),
        graph_nodes(*old(g))[a as int] is Some,
        graph_nodes(*old(g))[b as int] is Some,
        graph_edges(*old(g)).len() < u32::MAX,
    ensures
        graph_nodes(*final(g)) == graph_nodes(*old(g)),
        (forall|i: int| 0 <= i < graph_edges(*old(g)).len() ==> #[trigger] graph_edges(*old(g))[i] is Some) ==> graph_edges(
            *final(g),
        ) == graph_edges(*old(g)).push(Some((a, b, w))),
{
    g.add_edge(petgraph::stable_graph::NodeIndex::new(a), petgraph::stable_graph::NodeIndex::new(b), w);
}


/// A node payload of a function: it tells the function's input and output
/// nodes apart from the others and makes them.
pub trait FunctionNode: Sized {
    /// Whether this is the node of the function's inputs.
    spec fn input_node(&self) -> bool;

    /// Whether this is the node of the function's outputs.
    spec fn output_node(&self) -> bool;

    /// The node of a function's inputs.
    spec fn the_input() -> Self;

    /// The node of a function's outputs.
    spec fn the_output() -> Self;

    fn is_input(&self) -> (r: bool)
        ensures
            r == self.input_node(),
    ;

    fn is_output(&self) -> (r: bool)
        ensures
            r == self.output_node(),
    ;

    fn input() -> (r: Self)
        ensures
            r == Self::the_input(),
            r.input_node(),
    ;

    fn output() -> (r: Self)
        ensures
            r == Self::the_output(),
            r.output_node(),
    ;
}

/// Why a function could not be read back from its listing.
#[derive(Clone, Copy, Debug, PartialEq, Eq)]
pub enum FunctionDeserializeError {
    /// The listing does not start with the input line.
    MissingInput,
    /// The listing ends before an output line.
    MissingOutupt,
    /// A line reads an identifier that no earlier line made.
    UnknownIdent(usize),
}

/// One line of a function's listing: the identifiers it makes, its node, the
/// identifiers it reads, what is known of it, and its span.
pub type Line<N, NodeMeta> = (Vec<usize>, N, Vec<usize>, NodeMeta, usize);

/// The mathematical view of a listing line.
pub open spec fn line_view<N, NodeMeta>(l: Line<N, NodeMeta>) -> (Seq<usize>, N, Seq<usize>, NodeMeta, usize) {
    (l.0@, l.1, l.2@, l.3, l.4)
}

/// The identifier table after a node binds its outputs, in order, to
/// `outs`: a later binding of one identifier replaces an earlier one.
pub open spec fn bind_idents(m: Map<usize, (usize, usize)>, outs: Seq<usize>, node: usize) -> Map<usize, (usize, usize)>
    decreases outs.len(),
{
    if outs.len() == 0 {
        m
    } else {
        bind_idents(m, outs.drop_last(), node).insert(outs.last(), (node, (outs.len() - 1) as usize))
    }
}

/// The first identifier of `ins` that the table does not hold, if any.
pub open spec fn first_unknown(m: Map<usize, (usize, usize)>, ins: Seq<usize>) -> Option<usize>
    decreases ins.len(),
{
    if ins.len() == 0 {
        None
    } else if first_unknown(m, ins.drop_last()) is Some {
        first_unknown(m, ins.drop_last())
    } else if !m.dom().contains(ins.last()) {
        Some(ins.last())
    } else {
        None
    }
}

/// The edges that node `node` adds when it reads `ins`: one per identifier,
/// to the node and output that the table binds it to.
pub open spec fn read_edges(m: Map<usize, (usize, usize)>, ins: Seq<usize>, node: usize) -> Seq<
    Option<(usize, usize, (usize, usize))>,
> {
    Seq::new(ins.len(), |j: int| Some((node, m[ins[j]].0, (m[ins[j]].1, j as usize))))
}

/// What has been read of a listing: the nodes, the edge slots, what is known
/// of each node and its span, and the identifier table.
pub struct ListingState<N, NodeMeta> {
    pub nodes: Seq<N>,
    pub edges: Seq<Option<(usize, usize, (usize, usize))>>,
    pub metas: Map<usize, NodeMeta>,
    pub spans: Map<usize, usize>,
    pub idents: Map<usize, (usize, usize)>,
}

/// Reading a listing from line `k` on: each line adds its node, an edge for
/// each identifier it reads and the bindings of those it makes; the first
/// output line ends the function, giving the state, the output node and the
/// number of its inputs.
pub open spec fn read_lines<N: FunctionNode, NodeMeta>(
    ls: Seq<(Seq<usize>, N, Seq<usize>, NodeMeta, usize)>,
    k: nat,
    st: ListingState<N, NodeMeta>,
) -> Result<(ListingState<N, NodeMeta>, usize, usize), FunctionDeserializeError>
    decreases ls.len() - k,
{
    if k >= ls.len() {
        Err(FunctionDeserializeError::MissingOutupt)
    } else {
        let l = ls[k as int];
        let idx = st.nodes.len() as usize;
        match first_unknown(st.idents, l.2) {
            Some(id) => Err(FunctionDeserializeError::UnknownIdent(id)),
            None => {
                let st2 = ListingState {
                    nodes: st.nodes.push(l.1),
                    edges: st.edges + read_edges(st.idents, l.2, idx),
                    metas: st.metas.insert(idx, l.3),
                    spans: st.spans.insert(idx, l.4),
                    idents: bind_idents(st.idents, l.0, idx),
                };
                if l.1.output_node() {
                    Ok((st2, idx, l.2.len() as usize))
                } else {
                    read_lines(ls, k + 1, st2)
                }
            },
        }
    }
}

/// Reading a whole listing: its first line must be the input line, which
/// gives the input node (made anew) its outputs, what is known of it and its
/// span; the lines after it are read up to the first output line.
pub open spec fn read_listing<N: FunctionNode, NodeMeta>(ls: Seq<(Seq<usize>, N, Seq<usize>, NodeMeta, usize)>) -> Result<
    (ListingState<N, NodeMeta>, usize, usize),
    FunctionDeserializeError,
> {
    if ls.len() == 0 || !ls[0].1.input_node() {
        Err(FunctionDeserializeError::MissingInput)
    } else {
        read_lines(
            ls,
            1,
            ListingState {
                nodes: seq![N::the_input()],
                edges: seq![],
                metas: Map::empty().insert(0usize, ls[0].3),
                spans: Map::empty().insert(0usize, ls[0].4),
                idents: bind_idents(Map::empty(), ls[0].0, 0),
            },
        )
    }
}

/// The number of identifiers that the first `k` lines read.
pub open spec fn reads_total<N, NodeMeta>(ls: Seq<(Seq<usize>, N, Seq<usize>, NodeMeta, usize)>, k: nat) -> nat
    decreases k,
{
    if k == 0 || k > ls.len() {
        0
    } else {
        reads_total(ls, (k - 1) as nat) + ls[k - 1].2.len()
    }
}

/// A function: its data-flow graph with the payload of each node, its input
/// and output nodes, what is known of each node, and the span of each node.
pub struct Function<Meta, N, NodeMeta> {
    pub meta: Meta,
    pub graph: Graph,
    pub nodes: Vec<N>,
    pub input_idx: usize,
    pub output_idx: usize,
    /// The number of inputs the function takes, read or not.
    pub args: usize,
    /// The number of outputs the function gives.
    pub outs: usize,
    pub node_metas: HashMap<usize, NodeMeta>,
    pub spans: HashMap<usize, usize>,
}


/// Trusted: wraps `EdgeIndexable::edge_bound` of petgraph's `StableGraph`,
/// which is one past the index of the last edge slot that holds an edge, or
/// 0 when no slot does.
#[verifier::external_body]
pub(crate) fn graph_edge_bound(g: &Graph) -> (r: usize)
    ensures
        r <= graph_edges(*g).len(),
        forall|i: int| r <= i < graph_edges(*g).len() ==> #[trigger] graph_edges(*g)[i] is None,
        r > 0 ==> graph_edges(*g)[r - 1] is Some,
{
    g.edge_bound()
}

/// Trusted: wraps `StableGraph::edge_endpoints` of petgraph, which gives the
/// source and target of the edge in slot `i`, or nothing for a vacant slot.
#[verifier::external_body]
pub(crate) fn graph_edge_endpoints(g: &Graph, i: usize) -> (r: Option<(usize, usize)>)
    requires
        i < graph_edges(*g).len(),
    ensures
        r == (match graph_edges(*g)[i as int] {
            Some((a, b, _)) => Some((a, b)),
            None => None,
        }),
{
    match g.edge_endpoints(petgraph::stable_graph::EdgeIndex::new(i)) {
        Some((a, b)) => Some((a.index(), b.index())),
        None => None,
    }
}

/// Trusted: wraps `StableGraph::edge_weight` of petgraph, which gives the
/// weight of the edge in slot `i`, or nothing for a vacant slot.
#[verifier::external_body]
pub(crate) fn graph_edge_weight(g: &Graph, i: usize) -> (r: Option<(usize, usize)>)
    requires
        i < graph_edges(*g).len(),
    ensures
        r == (match graph_edges(*g)[i as int] {
            Some((_, _, w)) => Some(w),
            None => None,
        }),
{
    g.edge_weight(petgraph::stable_graph::EdgeIndex::new(i)).copied()
}

impl<Meta, N, NodeMeta> Function<Meta, N, NodeMeta> {
    /// The number of inputs to this function, those it never reads counted.
    pub fn args_count(&self) -> (r: usize)
        ensures
            r == self.args,
    {
        self.args
    }

    /// The number of outputs from this function.
    pub fn outs_count(&self) -> (r: usize)
        ensures
            r == self.outs,
    {
        self.outs
    }
}


/// The views of the lines of a listing.
pub open spec fn lines_view<N, NodeMeta>(ls: Seq<Line<N, NodeMeta>>) -> Seq<(Seq<usize>, N, Seq<usize>, NodeMeta, usize)> {
    ls.map_values(|l: Line<N, NodeMeta>| line_view(l))
}

proof fn lemma_reads_total_mono<N, NodeMeta>(ls: Seq<(Seq<usize>, N, Seq<usize>, NodeMeta, usize)>, a: nat, b: nat)
    requires
        a <= b <= ls.len(),
    ensures
        reads_total(ls, a) <= reads_total(ls, b),
    decreases b,
{
    if a < b {
        lemma_reads_total_mono(ls, a, (b - 1) as nat);
    }
}

proof fn lemma_first_unknown_none(m: Map<usize, (usize, usize)>, s: Seq<usize>)
    requires
        forall|j: int| 0 <= j < s.len() ==> m.dom().contains(#[trigger] s[j]),
    ensures
        first_unknown(m, s) is None,
    decreases s.len(),
{
    if s.len() > 0 {
        lemma_first_unknown_none(m, s.drop_last());
    }
}

proof fn lemma_first_unknown_at(m: Map<usize, (usize, usize)>, s: Seq<usize>, j: int)
    requires
        0 <= j < s.len(),
        forall|jj: int| 0 <= jj < j ==> m.dom().contains(#[trigger] s[jj]),
        !m.dom().contains(s[j]),
    ensures
        first_unknown(m, s) == Some(s[j]),
    decreases s.len(),
{
    if j == s.len() - 1 {
        lemma_first_unknown_none(m, s.drop_last());
    } else {
        lemma_first_unknown_at(m, s.drop_last(), j);
    }
}

proof fn lemma_bind_below(m: Map<usize, (usize, usize)>, outs: Seq<usize>, node: usize, b: nat)
    requires
        node < b,
        forall|id: usize| m.dom().contains(id) ==> #[trigger] m[id].0 < b,
    ensures
        forall|id: usize| bind_idents(m, outs, node).dom().contains(id) ==> #[trigger] bind_idents(m, outs, node)[id].0 < b,
    decreases outs.len(),
{
    if outs.len() > 0 {
        lemma_bind_below(m, outs.drop_last(), node, b);
        let m2 = bind_idents(m, outs.drop_last(), node);
        let m3 = bind_idents(m, outs, node);
        assert(m3 == m2.insert(outs.last(), (node, (outs.len() - 1) as usize)));
        assert forall|id: usize| m3.dom().contains(id) implies #[trigger] m3[id].0 < b by {
            if id != outs.last() {
                assert(m2.dom().contains(id));
            }
        }
    }
}

/// Every edge slot holds an edge from a node to an earlier node, and every
/// identifier is bound to a node already read.
pub open spec fn listing_backward<N, NodeMeta>(st: ListingState<N, NodeMeta>) -> bool {
    &&& forall|i: int|
        0 <= i < st.edges.len() ==> (#[trigger] st.edges[i] matches Some((a, b, w)) && b < a < st.nodes.len())
    &&& forall|id: usize| st.idents.dom().contains(id) ==> #[trigger] st.idents[id].0 < st.nodes.len()
}

proof fn lemma_read_lines_backward<N: FunctionNode, NodeMeta>(
    ls: Seq<(Seq<usize>, N, Seq<usize>, NodeMeta, usize)>,
    k: nat,
    st: ListingState<N, NodeMeta>,
)
    requires
        listing_backward(st),
        st.nodes.len() == k,
        ls.len() < usize::MAX,
    ensures
        read_lines(ls, k, st) matches Ok((st2, o, n)) ==> listing_backward(st2) && o < st2.nodes.len(),
    decreases ls.len() - k,
{
    if k < ls.len() {
        let l = ls[k as int];
        let idx = st.nodes.len() as usize;
        if first_unknown(st.idents, l.2) is None {
            lemma_first_unknown_none_inv(st.idents, l.2);
            let st2 = ListingState {
                nodes: st.nodes.push(l.1),
                edges: st.edges + read_edges(st.idents, l.2, idx),
                metas: st.metas.insert(idx, l.3),
                spans: st.spans.insert(idx, l.4),
                idents: bind_idents(st.idents, l.0, idx),
            };
            lemma_bind_below(st.idents, l.0, idx, st2.nodes.len());
            assert forall|i: int| 0 <= i < st2.edges.len() implies (#[trigger] st2.edges[i] matches Some((a, b, w)) && b < a
                < st2.nodes.len()) by {
                if i >= st.edges.len() {
                    let j = i - st.edges.len();
                    assert(st2.edges[i] == read_edges(st.idents, l.2, idx)[j]);
                    assert(st.idents.dom().contains(l.2[j]));
                }
            }
            if !l.1.output_node() {
                lemma_read_lines_backward(ls, k + 1, st2);
            }
        }
    }
}

proof fn lemma_first_unknown_none_inv(m: Map<usize, (usize, usize)>, s: Seq<usize>)
    requires
        first_unknown(m, s) is None,
    ensures
        forall|j: int| 0 <= j < s.len() ==> m.dom().contains(#[trigger] s[j]),
    decreases s.len(),
{
    if s.len() > 0 {
        lemma_first_unknown_none_inv(m, s.drop_last());
        assert forall|j: int| 0 <= j < s.len() implies m.dom().contains(#[trigger] s[j]) by {
            if j < s.len() - 1 {
                assert(s.drop_last()[j] == s[j]);
            }
        }
    }
}

/// A function read back from a listing has no cycle: each of its edges goes
/// from a node to a node read before it, and its output node is one of its
/// nodes.
pub proof fn lemma_listing_acyclic<N: FunctionNode, NodeMeta>(ls: Seq<(Seq<usize>, N, Seq<usize>, NodeMeta, usize)>)
    requires
        ls.len() < usize::MAX,
    ensures
        read_listing(ls) matches Ok((st, o, n)) ==> (forall|i: int|
            0 <= i < st.edges.len() ==> (#[trigger] st.edges[i] matches Some((a, b, w)) && b < a < st.nodes.len()))
            && o < st.nodes.len(),
{
    if ls.len() > 0 && ls[0].1.input_node() {
        let st0 = ListingState {
            nodes: seq![N::the_input()],
            edges: Seq::<Option<(usize, usize, (usize, usize))>>::empty(),
            metas: Map::<usize, NodeMeta>::empty().insert(0usize, ls[0].3),
            spans: Map::<usize, usize>::empty().insert(0usize, ls[0].4),
            idents: bind_idents(Map::empty(), ls[0].0, 0),
        };
        lemma_bind_below(Map::empty(), ls[0].0, 0, 1);
        lemma_read_lines_backward(ls, 1, st0);
    }
}

/// Binds the outputs of node `node`, in order, to the identifiers `outs`.
fn bind_outputs(idents: &mut HashMap<usize, (usize, usize)>, outs: &Vec<usize>, node: usize)
    ensures
        final(idents)@ == bind_idents(old(idents)@, outs@, node),
{
    let ghost m0 = idents@;
    let mut i: usize = 0;
    assert(outs@.take(0) =~= seq![]);
    while i < outs.len()
        invariant
            i <= outs.len(),
            idents@ == bind_idents(m0, outs@.take(i as int), node),
        decreases outs.len() - i,
    {
        idents.insert(outs[i], (node, i));
        proof {
            assert(outs@.take(i + 1).drop_last() =~= outs@.take(i as int));
        }
        i = i + 1;
    }
    assert(outs@.take(i as int) =~= outs@);
}

impl<Meta, N: FunctionNode, NodeMeta> Function<Meta, N, NodeMeta> {
    /// Reads a function back from its listing: the function's `meta` and its
    /// lines, the input line first and an output line last. Lines after the
    /// first output line are not read. The input node is made anew; each
    /// other line adds its node, in order, with an edge for each identifier
    /// it reads to the node and output that made it.
    pub fn try_from(data: (Meta, Vec<Line<N, NodeMeta>>)) -> (r: Result<Self, FunctionDeserializeError>)
        requires
            data.1.len() < u32::MAX,
            reads_total(lines_view(data.1@), data.1.len() as nat) < u32::MAX,
        ensures
            read_listing(lines_view(data.1@)) matches Err(e) ==> r == Err::<Self, FunctionDeserializeError>(e),
            read_listing(lines_view(data.1@)) matches Ok((st, o, n)) ==> r matches Ok(f) && f.meta == data.0
                && f.nodes@ == st.nodes && graph_nodes(f.graph) == Seq::new(st.nodes.len(), |i: int| Some(i as usize))
                && graph_edges(f.graph) == st.edges && f.node_metas@ == st.metas && f.spans@ == st.spans
                && f.input_idx == 0 && f.output_idx == o && f.args == lines_view(data.1@)[0].0.len() && f.outs == n,
    {
        let (meta, mut lines) = data;
        let ghost ls = lines_view(lines@);
        let len = lines.len();
        // the lines in reverse order, so that popping gives them in order
        let mut rev: Vec<Line<N, NodeMeta>> = Vec::new();
        while lines.len() > 0
            invariant
                lines.len() + rev.len() == len,
                len == ls.len(),
                forall|i: int| 0 <= i < lines.len() ==> line_view(#[trigger] lines@[i]) == ls[i],
                forall|i: int| 0 <= i < rev.len() ==> line_view(#[trigger] rev@[i]) == ls[len - 1 - i],
            decreases lines.len(),
        {
            let l = lines.pop().unwrap();
            rev.push(l);
        }
        if rev.len() == 0 {
            return Err(FunctionDeserializeError::MissingInput);
        }
        let (in_outs, in_node, _in_reads, in_meta, in_span) = rev.pop().unwrap();
        if !in_node.is_input() {
            return Err(FunctionDeserializeError::MissingInput);
        }
        let mut graph = graph_new();
        let first = graph_add_node(&mut graph, 0);
        assert(first == 0);
        let mut nodes: Vec<N> = Vec::new();
        nodes.push(N::input());
        let mut node_metas: HashMap<usize, NodeMeta> = HashMap::new();
        node_metas.insert(0, in_meta);
        let mut spans: HashMap<usize, usize> = HashMap::new();
        spans.insert(0, in_span);
        let mut idents: HashMap<usize, (usize, usize)> = HashMap::new();
        bind_outputs(&mut idents, &in_outs, 0);
        let args = in_outs.len();
        let ghost mut st = ListingState {
            nodes: seq![N::the_input()],
            edges: Seq::<Option<(usize, usize, (usize, usize))>>::empty(),
            metas: Map::<usize, NodeMeta>::empty().insert(0usize, ls[0].3),
            spans: Map::<usize, usize>::empty().insert(0usize, ls[0].4),
            idents: bind_idents(Map::empty(), ls[0].0, 0),
        };
        proof {
            lemma_bind_below(Map::empty(), ls[0].0, 0, 1);
            assert(graph_nodes(graph) =~= Seq::new(1, |i: int| Some(i as usize)));
            assert(nodes@ =~= st.nodes);
        }
        let mut k: usize = 1;
        while rev.len() > 0
            invariant
                1 <= k <= len,
                len == ls.len(),
                len < u32::MAX,
                reads_total(ls, len as nat) < u32::MAX,
                rev.len() == len - k,
                forall|i: int| 0 <= i < rev.len() ==> line_view(#[trigger] rev@[i]) == ls[len - 1 - i],
                args == ls[0].0.len(),
                st.nodes.len() == k,
                nodes@ == st.nodes,
                graph_nodes(graph) == Seq::new(k as nat, |i: int| Some(i as usize)),
                graph_edges(graph) == st.edges,
                st.edges.len() <= reads_total(ls, k as nat),
                forall|i: int| 0 <= i < st.edges.len() ==> #[trigger] st.edges[i] is Some,
                node_metas@ == st.metas,
                spans@ == st.spans,
                idents@ == st.idents,
                forall|id: usize| st.idents.dom().contains(id) ==> #[trigger] st.idents[id].0 < k,
                read_listing(ls) == read_lines(ls, k as nat, st),
                meta == data.0,
                ls == lines_view(data.1@),
            decreases rev.len(),
        {
            let (outs, node, reads, nmeta, span) = rev.pop().unwrap();
            let ghost l = ls[k as int];
            assert(l == (outs@, node, reads@, nmeta, span));
            proof {
                lemma_reads_total_mono(ls, (k + 1) as nat, len as nat);
                assert(reads_total(ls, (k + 1) as nat) == reads_total(ls, k as nat) + reads@.len());
            }
            let is_out = node.is_output();
            let idx = graph_add_node(&mut graph, k);
            assert(idx == k);
            nodes.push(node);
            node_metas.insert(k, nmeta);
            spans.insert(k, span);
            let ghost g_nodes = graph_nodes(graph);
            assert(g_nodes =~= Seq::new((k + 1) as nat, |i: int| Some(i as usize)));
            let mut j: usize = 0;
            assert(read_edges(st.idents, reads@.take(0), k) =~= seq![]);
            assert(st.edges + read_edges(st.idents, reads@.take(0), k) =~= st.edges);
            while j < reads.len()
                invariant
                    j <= reads.len(),
                    k < len < u32::MAX,
                    graph_nodes(graph) == g_nodes,
                    g_nodes == Seq::new((k + 1) as nat, |i: int| Some(i as usize)),
                    graph_edges(graph) == st.edges + read_edges(st.idents, reads@.take(j as int), k),
                    forall|i: int| 0 <= i < st.edges.len() ==> #[trigger] st.edges[i] is Some,
                    st.edges.len() + reads@.len() < u32::MAX,
                    idents@ == st.idents,
                    forall|id: usize| st.idents.dom().contains(id) ==> #[trigger] st.idents[id].0 < k,
                    forall|jj: int| 0 <= jj < j ==> st.idents.dom().contains(#[trigger] reads@[jj]),
                    k < ls.len(),
                    ls[k as int].2 == reads@,
                    read_listing(ls) == read_lines(ls, k as nat, st),
                    ls == lines_view(data.1@),
                decreases reads.len() - j,
            {
                let id = reads[j];
                match idents.get(&id) {
                    None => {
                        proof {
                            lemma_first_unknown_at(st.idents, reads@, j as int);
                        }
                        return Err(FunctionDeserializeError::UnknownIdent(id));
                    },
                    Some(src) => {
                        let (src_node, out_i) = *src;
                        let ghost before = graph_edges(graph);
                        proof {
                            assert forall|i: int| 0 <= i < before.len() implies #[trigger] before[i] is Some by {
                                if i >= st.edges.len() {
                                    assert(before[i] == read_edges(st.idents, reads@.take(j as int), k)[i - st.edges.len()]);
                                }
                            }
                        }
                        graph_add_edge(&mut graph, k, src_node, (out_i, j));
                        proof {
                            assert(reads@.take(j + 1).take(j as int) =~= reads@.take(j as int));
                            assert(graph_edges(graph) =~= st.edges + read_edges(st.idents, reads@.take(j + 1), k));
                        }
                    },
                }
                j = j + 1;
            }
            assert(reads@.take(j as int) =~= reads@);
            proof {
                lemma_first_unknown_none(st.idents, reads@);
            }
            bind_outputs(&mut idents, &outs, k);
            let ghost st2 = ListingState {
                nodes: st.nodes.push(l.1),
                edges: st.edges + read_edges(st.idents, l.2, k),
                metas: st.metas.insert(k, l.3),
                spans: st.spans.insert(k, l.4),
                idents: bind_idents(st.idents, l.0, k),
            };
            proof {
                lemma_bind_below(st.idents, l.0, k, (k + 1) as nat);
                assert(nodes@ =~= st2.nodes);
                assert forall|i: int| 0 <= i < st2.edges.len() implies #[trigger] st2.edges[i] is Some by {
                    if i >= st.edges.len() {
                        assert(st2.edges[i] == read_edges(st.idents, l.2, k)[i - st.edges.len()]);
                    }
                }
            }
            if is_out {
                proof {
                    assert(read_lines(ls, k as nat, st) == Ok::<_, FunctionDeserializeError>((st2, k, l.2.len() as usize)));
                }
                let f = Function {
                    meta,
                    graph,
                    nodes,
                    input_idx: 0,
                    output_idx: k,
                    args,
                    outs: reads.len(),
                    node_metas,
                    spans,
                };
                return Ok(f);
            }
            proof {
                assert(read_lines(ls, k as nat, st) == read_lines(ls, (k + 1) as nat, st2));
                st = st2;
            }
            k = k + 1;
        }
        Err(FunctionDeserializeError::MissingOutupt)
    }
}

} // verus!
