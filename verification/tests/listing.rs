use petgraph::stable_graph::NodeIndex;
use petgraph::visit::{EdgeRef, IntoEdgeReferences};
use uiua_native::generic_ir::{Function, FunctionDeserializeError, FunctionNode};
use uiua_native::hir::{Node, Prim};

type Line = (Vec<usize>, Node, Vec<usize>, (), usize);

fn read(lines: Vec<Line>) -> Result<Function<(), Node, ()>, FunctionDeserializeError> {
    Function::try_from(((), lines))
}

fn weights(f: &Function<(), Node, ()>, a: usize, b: usize) -> Vec<(usize, usize)> {
    let mut w: Vec<(usize, usize)> = f
        .graph
        .edges_connecting(NodeIndex::new(a), NodeIndex::new(b))
        .map(|e| *e.weight())
        .collect();
    w.sort();
    w
}

#[test]
fn listing_reads_back_into_a_graph() {
    let lines = vec![
        (vec![10, 11], Node::Input, vec![], (), 5),
        (vec![12], Node::FuncPrim(Prim::Other(3)), vec![11, 10], (), 6),
        (vec![], Node::Output, vec![12], (), 7),
    ];
    let f = read(lines).unwrap();
    assert_eq!(f.input_idx, 0);
    assert_eq!(f.output_idx, 2);
    assert_eq!(f.args_count(), 2);
    assert_eq!(f.outs_count(), 1);
    assert_eq!(f.nodes.len(), 3);
    assert!(f.nodes[0].is_input());
    assert!(f.nodes[2].is_output());
    assert!(matches!(f.nodes[1], Node::FuncPrim(Prim::Other(3))));
    assert_eq!(f.graph.node_count(), 3);
    assert_eq!(f.graph.edge_count(), 3);
    // node 1 reads the input's second output first, then its first
    assert_eq!(weights(&f, 1, 0), vec![(0, 1), (1, 0)]);
    assert_eq!(weights(&f, 2, 1), vec![(0, 0)]);
    assert_eq!(f.spans.get(&0), Some(&5));
    assert_eq!(f.spans.get(&1), Some(&6));
    assert_eq!(f.spans.get(&2), Some(&7));
    assert_eq!(f.node_metas.len(), 3);
}

#[test]
fn lines_after_the_output_are_not_read() {
    let lines = vec![
        (vec![0], Node::Input, vec![], (), 0),
        (vec![], Node::Output, vec![0, 0], (), 1),
        (vec![], Node::Call(4), vec![99], (), 2),
    ];
    let f = read(lines).unwrap();
    assert_eq!(f.output_idx, 1);
    assert_eq!(f.outs_count(), 2);
    assert_eq!(f.nodes.len(), 2);
    assert_eq!(weights(&f, 1, 0), vec![(0, 0), (0, 1)]);
}

#[test]
fn a_later_binding_replaces_an_earlier_one() {
    let lines = vec![
        (vec![0], Node::Input, vec![], (), 0),
        (vec![0], Node::Constant(1), vec![], (), 0),
        (vec![], Node::Output, vec![0], (), 0),
    ];
    let f = read(lines).unwrap();
    assert_eq!(weights(&f, 2, 1), vec![(0, 0)]);
    assert!(weights(&f, 2, 0).is_empty());
}

#[test]
fn missing_input_line() {
    assert!(matches!(read(vec![]), Err(FunctionDeserializeError::MissingInput)));
    let lines = vec![(vec![], Node::Output, vec![], (), 0)];
    assert!(matches!(read(lines), Err(FunctionDeserializeError::MissingInput)));
}

#[test]
fn missing_output_line() {
    let lines = vec![
        (vec![0], Node::Input, vec![], (), 0),
        (vec![1], Node::Call(0), vec![0], (), 0),
    ];
    assert!(matches!(read(lines), Err(FunctionDeserializeError::MissingOutupt)));
}

#[test]
fn unknown_identifier() {
    let lines = vec![
        (vec![0], Node::Input, vec![], (), 0),
        (vec![1], Node::Call(0), vec![0, 9, 8], (), 0),
        (vec![], Node::Output, vec![1], (), 0),
    ];
    assert!(matches!(read(lines), Err(FunctionDeserializeError::UnknownIdent(9))));
}

#[test]
fn node_kinds_make_their_input_and_output() {
    assert!(Node::input().is_input());
    assert!(!Node::input().is_output());
    assert!(Node::output().is_output());
    assert!(uiua_native::tir::Node::input().is_input());
    assert!(uiua_native::tir::Node::output().is_output());
    assert!(!uiua_native::tir::Node::Call(0).is_input());
}

#[test]
fn read_back_edges_point_to_earlier_nodes() {
    let lines = vec![
        (vec![0, 1, 2], Node::Input, vec![], (), 0),
        (vec![3], Node::Call(1), vec![2, 0], (), 0),
        (vec![4, 5], Node::FuncPrim(Prim::Dup), vec![3], (), 0),
        (vec![6], Node::Call(2), vec![5, 1, 4], (), 0),
        (vec![], Node::Output, vec![6, 3], (), 0),
    ];
    let f = read(lines).unwrap();
    assert_eq!(f.graph.edge_count(), 8);
    for e in f.graph.edge_references() {
        assert!(e.target().index() < e.source().index());
    }
    assert!(f.output_idx < f.nodes.len());
}
