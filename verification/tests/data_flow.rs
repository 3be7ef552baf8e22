use petgraph::stable_graph::StableGraph;
use std::collections::HashMap;
use uiua_native::analysis::error::ErrorKind;
use uiua_native::analysis::impls::func::{call_input_types, find_monomorphization, instantiate_outputs, subst_cache};
use uiua_native::data_flow::{
    construct_hir, drain_top_n, simulate_data_flow, top_n, Assembly, BindingInfo, BindingKind, Error, NodeKind,
    SigNode, Signature, UiuaNode,
};
use uiua_native::generic_ir::Function;
use uiua_native::hir::{Node, Prim};
use uiua_native::mir::polynomial::Expr;
use uiua_native::tir::{ArrayInfo, Binding, FunctionMeta, ScalarInfo, ValueInfo};

fn node(args: usize, outputs: usize, kind: NodeKind) -> UiuaNode {
    UiuaNode { sig: Ok(Signature { args, outputs }), kind }
}

fn push(c: usize) -> UiuaNode {
    node(0, 1, NodeKind::Push(c))
}

fn prim(p: Prim, args: usize, outputs: usize, span: usize) -> UiuaNode {
    node(args, outputs, NodeKind::Prim(p, span))
}

const ADD: Prim = Prim::Other(1);

#[test]
fn top_and_drain() {
    assert_eq!(top_n(&[1, 2, 3, 4], 2), vec![3, 4]);
    assert_eq!(top_n(&[1, 2, 3, 4], 0), Vec::<i32>::new());
    let mut s = vec![1, 2, 3, 4];
    assert_eq!(drain_top_n(&mut s, 3), vec![2, 3, 4]);
    assert_eq!(s, vec![1]);
}

#[test]
fn simulating_a_sum_of_two_constants() {
    // 1 2 +  : two constants feed an addition, whose result is the output
    let program = node(0, 1, NodeKind::Run(vec![push(0), push(1), prim(ADD, 2, 1, 7)]));
    let f = simulate_data_flow(&program).unwrap();
    assert_eq!(f.nodes.len(), 5);
    assert!(matches!(f.nodes[0], Node::Input));
    assert!(matches!(f.nodes[1], Node::Output));
    assert!(matches!(f.nodes[2], Node::Constant(0)));
    assert!(matches!(f.nodes[3], Node::Constant(1)));
    assert!(matches!(f.nodes[4], Node::FuncPrim(Prim::Other(1))));
    assert_eq!(f.spans.get(&4), Some(&7));
    assert_eq!(f.node_metas.len(), 5);
    assert_eq!(f.args_count(), 0);
    assert_eq!(f.outs_count(), 1);
    // the addition reads the constant pushed last as its first input
    let mut edges: Vec<(usize, usize, (usize, usize))> = f
        .graph
        .edge_indices()
        .map(|e| {
            let (a, b) = f.graph.edge_endpoints(e).unwrap();
            (a.index(), b.index(), *f.graph.edge_weight(e).unwrap())
        })
        .collect();
    edges.sort();
    assert_eq!(edges, vec![(1, 4, (0, 0)), (4, 2, (0, 1)), (4, 3, (0, 0))]);
}

#[test]
fn arguments_come_from_the_input_node() {
    // flip: two arguments, returned swapped
    let program = prim(Prim::Flip, 2, 2, 0);
    let f = simulate_data_flow(&program).unwrap();
    assert_eq!(f.nodes.len(), 2);
    assert_eq!(f.args_count(), 2);
    assert_eq!(f.outs_count(), 2);
    // dup of one argument gives two outputs that read the same input
    let g = simulate_data_flow(&prim(Prim::Dup, 1, 2, 0)).unwrap();
    assert_eq!(g.args_count(), 1);
    assert_eq!(g.outs_count(), 2);
}

#[test]
fn unread_arguments_still_count() {
    // pop takes one argument and reads nothing of it
    let f = simulate_data_flow(&prim(Prim::Pop, 1, 0, 0)).unwrap();
    assert_eq!(f.args_count(), 1);
    assert_eq!(f.outs_count(), 0);
    // flip then pop: two arguments, the first one returned
    let program = node(2, 1, NodeKind::Run(vec![prim(Prim::Flip, 2, 2, 0), prim(Prim::Pop, 1, 0, 0)]));
    let g = simulate_data_flow(&program).unwrap();
    assert_eq!(g.args_count(), 2);
    assert_eq!(g.outs_count(), 1);
    assert_eq!(g.node_metas.len(), g.nodes.len());
}

#[test]
fn modifiers_rearrange_the_stack() {
    // dip(+) on three arguments: the top is kept aside, the two below are added
    let sig_node = SigNode { sig: Signature { args: 2, outputs: 1 }, node: prim(ADD, 2, 1, 3) };
    let program = node(3, 2, NodeKind::Mod(Prim::Dip, vec![sig_node], 0));
    let f = simulate_data_flow(&program).unwrap();
    assert_eq!(f.args_count(), 3);
    assert_eq!(f.outs_count(), 2);
    assert_eq!(f.nodes.len(), 3);
    // fork of two functions reuses the arguments for each
    let a = SigNode { sig: Signature { args: 2, outputs: 1 }, node: prim(ADD, 2, 1, 1) };
    let b = SigNode { sig: Signature { args: 1, outputs: 1 }, node: prim(Prim::Other(2), 1, 1, 2) };
    let fork = node(2, 2, NodeKind::Mod(Prim::Fork, vec![a, b], 0));
    let g = simulate_data_flow(&fork).unwrap();
    assert_eq!(g.nodes.len(), 4);
    assert_eq!(g.args_count(), 2);
    assert_eq!(g.outs_count(), 2);
}

#[test]
fn other_modifiers_become_nodes_with_functions() {
    let inner = SigNode { sig: Signature { args: 2, outputs: 1 }, node: prim(ADD, 2, 1, 1) };
    let program = node(1, 1, NodeKind::Mod(Prim::Other(40), vec![inner], 5));
    let f = simulate_data_flow(&program).unwrap();
    match &f.nodes[2] {
        Node::ModPrim(Prim::Other(40), fs) => {
            assert_eq!(fs.len(), 1);
            assert_eq!(fs[0].args_count(), 2);
        }
        _ => panic!("expected a modifier node"),
    }
}

#[test]
fn signature_errors_are_reported() {
    let bad = UiuaNode { sig: Err("bad signature".to_string()), kind: NodeKind::Label };
    match simulate_data_flow(&bad) {
        Err(Error::Other(m)) => assert_eq!(m, "bad signature"),
        _ => panic!("expected an error"),
    }
    let program = node(0, 0, NodeKind::Run(vec![push(0), node(1, 1, NodeKind::CustomInverse(Err("no inverse".to_string())))]));
    match simulate_data_flow(&program) {
        Err(Error::Other(m)) => assert_eq!(m, "no inverse"),
        _ => panic!("expected an error"),
    }
}

#[test]
fn building_the_hir_of_an_assembly() {
    let uasm = Assembly {
        bindings: vec![
            BindingInfo { kind: BindingKind::Const, span: 0, func_id: 0, hash: 0 },
            BindingInfo { kind: BindingKind::Func(0), span: 3, func_id: 9, hash: 77 },
        ],
        functions: vec![prim(ADD, 2, 1, 4)],
        root: node(0, 0, NodeKind::Run(vec![])),
        root_span: 0,
        spans: vec![],
        files: vec![],
    };
    let hir = construct_hir(&uasm).unwrap();
    assert_eq!(hir.bindings.len(), 1);
    assert_eq!(hir.bindings[0].span, 3);
    assert_eq!(hir.bindings[0].func_id, 9);
    assert_eq!(hir.bindings[0].hash, 77);
    assert_eq!(hir.bindings[0].func.args_count(), 2);
    assert!(hir.main.is_none());
    let uasm2 = Assembly {
        bindings: vec![],
        functions: vec![],
        root: push(3),
        root_span: 6,
        spans: vec!["a.ua:1:1".to_string()],
        files: vec![("a.ua".to_string(), "3".to_string())],
    };
    let hir2 = construct_hir(&uasm2).unwrap();
    let (main, span) = hir2.main.unwrap();
    assert_eq!(span, 6);
    assert_eq!(hir2.spans, vec!["a.ua:1:1".to_string()]);
    assert_eq!(hir2.files, vec![("a.ua".to_string(), "3".to_string())]);
    assert_eq!(main.outs_count(), 1);
}

fn empty_function(inputs: Vec<ValueInfo>) -> uiua_native::tir::Function {
    let inputs_len = inputs.len();
    Function {
        meta: FunctionMeta { inputs, outputs: vec![] },
        graph: StableGraph::new(),
        nodes: vec![],
        input_idx: 0,
        output_idx: 0,
        args: inputs_len,
        outs: 0,
        node_metas: HashMap::new(),
        spans: HashMap::new(),
    }
}

#[test]
fn finding_a_monomorphization_to_reuse() {
    let mut n: usize = 0;
    let v = Expr::new_var(&mut n);
    let ranked = ValueInfo::Array(Box::new(ArrayInfo::Ranked { element_type: ValueInfo::Scalar(ScalarInfo::Int(None, false)), shape: vec![v] }));
    let bindings = vec![
        Binding { span: 0, func_id: 1, hash: 5, func: empty_function(vec![ValueInfo::Scalar(ScalarInfo::Int(Some(3), false))]) },
        Binding { span: 0, func_id: 1, hash: 5, func: empty_function(vec![ranked]) },
    ];
    let y = Expr::new_var(&mut n);
    let arg = ValueInfo::Array(Box::new(ArrayInfo::Ranked {
        element_type: ValueInfo::Scalar(ScalarInfo::Int(Some(2), false)),
        shape: vec![y],
    }));
    let (i, substs) = find_monomorphization(&bindings, 5, &vec![arg.duplicate()]).unwrap();
    assert_eq!(i, 1);
    assert_eq!(substs.len(), 1);
    assert_eq!(substs[0].0, 0);
    assert_eq!(substs[0].1.as_single_var(), Some(1));
    // a constant axis does not match a variable axis of the function
    let fixed = ValueInfo::Array(Box::new(ArrayInfo::Ranked {
        element_type: ValueInfo::Scalar(ScalarInfo::Int(Some(2), false)),
        shape: vec![Expr::from_isize(4)],
    }));
    assert!(find_monomorphization(&bindings, 5, &vec![fixed]).is_none());
    assert!(find_monomorphization(&bindings, 6, &vec![arg.duplicate()]).is_none());
    assert!(find_monomorphization(&bindings, 5, &vec![]).is_none());
}

#[test]
fn call_input_types_and_output_instantiation() {
    let mut n: usize = 0;
    let x = Expr::new_var(&mut n);
    let arg = ValueInfo::Array(Box::new(ArrayInfo::Ranked { element_type: ValueInfo::Scalar(ScalarInfo::Int(Some(2), false)), shape: vec![x] }));
    let (types, substs) = call_input_types(&vec![arg, ValueInfo::Scalar(ScalarInfo::Bool(Some(true)))], &mut n).unwrap();
    assert_eq!(types.len(), 2);
    assert!(matches!(types[1], ValueInfo::Scalar(ScalarInfo::Bool(None))));
    assert_eq!(substs.len(), 1);
    assert_eq!(substs[0].0, 1);
    assert_eq!(substs[0].1.as_single_var(), Some(0));
    // the callee's output of shape [x1] becomes one of shape [x0] in the caller
    let mut cache = subst_cache(&substs);
    let out = ValueInfo::Array(Box::new(ArrayInfo::Ranked { element_type: ValueInfo::Scalar(ScalarInfo::Int(None, false)), shape: vec![Expr::new_var(&mut 1)] }));
    let outs = instantiate_outputs(&vec![out], &mut cache, &mut n);
    match &outs[0] {
        ValueInfo::Array(a) => match &**a {
            ArrayInfo::Ranked { shape, .. } => assert_eq!(shape[0].as_single_var(), Some(0)),
            _ => panic!(),
        },
        _ => panic!(),
    }
    let unranked = ValueInfo::Array(Box::new(ArrayInfo::Unranked {
        element_type: ValueInfo::Scalar(ScalarInfo::Int(None, false)),
        shape_prefix: vec![],
        shape_suffix: vec![],
    }));
    assert_eq!(call_input_types(&vec![unranked], &mut n).err(), Some(ErrorKind::Unranked("function call")));
}

#[test]
fn later_substitutions_replace_earlier_ones() {
    let substs = vec![(3, Expr::from_isize(1)), (3, Expr::from_isize(2))];
    let cache = subst_cache(&substs);
    assert_eq!(cache.len(), 1);
    assert_eq!(cache.get(&3).unwrap().as_const(), Some(2));
}
