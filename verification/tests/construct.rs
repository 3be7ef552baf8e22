use uiua_native::analysis::construct::{construct_tir, PrimKind};
use uiua_native::analysis::error::ErrorKind;
use uiua_native::analysis::impls::comparison::Comparison;
use uiua_native::analysis::UValue;
use uiua_native::data_flow::{construct_hir, Assembly, BindingInfo, BindingKind, NodeKind, Signature, UiuaNode};
use uiua_native::hir::Prim;
use uiua_native::tir::{Node, ScalarInfo, TirOp, ValueInfo};

fn node(args: usize, outputs: usize, kind: NodeKind) -> UiuaNode {
    UiuaNode { sig: Ok(Signature { args, outputs }), kind }
}

fn push(c: usize) -> UiuaNode {
    node(0, 1, NodeKind::Push(c))
}

fn prim(q: u16) -> UiuaNode {
    node(1, 1, NodeKind::Prim(Prim::Other(q), 2))
}

fn call(f: usize) -> UiuaNode {
    node(1, 1, NodeKind::Call(f, 4))
}

fn scalar(v: &ValueInfo) -> ScalarInfo {
    match v {
        ValueInfo::Scalar(s) => *s,
        other => panic!("expected a scalar, got {other:?}"),
    }
}

#[test]
fn main_function_is_typed_node_by_node() {
    let uasm = Assembly {
        bindings: vec![],
        functions: vec![],
        root: node(0, 1, NodeKind::Run(vec![push(0), prim(0)])),
        root_span: 1,
        spans: vec!["main.ua:1:1".to_string()],
        files: vec![("main.ua".to_string(), "± ¯2.5".to_string())],
    };
    let hir = construct_hir(&uasm).unwrap();
    let constants = vec![UValue::Num((-2.5f64).to_bits())];
    let mut nvars: usize = 0;
    let tir = construct_tir(&hir, &constants, &vec![PrimKind::Sign], &mut nvars).unwrap();
    assert!(tir.bindings.is_empty());
    let (main, span) = tir.main.unwrap();
    assert_eq!(span, 1);
    assert_eq!(main.args_count(), 0);
    assert_eq!(main.outs_count(), 1);
    assert!(matches!(scalar(&main.meta.outputs[0]), ScalarInfo::Int(Some(-1), false)));
    assert!(main.nodes.iter().any(|n| matches!(n, Node::Constant(ValueInfo::Scalar(ScalarInfo::Float(Some(_)))))));
    assert_eq!(main.node_metas.len(), main.nodes.len());
    assert_eq!(tir.spans, vec!["main.ua:1:1".to_string()]);
    assert_eq!(tir.files, vec![("main.ua".to_string(), "± ¯2.5".to_string())]);
}

#[test]
fn calls_are_monomorphized_once_per_argument_type() {
    let uasm = Assembly {
        bindings: vec![BindingInfo { kind: BindingKind::Func(0), span: 3, func_id: 7, hash: 99 }],
        functions: vec![prim(0)],
        root: node(0, 2, NodeKind::Run(vec![push(0), call(7), push(1), call(7)])),
        root_span: 0,
        spans: vec![],
        files: vec![],
    };
    let hir = construct_hir(&uasm).unwrap();
    let constants = vec![UValue::Num(5.0f64.to_bits()), UValue::Num(3.0f64.to_bits())];
    let mut nvars: usize = 0;
    let tir = construct_tir(&hir, &constants, &vec![PrimKind::Negate], &mut nvars).unwrap();
    // both calls pass an integer, so one monomorphization serves both
    assert_eq!(tir.bindings.len(), 1);
    assert_eq!(tir.bindings[0].func_id, 7);
    assert_eq!(tir.bindings[0].hash, 99);
    assert!(matches!(scalar(&tir.bindings[0].func.meta.inputs[0]), ScalarInfo::Int(None, false)));
    let (main, _) = tir.main.unwrap();
    assert_eq!(main.outs_count(), 2);
    assert!(matches!(scalar(&main.meta.outputs[0]), ScalarInfo::Int(None, false)));
    assert!(main.nodes.iter().filter(|n| matches!(n, Node::Call(0))).count() == 2);
}

#[test]
fn rounding_a_character_is_an_error() {
    let uasm = Assembly {
        bindings: vec![],
        functions: vec![],
        root: node(0, 1, NodeKind::Run(vec![push(0), prim(0)])),
        root_span: 0,
        spans: vec![],
        files: vec![],
    };
    let hir = construct_hir(&uasm).unwrap();
    let constants = vec![UValue::Char('a')];
    let mut nvars: usize = 0;
    let r = construct_tir(&hir, &constants, &vec![PrimKind::Floor], &mut nvars);
    assert_eq!(r.err(), Some(ErrorKind::ExpectedNumber("floor", "character".to_string())));
}

#[test]
fn a_program_without_top_level_code_has_no_main() {
    let uasm = Assembly { bindings: vec![], functions: vec![], root: node(0, 0, NodeKind::Run(vec![])), root_span: 0, spans: vec![], files: vec![] };
    let hir = construct_hir(&uasm).unwrap();
    let mut nvars: usize = 3;
    let tir = construct_tir(&hir, &vec![], &vec![], &mut nvars).unwrap();
    assert!(tir.main.is_none());
    assert!(tir.bindings.is_empty());
    assert_eq!(nvars, 3);
}

#[test]
fn comparisons_get_their_casts_as_nodes() {
    let cmp = node(2, 1, NodeKind::Prim(Prim::Other(0), 5));
    let uasm = Assembly {
        bindings: vec![],
        functions: vec![],
        root: node(0, 1, NodeKind::Run(vec![push(0), push(1), cmp])),
        root_span: 0,
        spans: vec![],
        files: vec![],
    };
    let hir = construct_hir(&uasm).unwrap();
    let hir_nodes = hir.main.as_ref().unwrap().0.nodes.len();
    let constants = vec![UValue::Num(3.0f64.to_bits()), UValue::Num(2.5f64.to_bits())];
    let mut nvars: usize = 0;
    let tir = construct_tir(&hir, &constants, &vec![PrimKind::Compare(Comparison::Equals)], &mut nvars).unwrap();
    let (main, _) = tir.main.unwrap();
    // the integer is cast to a float by a node of its own
    assert_eq!(main.nodes.len(), hir_nodes + 1);
    assert!(matches!(main.nodes[hir_nodes], Node::TirOp(TirOp::CastNum { from: ScalarInfo::Int(..), to: ScalarInfo::Float(_) })));
    assert!(matches!(scalar(&main.meta.outputs[0]), ScalarInfo::Bool(Some(false))));
    assert_eq!(main.node_metas.len(), main.nodes.len());
    // the comparison reads the cast node
    let reads_cast = main.graph.edge_indices().any(|e| main.graph.edge_endpoints(e).unwrap().1.index() == hir_nodes);
    assert!(reads_cast);
}

#[test]
fn comparing_incompatible_types_is_an_error() {
    let cmp = node(2, 1, NodeKind::Prim(Prim::Other(0), 5));
    let uasm = Assembly {
        bindings: vec![],
        functions: vec![],
        root: node(0, 1, NodeKind::Run(vec![push(0), push(1), cmp])),
        root_span: 0,
        spans: vec![],
        files: vec![],
    };
    let hir = construct_hir(&uasm).unwrap();
    let constants = vec![UValue::Char('a'), UValue::Num(2.5f64.to_bits())];
    let mut nvars: usize = 0;
    let r = construct_tir(&hir, &constants, &vec![PrimKind::Compare(Comparison::LessThan)], &mut nvars);
    assert!(matches!(r.err(), Some(ErrorKind::IncompatibleTypes(_, _, _))));
}
