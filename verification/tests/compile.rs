use static_graph::codegen::{FieldInit, GraphContract};
use static_graph::codegen::ty::CodegenTy;
use static_graph::compile_source;
use static_graph::planner::schedule::NodeRole;
use static_graph::planner::PlanError;
use static_graph::symbol::DefId;
use static_graph::CompileError;

fn id_of(symbols: &[String], name: &str) -> DefId {
    for (i, s) in symbols.iter().enumerate() {
        if s == name {
            return DefId(i);
        }
    }
    panic!("name not interned: {name}");
}

const EXAMPLE: &str = r#"
node E -> (X, Y) {
    #[default = "crate::Custom::new"]
    custom: crate::Custom,
}

node X -> O {
    x: list<string>,
}

node Y -> O {
    y: map<i32, string>,
}

node O {
    #[default = "String::new", editable = "true"]
    o: string,
}

graph G(E)
"#;

#[test]
fn test_end_to_end_layers() {
    // planning E -> (X, Y), X -> O, Y -> O must yield the layers [E],
    // [X, Y], [O], with O the unique inline exit receiving X's and Y's
    // responses in that order
    let c = compile_source(EXAMPLE).unwrap();
    assert_eq!(c.contracts.len(), 1);
    let gc: &GraphContract = &c.contracts[0];
    let e = id_of(&c.symbols, "E");
    let x = id_of(&c.symbols, "X");
    let y = id_of(&c.symbols, "Y");
    let o = id_of(&c.symbols, "O");
    assert_eq!(gc.entry_id, e);
    assert_eq!(gc.layers, vec![vec![e], vec![x, y], vec![o]]);
    assert_eq!(gc.exit, o);
    let o_node = gc.nodes.iter().find(|n| n.def_id == o).unwrap();
    assert_eq!(o_node.predecessors, vec![x, y]);
    assert_eq!(o_node.pred_camel_names, vec!["X".to_string(), "Y".to_string()]);
    assert_eq!(o_node.role, NodeRole::InlineExit);
    let inline: Vec<_> = gc.nodes.iter().filter(|n| n.role == NodeRole::InlineExit).collect();
    assert_eq!(inline.len(), 1);
    let spawned: Vec<_> = gc.nodes.iter().filter(|n| n.role == NodeRole::Spawned).collect();
    assert_eq!(spawned.len(), 3);
}

#[test]
fn test_end_to_end_names_and_fields() {
    let c = compile_source(EXAMPLE).unwrap();
    let gc = &c.contracts[0];
    assert_eq!(gc.graph_camel, "G");
    assert_eq!(gc.entry_snake, "e");
    assert_eq!(gc.entry_camel, "E");
    let e = id_of(&c.symbols, "E");
    let e_node = gc.nodes.iter().find(|n| n.def_id == e).unwrap();
    assert_eq!(e_node.access_path, vec!["self".to_string(), "e".to_string()]);
    assert_eq!(e_node.succ_snake_names, vec!["x".to_string(), "y".to_string()]);
    assert_eq!(e_node.fields.len(), 1);
    assert_eq!(e_node.fields[0].name, "custom");
    match &e_node.fields[0].init {
        FieldInit::Constructed(p) => assert_eq!(p, "crate::Custom::new"),
        other => panic!("unexpected init: {other:?}"),
    }
    // O is editable: its field is the shared cell, published from the
    // declared constructor
    let o = id_of(&c.symbols, "O");
    let o_node = gc.nodes.iter().find(|n| n.def_id == o).unwrap();
    assert_eq!(o_node.fields[0].name, "o");
    assert!(matches!(o_node.fields[0].ty, CodegenTy::ArcSwap(_)));
    match &o_node.fields[0].init {
        FieldInit::SharedConstructed(p) => assert_eq!(p, "String::new"),
        other => panic!("unexpected init: {other:?}"),
    }
    // X hangs off E in the discovery tree
    let x = id_of(&c.symbols, "X");
    let x_node = gc.nodes.iter().find(|n| n.def_id == x).unwrap();
    assert_eq!(
        x_node.access_path,
        vec!["self".to_string(), "e".to_string(), "x".to_string()]
    );
}

#[test]
fn test_case_conversion_changes_names() {
    let c = compile_source("node FooBar { }\ngraph MyGraph(FooBar)").unwrap();
    let gc = &c.contracts[0];
    assert_eq!(gc.entry_snake, "foo_bar");
    assert_eq!(gc.entry_camel, "FooBar");
    assert_eq!(gc.graph_camel, "MyGraph");
}

#[test]
fn test_trailing_junk_is_fatal() {
    let r = compile_source("node A { }\ngraph G(A)\n???");
    assert!(matches!(r.unwrap_err(), CompileError::Parse(_)));
}

#[test]
fn test_undeclared_entry_is_fatal() {
    let r = compile_source("graph G(Missing)");
    match r.unwrap_err() {
        CompileError::Plan(PlanError::UnknownNode(_)) => {}
        other => panic!("unexpected error: {other:?}"),
    }
}

#[test]
fn test_cycle_is_fatal_end_to_end() {
    let src = "node E -> A { }\nnode A -> B { }\nnode B -> A { }\ngraph G(E)";
    let r = compile_source(src);
    assert!(matches!(r.unwrap_err(), CompileError::Plan(PlanError::ResidualInDegree)));
}

#[test]
fn test_duplicate_exit_is_fatal_end_to_end() {
    let src = "node E -> (X, Y) { }\nnode X { }\nnode Y { }\ngraph G(E)";
    let r = compile_source(src);
    assert!(matches!(r.unwrap_err(), CompileError::Plan(PlanError::DuplicateExit)));
}

#[test]
fn test_entry_incoming_is_fatal_end_to_end() {
    let src = "node A -> B { }\nnode B -> A { }\ngraph G(A)";
    let r = compile_source(src);
    assert!(matches!(r.unwrap_err(), CompileError::Plan(PlanError::EntryHasIncoming)));
}

#[test]
fn test_interning_is_stable() {
    // identical text resolves to the identical id: the forward reference
    // to O and its declaration share one id
    let c = compile_source("node A -> O { }\nnode O { }\ngraph G(A)").unwrap();
    let o_count = c.symbols.iter().filter(|s| s.as_str() == "O").count();
    assert_eq!(o_count, 1);
}

#[test]
fn test_compile_deterministic() {
    let c1 = compile_source(EXAMPLE).unwrap();
    let c2 = compile_source(EXAMPLE).unwrap();
    assert_eq!(c1.symbols, c2.symbols);
    assert_eq!(c1.entrys, c2.entrys);
    let s1: Vec<usize> = c1.contracts[0].nodes.iter().map(|n| n.def_id.0).collect();
    let s2: Vec<usize> = c2.contracts[0].nodes.iter().map(|n| n.def_id.0).collect();
    assert_eq!(s1, s2);
    assert_eq!(c1.contracts[0].layers, c2.contracts[0].layers);
}

#[test]
fn test_two_graphs_compile_independently() {
    let src = "node A -> B { }\nnode B { }\nnode C -> D { }\nnode D { }\ngraph G(A)\ngraph H(C)";
    let c = compile_source(src).unwrap();
    assert_eq!(c.contracts.len(), 2);
    let a = id_of(&c.symbols, "A");
    let c_id = id_of(&c.symbols, "C");
    assert_eq!(c.contracts[0].entry_id, a);
    assert_eq!(c.contracts[1].entry_id, c_id);
    assert_eq!(c.contracts[0].nodes.len(), 2);
    assert_eq!(c.contracts[1].nodes.len(), 2);
}

#[test]
fn test_one_bad_graph_aborts_document() {
    let src = "node A -> B { }\nnode B { }\nnode C -> C { }\ngraph G(A)\ngraph H(C)";
    let r = compile_source(src);
    assert!(matches!(r.unwrap_err(), CompileError::Plan(_)));
}

#[test]
fn test_last_declaration_wins() {
    let src = "node A -> B { }\nnode B -> C { }\nnode A -> C { }\nnode C { }\ngraph G(A)";
    let c = compile_source(src).unwrap();
    let gc = &c.contracts[0];
    let a = id_of(&c.symbols, "A");
    let b = id_of(&c.symbols, "B");
    let c_id = id_of(&c.symbols, "C");
    // the later declaration of A replaced the earlier one: A -> C, so B is
    // never reached
    let sched: Vec<DefId> = gc.nodes.iter().map(|n| n.def_id).collect();
    assert_eq!(sched, vec![a, c_id]);
    assert!(!sched.contains(&b));
}
