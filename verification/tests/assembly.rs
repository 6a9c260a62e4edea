use venturi::ast::{DagWire, Expr, FuncDef, InputDecl, NodeKind, OutputDecl, Stmt, VtFile, VtType};
use venturi::bytecode::{Instruction, Value};
use venturi::chassis::assemble_chassis;
use venturi::order::{nodes_for, wires_of};
use venturi::vm::Bindings;

fn file(van: Option<&str>, ret: Option<i64>, wires: &[(&str, &str)]) -> VtFile {
    let mut vt = VtFile::new(NodeKind::Plane);
    vt.van = van.map(|v| v.to_string());
    if let Some(n) = ret {
        vt.func = Some(FuncDef { name: "f".to_string(), params: vec![], body: vec![Stmt::Return(Expr::IntLit(n))] });
    }
    for (a, b) in wires {
        vt.dag_wires.push(DagWire { from: a.to_string(), to: b.to_string() });
    }
    vt
}

#[test]
fn chassis_gathers_every_file() {
    let mut a = file(Some("@core"), Some(1), &[("a", "b")]);
    a.inputs.push(InputDecl { name: "x".to_string(), ty: VtType::Int, default: None });
    let mut b = file(None, None, &[]);
    b.outputs.push(OutputDecl { name: "y".to_string(), ty: VtType::Custom("Frame".to_string()) });
    let c = file(Some("@edge"), Some(2), &[("b", "c")]);
    let files = vec![("a".to_string(), a), ("b".to_string(), b), ("c".to_string(), c)];
    let v = assemble_chassis(&files);
    assert_eq!(v.interface.inputs.len(), 1);
    assert_eq!(v.interface.inputs[0].name, "x");
    assert_eq!(v.interface.inputs[0].ty, "Int");
    assert_eq!(v.interface.outputs[0].ty, "Frame");
    assert_eq!(v.permissions.allowed_vans, vec!["@core".to_string(), "@edge".to_string()]);
    assert_eq!(v.graph.nodes, vec!["a".to_string(), "b".to_string(), "c".to_string()]);
    assert_eq!(v.graph.edges.len(), 2);
    assert_eq!(v.graph.edges[1].from, "b");
    assert_eq!(v.graph.entry, "a");
    assert_eq!(v.graph.exit, "c");
    assert_eq!(v.bytecode.len(), 4);
    assert!(matches!(v.bytecode[0], Instruction::Push(Value::Int(1))));
    assert!(matches!(v.bytecode[2], Instruction::Push(Value::Int(2))));
}

#[test]
fn empty_chassis() {
    let v = assemble_chassis(&vec![]);
    assert_eq!(v.graph.entry, "");
    assert_eq!(v.graph.exit, "");
    assert!(v.bytecode.is_empty());
}

#[test]
fn wires_and_nodes_for_emitting() {
    let files = vec![
        ("a".to_string(), file(None, None, &[("a", "b")])),
        ("b".to_string(), file(None, None, &[("b", "c"), ("x", "y")])),
        ("b".to_string(), file(Some("@dup"), None, &[])),
    ];
    let w = wires_of(&files);
    assert_eq!(w, vec![
        ("a".to_string(), "b".to_string()),
        ("b".to_string(), "c".to_string()),
        ("x".to_string(), "y".to_string()),
    ]);
    let order = vec!["b".to_string(), "zzz".to_string(), "a".to_string()];
    let nodes = nodes_for(&order, &files);
    assert_eq!(nodes.len(), 2);
    assert_eq!(nodes[0].0, "b");
    assert!(nodes[0].1.van.is_none());
    assert_eq!(nodes[1].0, "a");
}

#[test]
fn bindings_keep_first_binding_order() {
    let mut b = Bindings::new();
    b.insert("z".to_string(), Value::Int(1));
    b.insert("a".to_string(), Value::Int(2));
    b.insert("z".to_string(), Value::Int(3));
    let (k0, v0) = b.entry_at(0);
    let (k1, v1) = b.entry_at(1);
    assert_eq!((k0.as_str(), v0), ("z", &Value::Int(3)));
    assert_eq!((k1.as_str(), v1), ("a", &Value::Int(2)));
}
