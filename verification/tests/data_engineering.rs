use venturi::ast::{DagWire, InputDecl, NodeKind, OutputDecl, VtFile, VtType};
use venturi::graph::{Dag, DagNodeKind};
use venturi::validator::Validator;

#[test]
fn test_schema_enforcement_mismatch() {
    let mut dag = Dag::new();
    let validator = Validator::new();

    // Node A outputs a String
    let mut file_a = VtFile::new(NodeKind::Plane);
    file_a.outputs.push(OutputDecl { name: "out_data".to_string(), ty: VtType::Str });

    // Node B expects a DataFrame
    let mut file_b = VtFile::new(NodeKind::Plane);
    file_b.inputs.push(InputDecl { name: "out_data".to_string(), ty: VtType::DataFrame, default: None });

    file_a.dag_wires.push(DagWire { from: "Node_A".to_string(), to: "Node_B".to_string() });

    let node_a = dag.add_node("Node_A".to_string(), DagNodeKind::Module(file_a), None);
    let node_b = dag.add_node("Node_B".to_string(), DagNodeKind::Module(file_b), None);

    dag.add_edge(node_a, node_b).unwrap();

    let result = validator.validate_dag_types(&dag);
    assert!(result.is_err());

    let err_msg = result.unwrap_err().message();
    assert!(err_msg.contains("Type mismatch"));
    assert!(err_msg.contains("String"));
    assert!(err_msg.contains("DataFrame"));
}

fn module(outs: &[(&str, VtType)], ins: &[(&str, VtType)]) -> DagNodeKind {
    let mut vt = VtFile::new(NodeKind::Plane);
    for (n, t) in outs {
        vt.outputs.push(OutputDecl { name: n.to_string(), ty: t.clone() });
    }
    for (n, t) in ins {
        vt.inputs.push(InputDecl { name: n.to_string(), ty: t.clone(), default: None });
    }
    DagNodeKind::Module(vt)
}

#[test]
fn matching_types_pass_and_the_first_mismatch_is_named() {
    let v = Validator::new();
    let mut dag = Dag::new();
    let a = dag.add_node("a".to_string(), module(&[("x", VtType::Int), ("y", VtType::Custom("Frame".to_string()))], &[]), None);
    let b = dag.add_node("b".to_string(), module(&[], &[("x", VtType::Int), ("z", VtType::Bool)]), None);
    dag.add_edge(a, b).unwrap();
    assert!(v.validate_dag_types(&dag).is_ok());

    let c = dag.add_node("c".to_string(), module(&[], &[("y", VtType::Custom("Table".to_string())), ("x", VtType::Float)]), None);
    dag.add_edge(a, c).unwrap();
    let e = v.validate_dag_types(&dag).unwrap_err();
    assert_eq!(e.message(), "Validation error: Type mismatch on 'x': a outputs Int, c expects Float");

    // Unwired modules are not compared.
    let mut lone = Dag::new();
    lone.add_node("p".to_string(), module(&[("x", VtType::Int)], &[]), None);
    lone.add_node("q".to_string(), module(&[], &[("x", VtType::Str)]), None);
    assert!(v.validate_dag_types(&lone).is_ok());
}
