use venturi::ast::{NodeKind, VtFile};
use venturi::error::VenturiError;
use venturi::graph::{Dag, DagNodeKind, PitState};
use venturi::order::topo_sort_names;

fn module() -> DagNodeKind {
    DagNodeKind::Module(VtFile::new(NodeKind::Plane))
}

fn diamond() -> (Dag, Vec<u32>) {
    let mut dag = Dag::new();
    let a = dag.add_node("a".to_string(), module(), None);
    let b = dag.add_node("b".to_string(), module(), None);
    let c = dag.add_node("c".to_string(), module(), Some("@core".to_string()));
    let d = dag.add_node("d".to_string(), module(), None);
    assert!(dag.add_edge(a, b).is_ok());
    assert!(dag.add_edge(a, c).is_ok());
    assert!(dag.add_edge(b, d).is_ok());
    assert!(dag.add_edge(c, d).is_ok());
    (dag, vec![a, b, c, d])
}

#[test]
fn ids_are_handed_out_in_order() {
    let (dag, ids) = diamond();
    assert_eq!(ids, vec![0, 1, 2, 3]);
    assert_eq!(dag.len(), 4);
    assert_eq!(dag.num_edges(), 4);
    assert_eq!(dag.node(2).unwrap().name, "c");
    assert_eq!(dag.node(2).unwrap().van, Some("@core".to_string()));
    assert!(dag.node(9).is_none());
}

#[test]
fn downstream_is_everything_reached() {
    let (dag, _) = diamond();
    // Depth first, successors in the order their edges were added.
    assert_eq!(dag.downstream(0), vec![1, 3, 2]);
    assert_eq!(dag.downstream(1), vec![3]);
    assert!(dag.downstream(3).is_empty());
    assert!(dag.downstream(42).is_empty());
}

#[test]
fn topological_order_respects_every_edge() {
    let (dag, _) = diamond();
    let order = dag.topological_order();
    assert_eq!(order.len(), 4);
    let pos = |x: u32| order.iter().position(|&y| y == x).unwrap();
    assert!(pos(0) < pos(1));
    assert!(pos(0) < pos(2));
    assert!(pos(1) < pos(3));
    assert!(pos(2) < pos(3));
    assert!(!dag.has_cycle());
}

#[test]
fn roots_and_lookup_by_name() {
    let (dag, _) = diamond();
    assert_eq!(dag.roots(), vec![0]);
    assert_eq!(dag.node_by_name("d"), Some(3));
    assert_eq!(dag.node_by_name("zz"), None);
}

#[test]
fn refused_edges_leave_the_dag_unchanged() {
    let (mut dag, _) = diamond();
    match dag.add_edge(3, 0) {
        Err(VenturiError::Cycle { node }) => assert_eq!(node, "d"),
        other => panic!("unexpected {:?}", other),
    }
    match dag.add_edge(1, 1) {
        Err(VenturiError::Cycle { node }) => assert_eq!(node, "b"),
        other => panic!("unexpected {:?}", other),
    }
    match dag.add_edge(0, 7) {
        Err(VenturiError::Vm(m)) => assert_eq!(m, "Node 7 not found in DAG"),
        other => panic!("unexpected {:?}", other),
    }
    assert_eq!(dag.num_edges(), 4);
    assert_eq!(dag.topological_order().len(), 4);
}

#[test]
fn pit_state_can_be_replaced() {
    let mut dag = Dag::new();
    let p = dag.add_node(
        "p".to_string(),
        DagNodeKind::Pit(PitState { name: "p".to_string(), vcbin_path: None, version: 1 }),
        None,
    );
    dag.set_pit_state(p, PitState { name: "p".to_string(), vcbin_path: Some("x.vcbin".to_string()), version: 2 });
    match &dag.node(p).unwrap().kind {
        DagNodeKind::Pit(s) => {
            assert_eq!(s.version, 2);
            assert_eq!(s.vcbin_path, Some("x.vcbin".to_string()));
        }
        _ => panic!("expected a pit"),
    }
}

fn files(names: &[&str]) -> Vec<(String, VtFile)> {
    names.iter().map(|n| (n.to_string(), VtFile::new(NodeKind::Plane))).collect()
}

fn wires(pairs: &[(&str, &str)]) -> Vec<(String, String)> {
    pairs.iter().map(|(a, b)| (a.to_string(), b.to_string())).collect()
}

#[test]
fn sort_names_orders_sources_first() {
    let fs = files(&["load", "clean", "save"]);
    let es = wires(&[("clean", "save"), ("load", "clean")]);
    let order = topo_sort_names(&fs, &es).unwrap();
    assert_eq!(order, vec!["load".to_string(), "clean".to_string(), "save".to_string()]);
}

#[test]
fn sort_names_refuses_a_cycle() {
    let fs = files(&["a", "b"]);
    let es = wires(&[("a", "b"), ("b", "a")]);
    match topo_sort_names(&fs, &es) {
        Err(e) => assert_eq!(e.message(), "Codegen error: cycle detected in DAG"),
        Ok(v) => panic!("unexpected {:?}", v),
    }
}

#[test]
fn sort_names_with_unknown_source_fails() {
    let fs = files(&["a", "b"]);
    let es = wires(&[("ghost", "b")]);
    assert!(topo_sort_names(&fs, &es).is_err());
}

#[test]
fn sort_names_without_wires_keeps_every_file() {
    let fs = files(&["x", "y", "z"]);
    let order = topo_sort_names(&fs, &[]).unwrap();
    let mut sorted = order.clone();
    sorted.sort();
    assert_eq!(sorted, vec!["x".to_string(), "y".to_string(), "z".to_string()]);
}

#[test]
fn sort_names_counts_nodes_against_files() {
    // A repeated file name is one node: fewer nodes than files.
    assert!(topo_sort_names(&files(&["a", "a"]), &[]).is_err());
    // A wire to a name that is no file adds a node: more nodes than files.
    assert!(topo_sort_names(&files(&["a"]), &wires(&[("a", "z")])).is_err());
    // A wire to a strange target can make up for a repeated file.
    let order = topo_sort_names(&files(&["a", "a"]), &wires(&[("a", "z")])).unwrap();
    assert_eq!(order, vec!["a".to_string(), "z".to_string()]);
}
