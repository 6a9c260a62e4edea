use venturi::ast::{DagWire, Expr, FuncDef, NodeKind, PitRef, Stmt, VtFile};
use venturi::bytecode::{Instruction, Value};
use venturi::vcbin::{VcBin, VcBinGraph, VcBinInterface, VcBinPermissions};
use venturi::pits::PitStore;
use venturi::runtime::{NodePlan, Runtime};
use venturi::vm::{Bindings, Machine, Step};

fn returning(v: i64) -> VtFile {
    let mut vt = VtFile::new(NodeKind::Plane);
    vt.func = Some(FuncDef { name: "f".to_string(), params: vec![], body: vec![Stmt::Return(Expr::IntLit(v))] });
    vt
}

fn run_plan(rt: &Runtime, id: u32) -> Value {
    match rt.node_plan(id, &Bindings::new()) {
        NodePlan::Run(code, mut ctx) => {
            let mut m = Machine::new();
            match rt.vm().run(&code, &mut m, &mut ctx, 1000) {
                Step::Finished(v) => v,
                other => panic!("unexpected {:?}", other),
            }
        }
        NodePlan::Cached(v) | NodePlan::Done(v) => v,
        _ => panic!("unexpected plan"),
    }
}

#[test]
fn modules_run_and_are_memoized() {
    let mut rt = Runtime::new(PitStore::new("p.json".to_string()));
    let a = rt.add_module("a".to_string(), returning(5));
    let b = rt.add_module("b".to_string(), VtFile::new(NodeKind::Vortex));
    assert_eq!((a, b), (0, 1));
    assert!(rt.cached(a).is_none());
    let v = run_plan(&rt, a);
    assert_eq!(v, Value::Int(5));
    rt.finish_node(a, &v);
    assert_eq!(rt.cached(a), Some(Value::Int(5)));
    assert!(matches!(rt.node_plan(a, &Bindings::new()), NodePlan::Cached(Value::Int(5))));
    // A module without a function comes to null; a vortex node is not memoized.
    assert!(matches!(rt.node_plan(b, &Bindings::new()), NodePlan::Done(Value::Null)));
    rt.finish_node(b, &Value::Null);
    assert!(rt.cached(b).is_none());
    match rt.node_plan(9, &Bindings::new()) {
        NodePlan::Missing(e) => assert_eq!(e.message(), "VM error: Node 9 not found"),
        _ => panic!("expected a missing node"),
    }
}

#[test]
fn wires_join_named_modules_and_warn_of_strangers() {
    let mut rt = Runtime::new(PitStore::new("p.json".to_string()));
    let mut first = returning(1);
    first.dag_wires.push(DagWire { from: "first".to_string(), to: "second".to_string() });
    first.dag_wires.push(DagWire { from: "first".to_string(), to: "ghost".to_string() });
    rt.add_module("first".to_string(), first);
    rt.add_module("second".to_string(), returning(2));
    let (warnings, r) = rt.wire_dag_edges();
    assert!(r.is_ok());
    assert_eq!(warnings, vec!["[venturi warn] DAG wire: node 'ghost' not found".to_string()]);
    assert_eq!(rt.dag().downstream(0), vec![1]);
}

#[test]
fn wires_that_close_a_cycle_are_refused() {
    let mut rt = Runtime::new(PitStore::new("p.json".to_string()));
    let mut a = returning(1);
    a.dag_wires.push(DagWire { from: "a".to_string(), to: "b".to_string() });
    let mut b = returning(2);
    b.dag_wires.push(DagWire { from: "b".to_string(), to: "a".to_string() });
    rt.add_module("a".to_string(), a);
    rt.add_module("b".to_string(), b);
    let (_, r) = rt.wire_dag_edges();
    match r {
        Err(e) => assert_eq!(e.message(), "DAG cycle detected involving node: b"),
        Ok(()) => panic!("a cycle was accepted"),
    }
}

#[test]
fn pits_become_nodes_and_updates_clear_the_memo() {
    let mut store = PitStore::new("p.json".to_string());
    store.create("auth", "v1.vcbin", "@core", vec![], None).unwrap();
    let mut rt = Runtime::new(store);
    let mut user = returning(3);
    user.pits.push(PitRef { url: "@auth".to_string() });
    user.dag_wires.push(DagWire { from: "auth".to_string(), to: "user".to_string() });
    let id = rt.add_module("user".to_string(), user);
    assert_eq!(id, 1);
    assert_eq!(rt.dag().node(0).unwrap().name, "auth");
    match rt.node_plan(0, &Bindings::new()) {
        NodePlan::PitFile(p) => assert_eq!(p, "v1.vcbin"),
        _ => panic!("expected the pit's chassis file"),
    }
    let (_, r) = rt.wire_dag_edges();
    assert!(r.is_ok());
    let v = run_plan(&rt, id);
    rt.finish_node(id, &v);
    assert_eq!(rt.cached(id), Some(Value::Int(3)));

    assert!(rt.apply_pit_update("auth", "v2.vcbin", None).is_ok());
    assert!(rt.cached(id).is_none());
    assert_eq!(rt.pits().status("auth").unwrap().active_version, 2);
    match rt.node_plan(0, &Bindings::new()) {
        NodePlan::PitFile(p) => assert_eq!(p, "v2.vcbin"),
        _ => panic!("expected the pit's new chassis file"),
    }
    match rt.apply_pit_update("nope", "x", None) {
        Err(e) => assert_eq!(e.message(), "Pit error: Pit 'nope' not found"),
        Ok(()) => panic!("an unknown pit was updated"),
    }
}

#[test]
fn chassis_nodes_need_a_matching_hash() {
    let mut rt = Runtime::new(PitStore::new("p.json".to_string()));
    let sections = vec![b"a".to_vec(), b"b".to_vec(), b"c".to_vec(), b"d".to_vec(), b"e".to_vec()];
    let other = vec![b"x".to_vec(), b"b".to_vec(), b"c".to_vec(), b"d".to_vec(), b"e".to_vec()];
    let v = VcBin::new(
        "packed".to_string(),
        "plane".to_string(),
        7,
        VcBinInterface { inputs: vec![], outputs: vec![] },
        VcBinPermissions { allowed_vans: vec!["@core".to_string()] },
        VcBinGraph { nodes: vec![], edges: vec![], entry: String::new(), exit: String::new() },
        vec![Instruction::CheckVan("@core".to_string()), Instruction::Push(Value::Int(8)), Instruction::Return],
        &sections,
    );
    match rt.load_vcbin(v.clone(), &other) {
        Err(e) => assert_eq!(e.message(), "VCBIN error: Hash verification failed"),
        Ok(_) => panic!("a chassis was loaded with parts it was not sealed with"),
    }
    let id = rt.load_vcbin(v, &sections).unwrap();
    assert_eq!(id, 0);
    assert_eq!(rt.dag().node(0).unwrap().van, Some("@core".to_string()));
    // The chassis runs under the first VAN it allows.
    assert_eq!(run_plan(&rt, id), Value::Int(8));
}
