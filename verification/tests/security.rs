use venturi::ast::{NodeKind, UseChass, VtFile};
use venturi::graph::{Dag, DagNodeKind};
use venturi::validator::Validator;

#[test]
fn test_permission_sandbox() {
    let mut dag = Dag::new();
    let validator = Validator::new();

    let mut file_a = VtFile::new(NodeKind::Vortex);
    // A vortex node with no VAN declared at all
    file_a.van = None;

    let _node_a = dag.add_node("Node_A".to_string(), DagNodeKind::Module(file_a.clone()), None);

    let result = validator.validate_van_consistency(&file_a, Some("@trusted"));

    assert!(result.is_err());
    let err_msg = result.unwrap_err().message();
    assert!(err_msg.contains("Permission denied"));
    assert!(err_msg.contains("required"));
    assert!(err_msg.contains("@trusted"));
}

#[test]
fn test_use_chassis_version_pinning() {
    let mut file_a = VtFile::new(NodeKind::Plane);

    file_a.uses.push(UseChass {
        path: "local/v1/auth".to_string(),
        alias: "auth_v1".to_string(),
    });

    file_a.uses.push(UseChass {
        path: "local/v2/auth".to_string(),
        alias: "auth_v2".to_string(),
    });

    assert_eq!(file_a.uses[0].alias, "auth_v1");
    assert_eq!(file_a.uses[1].alias, "auth_v2");
    assert_ne!(file_a.uses[0].path, file_a.uses[1].path);
}
