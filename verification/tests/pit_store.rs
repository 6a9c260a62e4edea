use sha2::{Digest, Sha256};
use venturi::permissions::PermissionsHandler;
use venturi::pits::{hash_text, PitStore};

#[test]
fn hash_of_missing_and_present_files() {
    assert_eq!(hash_text("a/b.vcbin", None), "(no-file:a/b.vcbin)");
    let expected = hex::encode(Sha256::digest(b"abc"));
    assert_eq!(hash_text("x", Some(b"abc")), expected);
    assert_eq!(expected, "ba7816bf8f01cfea414140de5dae2223b00361a396177a9cb410ff61f20015ad");
}

#[test]
fn create_update_rollback() {
    let mut store = PitStore::new("/tmp/pits.json".to_string());
    assert_eq!(store.store_path(), "/tmp/pits.json");
    assert!(store.create("auth", "v1.vcbin", "@core", vec!["login".to_string()], None).is_ok());
    let e = store.status("auth").unwrap();
    assert_eq!(e.active_version, 1);
    assert_eq!(e.authorized_sources, vec!["@core".to_string()]);
    assert_eq!(e.dependent_nodes, vec!["login".to_string()]);
    assert_eq!(e.attached_node_type, "chass");
    assert_eq!(e.history.len(), 1);
    assert_eq!(e.history[0].hash, "(no-file:v1.vcbin)");

    match store.create("auth", "v9.vcbin", "@core", vec![], None) {
        Err(err) => assert_eq!(err.message(), "Pit error: Pit 'auth' already exists"),
        Ok(()) => panic!("a second pit of the same name was accepted"),
    }

    assert!(store.update("auth", "v2.vcbin", Some(b"abc".to_vec())).is_ok());
    let e = store.status("auth").unwrap();
    assert_eq!(e.active_version, 2);
    assert_eq!(e.history.len(), 2);
    assert_eq!(e.active().unwrap().vcbin_path, "v2.vcbin");
    assert_eq!(e.active().unwrap().hash, hex::encode(Sha256::digest(b"abc")));

    assert!(store.rollback("auth", 1).is_ok());
    let e = store.status("auth").unwrap();
    assert_eq!(e.active_version, 1);
    assert_eq!(e.active().unwrap().vcbin_path, "v1.vcbin");
    // The rollback keeps the version the update added, last in the history.
    assert_eq!(e.history.len(), 2);
    assert_eq!(e.history[1].version, 2);
    assert_eq!(e.history[1].vcbin_path, "v2.vcbin");

    match store.rollback("auth", 5) {
        Err(err) => assert_eq!(err.message(), "Pit error: Version 5 not found in pit 'auth'"),
        Ok(()) => panic!("rollback to a missing version was accepted"),
    }
    assert_eq!(store.status("auth").unwrap().active_version, 1);

    // After a rollback, the next update still numbers above every version.
    assert!(store.update("auth", "v3.vcbin", None).is_ok());
    assert_eq!(store.status("auth").unwrap().active_version, 3);
}

#[test]
fn unknown_pits_are_reported() {
    let mut store = PitStore::new("s.json".to_string());
    match store.status("nope") {
        Err(err) => assert_eq!(err.message(), "Pit error: Pit 'nope' not found"),
        Ok(_) => panic!("found a pit that was never created"),
    }
    assert!(store.update("nope", "x", None).is_err());
    assert!(store.rollback("nope", 1).is_err());
    assert!(store.list().is_empty());
    assert!(store.create("a", "x", "@v", vec![], None).is_ok());
    assert!(store.create("b", "y", "@v", vec![], None).is_ok());
    assert_eq!(store.list().len(), 2);
    assert_eq!(store.len(), 2);
    assert!(store.contains("b"));
}

#[test]
fn van_checks() {
    let p = PermissionsHandler::new(Some("@core".to_string()));
    assert!(p.check_van("@core").is_ok());
    let err = p.check_van("@admin").unwrap_err();
    assert_eq!(err.message(), "Permission denied: VAN @admin required, got Some(\"@core\")");
    let none = PermissionsHandler::new(None);
    assert_eq!(none.check_van("@x").unwrap_err().message(), "Permission denied: VAN @x required, got None");
    assert!(!p.is_sandboxed());
}

#[test]
fn pit_update_sources() {
    let mut store = PitStore::new("s.json".to_string());
    store.create("p", "x", "@a", vec![], None).unwrap();
    let entry = store.status("p").unwrap().clone();
    let h = PermissionsHandler::new(None);
    assert!(h.validate_pit_update(&entry, "@a").is_ok());
    let err = h.validate_pit_update(&entry, "@b").unwrap_err();
    assert_eq!(err.message(), "Permission denied: VAN @a required, got Some(\"@b\")");
    let mut open = entry.clone();
    open.authorized_sources.clear();
    assert!(h.validate_pit_update(&open, "@anyone").is_ok());
}
