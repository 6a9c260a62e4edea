use venturi::gui::{Backend, ContactCard};

#[test]
fn test_multi_backend_consistency() {
    let card = ContactCard {
        name: "Test User".into(),
        role: "Tester".into(),
        email: "test@venturi.dev".into(),
        tags: "test".into(),
    };

    let backend_egui = Backend::Egui;
    let backend_iced = Backend::Iced;

    assert_eq!(card.name, "Test User");
    assert_eq!(backend_egui, Backend::Egui);
    assert_eq!(backend_iced, Backend::Iced);
}
