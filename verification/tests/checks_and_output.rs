use venturi::ast::{Expr, FuncDef, InputDecl, NodeKind, OutputDecl, VtFile, VtType};
use venturi::codegen::{emit_dag, escape_html, escape_xml, CodeWriter, DagContext};
use venturi::gui::{Backend, ContactCard, VenturiCardsEgui, VenturiCardsIced};
use venturi::validator::Validator;

fn input(name: &str, default: Option<Expr>) -> InputDecl {
    InputDecl { name: name.to_string(), ty: VtType::Str, default }
}

#[test]
fn vortex_without_van_is_warned() {
    let v = Validator::new();
    let vt = VtFile::new(NodeKind::Vortex);
    let (warnings, r) = v.validate_file(&vt);
    assert!(r.is_ok());
    assert_eq!(warnings, vec!["[venturi warn] Vortex node has no VAN declaration; all side effects are unrestricted".to_string()]);
}

#[test]
fn duplicate_declarations_are_refused() {
    let v = Validator::new();
    let mut vt = VtFile::new(NodeKind::Plane);
    vt.inputs.push(input("a", None));
    vt.inputs.push(input("b", None));
    vt.inputs.push(input("a", None));
    let (_, r) = v.validate_file(&vt);
    assert_eq!(r.unwrap_err().message(), "Validation error: Duplicate input declaration: a");

    let mut vt = VtFile::new(NodeKind::Plane);
    vt.outputs.push(OutputDecl { name: "o".to_string(), ty: VtType::Int });
    vt.outputs.push(OutputDecl { name: "o".to_string(), ty: VtType::Int });
    let (_, r) = v.validate_file(&vt);
    assert_eq!(r.unwrap_err().message(), "Validation error: Duplicate output declaration: o");
}

#[test]
fn unmatched_params_are_warned() {
    let v = Validator::new();
    let mut vt = VtFile::new(NodeKind::Plane);
    vt.inputs.push(input("a", None));
    vt.func = Some(FuncDef { name: "f".to_string(), params: vec!["a".to_string(), "z".to_string()], body: vec![] });
    let (warnings, r) = v.validate_file(&vt);
    assert!(r.is_ok());
    assert_eq!(warnings, vec!["[venturi warn] Func param 'z' has no matching input declaration".to_string()]);
}

#[test]
fn van_consistency() {
    let v = Validator::new();
    let mut vt = VtFile::new(NodeKind::Vortex);
    assert!(v.validate_van_consistency(&vt, None).is_ok());
    vt.van = Some("@core".to_string());
    assert!(v.validate_van_consistency(&vt, Some("@core")).is_ok());
    let e = v.validate_van_consistency(&vt, Some("@other")).unwrap_err();
    assert_eq!(e.message(), "Permission denied: VAN @other required, got Some(\"@core\")");
}

#[test]
fn escaping() {
    assert_eq!(escape_xml("<a & 'b'>\"c\""), "&lt;a &amp; &apos;b&apos;&gt;&quot;c&quot;");
    assert_eq!(escape_html("<a & 'b'>"), "&lt;a &amp; 'b'&gt;");
    assert_eq!(escape_xml("plain"), "plain");
}

#[test]
fn code_writer_indents() {
    let mut w = CodeWriter::new(16);
    w.line("a");
    w.indent();
    w.line("b");
    w.indent();
    w.raw("r");
    w.blank();
    w.dedent();
    w.dedent();
    w.dedent();
    w.line("c");
    assert_eq!(w.into_string(), "a\n  b\nr\nc\n");
}

#[test]
fn xml_of_one_bare_node() {
    let vt = VtFile::new(NodeKind::Plane);
    let ctx = DagContext { nodes: vec![("n", &vt)], edges: vec![] };
    let files = emit_dag(&ctx, "xml").unwrap();
    assert_eq!(files.len(), 1);
    assert_eq!(files[0].0, "dag.xml");
    assert_eq!(
        files[0].1,
        "<?xml version=\"1.0\" encoding=\"UTF-8\"?>\n<dag>\n  <node name=\"n\" kind=\"Plane\" van=\"none\">\n    <inputs>\n    </inputs>\n    <outputs>\n    </outputs>\n    <func/>\n  </node>\n</dag>\n"
    );
}

#[test]
fn xml_lists_wires_and_ports() {
    let mut a = VtFile::new(NodeKind::Vortex);
    a.van = Some("@io".to_string());
    a.inputs.push(InputDecl { name: "x".to_string(), ty: VtType::Int, default: Some(Expr::IntLit(1)) });
    let b = VtFile::new(NodeKind::Plane);
    let ctx = DagContext { nodes: vec![("a", &a), ("b", &b)], edges: vec![("a", "b")] };
    let out = &emit_dag(&ctx, "xml").unwrap()[0].1;
    assert!(out.contains("<node name=\"a\" kind=\"Vortex\" van=\"@io\">"));
    assert!(out.contains("      <port name=\"x\" type=\"Int\" default=\"true\"/>\n"));
    assert!(out.contains("  <wires>\n    <wire from=\"a\" to=\"b\"/>\n  </wires>\n"));
    assert_eq!(ctx.deps_of("b"), vec!["a"]);
    assert!(ctx.deps_of("a").is_empty());
}

#[test]
fn html_and_unknown_formats() {
    let vt = VtFile::new(NodeKind::Plane);
    let ctx = DagContext { nodes: vec![("n<1>", &vt)], edges: vec![] };
    let files = emit_dag(&ctx, "html").unwrap();
    assert_eq!(files[0].0, "index.html");
    assert!(files[0].1.starts_with("<!DOCTYPE html>\n"));
    assert!(files[0].1.contains("n&lt;1&gt;"));
    let e = emit_dag(&ctx, "pdf").unwrap_err();
    assert_eq!(e.message(), "Codegen error: unknown format 'pdf': choose xml, html, or react");
}

#[test]
fn backends_parse() {
    assert_eq!(Backend::parse("egui"), Ok(Backend::Egui));
    assert_eq!("iced".parse::<Backend>(), Ok(Backend::Iced));
    assert_eq!(Backend::parse("qt"), Err("unknown backend 'qt': choose egui or iced".to_string()));
}

#[test]
fn card_from_inputs() {
    let d = ContactCard::default();
    assert_eq!(d.name, "Alice Chen");
    let mut vt = VtFile::new(NodeKind::Plane);
    vt.inputs.push(input("name", Some(Expr::StrLit("Bea".to_string()))));
    vt.inputs.push(input("role", Some(Expr::IntLit(3))));
    vt.inputs.push(input("email", Some(Expr::StrLit("b@x.io".to_string()))));
    let card = ContactCard::from_inputs(&vt);
    assert_eq!(card.name, "Bea");
    assert_eq!(card.role, "Software Engineer");
    assert_eq!(card.email, "b@x.io");
    assert_eq!(card.tags, "rust  systems  dags");
    let app = VenturiCardsEgui::new(card.clone());
    assert_eq!(app.status(), "Contact 1 of 3");
    assert_eq!(app.card().name, "Bea");
    let app = VenturiCardsIced::new(card);
    assert_eq!(app.status(), "Contact 1 of 3");
}

const CSS: &str = r#"
body { font-family: monospace; margin: 2em; color: #333; background: #f9f9f9; }
h1 { border-bottom: 2px solid #0066cc; padding-bottom: 0.5em; }
h2 { margin-top: 1.5em; color: #0066cc; }
section { margin: 2em 0; padding: 1em; background: white; border: 1px solid #ddd; border-radius: 4px; }
table { border-collapse: collapse; width: 100%; }
th, td { border: 1px solid #ddd; padding: 0.5em; text-align: left; }
th { background: #f0f0f0; font-weight: bold; }
pre { background: #f5f5f5; padding: 1em; overflow-x: auto; border-left: 3px solid #0066cc; }
.kind { background: #e3f2fd; padding: 0.2em 0.5em; border-radius: 3px; font-size: 0.9em; }
a { color: #0066cc; text-decoration: none; }
a:hover { text-decoration: underline; }
ul { list-style: none; padding: 0; }
li { padding: 0.5em 0; }
"#;

#[test]
fn html_page_in_full() {
    let mut a = VtFile::new(NodeKind::Plane);
    a.inputs.push(InputDecl { name: "x".to_string(), ty: VtType::Int, default: None });
    a.func = Some(FuncDef { name: "f".to_string(), params: vec![], body: vec![] });
    let b = VtFile::new(NodeKind::Plane);
    let ctx = DagContext { nodes: vec![("a", &a), ("b", &b)], edges: vec![("a", "b")] };
    let files = emit_dag(&ctx, "html").unwrap();
    let mut expected = String::new();
    expected.push_str("<!DOCTYPE html>\n<html lang=\"en\">\n<head>\n  <meta charset=\"UTF-8\">\n  <title>Venturi DAG</title>\n  <style>\n");
    expected.push_str(CSS);
    expected.push_str("  </style>\n</head>\n<body>\n  <h1>Venturi DAG Overview</h1>\n");
    expected.push_str("  <section class=\"node\" id=\"a\">\n    <h2>a <span class=\"kind\">Plane</span></h2>\n    <table>\n");
    expected.push_str("      <thead><tr><th>Port</th><th>Type</th><th>Direction</th></tr></thead>\n      <tbody>\n");
    expected.push_str("        <tr><td>x</td><td>Int</td><td>input</td></tr>\n      </tbody>\n    </table>\n");
    expected.push_str("    <h3>Logic</h3>\n    <pre>\nfunc f():\n  [function body]\n    </pre>\n  </section>\n");
    expected.push_str("  <section class=\"node\" id=\"b\">\n    <h2>b <span class=\"kind\">Plane</span></h2>\n  </section>\n");
    expected.push_str("  <section id=\"wires\">\n    <h2>Data Flow</h2>\n    <ul>\n");
    expected.push_str("      <li><a href=\"#a\">a</a> → <a href=\"#b\">b</a></li>\n    </ul>\n  </section>\n</body>\n</html>\n");
    assert_eq!(files[0].1, expected);
}

#[test]
fn xml_node_with_everything() {
    let mut a = VtFile::new(NodeKind::Plane);
    a.outputs.push(OutputDecl { name: "y".to_string(), ty: VtType::DataFrame });
    a.func = Some(FuncDef { name: "f".to_string(), params: vec!["p".to_string(), "q".to_string()], body: vec![] });
    a.meta.push(("k".to_string(), "v&".to_string()));
    let ctx = DagContext { nodes: vec![("a", &a)], edges: vec![] };
    let out = &emit_dag(&ctx, "xml").unwrap()[0].1;
    let expected = "<?xml version=\"1.0\" encoding=\"UTF-8\"?>\n<dag>\n  <node name=\"a\" kind=\"Plane\" van=\"none\">\n    <inputs>\n    </inputs>\n    <outputs>\n      <port name=\"y\" type=\"DataFrame\"/>\n    </outputs>\n    <func name=\"f\" params=\"p, q\"/>\n    <meta>\n      <entry key=\"k\" value=\"v&amp;\"/>\n    </meta>\n  </node>\n</dag>\n";
    assert_eq!(out, expected);
}
