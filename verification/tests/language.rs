use venturi::ast::{Expr, NodeKind, Stmt, VtType};
use venturi::lexer::{tokenize, Lexer, Token};
use venturi::parser::{parse, Parser};
use venturi::runtime::{eval_const_expr, parse_source, pit_name};
use venturi::bytecode::Value;

const SAMPLE: &str = "\n#!vortex\n# VAN: @core\ninput name: String = \"Bob\"\ninput n: Int\noutput out: Int\nuse chassis local/auth as auth\npit @registry/auth\n\nfunc run(name, n):\n    x = 1\n    return x\n\nload -> run\n";

#[test]
fn lexes_simple_statement() {
    let toks = tokenize("x = 1 + 2.5\n").unwrap();
    let kinds: Vec<&Token> = toks.iter().map(|t| &t.token).collect();
    assert_eq!(kinds.len(), 7);
    assert!(matches!(kinds[0], Token::Ident(s) if s == "x"));
    assert!(matches!(kinds[1], Token::Equals));
    assert!(matches!(kinds[2], Token::IntLit(1)));
    assert!(matches!(kinds[3], Token::Plus));
    assert!(matches!(kinds[4], Token::FloatLit(s) if s == "2.5"));
    assert!(matches!(kinds[5], Token::Newline));
    assert!(matches!(kinds[6], Token::Eof));
    assert_eq!(toks[2].line, 1);
    assert_eq!(toks[2].col, 5);
}

#[test]
fn lexes_indentation() {
    let toks = tokenize("a:\n    b\nc\n").unwrap();
    let has_indent = toks.iter().any(|t| matches!(t.token, Token::Indent));
    let has_dedent = toks.iter().any(|t| matches!(t.token, Token::Dedent));
    assert!(has_indent);
    assert!(has_dedent);
    assert!(matches!(toks.last().unwrap().token, Token::Eof));
}

#[test]
fn lexer_errors() {
    let e = Lexer::new("x = \"open").tokenize().unwrap_err();
    assert_eq!(e.message(), "Parse error at line 1: Unterminated string literal");
    let e = tokenize("a\n$").unwrap_err();
    assert_eq!(e.message(), "Parse error at line 2: Unexpected character: '$'");
}

#[test]
fn lexes_keywords_and_results() {
    let toks = tokenize("try catch return Result.Ok Result.Err true -> x").unwrap();
    assert!(matches!(toks[0].token, Token::KwTry));
    assert!(matches!(toks[1].token, Token::KwCatch));
    assert!(matches!(toks[2].token, Token::KwReturn));
    assert!(matches!(toks[3].token, Token::ResultOk));
    assert!(matches!(toks[4].token, Token::ResultErr));
    assert!(matches!(toks[5].token, Token::BoolLit(true)));
    assert!(matches!(toks[6].token, Token::Arrow));
}

#[test]
fn parses_a_whole_file() {
    let vt = parse_source(SAMPLE).unwrap();
    // The shebang only counts as the very first token; here a newline
    // comes first, so the file is taken as plane.
    assert_eq!(vt.kind, NodeKind::Plane);
    assert_eq!(vt.van, Some("@core".to_string()));
    assert_eq!(vt.inputs.len(), 2);
    assert_eq!(vt.inputs[0].name, "name");
    assert_eq!(vt.inputs[0].ty, VtType::Str);
    assert!(matches!(&vt.inputs[0].default, Some(Expr::StrLit(s)) if s == "Bob"));
    assert_eq!(vt.inputs[1].ty, VtType::Int);
    assert!(vt.inputs[1].default.is_none());
    assert_eq!(vt.outputs.len(), 1);
    assert_eq!(vt.outputs[0].ty.text(), "Int");
    assert_eq!(vt.uses.len(), 1);
    assert_eq!(vt.uses[0].path, "local/auth");
    assert_eq!(vt.uses[0].alias, "auth");
    assert_eq!(vt.pits.len(), 1);
    assert_eq!(vt.pits[0].url, "@registry/auth");
    assert_eq!(pit_name(&vt.pits[0].url), "registry/auth");
    let f = vt.func.as_ref().unwrap();
    assert_eq!(f.name, "run");
    assert_eq!(f.params, vec!["name".to_string(), "n".to_string()]);
    assert_eq!(f.body.len(), 2);
    assert!(matches!(&f.body[0], Stmt::Assign(x, Expr::IntLit(1)) if x == "x"));
    assert!(matches!(&f.body[1], Stmt::Return(Expr::Ident(x)) if x == "x"));
    assert_eq!(vt.dag_wires.len(), 1);
    assert_eq!(vt.dag_wires[0].from, "load");
    assert_eq!(vt.dag_wires[0].to, "run");
}

#[test]
fn shebang_as_first_token_sets_the_kind() {
    let vt = parse_source(" #!vortex\ninput a: Int\n").unwrap();
    assert_eq!(vt.kind, NodeKind::Vortex);
    assert_eq!(vt.inputs.len(), 1);
}

#[test]
fn parser_entry_points_agree() {
    let toks = tokenize(SAMPLE).unwrap();
    let a = parse(toks.clone()).unwrap();
    let b = Parser::new(toks).parse_file().unwrap();
    assert_eq!(a.inputs.len(), b.inputs.len());
    assert_eq!(a.van, b.van);
}

#[test]
fn parse_errors_name_the_line() {
    let e = parse_source("\ninput x\n").unwrap_err();
    assert!(e.message().starts_with("Parse error at line 2"));
}

#[test]
fn constant_defaults() {
    assert_eq!(eval_const_expr(&Expr::IntLit(4)), Value::Int(4));
    assert_eq!(eval_const_expr(&Expr::StrLit("s".to_string())), Value::Str("s".to_string()));
    assert_eq!(eval_const_expr(&Expr::BoolLit(false)), Value::Bool(false));
    assert_eq!(eval_const_expr(&Expr::Ident("v".to_string())), Value::Null);
}
