use venturi::ast::{CatchClause, Expr, FuncDef, Stmt};
use venturi::bytecode::{Instruction, Value, ValueMap};
use venturi::compiler::{compile, Compiler};
use venturi::error::VenturiError;
use venturi::vm::{Bindings, ExecContext, FloatOp, Machine, Notice, Step, Vm};

fn run_all(code: &[Instruction], ctx: &mut ExecContext) -> Step {
    let vm = Vm::new();
    let mut m = Machine::new();
    vm.run(code, &mut m, ctx, 10_000)
}

fn func(body: Vec<Stmt>) -> FuncDef {
    FuncDef { name: "f".to_string(), params: vec![], body }
}

#[test]
fn compile_return_literal() {
    let f = func(vec![Stmt::Return(Expr::IntLit(7))]);
    let code = compile(&f);
    assert_eq!(code.len(), 2);
    assert!(matches!(code[0], Instruction::Push(Value::Int(7))));
    assert!(matches!(code[1], Instruction::Return));
}

#[test]
fn compile_appends_null_return_when_missing() {
    let f = func(vec![Stmt::Assign("x".to_string(), Expr::IntLit(1))]);
    let code = Compiler::new().compile_func(&f);
    assert_eq!(code.len(), 4);
    assert!(matches!(code[0], Instruction::Push(Value::Int(1))));
    assert!(matches!(&code[1], Instruction::Store(n) if n == "x"));
    assert!(matches!(code[2], Instruction::Push(Value::Null)));
    assert!(matches!(code[3], Instruction::Return));
}

#[test]
fn compile_log_call_and_result_wrappers() {
    let f = func(vec![
        Stmt::Expr(Expr::Call("log".to_string(), vec![Expr::StrLit("hi".to_string())])),
        Stmt::Return(Expr::ResultOk(Box::new(Expr::Ident("x".to_string())))),
    ]);
    let code = compile(&f);
    assert_eq!(code.len(), 6);
    assert!(matches!(&code[0], Instruction::Push(Value::Str(s)) if s == "hi"));
    assert!(matches!(code[1], Instruction::Log));
    assert!(matches!(code[2], Instruction::Pop));
    assert!(matches!(&code[3], Instruction::Load(n) if n == "x"));
    assert!(matches!(code[4], Instruction::WrapOk));
    assert!(matches!(code[5], Instruction::Return));
}

#[test]
fn compile_try_catch_layout() {
    // try: x = risky()  catch E as e: return 0
    let f = func(vec![Stmt::TryCatch {
        body: vec![Stmt::Assign("x".to_string(), Expr::Call("risky".to_string(), vec![]))],
        catches: vec![CatchClause {
            error_type: "E".to_string(),
            binding: "e".to_string(),
            body: vec![Stmt::Return(Expr::IntLit(0))],
        }],
    }]);
    let code = compile(&f);
    // PushCatcher, Call, Store, PopCatcher, Jump; handler: Store e, Push 0, Return, Jump; then Push Null, Return
    assert!(matches!(&code[0], Instruction::PushCatcher(t, 5) if t == "E"));
    assert!(matches!(&code[1], Instruction::Call(n, 0) if n == "risky"));
    assert!(matches!(&code[2], Instruction::Store(n) if n == "x"));
    assert!(matches!(code[3], Instruction::PopCatcher));
    assert!(matches!(code[4], Instruction::Jump(9)));
    assert!(matches!(&code[5], Instruction::Store(n) if n == "e"));
    assert!(matches!(code[6], Instruction::Push(Value::Int(0))));
    assert!(matches!(code[7], Instruction::Return));
    assert!(matches!(code[8], Instruction::Jump(9)));
    assert!(matches!(code[9], Instruction::Push(Value::Null)));
    assert!(matches!(code[10], Instruction::Return));
    assert_eq!(code.len(), 11);
}

#[test]
fn vm_integer_arithmetic() {
    let code = vec![
        Instruction::Push(Value::Int(6)),
        Instruction::Push(Value::Int(7)),
        Instruction::Mul,
        Instruction::Push(Value::Int(2)),
        Instruction::Sub,
        Instruction::Return,
    ];
    let mut ctx = ExecContext::new(None);
    match run_all(&code, &mut ctx) {
        Step::Finished(v) => assert_eq!(v, Value::Int(40)),
        other => panic!("unexpected {:?}", other),
    }
}

#[test]
fn vm_integer_division_truncates() {
    let code = vec![
        Instruction::Push(Value::Int(-7)),
        Instruction::Push(Value::Int(2)),
        Instruction::Div,
        Instruction::Return,
    ];
    let mut ctx = ExecContext::new(None);
    match run_all(&code, &mut ctx) {
        Step::Finished(v) => assert_eq!(v, Value::Int(-3)),
        other => panic!("unexpected {:?}", other),
    }
}

#[test]
fn vm_mixed_operands_give_null() {
    let code = vec![
        Instruction::Push(Value::Float("1.5".to_string())),
        Instruction::Push(Value::Int(2)),
        Instruction::Add,
        Instruction::Push(Value::Int(1)),
        Instruction::Push(Value::Int(0)),
        Instruction::Div,
        Instruction::Eq,
        Instruction::Return,
    ];
    let mut ctx = ExecContext::new(None);
    assert!(matches!(run_all(&code, &mut ctx), Step::Finished(Value::Bool(true))));
}

#[test]
fn vm_overflow_is_reported() {
    let code = vec![
        Instruction::Push(Value::Int(i64::MAX)),
        Instruction::Push(Value::Int(1)),
        Instruction::Add,
        Instruction::Return,
    ];
    let mut ctx = ExecContext::new(None);
    assert!(matches!(run_all(&code, &mut ctx), Step::Overflow));
}

#[test]
fn vm_store_and_load_variables() {
    let code = vec![
        Instruction::Push(Value::Str("v".to_string())),
        Instruction::Store("x".to_string()),
        Instruction::Load("x".to_string()),
        Instruction::Load("missing".to_string()),
        Instruction::Eq,
        Instruction::Return,
    ];
    let mut ctx = ExecContext::new(None);
    match run_all(&code, &mut ctx) {
        Step::Finished(v) => assert_eq!(v, Value::Bool(false)),
        other => panic!("unexpected {:?}", other),
    }
    assert_eq!(ctx.variables.get("x"), Some(&Value::Str("v".to_string())));
}

#[test]
fn vm_end_of_code_returns_top_or_null() {
    let mut ctx = ExecContext::new(None);
    match run_all(&[], &mut ctx) {
        Step::Finished(v) => assert_eq!(v, Value::Null),
        other => panic!("unexpected {:?}", other),
    }
    let code = vec![Instruction::Push(Value::Int(3))];
    match run_all(&code, &mut ctx) {
        Step::Finished(v) => assert_eq!(v, Value::Int(3)),
        other => panic!("unexpected {:?}", other),
    }
}

#[test]
fn vm_throw_is_caught_by_handler() {
    let code = vec![
        Instruction::PushCatcher("E".to_string(), 3),
        Instruction::Throw("boom".to_string()),
        Instruction::Return,
        Instruction::Return,
    ];
    let mut ctx = ExecContext::new(None);
    match run_all(&code, &mut ctx) {
        Step::Finished(v) => assert_eq!(v, Value::Str("boom".to_string())),
        other => panic!("unexpected {:?}", other),
    }
}

#[test]
fn vm_uncaught_throw_fails() {
    let code = vec![Instruction::Throw("boom".to_string())];
    let mut ctx = ExecContext::new(None);
    match run_all(&code, &mut ctx) {
        Step::Failed(VenturiError::Vm(m)) => assert_eq!(m, "boom"),
        other => panic!("unexpected {:?}", other),
    }
}

#[test]
fn vm_check_van() {
    let code = vec![Instruction::CheckVan("@core".to_string()), Instruction::Push(Value::Int(1)), Instruction::Return];
    let mut ok_ctx = ExecContext::new(Some("@core".to_string()));
    assert!(matches!(run_all(&code, &mut ok_ctx), Step::Finished(Value::Int(1))));
    let mut bad_ctx = ExecContext::new(Some("@guest".to_string()));
    match run_all(&code, &mut bad_ctx) {
        Step::Failed(e) => {
            let msg = e.message();
            assert!(msg.contains("Permission denied"));
            assert!(msg.contains("@core"));
        }
        other => panic!("unexpected {:?}", other),
    }
}

#[test]
fn vm_jump_if_false_and_truthiness() {
    let code = vec![
        Instruction::Push(Value::Str(String::new())),
        Instruction::JumpIfFalse(4),
        Instruction::Push(Value::Int(1)),
        Instruction::Return,
        Instruction::Push(Value::Int(2)),
        Instruction::Return,
    ];
    let mut ctx = ExecContext::new(None);
    assert!(matches!(run_all(&code, &mut ctx), Step::Finished(Value::Int(2))));
}

#[test]
fn vm_float_work_goes_to_host() {
    let code = vec![
        Instruction::Push(Value::Float("1.5".to_string())),
        Instruction::Push(Value::Float("2.0".to_string())),
        Instruction::Add,
        Instruction::Return,
    ];
    let mut ctx = ExecContext::new(None);
    match run_all(&code, &mut ctx) {
        Step::Float(FloatOp::Add, a, b) => {
            assert_eq!(a, "1.5");
            assert_eq!(b, "2.0");
        }
        other => panic!("unexpected {:?}", other),
    }
}

#[test]
fn vm_builtins() {
    let vm = Vm::new();
    let ctx = ExecContext::new(None);
    let (v, n) = vm.call_builtin("clean", vec![Value::Int(5)], &ctx);
    assert_eq!(v, Value::Int(5));
    assert!(n.is_none());
    let (v, n) = vm.call_builtin("notify_service", vec![Value::Str("m".to_string())], &ctx);
    assert_eq!(v, Value::Bool(true));
    assert!(matches!(n, Some(Notice::Notify(Some(Value::Str(_))))));
    let (v, n) = vm.call_builtin("mystery", vec![Value::Int(1), Value::Int(2)], &ctx);
    assert_eq!(v, Value::Null);
    assert!(matches!(n, Some(Notice::UnknownCall(ref name, 2)) if name == "mystery"));
}

#[test]
fn vm_log_asks_host_then_continues() {
    let code = vec![
        Instruction::Push(Value::Int(9)),
        Instruction::Log,
        Instruction::Return,
    ];
    let vm = Vm::new();
    let mut m = Machine::new();
    let mut ctx = ExecContext::new(None);
    assert!(matches!(vm.run(&code, &mut m, &mut ctx, 100), Step::Notice(Notice::Log(Some(Value::Int(9))))));
    assert!(matches!(vm.run(&code, &mut m, &mut ctx, 100), Step::Finished(Value::Null)));
}

#[test]
fn vm_run_stops_after_limit() {
    let code = vec![Instruction::Jump(0)];
    let vm = Vm::new();
    let mut m = Machine::new();
    let mut ctx = ExecContext::new(None);
    assert!(matches!(vm.run(&code, &mut m, &mut ctx, 5), Step::Continue));
}

#[test]
fn bindings_insert_replaces() {
    let mut b = Bindings::new();
    b.insert("a".to_string(), Value::Int(1));
    b.insert("b".to_string(), Value::Int(2));
    b.insert("a".to_string(), Value::Int(3));
    assert_eq!(b.len(), 2);
    assert_eq!(b.get("a"), Some(&Value::Int(3)));
    assert!(b.contains_key("b"));
    assert!(!b.contains_key("c"));
}

#[test]
fn value_display() {
    let mut m = ValueMap::new();
    m.insert("k".to_string(), Value::Bool(true));
    m.insert("n".to_string(), Value::Null);
    let v = Value::List(vec![
        Value::Int(-12),
        Value::Str("s".to_string()),
        Value::Dict(m),
        Value::OkVal(Box::new(Value::Int(1))),
        Value::ErrVal("bad".to_string()),
    ]);
    assert_eq!(v.display(), "[-12, s, {k: true, n: null}, Ok(1), Err(bad)]");
    assert_eq!(Value::List(vec![]).display(), "[]");
}

#[test]
fn value_truthiness() {
    assert!(!Value::Int(0).truthy());
    assert!(Value::Int(3).truthy());
    assert!(!Value::Null.truthy());
    assert!(!Value::ErrVal("e".to_string()).truthy());
    assert!(Value::List(vec![]).truthy());
    assert!(Value::OkVal(Box::new(Value::Null)).is_ok());
    assert!(Value::ErrVal("e".to_string()).is_err());
}
