//! The syntax tree of a `.vt` file, and its mathematical value.

use vstd::prelude::*;

verus! {

/// Whether a node is pure (`plane`, memoized) or effectful (`vortex`).
#[derive(PartialEq, Eq, Structural, Clone, Copy, Debug)]
pub enum NodeKind {
    Plane,
    Vortex,
}

/// A parsed `.vt` file. `meta` keeps `key: value` pairs in first-insertion
/// order, each key once.
#[derive(Clone, Debug)]
pub struct VtFile {
    pub kind: NodeKind,
    pub van: Option<String>,
    pub meta: Vec<(String, String)>,
    pub inputs: Vec<InputDecl>,
    pub outputs: Vec<OutputDecl>,
    pub uses: Vec<UseChass>,
    pub pits: Vec<PitRef>,
    pub func: Option<FuncDef>,
    pub dag_wires: Vec<DagWire>,
}

#[derive(Clone, Debug)]
pub struct InputDecl {
    pub name: String,
    pub ty: VtType,
    pub default: Option<Expr>,
}

#[derive(Clone, Debug)]
pub struct OutputDecl {
    pub name: String,
    pub ty: VtType,
}

#[derive(Clone, Debug)]
pub struct UseChass {
    pub path: String,
    pub alias: String,
}

#[derive(Clone, Debug)]
pub struct PitRef {
    pub url: String,
}

#[derive(Clone, Debug)]
pub struct FuncDef {
    pub name: String,
    pub params: Vec<String>,
    pub body: Vec<Stmt>,
}

#[derive(Clone, Debug)]
pub struct DagWire {
    pub from: String,
    pub to: String,
}

#[derive(Clone, Debug, PartialEq)]
pub enum VtType {
    Int,
    Float,
    Bool,
    Str,
    DataFrame,
    Custom(String),
}

#[derive(Debug)]
pub enum Stmt {
    Assign(String, Expr),
    Return(Expr),
    TryCatch { body: Vec<Stmt>, catches: Vec<CatchClause> },
    Expr(Expr),
}

#[derive(Clone, Debug)]
pub struct CatchClause {
    pub error_type: String,
    pub binding: String,
    pub body: Vec<Stmt>,
}

/// An expression. A float literal keeps the digits it was written with.
#[derive(Debug)]
pub enum Expr {
    Ident(String),
    IntLit(i64),
    FloatLit(String),
    StrLit(String),
    BoolLit(bool),
    Call(String, Vec<Expr>),
    FieldAccess(Box<Expr>, String),
    ResultOk(Box<Expr>),
    ResultErr(Box<Expr>),
}

// ---- values ----

pub enum TypeV {
    Int,
    Float,
    Bool,
    Str,
    DataFrame,
    Custom(Seq<char>),
}

pub enum ExprV {
    Ident(Seq<char>),
    IntLit(i64),
    FloatLit(Seq<char>),
    StrLit(Seq<char>),
    BoolLit(bool),
    Call(Seq<char>, Seq<ExprV>),
    FieldAccess(Box<ExprV>, Seq<char>),
    ResultOk(Box<ExprV>),
    ResultErr(Box<ExprV>),
}

pub enum StmtV {
    Assign(Seq<char>, ExprV),
    Return(ExprV),
    TryCatch { body: Seq<StmtV>, catches: Seq<CatchV> },
    Expr(ExprV),
}

pub struct CatchV {
    pub error_type: Seq<char>,
    pub binding: Seq<char>,
    pub body: Seq<StmtV>,
}

pub struct InputV {
    pub name: Seq<char>,
    pub ty: TypeV,
    pub default: Option<ExprV>,
}

pub struct OutputV {
    pub name: Seq<char>,
    pub ty: TypeV,
}

pub struct UseV {
    pub path: Seq<char>,
    pub alias: Seq<char>,
}

pub struct WireV {
    pub from: Seq<char>,
    pub to: Seq<char>,
}

pub struct FuncV {
    pub name: Seq<char>,
    pub params: Seq<Seq<char>>,
    pub body: Seq<StmtV>,
}

#[verifier::ext_equal]
pub struct FileV {
    pub kind: NodeKind,
    pub van: Option<Seq<char>>,
    pub meta: Seq<(Seq<char>, Seq<char>)>,
    pub inputs: Seq<InputV>,
    pub outputs: Seq<OutputV>,
    pub uses: Seq<UseV>,
    pub pits: Seq<Seq<char>>,
    pub func: Option<FuncV>,
    pub wires: Seq<WireV>,
}

pub open spec fn type_v(t: VtType) -> TypeV {
    match t {
        VtType::Int => TypeV::Int,
        VtType::Float => TypeV::Float,
        VtType::Bool => TypeV::Bool,
        VtType::Str => TypeV::Str,
        VtType::DataFrame => TypeV::DataFrame,
        VtType::Custom(s) => TypeV::Custom(s@),
    }
}

pub open spec fn expr_v(e: Expr) -> ExprV
    decreases e,
{
    match e {
        Expr::Ident(s) => ExprV::Ident(s@),
        Expr::IntLit(n) => ExprV::IntLit(n),
        Expr::FloatLit(s) => ExprV::FloatLit(s@),
        Expr::StrLit(s) => ExprV::StrLit(s@),
        Expr::BoolLit(b) => ExprV::BoolLit(b),
        Expr::Call(n, args) => ExprV::Call(n@, exprs_v(args@)),
        Expr::FieldAccess(b, f) => ExprV::FieldAccess(Box::new(expr_v(*b)), f@),
        Expr::ResultOk(b) => ExprV::ResultOk(Box::new(expr_v(*b))),
        Expr::ResultErr(b) => ExprV::ResultErr(Box::new(expr_v(*b))),
    }
}

pub open spec fn exprs_v(s: Seq<Expr>) -> Seq<ExprV>
    decreases s,
{
    Seq::new(s.len(), |i: int| if 0 <= i < s.len() { expr_v(s[i]) } else { ExprV::BoolLit(false) })
}

pub open spec fn stmt_v(s: Stmt) -> StmtV
    decreases s,
{
    match s {
        Stmt::Assign(n, e) => StmtV::Assign(n@, expr_v(e)),
        Stmt::Return(e) => StmtV::Return(expr_v(e)),
        Stmt::TryCatch { body, catches } => StmtV::TryCatch { body: stmts_v(body@), catches: catches_v(catches@) },
        Stmt::Expr(e) => StmtV::Expr(expr_v(e)),
    }
}

pub open spec fn stmts_v(s: Seq<Stmt>) -> Seq<StmtV>
    decreases s,
{
    Seq::new(s.len(), |i: int| if 0 <= i < s.len() { stmt_v(s[i]) } else { StmtV::Return(ExprV::BoolLit(false)) })
}

pub open spec fn catch_v(c: CatchClause) -> CatchV
    decreases c,
{
    CatchV { error_type: c.error_type@, binding: c.binding@, body: stmts_v(c.body@) }
}

pub open spec fn catches_v(s: Seq<CatchClause>) -> Seq<CatchV>
    decreases s,
{
    Seq::new(s.len(), |i: int| if 0 <= i < s.len() { catch_v(s[i]) } else { CatchV { error_type: seq![], binding: seq![], body: seq![] } })
}

pub open spec fn strings_v(s: Seq<String>) -> Seq<Seq<char>> {
    s.map_values(|x: String| x@)
}

pub open spec fn input_v(d: InputDecl) -> InputV {
    InputV {
        name: d.name@,
        ty: type_v(d.ty),
        default: match d.default { Some(e) => Some(expr_v(e)), None => None },
    }
}

pub open spec fn func_v(f: FuncDef) -> FuncV {
    FuncV { name: f.name@, params: strings_v(f.params@), body: stmts_v(f.body@) }
}

pub open spec fn file_v(f: VtFile) -> FileV {
    FileV {
        kind: f.kind,
        van: match f.van { Some(v) => Some(v@), None => None },
        meta: f.meta@.map_values(|kv: (String, String)| (kv.0@, kv.1@)),
        inputs: f.inputs@.map_values(|d: InputDecl| input_v(d)),
        outputs: f.outputs@.map_values(|d: OutputDecl| OutputV { name: d.name@, ty: type_v(d.ty) }),
        uses: f.uses@.map_values(|u: UseChass| UseV { path: u.path@, alias: u.alias@ }),
        pits: f.pits@.map_values(|p: PitRef| p.url@),
        func: match f.func { Some(fd) => Some(func_v(fd)), None => None },
        wires: f.dag_wires@.map_values(|w: DagWire| WireV { from: w.from@, to: w.to@ }),
    }
}

/// The value of a file with nothing declared yet.
pub open spec fn empty_file(kind: NodeKind) -> FileV {
    FileV {
        kind,
        van: None,
        meta: seq![],
        inputs: seq![],
        outputs: seq![],
        uses: seq![],
        pits: seq![],
        func: None,
        wires: seq![],
    }
}

impl VtFile {
    /// A file of the given kind with nothing declared.
    pub fn new(kind: NodeKind) -> (r: VtFile)
        ensures
            file_v(r) == empty_file(kind),
    {
        let r = VtFile {
            kind,
            van: None,
            meta: Vec::new(),
            inputs: Vec::new(),
            outputs: Vec::new(),
            uses: Vec::new(),
            pits: Vec::new(),
            func: None,
            dag_wires: Vec::new(),
        };
        assert(file_v(r).meta =~= seq![]);
        assert(file_v(r).inputs =~= seq![]);
        assert(file_v(r).outputs =~= seq![]);
        assert(file_v(r).uses =~= seq![]);
        assert(file_v(r).pits =~= seq![]);
        assert(file_v(r).wires =~= seq![]);
        r
    }
}

/// How a type is written.
pub open spec fn type_text(t: TypeV) -> Seq<char> {
    match t {
        TypeV::Int => "Int"@,
        TypeV::Float => "Float"@,
        TypeV::Bool => "Bool"@,
        TypeV::Str => "String"@,
        TypeV::DataFrame => "DataFrame"@,
        TypeV::Custom(s) => s,
    }
}

impl VtType {
    /// How the type is written, as its `Display` shows it.
    pub fn text(&self) -> (r: String)
        ensures
            r@ == type_text(type_v(*self)),
    {
        match self {
            VtType::Int => String::from_str("Int"),
            VtType::Float => String::from_str("Float"),
            VtType::Bool => String::from_str("Bool"),
            VtType::Str => String::from_str("String"),
            VtType::DataFrame => String::from_str("DataFrame"),
            VtType::Custom(s) => s.clone(),
        }
    }
}


/// A copy of an expression.
#[verifier::loop_isolation(false)]
pub fn copy_expr(e: &Expr) -> (r: Expr)
    ensures
        expr_v(r) == expr_v(*e),
    decreases e,
{
    match e {
        Expr::Ident(s) => Expr::Ident(s.clone()),
        Expr::IntLit(n) => Expr::IntLit(*n),
        Expr::FloatLit(s) => Expr::FloatLit(s.clone()),
        Expr::StrLit(s) => Expr::StrLit(s.clone()),
        Expr::BoolLit(b) => Expr::BoolLit(*b),
        Expr::Call(name, args) => {
            let mut out: Vec<Expr> = Vec::new();
            let mut i: usize = 0;
            while i < args.len()
                invariant
                    i <= args@.len(),
                    out@.len() == i,
                    forall|j: int| 0 <= j < i ==> expr_v(#[trigger] out@[j]) == expr_v(args@[j]),
                decreases args.len() - i,
            {
                proof {
                    assert(decreases_to!(e => args@[i as int]));
                }
                out.push(copy_expr(&args[i]));
                i = i + 1;
            }
            assert(exprs_v(out@) =~= exprs_v(args@));
            Expr::Call(name.clone(), out)
        },
        Expr::FieldAccess(b, f) => Expr::FieldAccess(Box::new(copy_expr(b)), f.clone()),
        Expr::ResultOk(b) => Expr::ResultOk(Box::new(copy_expr(b))),
        Expr::ResultErr(b) => Expr::ResultErr(Box::new(copy_expr(b))),
    }
}

/// A copy of a statement.
#[verifier::loop_isolation(false)]
pub fn copy_stmt(s: &Stmt) -> (r: Stmt)
    ensures
        stmt_v(r) == stmt_v(*s),
    decreases s,
{
    match s {
        Stmt::Assign(n, e) => Stmt::Assign(n.clone(), copy_expr(e)),
        Stmt::Return(e) => Stmt::Return(copy_expr(e)),
        Stmt::Expr(e) => Stmt::Expr(copy_expr(e)),
        Stmt::TryCatch { body, catches } => {
            let mut nb: Vec<Stmt> = Vec::new();
            let mut i: usize = 0;
            while i < body.len()
                invariant
                    i <= body@.len(),
                    nb@.len() == i,
                    forall|j: int| 0 <= j < i ==> stmt_v(#[trigger] nb@[j]) == stmt_v(body@[j]),
                decreases body.len() - i,
            {
                proof {
                    assert(decreases_to!(s => body@[i as int]));
                }
                nb.push(copy_stmt(&body[i]));
                i = i + 1;
            }
            assert(stmts_v(nb@) =~= stmts_v(body@));
            let mut nc: Vec<CatchClause> = Vec::new();
            let mut k: usize = 0;
            while k < catches.len()
                invariant
                    k <= catches@.len(),
                    nc@.len() == k,
                    forall|j: int| 0 <= j < k ==> catch_v(#[trigger] nc@[j]) == catch_v(catches@[j]),
                decreases catches.len() - k,
            {
                let c = &catches[k];
                let mut cb: Vec<Stmt> = Vec::new();
                let mut t: usize = 0;
                while t < c.body.len()
                    invariant
                        t <= c.body@.len(),
                        cb@.len() == t,
                        forall|j: int| 0 <= j < t ==> stmt_v(#[trigger] cb@[j]) == stmt_v(c.body@[j]),
                    decreases c.body.len() - t,
                {
                    proof {
                        assert(decreases_to!(s => catches@[k as int]));
                        assert(decreases_to!(catches@[k as int] => catches@[k as int].body));
                        assert(decreases_to!(c.body => c.body@[t as int]));
                        assert(decreases_to!(s => c.body@[t as int]));
                    }
                    cb.push(copy_stmt(&c.body[t]));
                    t = t + 1;
                }
                assert(stmts_v(cb@) =~= stmts_v(c.body@));
                nc.push(CatchClause { error_type: c.error_type.clone(), binding: c.binding.clone(), body: cb });
                k = k + 1;
            }
            assert(catches_v(nc@) =~= catches_v(catches@));
            Stmt::TryCatch { body: nb, catches: nc }
        },
    }
}

impl Clone for Expr {
    fn clone(&self) -> (r: Expr) {
        copy_expr(self)
    }
}

impl Clone for Stmt {
    fn clone(&self) -> (r: Stmt) {
        copy_stmt(self)
    }
}

} // verus!
