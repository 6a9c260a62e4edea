//! The parser: tokens to the syntax tree of a `.vt` file.

use vstd::prelude::*;
use crate::ast::{
    CatchClause, CatchV, DagWire, catch_v, Expr, ExprV, FileV, FuncDef, FuncV, InputDecl, InputV,
    NodeKind, OutputDecl, OutputV, PitRef, Stmt, StmtV, TypeV, UseChass, UseV, VtFile, VtType,
    WireV, catches_v, empty_file, expr_v, exprs_v, file_v, func_v, input_v, stmt_v, stmts_v,
    strings_v, type_v,
};
use crate::chars::{chars_of, starts_with, trim, vec_contains, vec_slice, vec_starts_with, vec_trim};
use crate::error::VenturiError;
use crate::lexer::{STok, SpannedToken, Tok, Token, copy_token, tok_debug, token_debug, token_eq, toks};
use crate::text::{concat, str_eq, string_from_chars};

verus! {

/// A parse error: the line it is reported at and its message.
pub struct PErr {
    pub line: usize,
    pub msg: Seq<char>,
}

/// A token sequence the parser can walk: empty, or ending with `Eof`.
pub open spec fn well_ended(ts: Seq<STok>) -> bool {
    ts.len() == 0 || ts.last().token is Eof
}

/// The token at `p`, `Eof` past the end.
pub open spec fn pk(ts: Seq<STok>, p: int) -> Tok {
    if 0 <= p < ts.len() { ts[p].token } else { Tok::Eof }
}

/// The line of the token at `p`, 0 past the end.
pub open spec fn line_at(ts: Seq<STok>, p: int) -> usize {
    if 0 <= p < ts.len() { ts[p].line } else { 0 }
}

pub open spec fn expect_err(ts: Seq<STok>, p: int, t: Tok) -> PErr {
    PErr { line: line_at(ts, p), msg: "Expected "@ + tok_debug(t) + ", got "@ + tok_debug(pk(ts, p)) }
}

/// The error of a position that goes backwards; parsing never reports it.
pub open spec fn stuck() -> PErr {
    PErr { line: 0, msg: seq![] }
}

/// The first position from `p` on past newlines and plain comments.
pub open spec fn skip_nl(ts: Seq<STok>, p: int) -> int
    decreases ts.len() - p,
{
    if 0 <= p < ts.len() && (ts[p].token is Newline || ts[p].token is Comment) { skip_nl(ts, p + 1) } else { p }
}

pub open spec fn sp_ident(ts: Seq<STok>, p: int) -> Result<(Seq<char>, int), PErr> {
    match pk(ts, p) {
        Tok::Ident(s) => Ok((s, p + 1)),
        t => Err(PErr { line: line_at(ts, p), msg: "Expected identifier, got "@ + tok_debug(t) }),
    }
}

pub open spec fn sp_path(ts: Seq<STok>, p: int) -> Result<(Seq<char>, int), PErr> {
    match pk(ts, p) {
        Tok::Ident(s) => Ok((s, p + 1)),
        t => Err(PErr { line: line_at(ts, p), msg: "Expected path/identifier, got "@ + tok_debug(t) }),
    }
}

/// The type a type name stands for.
pub open spec fn named_type(n: Seq<char>) -> TypeV {
    if n == "Int"@ { TypeV::Int }
    else if n == "Float"@ { TypeV::Float }
    else if n == "Bool"@ { TypeV::Bool }
    else if n == "String"@ { TypeV::Str }
    else if n == "DataFrame"@ { TypeV::DataFrame }
    else { TypeV::Custom(n) }
}

pub open spec fn sp_type(ts: Seq<STok>, p: int) -> Result<(TypeV, int), PErr> {
    match pk(ts, p) {
        Tok::TypeName(n) => Ok((named_type(n), p + 1)),
        Tok::Ident(n) => Ok((TypeV::Custom(n), p + 1)),
        t => Err(PErr { line: line_at(ts, p), msg: "Expected type, got "@ + tok_debug(t) }),
    }
}

/// An expression at `p`: a literal, a name, a call, a field access, or a
/// result constructor; and the position after it.
pub open spec fn sp_expr(ts: Seq<STok>, p: int) -> Result<(ExprV, int), PErr>
    decreases ts.len() - p, 0int,
{
    match pk(ts, p) {
        Tok::ResultOk => {
            if pk(ts, p + 1) is LParen {
                match sp_expr(ts, p + 2) {
                    Ok((inner, q)) => if pk(ts, q) is RParen {
                        Ok((ExprV::ResultOk(Box::new(inner)), q + 1))
                    } else {
                        Err(expect_err(ts, q, Tok::RParen))
                    },
                    Err(e) => Err(e),
                }
            } else {
                Err(expect_err(ts, p + 1, Tok::LParen))
            }
        },
        Tok::ResultErr => {
            if pk(ts, p + 1) is LParen {
                match sp_expr(ts, p + 2) {
                    Ok((inner, q)) => if pk(ts, q) is RParen {
                        Ok((ExprV::ResultErr(Box::new(inner)), q + 1))
                    } else {
                        Err(expect_err(ts, q, Tok::RParen))
                    },
                    Err(e) => Err(e),
                }
            } else {
                Err(expect_err(ts, p + 1, Tok::LParen))
            }
        },
        Tok::IntLit(n) => Ok((ExprV::IntLit(n), p + 1)),
        Tok::FloatLit(t) => Ok((ExprV::FloatLit(t), p + 1)),
        Tok::StringLit(s) => Ok((ExprV::StrLit(s), p + 1)),
        Tok::BoolLit(b) => Ok((ExprV::BoolLit(b), p + 1)),
        Tok::Ident(name) => {
            if pk(ts, p + 1) is LParen {
                match sp_args(ts, p + 2) {
                    Ok((args, q)) => Ok((ExprV::Call(name, args), q)),
                    Err(e) => Err(e),
                }
            } else if pk(ts, p + 1) is Dot {
                match sp_ident(ts, p + 2) {
                    Ok((f, q)) => Ok((ExprV::FieldAccess(Box::new(ExprV::Ident(name)), f), q)),
                    Err(e) => Err(e),
                }
            } else {
                Ok((ExprV::Ident(name), p + 1))
            }
        },
        t => Err(PErr { line: line_at(ts, p), msg: "Unexpected token in expression: "@ + tok_debug(t) }),
    }
}

/// The arguments of a call from `p` on, up to and including the `)`;
/// commas between them are optional.
pub open spec fn sp_args(ts: Seq<STok>, p: int) -> Result<(Seq<ExprV>, int), PErr>
    decreases ts.len() - p, 1int,
{
    if !(pk(ts, p) is RParen) && !(pk(ts, p) is Eof) {
        match sp_expr(ts, p) {
            Ok((a, q)) => {
                let q2 = if pk(ts, q) is Comma { q + 1 } else { q };
                if p < q2 <= ts.len() {
                    match sp_args(ts, q2) {
                        Ok((rest, r)) => Ok((seq![a] + rest, r)),
                        Err(e) => Err(e),
                    }
                } else {
                    Err(stuck())
                }
            },
            Err(e) => Err(e),
        }
    } else if pk(ts, p) is RParen {
        Ok((seq![], p + 1))
    } else {
        Err(expect_err(ts, p, Tok::RParen))
    }
}

/// The statements of a block from `p` on, up to its `Dedent` (consumed) or
/// the end of input.
pub open spec fn sp_block(ts: Seq<STok>, p: int) -> Result<(Seq<StmtV>, int), PErr>
    decreases ts.len() - p, 2int,
{
    let q = skip_nl(ts, p);
    if !(p <= q <= ts.len()) {
        Err(stuck())
    } else if pk(ts, q) is Dedent {
        Ok((seq![], q + 1))
    } else if pk(ts, q) is Eof {
        Ok((seq![], q))
    } else {
        match sp_stmt(ts, q) {
            Ok((s, r)) => if q < r <= ts.len() {
                match sp_block(ts, r) {
                    Ok((rest, r2)) => Ok((seq![s] + rest, r2)),
                    Err(e) => Err(e),
                }
            } else {
                Err(stuck())
            },
            Err(e) => Err(e),
        }
    }
}

/// A statement at `p`: `return`, `try`, `log(..)`, an assignment, or an
/// expression.
pub open spec fn sp_stmt(ts: Seq<STok>, p: int) -> Result<(StmtV, int), PErr>
    decreases ts.len() - p, 1int,
{
    match pk(ts, p) {
        Tok::KwReturn => match sp_expr(ts, p + 1) {
            Ok((e, q)) => Ok((StmtV::Return(e), q)),
            Err(e) => Err(e),
        },
        Tok::KwTry => sp_try(ts, p),
        Tok::KwLog => {
            if pk(ts, p + 1) is LParen {
                match sp_expr(ts, p + 2) {
                    Ok((e, q)) => if pk(ts, q) is RParen {
                        Ok((StmtV::Expr(ExprV::Call("log"@, seq![e])), q + 1))
                    } else {
                        Err(expect_err(ts, q, Tok::RParen))
                    },
                    Err(e) => Err(e),
                }
            } else {
                Err(expect_err(ts, p + 1, Tok::LParen))
            }
        },
        Tok::Ident(name) => {
            if pk(ts, p + 1) is Equals {
                match sp_expr(ts, p + 2) {
                    Ok((e, q)) => Ok((StmtV::Assign(name, e), q)),
                    Err(e) => Err(e),
                }
            } else {
                match sp_expr(ts, p) {
                    Ok((e, q)) => Ok((StmtV::Expr(e), q)),
                    Err(e) => Err(e),
                }
            }
        },
        _ => match sp_expr(ts, p) {
            Ok((e, q)) => Ok((StmtV::Expr(e), q)),
            Err(e) => Err(e),
        },
    }
}

/// A `try:` block at `p` with the `catch T as x:` clauses after it.
pub open spec fn sp_try(ts: Seq<STok>, p: int) -> Result<(StmtV, int), PErr>
    decreases ts.len() - p, 0int,
{
    if !(pk(ts, p) is KwTry) {
        Err(expect_err(ts, p, Tok::KwTry))
    } else if !(pk(ts, p + 1) is Colon) {
        Err(expect_err(ts, p + 1, Tok::Colon))
    } else {
        let q = skip_nl(ts, p + 2);
        if !(pk(ts, q) is Indent) {
            Err(expect_err(ts, q, Tok::Indent))
        } else if !(p < q < ts.len()) {
            Err(stuck())
        } else {
            match sp_block(ts, q + 1) {
                Ok((body, r)) => {
                    let r2 = skip_nl(ts, r);
                    if q < r <= r2 <= ts.len() {
                        match sp_catches(ts, r2) {
                            Ok((cs, r3)) => Ok((StmtV::TryCatch { body, catches: cs }, r3)),
                            Err(e) => Err(e),
                        }
                    } else {
                        Err(stuck())
                    }
                },
                Err(e) => Err(e),
            }
        }
    }
}

/// The `catch` clauses from `p` on.
pub open spec fn sp_catches(ts: Seq<STok>, p: int) -> Result<(Seq<CatchV>, int), PErr>
    decreases ts.len() - p, 0int,
{
    if pk(ts, p) is KwCatch {
        match sp_ident(ts, p + 1) {
            Ok((ety, q1)) => if pk(ts, q1) is KwAs {
                match sp_ident(ts, q1 + 1) {
                    Ok((bind, q2)) => if pk(ts, q2) is Colon {
                        let q3 = skip_nl(ts, q2 + 1);
                        if !(pk(ts, q3) is Indent) {
                            Err(expect_err(ts, q3, Tok::Indent))
                        } else if !(p < q3 < ts.len()) {
                            Err(stuck())
                        } else {
                            match sp_block(ts, q3 + 1) {
                                Ok((body, r)) => {
                                    let r2 = skip_nl(ts, r);
                                    if q3 < r <= r2 <= ts.len() {
                                        match sp_catches(ts, r2) {
                                            Ok((rest, r3)) => Ok((seq![CatchV { error_type: ety, binding: bind, body }] + rest, r3)),
                                            Err(e) => Err(e),
                                        }
                                    } else {
                                        Err(stuck())
                                    }
                                },
                                Err(e) => Err(e),
                            }
                        }
                    } else {
                        Err(expect_err(ts, q2, Tok::Colon))
                    },
                    Err(e) => Err(e),
                }
            } else {
                Err(expect_err(ts, q1, Tok::KwAs))
            },
            Err(e) => Err(e),
        }
    } else {
        Ok((seq![], p))
    }
}

/// `input name: Type [= default]` at `p`.
pub open spec fn sp_input(ts: Seq<STok>, p: int) -> Result<(InputV, int), PErr> {
    if !(pk(ts, p) is KwInput) {
        Err(expect_err(ts, p, Tok::KwInput))
    } else {
        match sp_ident(ts, p + 1) {
            Ok((name, q)) => if !(pk(ts, q) is Colon) {
                Err(expect_err(ts, q, Tok::Colon))
            } else {
                match sp_type(ts, q + 1) {
                    Ok((ty, r)) => if pk(ts, r) is Equals {
                        match sp_expr(ts, r + 1) {
                            Ok((e, r2)) => Ok((InputV { name, ty, default: Some(e) }, r2)),
                            Err(e) => Err(e),
                        }
                    } else {
                        Ok((InputV { name, ty, default: None }, r))
                    },
                    Err(e) => Err(e),
                }
            },
            Err(e) => Err(e),
        }
    }
}

/// `output name: Type` at `p`.
pub open spec fn sp_output(ts: Seq<STok>, p: int) -> Result<(OutputV, int), PErr> {
    if !(pk(ts, p) is KwOutput) {
        Err(expect_err(ts, p, Tok::KwOutput))
    } else {
        match sp_ident(ts, p + 1) {
            Ok((name, q)) => if !(pk(ts, q) is Colon) {
                Err(expect_err(ts, q, Tok::Colon))
            } else {
                match sp_type(ts, q + 1) {
                    Ok((ty, r)) => Ok((OutputV { name, ty }, r)),
                    Err(e) => Err(e),
                }
            },
            Err(e) => Err(e),
        }
    }
}

/// `use chassis path as alias` at `p`.
pub open spec fn sp_use(ts: Seq<STok>, p: int) -> Result<(UseV, int), PErr> {
    if !(pk(ts, p) is KwUse) {
        Err(expect_err(ts, p, Tok::KwUse))
    } else if !(pk(ts, p + 1) is KwChassis) {
        Err(expect_err(ts, p + 1, Tok::KwChassis))
    } else {
        match sp_path(ts, p + 2) {
            Ok((path, q)) => if !(pk(ts, q) is KwAs) {
                Err(expect_err(ts, q, Tok::KwAs))
            } else {
                match sp_ident(ts, q + 1) {
                    Ok((alias, r)) => Ok((UseV { path, alias }, r)),
                    Err(e) => Err(e),
                }
            },
            Err(e) => Err(e),
        }
    }
}

/// `pit @url` at `p`; the reference keeps the `@`.
pub open spec fn sp_pit(ts: Seq<STok>, p: int) -> Result<(Seq<char>, int), PErr> {
    if !(pk(ts, p) is KwPit) {
        Err(expect_err(ts, p, Tok::KwPit))
    } else if !(pk(ts, p + 1) is At) {
        Err(expect_err(ts, p + 1, Tok::At))
    } else {
        match sp_path(ts, p + 2) {
            Ok((url, q)) => Ok((seq!['@'] + url, q)),
            Err(e) => Err(e),
        }
    }
}

/// The parameter names from `p` on, up to and including the `)`.
pub open spec fn sp_params(ts: Seq<STok>, p: int) -> Result<(Seq<Seq<char>>, int), PErr>
    decreases ts.len() - p,
{
    if pk(ts, p) is RParen {
        Ok((seq![], p + 1))
    } else {
        match pk(ts, p) {
            Tok::Ident(x) => {
                let q = if pk(ts, p + 1) is Comma { p + 2 } else { p + 1 };
                if p < q <= ts.len() {
                    match sp_params(ts, q) {
                        Ok((rest, r)) => Ok((seq![x] + rest, r)),
                        Err(e) => Err(e),
                    }
                } else {
                    Err(stuck())
                }
            },
            t => Err(PErr { line: line_at(ts, p), msg: "Expected identifier, got "@ + tok_debug(t) }),
        }
    }
}

/// `func name(params):` and its indented body at `p`.
pub open spec fn sp_func(ts: Seq<STok>, p: int) -> Result<(FuncV, int), PErr> {
    if !(pk(ts, p) is KwFunc) {
        Err(expect_err(ts, p, Tok::KwFunc))
    } else {
        match sp_ident(ts, p + 1) {
            Ok((name, q)) => if !(pk(ts, q) is LParen) {
                Err(expect_err(ts, q, Tok::LParen))
            } else {
                match sp_params(ts, q + 1) {
                    Ok((params, r)) => if !(pk(ts, r) is Colon) {
                        Err(expect_err(ts, r, Tok::Colon))
                    } else {
                        let s = skip_nl(ts, r + 1);
                        if !(pk(ts, s) is Indent) {
                            Err(expect_err(ts, s, Tok::Indent))
                        } else {
                            match sp_block(ts, s + 1) {
                                Ok((body, e)) => Ok((FuncV { name, params, body }, e)),
                                Err(e) => Err(e),
                            }
                        }
                    },
                    Err(e) => Err(e),
                }
            },
            Err(e) => Err(e),
        }
    }
}

/// The index of the first `c` in `t`, or -1.
pub open spec fn first_index(t: Seq<char>, c: char) -> int
    decreases t.len(),
{
    if t.len() == 0 {
        -1
    } else if t[0] == c {
        0
    } else if first_index(t.drop_first(), c) < 0 {
        -1
    } else {
        first_index(t.drop_first(), c) + 1
    }
}

/// The index of the entry for key `k`, or -1.
pub open spec fn key_index(m: Seq<(Seq<char>, Seq<char>)>, k: Seq<char>) -> int
    decreases m.len(),
{
    if m.len() == 0 {
        -1
    } else if m[0].0 == k {
        0
    } else if key_index(m.drop_first(), k) < 0 {
        -1
    } else {
        key_index(m.drop_first(), k) + 1
    }
}

/// A map insertion: the value of an existing key is replaced in place, a
/// new key goes at the end.
pub open spec fn meta_insert(m: Seq<(Seq<char>, Seq<char>)>, k: Seq<char>, v: Seq<char>) -> Seq<(Seq<char>, Seq<char>)> {
    if key_index(m, k) >= 0 { m.update(key_index(m, k), (k, v)) } else { m.push((k, v)) }
}

/// What a meta comment adds: `META:` is a marker; `key: value` sets a key.
pub open spec fn meta_step(f: FileV, c: Seq<char>) -> FileV {
    if starts_with(c, seq!['M', 'E', 'T', 'A', ':']) {
        f
    } else if c.contains(':') {
        let i = first_index(c, ':');
        FileV { meta: meta_insert(f.meta, trim(c.subrange(0, i)), trim(c.subrange(i + 1, c.len() as int))), ..f }
    } else {
        f
    }
}

/// The top-level declarations from `p` on, added to `f`.
pub open spec fn sp_top(ts: Seq<STok>, p: int, f: FileV) -> Result<FileV, PErr>
    decreases ts.len() - p,
{
    let q = skip_nl(ts, p);
    if !(p <= q <= ts.len()) {
        Err(stuck())
    } else {
        match pk(ts, q) {
            Tok::Eof => Ok(f),
            Tok::VanDecl(v) => sp_top(ts, q + 1, FileV { van: Some(v), ..f }),
            Tok::MetaComment(c) => sp_top(ts, q + 1, meta_step(f, c)),
            Tok::Comment => sp_top(ts, q + 1, f),
            Tok::KwInput => match sp_input(ts, q) {
                Ok((d, r)) => if q < r <= ts.len() { sp_top(ts, r, FileV { inputs: f.inputs.push(d), ..f }) } else { Err(stuck()) },
                Err(e) => Err(e),
            },
            Tok::KwOutput => match sp_output(ts, q) {
                Ok((d, r)) => if q < r <= ts.len() { sp_top(ts, r, FileV { outputs: f.outputs.push(d), ..f }) } else { Err(stuck()) },
                Err(e) => Err(e),
            },
            Tok::KwUse => match sp_use(ts, q) {
                Ok((d, r)) => if q < r <= ts.len() { sp_top(ts, r, FileV { uses: f.uses.push(d), ..f }) } else { Err(stuck()) },
                Err(e) => Err(e),
            },
            Tok::KwPit => match sp_pit(ts, q) {
                Ok((d, r)) => if q < r <= ts.len() { sp_top(ts, r, FileV { pits: f.pits.push(d), ..f }) } else { Err(stuck()) },
                Err(e) => Err(e),
            },
            Tok::KwFunc => match sp_func(ts, q) {
                Ok((d, r)) => if q < r <= ts.len() { sp_top(ts, r, FileV { func: Some(d), ..f }) } else { Err(stuck()) },
                Err(e) => Err(e),
            },
            Tok::Ident(from) => if q + 1 < ts.len() && ts[q + 1].token is Arrow {
                match sp_path(ts, q + 2) {
                    Ok((to, r)) => if q < r <= ts.len() { sp_top(ts, r, FileV { wires: f.wires.push(WireV { from, to }), ..f }) } else { Err(stuck()) },
                    Err(e) => Err(e),
                }
            } else {
                sp_top(ts, q + 1, f)
            },
            _ => sp_top(ts, q + 1, f),
        }
    }
}

/// `t` ends with `p`.
pub open spec fn ends_with(t: Seq<char>, p: Seq<char>) -> bool {
    p.len() <= t.len() && t.subrange(t.len() - p.len(), t.len() as int) == p
}

/// The kind a shebang line names.
pub open spec fn shebang_kind(s: Seq<char>) -> NodeKind {
    if trim(s) == "plane"@ || ends_with(trim(s), "plane"@) {
        NodeKind::Plane
    } else if trim(s) == "vortex"@ || ends_with(trim(s), "vortex"@) {
        NodeKind::Vortex
    } else {
        NodeKind::Plane
    }
}

/// A whole file: the kind from a leading shebang (plane when there is
/// none), then the top-level declarations.
pub open spec fn sp_file(ts: Seq<STok>, p: int) -> Result<FileV, PErr> {
    match pk(ts, p) {
        Tok::Shebang(s) => sp_top(ts, skip_nl(ts, p + 1), empty_file(shebang_kind(s))),
        _ => sp_top(ts, skip_nl(ts, p), empty_file(NodeKind::Plane)),
    }
}

/// The executable result of a parse step agrees with its value.
pub open spec fn pmatch<A, B>(r: Result<A, VenturiError>, sp: Result<(B, int), PErr>, f: spec_fn(A) -> B, after: int) -> bool {
    match sp {
        Ok((b, q)) => r matches Ok(a) && f(a) == b && after == q,
        Err(e) => r matches Err(VenturiError::Parse { line, msg }) && line == e.line && msg@ == e.msg,
    }
}

/// A sequence parse with `acc` already read in front of it.
pub open spec fn pre<B>(acc: Seq<B>, r: Result<(Seq<B>, int), PErr>) -> Result<(Seq<B>, int), PErr> {
    match r {
        Ok((x, q)) => Ok((acc + x, q)),
        Err(e) => Err(e),
    }
}

proof fn lemma_pre_step<B>(acc: Seq<B>, b: B, r: Result<(Seq<B>, int), PErr>)
    ensures
        pre(acc, match r { Ok((x, q)) => Ok((seq![b] + x, q)), Err(e) => Err(e) }) == pre(acc.push(b), r),
{
    match r {
        Ok((x, q)) => { assert(acc + (seq![b] + x) =~= acc.push(b) + x); },
        Err(e) => {},
    }
}

proof fn lemma_pre_empty<B>(r: Result<(Seq<B>, int), PErr>)
    ensures
        pre(Seq::<B>::empty(), r) == r,
{
    match r {
        Ok((x, q)) => { assert(Seq::<B>::empty() + x =~= x); },
        Err(e) => {},
    }
}

proof fn lemma_skip_nl(ts: Seq<STok>, p: int)
    requires
        0 <= p <= ts.len(),
    ensures
        p <= skip_nl(ts, p) <= ts.len(),
    decreases ts.len() - p,
{
    if 0 <= p < ts.len() && (ts[p].token is Newline || ts[p].token is Comment) {
        lemma_skip_nl(ts, p + 1);
    }
}

proof fn lemma_exprs_push(v: Seq<Expr>, e: Expr)
    ensures
        exprs_v(v.push(e)) == exprs_v(v).push(expr_v(e)),
{
    assert(exprs_v(v.push(e)) =~= exprs_v(v).push(expr_v(e)));
}

proof fn lemma_stmts_push(v: Seq<Stmt>, e: Stmt)
    ensures
        stmts_v(v.push(e)) == stmts_v(v).push(stmt_v(e)),
{
    assert(stmts_v(v.push(e)) =~= stmts_v(v).push(stmt_v(e)));
}

proof fn lemma_first_index(t: Seq<char>, c: char, i: int)
    requires
        0 <= i < t.len(),
        t[i] == c,
        forall|j: int| 0 <= j < i ==> t[j] != c,
    ensures
        first_index(t, c) == i,
    decreases i,
{
    if i > 0 {
        lemma_first_index(t.drop_first(), c, i - 1);
    }
}

proof fn lemma_key_index(m: Seq<(Seq<char>, Seq<char>)>, k: Seq<char>, i: int)
    requires
        0 <= i <= m.len(),
        i < m.len() ==> m[i].0 == k,
        forall|j: int| 0 <= j < i ==> m[j].0 != k,
    ensures
        key_index(m, k) == if i < m.len() { i } else { -1 },
    decreases i,
{
    if i > 0 {
        lemma_key_index(m.drop_first(), k, i - 1);
    }
}

/// The values of the meta pairs.
pub open spec fn meta_v(m: Seq<(String, String)>) -> Seq<(Seq<char>, Seq<char>)> {
    m.map_values(|kv: (String, String)| (kv.0@, kv.1@))
}

fn meta_insert_exec(meta: &mut Vec<(String, String)>, k: String, v: String)
    ensures
        meta_v(final(meta)@) == meta_insert(meta_v(old(meta)@), k@, v@),
{
    let ghost mv = meta_v(meta@);
    let mut i: usize = 0;
    while i < meta.len()
        invariant
            i <= meta@.len(),
            meta@ == old(meta)@,
            mv == meta_v(old(meta)@),
            meta_v(meta@) == mv,
            forall|j: int| 0 <= j < i ==> mv[j].0 != k@,
        decreases meta.len() - i,
    {
        if meta[i].0 == k {
            proof { lemma_key_index(mv, k@, i as int); }
            let ghost old_m = meta@;
            meta.set(i, (k, v));
            assert(meta_v(meta@) =~= mv.update(i as int, (k@, v@)));
            return;
        }
        i = i + 1;
    }
    proof { lemma_key_index(mv, k@, mv.len() as int); }
    let ghost old_m = meta@;
    meta.push((k, v));
    assert(meta_v(meta@) =~= mv.push((k@, v@)));
}

fn apply_meta(vt: &mut VtFile, c: &String)
    ensures
        file_v(*final(vt)) == meta_step(file_v(*old(vt)), c@),
{
    let chars = chars_of(c.as_str());
    let marker = vec!['M', 'E', 'T', 'A', ':'];
    assert(marker@ =~= seq!['M', 'E', 'T', 'A', ':']);
    if vec_starts_with(&chars, marker.as_slice()) {
        return;
    }
    if !vec_contains(&chars, ':') {
        return;
    }
    let mut i: usize = 0;
    while chars[i] != ':'
        invariant
            i < chars@.len(),
            chars@.contains(':'),
            forall|j: int| 0 <= j < i ==> chars@[j] != ':',
        decreases chars.len() - i,
    {
        i = i + 1;
        assert(i < chars@.len()) by {
            if i == chars@.len() {
                let w = choose|w: int| 0 <= w < chars@.len() && chars@[w] == ':';
                assert(chars@[w] != ':');
            }
        }
    }
    proof { lemma_first_index(chars@, ':', i as int); }
    let key = vec_trim(&vec_slice(&chars, 0, i));
    let n = chars.len();
    let val = vec_trim(&vec_slice(&chars, i + 1, n));
    let ghost before = file_v(*vt);
    meta_insert_exec(&mut vt.meta, string_from_chars(key.as_slice()), string_from_chars(val.as_slice()));
    assert(file_v(*vt) =~= meta_step(before, c@));
}

fn vec_ends_with(t: &Vec<char>, p: &[char]) -> (r: bool)
    ensures
        r == ends_with(t@, p@),
{
    if p.len() > t.len() {
        return false;
    }
    let off = t.len() - p.len();
    let mut i: usize = 0;
    while i < p.len()
        invariant
            p@.len() <= t@.len(),
            t@.len() <= usize::MAX,
            off == t@.len() - p@.len(),
            i <= p@.len(),
            forall|j: int| 0 <= j < i ==> t@[off + j] == p@[j],
        decreases p.len() - i,
    {
        if t[off + i] != p[i] {
            assert(t@.subrange(off as int, t@.len() as int)[i as int] != p@[i as int]);
            return false;
        }
        i = i + 1;
    }
    assert(t@.subrange(off as int, t@.len() as int) =~= p@);
    true
}

fn shebang_kind_exec(s: &String) -> (k: NodeKind)
    ensures
        k == shebang_kind(s@),
{
    let t = vec_trim(&chars_of(s.as_str()));
    let plane = vec!['p', 'l', 'a', 'n', 'e'];
    let vortex = vec!['v', 'o', 'r', 't', 'e', 'x'];
    proof {
        reveal_strlit("plane");
        reveal_strlit("vortex");
    }
    assert(plane@ =~= "plane"@);
    assert(vortex@ =~= "vortex"@);
    if vec_ends_with(&t, plane.as_slice()) {
        NodeKind::Plane
    } else if vec_ends_with(&t, vortex.as_slice()) {
        NodeKind::Vortex
    } else {
        proof {
            if t@ == "plane"@ { assert(t@.subrange(0, 5) =~= t@); }
            if t@ == "vortex"@ { assert(t@.subrange(0, 6) =~= t@); }
        }
        NodeKind::Plane
    }
}

/// The executable result of parsing a file agrees with its value.
pub open spec fn file_matches(r: Result<VtFile, VenturiError>, sp: Result<FileV, PErr>) -> bool {
    match sp {
        Ok(f) => r matches Ok(vt) && file_v(vt) == f,
        Err(e) => r matches Err(VenturiError::Parse { line, msg }) && line == e.line && msg@ == e.msg,
    }
}

/// Parses a whole token sequence (empty, or ending with `Eof`).
pub fn parse(tokens: Vec<SpannedToken>) -> (r: Result<VtFile, VenturiError>)
    requires
        well_ended(toks(tokens@)),
    ensures
        file_matches(r, sp_file(toks(tokens@), 0)),
{
    let mut parser = Parser::new(tokens);
    parser.parse_file()
}

/// The parser: a token sequence and the position in it.
pub struct Parser {
    tokens: Vec<SpannedToken>,
    pos: usize,
}

impl Parser {
    /// The tokens being parsed.
    pub closed spec fn toks_v(&self) -> Seq<STok> {
        toks(self.tokens@)
    }

    /// The position of the next token.
    pub closed spec fn position(&self) -> int {
        self.pos as int
    }

    /// The parser stands on a token, or the sequence is empty.
    pub closed spec fn inv(&self) -> bool {
        &&& well_ended(self.toks_v())
        &&& (self.pos < self.tokens@.len() || (self.tokens@.len() == 0 && self.pos == 0))
    }

    /// A parser at the start of `tokens`.
    pub fn new(tokens: Vec<SpannedToken>) -> (r: Parser)
        requires
            well_ended(toks(tokens@)),
        ensures
            r.toks_v() == toks(tokens@),
            r.position() == 0,
            r.inv(),
    {
        Parser { tokens, pos: 0 }
    }

    fn peek(&self) -> (r: Token)
        requires
            self.inv(),
        ensures
            r@ == pk(self.toks_v(), self.position()),
    {
        if self.pos < self.tokens.len() {
            copy_token(&self.tokens[self.pos].token)
        } else {
            Token::Eof
        }
    }

    fn peek_is(&self, t: &Token) -> (r: bool)
        requires
            self.inv(),
        ensures
            r == (pk(self.toks_v(), self.position()) == t@),
    {
        if self.pos < self.tokens.len() {
            token_eq(&self.tokens[self.pos].token, t)
        } else {
            token_eq(&Token::Eof, t)
        }
    }

    fn current_line(&self) -> (r: usize)
        requires
            self.inv(),
        ensures
            r == line_at(self.toks_v(), self.position()),
    {
        if self.pos < self.tokens.len() { self.tokens[self.pos].line } else { 0 }
    }

    fn advance(&mut self)
        requires
            old(self).inv(),
            !(pk(old(self).toks_v(), old(self).position()) is Eof),
        ensures
            final(self).inv(),
            final(self).toks_v() == old(self).toks_v(),
            final(self).position() == old(self).position() + 1,
            final(self).position() < final(self).toks_v().len(),
    {
        let n = self.tokens.len();
        proof {
            let ts = self.toks_v();
            assert(ts.len() == self.tokens@.len());
            assert(self.pos < ts.len());
            if self.pos + 1 == ts.len() {
                assert(ts.last() == ts[self.pos as int]);
            }
        }
        self.pos = self.pos + 1;
    }

    fn unexpected(&self, prefix: &str) -> (r: VenturiError)
        requires
            self.inv(),
        ensures
            r matches VenturiError::Parse { line, msg } && line == line_at(self.toks_v(), self.position())
                && msg@ == prefix@ + tok_debug(pk(self.toks_v(), self.position())),
    {
        let t = self.peek();
        VenturiError::Parse { line: self.current_line(), msg: concat(prefix, token_debug(&t).as_str()) }
    }

    fn expect(&mut self, t: &Token) -> (r: Result<(), VenturiError>)
        requires
            old(self).inv(),
            !(t@ is Eof),
        ensures
            final(self).inv(),
            final(self).toks_v() == old(self).toks_v(),
            pk(old(self).toks_v(), old(self).position()) == t@ ==> r is Ok && final(self).position() == old(self).position() + 1,
            pk(old(self).toks_v(), old(self).position()) != t@ ==> (r matches Err(VenturiError::Parse { line, msg })
                && line == expect_err(old(self).toks_v(), old(self).position(), t@).line
                && msg@ == expect_err(old(self).toks_v(), old(self).position(), t@).msg),
    {
        if self.peek_is(t) {
            self.advance();
            Ok(())
        } else {
            let head = concat("Expected ", token_debug(t).as_str());
            let head = concat(head.as_str(), ", got ");
            Err(self.unexpected(head.as_str()))
        }
    }

    fn skip_newlines(&mut self)
        requires
            old(self).inv(),
        ensures
            final(self).inv(),
            final(self).toks_v() == old(self).toks_v(),
            final(self).position() == skip_nl(old(self).toks_v(), old(self).position()),
            old(self).position() <= final(self).position() <= final(self).toks_v().len(),
    {
        let ghost ts = self.toks_v();
        let ghost p0 = self.position();
        proof { lemma_skip_nl(ts, p0); }
        while self.peek_is(&Token::Newline) || self.peek_is(&Token::Comment)
            invariant
                self.inv(),
                self.toks_v() == ts,
                p0 <= self.position() <= ts.len(),
                skip_nl(ts, p0) == skip_nl(ts, self.position()),
            decreases ts.len() - self.position(),
        {
            self.advance();
        }
    }

    fn expect_ident(&mut self) -> (r: Result<String, VenturiError>)
        requires
            old(self).inv(),
        ensures
            final(self).inv(),
            final(self).toks_v() == old(self).toks_v(),
            pmatch(r, sp_ident(old(self).toks_v(), old(self).position()), |s: String| s@, final(self).position()),
    {
        if self.pos < self.tokens.len() {
            match &self.tokens[self.pos].token {
                Token::Ident(s) => {
                    let s = s.clone();
                    self.advance();
                    return Ok(s);
                },
                _ => {},
            }
        }
        Err(self.unexpected("Expected identifier, got "))
    }

    fn expect_ident_or_path(&mut self) -> (r: Result<String, VenturiError>)
        requires
            old(self).inv(),
        ensures
            final(self).inv(),
            final(self).toks_v() == old(self).toks_v(),
            pmatch(r, sp_path(old(self).toks_v(), old(self).position()), |s: String| s@, final(self).position()),
    {
        if self.pos < self.tokens.len() {
            match &self.tokens[self.pos].token {
                Token::Ident(s) => {
                    let s = s.clone();
                    self.advance();
                    return Ok(s);
                },
                _ => {},
            }
        }
        Err(self.unexpected("Expected path/identifier, got "))
    }

    fn parse_type(&mut self) -> (r: Result<VtType, VenturiError>)
        requires
            old(self).inv(),
        ensures
            final(self).inv(),
            final(self).toks_v() == old(self).toks_v(),
            pmatch(r, sp_type(old(self).toks_v(), old(self).position()), |t: VtType| type_v(t), final(self).position()),
    {
        if self.pos < self.tokens.len() {
            match &self.tokens[self.pos].token {
                Token::TypeName(name) => {
                    let name = name.clone();
                    self.advance();
                    let n = name.as_str();
                    let t = if str_eq(n, "Int") {
                        VtType::Int
                    } else if str_eq(n, "Float") {
                        VtType::Float
                    } else if str_eq(n, "Bool") {
                        VtType::Bool
                    } else if str_eq(n, "String") {
                        VtType::Str
                    } else if str_eq(n, "DataFrame") {
                        VtType::DataFrame
                    } else {
                        VtType::Custom(name)
                    };
                    return Ok(t);
                },
                Token::Ident(name) => {
                    let name = name.clone();
                    self.advance();
                    return Ok(VtType::Custom(name));
                },
                _ => {},
            }
        }
        Err(self.unexpected("Expected type, got "))
    }
    #[verifier::loop_isolation(false)]
    fn parse_expr(&mut self) -> (r: Result<Expr, VenturiError>)
        requires
            old(self).inv(),
        ensures
            final(self).inv(),
            final(self).toks_v() == old(self).toks_v(),
            pmatch(r, sp_expr(old(self).toks_v(), old(self).position()), |e: Expr| expr_v(e), final(self).position()),
            r is Ok ==> old(self).position() < final(self).position() <= final(self).toks_v().len(),
        decreases old(self).toks_v().len() - old(self).position(), 0int,
    {
        let ghost ts = self.toks_v();
        let ghost p0 = self.position();
        if self.pos >= self.tokens.len() {
            return Err(self.unexpected("Unexpected token in expression: "));
        }
        match &self.tokens[self.pos].token {
            Token::ResultOk => {
                self.advance();
                self.expect(&Token::LParen)?;
                let inner = self.parse_expr()?;
                self.expect(&Token::RParen)?;
                Ok(Expr::ResultOk(Box::new(inner)))
            },
            Token::ResultErr => {
                self.advance();
                self.expect(&Token::LParen)?;
                let inner = self.parse_expr()?;
                self.expect(&Token::RParen)?;
                Ok(Expr::ResultErr(Box::new(inner)))
            },
            Token::IntLit(n) => {
                let n = *n;
                self.advance();
                Ok(Expr::IntLit(n))
            },
            Token::FloatLit(f) => {
                let f = f.clone();
                self.advance();
                Ok(Expr::FloatLit(f))
            },
            Token::StringLit(st) => {
                let st = st.clone();
                self.advance();
                Ok(Expr::StrLit(st))
            },
            Token::BoolLit(b) => {
                let b = *b;
                self.advance();
                Ok(Expr::BoolLit(b))
            },
            Token::Ident(name) => {
                let name = name.clone();
                self.advance();
                if self.peek_is(&Token::LParen) {
                    self.advance();
                    let mut args: Vec<Expr> = Vec::new();
                    proof { lemma_pre_empty(sp_args(ts, p0 + 2)); }
                    assert(exprs_v(args@) =~= seq![]);
                    loop
                        invariant
                            self.inv(),
                            self.toks_v() == ts,
                            p0 + 2 <= self.position() <= ts.len(),
                            sp_args(ts, p0 + 2) == pre(exprs_v(args@), sp_args(ts, self.position())),
                        decreases ts.len() - self.position(),
                    {
                        if self.peek_is(&Token::RParen) || self.peek_is(&Token::Eof) {
                            break;
                        }
                        let ghost cur = self.position();
                        let a = self.parse_expr()?;
                        if self.peek_is(&Token::Comma) {
                            self.advance();
                        }
                        proof {
                            lemma_pre_step(exprs_v(args@), expr_v(a), sp_args(ts, self.position()));
                            lemma_exprs_push(args@, a);
                        }
                        args.push(a);
                    }
                    assert(exprs_v(args@) + Seq::<ExprV>::empty() =~= exprs_v(args@));
                    self.expect(&Token::RParen)?;
                    Ok(Expr::Call(name, args))
                } else if self.peek_is(&Token::Dot) {
                    self.advance();
                    let field = self.expect_ident()?;
                    let id = Expr::Ident(name);
                    assert(expr_v(id) == ExprV::Ident(name@));
                    Ok(Expr::FieldAccess(Box::new(id), field))
                } else {
                    Ok(Expr::Ident(name))
                }
            },
            _ => Err(self.unexpected("Unexpected token in expression: ")),
        }
    }

    #[verifier::loop_isolation(false)]
    fn parse_block(&mut self) -> (r: Result<Vec<Stmt>, VenturiError>)
        requires
            old(self).inv(),
        ensures
            final(self).inv(),
            final(self).toks_v() == old(self).toks_v(),
            pmatch(r, sp_block(old(self).toks_v(), old(self).position()), |v: Vec<Stmt>| stmts_v(v@), final(self).position()),
            r is Ok ==> old(self).position() <= final(self).position() <= final(self).toks_v().len(),
        decreases old(self).toks_v().len() - old(self).position(), 2int,
    {
        let ghost ts = self.toks_v();
        let ghost p0 = self.position();
        let mut stmts: Vec<Stmt> = Vec::new();
        proof { lemma_pre_empty(sp_block(ts, p0)); }
        assert(stmts_v(stmts@) =~= seq![]);
        loop
            invariant
                self.inv(),
                self.toks_v() == ts,
                p0 <= self.position() <= ts.len(),
                sp_block(ts, p0) == pre(stmts_v(stmts@), sp_block(ts, self.position())),
            decreases ts.len() - self.position(),
        {
            let ghost cur = self.position();
            self.skip_newlines();
            if self.peek_is(&Token::Dedent) || self.peek_is(&Token::Eof) {
                if self.peek_is(&Token::Dedent) {
                    self.advance();
                }
                break;
            }
            let st = self.parse_stmt()?;
            proof {
                lemma_pre_step(stmts_v(stmts@), stmt_v(st), sp_block(ts, self.position()));
                lemma_stmts_push(stmts@, st);
            }
            stmts.push(st);
        }
        assert(stmts_v(stmts@) + Seq::<StmtV>::empty() =~= stmts_v(stmts@));
        Ok(stmts)
    }

    fn parse_stmt(&mut self) -> (r: Result<Stmt, VenturiError>)
        requires
            old(self).inv(),
        ensures
            final(self).inv(),
            final(self).toks_v() == old(self).toks_v(),
            pmatch(r, sp_stmt(old(self).toks_v(), old(self).position()), |st: Stmt| stmt_v(st), final(self).position()),
            r is Ok ==> old(self).position() < final(self).position() <= final(self).toks_v().len(),
        decreases old(self).toks_v().len() - old(self).position(), 1int,
    {
        let ghost ts = self.toks_v();
        let ghost p0 = self.position();
        if self.pos >= self.tokens.len() {
            let e = self.parse_expr()?;
            return Ok(Stmt::Expr(e));
        }
        match &self.tokens[self.pos].token {
            Token::KwReturn => {
                self.advance();
                let e = self.parse_expr()?;
                Ok(Stmt::Return(e))
            },
            Token::KwTry => self.parse_try_catch(),
            Token::KwLog => {
                self.advance();
                self.expect(&Token::LParen)?;
                let e = self.parse_expr()?;
                self.expect(&Token::RParen)?;
                let args = vec![e];
                assert(exprs_v(args@) =~= seq![expr_v(e)]);
                Ok(Stmt::Expr(Expr::Call(String::from_str("log"), args)))
            },
            Token::Ident(name) => {
                let name = name.clone();
                if self.pos + 1 < self.tokens.len() && token_eq(&self.tokens[self.pos + 1].token, &Token::Equals) {
                    self.advance();
                    self.advance();
                    let e = self.parse_expr()?;
                    Ok(Stmt::Assign(name, e))
                } else {
                    let e = self.parse_expr()?;
                    Ok(Stmt::Expr(e))
                }
            },
            _ => {
                let e = self.parse_expr()?;
                Ok(Stmt::Expr(e))
            },
        }
    }

    #[verifier::loop_isolation(false)]
    fn parse_try_catch(&mut self) -> (r: Result<Stmt, VenturiError>)
        requires
            old(self).inv(),
        ensures
            final(self).inv(),
            final(self).toks_v() == old(self).toks_v(),
            pmatch(r, sp_try(old(self).toks_v(), old(self).position()), |st: Stmt| stmt_v(st), final(self).position()),
            r is Ok ==> old(self).position() < final(self).position() <= final(self).toks_v().len(),
        decreases old(self).toks_v().len() - old(self).position(), 0int,
    {
        let ghost ts = self.toks_v();
        let ghost p0 = self.position();
        self.expect(&Token::KwTry)?;
        self.expect(&Token::Colon)?;
        self.skip_newlines();
        self.expect(&Token::Indent)?;
        let body = self.parse_block()?;
        let mut catches: Vec<CatchClause> = Vec::new();
        self.skip_newlines();
        let ghost start = self.position();
        proof { lemma_pre_empty(sp_catches(ts, start)); }
        assert(catches_v(catches@) =~= seq![]);
        while self.peek_is(&Token::KwCatch)
            invariant
                self.inv(),
                self.toks_v() == ts,
                start <= self.position() <= ts.len(),
                sp_catches(ts, start) == pre(catches_v(catches@), sp_catches(ts, self.position())),
            decreases ts.len() - self.position(),
        {
            let ghost cur = self.position();
            self.advance();
            let error_type = self.expect_ident()?;
            self.expect(&Token::KwAs)?;
            let binding = self.expect_ident()?;
            self.expect(&Token::Colon)?;
            self.skip_newlines();
            self.expect(&Token::Indent)?;
            let catch_body = self.parse_block()?;
            let c = CatchClause { error_type, binding, body: catch_body };
            self.skip_newlines();
            proof {
                lemma_pre_step(catches_v(catches@), catch_v(c), sp_catches(ts, self.position()));
                assert(catches_v(catches@.push(c)) =~= catches_v(catches@).push(catch_v(c)));
            }
            catches.push(c);
        }
        assert(catches_v(catches@) + Seq::<CatchV>::empty() =~= catches_v(catches@));
        Ok(Stmt::TryCatch { body, catches })
    }

    fn parse_input_decl(&mut self) -> (r: Result<InputDecl, VenturiError>)
        requires
            old(self).inv(),
        ensures
            final(self).inv(),
            final(self).toks_v() == old(self).toks_v(),
            pmatch(r, sp_input(old(self).toks_v(), old(self).position()), |d: InputDecl| input_v(d), final(self).position()),
            r is Ok ==> old(self).position() < final(self).position() <= final(self).toks_v().len(),
    {
        self.expect(&Token::KwInput)?;
        let name = self.expect_ident()?;
        self.expect(&Token::Colon)?;
        let ty = self.parse_type()?;
        let default = if self.peek_is(&Token::Equals) {
            self.advance();
            Some(self.parse_expr()?)
        } else {
            None
        };
        Ok(InputDecl { name, ty, default })
    }

    fn parse_output_decl(&mut self) -> (r: Result<OutputDecl, VenturiError>)
        requires
            old(self).inv(),
        ensures
            final(self).inv(),
            final(self).toks_v() == old(self).toks_v(),
            pmatch(r, sp_output(old(self).toks_v(), old(self).position()),
                |d: OutputDecl| OutputV { name: d.name@, ty: type_v(d.ty) }, final(self).position()),
            r is Ok ==> old(self).position() < final(self).position() <= final(self).toks_v().len(),
    {
        self.expect(&Token::KwOutput)?;
        let name = self.expect_ident()?;
        self.expect(&Token::Colon)?;
        let ty = self.parse_type()?;
        Ok(OutputDecl { name, ty })
    }

    fn parse_use_chassis(&mut self) -> (r: Result<UseChass, VenturiError>)
        requires
            old(self).inv(),
        ensures
            final(self).inv(),
            final(self).toks_v() == old(self).toks_v(),
            pmatch(r, sp_use(old(self).toks_v(), old(self).position()),
                |u: UseChass| UseV { path: u.path@, alias: u.alias@ }, final(self).position()),
            r is Ok ==> old(self).position() < final(self).position() <= final(self).toks_v().len(),
    {
        self.expect(&Token::KwUse)?;
        self.expect(&Token::KwChassis)?;
        let path = self.expect_ident_or_path()?;
        self.expect(&Token::KwAs)?;
        let alias = self.expect_ident()?;
        Ok(UseChass { path, alias })
    }

    fn parse_pit_ref(&mut self) -> (r: Result<PitRef, VenturiError>)
        requires
            old(self).inv(),
        ensures
            final(self).inv(),
            final(self).toks_v() == old(self).toks_v(),
            pmatch(r, sp_pit(old(self).toks_v(), old(self).position()), |p: PitRef| p.url@, final(self).position()),
            r is Ok ==> old(self).position() < final(self).position() <= final(self).toks_v().len(),
    {
        self.expect(&Token::KwPit)?;
        self.expect(&Token::At)?;
        let url = self.expect_ident_or_path()?;
        let url = concat("@", url.as_str());
        assert("@"@ =~= seq!['@']) by { reveal_strlit("@"); }
        Ok(PitRef { url })
    }

    #[verifier::loop_isolation(false)]
    fn parse_func_def(&mut self) -> (r: Result<FuncDef, VenturiError>)
        requires
            old(self).inv(),
        ensures
            final(self).inv(),
            final(self).toks_v() == old(self).toks_v(),
            pmatch(r, sp_func(old(self).toks_v(), old(self).position()), |f: FuncDef| func_v(f), final(self).position()),
            r is Ok ==> old(self).position() < final(self).position() <= final(self).toks_v().len(),
    {
        let ghost ts = self.toks_v();
        self.expect(&Token::KwFunc)?;
        let name = self.expect_ident()?;
        self.expect(&Token::LParen)?;
        let mut params: Vec<String> = Vec::new();
        let ghost start = self.position();
        proof { lemma_pre_empty(sp_params(ts, start)); }
        assert(strings_v(params@) =~= seq![]);
        while !self.peek_is(&Token::RParen)
            invariant
                self.inv(),
                self.toks_v() == ts,
                start <= self.position() <= ts.len(),
                sp_params(ts, start) == pre(strings_v(params@), sp_params(ts, self.position())),
            decreases ts.len() - self.position(),
        {
            let ghost cur = self.position();
            let param = self.expect_ident()?;
            if self.peek_is(&Token::Comma) {
                self.advance();
            }
            proof {
                lemma_pre_step(strings_v(params@), param@, sp_params(ts, self.position()));
                assert(strings_v(params@.push(param)) =~= strings_v(params@).push(param@));
            }
            params.push(param);
        }
        assert(strings_v(params@) + Seq::<Seq<char>>::empty() =~= strings_v(params@));
        self.expect(&Token::RParen)?;
        self.expect(&Token::Colon)?;
        self.skip_newlines();
        self.expect(&Token::Indent)?;
        let body = self.parse_block()?;
        Ok(FuncDef { name, params, body })
    }

    fn try_parse_dag_wire(&mut self) -> (r: Result<Option<DagWire>, VenturiError>)
        requires
            old(self).inv(),
            pk(old(self).toks_v(), old(self).position()) is Ident,
        ensures
            final(self).inv(),
            final(self).toks_v() == old(self).toks_v(),
            ({
                let ts = old(self).toks_v();
                let q = old(self).position();
                if q + 1 < ts.len() && ts[q + 1].token is Arrow {
                    match sp_path(ts, q + 2) {
                        Ok((to, r2)) => r matches Ok(Some(w)) && w.from@ == pk(ts, q)->Ident_0 && w.to@ == to
                            && final(self).position() == r2,
                        Err(e) => r matches Err(VenturiError::Parse { line, msg }) && line == e.line && msg@ == e.msg,
                    }
                } else {
                    r matches Ok(None) && final(self).position() == q
                }
            }),
    {
        let n = self.tokens.len();
        let from = match &self.tokens[self.pos].token {
            Token::Ident(s) => s.clone(),
            _ => String::new(),
        };
        if self.pos + 1 < n && token_eq(&self.tokens[self.pos + 1].token, &Token::Arrow) {
            self.advance();
            self.advance();
            let to = self.expect_ident_or_path()?;
            Ok(Some(DagWire { from, to }))
        } else {
            Ok(None)
        }
    }

    /// Parses a file from the current position on: an optional shebang that
    /// fixes the kind, then the top-level declarations up to `Eof`.
    #[verifier::loop_isolation(false)]
    #[verifier::rlimit(60)]
    pub fn parse_file(&mut self) -> (r: Result<VtFile, VenturiError>)
        requires
            old(self).inv(),
        ensures
            final(self).inv(),
            final(self).toks_v() == old(self).toks_v(),
            file_matches(r, sp_file(old(self).toks_v(), old(self).position())),
    {
        let ghost ts = self.toks_v();
        let ghost p0 = self.position();
        let mut kind = NodeKind::Plane;
        if self.pos < self.tokens.len() {
            match &self.tokens[self.pos].token {
                Token::Shebang(sb) => {
                    let sb = sb.clone();
                    self.advance();
                    kind = shebang_kind_exec(&sb);
                },
                _ => {},
            }
        }
        let mut vt = VtFile::new(kind);
        self.skip_newlines();
        loop
            invariant
                self.inv(),
                self.toks_v() == ts,
                0 <= self.position() <= ts.len(),
                sp_file(ts, p0) == sp_top(ts, self.position(), file_v(vt)),
            decreases ts.len() - self.position(),
        {
            let ghost cur = self.position();
            let ghost f = file_v(vt);
            self.skip_newlines();
            let ghost q = self.position();
            if self.pos >= self.tokens.len() {
                break;
            }
            match &self.tokens[self.pos].token {
                Token::Eof => {
                    break;
                },
                Token::VanDecl(v) => {
                    vt.van = Some(v.clone());
                    self.advance();
                    assert(file_v(vt) =~= FileV { van: Some(pk(ts, q)->VanDecl_0), ..f });
                },
                Token::MetaComment(c) => {
                    let c = c.clone();
                    self.advance();
                    apply_meta(&mut vt, &c);
                },
                Token::Comment => {
                    self.advance();
                },
                Token::KwInput => {
                    let d = self.parse_input_decl()?;
                    let ghost dv = input_v(d);
                    vt.inputs.push(d);
                    assert(file_v(vt) =~= FileV { inputs: f.inputs.push(dv), ..f });
                },
                Token::KwOutput => {
                    let d = self.parse_output_decl()?;
                    let ghost dv = OutputV { name: d.name@, ty: type_v(d.ty) };
                    vt.outputs.push(d);
                    assert(file_v(vt) =~= FileV { outputs: f.outputs.push(dv), ..f });
                },
                Token::KwUse => {
                    let d = self.parse_use_chassis()?;
                    let ghost dv = UseV { path: d.path@, alias: d.alias@ };
                    vt.uses.push(d);
                    assert(file_v(vt) =~= FileV { uses: f.uses.push(dv), ..f });
                },
                Token::KwPit => {
                    let d = self.parse_pit_ref()?;
                    let ghost dv = d.url@;
                    vt.pits.push(d);
                    assert(file_v(vt) =~= FileV { pits: f.pits.push(dv), ..f });
                },
                Token::KwFunc => {
                    let d = self.parse_func_def()?;
                    let ghost dv = func_v(d);
                    vt.func = Some(d);
                    assert(file_v(vt) =~= FileV { func: Some(dv), ..f });
                },
                Token::Ident(_) => {
                    match self.try_parse_dag_wire()? {
                        Some(w) => {
                            let ghost wv = WireV { from: w.from@, to: w.to@ };
                            vt.dag_wires.push(w);
                            assert(file_v(vt) =~= FileV { wires: f.wires.push(wv), ..f });
                        },
                        None => {
                            self.advance();
                        },
                    }
                },
                _ => {
                    self.advance();
                },
            }
        }
        Ok(vt)
    }
}


/// What `tokenize` produces is always something `parse` accepts: it ends
/// with `Eof`.
pub proof fn lemma_tokenize_then_parse(source: Seq<char>)
    requires
        source.len() < usize::MAX,
    ensures
        crate::lexer::spec_tokenize(source, crate::lexer::initial_state()) matches Ok(ts) ==> well_ended(ts),
{
    crate::lexer::lemma_tokens_end_with_eof(source, crate::lexer::initial_state());
}

/// A type name read back is the name that was written: printing the type
/// that a type name parses to gives the name again, so each builtin name
/// (`Int`, `Float`, `Bool`, `String`, `DataFrame`) parses to the type of
/// that name and two different names never parse to the same type.
pub proof fn lemma_type_name_round_trip(n: Seq<char>, ts: Seq<STok>, p: int)
    ensures
        crate::ast::type_text(named_type(n)) == n,
        (0 <= p < ts.len() && ts[p].token == Tok::TypeName(n)) ==> (sp_type(ts, p) matches Ok((t, q))
            && crate::ast::type_text(t) == n && q == p + 1),
{
}

/// Different type names parse to different types.
pub proof fn lemma_type_names_distinct(a: Seq<char>, b: Seq<char>)
    requires
        a != b,
    ensures
        named_type(a) != named_type(b),
{
    lemma_type_name_round_trip(a, seq![], 0);
    lemma_type_name_round_trip(b, seq![], 0);
}

} // verus!
