//! The compiler: a function body to bytecode.

use vstd::prelude::*;
use crate::ast::{CatchClause, CatchV, Expr, ExprV, FuncDef, FuncV, Stmt, StmtV, catch_v, catches_v, expr_v, exprs_v, func_v, stmt_v, stmts_v};
use crate::bytecode::{InstrV, Instruction, Value, ValueV, code_v, instr_v, value_v};
use crate::text::str_eq;

verus! {

/// The code of an expression: operands first, then the operation.
pub open spec fn c_expr(e: ExprV) -> Seq<InstrV>
    decreases e,
{
    match e {
        ExprV::IntLit(n) => seq![InstrV::Push(ValueV::Int(n))],
        ExprV::FloatLit(t) => seq![InstrV::Push(ValueV::Float(t))],
        ExprV::StrLit(s) => seq![InstrV::Push(ValueV::Str(s))],
        ExprV::BoolLit(b) => seq![InstrV::Push(ValueV::Bool(b))],
        ExprV::Ident(n) => seq![InstrV::Load(n)],
        ExprV::Call(name, args) => if name == "log"@ {
            c_args(args).push(InstrV::Log)
        } else {
            c_args(args).push(InstrV::Call(name, args.len()))
        },
        ExprV::FieldAccess(obj, f) => c_expr(*obj).push(InstrV::Call(f, 1)),
        ExprV::ResultOk(inner) => c_expr(*inner).push(InstrV::WrapOk),
        ExprV::ResultErr(inner) => c_expr(*inner).push(InstrV::WrapErr),
    }
}

/// The code of call arguments, left to right.
pub open spec fn c_args(args: Seq<ExprV>) -> Seq<InstrV>
    decreases args,
{
    if args.len() == 0 {
        seq![]
    } else {
        c_args(args.drop_last()) + c_expr(args.last())
    }
}

/// One `PushCatcher` per clause, each aimed at its handler; the handlers
/// start at `start`.
pub open spec fn catcher_pushes(cs: Seq<CatchV>, start: int) -> Seq<InstrV>
    decreases cs,
{
    Seq::new(cs.len(), |i: int| if 0 <= i < cs.len() {
        InstrV::PushCatcher(cs[i].error_type, (start + c_handlers(cs.subrange(0, i), start, 0).len()) as nat)
    } else {
        InstrV::Nop
    })
}

/// `n` times `PopCatcher`.
pub open spec fn catcher_pops(n: nat) -> Seq<InstrV> {
    Seq::new(n, |i: int| InstrV::PopCatcher)
}

/// The code of a statement placed at address `base`. A `try` with `n`
/// catch clauses is laid out as: one `PushCatcher` per clause (pointing at
/// its handler), the body, one `PopCatcher` per clause, a jump past the
/// handlers, then each handler (store the message in the binding, run the
/// clause body, jump to the end).
pub open spec fn c_stmt(s: StmtV, base: int) -> Seq<InstrV>
    decreases s,
{
    match s {
        StmtV::Assign(n, e) => c_expr(e).push(InstrV::Store(n)),
        StmtV::Return(e) => c_expr(e).push(InstrV::Return),
        StmtV::Expr(e) => c_expr(e).push(InstrV::Pop),
        StmtV::TryCatch { body, catches } => {
            let n = catches.len() as int;
            let bc = c_block(body, base + n);
            let jp = base + n + bc.len() + n;
            let end = jp + 1 + c_handlers(catches, jp + 1, 0).len();
            catcher_pushes(catches, jp + 1) + bc + catcher_pops(catches.len()) + seq![InstrV::Jump(end as nat)]
                + c_handlers(catches, jp + 1, end)
        },
    }
}

/// The code of a block of statements placed at address `base`.
pub open spec fn c_block(ss: Seq<StmtV>, base: int) -> Seq<InstrV>
    decreases ss,
{
    if ss.len() == 0 {
        seq![]
    } else {
        let pre = c_block(ss.drop_last(), base);
        pre + c_stmt(ss.last(), base + pre.len())
    }
}

/// The handlers of catch clauses placed at address `start`, each ending
/// with a jump to `end`.
pub open spec fn c_handlers(cs: Seq<CatchV>, start: int, end: int) -> Seq<InstrV>
    decreases cs,
{
    if cs.len() == 0 {
        seq![]
    } else {
        let pre = c_handlers(cs.drop_last(), start, end);
        let h = start + pre.len();
        pre + seq![InstrV::Store(cs.last().binding)] + c_block(cs.last().body, h + 1) + seq![InstrV::Jump(end as nat)]
    }
}

/// The code of a function: its body, then `Push(Null); Return` unless the
/// body already ends with `Return`.
pub open spec fn c_func(f: FuncV) -> Seq<InstrV> {
    let c = c_block(f.body, 0);
    if c.len() > 0 && c.last() is Return {
        c
    } else {
        c + seq![InstrV::Push(ValueV::Null), InstrV::Return]
    }
}

/// Where control may go from an instruction: its jump or handler target.
pub open spec fn target(i: InstrV) -> Option<nat> {
    match i {
        InstrV::Jump(t) => Some(t),
        InstrV::JumpIfFalse(t) => Some(t),
        InstrV::PushCatcher(_, t) => Some(t),
        _ => None,
    }
}

/// Every target in `c` lies in `(lo, hi]`, or is `extra`.
pub open spec fn targets_in(c: Seq<InstrV>, lo: int, hi: int, extra: int) -> bool {
    forall|k: int| 0 <= k < c.len() ==> match #[trigger] target(c[k]) {
        Some(t) => (lo < t <= hi) || t == extra,
        None => true,
    }
}

proof fn lemma_targets_concat(a: Seq<InstrV>, b: Seq<InstrV>, lo: int, hi: int, extra: int)
    requires
        targets_in(a, lo, hi, extra),
        targets_in(b, lo, hi, extra),
    ensures
        targets_in(a + b, lo, hi, extra),
{
    assert forall|k: int| 0 <= k < (a + b).len() implies match #[trigger] target((a + b)[k]) {
        Some(t) => (lo < t <= hi) || t == extra,
        None => true,
    } by {
        if k < a.len() {
            assert((a + b)[k] == a[k]);
        } else {
            assert((a + b)[k] == b[k - a.len()]);
        }
    }
}

proof fn lemma_targets_widen(c: Seq<InstrV>, lo: int, hi: int, extra: int, lo2: int, hi2: int, extra2: int)
    requires
        targets_in(c, lo, hi, extra),
        lo2 <= lo,
        hi <= hi2,
        extra == extra2 || (lo2 < extra <= hi2) || extra < 0,
    ensures
        targets_in(c, lo2, hi2, extra2),
{
}

proof fn lemma_expr_code(e: ExprV)
    ensures
        targets_in(c_expr(e), 0, 0, -1),
    decreases e,
{
    match e {
        ExprV::Call(name, args) => {
            lemma_args_code(args);
            lemma_targets_concat(c_args(args), seq![InstrV::Log], 0, 0, -1);
            lemma_targets_concat(c_args(args), seq![InstrV::Call(name, args.len())], 0, 0, -1);
        },
        ExprV::FieldAccess(obj, f) => {
            lemma_expr_code(*obj);
            lemma_targets_concat(c_expr(*obj), seq![InstrV::Call(f, 1)], 0, 0, -1);
        },
        ExprV::ResultOk(inner) => {
            lemma_expr_code(*inner);
            lemma_targets_concat(c_expr(*inner), seq![InstrV::WrapOk], 0, 0, -1);
        },
        ExprV::ResultErr(inner) => {
            lemma_expr_code(*inner);
            lemma_targets_concat(c_expr(*inner), seq![InstrV::WrapErr], 0, 0, -1);
        },
        _ => {},
    }
}

proof fn lemma_args_code(args: Seq<ExprV>)
    ensures
        targets_in(c_args(args), 0, 0, -1),
    decreases args,
{
    if args.len() > 0 {
        lemma_args_code(args.drop_last());
        lemma_expr_code(args.last());
        lemma_targets_concat(c_args(args.drop_last()), c_expr(args.last()), 0, 0, -1);
    }
}

/// The length of compiled code does not depend on where it is placed.
proof fn lemma_stmt_len(s: StmtV, b1: int, b2: int)
    ensures
        c_stmt(s, b1).len() == c_stmt(s, b2).len(),
    decreases s,
{
    match s {
        StmtV::TryCatch { body, catches } => {
            let n = catches.len() as int;
            lemma_block_len(body, b1 + n, b2 + n);
            let jp1 = b1 + n + c_block(body, b1 + n).len() + n;
            let jp2 = b2 + n + c_block(body, b2 + n).len() + n;
            let e1 = jp1 + 1 + c_handlers(catches, jp1 + 1, 0).len();
            let e2 = jp2 + 1 + c_handlers(catches, jp2 + 1, 0).len();
            lemma_handlers_len(catches, jp1 + 1, e1, jp2 + 1, e2);
        },
        _ => {},
    }
}

proof fn lemma_block_len(ss: Seq<StmtV>, b1: int, b2: int)
    ensures
        c_block(ss, b1).len() == c_block(ss, b2).len(),
    decreases ss,
{
    if ss.len() > 0 {
        lemma_block_len(ss.drop_last(), b1, b2);
        let p1 = c_block(ss.drop_last(), b1);
        let p2 = c_block(ss.drop_last(), b2);
        lemma_stmt_len(ss.last(), b1 + p1.len(), b2 + p2.len());
    }
}

proof fn lemma_handlers_len(cs: Seq<CatchV>, s1: int, e1: int, s2: int, e2: int)
    ensures
        c_handlers(cs, s1, e1).len() == c_handlers(cs, s2, e2).len(),
    decreases cs,
{
    if cs.len() > 0 {
        lemma_handlers_len(cs.drop_last(), s1, e1, s2, e2);
        let h1 = s1 + c_handlers(cs.drop_last(), s1, e1).len();
        let h2 = s2 + c_handlers(cs.drop_last(), s2, e2).len();
        lemma_block_len(cs.last().body, h1 + 1, h2 + 1);
    }
}

/// The handlers of the first `i` clauses are the start of the handlers of
/// all of them.
proof fn lemma_handlers_prefix(cs: Seq<CatchV>, i: int, s: int, e: int)
    requires
        0 <= i <= cs.len(),
    ensures
        c_handlers(cs.subrange(0, i), s, e).len() <= c_handlers(cs, s, e).len(),
        c_handlers(cs, s, e).subrange(0, c_handlers(cs.subrange(0, i), s, e).len() as int)
            == c_handlers(cs.subrange(0, i), s, e),
    decreases cs.len(),
{
    if i == cs.len() {
        assert(cs.subrange(0, i) =~= cs);
        assert(c_handlers(cs, s, e).subrange(0, c_handlers(cs, s, e).len() as int) =~= c_handlers(cs, s, e));
    } else {
        lemma_handlers_prefix(cs.drop_last(), i, s, e);
        assert(cs.drop_last().subrange(0, i) =~= cs.subrange(0, i));
        let a = c_handlers(cs.drop_last(), s, e);
        let pl = c_handlers(cs.subrange(0, i), s, e).len() as int;
        assert(c_handlers(cs, s, e).subrange(0, pl) =~= a.subrange(0, pl));
    }
}

/// Compiled code only jumps forward and never past its own end: every
/// target of a statement placed at `base` lies in `(base, base + len]`.
proof fn lemma_stmt_targets(s: StmtV, base: int)
    requires
        base >= 0,
    ensures
        targets_in(c_stmt(s, base), base, base + c_stmt(s, base).len(), -1),
    decreases s,
{
    match s {
        StmtV::Assign(n, e) => {
            lemma_expr_code(e);
            lemma_targets_concat(c_expr(e), seq![InstrV::Store(n)], 0, 0, -1);
        },
        StmtV::Return(e) => {
            lemma_expr_code(e);
            lemma_targets_concat(c_expr(e), seq![InstrV::Return], 0, 0, -1);
        },
        StmtV::Expr(e) => {
            lemma_expr_code(e);
            lemma_targets_concat(c_expr(e), seq![InstrV::Pop], 0, 0, -1);
        },
        StmtV::TryCatch { body, catches } => {
            let n = catches.len() as int;
            let bc = c_block(body, base + n);
            let jp = base + n + bc.len() + n;
            let hs0 = c_handlers(catches, jp + 1, 0);
            let end = jp + 1 + hs0.len();
            let hs = c_handlers(catches, jp + 1, end);
            lemma_handlers_len(catches, jp + 1, 0, jp + 1, end);
            let pushes = catcher_pushes(catches, jp + 1);
            let pops = catcher_pops(catches.len());
            let total = c_stmt(s, base);
            assert(total == pushes + bc + pops + seq![InstrV::Jump(end as nat)] + hs);
            assert(total.len() == end - base);
            assert(targets_in(pushes, base, end, -1)) by {
                assert forall|k: int| 0 <= k < pushes.len() implies match #[trigger] target(pushes[k]) {
                    Some(t) => (base < t <= end) || t == -1,
                    None => true,
                } by {
                    lemma_handlers_prefix(catches, k, jp + 1, 0);
                }
            }
            lemma_block_targets(body, base + n);
            lemma_targets_widen(bc, base + n, base + n + bc.len(), -1, base, end, -1);
            lemma_handlers_targets(catches, jp + 1, end);
            lemma_targets_widen(hs, jp + 1, jp + 1 + hs.len(), end, base, end, -1);
            lemma_targets_concat(pushes, bc, base, end, -1);
            lemma_targets_concat(pushes + bc, pops, base, end, -1);
            lemma_targets_concat(pushes + bc + pops, seq![InstrV::Jump(end as nat)], base, end, -1);
            lemma_targets_concat(pushes + bc + pops + seq![InstrV::Jump(end as nat)], hs, base, end, -1);
        },
    }
}

proof fn lemma_block_targets(ss: Seq<StmtV>, base: int)
    requires
        base >= 0,
    ensures
        targets_in(c_block(ss, base), base, base + c_block(ss, base).len(), -1),
    decreases ss,
{
    if ss.len() > 0 {
        let pre = c_block(ss.drop_last(), base);
        let st = c_stmt(ss.last(), base + pre.len());
        lemma_block_targets(ss.drop_last(), base);
        lemma_stmt_targets(ss.last(), base + pre.len());
        lemma_targets_widen(pre, base, base + pre.len(), -1, base, base + pre.len() + st.len(), -1);
        lemma_targets_widen(st, base + pre.len(), base + pre.len() + st.len(), -1, base, base + pre.len() + st.len(), -1);
        lemma_targets_concat(pre, st, base, base + pre.len() + st.len(), -1);
    }
}

proof fn lemma_handlers_targets(cs: Seq<CatchV>, start: int, end: int)
    requires
        start >= 0,
        end >= 0,
    ensures
        targets_in(c_handlers(cs, start, end), start, start + c_handlers(cs, start, end).len(), end),
    decreases cs,
{
    if cs.len() > 0 {
        let pre = c_handlers(cs.drop_last(), start, end);
        let h = start + pre.len();
        let blk = c_block(cs.last().body, h + 1);
        let whole = c_handlers(cs, start, end);
        let hi = start + whole.len();
        lemma_handlers_targets(cs.drop_last(), start, end);
        lemma_block_targets(cs.last().body, h + 1);
        lemma_targets_widen(pre, start, start + pre.len(), end, start, hi, end);
        lemma_targets_widen(blk, h + 1, h + 1 + blk.len(), -1, start, hi, end);
        lemma_targets_concat(pre, seq![InstrV::Store(cs.last().binding)], start, hi, end);
        lemma_targets_concat(pre + seq![InstrV::Store(cs.last().binding)], blk, start, hi, end);
        assert(targets_in(seq![InstrV::Jump(end as nat)], start, hi, end)) by {
            assert(target(seq![InstrV::Jump(end as nat)][0]) == Some(end as nat));
        }
        lemma_targets_concat(pre + seq![InstrV::Store(cs.last().binding)] + blk, seq![InstrV::Jump(end as nat)], start, hi, end);
        assert(whole == pre + seq![InstrV::Store(cs.last().binding)] + blk + seq![InstrV::Jump(end as nat)]);
    }
}

/// `c` with every `Jump(0)` aimed at `end` instead.
pub open spec fn patch_zero(c: Seq<InstrV>, end: nat) -> Seq<InstrV> {
    c.map_values(|i: InstrV| if i == InstrV::Jump(0) { InstrV::Jump(end) } else { i })
}

proof fn lemma_patch_handlers(cs: Seq<CatchV>, start: int, end: int)
    requires
        start >= 1,
        end >= 0,
    ensures
        patch_zero(c_handlers(cs, start, 0), end as nat) == c_handlers(cs, start, end),
    decreases cs,
{
    if cs.len() > 0 {
        lemma_patch_handlers(cs.drop_last(), start, end);
        lemma_handlers_len(cs.drop_last(), start, 0, start, end);
        let pre0 = c_handlers(cs.drop_last(), start, 0);
        let h = start + pre0.len();
        let blk = c_block(cs.last().body, h + 1);
        lemma_block_targets(cs.last().body, h + 1);
        assert(patch_zero(blk, end as nat) =~= blk) by {
            assert forall|k: int| 0 <= k < blk.len() implies patch_zero(blk, end as nat)[k] == blk[k] by {
                assert(match target(blk[k]) { Some(t) => (h + 1 < t <= h + 1 + blk.len()) || t == -1, None => true });
            }
        }
        let whole0 = c_handlers(cs, start, 0);
        assert(patch_zero(whole0, end as nat) =~= c_handlers(cs, start, end)) by {
            assert(whole0 == pre0 + seq![InstrV::Store(cs.last().binding)] + blk + seq![InstrV::Jump(0)]);
            assert forall|k: int| 0 <= k < whole0.len() implies patch_zero(whole0, end as nat)[k] == c_handlers(cs, start, end)[k] by {
                if k < pre0.len() {
                    assert(patch_zero(pre0, end as nat)[k] == patch_zero(whole0, end as nat)[k]);
                } else if k < pre0.len() + 1 + blk.len() && k > pre0.len() {
                    assert(patch_zero(blk, end as nat)[k - pre0.len() - 1] == patch_zero(whole0, end as nat)[k]);
                }
            }
        }
    } else {
        assert(patch_zero(c_handlers(cs, start, 0), end as nat) =~= c_handlers(cs, start, end));
    }
}

/// The code of a function appended to `prefix`: the body placed after the
/// prefix, then `Push(Null); Return` unless the code so far ends with `Return`.
pub open spec fn c_func_after(prefix: Seq<InstrV>, f: FuncV) -> Seq<InstrV> {
    let c = prefix + c_block(f.body, prefix.len() as int);
    if c.len() > 0 && c.last() is Return {
        c
    } else {
        c + seq![InstrV::Push(ValueV::Null), InstrV::Return]
    }
}

/// The value of a `try` statement with the given body and clauses.
pub open spec fn try_v(body: Seq<Stmt>, catches: Seq<CatchClause>) -> StmtV {
    StmtV::TryCatch { body: stmts_v(body), catches: catches_v(catches) }
}

/// `n` placeholder catchers, one per clause, aimed at address 0.
pub open spec fn placeholder_pushes(cs: Seq<CatchV>) -> Seq<InstrV> {
    Seq::new(cs.len(), |i: int| InstrV::PushCatcher(cs[i].error_type, 0))
}

proof fn lemma_code_push(c: Seq<Instruction>, i: Instruction)
    ensures
        code_v(c.push(i)) == code_v(c).push(instr_v(i)),
{
    assert(code_v(c.push(i)) =~= code_v(c).push(instr_v(i)));
}

/// How the code of a `try` looks before its jumps are aimed (`stage`: every
/// catcher and every closing jump aimed at 0) against how it must look in
/// the end (`target`): they differ only at the catchers, at the jump past the
/// handlers, and at the handlers' closing jumps.
proof fn lemma_try_layout(before: Seq<InstrV>, bs: Seq<StmtV>, cs: Seq<CatchV>)
    ensures
        ({
            let base = before.len() as int;
            let n = cs.len() as int;
            let bc = c_block(bs, base + n);
            let jp = base + n + bc.len() + n;
            let h0 = c_handlers(cs, jp + 1, 0);
            let end = jp + 1 + h0.len();
            let stage = before + placeholder_pushes(cs) + bc + catcher_pops(cs.len()) + seq![InstrV::Jump(0)] + h0;
            let target = before + c_stmt(StmtV::TryCatch { body: bs, catches: cs }, base);
            &&& stage.len() == end
            &&& target.len() == end
            &&& forall|j: int| (0 <= j < base || base + n <= j < jp) ==> #[trigger] stage[j] == target[j]
            &&& forall|k: int| 0 <= k < n ==> #[trigger] stage[base + k] == InstrV::PushCatcher(cs[k].error_type, 0)
                && target[base + k] == InstrV::PushCatcher(cs[k].error_type,
                    (jp + 1 + c_handlers(cs.subrange(0, k), jp + 1, 0).len()) as nat)
            &&& stage[jp] == InstrV::Jump(0)
            &&& target[jp] == InstrV::Jump(end as nat)
            &&& forall|j: int| jp < j < end ==> #[trigger] target[j]
                == (if stage[j] == InstrV::Jump(0) { InstrV::Jump(end as nat) } else { stage[j] })
        }),
{
    let base = before.len() as int;
    let n = cs.len() as int;
    let bc = c_block(bs, base + n);
    let jp = base + n + bc.len() + n;
    let h0 = c_handlers(cs, jp + 1, 0);
    let end = jp + 1 + h0.len();
    let h = c_handlers(cs, jp + 1, end);
    lemma_handlers_len(cs, jp + 1, 0, jp + 1, end);
    lemma_patch_handlers(cs, jp + 1, end);
    let p0 = placeholder_pushes(cs);
    let pushes = catcher_pushes(cs, jp + 1);
    let pops = catcher_pops(cs.len());
    let stage = before + p0 + bc + pops + seq![InstrV::Jump(0)] + h0;
    let body = pushes + bc + pops + seq![InstrV::Jump(end as nat)] + h;
    let target = before + c_stmt(StmtV::TryCatch { body: bs, catches: cs }, base);
    assert(c_stmt(StmtV::TryCatch { body: bs, catches: cs }, base) == body);
    assert forall|j: int| (0 <= j < base || base + n <= j < jp) implies #[trigger] stage[j] == target[j] by {
        if j >= base {
            let r = j - base - n;
            if r < bc.len() {
                assert(stage[j] == bc[r]);
                assert(target[j] == bc[r]);
            } else {
                assert(stage[j] == pops[r - bc.len()]);
                assert(target[j] == pops[r - bc.len()]);
            }
        }
    }
    assert forall|k: int| 0 <= k < n implies #[trigger] stage[base + k] == InstrV::PushCatcher(cs[k].error_type, 0)
        && target[base + k] == InstrV::PushCatcher(cs[k].error_type,
            (jp + 1 + c_handlers(cs.subrange(0, k), jp + 1, 0).len()) as nat) by {
        assert(stage[base + k] == p0[k]);
        assert(target[base + k] == pushes[k]);
    }
    assert(stage[jp] == InstrV::Jump(0));
    assert(target[jp] == InstrV::Jump(end as nat));
    assert forall|j: int| jp < j < end implies #[trigger] target[j]
        == (if stage[j] == InstrV::Jump(0) { InstrV::Jump(end as nat) } else { stage[j] }) by {
        let r = j - jp - 1;
        assert(stage[j] == h0[r]);
        assert(target[j] == h[r]);
        assert(h[r] == patch_zero(h0, end as nat)[r]);
    }
}

/// Emits bytecode for one function body.
pub struct Compiler {
    code: Vec<Instruction>,
}

impl Compiler {
    /// The code emitted so far.
    pub closed spec fn emitted(&self) -> Seq<InstrV> {
        code_v(self.code@)
    }

    /// A compiler that has emitted nothing.
    pub fn new() -> (r: Compiler)
        ensures
            r.emitted() == Seq::<InstrV>::empty(),
    {
        let r = Compiler { code: Vec::new() };
        assert(code_v(r.code@) =~= Seq::<InstrV>::empty());
        r
    }

    fn emit(&mut self, i: Instruction)
        ensures
            code_v(final(self).code@) == code_v(old(self).code@).push(instr_v(i)),
    {
        proof { lemma_code_push(self.code@, i); }
        self.code.push(i);
    }

    /// Compiles the body of `func`, then makes sure the code ends with a
    /// `Return` (of null, where the body did not return).
    pub fn compile_func(self, func: &FuncDef) -> (r: Vec<Instruction>)
        ensures
            code_v(r@) == c_func_after(self.emitted(), func_v(*func)),
    {
        let mut this = self;
        this.compile_block(&func.body);
        let n = this.code.len();
        let ends_with_return = if n > 0 {
            match &this.code[n - 1] {
                Instruction::Return => true,
                _ => false,
            }
        } else {
            false
        };
        if !ends_with_return {
            this.emit(Instruction::Push(Value::Null));
            this.emit(Instruction::Return);
        }
        this.code
    }

    fn compile_block(&mut self, stmts: &Vec<Stmt>)
        ensures
            code_v(final(self).code@) == code_v(old(self).code@) + c_block(stmts_v(stmts@), old(self).code@.len() as int),
        decreases stmts_v(stmts@), 1int,
    {
        let ghost start = self.code@.len() as int;
        let ghost before = code_v(self.code@);
        let ghost ss = stmts_v(stmts@);
        let mut i: usize = 0;
        assert(ss.subrange(0, 0) =~= Seq::<StmtV>::empty());
        while i < stmts.len()
            invariant
                i <= stmts@.len(),
                ss == stmts_v(stmts@),
                ss.len() == stmts@.len(),
                start == old(self).code@.len(),
                before == code_v(old(self).code@),
                code_v(self.code@) == before + c_block(ss.subrange(0, i as int), start),
            decreases stmts.len() - i,
        {
            let ghost pre = c_block(ss.subrange(0, i as int), start);
            proof {
                assert(ss[i as int] == stmt_v(stmts@[i as int]));
                assert(decreases_to!(ss => ss[i as int]));
            }
            self.compile_stmt(&stmts[i]);
            proof {
                let next = ss.subrange(0, i + 1);
                assert(next.drop_last() =~= ss.subrange(0, i as int));
                assert(next.last() == ss[i as int]);
                assert(c_block(next, start) == pre + c_stmt(ss[i as int], start + pre.len()));
                assert(code_v(self.code@) =~= before + c_block(next, start));
            }
            i = i + 1;
        }
        assert(ss.subrange(0, stmts@.len() as int) =~= ss);
    }

    /// Lays out a `try`: catchers, body, catcher pops, a jump past the
    /// handlers, then each handler; the catchers and jumps are emitted aimed
    /// at 0 and aimed at their targets once those are known.
    #[verifier::loop_isolation(false)]
    #[verifier::rlimit(50)]
    fn compile_try_catch(&mut self, body: &Vec<Stmt>, catches: &Vec<CatchClause>)
        ensures
            code_v(final(self).code@) == code_v(old(self).code@)
                + c_stmt(try_v(body@, catches@), old(self).code@.len() as int),
        decreases try_v(body@, catches@), 0int,
    {
        let ghost before = code_v(self.code@);
        let ghost base = self.code@.len() as int;
        let ghost cs = catches_v(catches@);
        let ghost bs = stmts_v(body@);
        let ghost n = cs.len() as int;
        let ghost whole = try_v(body@, catches@);
        let first_catcher = self.code.len();
        let mut i: usize = 0;
        assert(placeholder_pushes(cs.subrange(0, 0)) =~= Seq::<InstrV>::empty());
        while i < catches.len()
            invariant
                i <= n,
                code_v(self.code@) == before + placeholder_pushes(cs.subrange(0, i as int)),
            decreases catches.len() - i,
        {
            self.emit(Instruction::PushCatcher(catches[i].error_type.clone(), 0));
            assert(placeholder_pushes(cs.subrange(0, i + 1)) =~= placeholder_pushes(cs.subrange(0, i as int)).push(
                InstrV::PushCatcher(cs[i as int].error_type, 0)));
            i = i + 1;
        }
        assert(cs.subrange(0, n) =~= cs);
        let ghost p0 = placeholder_pushes(cs);
        proof {
            assert(whole->body == bs);
            assert(decreases_to!(whole => whole->body));
        }
        self.compile_block(body);
        let ghost bc = c_block(bs, base + n);
        i = 0;
        assert(catcher_pops(0) =~= Seq::<InstrV>::empty());
        while i < catches.len()
            invariant
                i <= n,
                code_v(self.code@) == before + p0 + bc + catcher_pops(i as nat),
            decreases catches.len() - i,
        {
            self.emit(Instruction::PopCatcher);
            assert(catcher_pops((i + 1) as nat) =~= catcher_pops(i as nat).push(InstrV::PopCatcher));
            i = i + 1;
        }
        let jump_past = self.code.len();
        let ghost jp = jump_past as int;
        assert(jp == base + n + bc.len() + n);
        self.emit(Instruction::Jump(0));
        let ghost head = before + p0 + bc + catcher_pops(n as nat) + seq![InstrV::Jump(0)];
        let mut handler_starts: Vec<usize> = Vec::new();
        i = 0;
        assert(c_handlers(cs.subrange(0, 0), jp + 1, 0) =~= Seq::<InstrV>::empty());
        assert(code_v(self.code@) =~= head + c_handlers(cs.subrange(0, 0), jp + 1, 0));
        while i < catches.len()
            invariant
                i <= n,
                code_v(self.code@) == head + c_handlers(cs.subrange(0, i as int), jp + 1, 0),
                handler_starts@.len() == i,
                forall|k: int| 0 <= k < i ==> handler_starts@[k] == jp + 1 + c_handlers(cs.subrange(0, k), jp + 1, 0).len(),
            decreases catches.len() - i,
        {
            let ghost pre = c_handlers(cs.subrange(0, i as int), jp + 1, 0);
            let handler_start = self.code.len();
            handler_starts.push(handler_start);
            self.emit(Instruction::Store(catches[i].binding.clone()));
            proof {
                assert(cs[i as int] == catch_v(catches@[i as int]));
                assert(whole->catches == cs);
                assert(decreases_to!(whole => whole->catches));
                assert(decreases_to!(whole->catches => whole->catches[i as int]));
                assert(decreases_to!(whole->catches[i as int] => whole->catches[i as int].body));
                assert(decreases_to!(whole => cs[i as int].body));
            }
            self.compile_block(&catches[i].body);
            self.emit(Instruction::Jump(0));
            proof {
                let next = cs.subrange(0, i + 1);
                assert(next.drop_last() =~= cs.subrange(0, i as int));
                assert(next.last() == cs[i as int]);
                assert(c_handlers(next, jp + 1, 0) == pre + seq![InstrV::Store(cs[i as int].binding)]
                    + c_block(cs[i as int].body, handler_start + 1) + seq![InstrV::Jump(0)]);
                assert(code_v(self.code@) =~= head + c_handlers(next, jp + 1, 0));
            }
            i = i + 1;
        }
        assert(cs.subrange(0, n) =~= cs);
        let end_ip = self.code.len();
        proof { lemma_try_layout(before, bs, cs); }
        let ghost stage = code_v(self.code@);
        let ghost target = before + c_stmt(whole, base);
        assert(stage == head + c_handlers(cs, jp + 1, 0));
        self.code[jump_past] = Instruction::Jump(end_ip);
        i = 0;
        while i < catches.len()
            invariant
                i <= n,
                self.code@.len() == stage.len(),
                forall|j: int| 0 <= j < stage.len() ==> #[trigger] code_v(self.code@)[j]
                    == (if (base <= j < base + i) || j == jp { target[j] } else { stage[j] }),
            decreases catches.len() - i,
        {
            let ghost prev = self.code@;
            let aimed = Instruction::PushCatcher(catches[i].error_type.clone(), handler_starts[i]);
            assert(target[base + i] == instr_v(aimed));
            self.code[first_catcher + i] = aimed;
            assert forall|j: int| 0 <= j < stage.len() implies #[trigger] code_v(self.code@)[j]
                == (if j == base + i { target[j] } else { code_v(prev)[j] }) by {
                assert(self.code@[j] == prev.update(base + i, aimed)[j]);
            }
            i = i + 1;
        }
        let mut ip = jump_past + 1;
        while ip < end_ip
            invariant
                jp < ip <= end_ip,
                self.code@.len() == stage.len(),
                forall|j: int| 0 <= j < stage.len() ==> #[trigger] code_v(self.code@)[j]
                    == (if (base <= j < base + n) || jp <= j < ip { target[j] } else { stage[j] }),
            decreases end_ip - ip,
        {
            let open = match &self.code[ip] {
                Instruction::Jump(t) => *t == 0,
                _ => false,
            };
            assert(code_v(self.code@)[ip as int] == stage[ip as int]);
            let ghost prev = self.code@;
            if open {
                self.code[ip] = Instruction::Jump(end_ip);
                assert forall|j: int| 0 <= j < stage.len() implies #[trigger] code_v(self.code@)[j]
                    == (if j == ip { target[j] } else { code_v(prev)[j] }) by {
                    assert(self.code@[j] == prev.update(ip as int, Instruction::Jump(end_ip))[j]);
                }
            } else {
                assert(stage[ip as int] != InstrV::Jump(0));
            }
            ip = ip + 1;
        }
        assert(code_v(self.code@) =~= code_v(old(self).code@) + c_stmt(whole, base));
    }

    fn compile_stmt(&mut self, stmt: &Stmt)
        ensures
            code_v(final(self).code@) == code_v(old(self).code@) + c_stmt(stmt_v(*stmt), old(self).code@.len() as int),
        decreases stmt_v(*stmt), 2int,
    {
        match stmt {
            Stmt::Assign(name, expr) => {
                self.compile_expr(expr);
                self.emit(Instruction::Store(name.clone()));
            },
            Stmt::Return(expr) => {
                self.compile_expr(expr);
                self.emit(Instruction::Return);
            },
            Stmt::TryCatch { body, catches } => {
                self.compile_try_catch(body, catches);
            },
            Stmt::Expr(expr) => {
                self.compile_expr(expr);
                self.emit(Instruction::Pop);
            },
        }
    }

    #[verifier::loop_isolation(false)]
    fn compile_expr(&mut self, expr: &Expr)
        ensures
            code_v(final(self).code@) == code_v(old(self).code@) + c_expr(expr_v(*expr)),
        decreases expr,
    {
        match expr {
            Expr::IntLit(n) => self.emit(Instruction::Push(Value::Int(*n))),
            Expr::FloatLit(f) => self.emit(Instruction::Push(Value::Float(f.clone()))),
            Expr::StrLit(s) => self.emit(Instruction::Push(Value::Str(s.clone()))),
            Expr::BoolLit(b) => self.emit(Instruction::Push(Value::Bool(*b))),
            Expr::Ident(name) => self.emit(Instruction::Load(name.clone())),
            Expr::Call(name, args) => {
                let ghost before = code_v(self.code@);
                let ghost es = exprs_v(args@);
                let mut i: usize = 0;
                assert(es.subrange(0, 0) =~= Seq::<ExprV>::empty());
                while i < args.len()
                    invariant
                        i <= args@.len(),
                        es == exprs_v(args@),
                        es.len() == args@.len(),
                        code_v(self.code@) == before + c_args(es.subrange(0, i as int)),
                    decreases args.len() - i,
                {
                    proof {
                        assert(es[i as int] == expr_v(args@[i as int]));
                        assert(decreases_to!(expr => args@[i as int]));
                    }
                    self.compile_expr(&args[i]);
                    proof {
                        let next = es.subrange(0, i + 1);
                        assert(next.drop_last() =~= es.subrange(0, i as int));
                        assert(next.last() == es[i as int]);
                        assert(code_v(self.code@) =~= before + c_args(next));
                    }
                    i = i + 1;
                }
                assert(es.subrange(0, args@.len() as int) =~= es);
                proof { reveal_strlit("log"); }
                if str_eq(name.as_str(), "log") {
                    self.emit(Instruction::Log);
                } else {
                    self.emit(Instruction::Call(name.clone(), args.len()));
                }
            },
            Expr::FieldAccess(obj, field) => {
                self.compile_expr(obj);
                self.emit(Instruction::Call(field.clone(), 1));
            },
            Expr::ResultOk(inner) => {
                self.compile_expr(inner);
                self.emit(Instruction::WrapOk);
            },
            Expr::ResultErr(inner) => {
                self.compile_expr(inner);
                self.emit(Instruction::WrapErr);
            },
        }
    }
}

impl Default for Compiler {
    fn default() -> (r: Compiler)
        ensures
            r.emitted() == Seq::<InstrV>::empty(),
    {
        Compiler::new()
    }
}

/// Compiles a function definition to bytecode.
pub fn compile(func: &FuncDef) -> (r: Vec<Instruction>)
    ensures
        code_v(r@) == c_func(func_v(*func)),
{
    let r = Compiler::new().compile_func(func);
    assert(Seq::<InstrV>::empty() + c_block(func_v(*func).body, 0) =~= c_block(func_v(*func).body, 0));
    r
}

/// Every jump and catcher target in the code of a function lies inside the
/// code: after address 0 and at most at its end.
pub proof fn lemma_func_targets_in_code(f: FuncV)
    ensures
        targets_in(c_func(f), 0, c_func(f).len() as int, -1),
{
    let c = c_block(f.body, 0);
    lemma_block_targets(f.body, 0);
    if !(c.len() > 0 && c.last() is Return) {
        let tail = seq![InstrV::Push(ValueV::Null), InstrV::Return];
        assert(targets_in(tail, 0, 0, -1)) by {
            assert forall|k: int| 0 <= k < tail.len() implies match #[trigger] target(tail[k]) {
                Some(t) => (0 < t <= 0) || t == -1,
                None => true,
            } by {
                if k == 0 { assert(tail[k] == InstrV::Push(ValueV::Null)); } else { assert(tail[k] == InstrV::Return); }
            }
        }
        lemma_targets_widen(c, 0, c.len() as int, -1, 0, c.len() + 2int, -1);
        lemma_targets_widen(tail, 0, 0, -1, 0, c.len() + 2int, -1);
        lemma_targets_concat(c, tail, 0, c.len() + 2int, -1);
    }
}

} // verus!
