//! The runtime's bookkeeping: loading files and chassis into the DAG,
//! wiring it, deciding how each node runs, memoizing pure nodes, and
//! hot-updating pits. The bytecode itself runs one step at a time (see
//! `vm::Vm::step`), driven by the host.

use vstd::prelude::*;
use crate::ast::{Expr, ExprV, FuncDef, NodeKind, VtFile, expr_v, func_v};
use crate::bytecode::{Instruction, InstrV, Value, ValueV, code_v, copy_value, instr_v, value_v};
use crate::error::{ErrV, VenturiError, err_is, opt_v};
use crate::graph::{Dag, DagNode, DagNodeKind, DagV, PitState, dag_rel, reach1};
use crate::lexer::{initial_state, spec_tokenize};
use crate::parser::{file_matches, sp_file};
use crate::pits::{EntryV, PitStore, VersionV, active_v, has_pit};
use crate::validator::Validator;
use crate::vcbin::VcBin;
use crate::vm::{Bindings, ExecContext, Vm};

verus! {

/// The value of a literal; anything else is null.
pub open spec fn const_value(e: ExprV) -> ValueV {
    match e {
        ExprV::IntLit(n) => ValueV::Int(n),
        ExprV::FloatLit(t) => ValueV::Float(t),
        ExprV::StrLit(s) => ValueV::Str(s),
        ExprV::BoolLit(b) => ValueV::Bool(b),
        _ => ValueV::Null,
    }
}

/// The value of a constant expression (an input's default): a literal
/// gives its value, anything else null.
pub fn eval_const_expr(expr: &Expr) -> (r: Value)
    ensures
        value_v(r) == const_value(expr_v(*expr)),
{
    match expr {
        Expr::IntLit(n) => Value::Int(*n),
        Expr::FloatLit(f) => Value::Float(f.clone()),
        Expr::StrLit(s) => Value::Str(s.clone()),
        Expr::BoolLit(b) => Value::Bool(*b),
        _ => Value::Null,
    }
}

/// Lexes and parses a source text.
pub fn parse_source(source: &str) -> (r: Result<VtFile, VenturiError>)
    requires
        source@.len() < usize::MAX,
    ensures
        match spec_tokenize(source@, initial_state()) {
            Ok(ts) => file_matches(r, sp_file(ts, 0)),
            Err(e) => r matches Err(VenturiError::Parse { line, msg }) && line == e.line && msg@ == e.msg,
        },
{
    proof { crate::parser::lemma_tokenize_then_parse(source@); }
    match crate::lexer::tokenize(source) {
        Ok(tokens) => crate::parser::parse(tokens),
        Err(e) => Err(e),
    }
}

/// A copy of some bytecode.
pub fn copy_code(code: &Vec<Instruction>) -> (r: Vec<Instruction>)
    ensures
        code_v(r@) == code_v(code@),
{
    let mut out: Vec<Instruction> = Vec::new();
    let mut i: usize = 0;
    while i < code.len()
        invariant
            i <= code@.len(),
            code_v(out@) == code_v(code@.subrange(0, i as int)),
        decreases code.len() - i,
    {
        let c = copy_instruction(&code[i]);
        let ghost before = out@;
        out.push(c);
        assert(code_v(out@) =~= code_v(before).push(instr_v(c)));
        assert(code_v(code@.subrange(0, i + 1)) =~= code_v(code@.subrange(0, i as int)).push(instr_v(code@[i as int])));
        i = i + 1;
    }
    assert(code@.subrange(0, code@.len() as int) =~= code@);
    out
}

/// A copy of one instruction.
pub fn copy_instruction(i: &Instruction) -> (r: Instruction)
    ensures
        instr_v(r) == instr_v(*i),
{
    match i {
        Instruction::Push(v) => Instruction::Push(copy_value(v)),
        Instruction::Pop => Instruction::Pop,
        Instruction::Dup => Instruction::Dup,
        Instruction::Load(s) => Instruction::Load(s.clone()),
        Instruction::Store(s) => Instruction::Store(s.clone()),
        Instruction::Call(s, n) => Instruction::Call(s.clone(), *n),
        Instruction::CallNode(s) => Instruction::CallNode(s.clone()),
        Instruction::Return => Instruction::Return,
        Instruction::Add => Instruction::Add,
        Instruction::Sub => Instruction::Sub,
        Instruction::Mul => Instruction::Mul,
        Instruction::Div => Instruction::Div,
        Instruction::Eq => Instruction::Eq,
        Instruction::Neq => Instruction::Neq,
        Instruction::Lt => Instruction::Lt,
        Instruction::Gt => Instruction::Gt,
        Instruction::Jump(t) => Instruction::Jump(*t),
        Instruction::JumpIfFalse(t) => Instruction::JumpIfFalse(*t),
        Instruction::Nop => Instruction::Nop,
        Instruction::PushCatcher(s, t) => Instruction::PushCatcher(s.clone(), *t),
        Instruction::PopCatcher => Instruction::PopCatcher,
        Instruction::Throw(s) => Instruction::Throw(s.clone()),
        Instruction::WrapOk => Instruction::WrapOk,
        Instruction::WrapErr => Instruction::WrapErr,
        Instruction::CheckVan(s) => Instruction::CheckVan(s.clone()),
        Instruction::Log => Instruction::Log,
    }
}

/// The name of a pit a file refers to: its URL without the leading `@`s.
pub open spec fn pit_name_of(url: Seq<char>) -> Seq<char> {
    crate::chars::strip_all(url, seq!['@'])
}

pub fn pit_name(url: &str) -> (r: String)
    ensures
        r@ == pit_name_of(url@),
{
    let cs = crate::chars::chars_of(url);
    let at = ['@'];
    assert(at@ =~= seq!['@']);
    let stripped = crate::chars::vec_strip_all(&cs, &at);
    crate::text::string_from_chars(stripped.as_slice())
}

/// The first index in a history with the given version number.
proof fn lemma_first_with_at(h: Seq<VersionV>, version: nat, i: int)
    requires
        0 <= i < h.len(),
        h[i].version == version,
        forall|j: int| 0 <= j < i ==> (#[trigger] h[j]).version != version,
    ensures
        crate::pits::first_with(h, version) == Some(h[i]),
    decreases i,
{
    if i > 0 {
        let t = h.subrange(1, h.len() as int);
        assert(h[0].version != version);
        assert forall|j: int| 0 <= j < i - 1 implies (#[trigger] t[j]).version != version by {
            assert(t[j] == h[j + 1]);
        }
        assert(t[i - 1] == h[i]);
        lemma_first_with_at(t, version, i - 1);
    }
}

/// Where the active chassis of a pit lies, and its version: nothing and 0
/// where the store has no such pit.
pub open spec fn pit_state_spec(store: Seq<(Seq<char>, EntryV)>, name: Seq<char>) -> (Option<Seq<char>>, nat) {
    if has_pit(store, name) {
        let i = choose|i: int| 0 <= i < store.len() && (#[trigger] store[i]).0 == name;
        let e = store[i].1;
        (match active_v(e) { Some(v) => Some(v.vcbin_path), None => None }, e.active_version)
    } else {
        (None, 0)
    }
}

/// The state of the pit `name` as the store has it.
pub fn pit_state(pits: &PitStore, name: &str) -> (r: PitState)
    requires
        pits.wf(),
    ensures
        r.name@ == name@,
        (opt_v(r.vcbin_path), r.version as nat) == pit_state_spec(pits@, name@),
{
    match pits.status(name) {
        Ok(entry) => {
            let ghost ev = crate::pits::entry_v(*entry);
            proof {
                let i = choose|i: int| 0 <= i < pits@.len() && pits@[i].0 == name@ && crate::pits::entry_v(*entry) == pits@[i].1;
                let k = choose|k: int| 0 <= k < pits@.len() && (#[trigger] pits@[k]).0 == name@;
                assert(k == i) by {
                    if k != i {
                        assert(crate::pits::store_keys_distinct(pits@));
                    }
                }
            }
            let path = match entry.active() {
                Some(v) => {
                    proof {
                        let j = choose|j: int| 0 <= j < entry.history@.len() && entry.history@[j] == *v
                            && v.version == entry.active_version
                            && forall|t: int| 0 <= t < j ==> (#[trigger] entry.history@[t]).version != entry.active_version;
                        assert forall|t: int| 0 <= t < j implies (#[trigger] ev.history[t]).version != ev.active_version by {
                            assert(ev.history[t] == crate::pits::version_v(entry.history@[t]));
                        }
                        assert(ev.history[j] == crate::pits::version_v(*v));
                        lemma_first_with_at(ev.history, ev.active_version, j);
                    }
                    Some(v.vcbin_path.clone())
                },
                None => {
                    proof {
                        assert forall|t: int| 0 <= t < ev.history.len() implies (#[trigger] ev.history[t]).version != ev.active_version by {
                            assert(ev.history[t] == crate::pits::version_v(entry.history@[t]));
                        }
                        crate::pits::lemma_first_with_absent(ev.history, ev.active_version);
                    }
                    None
                },
            };
            PitState { name: String::from_str(name), vcbin_path: path, version: entry.active_version }
        },
        Err(_) => PitState { name: String::from_str(name), vcbin_path: None, version: 0 },
    }
}


/// The memo of pure nodes: a value by node id, each id once.
pub open spec fn memo_map(s: Seq<(u32, Value)>) -> Map<u32, ValueV>
    decreases s.len(),
{
    if s.len() == 0 {
        Map::empty()
    } else {
        memo_map(s.drop_last()).insert(s.last().0, value_v(s.last().1))
    }
}

pub open spec fn ids_distinct(s: Seq<(u32, Value)>) -> bool {
    forall|i: int, j: int| 0 <= i < j < s.len() ==> (#[trigger] s[i]).0 != (#[trigger] s[j]).0
}

proof fn lemma_memo_dom(s: Seq<(u32, Value)>, k: u32)
    ensures
        memo_map(s).dom().contains(k) <==> exists|i: int| 0 <= i < s.len() && (#[trigger] s[i]).0 == k,
    decreases s.len(),
{
    if s.len() > 0 {
        lemma_memo_dom(s.drop_last(), k);
        if memo_map(s.drop_last()).dom().contains(k) {
            let i = choose|i: int| 0 <= i < s.drop_last().len() && (#[trigger] s.drop_last()[i]).0 == k;
            assert(s[i].0 == k);
        }
        if exists|i: int| 0 <= i < s.len() && (#[trigger] s[i]).0 == k {
            let i = choose|i: int| 0 <= i < s.len() && (#[trigger] s[i]).0 == k;
            if i < s.len() - 1 {
                assert(s.drop_last()[i].0 == k);
            }
        }
    }
}

proof fn lemma_memo_at(s: Seq<(u32, Value)>, i: int)
    requires
        ids_distinct(s),
        0 <= i < s.len(),
    ensures
        memo_map(s).dom().contains(s[i].0),
        memo_map(s)[s[i].0] == value_v(s[i].1),
    decreases s.len(),
{
    if i < s.len() - 1 {
        lemma_memo_at(s.drop_last(), i);
        assert(s.drop_last()[i] == s[i]);
    }
}

proof fn lemma_memo_remove(s: Seq<(u32, Value)>, i: int)
    requires
        ids_distinct(s),
        0 <= i < s.len(),
    ensures
        memo_map(s.remove(i)) == memo_map(s).remove(s[i].0),
        ids_distinct(s.remove(i)),
    decreases s.len(),
{
    let t = s.remove(i);
    if i == s.len() - 1 {
        assert(t =~= s.drop_last());
        lemma_memo_dom(s.drop_last(), s[i].0);
        assert(memo_map(s).remove(s[i].0) =~= memo_map(s.drop_last()));
    } else {
        lemma_memo_remove(s.drop_last(), i);
        assert(t.drop_last() =~= s.drop_last().remove(i));
        assert(t.last() == s.last());
        assert(memo_map(t) =~= memo_map(s).remove(s[i].0));
    }
}

/// How a node is to run.
pub enum NodePlan {
    /// The memo holds its value.
    Cached(Value),
    /// Its value is known without running anything (a file with no function).
    Done(Value),
    /// Run this code with this context.
    Run(Vec<Instruction>, ExecContext),
    /// A pit with no active chassis: warn, and the value is null.
    EmptyPit(String),
    /// A pit whose chassis lies in this file.
    PitFile(String),
    /// No node has this id.
    Missing(VenturiError),
}

/// The runtime: the DAG, the pits, and the memo of pure nodes.
pub struct Runtime {
    dag: Dag,
    vm: Vm,
    pits: PitStore,
    cache: Vec<(u32, Value)>,
    validator: Validator,
}

impl Runtime {
    pub closed spec fn wf(&self) -> bool {
        &&& self.dag.wf()
        &&& self.pits.wf()
        &&& ids_distinct(self.cache@)
    }

    /// The DAG.
    pub closed spec fn dag_spec(&self) -> Dag {
        self.dag
    }

    /// The pits.
    pub closed spec fn pits_spec(&self) -> PitStore {
        self.pits
    }

    /// The memoized values of pure nodes, by id.
    pub closed spec fn memo(&self) -> Map<u32, ValueV> {
        memo_map(self.cache@)
    }

    /// A runtime with an empty DAG and the given pits.
    pub fn new(pits: PitStore) -> (r: Runtime)
        requires
            pits.wf(),
        ensures
            r.wf(),
            r.dag_spec()@.names.len() == 0,
            r.dag_spec().edge_count() == 0,
            r.pits_spec() == pits,
            r.memo() == Map::<u32, ValueV>::empty(),
    {
        let r = Runtime { dag: Dag::new(), vm: Vm::new(), pits, cache: Vec::new(), validator: Validator::new() };
        assert(memo_map(r.cache@) =~= Map::<u32, ValueV>::empty());
        r
    }

    /// The DAG.
    pub fn dag(&self) -> (r: &Dag)
        ensures
            *r == self.dag_spec(),
    {
        &self.dag
    }

    /// The pits.
    pub fn pits(&self) -> (r: &PitStore)
        ensures
            *r == self.pits_spec(),
    {
        &self.pits
    }

    /// The interpreter.
    pub fn vm(&self) -> &Vm {
        &self.vm
    }

    /// The memoized value of a node, if any.
    #[verifier::loop_isolation(false)]
    pub fn cached(&self, id: u32) -> (r: Option<Value>)
        requires
            self.wf(),
        ensures
            match r {
                Some(v) => self.memo().dom().contains(id) && value_v(v) == self.memo()[id],
                None => !self.memo().dom().contains(id),
            },
    {
        proof { lemma_memo_dom(self.cache@, id); }
        let mut i: usize = 0;
        while i < self.cache.len()
            invariant
                i <= self.cache@.len(),
                forall|j: int| 0 <= j < i ==> (#[trigger] self.cache@[j]).0 != id,
            decreases self.cache.len() - i,
        {
            if self.cache[i].0 == id {
                proof { lemma_memo_at(self.cache@, i as int); }
                return Some(copy_value(&self.cache[i].1));
            }
            i = i + 1;
        }
        None
    }

    #[verifier::loop_isolation(false)]
    fn forget(&mut self, id: u32)
        requires
            old(self).wf(),
        ensures
            final(self).wf(),
            final(self).memo() == old(self).memo().remove(id),
            final(self).dag == old(self).dag,
            final(self).pits == old(self).pits,
    {
        let mut i: usize = 0;
        while i < self.cache.len()
            invariant
                *self == *old(self),
                old(self).wf(),
                i <= self.cache@.len(),
                forall|j: int| 0 <= j < i ==> (#[trigger] self.cache@[j]).0 != id,
            decreases self.cache.len() - i,
        {
            if self.cache[i].0 == id {
                proof { lemma_memo_remove(self.cache@, i as int); }
                self.cache.remove(i);
                return;
            }
            i = i + 1;
        }
        proof {
            lemma_memo_dom(self.cache@, id);
            assert(memo_map(self.cache@).remove(id) =~= memo_map(self.cache@));
        }
    }

    fn remember(&mut self, id: u32, v: Value)
        requires
            old(self).wf(),
        ensures
            final(self).wf(),
            final(self).memo() == old(self).memo().insert(id, value_v(v)),
            final(self).dag == old(self).dag,
            final(self).pits == old(self).pits,
    {
        self.forget(id);
        proof { lemma_memo_dom(self.cache@, id); }
        let ghost before = self.cache@;
        self.cache.push((id, v));
        proof {
            assert(self.cache@.drop_last() =~= before);
            assert forall|i: int, j: int| 0 <= i < j < self.cache@.len() implies (#[trigger] self.cache@[i]).0 != (#[trigger] self.cache@[j]).0 by {
                if j == self.cache@.len() - 1 {
                    assert(before[i].0 != id);
                } else {
                    assert(self.cache@[i] == before[i]);
                    assert(self.cache@[j] == before[j]);
                }
            }
            assert(memo_map(self.cache@) =~= memo_map(before).insert(id, value_v(v)));
        }
    }
}


/// A pit node as `add_module` adds it for the pit reference `url`.
pub open spec fn pit_node_ok(nd: DagNode, id: u32, url: Seq<char>, store: Seq<(Seq<char>, EntryV)>) -> bool {
    &&& nd.id == id
    &&& nd.name@ == pit_name_of(url)
    &&& nd.van is None
    &&& nd.kind matches DagNodeKind::Pit(st) && st.name@ == pit_name_of(url)
        && (opt_v(st.vcbin_path), st.version as nat) == pit_state_spec(store, pit_name_of(url))
}

/// The first node with a name, if any.
pub open spec fn first_named(names: Seq<Seq<char>>, n: Seq<char>) -> Option<u32> {
    if exists|i: int| 0 <= i < names.len() && names[i] == n {
        Some(choose|i: u32| i < names.len() && names[i as int] == n && forall|j: int| 0 <= j < i ==> names[j] != n)
    } else {
        None
    }
}

proof fn lemma_first_named(names: Seq<Seq<char>>, n: Seq<char>, r: Option<u32>)
    requires
        match r {
            Some(id) => id < names.len() && names[id as int] == n && forall|j: int| 0 <= j < id ==> names[j] != n,
            None => forall|j: int| 0 <= j < names.len() ==> names[j] != n,
        },
    ensures
        first_named(names, n) == r,
{
    if let Some(id) = r {
        assert(names[id as int] == n);
        let c = choose|i: u32| i < names.len() && names[i as int] == n && forall|j: int| 0 <= j < i ==> names[j] != n;
        if c < id {
            assert(names[c as int] != n);
        } else if c > id {
            assert(names[id as int] != n);
        }
    }
}

/// The warning for a wire whose end names no node.
pub open spec fn wire_warning(n: Seq<char>) -> Seq<char> {
    "[venturi warn] DAG wire: node '"@ + n + "' not found"@
}

/// One wire applied to a DAG value: the edge added, or a warning, or the
/// cycle it would close.
#[verifier::opaque]
pub open spec fn wire_step(d: DagV, w: (Seq<char>, Seq<char>)) -> (DagV, Option<Seq<char>>, Option<ErrV>) {
    match (first_named(d.names, w.0), first_named(d.names, w.1)) {
        (Some(f), Some(t)) => if t == f || reach1(dag_rel(d), t, f) {
            (d, None, Some(ErrV::Cycle { node: d.names[f as int] }))
        } else {
            (DagV { succ: d.succ.update(f as int, d.succ[f as int].push(t)), ..d }, None, None)
        },
        (None, _) => (d, Some(wire_warning(w.0)), None),
        (Some(_), None) => (d, Some(wire_warning(w.1)), None),
    }
}

/// The wires applied in order, stopping at the first cycle: the DAG value,
/// the warnings, and the error if any.
pub open spec fn wires_fold(d: DagV, ws: Seq<(Seq<char>, Seq<char>)>) -> (DagV, Seq<Seq<char>>, Option<ErrV>)
    decreases ws.len(),
{
    if ws.len() == 0 {
        (d, seq![], None)
    } else {
        let (d1, warns, err) = wires_fold(d, ws.drop_last());
        if err is Some {
            (d1, warns, err)
        } else {
            let (d2, w, e) = wire_step(d1, ws.last());
            (d2, match w { Some(x) => warns.push(x), None => warns }, e)
        }
    }
}

proof fn lemma_step_error_alone(d: DagV, w: (Seq<char>, Seq<char>))
    ensures
        wire_step(d, w).2 is Some ==> wire_step(d, w).1 is None,
{
    reveal(wire_step);
}

/// Once a wire fails, the rest change nothing.
proof fn lemma_fold_stops(d: DagV, ws: Seq<(Seq<char>, Seq<char>)>, k: int)
    requires
        0 <= k <= ws.len(),
        wires_fold(d, ws.subrange(0, k)).2 is Some,
    ensures
        wires_fold(d, ws) == wires_fold(d, ws.subrange(0, k)),
    decreases ws.len() - k,
{
    if k < ws.len() {
        let t = ws.subrange(0, k + 1);
        assert(t.drop_last() =~= ws.subrange(0, k));
        lemma_fold_stops(d, ws, k + 1);
    } else {
        assert(ws.subrange(0, k) =~= ws);
    }
}

/// The wires of the module nodes, node by node.
pub open spec fn module_wires(nodes: Seq<DagNode>) -> Seq<(Seq<char>, Seq<char>)>
    decreases nodes.len(),
{
    if nodes.len() == 0 {
        seq![]
    } else {
        module_wires(nodes.drop_last()) + match nodes.last().kind {
            DagNodeKind::Module(vt) => vt.dag_wires@.map_values(|w: crate::ast::DagWire| (w.from@, w.to@)),
            _ => Seq::<(Seq<char>, Seq<char>)>::empty(),
        }
    }
}

impl Runtime {
    /// Adds a parsed file: first a node for each pit it refers to (with the
    /// pit's state from the store), then the file's own node.
    pub fn add_module(&mut self, name: String, vt: VtFile) -> (id: u32)
        requires
            old(self).wf(),
            old(self).dag_spec()@.names.len() + vt.pits@.len() + 1 < u32::MAX,
        ensures
            final(self).wf(),
            final(self).pits_spec() == old(self).pits_spec(),
            final(self).memo() == old(self).memo(),
            final(self).dag_spec().edge_count() == old(self).dag_spec().edge_count(),
            id == old(self).dag_spec()@.names.len() + vt.pits@.len(),
            final(self).dag_spec().nodes().len() == id + 1,
            final(self).dag_spec().nodes().subrange(0, old(self).dag_spec()@.names.len() as int) == old(self).dag_spec().nodes(),
            final(self).dag_spec()@.succ == old(self).dag_spec()@.succ
                + Seq::new((vt.pits@.len() + 1) as nat, |i: int| Seq::<u32>::empty()),
            forall|k: int| 0 <= k < vt.pits@.len() ==> pit_node_ok(
                #[trigger] final(self).dag_spec().nodes()[old(self).dag_spec()@.names.len() + k],
                (old(self).dag_spec()@.names.len() + k) as u32, vt.pits@[k].url@, old(self).pits_spec()@),
            final(self).dag_spec().nodes()[id as int] == (DagNode { id, name, kind: DagNodeKind::Module(vt), van: vt.van }),
            final(self).dag_spec()@.names == final(self).dag_spec().nodes().map_values(|n: DagNode| n.name@),
    {
        let ghost base = self.dag@.names.len();
        let ghost old_nodes = self.dag.nodes();
        let ghost old_succ = self.dag@.succ;
        proof {
            crate::graph::lemma_dag_shape(&self.dag);
            assert(old_nodes.subrange(0, base as int) =~= old_nodes);
            assert(old_succ + Seq::new(0nat, |i: int| Seq::<u32>::empty()) =~= old_succ);
        }
        let mut k: usize = 0;
        while k < vt.pits.len()
            invariant
                self.wf(),
                k <= vt.pits@.len(),
                base + vt.pits@.len() + 1 < u32::MAX,
                self.dag@.names.len() == base + k,
                self.pits == old(self).pits,
                self.cache == old(self).cache,
                self.dag.edge_count() == old(self).dag.edge_count(),
                self.dag.nodes().len() == base + k,
                self.dag.nodes().subrange(0, base as int) == old_nodes,
                self.dag@.succ == old_succ + Seq::new(k as nat, |i: int| Seq::<u32>::empty()),
                forall|j: int| 0 <= j < k ==> pit_node_ok(#[trigger] self.dag.nodes()[base + j],
                    (base + j) as u32, vt.pits@[j].url@, old(self).pits@),
            decreases vt.pits.len() - k,
        {
            let pname = pit_name(vt.pits[k].url.as_str());
            let state = pit_state(&self.pits, pname.as_str());
            let ghost before = self.dag.nodes();
            let ghost before_succ = self.dag@.succ;
            proof { crate::graph::lemma_dag_shape(&self.dag); }
            let nid = self.dag.add_node(pname, DagNodeKind::Pit(state), None);
            proof {
                crate::graph::lemma_dag_shape(&self.dag);
                assert(self.dag.nodes().subrange(0, base as int) =~= before.subrange(0, base as int));
                assert(self.dag@.succ =~= old_succ + Seq::new((k + 1) as nat, |i: int| Seq::<u32>::empty()));
                assert forall|j: int| 0 <= j < k + 1 implies pit_node_ok(#[trigger] self.dag.nodes()[base + j],
                    (base + j) as u32, vt.pits@[j].url@, old(self).pits@) by {
                    if j < k {
                        assert(self.dag.nodes()[base + j] == before[base + j]);
                    }
                }
            }
            k = k + 1;
        }
        let van = match &vt.van {
            Some(v) => Some(v.clone()),
            None => None,
        };
        let ghost before = self.dag.nodes();
        proof { crate::graph::lemma_dag_shape(&self.dag); }
        let id = self.dag.add_node(name, DagNodeKind::Module(vt), van);
        proof {
            crate::graph::lemma_dag_shape(&self.dag);
            assert(self.dag.nodes().subrange(0, base as int) =~= before.subrange(0, base as int));
            assert(self.dag@.succ =~= old_succ + Seq::new((vt.pits@.len() + 1) as nat, |i: int| Seq::<u32>::empty()));
            assert forall|j: int| 0 <= j < vt.pits@.len() implies pit_node_ok(#[trigger] self.dag.nodes()[base + j],
                (base + j) as u32, vt.pits@[j].url@, old(self).pits@) by {
                assert(self.dag.nodes()[base + j] == before[base + j]);
            }
        }
        id
    }
}


fn wire_warning_text(n: &str) -> (r: String)
    ensures
        r@ == wire_warning(n@),
{
    let a = crate::text::concat("[venturi warn] DAG wire: node '", n);
    crate::text::concat(a.as_str(), "' not found")
}

pub open spec fn wire_pairs_v(s: Seq<(String, String)>) -> Seq<(Seq<char>, Seq<char>)> {
    s.map_values(|p: (String, String)| (p.0@, p.1@))
}

impl Runtime {
    /// The wires of every module node, node by node, in the order written.
    fn collect_wires(&self) -> (r: Vec<(String, String)>)
        requires
            self.wf(),
        ensures
            wire_pairs_v(r@) == module_wires(self.dag_spec().nodes()),
    {
        proof { crate::graph::lemma_dag_shape(&self.dag); }
        let n = self.dag.len();
        let ghost nodes = self.dag.nodes();
        let mut out: Vec<(String, String)> = Vec::new();
        let mut i: usize = 0;
        assert(nodes.subrange(0, 0) =~= Seq::<DagNode>::empty());
        assert(wire_pairs_v(out@) =~= Seq::<(Seq<char>, Seq<char>)>::empty());
        while i < n
            invariant
                self.wf(),
                nodes == self.dag.nodes(),
                n == nodes.len(),
                n == self.dag@.names.len(),
                n <= u32::MAX,
                i <= n,
                wire_pairs_v(out@) == module_wires(nodes.subrange(0, i as int)),
            decreases n - i,
        {
            let ghost before = wire_pairs_v(out@);
            let nd = self.dag.node(i as u32).unwrap();
            proof {
                let next = nodes.subrange(0, i + 1);
                assert(next.drop_last() =~= nodes.subrange(0, i as int));
                assert(next.last() == nodes[i as int]);
            }
            match &nd.kind {
                DagNodeKind::Module(vt) => {
                    let ghost ws = vt.dag_wires@.map_values(|w: crate::ast::DagWire| (w.from@, w.to@));
                    let mut k: usize = 0;
                    assert(ws.subrange(0, 0) =~= Seq::<(Seq<char>, Seq<char>)>::empty());
                    assert(before + ws.subrange(0, 0) =~= before);
                    while k < vt.dag_wires.len()
                        invariant
                            k <= vt.dag_wires@.len(),
                            ws == vt.dag_wires@.map_values(|w: crate::ast::DagWire| (w.from@, w.to@)),
                            wire_pairs_v(out@) == before + ws.subrange(0, k as int),
                        decreases vt.dag_wires.len() - k,
                    {
                        let ghost prev = out@;
                        let p = (vt.dag_wires[k].from.clone(), vt.dag_wires[k].to.clone());
                        out.push(p);
                        assert(wire_pairs_v(out@) =~= wire_pairs_v(prev).push((p.0@, p.1@)));
                        assert(ws.subrange(0, k + 1) =~= ws.subrange(0, k as int).push(ws[k as int]));
                        assert(wire_pairs_v(out@) =~= before + ws.subrange(0, k + 1));
                        k = k + 1;
                    }
                    assert(ws.subrange(0, vt.dag_wires@.len() as int) =~= ws);
                },
                _ => {
                    assert(before + Seq::<(Seq<char>, Seq<char>)>::empty() =~= before);
                },
            }
            i = i + 1;
        }
        assert(nodes.subrange(0, n as int) =~= nodes);
        out
    }

    /// One wire: the edge added, or the warning for an end that names no
    /// node, or the cycle error.
    fn wire_one(&mut self, from: &str, to: &str) -> (r: (Option<String>, Result<(), VenturiError>))
        requires
            old(self).wf(),
            old(self).dag.edge_count() < u32::MAX,
        ensures
            final(self).wf(),
            final(self).pits == old(self).pits,
            final(self).cache == old(self).cache,
            final(self).dag.nodes() == old(self).dag.nodes(),
            final(self).dag.edge_count() <= old(self).dag.edge_count() + 1,
            ({
                let (d2, w, e) = wire_step(old(self).dag@, (from@, to@));
                &&& final(self).dag@ == d2
                &&& match (r.0, w) {
                    (Some(x), Some(y)) => x@ == y,
                    (None, None) => true,
                    _ => false,
                }
                &&& match e {
                    Some(er) => err_is(r.1, er),
                    None => r.1 is Ok,
                }
            }),
    {
        proof {
            crate::graph::lemma_dag_shape(&self.dag);
            reveal(wire_step);
        }
        let from_id = self.dag.node_by_name(from);
        let to_id = self.dag.node_by_name(to);
        proof {
            lemma_first_named(self.dag@.names, from@, from_id);
            lemma_first_named(self.dag@.names, to@, to_id);
        }
        match (from_id, to_id) {
            (Some(f), Some(t)) => (None, self.dag.add_edge(f, t)),
            (None, _) => (Some(wire_warning_text(from)), Ok(())),
            (_, None) => (Some(wire_warning_text(to)), Ok(())),
        }
    }

    /// Adds an edge for every wire of every module, in order. A wire whose end
    /// names no node is warned of and skipped; one that would close a cycle
    /// stops the wiring with that error.
    pub fn wire_dag_edges(&mut self) -> (r: (Vec<String>, Result<(), VenturiError>))
        requires
            old(self).wf(),
            old(self).dag_spec().edge_count() + module_wires(old(self).dag_spec().nodes()).len() < u32::MAX,
        ensures
            final(self).wf(),
            final(self).pits_spec() == old(self).pits_spec(),
            final(self).memo() == old(self).memo(),
            final(self).dag_spec().nodes() == old(self).dag_spec().nodes(),
            final(self).dag_spec()@ == wires_fold(old(self).dag_spec()@, module_wires(old(self).dag_spec().nodes())).0,
            crate::pits::strs_v(r.0@) == wires_fold(old(self).dag_spec()@, module_wires(old(self).dag_spec().nodes())).1,
            match wires_fold(old(self).dag_spec()@, module_wires(old(self).dag_spec().nodes())).2 {
                Some(e) => err_is(r.1, e),
                None => r.1 is Ok,
            },
    {
        let wires = self.collect_wires();
        let ghost ws = wire_pairs_v(wires@);
        let ghost d0 = self.dag@;
        let mut warnings: Vec<String> = Vec::new();
        let mut i: usize = 0;
        assert(ws.subrange(0, 0) =~= Seq::<(Seq<char>, Seq<char>)>::empty());
        assert(crate::pits::strs_v(warnings@) =~= Seq::<Seq<char>>::empty());
        while i < wires.len()
            invariant
                self.wf(),
                self.pits == old(self).pits,
                self.cache == old(self).cache,
                self.dag.nodes() == old(self).dag.nodes(),
                d0 == old(self).dag@,
                i <= wires@.len(),
                ws == wire_pairs_v(wires@),
                ws == module_wires(old(self).dag.nodes()),
                old(self).dag.edge_count() + ws.len() < u32::MAX,
                self.dag.edge_count() <= old(self).dag.edge_count() + i,
                self.dag@ == wires_fold(d0, ws.subrange(0, i as int)).0,
                crate::pits::strs_v(warnings@) == wires_fold(d0, ws.subrange(0, i as int)).1,
                wires_fold(d0, ws.subrange(0, i as int)).2 is None,
            decreases wires.len() - i,
        {
            proof {
                let next = ws.subrange(0, i + 1);
                assert(next.drop_last() =~= ws.subrange(0, i as int));
                assert(next.last() == ws[i as int]);
                assert(ws[i as int] == (wires@[i as int].0@, wires@[i as int].1@));
            }
            proof { lemma_step_error_alone(self.dag@, ws[i as int]); }
            let (w, res) = self.wire_one(wires[i].0.as_str(), wires[i].1.as_str());
            match res {
                Ok(()) => {},
                Err(e) => {
                    proof { lemma_fold_stops(d0, ws, i + 1); }
                    return (warnings, Err(e));
                },
            }
            match w {
                Some(w) => {
                    let ghost before = warnings@;
                    warnings.push(w);
                    assert(crate::pits::strs_v(warnings@) =~= crate::pits::strs_v(before).push(w@));
                },
                None => {},
            }
            i = i + 1;
        }
        assert(ws.subrange(0, wires@.len() as int) =~= ws);
        (warnings, Ok(()))
    }
}


/// The variables a module starts with: each input's default value, in the
/// order declared.
pub open spec fn defaults_map(inputs: Seq<crate::ast::InputDecl>) -> Map<Seq<char>, ValueV>
    decreases inputs.len(),
{
    if inputs.len() == 0 {
        Map::empty()
    } else {
        let m = defaults_map(inputs.drop_last());
        match inputs.last().default {
            Some(e) => m.insert(inputs.last().name@, const_value(expr_v(e))),
            None => m,
        }
    }
}

/// The context a module runs in: its inputs' defaults, then the outputs of
/// the nodes before it (which win), under the module's VAN.
pub open spec fn module_ctx_ok(ctx: ExecContext, vt: VtFile, outs: Map<Seq<char>, ValueV>) -> bool {
    &&& ctx.variables.wf()
    &&& ctx.node_outputs.wf()
    &&& ctx.variables@ == defaults_map(vt.inputs@).union_prefer_right(outs)
    &&& ctx.node_outputs@ == outs
    &&& ctx.current_van == vt.van
}

/// The context a chassis runs in: the outputs of the nodes before it, as
/// variables too, under the first VAN it allows.
pub open spec fn chass_ctx_ok(ctx: ExecContext, vcbin: VcBin, outs: Map<Seq<char>, ValueV>) -> bool {
    &&& ctx.variables.wf()
    &&& ctx.node_outputs.wf()
    &&& ctx.variables@ == outs
    &&& ctx.node_outputs@ == outs
    &&& opt_v(ctx.current_van) == (if vcbin.permissions.allowed_vans@.len() > 0 {
        Some(vcbin.permissions.allowed_vans@[0]@) } else { None })
}

/// The code and context a module runs with (nothing where it has no
/// function).
pub fn module_plan(vt: &VtFile, outs: &Bindings) -> (r: Option<(Vec<Instruction>, ExecContext)>)
    requires
        outs.wf(),
    ensures
        match vt.func {
            None => r is None,
            Some(f) => r matches Some(p) && code_v(p.0@) == crate::compiler::c_func(func_v(f))
                && module_ctx_ok(p.1, *vt, outs@),
        },
{
    let func = match &vt.func {
        Some(f) => f,
        None => return None,
    };
    let code = crate::compiler::compile(func);
    let van = match &vt.van {
        Some(v) => Some(v.clone()),
        None => None,
    };
    let mut ctx = ExecContext::new(van);
    let mut i: usize = 0;
    assert(vt.inputs@.subrange(0, 0) =~= Seq::<crate::ast::InputDecl>::empty());
    assert(defaults_map(Seq::<crate::ast::InputDecl>::empty()) =~= Map::<Seq<char>, ValueV>::empty());
    while i < vt.inputs.len()
        invariant
            i <= vt.inputs@.len(),
            ctx.variables.wf(),
            ctx.node_outputs.wf(),
            ctx.node_outputs@ == Map::<Seq<char>, ValueV>::empty(),
            ctx.current_van == vt.van,
            ctx.variables@ == defaults_map(vt.inputs@.subrange(0, i as int)),
        decreases vt.inputs.len() - i,
    {
        proof {
            let next = vt.inputs@.subrange(0, i + 1);
            assert(next.drop_last() =~= vt.inputs@.subrange(0, i as int));
            assert(next.last() == vt.inputs@[i as int]);
        }
        match &vt.inputs[i].default {
            Some(d) => {
                let v = eval_const_expr(d);
                ctx.variables.insert(vt.inputs[i].name.clone(), v);
            },
            None => {},
        }
        i = i + 1;
    }
    assert(vt.inputs@.subrange(0, vt.inputs@.len() as int) =~= vt.inputs@);
    let ExecContext { variables, current_van, node_outputs: _ } = ctx;
    let vars = ExecContext { variables, current_van, node_outputs: outs.copy() };
    let mut ctx = vars.with_inputs(outs.copy());
    let mut k: usize = 0;
    while k < func.params.len()
        invariant
            k <= func.params@.len(),
            outs.wf(),
            ctx.variables.wf(),
            ctx.node_outputs.wf(),
            ctx.variables@ == defaults_map(vt.inputs@).union_prefer_right(outs@),
            ctx.node_outputs@ == outs@,
            ctx.current_van == vt.van,
        decreases func.params.len() - k,
    {
        if !ctx.variables.contains_key(func.params[k].as_str()) {
            match outs.get(func.params[k].as_str()) {
                Some(v) => {
                    // Never taken: every upstream output is already bound as
                    // a variable, so a parameter missing from the variables
                    // is missing from the outputs too.
                    assert(false);
                    ctx.variables.insert(func.params[k].clone(), copy_value(v));
                },
                None => {},
            }
        }
        k = k + 1;
    }
    Some((code, ctx))
}

/// The code and context a chassis runs with.
pub fn chass_plan(vcbin: &VcBin, outs: &Bindings) -> (r: (Vec<Instruction>, ExecContext))
    requires
        outs.wf(),
    ensures
        code_v(r.0@) == code_v(vcbin.bytecode@),
        chass_ctx_ok(r.1, *vcbin, outs@),
{
    let van = if vcbin.permissions.allowed_vans.len() > 0 {
        Some(vcbin.permissions.allowed_vans[0].clone())
    } else {
        None
    };
    let ctx = ExecContext::new(van);
    let ExecContext { variables, current_van, node_outputs: _ } = ctx;
    let ctx = ExecContext { variables, current_van, node_outputs: outs.copy() };
    let ctx = ctx.with_inputs(outs.copy());
    assert(Map::<Seq<char>, ValueV>::empty().union_prefer_right(outs@) =~= outs@);
    (copy_code(&vcbin.bytecode), ctx)
}

/// The node is a pure (plane) module.
pub open spec fn plane_module(nodes: Seq<DagNode>, id: u32) -> bool {
    id < nodes.len() && (nodes[id as int].kind matches DagNodeKind::Module(vt) && vt.kind == NodeKind::Plane)
}

pub open spec fn missing_node_text(id: u32) -> Seq<char> {
    "Node "@ + crate::text::decimal(id as nat) + " not found"@
}

impl Runtime {
    /// How node `id` is to run, given the outputs of the nodes before it: its
    /// memoized value; the code and context of a module or a chassis; the
    /// file of a pit's active chassis; null for a module with no function or
    /// a pit with no active chassis.
    pub fn node_plan(&self, id: u32, outs: &Bindings) -> (r: NodePlan)
        requires
            self.wf(),
            outs.wf(),
        ensures
            cached_plan(*self, id) matches Some(c) ==> (r matches NodePlan::Cached(v) && value_v(v) == c),
            !self.memo().dom().contains(id) && id >= self.dag_spec().nodes().len() ==>
                (r matches NodePlan::Missing(e) && e@ == ErrV::Vm(missing_node_text(id))),
            !self.memo().dom().contains(id) && id < self.dag_spec().nodes().len() ==>
                match self.dag_spec().nodes()[id as int].kind {
                    DagNodeKind::Module(vt) => match vt.func {
                        None => r matches NodePlan::Done(v) && value_v(v) == ValueV::Null,
                        Some(f) => r matches NodePlan::Run(code, ctx)
                            && code_v(code@) == crate::compiler::c_func(func_v(f)) && module_ctx_ok(ctx, vt, outs@),
                    },
                    DagNodeKind::Chass(vcbin) => r matches NodePlan::Run(code, ctx)
                        && code_v(code@) == code_v(vcbin.bytecode@) && chass_ctx_ok(ctx, vcbin, outs@),
                    DagNodeKind::Pit(st) => match st.vcbin_path {
                        None => r matches NodePlan::EmptyPit(n) && n@ == st.name@,
                        Some(p) => r matches NodePlan::PitFile(f) && f@ == p@,
                    },
                },
    {
        if let Some(v) = self.cached(id) {
            return NodePlan::Cached(v);
        }
        proof { crate::graph::lemma_dag_shape(&self.dag); }
        let node = match self.dag.node(id) {
            Some(n) => n,
            None => {
                let a = crate::text::concat("Node ", crate::text::u64_to_decimal(id as u64).as_str());
                return NodePlan::Missing(VenturiError::Vm(crate::text::concat(a.as_str(), " not found")));
            },
        };
        match &node.kind {
            DagNodeKind::Module(vt) => match module_plan(vt, outs) {
                Some((code, ctx)) => NodePlan::Run(code, ctx),
                None => NodePlan::Done(Value::Null),
            },
            DagNodeKind::Chass(vcbin) => {
                let (code, ctx) = chass_plan(vcbin, outs);
                NodePlan::Run(code, ctx)
            },
            DagNodeKind::Pit(st) => match &st.vcbin_path {
                None => NodePlan::EmptyPit(st.name.clone()),
                Some(p) => NodePlan::PitFile(p.clone()),
            },
        }
    }

    /// Records the value a node came to: memoized where the node is a pure
    /// module.
    pub fn finish_node(&mut self, id: u32, v: &Value)
        requires
            old(self).wf(),
        ensures
            final(self).wf(),
            final(self).dag_spec() == old(self).dag_spec(),
            final(self).pits_spec() == old(self).pits_spec(),
            plane_module(old(self).dag_spec().nodes(), id) ==> final(self).memo() == old(self).memo().insert(id, value_v(*v)),
            !plane_module(old(self).dag_spec().nodes(), id) ==> final(self).memo() == old(self).memo(),
            finished(*old(self), *final(self), id, value_v(*v)),
    {
        proof { crate::graph::lemma_dag_shape(&self.dag); }
        let plane = match self.dag.node(id) {
            Some(n) => match &n.kind {
                DagNodeKind::Module(vt) => vt.kind == NodeKind::Plane,
                _ => false,
            },
            None => false,
        };
        if plane {
            self.remember(id, copy_value(v));
        }
    }

    /// Adds a chassis as a node, under the first VAN it allows; refused where
    /// its hash is not that of its sections.
    pub fn load_vcbin(&mut self, vcbin: VcBin, sections: &Vec<Vec<u8>>) -> (r: Result<u32, VenturiError>)
        requires
            old(self).wf(),
            old(self).dag_spec()@.names.len() + 1 < u32::MAX,
        ensures
            final(self).wf(),
            final(self).pits_spec() == old(self).pits_spec(),
            final(self).memo() == old(self).memo(),
            !crate::vcbin::seals(vcbin.hash@, sections@) ==>
                err_is(r, ErrV::VcBin("Hash verification failed"@)) && final(self).dag_spec() == old(self).dag_spec(),
            crate::vcbin::seals(vcbin.hash@, sections@) ==>
                (r matches Ok(id) && id == old(self).dag_spec()@.names.len()
                && final(self).dag_spec()@.names == old(self).dag_spec()@.names.push(vcbin.metadata.name@)
                && final(self).dag_spec()@.succ == old(self).dag_spec()@.succ.push(Seq::<u32>::empty())
                && final(self).dag_spec().nodes().last().kind == DagNodeKind::Chass(vcbin)),
    {
        if !vcbin.verify_hash(sections) {
            proof { reveal_strlit("Hash verification failed"); }
            return Err(VenturiError::VcBin(String::from_str("Hash verification failed")));
        }
        let name = vcbin.metadata.name.clone();
        let van = if vcbin.permissions.allowed_vans.len() > 0 {
            Some(vcbin.permissions.allowed_vans[0].clone())
        } else {
            None
        };
        let id = self.dag.add_node(name, DagNodeKind::Chass(vcbin), van);
        Ok(id)
    }
}


/// The value `node_plan` answers from the memo for `id`, if any: where this
/// is `Some(c)`, the plan is `Cached` with a value of model `c`.
pub open spec fn cached_plan(rt: Runtime, id: u32) -> Option<ValueV> {
    if rt.memo().dom().contains(id) { Some(rt.memo()[id]) } else { None }
}

/// What `finish_node(id, v)` leaves: the DAG and pits as they were, and
/// the memo with `id => v` added where the node is a plane module,
/// unchanged otherwise.
pub open spec fn finished(before: Runtime, after: Runtime, id: u32, v: ValueV) -> bool {
    &&& after.dag_spec() == before.dag_spec()
    &&& after.pits_spec() == before.pits_spec()
    &&& plane_module(before.dag_spec().nodes(), id) ==> after.memo() == before.memo().insert(id, v)
    &&& !plane_module(before.dag_spec().nodes(), id) ==> after.memo() == before.memo()
}

/// A plane module, once finished with a value, is planned again as
/// `Cached` with that value (so it does not run twice); finishing any other
/// node leaves it out of the memo where it was not there.
pub proof fn lemma_finish_then_plan(before: Runtime, after: Runtime, id: u32, v: ValueV)
    requires
        finished(before, after, id, v),
    ensures
        plane_module(before.dag_spec().nodes(), id) ==> cached_plan(after, id) == Some(v),
        plane_module(after.dag_spec().nodes(), id) == plane_module(before.dag_spec().nodes(), id),
        !plane_module(before.dag_spec().nodes(), id) && cached_plan(before, id) is None
            ==> cached_plan(after, id) is None,
{
}

/// The ids a pit update makes stale: the pit's node and everything it
/// reaches.
pub open spec fn stale_ids(d: DagV, pid: u32) -> Set<u32> {
    Set::new(|b: u32| b == pid || reach1(dag_rel(d), pid, b))
}

impl Runtime {
    /// Updates the pit `pit_name` to a new chassis (see `PitStore::update`);
    /// then, where a node of that name is in the DAG, forgets the memoized
    /// values of that node and of every node it reaches, and gives the pit
    /// node the pit's new state.
    pub fn apply_pit_update(&mut self, pit_name: &str, vcbin_path: &str, contents: Option<Vec<u8>>)
        -> (r: Result<(), VenturiError>)
        requires
            old(self).wf(),
            forall|i: int| 0 <= i < old(self).pits_spec()@.len() && (#[trigger] old(self).pits_spec()@[i]).0 == pit_name@
                ==> crate::pits::max_version(old(self).pits_spec()@[i].1.history) < usize::MAX,
        ensures
            final(self).wf(),
            !has_pit(old(self).pits_spec()@, pit_name@) ==> err_is(r, ErrV::Pit(crate::pits::not_found_text(pit_name@)))
                && final(self).pits_spec()@ == old(self).pits_spec()@ && final(self).memo() == old(self).memo()
                && final(self).dag_spec() == old(self).dag_spec(),
            has_pit(old(self).pits_spec()@, pit_name@) ==> r is Ok,
            has_pit(old(self).pits_spec()@, pit_name@) ==> exists|i: int, t: nat| 0 <= i < old(self).pits_spec()@.len()
                && old(self).pits_spec()@[i].0 == pit_name@
                && final(self).pits_spec()@ == old(self).pits_spec()@.update(i, (pit_name@,
                    crate::pits::updated_entry_v(old(self).pits_spec()@[i].1, vcbin_path@,
                        crate::pits::hash_text_spec(vcbin_path@, crate::pits::opt_bytes(contents)), t))),
            final(self).dag_spec()@ == old(self).dag_spec()@,
            final(self).dag_spec().edge_count() == old(self).dag_spec().edge_count(),
            final(self).dag_spec().nodes().len() == old(self).dag_spec().nodes().len(),
            has_pit(old(self).pits_spec()@, pit_name@) ==> match first_named(old(self).dag_spec()@.names, pit_name@) {
                None => final(self).memo() == old(self).memo()
                    && final(self).dag_spec().nodes() == old(self).dag_spec().nodes(),
                Some(pid) => final(self).memo() == old(self).memo().remove_keys(stale_ids(old(self).dag_spec()@, pid))
                    && (forall|j: int| 0 <= j < old(self).dag_spec().nodes().len() && j != pid
                        ==> #[trigger] final(self).dag_spec().nodes()[j] == old(self).dag_spec().nodes()[j])
                    && (old(self).dag_spec().nodes()[pid as int].kind is Pit ==>
                        (final(self).dag_spec().nodes()[pid as int].kind matches DagNodeKind::Pit(st)
                        && st.name@ == pit_name@
                        && (opt_v(st.vcbin_path), st.version as nat) == pit_state_spec(final(self).pits_spec()@, pit_name@)))
                    && (!(old(self).dag_spec().nodes()[pid as int].kind is Pit) ==>
                        final(self).dag_spec().nodes()[pid as int] == old(self).dag_spec().nodes()[pid as int]),
            },
    {
        let ghost p0 = self.pits@;
        proof {
            assert forall|i: int| 0 <= i < self.pits@.len() && (#[trigger] self.pits@[i]).0 == pit_name@
                implies crate::pits::max_version(self.pits@[i].1.history) < usize::MAX by {
                assert(self.pits_spec()@[i] == self.pits@[i]);
            }
        }
        match self.pits.update(pit_name, vcbin_path, contents) {
            Ok(()) => {},
            Err(e) => return Err(e),
        }
        let ghost wi = choose|i: int| 0 <= i < p0.len() && (#[trigger] p0[i]).0 == pit_name@;
        let ghost hash = crate::pits::hash_text_spec(vcbin_path@, crate::pits::opt_bytes(contents));
        proof { assert(p0[wi].0 == pit_name@); }
        let ghost wt = choose|t: nat| self.pits@ == p0.update(wi, (pit_name@,
            crate::pits::updated_entry_v(p0[wi].1, vcbin_path@, hash, t)));
        let ghost p1 = self.pits@;
        proof { crate::graph::lemma_dag_shape(&self.dag); }
        let found = self.dag.node_by_name(pit_name);
        proof { lemma_first_named(self.dag@.names, pit_name@, found); }
        if let Some(pid) = found {
            let ghost m0 = self.memo();
            let ghost d = self.dag@;
            self.forget(pid);
            let below = self.dag.downstream(pid);
            let mut k: usize = 0;
            while k < below.len()
                invariant
                    self.wf(),
                    self.dag == old(self).dag,
                    d == self.dag@,
                    self.pits@ == p1,
                    k <= below@.len(),
                    forall|b: u32| below@.contains(b) <==> (b != pid && reach1(dag_rel(d), pid, b)),
                    self.memo() == m0.remove_keys(Set::new(|b: u32| b == pid || below@.subrange(0, k as int).contains(b))),
                decreases below.len() - k,
            {
                let ghost before = self.memo();
                self.forget(below[k]);
                proof {
                    let s0 = Set::new(|b: u32| b == pid || below@.subrange(0, k as int).contains(b));
                    let s1 = Set::new(|b: u32| b == pid || below@.subrange(0, k + 1).contains(b));
                    assert forall|b: u32| s1.contains(b) <==> (s0.contains(b) || b == below@[k as int]) by {
                        if below@.subrange(0, k + 1).contains(b) && b != below@[k as int] {
                            let w = choose|w: int| 0 <= w < k + 1 && #[trigger] below@.subrange(0, k + 1)[w] == b;
                            assert(below@.subrange(0, k as int)[w] == b);
                        }
                        if below@.subrange(0, k as int).contains(b) {
                            let w = choose|w: int| 0 <= w < k && #[trigger] below@.subrange(0, k as int)[w] == b;
                            assert(below@.subrange(0, k + 1)[w] == b);
                        }
                        if b == below@[k as int] {
                            assert(below@.subrange(0, k + 1)[k as int] == b);
                        }
                    }
                    assert(self.memo() =~= m0.remove_keys(s1));
                }
                k = k + 1;
            }
            proof {
                let s = Set::new(|b: u32| b == pid || below@.subrange(0, below@.len() as int).contains(b));
                assert(below@.subrange(0, below@.len() as int) =~= below@);
                assert(s =~= stale_ids(d, pid));
            }
            let is_pit = match self.dag.node(pid) {
                Some(n) => match &n.kind {
                    DagNodeKind::Pit(_) => true,
                    _ => false,
                },
                None => false,
            };
            if is_pit {
                let state = pit_state(&self.pits, pit_name);
                self.dag.set_pit_state(pid, state);
            }
        }
        assert(self.pits@ == p1);
        assert(self.pits@ == p0.update(wi, (pit_name@, crate::pits::updated_entry_v(p0[wi].1, vcbin_path@, hash, wt))));
        Ok(())
    }
}

/// A literal compiles to one push of the value that `eval_const_expr`
/// gives it; a function whose body is `return <literal>` compiles to that
/// push and a return, and the machine started on that code finishes with
/// the literal's value.
pub proof fn lemma_literal_compiles_to_its_value(e: ExprV, name: Seq<char>, params: Seq<Seq<char>>,
    vars: Map<Seq<char>, ValueV>, outs: Map<Seq<char>, ValueV>, van: Option<Seq<char>>, limit: nat)
    requires
        e is IntLit || e is FloatLit || e is StrLit || e is BoolLit,
        limit >= 2,
    ensures
        crate::compiler::c_expr(e) == seq![InstrV::Push(const_value(e))],
        crate::compiler::c_func(crate::ast::FuncV { name, params, body: seq![crate::ast::StmtV::Return(e)] })
            == seq![InstrV::Push(const_value(e)), InstrV::Return],
        crate::vm::run_v(
            crate::compiler::c_func(crate::ast::FuncV { name, params, body: seq![crate::ast::StmtV::Return(e)] }),
            crate::vm::MachineV { stack: seq![], ip: 0, catchers: seq![] }, vars, outs, van, limit).step
            == crate::vm::StepV::Finished(const_value(e)),
{
    let f = crate::ast::FuncV { name, params, body: seq![crate::ast::StmtV::Return(e)] };
    assert(f.body.drop_last() =~= Seq::<crate::ast::StmtV>::empty());
    assert(crate::compiler::c_block(f.body.drop_last(), 0) =~= Seq::<InstrV>::empty());
    assert(crate::compiler::c_expr(e) =~= seq![InstrV::Push(const_value(e))]);
    assert(f.body.last() == crate::ast::StmtV::Return(e));
    assert(crate::compiler::c_stmt(crate::ast::StmtV::Return(e), 0) =~= seq![InstrV::Push(const_value(e)), InstrV::Return]);
    assert(crate::compiler::c_block(f.body, 0) =~= seq![InstrV::Push(const_value(e)), InstrV::Return]);
    let code = crate::compiler::c_func(f);
    let m0 = crate::vm::MachineV { stack: seq![], ip: 0, catchers: seq![] };
    let n1 = crate::vm::next_v(code, m0, vars, outs, van);
    assert(n1.machine.stack =~= seq![const_value(e)]);
    let n2 = crate::vm::next_v(code, n1.machine, vars, outs, van);
    assert(n2.step == crate::vm::StepV::Finished(const_value(e)));
    assert(crate::vm::run_v(code, n1.machine, n1.vars, outs, van, (limit - 1) as nat) == n2);
}

/// A function whose body is `return <name>` finishes with the value bound
/// to that name: the variable if there is one, else the output of the
/// upstream node of that name, else null.
pub proof fn lemma_return_name_gives_binding(n: Seq<char>, name: Seq<char>, params: Seq<Seq<char>>,
    vars: Map<Seq<char>, ValueV>, outs: Map<Seq<char>, ValueV>, van: Option<Seq<char>>, limit: nat)
    requires
        limit >= 2,
    ensures
        ({
            let code = crate::compiler::c_func(crate::ast::FuncV {
                name, params, body: seq![crate::ast::StmtV::Return(ExprV::Ident(n))] });
            let r = crate::vm::run_v(code, crate::vm::MachineV { stack: seq![], ip: 0, catchers: seq![] },
                vars, outs, van, limit).step;
            &&& vars.dom().contains(n) ==> r == crate::vm::StepV::Finished(vars[n])
            &&& !vars.dom().contains(n) && outs.dom().contains(n) ==> r == crate::vm::StepV::Finished(outs[n])
            &&& !vars.dom().contains(n) && !outs.dom().contains(n) ==> r == crate::vm::StepV::Finished(ValueV::Null)
        }),
{
    let e = ExprV::Ident(n);
    let f = crate::ast::FuncV { name, params, body: seq![crate::ast::StmtV::Return(e)] };
    assert(f.body.drop_last() =~= Seq::<crate::ast::StmtV>::empty());
    assert(crate::compiler::c_block(f.body.drop_last(), 0) =~= Seq::<InstrV>::empty());
    assert(crate::compiler::c_expr(e) =~= seq![InstrV::Load(n)]);
    assert(f.body.last() == crate::ast::StmtV::Return(e));
    assert(crate::compiler::c_stmt(crate::ast::StmtV::Return(e), 0) =~= seq![InstrV::Load(n), InstrV::Return]);
    assert(crate::compiler::c_block(f.body, 0) =~= seq![InstrV::Load(n), InstrV::Return]);
    let code = crate::compiler::c_func(f);
    let m0 = crate::vm::MachineV { stack: seq![], ip: 0, catchers: seq![] };
    let v = crate::vm::lookup_v(vars, outs, n);
    let n1 = crate::vm::next_v(code, m0, vars, outs, van);
    assert(n1.machine.stack =~= seq![v]);
    let n2 = crate::vm::next_v(code, n1.machine, vars, outs, van);
    assert(n2.step == crate::vm::StepV::Finished(v));
    assert(crate::vm::run_v(code, n1.machine, n1.vars, outs, van, (limit - 1) as nat) == n2);
}

} // verus!
