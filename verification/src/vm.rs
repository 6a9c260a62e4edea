//! The bytecode machine: its state, and one step of it at a time.

use vstd::prelude::*;
use crate::bytecode::{Instruction, InstrV, Value, ValueV, copy_value, instr_v, truthy_v, value_v};
use crate::error::VenturiError;
use crate::text::str_eq;

verus! {

/// The map that a list of distinct-keyed entries stands for.
pub open spec fn entries_map(s: Seq<(String, Value)>) -> Map<Seq<char>, ValueV>
    decreases s.len(),
{
    if s.len() == 0 {
        Map::empty()
    } else {
        entries_map(s.drop_last()).insert(s.last().0@, value_v(s.last().1))
    }
}

/// No key occurs twice.
pub open spec fn keys_distinct(s: Seq<(String, Value)>) -> bool {
    forall|i: int, j: int| 0 <= i < j < s.len() ==> (#[trigger] s[i]).0@ != (#[trigger] s[j]).0@
}

proof fn lemma_entries_dom(s: Seq<(String, Value)>, k: Seq<char>)
    ensures
        entries_map(s).dom().contains(k) <==> exists|i: int| 0 <= i < s.len() && (#[trigger] s[i]).0@ == k,
    decreases s.len(),
{
    if s.len() > 0 {
        lemma_entries_dom(s.drop_last(), k);
        if entries_map(s.drop_last()).dom().contains(k) {
            let i = choose|i: int| 0 <= i < s.drop_last().len() && (#[trigger] s.drop_last()[i]).0@ == k;
            assert(s[i].0@ == k);
        }
        if exists|i: int| 0 <= i < s.len() && (#[trigger] s[i]).0@ == k {
            let i = choose|i: int| 0 <= i < s.len() && (#[trigger] s[i]).0@ == k;
            if i < s.len() - 1 {
                assert(s.drop_last()[i].0@ == k);
            }
        }
    }
}

proof fn lemma_entries_at(s: Seq<(String, Value)>, i: int)
    requires
        keys_distinct(s),
        0 <= i < s.len(),
    ensures
        entries_map(s).dom().contains(s[i].0@),
        entries_map(s)[s[i].0@] == value_v(s[i].1),
    decreases s.len(),
{
    if i < s.len() - 1 {
        lemma_entries_at(s.drop_last(), i);
        assert(s.drop_last()[i] == s[i]);
        assert(s.last().0@ != s[i].0@);
    }
}

proof fn lemma_entries_update(s: Seq<(String, Value)>, i: int, e: (String, Value))
    requires
        keys_distinct(s),
        0 <= i < s.len(),
        e.0@ == s[i].0@,
    ensures
        entries_map(s.update(i, e)) == entries_map(s).insert(e.0@, value_v(e.1)),
        keys_distinct(s.update(i, e)),
    decreases s.len(),
{
    let t = s.update(i, e);
    if i == s.len() - 1 {
        assert(t.drop_last() =~= s.drop_last());
        assert(entries_map(s).insert(e.0@, value_v(e.1)) =~= entries_map(s.drop_last()).insert(e.0@, value_v(e.1)));
    } else {
        lemma_entries_update(s.drop_last(), i, e);
        assert(t.drop_last() =~= s.drop_last().update(i, e));
        assert(s.last().0@ != e.0@);
        assert(entries_map(t) =~= entries_map(s).insert(e.0@, value_v(e.1)));
    }
}

/// Values by name, each name once (the interpreter's variables and the
/// outputs of upstream nodes).
pub struct Bindings {
    entries: Vec<(String, Value)>,
}

impl View for Bindings {
    type V = Map<Seq<char>, ValueV>;

    closed spec fn view(&self) -> Map<Seq<char>, ValueV> {
        entries_map(self.entries@)
    }
}

impl Bindings {
    /// Each name is bound once.
    pub closed spec fn wf(&self) -> bool {
        keys_distinct(self.entries@)
    }

    /// No bindings.
    pub fn new() -> (r: Bindings)
        ensures
            r.wf(),
            r@ == Map::<Seq<char>, ValueV>::empty(),
    {
        let r = Bindings { entries: Vec::new() };
        assert(r@ =~= Map::<Seq<char>, ValueV>::empty());
        r
    }

    fn index_of(&self, k: &str) -> (r: Option<usize>)
        ensures
            match r {
                Some(i) => i < self.entries@.len() && self.entries@[i as int].0@ == k@,
                None => forall|i: int| 0 <= i < self.entries@.len() ==> (#[trigger] self.entries@[i]).0@ != k@,
            },
    {
        let mut i: usize = 0;
        while i < self.entries.len()
            invariant
                i <= self.entries@.len(),
                forall|j: int| 0 <= j < i ==> (#[trigger] self.entries@[j]).0@ != k@,
            decreases self.entries.len() - i,
        {
            if str_eq(self.entries[i].0.as_str(), k) {
                return Some(i);
            }
            i = i + 1;
        }
        None
    }

    /// The value bound to `k`, if any.
    pub fn get(&self, k: &str) -> (r: Option<&Value>)
        requires
            self.wf(),
        ensures
            match r {
                Some(v) => self@.dom().contains(k@) && value_v(*v) == self@[k@],
                None => !self@.dom().contains(k@),
            },
    {
        proof { lemma_entries_dom(self.entries@, k@); }
        match self.index_of(k) {
            Some(i) => {
                proof { lemma_entries_at(self.entries@, i as int); }
                Some(&self.entries[i].1)
            },
            None => None,
        }
    }

    /// Whether `k` is bound.
    pub fn contains_key(&self, k: &str) -> (r: bool)
        requires
            self.wf(),
        ensures
            r == self@.dom().contains(k@),
    {
        proof { lemma_entries_dom(self.entries@, k@); }
        self.index_of(k).is_some()
    }

    /// Binds `k` to `v`, replacing what it was bound to.
    pub fn insert(&mut self, k: String, v: Value)
        requires
            old(self).wf(),
        ensures
            final(self).wf(),
            final(self)@ == old(self)@.insert(k@, value_v(v)),
    {
        proof { lemma_entries_dom(self.entries@, k@); }
        match self.index_of(k.as_str()) {
            Some(i) => {
                proof { lemma_entries_update(self.entries@, i as int, (k, v)); }
                self.entries.set(i, (k, v));
            },
            None => {
                let ghost e = (k, v);
                self.entries.push((k, v));
                proof {
                    assert(self.entries@.drop_last() =~= old(self).entries@);
                }
            },
        }
    }

    /// A copy of the bindings.
    pub fn copy(&self) -> (r: Bindings)
        requires
            self.wf(),
        ensures
            r.wf(),
            r@ == self@,
    {
        let mut out: Vec<(String, Value)> = Vec::new();
        let mut i: usize = 0;
        while i < self.entries.len()
            invariant
                self.wf(),
                i <= self.entries@.len(),
                out@.len() == i,
                forall|j: int| 0 <= j < i ==> (#[trigger] out@[j]).0@ == self.entries@[j].0@
                    && value_v(out@[j].1) == value_v(self.entries@[j].1),
            decreases self.entries.len() - i,
        {
            let e = (self.entries[i].0.clone(), copy_value(&self.entries[i].1));
            out.push(e);
            i = i + 1;
        }
        proof { lemma_entries_same(out@, self.entries@); }
        Bindings { entries: out }
    }

    /// The binding at position `i`, bindings kept in the order their names
    /// were first bound.
    pub fn entry_at(&self, i: usize) -> (r: (&String, &Value))
        requires
            self.wf(),
            i < self@.dom().len(),
        ensures
            self@.dom().contains(r.0@),
            self@[r.0@] == value_v(*r.1),
    {
        proof {
            lemma_entries_len(self.entries@);
            lemma_entries_at(self.entries@, i as int);
        }
        let e = &self.entries[i];
        (&e.0, &e.1)
    }

    /// The number of bindings.
    pub fn len(&self) -> (r: usize)
        requires
            self.wf(),
        ensures
            r == self@.dom().len(),
    {
        proof { lemma_entries_len(self.entries@); }
        self.entries.len()
    }
}

proof fn lemma_entries_same(a: Seq<(String, Value)>, b: Seq<(String, Value)>)
    requires
        a.len() == b.len(),
        forall|j: int| 0 <= j < a.len() ==> (#[trigger] a[j]).0@ == b[j].0@ && value_v(a[j].1) == value_v(b[j].1),
    ensures
        entries_map(a) == entries_map(b),
        keys_distinct(b) ==> keys_distinct(a),
    decreases a.len(),
{
    if a.len() > 0 {
        lemma_entries_same(a.drop_last(), b.drop_last());
        assert(a.last().0@ == b.last().0@);
        if keys_distinct(b) {
            assert forall|i: int, j: int| 0 <= i < j < a.len() implies (#[trigger] a[i]).0@ != (#[trigger] a[j]).0@ by {
                assert(b[i].0@ != b[j].0@);
            }
        }
    }
}

proof fn lemma_entries_len(s: Seq<(String, Value)>)
    requires
        keys_distinct(s),
    ensures
        entries_map(s).dom().finite(),
        entries_map(s).dom().len() == s.len(),
    decreases s.len(),
{
    if s.len() > 0 {
        lemma_entries_len(s.drop_last());
        lemma_entries_dom(s.drop_last(), s.last().0@);
        if entries_map(s.drop_last()).dom().contains(s.last().0@) {
            let i = choose|i: int| 0 <= i < s.drop_last().len() && (#[trigger] s.drop_last()[i]).0@ == s.last().0@;
            assert(s[i].0@ == s[s.len() - 1].0@);
        }
    }
}


/// The values of a stack, bottom first.
pub open spec fn stack_v(s: Seq<Value>) -> Seq<ValueV> {
    s.map_values(|v: Value| value_v(v))
}

/// A catch handler that is in force: the error type it names, where its
/// handler starts, and how deep the stack was when it was pushed.
pub struct CatchFrame {
    pub error_type: String,
    pub handler_ip: usize,
    pub stack_depth: usize,
}

pub struct FrameV {
    pub error_type: Seq<char>,
    pub handler_ip: nat,
    pub stack_depth: nat,
}

pub open spec fn frame_v(f: CatchFrame) -> FrameV {
    FrameV { error_type: f.error_type@, handler_ip: f.handler_ip as nat, stack_depth: f.stack_depth as nat }
}

pub open spec fn frames_v(s: Seq<CatchFrame>) -> Seq<FrameV> {
    s.map_values(|f: CatchFrame| frame_v(f))
}

/// The state of a running function: operand stack, next instruction and
/// catch handlers in force (innermost last).
pub struct Machine {
    pub stack: Vec<Value>,
    pub ip: usize,
    pub catchers: Vec<CatchFrame>,
}

pub struct MachineV {
    pub stack: Seq<ValueV>,
    pub ip: nat,
    pub catchers: Seq<FrameV>,
}

pub open spec fn machine_v(m: Machine) -> MachineV {
    MachineV { stack: stack_v(m.stack@), ip: m.ip as nat, catchers: frames_v(m.catchers@) }
}

impl Machine {
    /// A machine about to run the first instruction, with nothing on the
    /// stack and no handler in force.
    pub fn new() -> (r: Machine)
        ensures
            machine_v(r) == (MachineV { stack: seq![], ip: 0, catchers: seq![] }),
    {
        let r = Machine { stack: Vec::new(), ip: 0, catchers: Vec::new() };
        assert(stack_v(r.stack@) =~= seq![]);
        assert(frames_v(r.catchers@) =~= seq![]);
        r
    }

    /// Pushes a value the host computed (the answer to a `Step` that asked
    /// for one).
    pub fn push(&mut self, v: Value)
        ensures
            machine_v(*final(self)) == (MachineV { stack: machine_v(*old(self)).stack.push(value_v(v)), ..machine_v(*old(self)) }),
    {
        proof { lemma_stack_push(self.stack@, v); }
        self.stack.push(v);
    }
}

/// What a function runs with: its variables, the VAN it runs under, and the
/// outputs of the nodes upstream of it.
pub struct ExecContext {
    pub variables: Bindings,
    pub current_van: Option<String>,
    pub node_outputs: Bindings,
}

impl ExecContext {
    /// A context with no variables and no upstream outputs.
    pub fn new(van: Option<String>) -> (r: ExecContext)
        ensures
            r.variables.wf(),
            r.node_outputs.wf(),
            r.variables@ == Map::<Seq<char>, ValueV>::empty(),
            r.node_outputs@ == Map::<Seq<char>, ValueV>::empty(),
            r.current_van == van,
    {
        ExecContext { variables: Bindings::new(), current_van: van, node_outputs: Bindings::new() }
    }

    /// The context with every input bound as a variable (an input wins over
    /// a variable of the same name).
    pub fn with_inputs(self, inputs: Bindings) -> (r: ExecContext)
        requires
            self.variables.wf(),
            inputs.wf(),
        ensures
            r.variables.wf(),
            r.variables@ == self.variables@.union_prefer_right(inputs@),
            r.node_outputs == self.node_outputs,
            r.current_van == self.current_van,
    {
        let ghost start = self.variables@;
        let ExecContext { variables: mut vars, current_van, node_outputs } = self;
        let Bindings { entries } = inputs;
        let ghost es = entries@;
        let mut rest = entries;
        let mut taken: Vec<(String, Value)> = Vec::new();
        let mut i: usize = 0;
        let n = rest.len();
        assert(es.subrange(0, 0) =~= Seq::<(String, Value)>::empty());
        assert(start.union_prefer_right(entries_map(Seq::<(String, Value)>::empty())) =~= start);
        // Take the entries from the back, then bind them front to back.
        while rest.len() > 0
            invariant
                rest@ + taken@.reverse() == es,
            decreases rest.len(),
        {
            let e = rest.pop().unwrap();
            let ghost before_taken = taken@;
            let ghost before_rest = rest@;
            taken.push(e);
            proof {
                assert(taken@.reverse() =~= seq![e] + before_taken.reverse());
            }
        }
        assert(taken@.reverse() =~= es);
        assert(taken@.len() == es.len());
        while i < n
            invariant
                n == es.len(),
                taken@.len() == n - i,
                i <= n,
                forall|j: int| 0 <= j < n - i ==> (#[trigger] taken@[j]) == es[n - 1 - j],
                vars.wf(),
                vars@ == start.union_prefer_right(entries_map(es.subrange(0, i as int))),
            decreases n - i,
        {
            let (k, v) = taken.pop().unwrap();
            proof {
                assert(taken@.len() == n - i - 1);
                let next = es.subrange(0, i + 1);
                assert(next.drop_last() =~= es.subrange(0, i as int));
                assert(next.last() == es[i as int]);
            }
            vars.insert(k, v);
            proof {
                let next = es.subrange(0, i + 1);
                assert(vars@ =~= start.union_prefer_right(entries_map(next)));
            }
            i = i + 1;
        }
        assert(es.subrange(0, n as int) =~= es);
        ExecContext { variables: vars, current_van, node_outputs }
    }
}

proof fn lemma_stack_push(s: Seq<Value>, v: Value)
    ensures
        stack_v(s.push(v)) == stack_v(s).push(value_v(v)),
{
    assert(stack_v(s.push(v)) =~= stack_v(s).push(value_v(v)));
}


/// A float operation left to the host.
#[derive(PartialEq, Eq, Structural, Clone, Copy, Debug)]
pub enum FloatOp {
    Add,
    Sub,
    Mul,
    Div,
    Lt,
    Gt,
}

/// A message the machine asks the host to print.
#[derive(Debug)]
pub enum Notice {
    /// `[venturi log] ...`, with the value printed, or nothing.
    Log(Option<Value>),
    /// `[venturi notify] ...`
    Notify(Option<Value>),
    /// `[venturi event] ...`
    Event(Option<Value>),
    /// `[venturi warn] Unknown call: name(n args)`
    UnknownCall(String, usize),
}

pub enum NoticeV {
    Log(Option<ValueV>),
    Notify(Option<ValueV>),
    Event(Option<ValueV>),
    UnknownCall(Seq<char>, nat),
}

pub open spec fn opt_value_v(o: Option<Value>) -> Option<ValueV> {
    match o {
        Some(v) => Some(value_v(v)),
        None => None,
    }
}

pub open spec fn notice_v(n: Notice) -> NoticeV {
    match n {
        Notice::Log(o) => NoticeV::Log(opt_value_v(o)),
        Notice::Notify(o) => NoticeV::Notify(opt_value_v(o)),
        Notice::Event(o) => NoticeV::Event(opt_value_v(o)),
        Notice::UnknownCall(name, k) => NoticeV::UnknownCall(name@, k as nat),
    }
}

/// What one step of the machine came to, and what the host must do.
#[derive(Debug)]
pub enum Step {
    /// Nothing for the host; run the next step.
    Continue,
    /// The function returned this value.
    Finished(Value),
    /// The function failed (an uncaught throw, or a VAN check).
    Failed(VenturiError),
    /// Integer arithmetic overflowed, which the host treats as the fatal
    /// fault it is.
    Overflow,
    /// The host computes the float operation on the two operands (their
    /// text) and pushes the result.
    Float(FloatOp, String, String),
    /// The host compares the two values (holding a float or a map) and
    /// pushes whether they are equal (or, when the flag is set, unequal).
    Compare(bool, Value, Value),
    /// The host pushes `Err(text)`, the text being how the value prints.
    Render(Value),
    /// The host prints the notice; then run the next step.
    Notice(Notice),
}

pub enum StepV {
    Continue,
    Finished(ValueV),
    Failed(crate::error::ErrV),
    Overflow,
    Float(FloatOp, Seq<char>, Seq<char>),
    Compare(bool, ValueV, ValueV),
    Render(ValueV),
    Notice(NoticeV),
}

pub open spec fn step_v(s: Step) -> StepV {
    match s {
        Step::Continue => StepV::Continue,
        Step::Finished(v) => StepV::Finished(value_v(v)),
        Step::Failed(e) => StepV::Failed(e@),
        Step::Overflow => StepV::Overflow,
        Step::Float(op, a, b) => StepV::Float(op, a@, b@),
        Step::Compare(neg, a, b) => StepV::Compare(neg, value_v(a), value_v(b)),
        Step::Render(v) => StepV::Render(value_v(v)),
        Step::Notice(n) => StepV::Notice(notice_v(n)),
    }
}

/// The top of a stack and the rest; an empty stack gives null.
pub open spec fn pop1(st: Seq<ValueV>) -> (ValueV, Seq<ValueV>) {
    if st.len() == 0 {
        (ValueV::Null, st)
    } else {
        (st.last(), st.drop_last())
    }
}

/// `n` values popped one by one (in the order they come off), and the rest.
pub open spec fn pop_list(st: Seq<ValueV>, n: nat) -> (Seq<ValueV>, Seq<ValueV>)
    decreases n,
{
    if n == 0 {
        (seq![], st)
    } else {
        let (v, s1) = pop1(st);
        let (p, r) = pop_list(s1, (n - 1) as nat);
        (seq![v] + p, r)
    }
}

/// A value holds a float or a map somewhere: the host decides equality.
pub open spec fn needs_host(v: ValueV) -> bool
    decreases v,
{
    match v {
        ValueV::Float(_) => true,
        ValueV::Dict(_) => true,
        ValueV::List(items) => any_needs_host(items),
        ValueV::OkVal(b) => needs_host(*b),
        _ => false,
    }
}

/// Some value of the sequence needs the host.
pub open spec fn any_needs_host(s: Seq<ValueV>) -> bool
    decreases s,
{
    if s.len() == 0 {
        false
    } else {
        any_needs_host(s.drop_last()) || needs_host(s.last())
    }
}

/// Rust's integer division, rounding toward zero.
pub open spec fn trunc_div(x: int, d: int) -> int {
    if x == 0 {
        0
    } else if x > 0 && d > 0 {
        x / d
    } else if x < 0 && d < 0 {
        (x * -1) / (d * -1)
    } else if x < 0 {
        ((x * -1) / d) * -1
    } else {
        (x / (d * -1)) * -1
    }
}

pub open spec fn fits_i64(x: int) -> bool {
    i64::MIN <= x <= i64::MAX
}

/// The effect of an operation on the stack: push a value, or report to the
/// host and push nothing.
pub enum Effect {
    Push(ValueV),
    Report(StepV),
}

/// `a op b` for the arithmetic instructions.
pub open spec fn arith_v(i: InstrV, a: ValueV, b: ValueV) -> Effect {
    match (a, b) {
        (ValueV::Int(x), ValueV::Int(y)) => {
            let r: int = match i {
                InstrV::Add => x + y,
                InstrV::Sub => x - y,
                InstrV::Mul => x * y,
                _ => if y == 0 { 0 } else { trunc_div(x as int, y as int) },
            };
            if i is Div && y == 0 {
                Effect::Push(ValueV::Null)
            } else if fits_i64(r) {
                Effect::Push(ValueV::Int(r as i64))
            } else {
                Effect::Report(StepV::Overflow)
            }
        },
        (ValueV::Float(x), ValueV::Float(y)) => Effect::Report(StepV::Float(
            match i {
                InstrV::Add => FloatOp::Add,
                InstrV::Sub => FloatOp::Sub,
                InstrV::Mul => FloatOp::Mul,
                _ => FloatOp::Div,
            },
            x,
            y,
        )),
        (ValueV::Str(x), ValueV::Str(y)) => if i is Add {
            Effect::Push(ValueV::Str(x + y))
        } else {
            Effect::Push(ValueV::Null)
        },
        _ => Effect::Push(ValueV::Null),
    }
}

/// `a < b` (or `a > b` for `Gt`).
pub open spec fn order_v(i: InstrV, a: ValueV, b: ValueV) -> Effect {
    match (a, b) {
        (ValueV::Int(x), ValueV::Int(y)) => Effect::Push(ValueV::Bool(if i is Lt { x < y } else { x > y })),
        (ValueV::Float(x), ValueV::Float(y)) => Effect::Report(StepV::Float(if i is Lt { FloatOp::Lt } else { FloatOp::Gt }, x, y)),
        _ => Effect::Push(ValueV::Bool(false)),
    }
}

/// `a == b` (or `a != b` when `negate`).
pub open spec fn equal_v(negate: bool, a: ValueV, b: ValueV) -> Effect {
    if needs_host(a) || needs_host(b) {
        Effect::Report(StepV::Compare(negate, a, b))
    } else {
        Effect::Push(ValueV::Bool((a == b) != negate))
    }
}

/// The first argument, or null.
pub open spec fn first_or_null(args: Seq<ValueV>) -> ValueV {
    if args.len() > 0 { args[0] } else { ValueV::Null }
}

pub open spec fn first_opt(args: Seq<ValueV>) -> Option<ValueV> {
    if args.len() > 0 { Some(args[0]) } else { None }
}

/// The result of calling a builtin (or an upstream node by name) and the
/// notice, if any, it prints.
pub open spec fn builtin_v(name: Seq<char>, args: Seq<ValueV>, outs: Map<Seq<char>, ValueV>) -> (ValueV, Option<NoticeV>) {
    if name == "log"@ {
        (ValueV::Null, Some(NoticeV::Log(first_opt(args))))
    } else if name == "clean"@ || name == "normalize"@ || name == "scale"@ || name == "validate"@
        || name == "enrich"@ || name == "extract_features"@ {
        (first_or_null(args), None)
    } else if name == "notify_service"@ {
        (ValueV::Bool(true), Some(NoticeV::Notify(first_opt(args))))
    } else if name == "log_event"@ {
        (ValueV::Null, Some(NoticeV::Event(first_opt(args))))
    } else if name == "api_send"@ {
        (ValueV::Bool(true), None)
    } else if outs.dom().contains(name) {
        (outs[name], None)
    } else {
        (ValueV::Null, Some(NoticeV::UnknownCall(name, args.len())))
    }
}

/// The value a name loads: a variable, else an upstream output, else null.
pub open spec fn lookup_v(vars: Map<Seq<char>, ValueV>, outs: Map<Seq<char>, ValueV>, name: Seq<char>) -> ValueV {
    if vars.dom().contains(name) {
        vars[name]
    } else if outs.dom().contains(name) {
        outs[name]
    } else {
        ValueV::Null
    }
}

/// The state after a step, the variables after it, and what it came to.
pub struct Next {
    pub machine: MachineV,
    pub vars: Map<Seq<char>, ValueV>,
    pub step: StepV,
}

pub open spec fn continue_with(m: MachineV, vars: Map<Seq<char>, ValueV>) -> Next {
    Next { machine: m, vars, step: StepV::Continue }
}

/// Applies an effect to a machine.
pub open spec fn apply_effect(m: MachineV, vars: Map<Seq<char>, ValueV>, e: Effect) -> Next {
    match e {
        Effect::Push(v) => continue_with(MachineV { stack: m.stack.push(v), ..m }, vars),
        Effect::Report(s) => Next { machine: m, vars, step: s },
    }
}

/// One step of the machine over `code`, with variables `vars`, upstream
/// outputs `outs` and VAN `van`. The instruction at `ip` runs with `ip`
/// already moved past it; past the end of the code the function returns
/// the top of the stack (or null).
pub open spec fn next_v(code: Seq<InstrV>, m: MachineV, vars: Map<Seq<char>, ValueV>,
    outs: Map<Seq<char>, ValueV>, van: Option<Seq<char>>) -> Next {
    if m.ip >= code.len() {
        let (v, rest) = pop1(m.stack);
        Next { machine: MachineV { stack: rest, ..m }, vars, step: StepV::Finished(v) }
    } else {
        let m1 = MachineV { ip: m.ip + 1, ..m };
        let st = m.stack;
        match code[m.ip as int] {
            InstrV::Push(v) => continue_with(MachineV { stack: st.push(v), ..m1 }, vars),
            InstrV::Pop => continue_with(MachineV { stack: pop1(st).1, ..m1 }, vars),
            InstrV::Dup => continue_with(
                if st.len() > 0 { MachineV { stack: st.push(st.last()), ..m1 } } else { m1 }, vars),
            InstrV::Load(n) => continue_with(MachineV { stack: st.push(lookup_v(vars, outs, n)), ..m1 }, vars),
            InstrV::Store(n) => continue_with(MachineV { stack: pop1(st).1, ..m1 }, vars.insert(n, pop1(st).0)),
            InstrV::Call(name, k) => {
                let (popped, rest) = pop_list(st, k);
                let (res, notice) = builtin_v(name, popped.reverse(), outs);
                let m2 = MachineV { stack: rest.push(res), ..m1 };
                match notice {
                    Some(nt) => Next { machine: m2, vars, step: StepV::Notice(nt) },
                    None => continue_with(m2, vars),
                }
            },
            InstrV::CallNode(n) => continue_with(MachineV { stack: st.push(
                if outs.dom().contains(n) { outs[n] } else { ValueV::Null }), ..m1 }, vars),
            InstrV::Return => Next { machine: MachineV { stack: pop1(st).1, ..m1 }, vars, step: StepV::Finished(pop1(st).0) },
            InstrV::Add | InstrV::Sub | InstrV::Mul | InstrV::Div => {
                let (b, s1) = pop1(st);
                let (a, s2) = pop1(s1);
                apply_effect(MachineV { stack: s2, ..m1 }, vars, arith_v(code[m.ip as int], a, b))
            },
            InstrV::Eq | InstrV::Neq => {
                let (b, s1) = pop1(st);
                let (a, s2) = pop1(s1);
                apply_effect(MachineV { stack: s2, ..m1 }, vars, equal_v(code[m.ip as int] is Neq, a, b))
            },
            InstrV::Lt | InstrV::Gt => {
                let (b, s1) = pop1(st);
                let (a, s2) = pop1(s1);
                apply_effect(MachineV { stack: s2, ..m1 }, vars, order_v(code[m.ip as int], a, b))
            },
            InstrV::Jump(t) => continue_with(MachineV { ip: t, ..m1 }, vars),
            InstrV::JumpIfFalse(t) => {
                let (c, s1) = pop1(st);
                continue_with(MachineV { stack: s1, ip: if truthy_v(c) { m1.ip } else { t }, ..m1 }, vars)
            },
            InstrV::Nop => continue_with(m1, vars),
            InstrV::PushCatcher(et, h) => continue_with(MachineV {
                catchers: m.catchers.push(FrameV { error_type: et, handler_ip: h, stack_depth: st.len() }), ..m1 }, vars),
            InstrV::PopCatcher => continue_with(
                if m.catchers.len() > 0 { MachineV { catchers: m.catchers.drop_last(), ..m1 } } else { m1 }, vars),
            InstrV::Throw(msg) => if m.catchers.len() > 0 {
                let f = m.catchers.last();
                let kept = if f.stack_depth < st.len() { st.subrange(0, f.stack_depth as int) } else { st };
                continue_with(MachineV { stack: kept.push(ValueV::Str(msg)), ip: f.handler_ip,
                    catchers: m.catchers.drop_last() }, vars)
            } else {
                Next { machine: m1, vars, step: StepV::Failed(crate::error::ErrV::Vm(msg)) }
            },
            InstrV::WrapOk => continue_with(MachineV { stack: pop1(st).1.push(ValueV::OkVal(Box::new(pop1(st).0))), ..m1 }, vars),
            InstrV::WrapErr => match pop1(st).0 {
                ValueV::Str(s) => continue_with(MachineV { stack: pop1(st).1.push(ValueV::ErrVal(s)), ..m1 }, vars),
                v => Next { machine: MachineV { stack: pop1(st).1, ..m1 }, vars, step: StepV::Render(v) },
            },
            InstrV::CheckVan(req) => if van == Some(req) {
                continue_with(m1, vars)
            } else {
                Next { machine: m1, vars, step: StepV::Failed(crate::error::ErrV::Permission { required: req, got: van }) }
            },
            InstrV::Log => Next { machine: MachineV { stack: pop1(st).1.push(ValueV::Null), ..m1 }, vars,
                step: StepV::Notice(NoticeV::Log(Some(pop1(st).0))) },
        }
    }
}


proof fn lemma_stack_pop(s: Seq<Value>)
    requires
        s.len() > 0,
    ensures
        stack_v(s.subrange(0, s.len() - 1)) == stack_v(s).drop_last(),
        value_v(s[s.len() - 1]) == stack_v(s).last(),
{
    assert(stack_v(s.subrange(0, s.len() - 1)) =~= stack_v(s).drop_last());
}

proof fn lemma_stack_prefix(s: Seq<Value>, d: int)
    requires
        0 <= d <= s.len(),
    ensures
        stack_v(s.subrange(0, d)) == stack_v(s).subrange(0, d),
{
    assert(stack_v(s.subrange(0, d)) =~= stack_v(s).subrange(0, d));
}

/// Pops the top of the stack; an empty stack gives null.
fn pop_or_null(stack: &mut Vec<Value>) -> (r: Value)
    ensures
        (value_v(r), stack_v(final(stack)@)) == pop1(stack_v(old(stack)@)),
{
    proof {
        if stack@.len() > 0 {
            lemma_stack_pop(stack@);
        }
    }
    match stack.pop() {
        Some(v) => v,
        None => Value::Null,
    }
}

fn push_value(stack: &mut Vec<Value>, v: Value)
    ensures
        stack_v(final(stack)@) == stack_v(old(stack)@).push(value_v(v)),
{
    proof { lemma_stack_push(stack@, v); }
    stack.push(v);
}

proof fn lemma_any_needs_host(s: Seq<ValueV>, i: int)
    requires
        0 <= i < s.len(),
    ensures
        needs_host(s[i]) ==> any_needs_host(s),
    decreases s.len(),
{
    if i < s.len() - 1 {
        lemma_any_needs_host(s.drop_last(), i);
        assert(s.drop_last()[i] == s[i]);
    }
}

/// Whether a value holds a float or a map anywhere.
#[verifier::loop_isolation(false)]
fn needs_host_exec(v: &Value) -> (r: bool)
    ensures
        r == needs_host(value_v(*v)),
    decreases v,
{
    match v {
        Value::Float(_) => true,
        Value::Dict(_) => true,
        Value::List(items) => {
            let ghost lv = crate::bytecode::values_v(items@);
            let mut i: usize = 0;
            let mut found = false;
            assert(lv.subrange(0, 0) =~= Seq::<ValueV>::empty());
            while i < items.len()
                invariant
                    i <= items@.len(),
                    lv.len() == items@.len(),
                    found == any_needs_host(lv.subrange(0, i as int)),
                decreases items.len() - i,
            {
                proof {
                    assert(decreases_to!(v => items@[i as int]));
                    let next = lv.subrange(0, i + 1);
                    assert(next.drop_last() =~= lv.subrange(0, i as int));
                    assert(next.last() == value_v(items@[i as int]));
                }
                let here = needs_host_exec(&items[i]);
                found = found || here;
                i = i + 1;
            }
            assert(lv.subrange(0, items@.len() as int) =~= lv);
            found
        },
        Value::OkVal(b) => needs_host_exec(b),
        _ => false,
    }
}

/// Equality of two values without floats or maps.
#[verifier::loop_isolation(false)]
fn values_equal(a: &Value, b: &Value) -> (r: bool)
    requires
        !needs_host(value_v(*a)),
        !needs_host(value_v(*b)),
    ensures
        r == (value_v(*a) == value_v(*b)),
    decreases a,
{
    match (a, b) {
        (Value::Int(x), Value::Int(y)) => *x == *y,
        (Value::Bool(x), Value::Bool(y)) => *x == *y,
        (Value::Str(x), Value::Str(y)) => str_eq(x.as_str(), y.as_str()),
        (Value::Null, Value::Null) => true,
        (Value::ErrVal(x), Value::ErrVal(y)) => str_eq(x.as_str(), y.as_str()),
        (Value::OkVal(x), Value::OkVal(y)) => values_equal(x, y),
        (Value::List(xs), Value::List(ys)) => {
            let ghost xv = crate::bytecode::values_v(xs@);
            let ghost yv = crate::bytecode::values_v(ys@);
            if xs.len() != ys.len() {
                assert(xv.len() != yv.len());
                return false;
            }
            let mut i: usize = 0;
            while i < xs.len()
                invariant
                    xs@.len() == ys@.len(),
                    i <= xs@.len(),
                    xv == crate::bytecode::values_v(xs@),
                    yv == crate::bytecode::values_v(ys@),
                    !needs_host(value_v(*a)),
                    !needs_host(value_v(*b)),
                    value_v(*a) == ValueV::List(xv),
                    value_v(*b) == ValueV::List(yv),
                    forall|j: int| 0 <= j < i ==> xv[j] == yv[j],
                decreases xs.len() - i,
            {
                proof {
                    assert(decreases_to!(a => xs@[i as int]));
                    assert(xv[i as int] == value_v(xs@[i as int]));
                    assert(yv[i as int] == value_v(ys@[i as int]));
                    lemma_any_needs_host(xv, i as int);
                    lemma_any_needs_host(yv, i as int);
                }
                if !values_equal(&xs[i], &ys[i]) {
                    assert(xv[i as int] != yv[i as int]);
                    return false;
                }
                i = i + 1;
            }
            assert(xv =~= yv);
            true
        },
        _ => false,
    }
}

/// The effect of an operation, as the machine computes it.
enum Outcome {
    Push(Value),
    Report(Step),
}

spec fn outcome_v(o: Outcome) -> Effect {
    match o {
        Outcome::Push(v) => Effect::Push(value_v(v)),
        Outcome::Report(s) => Effect::Report(step_v(s)),
    }
}

fn arith(i: &Instruction, a: Value, b: Value) -> (r: Outcome)
    requires
        instr_v(*i) is Add || instr_v(*i) is Sub || instr_v(*i) is Mul || instr_v(*i) is Div,
    ensures
        outcome_v(r) == arith_v(instr_v(*i), value_v(a), value_v(b)),
{
    match (a, b) {
        (Value::Int(x), Value::Int(y)) => {
            let r = match i {
                Instruction::Add => x.checked_add(y),
                Instruction::Sub => x.checked_sub(y),
                Instruction::Mul => x.checked_mul(y),
                _ => {
                    if y == 0 {
                        return Outcome::Push(Value::Null);
                    }
                    x.checked_div(y)
                },
            };
            match r {
                Some(n) => Outcome::Push(Value::Int(n)),
                None => Outcome::Report(Step::Overflow),
            }
        },
        (Value::Float(x), Value::Float(y)) => {
            let op = match i {
                Instruction::Add => FloatOp::Add,
                Instruction::Sub => FloatOp::Sub,
                Instruction::Mul => FloatOp::Mul,
                _ => FloatOp::Div,
            };
            Outcome::Report(Step::Float(op, x, y))
        },
        (Value::Str(x), Value::Str(y)) => match i {
            Instruction::Add => Outcome::Push(Value::Str(crate::text::concat(x.as_str(), y.as_str()))),
            _ => Outcome::Push(Value::Null),
        },
        _ => Outcome::Push(Value::Null),
    }
}

fn order(i: &Instruction, a: Value, b: Value) -> (r: Outcome)
    requires
        instr_v(*i) is Lt || instr_v(*i) is Gt,
    ensures
        outcome_v(r) == order_v(instr_v(*i), value_v(a), value_v(b)),
{
    let lt = match i {
        Instruction::Lt => true,
        _ => false,
    };
    match (a, b) {
        (Value::Int(x), Value::Int(y)) => Outcome::Push(Value::Bool(if lt { x < y } else { x > y })),
        (Value::Float(x), Value::Float(y)) => Outcome::Report(Step::Float(if lt { FloatOp::Lt } else { FloatOp::Gt }, x, y)),
        _ => Outcome::Push(Value::Bool(false)),
    }
}

fn equal(negate: bool, a: Value, b: Value) -> (r: Outcome)
    ensures
        outcome_v(r) == equal_v(negate, value_v(a), value_v(b)),
{
    if needs_host_exec(&a) || needs_host_exec(&b) {
        Outcome::Report(Step::Compare(negate, a, b))
    } else {
        let same = values_equal(&a, &b);
        Outcome::Push(Value::Bool(same != negate))
    }
}

/// The stateless interpreter of bytecode.
pub struct Vm;

impl Vm {
    pub fn new() -> Vm {
        Vm
    }

    /// Calls a builtin by name; a name that is no builtin calls the upstream
    /// node of that name, or gives null with a warning.
    pub fn call_builtin(&self, name: &str, args: Vec<Value>, ctx: &ExecContext) -> (r: (Value, Option<Notice>))
        requires
            ctx.node_outputs.wf(),
        ensures
            (value_v(r.0), match r.1 { Some(n) => Some(notice_v(n)), None => None })
                == builtin_v(name@, stack_v(args@), ctx.node_outputs@),
    {
        proof {
            reveal_strlit("log");
            reveal_strlit("clean");
            reveal_strlit("normalize");
            reveal_strlit("scale");
            reveal_strlit("validate");
            reveal_strlit("enrich");
            reveal_strlit("extract_features");
            reveal_strlit("notify_service");
            reveal_strlit("log_event");
            reveal_strlit("api_send");
            reveal_strlit("");
        }
        let ghost av = stack_v(args@);
        let first: Option<Value> = if args.len() > 0 { Some(copy_value(&args[0])) } else { None };
        assert(opt_value_v(first) == first_opt(av));
        if str_eq(name, "log") {
            (Value::Null, Some(Notice::Log(first)))
        } else if str_eq(name, "clean") || str_eq(name, "normalize") || str_eq(name, "scale")
            || str_eq(name, "validate") || str_eq(name, "enrich") || str_eq(name, "extract_features") {
            match first {
                Some(v) => (v, None),
                None => (Value::Null, None),
            }
        } else if str_eq(name, "notify_service") {
            (Value::Bool(true), Some(Notice::Notify(first)))
        } else if str_eq(name, "log_event") {
            (Value::Null, Some(Notice::Event(first)))
        } else if str_eq(name, "api_send") {
            (Value::Bool(true), None)
        } else {
            match ctx.node_outputs.get(name) {
                Some(v) => (copy_value(v), None),
                None => (Value::Null, Some(Notice::UnknownCall(crate::text::concat(name, ""), args.len()))),
            }
        }
    }
}


proof fn lemma_frames_pop(s: Seq<CatchFrame>)
    requires
        s.len() > 0,
    ensures
        frames_v(s.subrange(0, s.len() - 1)) == frames_v(s).drop_last(),
        frame_v(s[s.len() - 1]) == frames_v(s).last(),
{
    assert(frames_v(s.subrange(0, s.len() - 1)) =~= frames_v(s).drop_last());
}

proof fn lemma_frames_push(s: Seq<CatchFrame>, f: CatchFrame)
    ensures
        frames_v(s.push(f)) == frames_v(s).push(frame_v(f)),
{
    assert(frames_v(s.push(f)) =~= frames_v(s).push(frame_v(f)));
}

/// The variables, outputs and VAN of a context, as `next_v` takes them.
pub open spec fn next_in(code: Seq<Instruction>, m: Machine, ctx: ExecContext) -> Next {
    next_v(crate::bytecode::code_v(code), machine_v(m), ctx.variables@, ctx.node_outputs@,
        crate::error::opt_v(ctx.current_van))
}

/// Steps from a machine and variables until a step is not `Continue`, at
/// most `limit` of them (one at least).
pub open spec fn run_v(code: Seq<InstrV>, m: MachineV, vars: Map<Seq<char>, ValueV>,
    outs: Map<Seq<char>, ValueV>, van: Option<Seq<char>>, limit: nat) -> Next
    decreases limit,
{
    let n = next_v(code, m, vars, outs, van);
    if n.step is Continue && limit > 1 {
        run_v(code, n.machine, n.vars, outs, van, (limit - 1) as nat)
    } else {
        n
    }
}

pub open spec fn run_in(code: Seq<Instruction>, m: Machine, ctx: ExecContext, limit: nat) -> Next {
    run_v(crate::bytecode::code_v(code), machine_v(m), ctx.variables@, ctx.node_outputs@,
        crate::error::opt_v(ctx.current_van), limit)
}

impl Vm {
    /// Pops `k` arguments (the first one deepest) off the stack.
    fn pop_args(stack: &mut Vec<Value>, k: usize) -> (r: Vec<Value>)
        ensures
            (stack_v(r@), stack_v(final(stack)@)) == ({
                let (p, rest) = pop_list(stack_v(old(stack)@), k as nat);
                (p.reverse(), rest)
            }),
    {
        let ghost st0 = stack_v(stack@);
        let mut popped: Vec<Value> = Vec::new();
        let mut j: usize = 0;
        assert(stack_v(popped@) =~= Seq::<ValueV>::empty());
        while j < k
            invariant
                j <= k,
                pop_list(st0, k as nat) == (stack_v(popped@) + pop_list(stack_v(stack@), (k - j) as nat).0,
                    pop_list(stack_v(stack@), (k - j) as nat).1),
            decreases k - j,
        {
            let ghost cur = stack_v(stack@);
            let ghost pv = stack_v(popped@);
            let v = pop_or_null(stack);
            proof { lemma_stack_push(popped@, v); }
            popped.push(v);
            proof {
                let (p2, r2) = pop_list(stack_v(stack@), (k - j - 1) as nat);
                assert(pop_list(cur, (k - j) as nat) == (seq![value_v(v)] + p2, r2));
                assert(pv + (seq![value_v(v)] + p2) =~= stack_v(popped@) + p2);
            }
            j = j + 1;
        }
        assert(stack_v(popped@) + seq![] =~= stack_v(popped@));
        let ghost pv = stack_v(popped@);
        let mut args: Vec<Value> = Vec::new();
        assert(stack_v(args@) + stack_v(popped@).reverse() =~= pv.reverse());
        while popped.len() > 0
            invariant
                stack_v(args@) + stack_v(popped@).reverse() == pv.reverse(),
            decreases popped.len(),
        {
            let ghost before = stack_v(popped@);
            let ghost old_p = popped@;
            let v = popped.pop().unwrap();
            proof {
                assert(old_p =~= popped@.push(v));
                lemma_stack_push(popped@, v);
            }
            let ghost av = stack_v(args@);
            proof { lemma_stack_push(args@, v); }
            args.push(v);
            proof {
                assert(before =~= stack_v(popped@).push(value_v(v)));
                assert(before.reverse() =~= seq![value_v(v)] + stack_v(popped@).reverse());
                assert(stack_v(args@) + stack_v(popped@).reverse() =~= av + before.reverse());
            }
        }
        assert(stack_v(args@) =~= pv.reverse());
        args
    }

    /// Runs one instruction (the one at `ip`) and says what it came to.
    #[verifier::rlimit(60)]
    pub fn step(&self, code: &[Instruction], m: &mut Machine, ctx: &mut ExecContext) -> (r: Step)
        requires
            old(ctx).variables.wf(),
            old(ctx).node_outputs.wf(),
        ensures
            final(ctx).variables.wf(),
            final(ctx).node_outputs == old(ctx).node_outputs,
            final(ctx).current_van == old(ctx).current_van,
            machine_v(*final(m)) == next_in(code@, *old(m), *old(ctx)).machine,
            final(ctx).variables@ == next_in(code@, *old(m), *old(ctx)).vars,
            step_v(r) == next_in(code@, *old(m), *old(ctx)).step,
    {
        let ghost cv = crate::bytecode::code_v(code@);
        if m.ip >= code.len() {
            let v = pop_or_null(&mut m.stack);
            return Step::Finished(v);
        }
        let at = m.ip;
        assert(cv[at as int] == instr_v(code@[at as int]));
        m.ip = m.ip + 1;
        match &code[at] {
            Instruction::Push(v) => {
                push_value(&mut m.stack, copy_value(v));
                Step::Continue
            },
            Instruction::Pop => {
                pop_or_null(&mut m.stack);
                Step::Continue
            },
            Instruction::Dup => {
                let n = m.stack.len();
                if n > 0 {
                    let top = copy_value(&m.stack[n - 1]);
                    assert(value_v(m.stack@[n - 1]) == stack_v(m.stack@).last());
                    push_value(&mut m.stack, top);
                }
                Step::Continue
            },
            Instruction::Load(name) => {
                let v = match ctx.variables.get(name.as_str()) {
                    Some(v) => copy_value(v),
                    None => match ctx.node_outputs.get(name.as_str()) {
                        Some(v) => copy_value(v),
                        None => Value::Null,
                    },
                };
                push_value(&mut m.stack, v);
                Step::Continue
            },
            Instruction::Store(name) => {
                let v = pop_or_null(&mut m.stack);
                ctx.variables.insert(name.clone(), v);
                Step::Continue
            },
            Instruction::Call(name, k) => {
                let args = Self::pop_args(&mut m.stack, *k);
                let (res, notice) = self.call_builtin(name.as_str(), args, ctx);
                push_value(&mut m.stack, res);
                match notice {
                    Some(n) => Step::Notice(n),
                    None => Step::Continue,
                }
            },
            Instruction::CallNode(name) => {
                let v = match ctx.node_outputs.get(name.as_str()) {
                    Some(v) => copy_value(v),
                    None => Value::Null,
                };
                push_value(&mut m.stack, v);
                Step::Continue
            },
            Instruction::Return => {
                let v = pop_or_null(&mut m.stack);
                Step::Finished(v)
            },
            Instruction::Add | Instruction::Sub | Instruction::Mul | Instruction::Div => {
                let b = pop_or_null(&mut m.stack);
                let a = pop_or_null(&mut m.stack);
                match arith(&code[at], a, b) {
                    Outcome::Push(v) => {
                        push_value(&mut m.stack, v);
                        Step::Continue
                    },
                    Outcome::Report(s) => s,
                }
            },
            Instruction::Eq | Instruction::Neq => {
                let negate = match &code[at] {
                    Instruction::Neq => true,
                    _ => false,
                };
                let b = pop_or_null(&mut m.stack);
                let a = pop_or_null(&mut m.stack);
                match equal(negate, a, b) {
                    Outcome::Push(v) => {
                        push_value(&mut m.stack, v);
                        Step::Continue
                    },
                    Outcome::Report(s) => s,
                }
            },
            Instruction::Lt | Instruction::Gt => {
                let b = pop_or_null(&mut m.stack);
                let a = pop_or_null(&mut m.stack);
                match order(&code[at], a, b) {
                    Outcome::Push(v) => {
                        push_value(&mut m.stack, v);
                        Step::Continue
                    },
                    Outcome::Report(s) => s,
                }
            },
            Instruction::Jump(t) => {
                m.ip = *t;
                Step::Continue
            },
            Instruction::JumpIfFalse(t) => {
                let c = pop_or_null(&mut m.stack);
                if !c.truthy() {
                    m.ip = *t;
                }
                Step::Continue
            },
            Instruction::Nop => Step::Continue,
            Instruction::PushCatcher(et, h) => {
                let f = CatchFrame { error_type: et.clone(), handler_ip: *h, stack_depth: m.stack.len() };
                proof { lemma_frames_push(m.catchers@, f); }
                m.catchers.push(f);
                Step::Continue
            },
            Instruction::PopCatcher => {
                proof {
                    if m.catchers@.len() > 0 {
                        lemma_frames_pop(m.catchers@);
                    }
                }
                m.catchers.pop();
                Step::Continue
            },
            Instruction::Throw(msg) => {
                proof {
                    if m.catchers@.len() > 0 {
                        lemma_frames_pop(m.catchers@);
                    }
                }
                match m.catchers.pop() {
                    Some(frame) => {
                        proof {
                            if frame.stack_depth <= m.stack@.len() {
                                lemma_stack_prefix(m.stack@, frame.stack_depth as int);
                            }
                            if frame.stack_depth == m.stack@.len() {
                                assert(stack_v(m.stack@).subrange(0, frame.stack_depth as int) =~= stack_v(m.stack@));
                            }
                        }
                        m.stack.truncate(frame.stack_depth);
                        push_value(&mut m.stack, Value::Str(msg.clone()));
                        m.ip = frame.handler_ip;
                        Step::Continue
                    },
                    None => Step::Failed(VenturiError::Vm(msg.clone())),
                }
            },
            Instruction::WrapOk => {
                let v = pop_or_null(&mut m.stack);
                push_value(&mut m.stack, Value::OkVal(Box::new(v)));
                Step::Continue
            },
            Instruction::WrapErr => {
                let v = pop_or_null(&mut m.stack);
                match v {
                    Value::Str(s) => {
                        push_value(&mut m.stack, Value::ErrVal(s));
                        Step::Continue
                    },
                    other => Step::Render(other),
                }
            },
            Instruction::CheckVan(required) => {
                let allowed = match &ctx.current_van {
                    Some(v) => str_eq(v.as_str(), required.as_str()),
                    None => false,
                };
                if allowed {
                    Step::Continue
                } else {
                    let got = match &ctx.current_van {
                        Some(v) => Some(v.clone()),
                        None => None,
                    };
                    Step::Failed(VenturiError::Permission { required: required.clone(), got })
                }
            },
            Instruction::Log => {
                let v = pop_or_null(&mut m.stack);
                push_value(&mut m.stack, Value::Null);
                Step::Notice(Notice::Log(Some(v)))
            },
        }
    }

    /// Runs up to `limit` steps, stopping at the first one that is not
    /// `Continue` (something for the host, or the end) and saying what it
    /// came to; after `limit` plain steps, `Continue`.
    pub fn run(&self, code: &[Instruction], m: &mut Machine, ctx: &mut ExecContext, limit: u64) -> (r: Step)
        requires
            limit >= 1,
            old(ctx).variables.wf(),
            old(ctx).node_outputs.wf(),
        ensures
            final(ctx).variables.wf(),
            final(ctx).node_outputs == old(ctx).node_outputs,
            final(ctx).current_van == old(ctx).current_van,
            machine_v(*final(m)) == run_in(code@, *old(m), *old(ctx), limit as nat).machine,
            final(ctx).variables@ == run_in(code@, *old(m), *old(ctx), limit as nat).vars,
            step_v(r) == run_in(code@, *old(m), *old(ctx), limit as nat).step,
    {
        let ghost target = run_in(code@, *m, *ctx, limit as nat);
        let ghost outs = ctx.node_outputs;
        let ghost van = ctx.current_van;
        let mut left = limit;
        loop
            invariant
                left >= 1,
                ctx.variables.wf(),
                ctx.node_outputs == outs,
                ctx.node_outputs.wf(),
                ctx.current_van == van,
                outs == old(ctx).node_outputs,
                van == old(ctx).current_van,
                target == run_in(code@, *old(m), *old(ctx), limit as nat),
                run_in(code@, *m, *ctx, left as nat) == target,
            decreases left,
        {
            let r = self.step(code, m, ctx);
            match r {
                Step::Continue => {
                    if left == 1 {
                        return r;
                    }
                    left = left - 1;
                },
                _ => {
                    return r;
                },
            }
        }
    }
}

impl Default for Vm {
    fn default() -> (r: Vm) {
        Vm
    }
}

/// What dividing `x` by a nonzero `d` and rounding toward zero leaves:
/// a remainder smaller than `d` in size, of the sign of `x` (or zero).
proof fn lemma_trunc_div_remainder(x: int, d: int)
    requires
        d != 0,
    ensures
        vstd::math::abs(x - trunc_div(x, d) * d) < vstd::math::abs(d),
        x - trunc_div(x, d) * d == 0 || (x - trunc_div(x, d) * d > 0) == (x > 0),
        x >= 0 && d > 0 ==> trunc_div(x, d) == x / d,
{
    if x == 0 {
        assert(trunc_div(x, d) * d == 0) by (nonlinear_arith)
            requires trunc_div(x, d) == 0;
    } else if x > 0 && d > 0 {
        vstd::arithmetic::div_mod::lemma_fundamental_div_mod(x, d);
        vstd::arithmetic::div_mod::lemma_mod_pos_bound(x, d);
        assert((x / d) * d == d * (x / d)) by (nonlinear_arith);
    } else if x < 0 && d < 0 {
        vstd::arithmetic::div_mod::lemma_fundamental_div_mod(-x, -d);
        vstd::arithmetic::div_mod::lemma_mod_pos_bound(-x, -d);
        let q = (-x) / (-d);
        assert(trunc_div(x, d) == q);
        assert(q * d == -((-d) * q)) by (nonlinear_arith);
    } else if x < 0 {
        vstd::arithmetic::div_mod::lemma_fundamental_div_mod(-x, d);
        vstd::arithmetic::div_mod::lemma_mod_pos_bound(-x, d);
        let q = (-x) / d;
        assert(trunc_div(x, d) == -q);
        assert((-q) * d == -(d * q)) by (nonlinear_arith);
    } else {
        vstd::arithmetic::div_mod::lemma_fundamental_div_mod(x, -d);
        vstd::arithmetic::div_mod::lemma_mod_pos_bound(x, -d);
        let q = x / (-d);
        assert(trunc_div(x, d) == -q);
        assert((-q) * d == (-d) * q) by (nonlinear_arith);
    }
}

/// Integer arithmetic is the arithmetic of the numbers: with `Int(x)`
/// under `Int(y)` on the stack, `Add`, `Sub` and `Mul` replace the two
/// with `Int(x + y)`, `Int(x - y)` and `Int(x * y)` when the result fits in
/// an `i64`, and report an overflow when it does not; `Div` by zero gives
/// null, and otherwise the quotient rounded toward zero: what is left of
/// `x` is smaller than `y` in size and of the sign of `x`.
pub proof fn lemma_int_arith(code: Seq<InstrV>, m: MachineV, vars: Map<Seq<char>, ValueV>,
    outs: Map<Seq<char>, ValueV>, van: Option<Seq<char>>, x: i64, y: i64)
    requires
        m.ip < code.len(),
        code[m.ip as int] is Add || code[m.ip as int] is Sub || code[m.ip as int] is Mul || code[m.ip as int] is Div,
        m.stack.len() >= 2,
        m.stack[m.stack.len() - 2] == ValueV::Int(x),
        m.stack.last() == ValueV::Int(y),
    ensures
        next_v(code, m, vars, outs, van).vars == vars,
        next_v(code, m, vars, outs, van).step is Continue ==> {
            &&& next_v(code, m, vars, outs, van).machine.ip == m.ip + 1
            &&& next_v(code, m, vars, outs, van).machine.catchers == m.catchers
            &&& next_v(code, m, vars, outs, van).machine.stack.len() == m.stack.len() - 1
            &&& next_v(code, m, vars, outs, van).machine.stack.drop_last() == m.stack.drop_last().drop_last()
        },
        !(next_v(code, m, vars, outs, van).step is Continue) ==> next_v(code, m, vars, outs, van).step is Overflow,
        code[m.ip as int] is Add ==> (i64::MIN <= x + y <= i64::MAX <==> next_v(code, m, vars, outs, van).step is Continue),
        code[m.ip as int] is Add && i64::MIN <= x + y <= i64::MAX ==>
            next_v(code, m, vars, outs, van).machine.stack.last() == ValueV::Int((x + y) as i64),
        code[m.ip as int] is Sub ==> (i64::MIN <= x - y <= i64::MAX <==> next_v(code, m, vars, outs, van).step is Continue),
        code[m.ip as int] is Sub && i64::MIN <= x - y <= i64::MAX ==>
            next_v(code, m, vars, outs, van).machine.stack.last() == ValueV::Int((x - y) as i64),
        code[m.ip as int] is Mul ==> (i64::MIN <= x * y <= i64::MAX <==> next_v(code, m, vars, outs, van).step is Continue),
        code[m.ip as int] is Mul && i64::MIN <= x * y <= i64::MAX ==>
            next_v(code, m, vars, outs, van).machine.stack.last() == ValueV::Int((x * y) as i64),
        code[m.ip as int] is Div && y == 0 ==> next_v(code, m, vars, outs, van).step is Continue
            && next_v(code, m, vars, outs, van).machine.stack.last() == ValueV::Null,
        code[m.ip as int] is Div && y != 0 && next_v(code, m, vars, outs, van).step is Continue ==>
            (next_v(code, m, vars, outs, van).machine.stack.last() matches ValueV::Int(q)
                && vstd::math::abs(x - q * y) < vstd::math::abs(y as int)
                && (x - q * y == 0 || (x - q * y > 0) == (x > 0))),
        code[m.ip as int] is Div && x >= 0 && y > 0 ==> next_v(code, m, vars, outs, van).step is Continue
            && next_v(code, m, vars, outs, van).machine.stack.last() == ValueV::Int((x / y) as i64),
{
    assert(m.stack.drop_last().last() == m.stack[m.stack.len() - 2]);
    if y != 0 {
        lemma_trunc_div_remainder(x as int, y as int);
        if x >= 0 && y > 0 {
            assert(0 <= x / y <= x) by (nonlinear_arith)
                requires x >= 0, y > 0;
        }
    }
}

/// Equality of values that hold no float and no map is decided by the
/// machine itself: with `a` under `b` on the stack, `Eq` replaces the two
/// with `Bool(a == b)` and `Neq` with `Bool(a != b)`; the next instruction
/// follows.
pub proof fn lemma_plain_equality(code: Seq<InstrV>, m: MachineV, vars: Map<Seq<char>, ValueV>,
    outs: Map<Seq<char>, ValueV>, van: Option<Seq<char>>, a: ValueV, b: ValueV)
    requires
        m.ip < code.len(),
        code[m.ip as int] is Eq || code[m.ip as int] is Neq,
        m.stack.len() >= 2,
        m.stack[m.stack.len() - 2] == a,
        m.stack.last() == b,
        !needs_host(a),
        !needs_host(b),
    ensures
        next_v(code, m, vars, outs, van).step is Continue,
        next_v(code, m, vars, outs, van).vars == vars,
        next_v(code, m, vars, outs, van).machine.ip == m.ip + 1,
        next_v(code, m, vars, outs, van).machine.catchers == m.catchers,
        code[m.ip as int] is Eq ==> next_v(code, m, vars, outs, van).machine.stack
            == m.stack.drop_last().drop_last().push(ValueV::Bool(a == b)),
        code[m.ip as int] is Neq ==> next_v(code, m, vars, outs, van).machine.stack
            == m.stack.drop_last().drop_last().push(ValueV::Bool(a != b)),
{
    assert(m.stack.drop_last().last() == m.stack[m.stack.len() - 2]);
}

/// A conditional jump takes its target exactly when the condition it pops
/// is false, null, zero, the empty string or an error, and falls through
/// to the next instruction otherwise; an unconditional jump always goes to
/// its target.
pub proof fn lemma_jumps(code: Seq<InstrV>, m: MachineV, vars: Map<Seq<char>, ValueV>,
    outs: Map<Seq<char>, ValueV>, van: Option<Seq<char>>, t: nat, c: ValueV)
    requires
        m.ip < code.len(),
        code[m.ip as int] == InstrV::JumpIfFalse(t) || code[m.ip as int] == InstrV::Jump(t),
        code[m.ip as int] is JumpIfFalse ==> m.stack.len() >= 1 && m.stack.last() == c,
    ensures
        next_v(code, m, vars, outs, van).step is Continue,
        next_v(code, m, vars, outs, van).vars == vars,
        code[m.ip as int] is Jump ==> next_v(code, m, vars, outs, van).machine.ip == t
            && next_v(code, m, vars, outs, van).machine.stack == m.stack,
        code[m.ip as int] is JumpIfFalse ==> next_v(code, m, vars, outs, van).machine.stack == m.stack.drop_last(),
        code[m.ip as int] is JumpIfFalse && (c == ValueV::Bool(false) || c == ValueV::Null || c == ValueV::Int(0)
            || c == ValueV::Str(Seq::<char>::empty()) || c is ErrVal) ==> next_v(code, m, vars, outs, van).machine.ip == t,
        code[m.ip as int] is JumpIfFalse && (c == ValueV::Bool(true) || (c matches ValueV::Int(n) && n != 0)
            || (c matches ValueV::Str(s) && s.len() > 0) || c is OkVal || c is List || c is Dict || c is Float)
            ==> next_v(code, m, vars, outs, van).machine.ip == m.ip + 1,
{
}

/// A VAN check lets the function go on only under the VAN it names;
/// under any other VAN, or none, the function fails with a permission
/// error that names the VAN required and the one it ran under.
pub proof fn lemma_van_check(code: Seq<InstrV>, m: MachineV, vars: Map<Seq<char>, ValueV>,
    outs: Map<Seq<char>, ValueV>, van: Option<Seq<char>>, req: Seq<char>)
    requires
        m.ip < code.len(),
        code[m.ip as int] == InstrV::CheckVan(req),
    ensures
        next_v(code, m, vars, outs, van).machine.ip == m.ip + 1,
        next_v(code, m, vars, outs, van).machine.stack == m.stack,
        van == Some(req) ==> next_v(code, m, vars, outs, van).step is Continue,
        van != Some(req) ==> next_v(code, m, vars, outs, van).step
            == StepV::Failed(crate::error::ErrV::Permission { required: req, got: van }),
{
}

/// A throw goes to the innermost handler in force: that handler is
/// dropped, the stack is cut back to the depth it had when the handler was
/// set up, the message is pushed, and the handler's code runs next. With
/// no handler in force the function fails with the message.
pub proof fn lemma_throw(code: Seq<InstrV>, m: MachineV, vars: Map<Seq<char>, ValueV>,
    outs: Map<Seq<char>, ValueV>, van: Option<Seq<char>>, msg: Seq<char>)
    requires
        m.ip < code.len(),
        code[m.ip as int] == InstrV::Throw(msg),
    ensures
        next_v(code, m, vars, outs, van).vars == vars,
        m.catchers.len() == 0 ==> next_v(code, m, vars, outs, van).step == StepV::Failed(crate::error::ErrV::Vm(msg)),
        m.catchers.len() > 0 ==> {
            let f = m.catchers[m.catchers.len() - 1];
            let n = next_v(code, m, vars, outs, van);
            &&& n.step is Continue
            &&& n.machine.ip == f.handler_ip
            &&& n.machine.catchers == m.catchers.subrange(0, m.catchers.len() - 1)
            &&& n.machine.stack.len() == (if f.stack_depth < m.stack.len() { f.stack_depth } else { m.stack.len() }) + 1
            &&& n.machine.stack.last() == ValueV::Str(msg)
            &&& forall|k: int| 0 <= k < n.machine.stack.len() - 1 ==> #[trigger] n.machine.stack[k] == m.stack[k]
        },
{
}

/// Comparing two integers follows their order as numbers: with `Int(x)`
/// under `Int(y)` on the stack, `Lt` replaces the two with `Bool(x < y)`
/// and `Gt` with `Bool(x > y)`; the variables and handlers stay as they
/// were and the next instruction follows.
pub proof fn lemma_int_order(code: Seq<InstrV>, m: MachineV, vars: Map<Seq<char>, ValueV>,
    outs: Map<Seq<char>, ValueV>, van: Option<Seq<char>>, x: i64, y: i64)
    requires
        m.ip < code.len(),
        code[m.ip as int] is Lt || code[m.ip as int] is Gt,
        m.stack.len() >= 2,
        m.stack[m.stack.len() - 2] == ValueV::Int(x),
        m.stack.last() == ValueV::Int(y),
    ensures
        next_v(code, m, vars, outs, van).step is Continue,
        next_v(code, m, vars, outs, van).vars == vars,
        next_v(code, m, vars, outs, van).machine.ip == m.ip + 1,
        next_v(code, m, vars, outs, van).machine.catchers == m.catchers,
        code[m.ip as int] is Lt ==> next_v(code, m, vars, outs, van).machine.stack
            == m.stack.drop_last().drop_last().push(ValueV::Bool(x < y)),
        code[m.ip as int] is Gt ==> next_v(code, m, vars, outs, van).machine.stack
            == m.stack.drop_last().drop_last().push(ValueV::Bool(x > y)),
{
    assert(m.stack.drop_last().last() == m.stack[m.stack.len() - 2]);
}

/// The machine started on `Push(Int(x)); Push(Int(y)); Lt; Return` ends
/// with `Bool(x < y)`, and on the same code with `Gt` with `Bool(x > y)`:
/// so `x < y` and `y > x` give the same answer.
pub proof fn lemma_compare_program(x: i64, y: i64, vars: Map<Seq<char>, ValueV>,
    outs: Map<Seq<char>, ValueV>, van: Option<Seq<char>>, limit: nat)
    requires
        limit >= 4,
    ensures
        run_v(seq![InstrV::Push(ValueV::Int(x)), InstrV::Push(ValueV::Int(y)), InstrV::Lt, InstrV::Return],
            MachineV { stack: seq![], ip: 0, catchers: seq![] }, vars, outs, van, limit).step
            == StepV::Finished(ValueV::Bool(x < y)),
        run_v(seq![InstrV::Push(ValueV::Int(x)), InstrV::Push(ValueV::Int(y)), InstrV::Gt, InstrV::Return],
            MachineV { stack: seq![], ip: 0, catchers: seq![] }, vars, outs, van, limit).step
            == StepV::Finished(ValueV::Bool(x > y)),
        run_v(seq![InstrV::Push(ValueV::Int(x)), InstrV::Push(ValueV::Int(y)), InstrV::Lt, InstrV::Return],
            MachineV { stack: seq![], ip: 0, catchers: seq![] }, vars, outs, van, limit).step
            == run_v(seq![InstrV::Push(ValueV::Int(y)), InstrV::Push(ValueV::Int(x)), InstrV::Gt, InstrV::Return],
            MachineV { stack: seq![], ip: 0, catchers: seq![] }, vars, outs, van, limit).step,
{
    lemma_compare_run(InstrV::Lt, x, y, vars, outs, van, limit);
    lemma_compare_run(InstrV::Gt, x, y, vars, outs, van, limit);
    lemma_compare_run(InstrV::Gt, y, x, vars, outs, van, limit);
}

proof fn lemma_compare_run(op: InstrV, x: i64, y: i64, vars: Map<Seq<char>, ValueV>,
    outs: Map<Seq<char>, ValueV>, van: Option<Seq<char>>, limit: nat)
    requires
        limit >= 4,
        op is Lt || op is Gt,
    ensures
        run_v(seq![InstrV::Push(ValueV::Int(x)), InstrV::Push(ValueV::Int(y)), op, InstrV::Return],
            MachineV { stack: seq![], ip: 0, catchers: seq![] }, vars, outs, van, limit).step
            == StepV::Finished(ValueV::Bool(if op is Lt { x < y } else { x > y })),
{
    let code = seq![InstrV::Push(ValueV::Int(x)), InstrV::Push(ValueV::Int(y)), op, InstrV::Return];
    let m0 = MachineV { stack: seq![], ip: 0, catchers: seq![] };
    let n1 = next_v(code, m0, vars, outs, van);
    assert(n1.machine == MachineV { stack: seq![ValueV::Int(x)], ip: 1, catchers: seq![] });
    let n2 = next_v(code, n1.machine, vars, outs, van);
    assert(n2.machine.stack =~= seq![ValueV::Int(x), ValueV::Int(y)]);
    assert(n2.machine.ip == 2);
    lemma_int_order(code, n2.machine, vars, outs, van, x, y);
    let n3 = next_v(code, n2.machine, vars, outs, van);
    let b = if op is Lt { x < y } else { x > y };
    assert(n2.machine.stack.drop_last().drop_last() =~= seq![]);
    assert(n3.machine.stack =~= seq![ValueV::Bool(b)]);
    let n4 = next_v(code, n3.machine, vars, outs, van);
    assert(n4.step == StepV::Finished(ValueV::Bool(b)));
    assert(run_v(code, n3.machine, n3.vars, outs, van, (limit - 3) as nat) == n4);
    assert(run_v(code, n2.machine, n2.vars, outs, van, (limit - 2) as nat) == n4);
    assert(run_v(code, n1.machine, n1.vars, outs, van, (limit - 1) as nat) == n4);
}

} // verus!
