//! Runtime values and the instruction set of the bytecode machine.

use vstd::prelude::*;
use crate::text::{i64_to_decimal, signed_decimal};

verus! {

/// A map from names to values that keeps its entries in insertion order,
/// each key once (an `IndexMap`).
#[verifier::external_body]
#[derive(Debug, PartialEq)]
pub struct ValueMap {
    inner: indexmap::IndexMap<String, Value>,
}

/// What a map holds: its entries in order, keys taken by their text.
pub uninterp spec fn map_entries(m: ValueMap) -> Seq<(Seq<char>, ValueV)>;

/// Entries after inserting `k => v`: the value of an entry with key `k` is
/// replaced in place (a map holds each key once); otherwise the entry goes
/// last.
pub open spec fn entries_insert(es: Seq<(Seq<char>, ValueV)>, k: Seq<char>, v: ValueV) -> Seq<(Seq<char>, ValueV)> {
    if exists|i: int| 0 <= i < es.len() && #[trigger] es[i].0 == k {
        let i = choose|i: int| 0 <= i < es.len() && #[trigger] es[i].0 == k;
        es.update(i, (k, v))
    } else {
        es.push((k, v))
    }
}

/// A copy of one entry of a map.
pub fn copy_entry(k: &String, v: &Value) -> (r: (String, Value))
    ensures
        r.0@ == k@,
        value_v(r.1) == value_v(*v),
{
    (k.clone(), copy_value(v))
}

impl ValueMap {
    /// An empty map (`IndexMap::new`).
    #[verifier::external_body]
    pub fn new() -> (r: ValueMap)
        ensures
            map_entries(r) == Seq::<(Seq<char>, ValueV)>::empty(),
    {
        ValueMap { inner: indexmap::IndexMap::new() }
    }

    /// `IndexMap::insert`: where the key is present its value is replaced in
    /// place; otherwise the entry goes last.
    #[verifier::external_body]
    pub fn insert(&mut self, k: String, v: Value)
        ensures
            map_entries(*final(self)) == entries_insert(map_entries(*old(self)), k@, value_v(v)),
    {
        self.inner.insert(k, v);
    }

    /// The entries in order (`IndexMap::iter`), each copied.
    #[verifier::external_body]
    pub fn entries(&self) -> (r: Vec<(String, Value)>)
        ensures
            r@.len() == map_entries(*self).len(),
            forall|i: int| 0 <= i < r@.len() ==> (#[trigger] r@[i]).0@ == map_entries(*self)[i].0
                && value_v(r@[i].1) == map_entries(*self)[i].1,
    {
        self.inner.iter().map(|(k, v)| copy_entry(k, v)).collect()
    }

    /// A copy of the map, entries in the same order (`IndexMap` collected
    /// from its own entries, copied).
    #[verifier::external_body]
    pub fn copy(&self) -> (r: ValueMap)
        ensures
            map_entries(r) == map_entries(*self),
    {
        ValueMap { inner: self.inner.iter().map(|(k, v)| copy_entry(k, v)).collect() }
    }
}

impl Clone for Value {
    fn clone(&self) -> (r: Value) {
        copy_value(self)
    }
}

impl Clone for ValueMap {
    fn clone(&self) -> (r: ValueMap) {
        self.copy()
    }
}

/// A runtime value. A float is carried as the text it was written with;
/// arithmetic, comparison and printing of floats are left to the host (see
/// `vm::Step`).
#[derive(Debug, PartialEq)]
pub enum Value {
    Int(i64),
    Float(String),
    Bool(bool),
    Str(String),
    List(Vec<Value>),
    Dict(ValueMap),
    Null,
    OkVal(Box<Value>),
    ErrVal(String),
}

/// The mathematical value of a runtime value.
pub enum ValueV {
    Int(i64),
    Float(Seq<char>),
    Bool(bool),
    Str(Seq<char>),
    List(Seq<ValueV>),
    Dict(Seq<(Seq<char>, ValueV)>),
    Null,
    OkVal(Box<ValueV>),
    ErrVal(Seq<char>),
}

pub open spec fn value_v(v: Value) -> ValueV
    decreases v,
{
    match v {
        Value::Int(n) => ValueV::Int(n),
        Value::Float(s) => ValueV::Float(s@),
        Value::Bool(b) => ValueV::Bool(b),
        Value::Str(s) => ValueV::Str(s@),
        Value::List(items) => ValueV::List(values_v(items@)),
        Value::Dict(m) => ValueV::Dict(map_entries(m)),
        Value::Null => ValueV::Null,
        Value::OkVal(b) => ValueV::OkVal(Box::new(value_v(*b))),
        Value::ErrVal(s) => ValueV::ErrVal(s@),
    }
}

pub open spec fn values_v(s: Seq<Value>) -> Seq<ValueV>
    decreases s,
{
    Seq::new(s.len(), |i: int| if 0 <= i < s.len() { value_v(s[i]) } else { ValueV::Null })
}


/// Whether a value counts as true for a conditional jump.
pub open spec fn truthy_v(v: ValueV) -> bool {
    match v {
        ValueV::Bool(b) => b,
        ValueV::Null => false,
        ValueV::Int(n) => n != 0,
        ValueV::Str(s) => s.len() > 0,
        ValueV::ErrVal(_) => false,
        _ => true,
    }
}

/// How a value is shown: integers in decimal, a float by the text it
/// carries, lists as `[a, b]`, maps as `{k: v}` in entry order, results as
/// `Ok(..)` and `Err(..)`.
pub open spec fn show(v: ValueV) -> Seq<char>
    decreases v, 0nat,
{
    match v {
        ValueV::Int(n) => signed_decimal(n as int),
        ValueV::Float(s) => s,
        ValueV::Bool(b) => if b { "true"@ } else { "false"@ },
        ValueV::Str(s) => s,
        ValueV::List(items) => "["@ + show_items(items, items.len()) + "]"@,
        ValueV::Dict(es) => "{"@ + show_entries(es, es.len()) + "}"@,
        ValueV::Null => "null"@,
        ValueV::OkVal(b) => "Ok("@ + show(*b) + ")"@,
        ValueV::ErrVal(e) => "Err("@ + e + ")"@,
    }
}

/// The first `n` items shown, separated by `, `.
pub open spec fn show_items(items: Seq<ValueV>, n: nat) -> Seq<char>
    decreases items, n,
{
    if n == 0 || n > items.len() {
        seq![]
    } else {
        let prev = show_items(items, (n - 1) as nat);
        (if n > 1 { prev + ", "@ } else { prev }) + show(items[n - 1])
    }
}

/// The first `n` entries shown as `key: value`, separated by `, `.
pub open spec fn show_entries(es: Seq<(Seq<char>, ValueV)>, n: nat) -> Seq<char>
    decreases es, n,
{
    if n == 0 || n > es.len() {
        seq![]
    } else {
        let prev = show_entries(es, (n - 1) as nat);
        (if n > 1 { prev + ", "@ } else { prev }) + es[n - 1].0 + ": "@ + show(es[n - 1].1)
    }
}

impl Value {
    pub fn is_ok(&self) -> (r: bool)
        ensures
            r == (value_v(*self) is OkVal),
    {
        match self {
            Value::OkVal(_) => true,
            _ => false,
        }
    }

    pub fn is_err(&self) -> (r: bool)
        ensures
            r == (value_v(*self) is ErrVal),
    {
        match self {
            Value::ErrVal(_) => true,
            _ => false,
        }
    }

    /// The value as text (see `show`).
    pub fn display(&self) -> (r: String)
        ensures
            r@ == show(value_v(*self)),
        decreases value_v(*self),
    {
        match self {
            Value::Int(n) => i64_to_decimal(*n),
            Value::Float(s) => s.clone(),
            Value::Bool(b) => if *b { String::from_str("true") } else { String::from_str("false") },
            Value::Str(s) => s.clone(),
            Value::List(items) => {
                let ghost vs = values_v(items@);
                let mut out = String::from_str("[");
                let mut i: usize = 0;
                while i < items.len()
                    invariant
                        i <= items@.len(),
                        vs == values_v(items@),
                        value_v(*self) == ValueV::List(vs),
                        out@ == "["@ + show_items(vs, i as nat),
                    decreases items.len() - i,
                {
                    if i > 0 {
                        out.append(", ");
                    }
                    proof {
                        assert(vs[i as int] == value_v(items@[i as int]));
                        assert(decreases_to!(value_v(*self) => value_v(*self)->List_0));
                        assert(decreases_to!(vs => vs[i as int]));
                        assert(decreases_to!(value_v(*self) => vs[i as int]));
                    }
                    let t = items[i].display();
                    out.append(t.as_str());
                    proof {
                        reveal_with_fuel(show_items, 2);
                        assert(out@ =~= "["@ + show_items(vs, (i + 1) as nat));
                    }
                    i = i + 1;
                }
                out.append("]");
                out
            },
            Value::Dict(m) => {
                let es = m.entries();
                let ghost me = map_entries(*m);
                let mut out = String::from_str("{");
                let mut i: usize = 0;
                while i < es.len()
                    invariant
                        i <= es@.len(),
                        es@.len() == me.len(),
                        me == map_entries(*m),
                        value_v(*self) == ValueV::Dict(me),
                        forall|j: int| 0 <= j < es@.len() ==> (#[trigger] es@[j]).0@ == me[j].0
                            && value_v(es@[j].1) == me[j].1,
                        out@ == "{"@ + show_entries(me, i as nat),
                    decreases es.len() - i,
                {
                    if i > 0 {
                        out.append(", ");
                    }
                    out.append(es[i].0.as_str());
                    out.append(": ");
                    proof {
                        assert(value_v(es@[i as int].1) == me[i as int].1);
                        assert(decreases_to!(value_v(*self) => value_v(*self)->Dict_0));
                        assert(decreases_to!(me => me[i as int]));
                        assert(decreases_to!(me[i as int] => me[i as int].1));
                        assert(decreases_to!(value_v(*self) => me[i as int].1));
                    }
                    let t = es[i].1.display();
                    out.append(t.as_str());
                    proof {
                        reveal_with_fuel(show_entries, 2);
                        assert(out@ =~= "{"@ + show_entries(me, (i + 1) as nat));
                    }
                    i = i + 1;
                }
                out.append("}");
                out
            },
            Value::Null => String::from_str("null"),
            Value::OkVal(b) => {
                proof {
                    let inner = value_v(**b);
                    assert(value_v(*self) == ValueV::OkVal(Box::new(inner)));
                    assert(decreases_to!(value_v(*self) => value_v(*self)->OkVal_0));
                }
                let t = b.display();
                let mut out = String::from_str("Ok(");
                out.append(t.as_str());
                out.append(")");
                out
            },
            Value::ErrVal(e) => {
                let mut out = String::from_str("Err(");
                out.append(e.as_str());
                out.append(")");
                out
            },
        }
    }

    /// Whether the value counts as true: `false`, null, `0`, the empty
    /// string and errors do not; everything else does.
    pub fn truthy(&self) -> (r: bool)
        ensures
            r == truthy_v(value_v(*self)),
    {
        match self {
            Value::Bool(b) => *b,
            Value::Null => false,
            Value::Int(n) => *n != 0,
            Value::Str(s) => !s.as_str().is_empty(),
            Value::ErrVal(_) => false,
            _ => true,
        }
    }
}

/// A copy of a value.
#[verifier::loop_isolation(false)]
pub fn copy_value(v: &Value) -> (r: Value)
    ensures
        value_v(r) == value_v(*v),
    decreases v,
{
    match v {
        Value::Int(n) => Value::Int(*n),
        Value::Float(s) => Value::Float(s.clone()),
        Value::Bool(b) => Value::Bool(*b),
        Value::Str(s) => Value::Str(s.clone()),
        Value::List(items) => {
            let mut out: Vec<Value> = Vec::new();
            let mut i: usize = 0;
            while i < items.len()
                invariant
                    i <= items@.len(),
                    out@.len() == i,
                    forall|j: int| 0 <= j < i ==> value_v(#[trigger] out@[j]) == value_v(items@[j]),
                decreases items.len() - i,
            {
                proof { assert(decreases_to!(v => items@[i as int])); }
                out.push(copy_value(&items[i]));
                i = i + 1;
            }
            assert(values_v(out@) =~= values_v(items@));
            Value::List(out)
        },
        Value::Dict(m) => Value::Dict(m.copy()),
        Value::Null => Value::Null,
        Value::OkVal(b) => Value::OkVal(Box::new(copy_value(b))),
        Value::ErrVal(s) => Value::ErrVal(s.clone()),
    }
}

/// One instruction of the machine.
#[derive(Clone, Debug)]
pub enum Instruction {
    Push(Value),
    Pop,
    Dup,
    Load(String),
    Store(String),
    Call(String, usize),
    CallNode(String),
    Return,
    Add,
    Sub,
    Mul,
    Div,
    Eq,
    Neq,
    Lt,
    Gt,
    Jump(usize),
    JumpIfFalse(usize),
    Nop,
    PushCatcher(String, usize),
    PopCatcher,
    Throw(String),
    WrapOk,
    WrapErr,
    CheckVan(String),
    Log,
}

/// The mathematical value of an instruction.
pub enum InstrV {
    Push(ValueV),
    Pop,
    Dup,
    Load(Seq<char>),
    Store(Seq<char>),
    Call(Seq<char>, nat),
    CallNode(Seq<char>),
    Return,
    Add,
    Sub,
    Mul,
    Div,
    Eq,
    Neq,
    Lt,
    Gt,
    Jump(nat),
    JumpIfFalse(nat),
    Nop,
    PushCatcher(Seq<char>, nat),
    PopCatcher,
    Throw(Seq<char>),
    WrapOk,
    WrapErr,
    CheckVan(Seq<char>),
    Log,
}

pub open spec fn instr_v(i: Instruction) -> InstrV {
    match i {
        Instruction::Push(v) => InstrV::Push(value_v(v)),
        Instruction::Pop => InstrV::Pop,
        Instruction::Dup => InstrV::Dup,
        Instruction::Load(s) => InstrV::Load(s@),
        Instruction::Store(s) => InstrV::Store(s@),
        Instruction::Call(s, n) => InstrV::Call(s@, n as nat),
        Instruction::CallNode(s) => InstrV::CallNode(s@),
        Instruction::Return => InstrV::Return,
        Instruction::Add => InstrV::Add,
        Instruction::Sub => InstrV::Sub,
        Instruction::Mul => InstrV::Mul,
        Instruction::Div => InstrV::Div,
        Instruction::Eq => InstrV::Eq,
        Instruction::Neq => InstrV::Neq,
        Instruction::Lt => InstrV::Lt,
        Instruction::Gt => InstrV::Gt,
        Instruction::Jump(t) => InstrV::Jump(t as nat),
        Instruction::JumpIfFalse(t) => InstrV::JumpIfFalse(t as nat),
        Instruction::Nop => InstrV::Nop,
        Instruction::PushCatcher(s, t) => InstrV::PushCatcher(s@, t as nat),
        Instruction::PopCatcher => InstrV::PopCatcher,
        Instruction::Throw(s) => InstrV::Throw(s@),
        Instruction::WrapOk => InstrV::WrapOk,
        Instruction::WrapErr => InstrV::WrapErr,
        Instruction::CheckVan(s) => InstrV::CheckVan(s@),
        Instruction::Log => InstrV::Log,
    }
}

/// The values of a sequence of instructions.
pub open spec fn code_v(c: Seq<Instruction>) -> Seq<InstrV> {
    c.map_values(|i: Instruction| instr_v(i))
}

} // verus!
