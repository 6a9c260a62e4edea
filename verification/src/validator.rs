//! Checks on a parsed file and on the DAG before anything runs.

use vstd::prelude::*;
use crate::ast::{type_text, type_v, InputDecl, NodeKind, OutputDecl, TypeV, VtFile, VtType};
use crate::error::{ErrV, VenturiError, opt_v};
use crate::graph::{Dag, DagNode, DagNodeKind};
use crate::text::{concat, str_eq};
use crate::pits::strs_v;

verus! {

/// `j` is the first position whose name occurred earlier.
pub open spec fn first_repeat(names: Seq<Seq<char>>, j: int) -> bool {
    &&& 0 <= j < names.len()
    &&& exists|i: int| 0 <= i < j && #[trigger] names[i] == names[j]
    &&& forall|k: int, i: int| 0 <= i < k < j ==> #[trigger] names[i] != #[trigger] names[k]
}

/// Some name occurs twice.
pub open spec fn has_repeat(names: Seq<Seq<char>>) -> bool {
    exists|i: int, k: int| 0 <= i < k < names.len() && #[trigger] names[i] == #[trigger] names[k]
}

/// The text of the warning for a vortex node without a VAN.
pub open spec fn no_van_warning() -> Seq<char> {
    "[venturi warn] Vortex node has no VAN declaration; all side effects are unrestricted"@
}

/// The text of the warning for a parameter with no input of its name.
pub open spec fn param_warning(p: Seq<char>) -> Seq<char> {
    "[venturi warn] Func param '"@ + p + "' has no matching input declaration"@
}

/// The warnings for the parameters that no input declares, in order.
pub open spec fn param_warnings(params: Seq<Seq<char>>, inputs: Seq<Seq<char>>) -> Seq<Seq<char>>
    decreases params.len(),
{
    if params.len() == 0 {
        seq![]
    } else {
        let pre = param_warnings(params.drop_last(), inputs);
        if inputs.contains(params.last()) { pre } else { pre.push(param_warning(params.last())) }
    }
}

pub open spec fn input_names(vt: VtFile) -> Seq<Seq<char>> {
    vt.inputs@.map_values(|d: crate::ast::InputDecl| d.name@)
}

pub open spec fn output_names(vt: VtFile) -> Seq<Seq<char>> {
    vt.outputs@.map_values(|d: crate::ast::OutputDecl| d.name@)
}

/// The texts of some borrowed strings.
pub open spec fn refs_v(s: Seq<&String>) -> Seq<Seq<char>> {
    s.map_values(|x: &String| x@)
}

/// Finds the first name that occurred earlier.
#[verifier::loop_isolation(false)]
fn first_repeat_exec(names: &Vec<&String>) -> (r: Option<usize>)
    ensures
        match r {
            Some(j) => first_repeat(refs_v(names@), j as int),
            None => !has_repeat(refs_v(names@)),
        },
{
    let ghost ns = refs_v(names@);
    let mut k: usize = 0;
    while k < names.len()
        invariant
            k <= names@.len(),
            ns == refs_v(names@),
            forall|a: int, i: int| 0 <= i < a < k ==> #[trigger] ns[i] != #[trigger] ns[a],
        decreases names.len() - k,
    {
        let mut i: usize = 0;
        while i < k
            invariant
                i <= k,
                k < names@.len(),
                ns == refs_v(names@),
                forall|t: int| 0 <= t < i ==> ns[t] != ns[k as int],
            decreases k - i,
        {
            if str_eq(names[i].as_str(), names[k].as_str()) {
                assert(ns[i as int] == ns[k as int]);
                return Some(k);
            }
            i = i + 1;
        }
        k = k + 1;
    }
    None
}

/// Whether some element of `names` is `x`.
fn strs_contain(names: &Vec<&String>, x: &str) -> (r: bool)
    ensures
        r == refs_v(names@).contains(x@),
{
    let ghost ns = refs_v(names@);
    let mut i: usize = 0;
    while i < names.len()
        invariant
            i <= names@.len(),
            ns == refs_v(names@),
            forall|t: int| 0 <= t < i ==> ns[t] != x@,
        decreases names.len() - i,
    {
        if str_eq(names[i].as_str(), x) {
            assert(ns[i as int] == x@);
            return true;
        }
        i = i + 1;
    }
    false
}

/// The names of a file's inputs, borrowed.
fn input_refs(vt: &VtFile) -> (r: Vec<&String>)
    ensures
        refs_v(r@) == input_names(*vt),
{
    let mut in_names: Vec<&String> = Vec::new();
    let mut i: usize = 0;
    while i < vt.inputs.len()
        invariant
            i <= vt.inputs@.len(),
            refs_v(in_names@) == input_names(*vt).subrange(0, i as int),
        decreases vt.inputs.len() - i,
    {
        in_names.push(&vt.inputs[i].name);
        assert(input_names(*vt)[i as int] == vt.inputs@[i as int].name@);
        assert(input_names(*vt).subrange(0, i + 1) =~= input_names(*vt).subrange(0, i as int).push(vt.inputs@[i as int].name@));
        assert(refs_v(in_names@) =~= input_names(*vt).subrange(0, i + 1));
        i = i + 1;
    }
    assert(input_names(*vt).subrange(0, vt.inputs@.len() as int) =~= input_names(*vt));
    in_names
}

// ---- types across wires ----

/// What `f` gives for each element of `s`, in order, joined.
pub open spec fn concat_map<A, B>(s: Seq<A>, f: spec_fn(A) -> Seq<B>) -> Seq<B>
    decreases s.len(),
{
    if s.len() == 0 {
        seq![]
    } else {
        concat_map(s.drop_last(), f) + f(s.last())
    }
}

proof fn lemma_concat_map_step<A, B>(s: Seq<A>, i: int, f: spec_fn(A) -> Seq<B>)
    requires
        0 <= i < s.len(),
    ensures
        concat_map(s.take(i + 1), f) == concat_map(s.take(i), f) + f(s[i]),
{
    assert(s.take(i + 1).drop_last() =~= s.take(i));
}

/// The message for a port whose output type on the `from` side is not the
/// input type on the `to` side.
pub open spec fn mismatch_text(port: Seq<char>, from: Seq<char>, to: Seq<char>, out_ty: TypeV, in_ty: TypeV) -> Seq<char> {
    "Type mismatch on '"@ + port + "': "@ + from + " outputs "@ + type_text(out_ty) + ", "@ + to
        + " expects "@ + type_text(in_ty)
}

/// An output and an input of the same name and different types.
pub open spec fn pair_mismatch(from: Seq<char>, to: Seq<char>, o: OutputDecl, i: InputDecl) -> Seq<Seq<char>> {
    if o.name@ == i.name@ && type_v(o.ty) != type_v(i.ty) {
        seq![mismatch_text(o.name@, from, to, type_v(o.ty), type_v(i.ty))]
    } else {
        seq![]
    }
}

/// The mismatches of one output against the inputs, in input order.
pub open spec fn output_mismatches(from: Seq<char>, to: Seq<char>, o: OutputDecl, ins: Seq<InputDecl>) -> Seq<Seq<char>> {
    concat_map(ins, |i: InputDecl| pair_mismatch(from, to, o, i))
}

/// The mismatches between the outputs of `a` and the inputs of `b`, output
/// by output.
pub open spec fn file_mismatches(from: Seq<char>, to: Seq<char>, a: VtFile, b: VtFile) -> Seq<Seq<char>> {
    concat_map(a.outputs@, |o: OutputDecl| output_mismatches(from, to, o, b.inputs@))
}

/// The mismatches along the edge `u -> v`: none unless both are modules.
pub open spec fn edge_mismatches(nodes: Seq<DagNode>, u: u32, v: u32) -> Seq<Seq<char>> {
    if u < nodes.len() && v < nodes.len() {
        match (nodes[u as int].kind, nodes[v as int].kind) {
            (DagNodeKind::Module(a), DagNodeKind::Module(b)) => file_mismatches(nodes[u as int].name@, nodes[v as int].name@, a, b),
            _ => seq![],
        }
    } else {
        seq![]
    }
}

/// The mismatches along the edges out of `u`, in edge order.
pub open spec fn node_mismatches(nodes: Seq<DagNode>, succ: Seq<Seq<u32>>, u: u32) -> Seq<Seq<char>> {
    concat_map(succ[u as int], |v: u32| edge_mismatches(nodes, u, v))
}

/// Every mismatch of the DAG: node by node, edge by edge.
pub open spec fn type_mismatches(d: Dag) -> Seq<Seq<char>> {
    concat_map(Seq::new(d.nodes().len(), |u: int| u as u32), |u: u32| node_mismatches(d.nodes(), d@.succ, u))
}

/// Whether two types are the same.
fn same_type(x: &VtType, y: &VtType) -> (r: bool)
    ensures
        r == (type_v(*x) == type_v(*y)),
{
    match (x, y) {
        (VtType::Int, VtType::Int) => true,
        (VtType::Float, VtType::Float) => true,
        (VtType::Bool, VtType::Bool) => true,
        (VtType::Str, VtType::Str) => true,
        (VtType::DataFrame, VtType::DataFrame) => true,
        (VtType::Custom(a), VtType::Custom(b)) => str_eq(a.as_str(), b.as_str()),
        _ => false,
    }
}

/// Appends the mismatches between the outputs of `a` (node `from`) and the
/// inputs of `b` (node `to`).
#[verifier::loop_isolation(false)]
fn push_file_mismatches(from: &String, to: &String, a: &VtFile, b: &VtFile, out: &mut Vec<String>)
    ensures
        strs_v(final(out)@) == strs_v(old(out)@) + file_mismatches(from@, to@, *a, *b),
{
    let ghost base = strs_v(out@);
    let ghost fo = |o: OutputDecl| output_mismatches(from@, to@, o, b.inputs@);
    let mut j: usize = 0;
    while j < a.outputs.len()
        invariant
            j <= a.outputs@.len(),
            strs_v(out@) == base + concat_map(a.outputs@.take(j as int), fo),
        decreases a.outputs.len() - j,
    {
        let o = &a.outputs[j];
        let ghost mid = strs_v(out@);
        let ghost fi = |i: InputDecl| pair_mismatch(from@, to@, *o, i);
        let mut k: usize = 0;
        while k < b.inputs.len()
            invariant
                k <= b.inputs@.len(),
                strs_v(out@) == mid + concat_map(b.inputs@.take(k as int), fi),
            decreases b.inputs.len() - k,
        {
            let i = &b.inputs[k];
            let ghost before = strs_v(out@);
            proof { lemma_concat_map_step(b.inputs@, k as int, fi); }
            if str_eq(o.name.as_str(), i.name.as_str()) && !same_type(&o.ty, &i.ty) {
                let t1 = concat("Type mismatch on '", o.name.as_str());
                let t2 = concat(t1.as_str(), "': ");
                let t3 = concat(t2.as_str(), from.as_str());
                let t4 = concat(t3.as_str(), " outputs ");
                let t5 = concat(t4.as_str(), o.ty.text().as_str());
                let t6 = concat(t5.as_str(), ", ");
                let t7 = concat(t6.as_str(), to.as_str());
                let t8 = concat(t7.as_str(), " expects ");
                let m = concat(t8.as_str(), i.ty.text().as_str());
                let ghost mv = m@;
                out.push(m);
                proof {
                    assert(strs_v(out@) =~= before.push(mv));
                    assert(mv == mismatch_text(o.name@, from@, to@, type_v(o.ty), type_v(i.ty)));
                    assert(fi(b.inputs@[k as int]) == seq![mv]);
                    assert(strs_v(out@) =~= mid + concat_map(b.inputs@.take(k + 1), fi));
                }
            } else {
                proof {
                    assert(fi(b.inputs@[k as int]) == Seq::<Seq<char>>::empty());
                    assert(strs_v(out@) =~= mid + concat_map(b.inputs@.take(k + 1), fi));
                }
            }
            k = k + 1;
        }
        proof {
            assert(b.inputs@.take(b.inputs@.len() as int) =~= b.inputs@);
            lemma_concat_map_step(a.outputs@, j as int, fo);
            assert(fo(a.outputs@[j as int]) == concat_map(b.inputs@, fi));
            assert(strs_v(out@) =~= base + concat_map(a.outputs@.take(j + 1), fo));
        }
        j = j + 1;
    }
    assert(a.outputs@.take(a.outputs@.len() as int) =~= a.outputs@);
}

/// The checks run on files and on the DAG.
pub struct Validator;

impl Validator {
    pub fn new() -> Validator {
        Validator
    }

    /// Checks a file: warns of a vortex node without a VAN, refuses an input
    /// or an output declared twice, and warns of parameters with no input.
    /// The warnings issued before the verdict come with it.
    pub fn validate_file(&self, vt: &VtFile) -> (r: (Vec<String>, Result<(), VenturiError>))
        ensures
            ({
                let w0: Seq<Seq<char>> = if vt.kind == NodeKind::Vortex && vt.van is None { seq![no_van_warning()] } else { seq![] };
                let ins = input_names(*vt);
                let outs = output_names(*vt);
                &&& has_repeat(ins) ==> strs_v(r.0@) == w0 && exists|j: int| first_repeat(ins, j)
                    && crate::error::err_is(r.1, ErrV::Validation("Duplicate input declaration: "@ + ins[j]))
                &&& !has_repeat(ins) && has_repeat(outs) ==> strs_v(r.0@) == w0 && exists|j: int| first_repeat(outs, j)
                    && crate::error::err_is(r.1, ErrV::Validation("Duplicate output declaration: "@ + outs[j]))
                &&& !has_repeat(ins) && !has_repeat(outs) ==> r.1 is Ok && strs_v(r.0@) == w0 + match vt.func {
                    Some(f) => param_warnings(crate::ast::strings_v(f.params@), ins),
                    None => Seq::<Seq<char>>::empty(),
                }
            }),
    {
        let mut warnings = self.check_shebang_consistency(vt);
        if let Err(e) = self.check_inputs_outputs(vt) {
            return (warnings, Err(e));
        }
        let mut more = self.check_func_params(vt);
        let ghost w0 = strs_v(warnings@);
        let ghost w1 = strs_v(more@);
        warnings.append(&mut more);
        assert(strs_v(warnings@) =~= w0 + w1);
        (warnings, Ok(()))
    }

    /// The warning for a vortex node that declares no VAN.
    fn check_shebang_consistency(&self, vt: &VtFile) -> (r: Vec<String>)
        ensures
            strs_v(r@) == (if vt.kind == NodeKind::Vortex && vt.van is None { seq![no_van_warning()] } else { seq![] }),
    {
        let mut warnings: Vec<String> = Vec::new();
        if vt.kind == NodeKind::Vortex && vt.van.is_none() {
            warnings.push(String::from_str("[venturi warn] Vortex node has no VAN declaration; all side effects are unrestricted"));
            proof { reveal_strlit("[venturi warn] Vortex node has no VAN declaration; all side effects are unrestricted"); }
        }
        assert(strs_v(warnings@) =~= (if vt.kind == NodeKind::Vortex && vt.van is None { seq![no_van_warning()] } else { seq![] }));
        warnings
    }

    /// Refuses the first input, then the first output, whose name occurred
    /// earlier.
    fn check_inputs_outputs(&self, vt: &VtFile) -> (r: Result<(), VenturiError>)
        ensures
            ({
                let ins = input_names(*vt);
                let outs = output_names(*vt);
                &&& has_repeat(ins) ==> exists|j: int| first_repeat(ins, j)
                    && crate::error::err_is(r, ErrV::Validation("Duplicate input declaration: "@ + ins[j]))
                &&& !has_repeat(ins) && has_repeat(outs) ==> exists|j: int| first_repeat(outs, j)
                    && crate::error::err_is(r, ErrV::Validation("Duplicate output declaration: "@ + outs[j]))
                &&& !has_repeat(ins) && !has_repeat(outs) ==> r is Ok
            }),
    {
        let in_names = input_refs(vt);
        if let Some(j) = first_repeat_exec(&in_names) {
            let m = concat("Duplicate input declaration: ", in_names[j].as_str());
            proof { reveal_strlit("Duplicate input declaration: "); }
            return Err(VenturiError::Validation(m));
        }
        let mut out_names: Vec<&String> = Vec::new();
        let mut i: usize = 0;
        while i < vt.outputs.len()
            invariant
                i <= vt.outputs@.len(),
                refs_v(out_names@) == output_names(*vt).subrange(0, i as int),
            decreases vt.outputs.len() - i,
        {
            out_names.push(&vt.outputs[i].name);
            assert(output_names(*vt)[i as int] == vt.outputs@[i as int].name@);
            assert(output_names(*vt).subrange(0, i + 1) =~= output_names(*vt).subrange(0, i as int).push(vt.outputs@[i as int].name@));
            assert(refs_v(out_names@) =~= output_names(*vt).subrange(0, i + 1));
            i = i + 1;
        }
        assert(output_names(*vt).subrange(0, vt.outputs@.len() as int) =~= output_names(*vt));
        if let Some(j) = first_repeat_exec(&out_names) {
            let m = concat("Duplicate output declaration: ", out_names[j].as_str());
            proof { reveal_strlit("Duplicate output declaration: "); }
            return Err(VenturiError::Validation(m));
        }
        Ok(())
    }

    /// The warnings for the function's parameters that no input declares.
    fn check_func_params(&self, vt: &VtFile) -> (r: Vec<String>)
        ensures
            strs_v(r@) == match vt.func {
                Some(f) => param_warnings(crate::ast::strings_v(f.params@), input_names(*vt)),
                None => Seq::<Seq<char>>::empty(),
            },
    {
        let mut warnings: Vec<String> = Vec::new();
        if let Some(func) = &vt.func {
            let in_names = input_refs(vt);
            let ghost ps = crate::ast::strings_v(func.params@);
            let ghost ins = input_names(*vt);
            let mut k: usize = 0;
            assert(ps.subrange(0, 0) =~= Seq::<Seq<char>>::empty());
            while k < func.params.len()
                invariant
                    k <= func.params@.len(),
                    ps == crate::ast::strings_v(func.params@),
                    ins == refs_v(in_names@),
                    strs_v(warnings@) == param_warnings(ps.subrange(0, k as int), ins),
                decreases func.params.len() - k,
            {
                let ghost next = ps.subrange(0, k + 1);
                assert(next.drop_last() =~= ps.subrange(0, k as int));
                assert(next.last() == func.params@[k as int]@);
                if !strs_contain(&in_names, func.params[k].as_str()) {
                    let a = concat("[venturi warn] Func param '", func.params[k].as_str());
                    let w = concat(a.as_str(), "' has no matching input declaration");
                    proof {
                        reveal_strlit("[venturi warn] Func param '");
                        reveal_strlit("' has no matching input declaration");
                    }
                    let ghost before = warnings@;
                    warnings.push(w);
                    assert(strs_v(warnings@) =~= strs_v(before).push(w@));
                }
                assert(strs_v(warnings@) =~= param_warnings(next, ins));
                k = k + 1;
            }
            assert(ps.subrange(0, func.params@.len() as int) =~= ps);
        } else {
            assert(strs_v(warnings@) =~= Seq::<Seq<char>>::empty());
        }
        warnings
    }

    /// Refuses a DAG in which a wire joins two modules where an output of
    /// the first and an input of the second share a name but not a type;
    /// the first such pair (node by node, edge by edge, output by output,
    /// input by input) is named, with both types.
    #[verifier::loop_isolation(false)]
    pub fn validate_dag_types(&self, dag: &Dag) -> (r: Result<(), VenturiError>)
        requires
            dag.wf(),
        ensures
            type_mismatches(*dag).len() == 0 ==> r is Ok,
            type_mismatches(*dag).len() > 0 ==> crate::error::err_is(r, ErrV::Validation(type_mismatches(*dag)[0])),
    {
        proof { crate::graph::lemma_dag_shape(dag); }
        let n = dag.len();
        let ghost nodes = dag.nodes();
        let ghost succ = dag@.succ;
        let ghost us = Seq::new(nodes.len(), |u: int| u as u32);
        let ghost fu = |u: u32| node_mismatches(nodes, succ, u);
        let mut found: Vec<String> = Vec::new();
        let mut u: usize = 0;
        while u < n
            invariant
                u <= n,
                n == nodes.len(),
                strs_v(found@) == concat_map(us.take(u as int), fu),
            decreases n - u,
        {
            let uid = u as u32;
            let ghost base = strs_v(found@);
            let succs = dag.successors(uid);
            let ghost fv = |v: u32| edge_mismatches(nodes, uid, v);
            let mut k: usize = 0;
            while k < succs.len()
                invariant
                    k <= succs@.len(),
                    succs@ == succ[u as int],
                    strs_v(found@) == base + concat_map(succs@.take(k as int), fv),
                decreases succs.len() - k,
            {
                let v = succs[k];
                proof { lemma_concat_map_step(succs@, k as int, fv); }
                match (dag.node(uid), dag.node(v)) {
                    (Some(a), Some(b)) => {
                        match (&a.kind, &b.kind) {
                            (DagNodeKind::Module(fa), DagNodeKind::Module(fb)) => {
                                push_file_mismatches(&a.name, &b.name, fa, fb, &mut found);
                            },
                            _ => {},
                        }
                    },
                    _ => {},
                }
                assert(strs_v(found@) =~= base + concat_map(succs@.take(k + 1), fv));
                k = k + 1;
            }
            proof {
                assert(succs@.take(succs@.len() as int) =~= succs@);
                lemma_concat_map_step(us, u as int, fu);
                assert(us[u as int] == uid);
                assert(strs_v(found@) =~= concat_map(us.take(u + 1), fu));
            }
            u = u + 1;
        }
        assert(us.take(n as int) =~= us);
        if found.len() == 0 {
            Ok(())
        } else {
            Err(VenturiError::Validation(found[0].clone()))
        }
    }

    /// Refuses a DAG with a cycle (which a DAG never has).
    pub fn validate_dag(&self, dag: &Dag) -> (r: Result<(), VenturiError>)
        requires
            dag.wf(),
        ensures
            r is Ok,
    {
        if dag.has_cycle() {
            return Err(VenturiError::Cycle { node: String::from_str("unknown") });
        }
        Ok(())
    }

    /// Where a VAN is required, the file must declare exactly that VAN.
    pub fn validate_van_consistency(&self, vt: &VtFile, required_van: Option<&str>) -> (r: Result<(), VenturiError>)
        ensures
            match required_van {
                None => r is Ok,
                Some(req) => if opt_v(vt.van) == Some(req@) {
                    r is Ok
                } else {
                    crate::error::err_is(r, (ErrV::Permission { required: req@, got: opt_v(vt.van) }))
                },
            },
    {
        if let Some(required) = required_van {
            match &vt.van {
                None => {
                    return Err(VenturiError::Permission { required: String::from_str(required), got: None });
                },
                Some(van) => {
                    if !str_eq(van.as_str(), required) {
                        return Err(VenturiError::Permission {
                            required: String::from_str(required),
                            got: Some(van.clone()),
                        });
                    }
                },
            }
        }
        Ok(())
    }
}

impl Default for Validator {
    fn default() -> (r: Validator) {
        Validator
    }
}

} // verus!
