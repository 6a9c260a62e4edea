//! Assembling a chassis from a set of parsed files: their ports, VANs, wires
//! and compiled functions, gathered file by file.

use vstd::prelude::*;
use crate::ast::{type_text, type_v, func_v, InputDecl, OutputDecl, DagWire, VtFile};
use crate::bytecode::{code_v, InstrV};
use crate::compiler::{c_func, compile};
use crate::pits::strs_v;
use crate::vcbin::{GraphEdge, PortDef, VcBinGraph, VcBinInterface, VcBinPermissions};

verus! {

/// What each file gives, in file order, joined.
pub open spec fn gather<T>(files: Seq<(String, VtFile)>, f: spec_fn(VtFile) -> Seq<T>) -> Seq<T>
    decreases files.len(),
{
    if files.len() == 0 {
        seq![]
    } else {
        gather(files.drop_last(), f) + f(files.last().1)
    }
}

/// The input ports of a file: each input's name and type as written.
pub open spec fn input_ports(vt: VtFile) -> Seq<(Seq<char>, Seq<char>)> {
    vt.inputs@.map_values(|d: InputDecl| (d.name@, type_text(type_v(d.ty))))
}

/// The output ports of a file.
pub open spec fn output_ports(vt: VtFile) -> Seq<(Seq<char>, Seq<char>)> {
    vt.outputs@.map_values(|d: OutputDecl| (d.name@, type_text(type_v(d.ty))))
}

/// The VAN of a file, if it declares one.
pub open spec fn file_vans(vt: VtFile) -> Seq<Seq<char>> {
    match vt.van {
        Some(v) => seq![v@],
        None => seq![],
    }
}

/// The wires a file declares.
pub open spec fn file_wires(vt: VtFile) -> Seq<(Seq<char>, Seq<char>)> {
    vt.dag_wires@.map_values(|w: DagWire| (w.from@, w.to@))
}

/// The code of a file's function (none where it has no function).
pub open spec fn file_code(vt: VtFile) -> Seq<InstrV> {
    match vt.func {
        Some(f) => c_func(func_v(f)),
        None => seq![],
    }
}

pub open spec fn ports_v(s: Seq<PortDef>) -> Seq<(Seq<char>, Seq<char>)> {
    s.map_values(|p: PortDef| (p.name@, p.ty@))
}

pub open spec fn edges_v(s: Seq<GraphEdge>) -> Seq<(Seq<char>, Seq<char>)> {
    s.map_values(|e: GraphEdge| (e.from@, e.to@))
}

/// The names of the files, in order.
pub open spec fn file_names(files: Seq<(String, VtFile)>) -> Seq<Seq<char>> {
    files.map_values(|p: (String, VtFile)| p.0@)
}

/// The first file's name (empty where there is none).
pub open spec fn first_name(files: Seq<(String, VtFile)>) -> Seq<char> {
    if files.len() > 0 { files[0].0@ } else { seq![] }
}

/// The last file's name (empty where there is none).
pub open spec fn last_name(files: Seq<(String, VtFile)>) -> Seq<char> {
    if files.len() > 0 { files.last().0@ } else { seq![] }
}

proof fn lemma_gather_step<T>(files: Seq<(String, VtFile)>, i: int, f: spec_fn(VtFile) -> Seq<T>)
    requires
        0 <= i < files.len(),
    ensures
        gather(files.subrange(0, i + 1), f) == gather(files.subrange(0, i), f) + f(files[i].1),
{
    assert(files.subrange(0, i + 1).drop_last() =~= files.subrange(0, i));
}

/// What a chassis is made of, besides its metadata and hash.
pub struct ChassisParts {
    pub interface: VcBinInterface,
    pub permissions: VcBinPermissions,
    pub graph: VcBinGraph,
    pub bytecode: Vec<crate::bytecode::Instruction>,
}

/// The parts of a chassis made of `files`: every file's inputs and outputs
/// as its interface, the VANs they declare as the allowed ones, the files as
/// graph nodes joined by their wires, entered at the first file and left at
/// the last, and the code of their functions one after another. Sealed into
/// a chassis by `VcBin::new` once they are encoded.
#[verifier::rlimit(40)]
#[verifier::loop_isolation(false)]
pub fn assemble_chassis(files: &Vec<(String, VtFile)>) -> (r: ChassisParts)
    ensures
        ports_v(r.interface.inputs@) == gather(files@, |vt: VtFile| input_ports(vt)),
        ports_v(r.interface.outputs@) == gather(files@, |vt: VtFile| output_ports(vt)),
        strs_v(r.permissions.allowed_vans@) == gather(files@, |vt: VtFile| file_vans(vt)),
        strs_v(r.graph.nodes@) == file_names(files@),
        edges_v(r.graph.edges@) == gather(files@, |vt: VtFile| file_wires(vt)),
        r.graph.entry@ == first_name(files@),
        r.graph.exit@ == last_name(files@),
        code_v(r.bytecode@) == gather(files@, |vt: VtFile| file_code(vt)),
{
    let ghost fin = |vt: VtFile| input_ports(vt);
    let ghost fout = |vt: VtFile| output_ports(vt);
    let ghost fvan = |vt: VtFile| file_vans(vt);
    let ghost fwire = |vt: VtFile| file_wires(vt);
    let ghost fcode = |vt: VtFile| file_code(vt);
    let mut ins: Vec<PortDef> = Vec::new();
    let mut outs: Vec<PortDef> = Vec::new();
    let mut vans: Vec<String> = Vec::new();
    let mut nodes: Vec<String> = Vec::new();
    let mut edges: Vec<GraphEdge> = Vec::new();
    let mut code: Vec<crate::bytecode::Instruction> = Vec::new();
    let mut i: usize = 0;
    while i < files.len()
        invariant
            i <= files@.len(),
            ports_v(ins@) == gather(files@.subrange(0, i as int), fin),
            ports_v(outs@) == gather(files@.subrange(0, i as int), fout),
            strs_v(vans@) == gather(files@.subrange(0, i as int), fvan),
            strs_v(nodes@) == file_names(files@.subrange(0, i as int)),
            edges_v(edges@) == gather(files@.subrange(0, i as int), fwire),
            code_v(code@) == gather(files@.subrange(0, i as int), fcode),
        decreases files.len() - i,
    {
        let vt = &files[i].1;
        proof {
            lemma_gather_step(files@, i as int, fin);
            lemma_gather_step(files@, i as int, fout);
            lemma_gather_step(files@, i as int, fvan);
            lemma_gather_step(files@, i as int, fwire);
            lemma_gather_step(files@, i as int, fcode);
        }
        let ghost ins0 = ports_v(ins@);
        let mut j: usize = 0;
        while j < vt.inputs.len()
            invariant
                j <= vt.inputs@.len(),
                ports_v(ins@) == ins0 + input_ports(*vt).subrange(0, j as int),
            decreases vt.inputs.len() - j,
        {
            let d = &vt.inputs[j];
            let ghost before = ins@;
            let p = PortDef { name: d.name.clone(), ty: d.ty.text() };
            assert((p.name@, p.ty@) == (d.name@, type_text(type_v(d.ty))));
            ins.push(p);
            proof {
                assert(ports_v(ins@) =~= ports_v(before).push((d.name@, type_text(type_v(d.ty)))));
                assert(input_ports(*vt).subrange(0, j + 1) =~= input_ports(*vt).subrange(0, j as int).push((d.name@, type_text(type_v(d.ty)))));
                assert(ports_v(ins@) =~= ins0 + input_ports(*vt).subrange(0, j + 1));
            }
            j = j + 1;
        }
        assert(input_ports(*vt).subrange(0, vt.inputs@.len() as int) =~= input_ports(*vt));
        let ghost outs0 = ports_v(outs@);
        let mut j: usize = 0;
        while j < vt.outputs.len()
            invariant
                j <= vt.outputs@.len(),
                ports_v(outs@) == outs0 + output_ports(*vt).subrange(0, j as int),
            decreases vt.outputs.len() - j,
        {
            let d = &vt.outputs[j];
            let ghost before = outs@;
            let p = PortDef { name: d.name.clone(), ty: d.ty.text() };
            assert((p.name@, p.ty@) == (d.name@, type_text(type_v(d.ty))));
            outs.push(p);
            proof {
                assert(ports_v(outs@) =~= ports_v(before).push((d.name@, type_text(type_v(d.ty)))));
                assert(output_ports(*vt).subrange(0, j + 1) =~= output_ports(*vt).subrange(0, j as int).push((d.name@, type_text(type_v(d.ty)))));
                assert(ports_v(outs@) =~= outs0 + output_ports(*vt).subrange(0, j + 1));
            }
            j = j + 1;
        }
        assert(output_ports(*vt).subrange(0, vt.outputs@.len() as int) =~= output_ports(*vt));
        let ghost vans0 = strs_v(vans@);
        match &vt.van {
            Some(v) => {
                vans.push(v.clone());
            },
            None => {},
        }
        assert(strs_v(vans@) =~= vans0 + file_vans(*vt));
        let ghost nodes0 = nodes@;
        nodes.push(files[i].0.clone());
        proof {
            assert(files@.subrange(0, i + 1) =~= files@.subrange(0, i as int).push(files@[i as int]));
            assert(file_names(files@.subrange(0, i + 1)) =~= file_names(files@.subrange(0, i as int)).push(files@[i as int].0@));
            assert(strs_v(nodes@) =~= strs_v(nodes0).push(files@[i as int].0@));
        }
        let ghost edges0 = edges_v(edges@);
        let mut j: usize = 0;
        while j < vt.dag_wires.len()
            invariant
                j <= vt.dag_wires@.len(),
                edges_v(edges@) == edges0 + file_wires(*vt).subrange(0, j as int),
            decreases vt.dag_wires.len() - j,
        {
            let w = &vt.dag_wires[j];
            let ghost before = edges@;
            let g = GraphEdge { from: w.from.clone(), to: w.to.clone() };
            edges.push(g);
            proof {
                assert(edges_v(edges@) =~= edges_v(before).push((w.from@, w.to@)));
                assert(file_wires(*vt).subrange(0, j + 1) =~= file_wires(*vt).subrange(0, j as int).push((w.from@, w.to@)));
                assert(edges_v(edges@) =~= edges0 + file_wires(*vt).subrange(0, j + 1));
            }
            j = j + 1;
        }
        assert(file_wires(*vt).subrange(0, vt.dag_wires@.len() as int) =~= file_wires(*vt));
        let ghost code0 = code@;
        match &vt.func {
            Some(f) => {
                let mut more = compile(f);
                let ghost m0 = more@;
                code.append(&mut more);
                assert(code_v(code@) =~= code_v(code0) + code_v(m0));
            },
            None => {
                assert(code_v(code@) =~= code_v(code0) + file_code(*vt));
            },
        }
        i = i + 1;
    }
    assert(files@.subrange(0, files@.len() as int) =~= files@);
    let entry = if files.len() > 0 { files[0].0.clone() } else { String::new() };
    let exit = if files.len() > 0 { files[files.len() - 1].0.clone() } else { String::new() };
    ChassisParts {
        interface: VcBinInterface { inputs: ins, outputs: outs },
        permissions: VcBinPermissions { allowed_vans: vans },
        graph: VcBinGraph { nodes, edges, entry, exit },
        bytecode: code,
    }
}

} // verus!
