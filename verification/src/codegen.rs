//! Code generation: the DAG written out as XML or as an HTML overview.

use vstd::prelude::*;
use crate::ast::{DagWire, FuncDef, InputDecl, NodeKind, OutputDecl, VtFile, strings_v, type_text, type_v};
use crate::permissions::{join, join_strings};
use crate::pits::strs_v;
use crate::chars::chars_of;
use crate::error::{ErrV, VenturiError};
use crate::text::{concat, push_char, str_eq};

verus! {

/// `n` levels of indentation, two spaces each.
pub open spec fn spaces(n: nat) -> Seq<char>
    decreases n,
{
    if n == 0 { seq![] } else { spaces((n - 1) as nat) + "  "@ }
}

/// One line at an indentation level.
#[verifier::opaque]
pub open spec fn line_text(indent: nat, s: Seq<char>) -> Seq<char> {
    spaces(indent) + s + "\n"@
}

/// A text buffer that writes lines at an indentation level.
pub struct CodeWriter {
    buf: String,
    indent: usize,
}

impl CodeWriter {
    /// What has been written.
    pub closed spec fn text(&self) -> Seq<char> {
        self.buf@
    }

    /// The indentation level.
    pub closed spec fn level(&self) -> nat {
        self.indent as nat
    }

    /// An empty buffer at level 0 (`capacity` is a hint only).
    pub fn new(capacity: usize) -> (r: CodeWriter)
        ensures
            r.text() == Seq::<char>::empty(),
            r.level() == 0,
    {
        CodeWriter { buf: String::new(), indent: 0 }
    }

    /// One level deeper.
    pub fn indent(&mut self)
        requires
            old(self).level() < usize::MAX,
        ensures
            final(self).level() == old(self).level() + 1,
            final(self).text() == old(self).text(),
    {
        self.indent = self.indent + 1;
    }

    /// One level shallower (not below 0).
    pub fn dedent(&mut self)
        ensures
            final(self).level() == if old(self).level() > 0 { (old(self).level() - 1) as nat } else { 0 },
            final(self).text() == old(self).text(),
    {
        if self.indent > 0 {
            self.indent = self.indent - 1;
        }
    }

    /// Writes `s` as a line at the current level.
    pub fn line(&mut self, s: &str)
        ensures
            final(self).text() == old(self).text() + line_text(old(self).level(), s@),
            final(self).level() == old(self).level(),
    {
        let mut k: usize = 0;
        assert(old(self).text() + spaces(0) =~= old(self).text());
        while k < self.indent
            invariant
                k <= self.indent,
                self.indent == old(self).indent,
                self.buf@ == old(self).text() + spaces(k as nat),
            decreases self.indent - k,
        {
            self.buf.append("  ");
            assert(self.buf@ =~= old(self).text() + spaces((k + 1) as nat));
            k = k + 1;
        }
        self.buf.append(s);
        self.buf.append("\n");
        proof { reveal(line_text); }
        assert(self.buf@ =~= old(self).text() + line_text(old(self).level(), s@));
    }

    /// Writes `s` as it is.
    pub fn raw(&mut self, s: &str)
        ensures
            final(self).text() == old(self).text() + s@,
            final(self).level() == old(self).level(),
    {
        self.buf.append(s);
    }

    /// Writes an empty line (no indentation).
    pub fn blank(&mut self)
        ensures
            final(self).text() == old(self).text() + "\n"@,
            final(self).level() == old(self).level(),
    {
        self.buf.append("\n");
    }

    /// What has been written.
    pub fn into_string(self) -> (r: String)
        ensures
            r@ == self.text(),
    {
        self.buf
    }
}

/// A character as XML text: the five special characters become entities.
pub open spec fn xml_char(c: char) -> Seq<char> {
    if c == '&' { "&amp;"@ } else if c == '<' { "&lt;"@ } else if c == '>' { "&gt;"@ }
    else if c == '"' { "&quot;"@ } else if c == '\'' { "&apos;"@ } else { seq![c] }
}

/// A character as HTML text: `<`, `>`, `&` and `"` become entities.
pub open spec fn html_char(c: char) -> Seq<char> {
    if c == '<' { "&lt;"@ } else if c == '>' { "&gt;"@ } else if c == '&' { "&amp;"@ }
    else if c == '"' { "&quot;"@ } else { seq![c] }
}

pub open spec fn escape_xml_spec(s: Seq<char>) -> Seq<char>
    decreases s.len(),
{
    if s.len() == 0 { seq![] } else { escape_xml_spec(s.drop_last()) + xml_char(s.last()) }
}

pub open spec fn escape_html_spec(s: Seq<char>) -> Seq<char>
    decreases s.len(),
{
    if s.len() == 0 { seq![] } else { escape_html_spec(s.drop_last()) + html_char(s.last()) }
}

/// `s` with the XML special characters replaced by entities.
pub fn escape_xml(s: &str) -> (r: String)
    ensures
        r@ == escape_xml_spec(s@),
{
    let cs = chars_of(s);
    let mut out = String::new();
    let mut i: usize = 0;
    while i < cs.len()
        invariant
            i <= cs@.len(),
            cs@ == s@,
            out@ == escape_xml_spec(s@.subrange(0, i as int)),
        decreases cs.len() - i,
    {
        let c = cs[i];
        let ghost before = out@;
        if c == '&' {
            out.append("&amp;");
        } else if c == '<' {
            out.append("&lt;");
        } else if c == '>' {
            out.append("&gt;");
        } else if c == '"' {
            out.append("&quot;");
        } else if c == '\'' {
            out.append("&apos;");
        } else {
            push_char(&mut out, c);
        }
        proof {
            let next = s@.subrange(0, i + 1);
            assert(next.drop_last() =~= s@.subrange(0, i as int));
            assert(next.last() == c);
            assert(out@ =~= before + xml_char(c));
        }
        i = i + 1;
    }
    assert(s@.subrange(0, s@.len() as int) =~= s@);
    out
}

/// `s` with the HTML special characters replaced by entities.
pub fn escape_html(s: &str) -> (r: String)
    ensures
        r@ == escape_html_spec(s@),
{
    let cs = chars_of(s);
    let mut out = String::new();
    let mut i: usize = 0;
    while i < cs.len()
        invariant
            i <= cs@.len(),
            cs@ == s@,
            out@ == escape_html_spec(s@.subrange(0, i as int)),
        decreases cs.len() - i,
    {
        let c = cs[i];
        let ghost before = out@;
        if c == '<' {
            out.append("&lt;");
        } else if c == '>' {
            out.append("&gt;");
        } else if c == '&' {
            out.append("&amp;");
        } else if c == '"' {
            out.append("&quot;");
        } else {
            push_char(&mut out, c);
        }
        proof {
            let next = s@.subrange(0, i + 1);
            assert(next.drop_last() =~= s@.subrange(0, i as int));
            assert(next.last() == c);
            assert(out@ =~= before + html_char(c));
        }
        i = i + 1;
    }
    assert(s@.subrange(0, s@.len() as int) =~= s@);
    out
}


/// How a node kind prints (`Debug`).
pub open spec fn kind_text(k: NodeKind) -> Seq<char> {
    match k {
        NodeKind::Plane => "Plane"@,
        NodeKind::Vortex => "Vortex"@,
    }
}

pub fn kind_name(k: NodeKind) -> (r: String)
    ensures
        r@ == kind_text(k),
{
    match k {
        NodeKind::Plane => String::from_str("Plane"),
        NodeKind::Vortex => String::from_str("Vortex"),
    }
}

pub open spec fn ex(s: Seq<char>) -> Seq<char> {
    escape_xml_spec(s)
}

pub open spec fn input_port_xml(d: nat, i: InputDecl) -> Seq<char> {
    line_text(d, "<port name=\""@ + ex(i.name@) + "\" type=\""@ + ex(type_text(type_v(i.ty))) + "\""@
        + (if i.default is Some { " default=\"true\""@ } else { Seq::<char>::empty() }) + "/>"@)
}

pub open spec fn output_port_xml(d: nat, o: OutputDecl) -> Seq<char> {
    line_text(d, "<port name=\""@ + ex(o.name@) + "\" type=\""@ + ex(type_text(type_v(o.ty))) + "\"/>"@)
}

pub open spec fn meta_entry_xml(d: nat, kv: (String, String)) -> Seq<char> {
    line_text(d, "<entry key=\""@ + ex(kv.0@) + "\" value=\""@ + ex(kv.1@) + "\"/>"@)
}

pub open spec fn inputs_xml(d: nat, s: Seq<InputDecl>) -> Seq<char>
    decreases s.len(),
{
    if s.len() == 0 { seq![] } else { inputs_xml(d, s.drop_last()) + input_port_xml(d, s.last()) }
}

pub open spec fn outputs_xml(d: nat, s: Seq<OutputDecl>) -> Seq<char>
    decreases s.len(),
{
    if s.len() == 0 { seq![] } else { outputs_xml(d, s.drop_last()) + output_port_xml(d, s.last()) }
}

pub open spec fn meta_xml(d: nat, s: Seq<(String, String)>) -> Seq<char>
    decreases s.len(),
{
    if s.len() == 0 { seq![] } else { meta_xml(d, s.drop_last()) + meta_entry_xml(d, s.last()) }
}

pub open spec fn func_xml(d: nat, f: Option<FuncDef>) -> Seq<char> {
    match f {
        Some(f) => line_text(d, "<func name=\""@ + ex(f.name@) + "\" params=\""@ + ex(join(strings_v(f.params@), ", "@)) + "\"/>"@),
        None => line_text(d, "<func/>"@),
    }
}

/// The inputs block at level `d`.
pub open spec fn inputs_block_xml(d: nat, s: Seq<InputDecl>) -> Seq<char> {
    line_text(d, "<inputs>"@) + inputs_xml(d + 1, s) + line_text(d, "</inputs>"@)
}

/// The outputs block at level `d`.
pub open spec fn outputs_block_xml(d: nat, s: Seq<OutputDecl>) -> Seq<char> {
    line_text(d, "<outputs>"@) + outputs_xml(d + 1, s) + line_text(d, "</outputs>"@)
}

/// The metadata block at level `d`; nothing where there is no metadata.
pub open spec fn meta_block_xml(d: nat, s: Seq<(String, String)>) -> Seq<char> {
    if s.len() > 0 {
        line_text(d, "<meta>"@) + meta_xml(d + 1, s) + line_text(d, "</meta>"@)
    } else {
        Seq::<char>::empty()
    }
}

pub open spec fn node_open_xml(d: nat, name: Seq<char>, vt: VtFile) -> Seq<char> {
    let van = match vt.van { Some(v) => v@, None => "none"@ };
    line_text(d, "<node name=\""@ + ex(name) + "\" kind=\""@ + ex(kind_text(vt.kind)) + "\" van=\""@ + ex(van) + "\">"@)
}

/// The XML of one node, its opening tag at level `d`.
pub open spec fn node_xml(d: nat, name: Seq<char>, vt: VtFile) -> Seq<char> {
    node_open_xml(d, name, vt)
        + inputs_block_xml(d + 1, vt.inputs@)
        + outputs_block_xml(d + 1, vt.outputs@)
        + func_xml(d + 1, vt.func)
        + meta_block_xml(d + 1, vt.meta@)
        + line_text(d, "</node>"@)
}

pub open spec fn wire_xml(d: nat, e: (&str, &str)) -> Seq<char> {
    line_text(d, "<wire from=\""@ + ex(e.0@) + "\" to=\""@ + ex(e.1@) + "\"/>"@)
}

pub open spec fn wire_lines_xml(d: nat, s: Seq<(&str, &str)>) -> Seq<char>
    decreases s.len(),
{
    if s.len() == 0 { seq![] } else { wire_lines_xml(d, s.drop_last()) + wire_xml(d, s.last()) }
}

/// The wires block, at level `d`; nothing where there are no edges.
pub open spec fn wires_xml(d: nat, s: Seq<(&str, &str)>) -> Seq<char> {
    if s.len() == 0 {
        seq![]
    } else {
        line_text(d, "<wires>"@) + wire_lines_xml(d + 1, s) + line_text(d, "</wires>"@)
    }
}

fn cat(a: &str, b: &str, c: &str) -> (r: String)
    ensures
        r@ == a@ + b@ + c@,
{
    let mut s = concat(a, b);
    s.append(c);
    s
}

fn emit_inputs_xml(w: &mut CodeWriter, inputs: &Vec<InputDecl>)
    requires
        old(w).level() + 1 < usize::MAX,
    ensures
        final(w).text() == old(w).text() + inputs_block_xml(old(w).level(), inputs@),
        final(w).level() == old(w).level(),
{
    let ghost d = w.level();
    let ghost start = w.text();
    w.line("<inputs>");
    w.indent();
    let ghost t0 = w.text();
    let mut i: usize = 0;
    assert(inputs@.subrange(0, 0) =~= Seq::<InputDecl>::empty());
    while i < inputs.len()
        invariant
            i <= inputs@.len(),
            w.level() == d + 1,
            w.text() == t0 + inputs_xml(d + 1, inputs@.subrange(0, i as int)),
        decreases inputs.len() - i,
    {
        let input = &inputs[i];
        let default_attr = if input.default.is_some() { " default=\"true\"" } else { "" };
        let ty = input.ty.text();
        let l1 = cat("<port name=\"", escape_xml(input.name.as_str()).as_str(), "\" type=\"");
        let l2 = cat(l1.as_str(), escape_xml(ty.as_str()).as_str(), "\"");
        let l3 = cat(l2.as_str(), default_attr, "/>");
        proof { reveal_strlit(""); }
        w.line(l3.as_str());
        proof {
            let next = inputs@.subrange(0, i + 1);
            assert(next.drop_last() =~= inputs@.subrange(0, i as int));
            assert(next.last() == *input);
            assert(l3@ =~= "<port name=\""@ + ex(input.name@) + "\" type=\""@ + ex(type_text(type_v(input.ty))) + "\""@
                + (if input.default is Some { " default=\"true\""@ } else { Seq::<char>::empty() }) + "/>"@);
            assert(w.text() =~= t0 + inputs_xml(d + 1, next));
        }
        i = i + 1;
    }
    assert(inputs@.subrange(0, inputs@.len() as int) =~= inputs@);
    w.dedent();
    w.line("</inputs>");
    assert(w.text() =~= start + inputs_block_xml(d, inputs@));
}

fn emit_outputs_xml(w: &mut CodeWriter, outputs: &Vec<OutputDecl>)
    requires
        old(w).level() + 1 < usize::MAX,
    ensures
        final(w).text() == old(w).text() + outputs_block_xml(old(w).level(), outputs@),
        final(w).level() == old(w).level(),
{
    let ghost d = w.level();
    let ghost start = w.text();
    w.line("<outputs>");
    w.indent();
    let ghost t1 = w.text();
    let mut i: usize = 0;
    assert(outputs@.subrange(0, 0) =~= Seq::<OutputDecl>::empty());
    while i < outputs.len()
        invariant
            i <= outputs@.len(),
            w.level() == d + 1,
            w.text() == t1 + outputs_xml(d + 1, outputs@.subrange(0, i as int)),
        decreases outputs.len() - i,
    {
        let output = &outputs[i];
        let ty = output.ty.text();
        let l1 = cat("<port name=\"", escape_xml(output.name.as_str()).as_str(), "\" type=\"");
        let l2 = cat(l1.as_str(), escape_xml(ty.as_str()).as_str(), "\"/>");
        w.line(l2.as_str());
        proof {
            let next = outputs@.subrange(0, i + 1);
            assert(next.drop_last() =~= outputs@.subrange(0, i as int));
            assert(next.last() == *output);
            assert(w.text() =~= t1 + outputs_xml(d + 1, next));
        }
        i = i + 1;
    }
    assert(outputs@.subrange(0, outputs@.len() as int) =~= outputs@);
    w.dedent();
    w.line("</outputs>");
    assert(w.text() =~= start + outputs_block_xml(d, outputs@));
}

fn emit_meta_xml(w: &mut CodeWriter, meta: &Vec<(String, String)>)
    requires
        old(w).level() + 1 < usize::MAX,
    ensures
        final(w).text() == old(w).text() + meta_block_xml(old(w).level(), meta@),
        final(w).level() == old(w).level(),
{
    let ghost d = w.level();
    let ghost start = w.text();
    if meta.len() > 0 {
        w.line("<meta>");
        w.indent();
        let ghost t3 = w.text();
        let mut i: usize = 0;
        assert(meta@.subrange(0, 0) =~= Seq::<(String, String)>::empty());
        while i < meta.len()
            invariant
                i <= meta@.len(),
                w.level() == d + 1,
                w.text() == t3 + meta_xml(d + 1, meta@.subrange(0, i as int)),
            decreases meta.len() - i,
        {
            let kv = &meta[i];
            let l1 = cat("<entry key=\"", escape_xml(kv.0.as_str()).as_str(), "\" value=\"");
            let l2 = cat(l1.as_str(), escape_xml(kv.1.as_str()).as_str(), "\"/>");
            w.line(l2.as_str());
            proof {
                let next = meta@.subrange(0, i + 1);
                assert(next.drop_last() =~= meta@.subrange(0, i as int));
                assert(next.last() == *kv);
                assert(w.text() =~= t3 + meta_xml(d + 1, next));
            }
            i = i + 1;
        }
        assert(meta@.subrange(0, meta@.len() as int) =~= meta@);
        w.dedent();
        w.line("</meta>");
        assert(w.text() =~= start + meta_block_xml(d, meta@));
    } else {
        assert(start + meta_block_xml(d, meta@) =~= start);
    }
}

fn emit_func_xml(w: &mut CodeWriter, func: &Option<FuncDef>)
    ensures
        final(w).text() == old(w).text() + func_xml(old(w).level(), *func),
        final(w).level() == old(w).level(),
{
    match func {
        Some(func) => {
            let params = join_strings(&func.params, ", ");
            let l1 = cat("<func name=\"", escape_xml(func.name.as_str()).as_str(), "\" params=\"");
            let l2 = cat(l1.as_str(), escape_xml(params.as_str()).as_str(), "\"/>");
            assert(strs_v(func.params@) == strings_v(func.params@));
            w.line(l2.as_str());
        },
        None => {
            w.line("<func/>");
        },
    }
}

/// Writes one node as XML.
pub fn emit_node_xml(w: &mut CodeWriter, name: &str, vt: &VtFile)
    requires
        old(w).level() + 2 < usize::MAX,
    ensures
        final(w).text() == old(w).text() + node_xml(old(w).level(), name@, *vt),
        final(w).level() == old(w).level(),
{
    let ghost d = w.level();
    let ghost start = w.text();
    let kind = kind_name(vt.kind);
    let van = match &vt.van {
        Some(v) => v.clone(),
        None => String::from_str("none"),
    };
    let a = cat("<node name=\"", escape_xml(name).as_str(), "\" kind=\"");
    let b = cat(a.as_str(), escape_xml(kind.as_str()).as_str(), "\" van=\"");
    let c = cat(b.as_str(), escape_xml(van.as_str()).as_str(), "\">");
    w.line(c.as_str());
    let ghost p0 = node_open_xml(d, name@, *vt);
    assert(w.text() == start + p0);
    w.indent();
    emit_inputs_xml(w, &vt.inputs);
    emit_outputs_xml(w, &vt.outputs);
    emit_func_xml(w, &vt.func);
    emit_meta_xml(w, &vt.meta);
    w.dedent();
    w.line("</node>");
    assert(w.text() =~= start + node_xml(d, name@, *vt));
}

/// Writes the wires block.
pub fn emit_wires_xml(w: &mut CodeWriter, edges: &[(&str, &str)])
    requires
        old(w).level() + 1 < usize::MAX,
    ensures
        final(w).text() == old(w).text() + wires_xml(old(w).level(), edges@),
        final(w).level() == old(w).level(),
{
    let ghost d = w.level();
    let ghost start = w.text();
    if edges.len() > 0 {
        w.line("<wires>");
        w.indent();
        let ghost t0 = w.text();
        let mut i: usize = 0;
        assert(edges@.subrange(0, 0) =~= Seq::<(&str, &str)>::empty());
        while i < edges.len()
            invariant
                i <= edges@.len(),
                w.level() == d + 1,
                w.text() == t0 + wire_lines_xml(d + 1, edges@.subrange(0, i as int)),
            decreases edges.len() - i,
        {
            let (from, to) = edges[i];
            let l1 = cat("<wire from=\"", escape_xml(from).as_str(), "\" to=\"");
            let l2 = cat(l1.as_str(), escape_xml(to).as_str(), "\"/>");
            w.line(l2.as_str());
            proof {
                let next = edges@.subrange(0, i + 1);
                assert(next.drop_last() =~= edges@.subrange(0, i as int));
                assert(next.last() == edges@[i as int]);
                assert(w.text() =~= t0 + wire_lines_xml(d + 1, next));
            }
            i = i + 1;
        }
        assert(edges@.subrange(0, edges@.len() as int) =~= edges@);
        w.dedent();
        w.line("</wires>");
        assert(w.text() =~= start + wires_xml(d, edges@));
    } else {
        assert(start + wires_xml(d, edges@) =~= start);
    }
}


// ---- HTML ----

pub open spec fn eh(s: Seq<char>) -> Seq<char> {
    escape_html_spec(s)
}

pub open spec fn input_row_html(d: nat, i: InputDecl) -> Seq<char> {
    line_text(d, "<tr><td>"@ + eh(i.name@) + "</td><td>"@ + eh(type_text(type_v(i.ty))) + "</td><td>input</td></tr>"@)
}

pub open spec fn output_row_html(d: nat, o: OutputDecl) -> Seq<char> {
    line_text(d, "<tr><td>"@ + eh(o.name@) + "</td><td>"@ + eh(type_text(type_v(o.ty))) + "</td><td>output</td></tr>"@)
}

pub open spec fn input_rows_html(d: nat, s: Seq<InputDecl>) -> Seq<char>
    decreases s.len(),
{
    if s.len() == 0 { seq![] } else { input_rows_html(d, s.drop_last()) + input_row_html(d, s.last()) }
}

pub open spec fn output_rows_html(d: nat, s: Seq<OutputDecl>) -> Seq<char>
    decreases s.len(),
{
    if s.len() == 0 { seq![] } else { output_rows_html(d, s.drop_last()) + output_row_html(d, s.last()) }
}

pub open spec fn table_head() -> Seq<char> {
    "<thead><tr><th>Port</th><th>Type</th><th>Direction</th></tr></thead>"@
}

/// The table of ports, at level `d`; nothing where there are none.
pub open spec fn ports_html(d: nat, vt: VtFile) -> Seq<char> {
    if vt.inputs@.len() > 0 || vt.outputs@.len() > 0 {
        line_text(d, "<table>"@) + line_text(d + 1, table_head()) + line_text(d + 1, "<tbody>"@)
            + input_rows_html(d + 2, vt.inputs@) + output_rows_html(d + 2, vt.outputs@)
            + line_text(d + 1, "</tbody>"@) + line_text(d, "</table>"@)
    } else {
        Seq::<char>::empty()
    }
}

/// The logic block of a function, at level `d`.
pub open spec fn logic_html(d: nat, f: Option<FuncDef>) -> Seq<char> {
    match f {
        Some(f) => line_text(d, "<h3>Logic</h3>"@) + line_text(d, "<pre>"@)
            + "func "@ + eh(f.name@) + "():\n"@ + "  [function body]\n"@ + line_text(d, "</pre>"@),
        None => Seq::<char>::empty(),
    }
}

/// The HTML section of one node, opening at level `d`.
pub open spec fn node_html(d: nat, name: Seq<char>, vt: VtFile) -> Seq<char> {
    line_text(d, "<section class=\"node\" id=\""@ + eh(name) + "\">"@)
        + line_text(d + 1, "<h2>"@ + eh(name) + " <span class=\"kind\">"@ + eh(kind_text(vt.kind)) + "</span></h2>"@)
        + ports_html(d + 1, vt)
        + logic_html(d + 1, vt.func)
        + line_text(d, "</section>"@)
}

/// The style sheet of the overview.
pub open spec fn css_text() -> Seq<char> {
    "
body { font-family: monospace; margin: 2em; color: #333; background: #f9f9f9; }
h1 { border-bottom: 2px solid #0066cc; padding-bottom: 0.5em; }
h2 { margin-top: 1.5em; color: #0066cc; }
section { margin: 2em 0; padding: 1em; background: white; border: 1px solid #ddd; border-radius: 4px; }
table { border-collapse: collapse; width: 100%; }
th, td { border: 1px solid #ddd; padding: 0.5em; text-align: left; }
th { background: #f0f0f0; font-weight: bold; }
pre { background: #f5f5f5; padding: 1em; overflow-x: auto; border-left: 3px solid #0066cc; }
.kind { background: #e3f2fd; padding: 0.2em 0.5em; border-radius: 3px; font-size: 0.9em; }
a { color: #0066cc; text-decoration: none; }
a:hover { text-decoration: underline; }
ul { list-style: none; padding: 0; }
li { padding: 0.5em 0; }
"@
}



/// Writes the style sheet.
pub fn emit_css(w: &mut CodeWriter)
    ensures
        final(w).text() == old(w).text() + css_text(),
        final(w).level() == old(w).level(),
{
    w.raw("
body { font-family: monospace; margin: 2em; color: #333; background: #f9f9f9; }
h1 { border-bottom: 2px solid #0066cc; padding-bottom: 0.5em; }
h2 { margin-top: 1.5em; color: #0066cc; }
section { margin: 2em 0; padding: 1em; background: white; border: 1px solid #ddd; border-radius: 4px; }
table { border-collapse: collapse; width: 100%; }
th, td { border: 1px solid #ddd; padding: 0.5em; text-align: left; }
th { background: #f0f0f0; font-weight: bold; }
pre { background: #f5f5f5; padding: 1em; overflow-x: auto; border-left: 3px solid #0066cc; }
.kind { background: #e3f2fd; padding: 0.2em 0.5em; border-radius: 3px; font-size: 0.9em; }
a { color: #0066cc; text-decoration: none; }
a:hover { text-decoration: underline; }
ul { list-style: none; padding: 0; }
li { padding: 0.5em 0; }
");
}

#[verifier::rlimit(60)]
fn emit_ports_html(w: &mut CodeWriter, vt: &VtFile)
    requires
        old(w).level() + 2 < usize::MAX,
    ensures
        final(w).text() == old(w).text() + ports_html(old(w).level(), *vt),
        final(w).level() == old(w).level(),
{
    let ghost d = w.level();
    let ghost start = w.text();
    if vt.inputs.len() > 0 || vt.outputs.len() > 0 {
        w.line("<table>");
        w.indent();
        w.line("<thead><tr><th>Port</th><th>Type</th><th>Direction</th></tr></thead>");
        w.line("<tbody>");
        w.indent();
        let ghost t1 = w.text();
        let mut i: usize = 0;
        assert(vt.inputs@.subrange(0, 0) =~= Seq::<InputDecl>::empty());
        while i < vt.inputs.len()
            invariant
                i <= vt.inputs@.len(),
                w.level() == d + 2,
                w.text() == t1 + input_rows_html(d + 2, vt.inputs@.subrange(0, i as int)),
            decreases vt.inputs.len() - i,
        {
            let input = &vt.inputs[i];
            let ty = input.ty.text();
            let r1 = cat("<tr><td>", escape_html(input.name.as_str()).as_str(), "</td><td>");
            let r2 = cat(r1.as_str(), escape_html(ty.as_str()).as_str(), "</td><td>input</td></tr>");
            w.line(r2.as_str());
            proof {
                let next = vt.inputs@.subrange(0, i + 1);
                assert(next.drop_last() =~= vt.inputs@.subrange(0, i as int));
                assert(next.last() == *input);
                assert(w.text() =~= t1 + input_rows_html(d + 2, next));
            }
            i = i + 1;
        }
        assert(vt.inputs@.subrange(0, vt.inputs@.len() as int) =~= vt.inputs@);
        let ghost t2 = w.text();
        let mut i: usize = 0;
        assert(vt.outputs@.subrange(0, 0) =~= Seq::<OutputDecl>::empty());
        while i < vt.outputs.len()
            invariant
                i <= vt.outputs@.len(),
                w.level() == d + 2,
                w.text() == t2 + output_rows_html(d + 2, vt.outputs@.subrange(0, i as int)),
            decreases vt.outputs.len() - i,
        {
            let output = &vt.outputs[i];
            let ty = output.ty.text();
            let r1 = cat("<tr><td>", escape_html(output.name.as_str()).as_str(), "</td><td>");
            let r2 = cat(r1.as_str(), escape_html(ty.as_str()).as_str(), "</td><td>output</td></tr>");
            w.line(r2.as_str());
            proof {
                let next = vt.outputs@.subrange(0, i + 1);
                assert(next.drop_last() =~= vt.outputs@.subrange(0, i as int));
                assert(next.last() == *output);
                assert(w.text() =~= t2 + output_rows_html(d + 2, next));
            }
            i = i + 1;
        }
        assert(vt.outputs@.subrange(0, vt.outputs@.len() as int) =~= vt.outputs@);
        w.dedent();
        w.line("</tbody>");
        w.dedent();
        w.line("</table>");
        assert(w.text() =~= start + ports_html(d, *vt));
    } else {
        assert(start + ports_html(d, *vt) =~= start);
    }
}

/// Writes one node as an HTML section.
pub fn emit_node_html(w: &mut CodeWriter, name: &str, vt: &VtFile)
    requires
        old(w).level() + 3 < usize::MAX,
    ensures
        final(w).text() == old(w).text() + node_html(old(w).level(), name@, *vt),
        final(w).level() == old(w).level(),
{
    let ghost d = w.level();
    let ghost start = w.text();
    let kind = kind_name(vt.kind);
    let safe_name = escape_html(name);
    let l0 = cat("<section class=\"node\" id=\"", safe_name.as_str(), "\">");
    w.line(l0.as_str());
    w.indent();
    let h1 = cat("<h2>", safe_name.as_str(), " <span class=\"kind\">");
    let h2 = cat(h1.as_str(), escape_html(kind.as_str()).as_str(), "</span></h2>");
    w.line(h2.as_str());
    let ghost t0 = w.text();
    emit_ports_html(w, vt);
    let ghost t1 = w.text();
    match &vt.func {
        Some(func) => {
            w.line("<h3>Logic</h3>");
            w.line("<pre>");
            let f1 = cat("func ", escape_html(func.name.as_str()).as_str(), "():\n");
            w.raw(f1.as_str());
            w.raw("  [function body]\n");
            w.line("</pre>");
            assert(w.text() =~= t1 + logic_html(d + 1, vt.func));
        },
        None => {
            assert(w.text() =~= t1 + logic_html(d + 1, vt.func));
        },
    }
    w.dedent();
    w.line("</section>");
    assert(w.text() =~= start + node_html(d, name@, *vt));
}

/// The nodes (in topological order) and wires that the emitters write.
pub struct DagContext<'a> {
    pub nodes: Vec<(&'a str, &'a VtFile)>,
    pub edges: Vec<(&'a str, &'a str)>,
}

/// The sources of the edges into `name`, in edge order.
pub open spec fn deps_spec(edges: Seq<(&str, &str)>, name: Seq<char>) -> Seq<Seq<char>>
    decreases edges.len(),
{
    if edges.len() == 0 {
        seq![]
    } else {
        let pre = deps_spec(edges.drop_last(), name);
        if edges.last().1@ == name { pre.push(edges.last().0@) } else { pre }
    }
}

impl<'a> DagContext<'a> {
    /// The nodes that must run before `name`: the sources of its edges.
    pub fn deps_of(&self, name: &str) -> (r: Vec<&'a str>)
        ensures
            r@.map_values(|s: &str| s@) == deps_spec(self.edges@, name@),
    {
        let mut out: Vec<&'a str> = Vec::new();
        let mut i: usize = 0;
        assert(self.edges@.subrange(0, 0) =~= Seq::<(&str, &str)>::empty());
        while i < self.edges.len()
            invariant
                i <= self.edges@.len(),
                out@.map_values(|s: &str| s@) == deps_spec(self.edges@.subrange(0, i as int), name@),
            decreases self.edges.len() - i,
        {
            let (from, to) = self.edges[i];
            let ghost before = out@;
            proof {
                let next = self.edges@.subrange(0, i + 1);
                assert(next.drop_last() =~= self.edges@.subrange(0, i as int));
                assert(next.last() == self.edges@[i as int]);
            }
            if str_eq(to, name) {
                out.push(from);
                assert(out@.map_values(|s: &str| s@) =~= before.map_values(|s: &str| s@).push(from@));
            }
            i = i + 1;
        }
        assert(self.edges@.subrange(0, self.edges@.len() as int) =~= self.edges@);
        out
    }
}


/// The nodes, one after another, at level `d`.
pub open spec fn nodes_xml(d: nat, s: Seq<(&str, &VtFile)>) -> Seq<char>
    decreases s.len(),
{
    if s.len() == 0 { seq![] } else { nodes_xml(d, s.drop_last()) + node_xml(d, s.last().0@, *s.last().1) }
}

pub open spec fn nodes_html(d: nat, s: Seq<(&str, &VtFile)>) -> Seq<char>
    decreases s.len(),
{
    if s.len() == 0 { seq![] } else { nodes_html(d, s.drop_last()) + node_html(d, s.last().0@, *s.last().1) }
}

/// The whole XML document.
pub open spec fn xml_doc(nodes: Seq<(&str, &VtFile)>, edges: Seq<(&str, &str)>) -> Seq<char> {
    line_text(0, "<?xml version=\"1.0\" encoding=\"UTF-8\"?>"@) + line_text(0, "<dag>"@)
        + nodes_xml(1, nodes) + wires_xml(1, edges) + line_text(0, "</dag>"@)
}

pub open spec fn li_html(d: nat, e: (&str, &str)) -> Seq<char> {
    line_text(d, "<li><a href=\"#"@ + e.0@ + "\">"@ + e.0@ + "</a> \u{2192} <a href=\"#"@ + e.1@ + "\">"@ + e.1@ + "</a></li>"@)
}

pub open spec fn lis_html(d: nat, s: Seq<(&str, &str)>) -> Seq<char>
    decreases s.len(),
{
    if s.len() == 0 { seq![] } else { lis_html(d, s.drop_last()) + li_html(d, s.last()) }
}

/// The data-flow section at level `d`; nothing where there are no edges.
pub open spec fn wires_html(d: nat, s: Seq<(&str, &str)>) -> Seq<char> {
    if s.len() == 0 {
        seq![]
    } else {
        line_text(d, "<section id=\"wires\">"@) + line_text(d + 1, "<h2>Data Flow</h2>"@) + line_text(d + 1, "<ul>"@)
            + lis_html(d + 2, s) + line_text(d + 1, "</ul>"@) + line_text(d, "</section>"@)
    }
}

pub open spec fn html_head() -> Seq<char> {
    line_text(0, "<!DOCTYPE html>"@) + line_text(0, "<html lang=\"en\">"@) + line_text(0, "<head>"@)
        + line_text(1, "<meta charset=\"UTF-8\">"@) + line_text(1, "<title>Venturi DAG</title>"@)
        + line_text(1, "<style>"@) + css_text() + line_text(1, "</style>"@) + line_text(0, "</head>"@)
}

/// The whole HTML document.
pub open spec fn html_doc(nodes: Seq<(&str, &VtFile)>, edges: Seq<(&str, &str)>) -> Seq<char> {
    html_head() + line_text(0, "<body>"@) + line_text(1, "<h1>Venturi DAG Overview</h1>"@)
        + nodes_html(1, nodes) + wires_html(1, edges) + line_text(0, "</body>"@) + line_text(0, "</html>"@)
}

/// `r` is one file with this name and content.
pub open spec fn one_file(r: Result<Vec<(String, String)>, VenturiError>, name: Seq<char>, content: Seq<char>) -> bool {
    match r {
        Ok(files) => files@.len() == 1 && files@[0].0@ == name && files@[0].1@ == content,
        Err(_) => false,
    }
}

/// A backend that writes the DAG out as files (name, content).
pub trait Emitter {
    fn emit(&self, ctx: &DagContext<'_>) -> Result<Vec<(String, String)>, VenturiError>;
}

pub struct XmlEmitter;

pub struct HtmlEmitter;

fn emit_nodes_xml(w: &mut CodeWriter, nodes: &Vec<(&str, &VtFile)>)
    requires
        old(w).level() + 2 < usize::MAX,
    ensures
        final(w).text() == old(w).text() + nodes_xml(old(w).level(), nodes@),
        final(w).level() == old(w).level(),
{
    let ghost d = w.level();
    let ghost start = w.text();
    let mut i: usize = 0;
    assert(nodes@.subrange(0, 0) =~= Seq::<(&str, &VtFile)>::empty());
    while i < nodes.len()
        invariant
            i <= nodes@.len(),
            w.level() == d,
            d + 2 < usize::MAX,
            w.text() == start + nodes_xml(d, nodes@.subrange(0, i as int)),
        decreases nodes.len() - i,
    {
        let (name, vt) = nodes[i];
        emit_node_xml(w, name, vt);
        proof {
            let next = nodes@.subrange(0, i + 1);
            assert(next.drop_last() =~= nodes@.subrange(0, i as int));
            assert(next.last() == nodes@[i as int]);
            assert(w.text() =~= start + nodes_xml(d, next));
        }
        i = i + 1;
    }
    assert(nodes@.subrange(0, nodes@.len() as int) =~= nodes@);
}

fn emit_nodes_html(w: &mut CodeWriter, nodes: &Vec<(&str, &VtFile)>)
    requires
        old(w).level() + 3 < usize::MAX,
    ensures
        final(w).text() == old(w).text() + nodes_html(old(w).level(), nodes@),
        final(w).level() == old(w).level(),
{
    let ghost d = w.level();
    let ghost start = w.text();
    let mut i: usize = 0;
    assert(nodes@.subrange(0, 0) =~= Seq::<(&str, &VtFile)>::empty());
    while i < nodes.len()
        invariant
            i <= nodes@.len(),
            w.level() == d,
            d + 3 < usize::MAX,
            w.text() == start + nodes_html(d, nodes@.subrange(0, i as int)),
        decreases nodes.len() - i,
    {
        let (name, vt) = nodes[i];
        emit_node_html(w, name, vt);
        proof {
            let next = nodes@.subrange(0, i + 1);
            assert(next.drop_last() =~= nodes@.subrange(0, i as int));
            assert(next.last() == nodes@[i as int]);
            assert(w.text() =~= start + nodes_html(d, next));
        }
        i = i + 1;
    }
    assert(nodes@.subrange(0, nodes@.len() as int) =~= nodes@);
}

fn emit_wires_html(w: &mut CodeWriter, edges: &Vec<(&str, &str)>)
    requires
        old(w).level() + 2 < usize::MAX,
    ensures
        final(w).text() == old(w).text() + wires_html(old(w).level(), edges@),
        final(w).level() == old(w).level(),
{
    let ghost d = w.level();
    let ghost start = w.text();
    if edges.len() > 0 {
        w.line("<section id=\"wires\">");
        w.indent();
        w.line("<h2>Data Flow</h2>");
        w.line("<ul>");
        w.indent();
        let ghost t0 = w.text();
        let mut i: usize = 0;
        assert(edges@.subrange(0, 0) =~= Seq::<(&str, &str)>::empty());
        while i < edges.len()
            invariant
                i <= edges@.len(),
                w.level() == d + 2,
                w.text() == t0 + lis_html(d + 2, edges@.subrange(0, i as int)),
            decreases edges.len() - i,
        {
            let (from, to) = edges[i];
            let a = cat("<li><a href=\"#", from, "\">");
            let b = cat(a.as_str(), from, "</a> \u{2192} <a href=\"#");
            let c = cat(b.as_str(), to, "\">");
            let e = cat(c.as_str(), to, "</a></li>");
            w.line(e.as_str());
            proof {
                let next = edges@.subrange(0, i + 1);
                assert(next.drop_last() =~= edges@.subrange(0, i as int));
                assert(next.last() == edges@[i as int]);
                assert(w.text() =~= t0 + lis_html(d + 2, next));
            }
            i = i + 1;
        }
        assert(edges@.subrange(0, edges@.len() as int) =~= edges@);
        w.dedent();
        w.line("</ul>");
        w.dedent();
        w.line("</section>");
        assert(w.text() =~= start + wires_html(d, edges@));
    } else {
        assert(start + wires_html(d, edges@) =~= start);
    }
}

/// One file, `dag.xml`.
pub fn emit_xml(ctx: &DagContext<'_>) -> (r: Result<Vec<(String, String)>, VenturiError>)
ensures
        one_file(r, "dag.xml"@, xml_doc(ctx.nodes@, ctx.edges@)),
{
    let mut w = CodeWriter::new(0);
    w.line("<?xml version=\"1.0\" encoding=\"UTF-8\"?>");
    w.line("<dag>");
    w.indent();
    emit_nodes_xml(&mut w, &ctx.nodes);
    emit_wires_xml(&mut w, ctx.edges.as_slice());
    w.dedent();
    w.line("</dag>");
    assert(w.text() =~= xml_doc(ctx.nodes@, ctx.edges@));
    let mut files: Vec<(String, String)> = Vec::new();
    files.push((String::from_str("dag.xml"), w.into_string()));
    Ok(files)
}

impl Emitter for XmlEmitter {
    fn emit(&self, ctx: &DagContext<'_>) -> (r: Result<Vec<(String, String)>, VenturiError>)
        ensures
            one_file(r, "dag.xml"@, xml_doc(ctx.nodes@, ctx.edges@)),
    {
        emit_xml(ctx)
    }
}

/// One file, `index.html`.
pub fn emit_html(ctx: &DagContext<'_>) -> (r: Result<Vec<(String, String)>, VenturiError>)
ensures
        one_file(r, "index.html"@, html_doc(ctx.nodes@, ctx.edges@)),
{
    let mut w = CodeWriter::new(0);
    w.line("<!DOCTYPE html>");
    w.line("<html lang=\"en\">");
    w.line("<head>");
    w.indent();
    w.line("<meta charset=\"UTF-8\">");
    w.line("<title>Venturi DAG</title>");
    w.line("<style>");
    emit_css(&mut w);
    w.line("</style>");
    w.dedent();
    w.line("</head>");
    assert(w.text() =~= html_head());
    w.line("<body>");
    w.indent();
    w.line("<h1>Venturi DAG Overview</h1>");
    emit_nodes_html(&mut w, &ctx.nodes);
    emit_wires_html(&mut w, &ctx.edges);
    w.dedent();
    w.line("</body>");
    w.line("</html>");
    assert(w.text() =~= html_doc(ctx.nodes@, ctx.edges@));
    let mut files: Vec<(String, String)> = Vec::new();
    files.push((String::from_str("index.html"), w.into_string()));
    Ok(files)
}

impl Emitter for HtmlEmitter {
    fn emit(&self, ctx: &DagContext<'_>) -> (r: Result<Vec<(String, String)>, VenturiError>)
        ensures
            one_file(r, "index.html"@, html_doc(ctx.nodes@, ctx.edges@)),
    {
        emit_html(ctx)
    }
}

/// The text of the error for a format no emitter writes.
pub open spec fn unknown_format_text(f: Seq<char>) -> Seq<char> {
    "unknown format '"@ + f + "': choose xml, html, or react"@
}

/// Writes the DAG in the given format: `xml` or `html`; any other format is
/// refused. `react` is refused too: a React emitter is named among the
/// formats (and the error text still offers it), but its source is not part
/// of this project, so there is nothing to emit it with.
pub fn emit_dag(ctx: &DagContext<'_>, format: &str) -> (r: Result<Vec<(String, String)>, VenturiError>)
    ensures
        format@ == "xml"@ ==> one_file(r, "dag.xml"@, xml_doc(ctx.nodes@, ctx.edges@)),
        format@ == "html"@ ==> one_file(r, "index.html"@, html_doc(ctx.nodes@, ctx.edges@)),
        format@ != "xml"@ && format@ != "html"@ ==> crate::error::err_is(r, ErrV::Codegen(unknown_format_text(format@))),
{
    proof {
        reveal_strlit("xml");
        reveal_strlit("html");
        assert("html"@ != "xml"@) by {
            assert("html"@.len() != "xml"@.len());
        }
    }
    if str_eq(format, "xml") {
        emit_xml(ctx)
    } else if str_eq(format, "html") {
        emit_html(ctx)
    } else {
        let a = concat("unknown format '", format);
        Err(VenturiError::Codegen(concat(a.as_str(), "': choose xml, html, or react")))
    }
}

/// `s` ends with `suffix`.
pub open spec fn ends_with(s: Seq<char>, suffix: Seq<char>) -> bool {
    s.len() >= suffix.len() && s.subrange(s.len() - suffix.len(), s.len() as int) == suffix
}

/// In the HTML ports table the last cell of a row, the direction, reads
/// `output` for an output port and `input` for an input port, so a row
/// for an input is never the row for an output, whatever the names, types
/// and levels.
pub proof fn lemma_port_rows_show_direction(d: nat, e: nat, i: InputDecl, o: OutputDecl)
    ensures
        ends_with(output_row_html(d, o), "<td>output</td></tr>\n"@),
        ends_with(input_row_html(e, i), "<td>input</td></tr>\n"@),
        input_row_html(e, i) != output_row_html(d, o),
{
    reveal(line_text);
    reveal_strlit("<td>output</td></tr>\n");
    reveal_strlit("<td>input</td></tr>\n");
    reveal_strlit("</td><td>output</td></tr>");
    reveal_strlit("</td><td>input</td></tr>");
    reveal_strlit("\n");
    let so = "<td>output</td></tr>\n"@;
    let si = "<td>input</td></tr>\n"@;
    let ro = output_row_html(d, o);
    let ri = input_row_html(e, i);
    let po = spaces(d) + "<tr><td>"@ + eh(o.name@) + "</td><td>"@ + eh(type_text(type_v(o.ty)));
    let pi = spaces(e) + "<tr><td>"@ + eh(i.name@) + "</td><td>"@ + eh(type_text(type_v(i.ty)));
    assert(ro =~= po + "</td><td>output</td></tr>"@ + "\n"@);
    assert(ri =~= pi + "</td><td>input</td></tr>"@ + "\n"@);
    assert(ro.subrange(ro.len() - so.len(), ro.len() as int) =~= so);
    assert(ri.subrange(ri.len() - si.len(), ri.len() as int) =~= si);
    if ri == ro {
        assert(ri[ri.len() - 15] == 'n');
        assert(ro[ro.len() - 15] == 't');
    }
}

} // verus!
