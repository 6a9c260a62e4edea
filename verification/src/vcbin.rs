//! The `.vcbin` container: a compiled chassis with its metadata, interface,
//! permissions, graph and bytecode, framed in length-prefixed sections and
//! sealed with a SHA-256 hash.

use vstd::prelude::*;
use crate::bytecode::Instruction;
use crate::error::{ErrV, VenturiError};

verus! {

#[derive(Clone, Debug)]
pub struct VcBinMeta {
    pub name: String,
    pub version: String,
    pub timestamp: u64,
    /// `plane` or `vortex`.
    pub mode: String,
}

#[derive(Clone, Debug)]
pub struct PortDef {
    pub name: String,
    pub ty: String,
}

#[derive(Clone, Debug)]
pub struct VcBinInterface {
    pub inputs: Vec<PortDef>,
    pub outputs: Vec<PortDef>,
}

#[derive(Clone, Debug)]
pub struct VcBinPermissions {
    pub allowed_vans: Vec<String>,
}

#[derive(Clone, Debug)]
pub struct GraphEdge {
    pub from: String,
    pub to: String,
}

#[derive(Clone, Debug)]
pub struct VcBinGraph {
    pub nodes: Vec<String>,
    pub edges: Vec<GraphEdge>,
    pub entry: String,
    pub exit: String,
}

#[derive(Clone, Debug)]
pub struct VcBin {
    pub metadata: VcBinMeta,
    pub interface: VcBinInterface,
    pub permissions: VcBinPermissions,
    pub graph: VcBinGraph,
    pub bytecode: Vec<Instruction>,
    pub hash: [u8; 32],
}


// ---- byte-level layout ----

/// `VCBN`, the first four bytes of every file.
pub open spec fn magic() -> Seq<u8> {
    seq![0x56u8, 0x43u8, 0x42u8, 0x4eu8]
}

/// The format version, 1, as two little-endian bytes.
pub open spec fn version_bytes() -> Seq<u8> {
    seq![1u8, 0u8]
}

pub open spec fn pow256(n: nat) -> nat
    decreases n,
{
    if n == 0 { 1 } else { 256 * pow256((n - 1) as nat) }
}

/// The number little-endian bytes stand for.
pub open spec fn le_value(b: Seq<u8>) -> nat
    decreases b.len(),
{
    if b.len() == 0 { 0 } else { (b[0] as nat) + 256 * le_value(b.subrange(1, b.len() as int)) }
}

/// The `n` little-endian bytes of `v` (taken modulo `256^n`).
pub open spec fn le_bytes(v: nat, n: nat) -> Seq<u8>
    decreases n,
{
    if n == 0 { seq![] } else { seq![(v % 256) as u8] + le_bytes(v / 256, (n - 1) as nat) }
}

/// All the sections one after another.
pub open spec fn flatten(secs: Seq<Seq<u8>>) -> Seq<u8>
    decreases secs.len(),
{
    if secs.len() == 0 { seq![] } else { flatten(secs.drop_last()) + secs.last() }
}

/// Each section behind its length as eight little-endian bytes.
pub open spec fn framed(secs: Seq<Seq<u8>>) -> Seq<u8>
    decreases secs.len(),
{
    if secs.len() == 0 {
        seq![]
    } else {
        le_bytes(secs[0].len(), 8) + secs[0] + framed(secs.subrange(1, secs.len() as int))
    }
}

/// A file: magic, version, flags (0), the framed sections, the hash.
pub open spec fn encoded(secs: Seq<Seq<u8>>, hash: Seq<u8>) -> Seq<u8> {
    magic() + version_bytes() + seq![0u8, 0u8] + framed(secs) + hash
}

/// What the hash is taken over: magic, version, then the sections with no
/// framing.
pub open spec fn hash_preimage(secs: Seq<Seq<u8>>) -> Seq<u8> {
    magic() + version_bytes() + flatten(secs)
}

/// The views of some byte vectors.
pub open spec fn bytes_v(v: Seq<Vec<u8>>) -> Seq<Seq<u8>> {
    v.map_values(|b: Vec<u8>| b@)
}

/// How many sections a file holds: metadata, interface, permissions,
/// graph, bytecode.
pub const SECTION_COUNT: usize = 5;

/// Reading `k` sections from `pos`: the sections read, the failure that
/// stopped the reading (if any), and where the reading ended.
pub open spec fn read_sections(buf: Seq<u8>, pos: int, k: nat) -> (Seq<Seq<u8>>, Option<ErrV>, int)
    decreases k,
{
    if k == 0 {
        (seq![], None, pos)
    } else if buf.len() - pos < 8 {
        (seq![], Some(ErrV::VcBin("Section truncated"@)), pos)
    } else {
        let len = le_value(buf.subrange(pos, pos + 8));
        if buf.len() - pos < 8 + len {
            (seq![], Some(ErrV::VcBin("Section data truncated"@)), pos)
        } else {
            let (rest, f, end) = read_sections(buf, pos + 8 + len, (k - 1) as nat);
            (seq![buf.subrange(pos + 8, pos + 8 + len)] + rest, f, end)
        }
    }
}

/// What a file decodes to: the sections read in order, the failure that
/// stopped the reading (if any), and the hash (32 zero bytes where the file
/// ends before it, or where the reading failed).
pub struct FramesV {
    pub sections: Seq<Seq<u8>>,
    pub failure: Option<ErrV>,
    pub hash: Seq<u8>,
}

pub open spec fn zero_hash() -> Seq<u8> {
    Seq::new(32, |i: int| 0u8)
}

pub open spec fn decode_v(buf: Seq<u8>) -> FramesV {
    if buf.len() < 8 {
        FramesV { sections: seq![], failure: Some(ErrV::VcBin("File too short"@)), hash: zero_hash() }
    } else if buf.subrange(0, 4) != magic() {
        FramesV { sections: seq![], failure: Some(ErrV::VcBin("Invalid magic bytes"@)), hash: zero_hash() }
    } else {
        let (secs, f, end) = read_sections(buf, 8, SECTION_COUNT as nat);
        FramesV {
            sections: secs,
            failure: f,
            hash: if f is None && end + 32 <= buf.len() { buf.subrange(end, end + 32) } else { zero_hash() },
        }
    }
}

/// The sections of a file and how their reading ended.
pub struct Frames {
    pub sections: Vec<Vec<u8>>,
    pub failure: Option<VenturiError>,
    pub hash: [u8; 32],
}

pub open spec fn frames_v(f: Frames) -> FramesV {
    FramesV {
        sections: bytes_v(f.sections@),
        failure: match f.failure { Some(e) => Some(e@), None => None },
        hash: f.hash@,
    }
}

proof fn lemma_le_bytes(v: nat, n: nat)
    requires
        v < pow256(n),
    ensures
        le_bytes(v, n).len() == n,
        le_value(le_bytes(v, n)) == v,
    decreases n,
{
    if n > 0 {
        lemma_le_bytes(v / 256, (n - 1) as nat);
        let b = le_bytes(v, n);
        assert(b.subrange(1, b.len() as int) =~= le_bytes(v / 256, (n - 1) as nat));
    }
}

proof fn lemma_le_value_bound(b: Seq<u8>)
    ensures
        le_value(b) < pow256(b.len()),
    decreases b.len(),
{
    if b.len() > 0 {
        lemma_le_value_bound(b.subrange(1, b.len() as int));
    }
}

/// The 8 little-endian bytes of `v`.
fn u64_le(v: u64) -> (r: Vec<u8>)
    ensures
        r@ == le_bytes(v as nat, 8),
{
    let mut out: Vec<u8> = Vec::new();
    let mut rest = v;
    let mut i: usize = 0;
    while i < 8
        invariant
            i <= 8,
            out@ + le_bytes(rest as nat, (8 - i) as nat) == le_bytes(v as nat, 8),
        decreases 8 - i,
    {
        let ghost before = out@;
        out.push((rest % 256) as u8);
        proof {
            assert(le_bytes(rest as nat, (8 - i) as nat) == seq![(rest % 256) as u8] + le_bytes((rest / 256) as nat, (8 - i - 1) as nat));
            assert(out@ + le_bytes((rest / 256) as nat, (8 - i - 1) as nat) =~= before + le_bytes(rest as nat, (8 - i) as nat));
        }
        rest = rest / 256;
        i = i + 1;
    }
    assert(out@ + le_bytes(rest as nat, 0) =~= out@);
    out
}

/// The number held by 8 little-endian bytes of `buf` at `pos`.
fn read_u64_le(buf: &[u8], pos: usize) -> (r: u64)
    requires
        pos + 8 <= buf@.len(),
    ensures
        r == le_value(buf@.subrange(pos as int, pos + 8)),
{
    let n = buf.len();
    let mut v: u64 = 0;
    let mut i: usize = 8;
    proof { assert(buf@.subrange(pos + 8, pos + 8) =~= Seq::<u8>::empty()); }
    while i > 0
        invariant
            i <= 8,
            pos + 8 <= buf@.len(),
            n == buf@.len(),
            v == le_value(buf@.subrange(pos + i, pos + 8)),
        decreases i,
    {
        i = i - 1;
        let ghost tail = buf@.subrange(pos + i + 1, pos + 8);
        let ghost here = buf@.subrange(pos + i, pos + 8);
        proof {
            assert(here.subrange(1, here.len() as int) =~= tail);
            lemma_le_value_bound(tail);
            assert(pow256(tail.len()) <= pow256(7)) by {
                lemma_pow256_mono(tail.len(), 7);
            }
            assert(pow256(7) == 72057594037927936nat) by { reveal_with_fuel(pow256, 8); }
        }
        v = buf[pos + i] as u64 + 256 * v;
    }
    v
}

proof fn lemma_pow256_mono(a: nat, b: nat)
    requires
        a <= b,
    ensures
        pow256(a) <= pow256(b),
    decreases b,
{
    if a < b {
        lemma_pow256_mono(a, (b - 1) as nat);
    }
}


proof fn lemma_framed_push(secs: Seq<Seq<u8>>, x: Seq<u8>)
    ensures
        framed(secs.push(x)) == framed(secs) + le_bytes(x.len(), 8) + x,
    decreases secs.len(),
{
    if secs.len() == 0 {
        assert(secs.push(x).subrange(1, 1) =~= Seq::<Seq<u8>>::empty());
        assert(secs.push(x)[0] == x);
        assert(framed(Seq::<Seq<u8>>::empty()) == Seq::<u8>::empty());
        assert(framed(secs) == Seq::<u8>::empty());
        assert(framed(secs.push(x)) =~= framed(secs) + le_bytes(x.len(), 8) + x);
    } else {
        let t = secs.subrange(1, secs.len() as int);
        lemma_framed_push(t, x);
        assert(secs.push(x).subrange(1, secs.len() + 1int) =~= t.push(x));
        assert(framed(secs.push(x)) =~= framed(secs) + le_bytes(x.len(), 8) + x);
    }
}

/// Reading sections framed as `framed` gives them back.
proof fn lemma_read_framed(pre: Seq<u8>, secs: Seq<Seq<u8>>, tail: Seq<u8>)
    requires
        forall|i: int| 0 <= i < secs.len() ==> (#[trigger] secs[i]).len() < pow256(8),
    ensures
        read_sections(pre + framed(secs) + tail, pre.len() as int, secs.len())
            == (secs, None::<ErrV>, (pre.len() + framed(secs).len()) as int),
    decreases secs.len(),
{
    let buf = pre + framed(secs) + tail;
    let p = pre.len() as int;
    if secs.len() == 0 {
        assert(secs =~= Seq::<Seq<u8>>::empty());
    } else {
        let s0 = secs[0];
        let rest = secs.subrange(1, secs.len() as int);
        let hdr = le_bytes(s0.len(), 8);
        lemma_le_bytes(s0.len(), 8);
        assert(buf.subrange(p, p + 8) =~= hdr);
        assert(buf.subrange(p + 8, p + 8 + s0.len()) =~= s0);
        let pre2 = pre + hdr + s0;
        assert(buf =~= pre2 + framed(rest) + tail);
        assert forall|i: int| 0 <= i < rest.len() implies (#[trigger] rest[i]).len() < pow256(8) by {
            assert(rest[i] == secs[i + 1]);
        }
        lemma_read_framed(pre2, rest, tail);
        assert(seq![s0] + rest =~= secs);
    }
}

/// Decoding a file that `encode` wrote gives back its sections and hash.
pub proof fn lemma_decode_encoded(secs: Seq<Seq<u8>>, hash: Seq<u8>)
    requires
        secs.len() == SECTION_COUNT,
        hash.len() == 32,
        forall|i: int| 0 <= i < secs.len() ==> (#[trigger] secs[i]).len() < pow256(8),
    ensures
        decode_v(encoded(secs, hash)) == (FramesV { sections: secs, failure: None, hash }),
{
    let pre = magic() + version_bytes() + seq![0u8, 0u8];
    let buf = encoded(secs, hash);
    assert(buf =~= pre + framed(secs) + hash);
    assert(buf.subrange(0, 4) =~= magic());
    lemma_read_framed(pre, secs, hash);
    assert(buf.subrange(8 + framed(secs).len() as int, 8 + framed(secs).len() + 32int) =~= hash);
}

/// The SHA-256 digest of some bytes.
pub uninterp spec fn sha256_spec(data: Seq<u8>) -> Seq<u8>;

/// `sha2::Sha256::digest`: the 32-byte SHA-256 digest.
#[verifier::external_body]
pub(crate) fn sha256(data: &[u8]) -> (r: [u8; 32])
    ensures
        r@ == sha256_spec(data@),
{
    <sha2::Sha256 as sha2::Digest>::digest(data).into()
}

/// `bytes[a..b]` copied.
fn copy_range(bytes: &[u8], a: usize, b: usize) -> (r: Vec<u8>)
    requires
        a <= b <= bytes@.len(),
    ensures
        r@ == bytes@.subrange(a as int, b as int),
{
    let mut out: Vec<u8> = Vec::new();
    let mut i = a;
    while i < b
        invariant
            a <= i <= b,
            b <= bytes@.len(),
            out@ == bytes@.subrange(a as int, i as int),
        decreases b - i,
    {
        out.push(bytes[i]);
        assert(out@ =~= bytes@.subrange(a as int, i + 1));
        i = i + 1;
    }
    out
}

fn append(out: &mut Vec<u8>, bytes: &[u8])
    ensures
        final(out)@ == old(out)@ + bytes@,
{
    let mut i: usize = 0;
    while i < bytes.len()
        invariant
            i <= bytes@.len(),
            out@ == old(out)@ + bytes@.subrange(0, i as int),
        decreases bytes.len() - i,
    {
        out.push(bytes[i]);
        assert(out@ =~= old(out)@ + bytes@.subrange(0, i + 1));
        i = i + 1;
    }
    assert(bytes@.subrange(0, bytes@.len() as int) =~= bytes@);
}

fn magic_and_version() -> (r: Vec<u8>)
    ensures
        r@ == magic() + version_bytes(),
{
    let mut out: Vec<u8> = Vec::new();
    out.push(0x56u8);
    out.push(0x43u8);
    out.push(0x42u8);
    out.push(0x4eu8);
    out.push(1u8);
    out.push(0u8);
    assert(out@ =~= magic() + version_bytes());
    out
}

/// The bytes the hash is taken over.
pub fn hash_input(sections: &Vec<Vec<u8>>) -> (r: Vec<u8>)
    ensures
        r@ == hash_preimage(bytes_v(sections@)),
{
    let mut out = magic_and_version();
    let mut i: usize = 0;
    assert(bytes_v(sections@).subrange(0, 0) =~= Seq::<Seq<u8>>::empty());
    while i < sections.len()
        invariant
            i <= sections@.len(),
            out@ == magic() + version_bytes() + flatten(bytes_v(sections@).subrange(0, i as int)),
        decreases sections.len() - i,
    {
        append(&mut out, sections[i].as_slice());
        proof {
            let next = bytes_v(sections@).subrange(0, i + 1);
            assert(next.drop_last() =~= bytes_v(sections@).subrange(0, i as int));
            assert(next.last() == sections@[i as int]@);
            assert(out@ =~= magic() + version_bytes() + flatten(next));
        }
        i = i + 1;
    }
    assert(bytes_v(sections@).subrange(0, sections@.len() as int) =~= bytes_v(sections@));
    out
}

/// The bytes of a file holding the sections and the hash.
pub fn encode(sections: &Vec<Vec<u8>>, hash: &[u8; 32]) -> (r: Vec<u8>)
    ensures
        r@ == encoded(bytes_v(sections@), hash@),
{
    let mut out = magic_and_version();
    out.push(0u8);
    out.push(0u8);
    let ghost head = magic() + version_bytes() + seq![0u8, 0u8];
    assert(out@ =~= head);
    let mut i: usize = 0;
    assert(bytes_v(sections@).subrange(0, 0) =~= Seq::<Seq<u8>>::empty());
    while i < sections.len()
        invariant
            i <= sections@.len(),
            out@ == head + framed(bytes_v(sections@).subrange(0, i as int)),
        decreases sections.len() - i,
    {
        let len_bytes = u64_le(sections[i].len() as u64);
        append(&mut out, len_bytes.as_slice());
        append(&mut out, sections[i].as_slice());
        proof {
            let prev = bytes_v(sections@).subrange(0, i as int);
            let x = sections@[i as int]@;
            assert(bytes_v(sections@).subrange(0, i + 1) =~= prev.push(x));
            lemma_framed_push(prev, x);
            assert(out@ =~= head + framed(prev.push(x)));
        }
        i = i + 1;
    }
    assert(bytes_v(sections@).subrange(0, sections@.len() as int) =~= bytes_v(sections@));
    append(&mut out, hash.as_slice());
    assert(out@ =~= encoded(bytes_v(sections@), hash@));
    out
}

fn vcbin_error(msg: &str) -> (e: VenturiError)
    ensures
        e@ == ErrV::VcBin(msg@),
{
    VenturiError::VcBin(String::from_str(msg))
}

/// Splits a file into its sections and hash; stops at the first framing
/// fault, keeping the sections read before it.
#[verifier::rlimit(40)]
pub fn decode(buf: &[u8]) -> (r: Frames)
    ensures
        frames_v(r) == decode_v(buf@),
{
    proof {
        reveal_strlit("File too short");
        reveal_strlit("Invalid magic bytes");
        reveal_strlit("Section truncated");
        reveal_strlit("Section data truncated");
    }
    let n = buf.len();
    let zero: [u8; 32] = [0u8; 32];
    assert(zero@ =~= zero_hash());
    if n < 8 {
        let r = Frames { sections: Vec::new(), failure: Some(vcbin_error("File too short")), hash: zero };
        assert(bytes_v(r.sections@) =~= Seq::<Seq<u8>>::empty());
        return r;
    }
    if buf[0] != 0x56u8 || buf[1] != 0x43u8 || buf[2] != 0x42u8 || buf[3] != 0x4eu8 {
        assert(buf@.subrange(0, 4) != magic()) by {
            if buf@.subrange(0, 4) == magic() {
                assert(buf@.subrange(0, 4)[0] == buf@[0]);
                assert(buf@.subrange(0, 4)[1] == buf@[1]);
                assert(buf@.subrange(0, 4)[2] == buf@[2]);
                assert(buf@.subrange(0, 4)[3] == buf@[3]);
            }
        }
        let r = Frames { sections: Vec::new(), failure: Some(vcbin_error("Invalid magic bytes")), hash: zero };
        assert(bytes_v(r.sections@) =~= Seq::<Seq<u8>>::empty());
        return r;
    }
    assert(buf@.subrange(0, 4) =~= magic());
    let ghost whole = read_sections(buf@, 8, SECTION_COUNT as nat);
    let mut sections: Vec<Vec<u8>> = Vec::new();
    let mut pos: usize = 8;
    let mut k: usize = 0;
    assert(bytes_v(sections@) =~= Seq::<Seq<u8>>::empty());
    while k < SECTION_COUNT
        invariant
            n == buf@.len(),
            8 <= pos <= n,
            k <= SECTION_COUNT,
            buf@.subrange(0, 4) == magic(),
            zero@ == zero_hash(),
            whole == read_sections(buf@, 8, SECTION_COUNT as nat),
            whole == (bytes_v(sections@) + read_sections(buf@, pos as int, (SECTION_COUNT - k) as nat).0,
                read_sections(buf@, pos as int, (SECTION_COUNT - k) as nat).1,
                read_sections(buf@, pos as int, (SECTION_COUNT - k) as nat).2),
        decreases SECTION_COUNT - k,
    {
        if n - pos < 8 {
            assert(read_sections(buf@, pos as int, (SECTION_COUNT - k) as nat)
                == (Seq::<Seq<u8>>::empty(), Some(ErrV::VcBin("Section truncated"@)), pos as int));
            let r = Frames { sections, failure: Some(vcbin_error("Section truncated")), hash: zero };
            assert(bytes_v(sections@) + seq![] =~= bytes_v(sections@));
            return r;
        }
        let len = read_u64_le(buf, pos);
        if len > (n - pos - 8) as u64 {
            assert(read_sections(buf@, pos as int, (SECTION_COUNT - k) as nat)
                == (Seq::<Seq<u8>>::empty(), Some(ErrV::VcBin("Section data truncated"@)), pos as int));
            let r = Frames { sections, failure: Some(vcbin_error("Section data truncated")), hash: zero };
            assert(bytes_v(sections@) + seq![] =~= bytes_v(sections@));
            return r;
        }
        let len = len as usize;
        let data = copy_range(buf, pos + 8, pos + 8 + len);
        let ghost before = bytes_v(sections@);
        sections.push(data);
        proof {
            let (rest, f, end) = read_sections(buf@, pos + 8 + len, (SECTION_COUNT - k - 1) as nat);
            assert(read_sections(buf@, pos as int, (SECTION_COUNT - k) as nat) == (seq![data@] + rest, f, end));
            assert(bytes_v(sections@) =~= before.push(data@));
            assert(before + (seq![data@] + rest) =~= bytes_v(sections@) + rest);
        }
        pos = pos + 8 + len;
        k = k + 1;
    }
    assert(bytes_v(sections@) + seq![] =~= bytes_v(sections@));
    let mut hash: [u8; 32] = [0u8; 32];
    if n - pos >= 32 {
        let mut j: usize = 0;
        while j < 32
            invariant
                j <= 32,
                pos + 32 <= n,
                n == buf@.len(),
                forall|t: int| 0 <= t < j ==> hash@[t] == buf@[pos + t],
            decreases 32 - j,
        {
            hash[j] = buf[pos + j];
            j = j + 1;
        }
        assert(hash@ =~= buf@.subrange(pos as int, pos + 32));
    } else {
        assert(hash@ =~= zero_hash());
    }
    Frames { sections, failure: None, hash }
}

/// `hash` is the hash of `sections`: a chassis holding it verifies
/// against them.
pub open spec fn seals(hash: Seq<u8>, sections: Seq<Vec<u8>>) -> bool {
    hash == sha256_spec(hash_preimage(bytes_v(sections)))
}

impl VcBinMeta {
    /// The metadata of a chassis named `name` in `mode`, stamped
    /// `timestamp`, format version `1.0`.
    pub fn new(name: String, mode: String, timestamp: u64) -> (r: VcBinMeta)
        ensures
            r.name == name,
            r.version@ == "1.0"@,
            r.timestamp == timestamp,
            r.mode == mode,
    {
        VcBinMeta { name, version: String::from_str("1.0"), timestamp, mode }
    }
}

impl VcBin {
    /// A chassis named `name`, format version `1.0`, stamped `timestamp`,
    /// sealed with the hash of `sections`, the parts' encodings in file
    /// order (metadata, interface, permissions, graph, bytecode): it
    /// verifies against them.
    pub fn new(name: String, mode: String, timestamp: u64, interface: VcBinInterface,
        permissions: VcBinPermissions, graph: VcBinGraph, bytecode: Vec<Instruction>,
        sections: &Vec<Vec<u8>>) -> (r: VcBin)
        ensures
            r.metadata.name == name,
            r.metadata.version@ == "1.0"@,
            r.metadata.timestamp == timestamp,
            r.metadata.mode == mode,
            r.interface == interface,
            r.permissions == permissions,
            r.graph == graph,
            r.bytecode == bytecode,
            seals(r.hash@, sections@),
    {
        let hash = Self::compute_hash(sections);
        VcBin {
            metadata: VcBinMeta::new(name, mode, timestamp),
            interface,
            permissions,
            graph,
            bytecode,
            hash,
        }
    }

    /// The hash of a chassis whose parts encode (in JSON) to `sections`:
    /// SHA-256 over the magic, the version and the sections in order.
    pub fn compute_hash(sections: &Vec<Vec<u8>>) -> (r: [u8; 32])
        ensures
            r@ == sha256_spec(hash_preimage(bytes_v(sections@))),
    {
        let input = hash_input(sections);
        sha256(input.as_slice())
    }

    /// Whether the stored hash is the hash of `sections`.
    pub fn verify_hash(&self, sections: &Vec<Vec<u8>>) -> (r: bool)
        ensures
            r == seals(self.hash@, sections@),
    {
        let computed = Self::compute_hash(sections);
        let mut i: usize = 0;
        while i < 32
            invariant
                i <= 32,
                computed@ == sha256_spec(hash_preimage(bytes_v(sections@))),
                forall|t: int| 0 <= t < i ==> computed@[t] == self.hash@[t],
            decreases 32 - i,
        {
            if computed[i] != self.hash[i] {
                assert(computed@[i as int] != self.hash@[i as int]);
                return false;
            }
            i = i + 1;
        }
        assert(computed@ =~= self.hash@);
        true
    }

    /// Sets the hash to that of `sections`.
    pub fn seal(&mut self, sections: &Vec<Vec<u8>>)
        ensures
            seals(final(self).hash@, sections@),
            final(self).metadata == old(self).metadata,
            final(self).interface == old(self).interface,
            final(self).permissions == old(self).permissions,
            final(self).graph == old(self).graph,
            final(self).bytecode == old(self).bytecode,
    {
        self.hash = Self::compute_hash(sections);
    }
}

} // verus!
