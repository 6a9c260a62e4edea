//! Pits: named, versioned slots that hold a chassis. Every update adds a
//! version and makes it active; a rollback makes an earlier one active.

use vstd::prelude::*;
use crate::error::{ErrV, VenturiError, err_is};
use crate::text::{concat, decimal, str_eq, usize_to_decimal};

verus! {

#[derive(Clone, Debug)]
pub struct PitVersion {
    pub version: usize,
    pub vcbin_path: String,
    pub timestamp: u64,
    pub hash: String,
}

#[derive(Clone, Debug)]
pub struct PitEntry {
    pub name: String,
    pub active_version: usize,
    pub last_updated: u64,
    pub authorized_sources: Vec<String>,
    pub history: Vec<PitVersion>,
    pub attached_node_type: String,
    pub dependent_nodes: Vec<String>,
}

pub struct VersionV {
    pub version: nat,
    pub vcbin_path: Seq<char>,
    pub timestamp: nat,
    pub hash: Seq<char>,
}

pub struct EntryV {
    pub name: Seq<char>,
    pub active_version: nat,
    pub last_updated: nat,
    pub authorized_sources: Seq<Seq<char>>,
    pub history: Seq<VersionV>,
    pub attached_node_type: Seq<char>,
    pub dependent_nodes: Seq<Seq<char>>,
}

pub open spec fn version_v(v: PitVersion) -> VersionV {
    VersionV { version: v.version as nat, vcbin_path: v.vcbin_path@, timestamp: v.timestamp as nat, hash: v.hash@ }
}

pub open spec fn strs_v(s: Seq<String>) -> Seq<Seq<char>> {
    s.map_values(|x: String| x@)
}

pub open spec fn entry_v(e: PitEntry) -> EntryV {
    EntryV {
        name: e.name@,
        active_version: e.active_version as nat,
        last_updated: e.last_updated as nat,
        authorized_sources: strs_v(e.authorized_sources@),
        history: e.history@.map_values(|v: PitVersion| version_v(v)),
        attached_node_type: e.attached_node_type@,
        dependent_nodes: strs_v(e.dependent_nodes@),
    }
}

/// The first version in a history with the given number.
pub open spec fn first_with(h: Seq<VersionV>, version: nat) -> Option<VersionV>
    decreases h.len(),
{
    if h.len() == 0 {
        None
    } else if h[0].version == version {
        Some(h[0])
    } else {
        first_with(h.subrange(1, h.len() as int), version)
    }
}

/// The version of an entry that is in force.
pub open spec fn active_v(e: EntryV) -> Option<VersionV> {
    first_with(e.history, e.active_version)
}

/// The highest version number in a history (0 for none).
pub open spec fn max_version(h: Seq<VersionV>) -> nat
    decreases h.len(),
{
    if h.len() == 0 {
        0
    } else {
        let m = max_version(h.drop_last());
        if h.last().version > m { h.last().version } else { m }
    }
}

impl PitEntry {
    /// The active version: the first in the history with the active number.
    pub fn active(&self) -> (r: Option<&PitVersion>)
        ensures
            match r {
                Some(v) => exists|i: int| 0 <= i < self.history@.len() && self.history@[i] == *v
                    && v.version == self.active_version
                    && forall|j: int| 0 <= j < i ==> (#[trigger] self.history@[j]).version != self.active_version,
                None => forall|i: int| 0 <= i < self.history@.len() ==> (#[trigger] self.history@[i]).version != self.active_version,
            },
    {
        let mut i: usize = 0;
        while i < self.history.len()
            invariant
                i <= self.history@.len(),
                forall|j: int| 0 <= j < i ==> (#[trigger] self.history@[j]).version != self.active_version,
            decreases self.history.len() - i,
        {
            if self.history[i].version == self.active_version {
                return Some(&self.history[i]);
            }
            i = i + 1;
        }
        None
    }
}

/// The current time in whole seconds since the Unix epoch (0 if the clock
/// is before it). Nothing is promised of the value.
#[verifier::external_body]
pub fn now_secs() -> u64 {
    std::time::SystemTime::now().duration_since(std::time::UNIX_EPOCH).map(|d| d.as_secs()).unwrap_or(0)
}

/// The lowercase hexadecimal digit of `d` (below 16).
pub open spec fn hex_digit(d: nat) -> char {
    if d < 10 { (('0' as nat) + d) as char } else { (('a' as nat) + d - 10) as char }
}

/// Each byte as two lowercase hexadecimal digits, high first.
pub open spec fn hex_spec(b: Seq<u8>) -> Seq<char>
    decreases b.len(),
{
    if b.len() == 0 {
        seq![]
    } else {
        hex_spec(b.drop_last()) + seq![hex_digit((b.last() / 16) as nat), hex_digit((b.last() % 16) as nat)]
    }
}

/// `hex::encode`: two lowercase hexadecimal digits per byte.
#[verifier::external_body]
pub(crate) fn hex_encode(bytes: &[u8]) -> (r: String)
    ensures
        r@ == hex_spec(bytes@),
{
    hex::encode(bytes)
}

/// What a pit records as the hash of a chassis file: the hexadecimal
/// SHA-256 of its contents, or `(no-file:path)` where there is no file.
pub open spec fn hash_text_spec(path: Seq<char>, contents: Option<Seq<u8>>) -> Seq<char> {
    match contents {
        Some(c) => hex_spec(crate::vcbin::sha256_spec(c)),
        None => "(no-file:"@ + path + ")"@,
    }
}

pub fn hash_text(path: &str, contents: Option<&[u8]>) -> (r: String)
    ensures
        r@ == hash_text_spec(path@, match contents { Some(c) => Some(c@), None => None }),
{
    match contents {
        Some(c) => {
            let h = crate::vcbin::sha256(c);
            hex_encode(h.as_slice())
        },
        None => {
            let a = concat("(no-file:", path);
            concat(a.as_str(), ")")
        },
    }
}


proof fn lemma_max_version(h: Seq<VersionV>)
    ensures
        forall|i: int| 0 <= i < h.len() ==> (#[trigger] h[i]).version <= max_version(h),
    decreases h.len(),
{
    if h.len() > 0 {
        lemma_max_version(h.drop_last());
        assert forall|i: int| 0 <= i < h.len() implies (#[trigger] h[i]).version <= max_version(h) by {
            if i < h.len() - 1 {
                assert(h.drop_last()[i] == h[i]);
            }
        }
    }
}

pub(crate) proof fn lemma_first_with_absent(h: Seq<VersionV>, version: nat)
    requires
        forall|i: int| 0 <= i < h.len() ==> (#[trigger] h[i]).version != version,
    ensures
        first_with(h, version) is None,
    decreases h.len(),
{
    if h.len() > 0 {
        let t = h.subrange(1, h.len() as int);
        assert forall|i: int| 0 <= i < t.len() implies (#[trigger] t[i]).version != version by {
            assert(t[i] == h[i + 1]);
        }
        lemma_first_with_absent(t, version);
    }
}

proof fn lemma_first_with_push(h: Seq<VersionV>, v: VersionV)
    requires
        forall|i: int| 0 <= i < h.len() ==> (#[trigger] h[i]).version != v.version,
    ensures
        first_with(h.push(v), v.version) == Some(v),
    decreases h.len(),
{
    if h.len() == 0 {
        assert(h.push(v)[0] == v);
    } else {
        let t = h.subrange(1, h.len() as int);
        assert forall|i: int| 0 <= i < t.len() implies (#[trigger] t[i]).version != v.version by {
            assert(t[i] == h[i + 1]);
        }
        lemma_first_with_push(t, v);
        assert(h.push(v).subrange(1, h.len() + 1int) =~= t.push(v));
        assert(h.push(v)[0] == h[0]);
    }
}

proof fn lemma_first_with_present(h: Seq<VersionV>, version: nat, k: int)
    requires
        0 <= k < h.len(),
        h[k].version == version,
    ensures
        first_with(h, version) is Some,
        first_with(h, version)->0.version == version,
    decreases h.len(),
{
    if h[0].version != version {
        let t = h.subrange(1, h.len() as int);
        assert(t[k - 1] == h[k]);
        lemma_first_with_present(t, version, k - 1);
    }
}

/// The entry a new pit starts with.
pub open spec fn new_entry_v(name: Seq<char>, path: Seq<char>, van: Seq<char>, deps: Seq<Seq<char>>,
    hash: Seq<char>, t: nat) -> EntryV {
    EntryV {
        name,
        active_version: 1,
        last_updated: t,
        authorized_sources: seq![van],
        history: seq![VersionV { version: 1, vcbin_path: path, timestamp: t, hash }],
        attached_node_type: "chass"@,
        dependent_nodes: deps,
    }
}

/// An entry after an update: a version numbered one above the highest
/// goes last in the history and becomes active.
pub open spec fn updated_entry_v(e: EntryV, path: Seq<char>, hash: Seq<char>, t: nat) -> EntryV {
    let next = max_version(e.history) + 1;
    EntryV {
        active_version: next,
        last_updated: t,
        history: e.history.push(VersionV { version: next, vcbin_path: path, timestamp: t, hash }),
        ..e
    }
}

/// An entry after a rollback to `version`.
pub open spec fn rolled_entry_v(e: EntryV, version: nat, t: nat) -> EntryV {
    EntryV { active_version: version, last_updated: t, ..e }
}

/// After an update, the version in force is the one just added, and its
/// number is above that of every earlier version.
pub proof fn lemma_update_activates(e: EntryV, path: Seq<char>, hash: Seq<char>, t: nat)
    ensures
        active_v(updated_entry_v(e, path, hash, t)) == Some(VersionV {
            version: max_version(e.history) + 1, vcbin_path: path, timestamp: t, hash }),
        forall|i: int| 0 <= i < e.history.len() ==> (#[trigger] e.history[i]).version < max_version(e.history) + 1,
{
    lemma_max_version(e.history);
    let v = VersionV { version: max_version(e.history) + 1, vcbin_path: path, timestamp: t, hash };
    lemma_first_with_push(e.history, v);
}

/// After a rollback to a version in the history, that version is in force.
pub proof fn lemma_rollback_activates(e: EntryV, version: nat, t: nat, k: int)
    requires
        0 <= k < e.history.len(),
        e.history[k].version == version,
    ensures
        active_v(rolled_entry_v(e, version, t)) is Some,
        active_v(rolled_entry_v(e, version, t))->0.version == version,
{
    lemma_first_with_present(e.history, version, k);
}

/// Adding a version at the end leaves a version already found where it was.
proof fn lemma_first_with_keep(h: Seq<VersionV>, x: VersionV, version: nat)
    requires
        first_with(h, version) is Some,
    ensures
        first_with(h.push(x), version) == first_with(h, version),
    decreases h.len(),
{
    if h[0].version != version {
        let t = h.subrange(1, h.len() as int);
        lemma_first_with_keep(t, x, version);
        assert(h.push(x).subrange(1, h.push(x).len() as int) =~= t.push(x));
    }
}

/// Rolling back to the version that was in force before an update puts it
/// back in force, and keeps the history the update added to: the new
/// version stays last.
pub proof fn lemma_update_then_rollback(e: EntryV, path: Seq<char>, hash: Seq<char>, t1: nat, t2: nat)
    requires
        active_v(e) is Some,
    ensures
        ({
            let u = updated_entry_v(e, path, hash, t1);
            let r = rolled_entry_v(u, e.active_version, t2);
            &&& r.active_version == e.active_version
            &&& active_v(r) == active_v(e)
            &&& r.history == u.history
            &&& r.history.subrange(0, e.history.len() as int) == e.history
            &&& r.history.last() == (VersionV { version: max_version(e.history) + 1, vcbin_path: path, timestamp: t1, hash })
        }),
{
    let v = VersionV { version: max_version(e.history) + 1, vcbin_path: path, timestamp: t1, hash };
    lemma_first_with_keep(e.history, v, e.active_version);
    assert(e.history.push(v).subrange(0, e.history.len() as int) =~= e.history);
}

/// The store of pits, by name, each name once.
pub struct PitStore {
    pits: Vec<(String, PitEntry)>,
    store_path: String,
}

pub open spec fn store_keys_distinct(s: Seq<(Seq<char>, EntryV)>) -> bool {
    forall|i: int, j: int| 0 <= i < j < s.len() ==> (#[trigger] s[i]).0 != (#[trigger] s[j]).0
}

/// Whether a pit of that name is in the store.
pub open spec fn has_pit(s: Seq<(Seq<char>, EntryV)>, name: Seq<char>) -> bool {
    exists|i: int| 0 <= i < s.len() && (#[trigger] s[i]).0 == name
}

pub open spec fn not_found_text(name: Seq<char>) -> Seq<char> {
    "Pit '"@ + name + "' not found"@
}

impl View for PitStore {
    type V = Seq<(Seq<char>, EntryV)>;

    closed spec fn view(&self) -> Seq<(Seq<char>, EntryV)> {
        self.pits@.map_values(|p: (String, PitEntry)| (p.0@, entry_v(p.1)))
    }
}

fn not_found(name: &str) -> (e: VenturiError)
    ensures
        e@ == ErrV::Pit(not_found_text(name@)),
{
    let a = concat("Pit '", name);
    VenturiError::Pit(concat(a.as_str(), "' not found"))
}

impl PitStore {
    /// Each name is held once.
    pub open spec fn wf(&self) -> bool {
        store_keys_distinct(self@)
    }

    /// Where the store is kept.
    pub closed spec fn path(&self) -> Seq<char> {
        self.store_path@
    }

    /// Where the store is kept.
    pub fn store_path(&self) -> (r: &String)
        ensures
            r@ == self.path(),
    {
        &self.store_path
    }

    /// An empty store kept at `store_path`.
    pub fn new(store_path: String) -> (r: PitStore)
        ensures
            r.wf(),
            r@ == Seq::<(Seq<char>, EntryV)>::empty(),
            r.path() == store_path@,
    {
        let r = PitStore { pits: Vec::new(), store_path };
        assert(r@ =~= Seq::<(Seq<char>, EntryV)>::empty());
        r
    }

    fn index_of(&self, name: &str) -> (r: Option<usize>)
        ensures
            match r {
                Some(i) => i < self@.len() && self@[i as int].0 == name@,
                None => !has_pit(self@, name@),
            },
    {
        let mut i: usize = 0;
        while i < self.pits.len()
            invariant
                i <= self@.len(),
                self@.len() == self.pits@.len(),
                forall|j: int| 0 <= j < i ==> (#[trigger] self@[j]).0 != name@,
            decreases self.pits.len() - i,
        {
            assert(self@[i as int].0 == self.pits@[i as int].0@);
            if str_eq(self.pits[i].0.as_str(), name) {
                return Some(i);
            }
            i = i + 1;
        }
        None
    }

    /// Whether a pit of that name is in the store.
    pub fn contains(&self, name: &str) -> (r: bool)
        ensures
            r == has_pit(self@, name@),
    {
        self.index_of(name).is_some()
    }

    /// The number of pits.
    pub fn len(&self) -> (r: usize)
        ensures
            r == self@.len(),
    {
        self.pits.len()
    }

    /// The name of the pit at a position.
    pub fn key_at(&self, i: usize) -> (r: &String)
        requires
            i < self@.len(),
        ensures
            r@ == self@[i as int].0,
    {
        &self.pits[i].0
    }

    /// The pit at a position.
    pub fn entry_at(&self, i: usize) -> (r: &PitEntry)
        requires
            i < self@.len(),
        ensures
            entry_v(*r) == self@[i as int].1,
    {
        &self.pits[i].1
    }

    /// Puts a pit under a name, replacing what was there.
    pub fn insert_entry(&mut self, key: String, entry: PitEntry)
        requires
            old(self).wf(),
        ensures
            final(self).wf(),
            final(self).path() == old(self).path(),
            has_pit(old(self)@, key@) ==> exists|i: int| 0 <= i < old(self)@.len() && old(self)@[i].0 == key@
                && final(self)@ == old(self)@.update(i, (key@, entry_v(entry))),
            !has_pit(old(self)@, key@) ==> final(self)@ == old(self)@.push((key@, entry_v(entry))),
    {
        let ghost ev = entry_v(entry);
        let ghost k = key@;
        match self.index_of(key.as_str()) {
            Some(i) => {
                self.pits.set(i, (key, entry));
                assert(self@ =~= old(self)@.update(i as int, (k, ev)));
            },
            None => {
                self.pits.push((key, entry));
                assert(self@ =~= old(self)@.push((k, ev)));
            },
        }
    }
}


impl PitStore {
    /// The pit of that name.
    pub fn status(&self, name: &str) -> (r: Result<&PitEntry, VenturiError>)
        requires
            self.wf(),
        ensures
            match r {
                Ok(e) => exists|i: int| 0 <= i < self@.len() && self@[i].0 == name@ && entry_v(*e) == self@[i].1,
                Err(e) => !has_pit(self@, name@) && e@ == ErrV::Pit(not_found_text(name@)),
            },
    {
        match self.index_of(name) {
            Some(i) => Ok(&self.pits[i].1),
            None => Err(not_found(name)),
        }
    }

    /// Every pit, in the order they came into the store.
    pub fn list(&self) -> (r: Vec<&PitEntry>)
        ensures
            r@.len() == self@.len(),
            forall|i: int| 0 <= i < r@.len() ==> entry_v(*(#[trigger] r@[i])) == self@[i].1,
    {
        let mut out: Vec<&PitEntry> = Vec::new();
        let mut i: usize = 0;
        while i < self.pits.len()
            invariant
                i <= self.pits@.len(),
                out@.len() == i,
                forall|j: int| 0 <= j < i ==> entry_v(*(#[trigger] out@[j])) == self@[j].1,
            decreases self.pits.len() - i,
        {
            out.push(&self.pits[i].1);
            i = i + 1;
        }
        out
    }

    /// Makes `version` the active version of the pit `name`; refused where
    /// there is no such pit, or no such version in its history.
    pub fn rollback(&mut self, name: &str, version: usize) -> (r: Result<(), VenturiError>)
        requires
            old(self).wf(),
        ensures
            final(self).wf(),
            final(self).path() == old(self).path(),
            !has_pit(old(self)@, name@) ==> err_is(r, ErrV::Pit(not_found_text(name@))) && final(self)@ == old(self)@,
            forall|i: int| 0 <= i < old(self)@.len() && (#[trigger] old(self)@[i]).0 == name@ ==> {
                let e = old(self)@[i].1;
                if exists|k: int| 0 <= k < e.history.len() && (#[trigger] e.history[k]).version == version {
                    r is Ok && exists|t: nat| final(self)@ == old(self)@.update(i, (name@, rolled_entry_v(e, version as nat, t)))
                } else {
                    err_is(r, ErrV::Pit("Version "@ + decimal(version as nat) + " not found in pit '"@ + name@ + "'"@))
                        && final(self)@ == old(self)@
                }
            },
    {
        let i = match self.index_of(name) {
            Some(i) => i,
            None => return Err(not_found(name)),
        };
        let mut found = false;
        let mut k: usize = 0;
        while k < self.pits[i].1.history.len()
            invariant
                i < self.pits@.len(),
                k <= self.pits@[i as int].1.history@.len(),
                found == exists|j: int| 0 <= j < k && (#[trigger] self.pits@[i as int].1.history@[j]).version == version,
            decreases self.pits@[i as int].1.history@.len() - k,
        {
            if self.pits[i].1.history[k].version == version {
                found = true;
            }
            k = k + 1;
        }
        let ghost e = old(self)@[i as int].1;
        proof {
            assert(e.history == self.pits@[i as int].1.history@.map_values(|v: PitVersion| version_v(v)));
            assert(found == exists|j: int| 0 <= j < e.history.len() && (#[trigger] e.history[j]).version == version) by {
                if found {
                    let j = choose|j: int| 0 <= j < k && (#[trigger] self.pits@[i as int].1.history@[j]).version == version;
                    assert(e.history[j].version == version);
                }
                if exists|j: int| 0 <= j < e.history.len() && (#[trigger] e.history[j]).version == version {
                    let j = choose|j: int| 0 <= j < e.history.len() && (#[trigger] e.history[j]).version == version;
                    assert(self.pits@[i as int].1.history@[j].version == version);
                }
            }
            assert forall|j: int| 0 <= j < old(self)@.len() && (#[trigger] old(self)@[j]).0 == name@ implies j == i by {
                if j != i {
                    assert(store_keys_distinct(old(self)@));
                }
            }
        }
        if !found {
            let a = concat("Version ", usize_to_decimal(version).as_str());
            let b = concat(a.as_str(), " not found in pit '");
            let c = concat(b.as_str(), name);
            return Err(VenturiError::Pit(concat(c.as_str(), "'")));
        }
        let now = now_secs();
        self.pits[i].1.active_version = version;
        self.pits[i].1.last_updated = now;
        proof {
            assert(self@ =~= old(self)@.update(i as int, (name@, rolled_entry_v(e, version as nat, now as nat))));
        }
        Ok(())
    }
}


pub open spec fn opt_bytes(o: Option<Vec<u8>>) -> Option<Seq<u8>> {
    match o {
        Some(c) => Some(c@),
        None => None,
    }
}

impl PitStore {
    /// Adds a pit at version 1, with `van` as its one authorized source;
    /// refused where a pit of that name exists. `contents` is what the
    /// chassis file holds (`None` where there is no file).
    pub fn create(&mut self, name: &str, vcbin_path: &str, van: &str, dependent_nodes: Vec<String>,
        contents: Option<Vec<u8>>) -> (r: Result<(), VenturiError>)
        requires
            old(self).wf(),
        ensures
            final(self).wf(),
            final(self).path() == old(self).path(),
            has_pit(old(self)@, name@) ==> err_is(r, ErrV::Pit("Pit '"@ + name@ + "' already exists"@))
                && final(self)@ == old(self)@,
            !has_pit(old(self)@, name@) ==> r is Ok && exists|t: nat| final(self)@ == old(self)@.push((name@,
                new_entry_v(name@, vcbin_path@, van@, strs_v(dependent_nodes@),
                    hash_text_spec(vcbin_path@, opt_bytes(contents)), t))),
    {
        if self.contains(name) {
            let a = concat("Pit '", name);
            return Err(VenturiError::Pit(concat(a.as_str(), "' already exists")));
        }
        let hash = match &contents {
            Some(c) => hash_text(vcbin_path, Some(c.as_slice())),
            None => hash_text(vcbin_path, None),
        };
        let now = now_secs();
        let version = PitVersion { version: 1, vcbin_path: String::from_str(vcbin_path), timestamp: now, hash };
        let mut sources: Vec<String> = Vec::new();
        sources.push(String::from_str(van));
        let mut history: Vec<PitVersion> = Vec::new();
        history.push(version);
        proof { reveal_strlit("chass"); }
        let entry = PitEntry {
            name: String::from_str(name),
            active_version: 1,
            last_updated: now,
            authorized_sources: sources,
            history,
            attached_node_type: String::from_str("chass"),
            dependent_nodes,
        };
        let ghost ev = entry_v(entry);
        proof {
            assert(ev.authorized_sources =~= seq![van@]);
            assert(ev.history =~= seq![VersionV { version: 1, vcbin_path: vcbin_path@, timestamp: now as nat,
                hash: hash_text_spec(vcbin_path@, opt_bytes(contents)) }]);
        }
        self.pits.push((String::from_str(name), entry));
        proof {
            let want = new_entry_v(name@, vcbin_path@, van@, strs_v(dependent_nodes@),
                hash_text_spec(vcbin_path@, opt_bytes(contents)), now as nat);
            assert(ev.name == want.name);
            assert(ev.attached_node_type == want.attached_node_type);
            assert(ev.dependent_nodes == want.dependent_nodes);
            assert(ev == want);
            assert(self@ =~= old(self)@.push((name@, ev)));
            assert forall|i: int, j: int| 0 <= i < j < self@.len() implies (#[trigger] self@[i]).0 != (#[trigger] self@[j]).0 by {
                if j == self@.len() - 1 {
                    assert(old(self)@[i].0 != name@);
                } else {
                    assert(store_keys_distinct(old(self)@));
                    assert(self@[i] == old(self)@[i]);
                    assert(self@[j] == old(self)@[j]);
                }
            }
        }
        Ok(())
    }

    /// Adds a version, numbered one above the highest so far, to the pit
    /// `name` and makes it active; refused where there is no such pit.
    pub fn update(&mut self, name: &str, vcbin_path: &str, contents: Option<Vec<u8>>) -> (r: Result<(), VenturiError>)
        requires
            old(self).wf(),
            forall|i: int| 0 <= i < old(self)@.len() && (#[trigger] old(self)@[i]).0 == name@
                ==> max_version(old(self)@[i].1.history) < usize::MAX,
        ensures
            final(self).wf(),
            final(self).path() == old(self).path(),
            !has_pit(old(self)@, name@) ==> err_is(r, ErrV::Pit(not_found_text(name@))) && final(self)@ == old(self)@,
            forall|i: int| 0 <= i < old(self)@.len() && (#[trigger] old(self)@[i]).0 == name@ ==>
                r is Ok && exists|t: nat| final(self)@ == old(self)@.update(i, (name@,
                    updated_entry_v(old(self)@[i].1, vcbin_path@, hash_text_spec(vcbin_path@, opt_bytes(contents)), t))),
    {
        let hash = match &contents {
            Some(c) => hash_text(vcbin_path, Some(c.as_slice())),
            None => hash_text(vcbin_path, None),
        };
        let i = match self.index_of(name) {
            Some(i) => i,
            None => return Err(not_found(name)),
        };
        let ghost e = old(self)@[i as int].1;
        let ghost h = e.history;
        let mut top: usize = 0;
        let mut k: usize = 0;
        proof {
            assert(h == self.pits@[i as int].1.history@.map_values(|v: PitVersion| version_v(v)));
            assert(h.subrange(0, 0) =~= Seq::<VersionV>::empty());
        }
        while k < self.pits[i].1.history.len()
            invariant
                i < self.pits@.len(),
                h == self.pits@[i as int].1.history@.map_values(|v: PitVersion| version_v(v)),
                k <= h.len(),
                top == max_version(h.subrange(0, k as int)),
            decreases h.len() - k,
        {
            let v = self.pits[i].1.history[k].version;
            proof {
                let next = h.subrange(0, k + 1);
                assert(next.drop_last() =~= h.subrange(0, k as int));
                assert(next.last().version == v);
            }
            if v > top {
                top = v;
            }
            k = k + 1;
        }
        assert(h.subrange(0, h.len() as int) =~= h);
        let next = top + 1;
        let now = now_secs();
        let ghost path = vcbin_path@;
        let version = PitVersion { version: next, vcbin_path: String::from_str(vcbin_path), timestamp: now, hash };
        let ghost vv = version_v(version);
        self.pits[i].1.history.push(version);
        self.pits[i].1.active_version = next;
        self.pits[i].1.last_updated = now;
        proof {
            let ne = updated_entry_v(e, path, hash_text_spec(path, opt_bytes(contents)), now as nat);
            assert(entry_v(self.pits@[i as int].1).history =~= h.push(vv));
            assert(self@ =~= old(self)@.update(i as int, (name@, ne)));
            assert forall|j: int| 0 <= j < old(self)@.len() && (#[trigger] old(self)@[j]).0 == name@ implies j == i by {
                if j != i {
                    assert(store_keys_distinct(old(self)@));
                }
            }
        }
        Ok(())
    }
}

} // verus!
