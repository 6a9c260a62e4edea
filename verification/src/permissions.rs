//! VAN checks: whether the running VAN may do what a node or a pit asks.

use vstd::prelude::*;
use crate::error::{ErrV, VenturiError, opt_v};
use crate::pits::{PitEntry, strs_v};
use crate::text::{concat, str_eq};

verus! {

/// The strings joined, `sep` between each two.
pub open spec fn join(parts: Seq<Seq<char>>, sep: Seq<char>) -> Seq<char>
    decreases parts.len(),
{
    if parts.len() == 0 {
        seq![]
    } else if parts.len() == 1 {
        parts[0]
    } else {
        join(parts.drop_last(), sep) + sep + parts.last()
    }
}

/// The strings joined with `sep` between each two.
pub fn join_strings(parts: &Vec<String>, sep: &str) -> (r: String)
    ensures
        r@ == join(strs_v(parts@), sep@),
{
    let mut out = String::new();
    let mut i: usize = 0;
    let ghost ps = strs_v(parts@);
    assert(ps.subrange(0, 0) =~= Seq::<Seq<char>>::empty());
    while i < parts.len()
        invariant
            i <= parts@.len(),
            ps == strs_v(parts@),
            out@ == join(ps.subrange(0, i as int), sep@),
        decreases parts.len() - i,
    {
        let ghost next = ps.subrange(0, i + 1);
        assert(next.drop_last() =~= ps.subrange(0, i as int));
        assert(next.last() == parts@[i as int]@);
        if i == 0 {
            out = concat(out.as_str(), parts[i].as_str());
            assert(ps.subrange(0, 0) =~= Seq::<Seq<char>>::empty());
            assert(out@ =~= next[0]);
        } else {
            let a = concat(out.as_str(), sep);
            out = concat(a.as_str(), parts[i].as_str());
        }
        i = i + 1;
    }
    assert(ps.subrange(0, parts@.len() as int) =~= ps);
    out
}

/// The VAN a node runs under.
pub struct PermissionsHandler {
    pub current_van: Option<String>,
}

impl PermissionsHandler {
    pub fn new(van: Option<String>) -> (r: PermissionsHandler)
        ensures
            r.current_van == van,
    {
        PermissionsHandler { current_van: van }
    }

    /// Passes exactly when the current VAN is `required`.
    pub fn check_van(&self, required: &str) -> (r: Result<(), VenturiError>)
        ensures
            r is Ok <==> opt_v(self.current_van) == Some(required@),
            r matches Err(e) ==> e@ == (ErrV::Permission { required: required@, got: opt_v(self.current_van) }),
    {
        match &self.current_van {
            Some(van) => {
                if str_eq(van.as_str(), required) {
                    Ok(())
                } else {
                    Err(VenturiError::Permission { required: String::from_str(required), got: Some(van.clone()) })
                }
            },
            None => Err(VenturiError::Permission { required: String::from_str(required), got: None }),
        }
    }

    /// A pit with no authorized sources takes updates from anyone; otherwise
    /// the source must be one of them.
    pub fn validate_pit_update(&self, pit: &PitEntry, source_van: &str) -> (r: Result<(), VenturiError>)
        ensures
            r is Ok <==> (pit.authorized_sources@.len() == 0 || strs_v(pit.authorized_sources@).contains(source_van@)),
            r matches Err(e) ==> e@ == (ErrV::Permission {
                required: join(strs_v(pit.authorized_sources@), "|"@), got: Some(source_van@) }),
    {
        let n = pit.authorized_sources.len();
        if n == 0 {
            return Ok(());
        }
        let ghost srcs = strs_v(pit.authorized_sources@);
        let mut i: usize = 0;
        while i < n
            invariant
                i <= n,
                n == pit.authorized_sources@.len(),
                srcs == strs_v(pit.authorized_sources@),
                forall|j: int| 0 <= j < i ==> srcs[j] != source_van@,
            decreases n - i,
        {
            if str_eq(pit.authorized_sources[i].as_str(), source_van) {
                assert(srcs[i as int] == source_van@);
                return Ok(());
            }
            i = i + 1;
        }
        proof { reveal_strlit("|"); }
        Err(VenturiError::Permission {
            required: join_strings(&pit.authorized_sources, "|"),
            got: Some(String::from_str(source_van)),
        })
    }

    /// Whether the node runs sandboxed: never decided here, so `false`.
    pub fn is_sandboxed(&self) -> (r: bool)
        ensures
            !r,
    {
        false
    }
}

} // verus!
