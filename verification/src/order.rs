//! Ordering named nodes for emitting: Kahn's algorithm over the wires.

use vstd::prelude::*;
use crate::ast::VtFile;
use crate::error::{err_is, ErrV, VenturiError};
use crate::graph::{count_true, lemma_count_le, lemma_count_true};
use crate::pits::strs_v;
use crate::text::str_eq;

verus! {

/// An edge between key positions: its source (`None` where the source names
/// no key) and its target.
pub type KeyEdge = (Option<usize>, usize);

/// How many edges into `k` still wait on a source: one that names no key, or
/// one not yet processed.
pub open spec fn pending(es: Seq<KeyEdge>, done: Seq<bool>, k: usize) -> nat
    decreases es.len(),
{
    if es.len() == 0 {
        0
    } else {
        let e = es.last();
        pending(es.drop_last(), done, k) + if e.1 == k && !(e.0 matches Some(s) && done[s as int]) { 1nat } else { 0nat }
    }
}

/// How many edges go from `x` to `k`.
pub open spec fn count_edges(es: Seq<KeyEdge>, x: usize, k: usize) -> nat
    decreases es.len(),
{
    if es.len() == 0 {
        0
    } else {
        count_edges(es.drop_last(), x, k) + if es.last().0 == Some(x) && es.last().1 == k { 1nat } else { 0nat }
    }
}

/// The targets of the edges from `x`, in edge order.
pub open spec fn outs(es: Seq<KeyEdge>, x: usize) -> Seq<usize>
    decreases es.len(),
{
    if es.len() == 0 {
        seq![]
    } else if es.last().0 == Some(x) {
        outs(es.drop_last(), x).push(es.last().1)
    } else {
        outs(es.drop_last(), x)
    }
}

/// How many times `k` occurs in `s`.
pub open spec fn occ(s: Seq<usize>, k: usize) -> nat
    decreases s.len(),
{
    if s.len() == 0 {
        0
    } else {
        occ(s.drop_last(), k) + if s.last() == k { 1nat } else { 0nat }
    }
}

/// The sources of the edges are positions of `done`.
pub open spec fn sources_in(es: Seq<KeyEdge>, n: nat) -> bool {
    forall|i: int| 0 <= i < es.len() ==> ((#[trigger] es[i]).0 matches Some(s) ==> s < n)
}

proof fn lemma_pending_done(es: Seq<KeyEdge>, done: Seq<bool>, x: usize, k: usize)
    requires
        0 <= x < done.len(),
        !done[x as int],
        sources_in(es, done.len()),
    ensures
        count_edges(es, x, k) <= pending(es, done, k),
        pending(es, done.update(x as int, true), k) == pending(es, done, k) - count_edges(es, x, k),
    decreases es.len(),
{
    if es.len() > 0 {
        assert forall|i: int| 0 <= i < es.drop_last().len() implies ((#[trigger] es.drop_last()[i]).0 matches Some(s) ==> s < done.len()) by {
            assert(es.drop_last()[i] == es[i]);
        }
        lemma_pending_done(es.drop_last(), done, x, k);
        let e = es.last();
        let d2 = done.update(x as int, true);
        if let Some(s) = e.0 {
            if s == x {
                assert(d2[s as int]);
            } else {
                assert(es[es.len() - 1].0 == Some(s));
                assert(d2[s as int] == done[s as int]);
            }
        }
    }
}

proof fn lemma_outs_occ(es: Seq<KeyEdge>, x: usize, k: usize)
    ensures
        occ(outs(es, x), k) == count_edges(es, x, k),
    decreases es.len(),
{
    if es.len() > 0 {
        lemma_outs_occ(es.drop_last(), x, k);
        let o = outs(es.drop_last(), x);
        assert(o.push(es.last().1).drop_last() =~= o);
    }
}

proof fn lemma_occ_prefix(s: Seq<usize>, j: int, k: usize)
    requires
        0 <= j < s.len(),
    ensures
        occ(s.subrange(0, j + 1), k) == occ(s.subrange(0, j), k) + if s[j] == k { 1nat } else { 0nat },
        occ(s.subrange(0, j), k) <= occ(s, k),
{
    assert(s.subrange(0, j + 1).drop_last() =~= s.subrange(0, j));
    lemma_occ_mono(s, j + 1, k);
}

proof fn lemma_occ_mono(s: Seq<usize>, j: int, k: usize)
    requires
        0 <= j <= s.len(),
    ensures
        occ(s.subrange(0, j), k) <= occ(s, k),
    decreases s.len() - j,
{
    if j < s.len() {
        assert(s.subrange(0, j + 1).drop_last() =~= s.subrange(0, j));
        lemma_occ_mono(s, j + 1, k);
    } else {
        assert(s.subrange(0, j) =~= s);
    }
}

/// Some edge into `k` still waits exactly when `pending` is positive.
proof fn lemma_pending_witness(es: Seq<KeyEdge>, done: Seq<bool>, k: usize)
    ensures
        pending(es, done, k) > 0 <==> exists|i: int| 0 <= i < es.len() && (#[trigger] es[i]).1 == k
            && !(es[i].0 matches Some(s) && done[s as int]),
    decreases es.len(),
{
    if es.len() > 0 {
        lemma_pending_witness(es.drop_last(), done, k);
        if exists|i: int| 0 <= i < es.len() - 1 && (#[trigger] es.drop_last()[i]).1 == k
            && !(es.drop_last()[i].0 matches Some(s) && done[s as int]) {
            let i = choose|i: int| 0 <= i < es.len() - 1 && (#[trigger] es.drop_last()[i]).1 == k
                && !(es.drop_last()[i].0 matches Some(s) && done[s as int]);
            assert(es[i] == es.drop_last()[i]);
        }
        if exists|i: int| 0 <= i < es.len() && (#[trigger] es[i]).1 == k && !(es[i].0 matches Some(s) && done[s as int]) {
            let i = choose|i: int| 0 <= i < es.len() && (#[trigger] es[i]).1 == k && !(es[i].0 matches Some(s) && done[s as int]);
            if i < es.len() - 1 {
                assert(es.drop_last()[i] == es[i]);
            }
        }
    }
}

/// No flag set means a count of nothing.
proof fn lemma_count_none(s: Seq<bool>)
    requires
        forall|i: int| 0 <= i < s.len() ==> !s[i],
    ensures
        count_true(s) == 0,
    decreases s.len(),
{
    if s.len() > 0 {
        lemma_count_none(s.drop_last());
    }
}

/// The targets leaving a key are targets of edges, so below the key count.
proof fn lemma_outs_bound(es: Seq<KeyEdge>, x: usize, n: usize)
    requires
        forall|i: int| 0 <= i < es.len() ==> (#[trigger] es[i]).1 < n,
    ensures
        forall|j: int| 0 <= j < outs(es, x).len() ==> (#[trigger] outs(es, x)[j]) < n,
    decreases es.len(),
{
    if es.len() > 0 {
        assert forall|i: int| 0 <= i < es.drop_last().len() implies (#[trigger] es.drop_last()[i]).1 < n by {
            assert(es.drop_last()[i] == es[i]);
        }
        lemma_outs_bound(es.drop_last(), x, n);
        assert(es[es.len() - 1].1 < n);
        let o = outs(es.drop_last(), x);
        if es.last().0 == Some(x) {
            assert forall|j: int| 0 <= j < o.push(es.last().1).len() implies (#[trigger] o.push(es.last().1)[j]) < n by {
                if j < o.len() {
                    assert(o.push(es.last().1)[j] == o[j]);
                }
            }
        }
    }
}

/// All flags set means the count is the length.
proof fn lemma_count_all(s: Seq<bool>)
    requires
        forall|i: int| 0 <= i < s.len() ==> s[i],
    ensures
        count_true(s) == s.len(),
    decreases s.len(),
{
    if s.len() > 0 {
        lemma_count_all(s.drop_last());
    }
}

/// A key whose rank is least among those not processed.
proof fn lemma_least_rank(keys: Seq<Seq<char>>, done: Seq<bool>, rank: spec_fn(Seq<char>) -> nat, k: int) -> (m: int)
    requires
        keys.len() == done.len(),
        0 <= k < keys.len(),
        !done[k],
    ensures
        0 <= m < keys.len(),
        !done[m],
        forall|j: int| 0 <= j < keys.len() && !done[j] ==> rank(keys[m]) <= rank(#[trigger] keys[j]),
    decreases rank(keys[k]),
{
    if exists|j: int| 0 <= j < keys.len() && !done[j] && rank(#[trigger] keys[j]) < rank(keys[k]) {
        let j = choose|j: int| 0 <= j < keys.len() && !done[j] && rank(#[trigger] keys[j]) < rank(keys[k]);
        lemma_least_rank(keys, done, rank, j)
    } else {
        k
    }
}


proof fn lemma_pending_le(es: Seq<KeyEdge>, done: Seq<bool>, k: usize)
    ensures
        pending(es, done, k) <= es.len(),
    decreases es.len(),
{
    if es.len() > 0 {
        lemma_pending_le(es.drop_last(), done, k);
    }
}

/// The in-degrees: for each of `n` keys, how many edges lead into it.
fn in_degrees(n: usize, es: &Vec<KeyEdge>) -> (r: Vec<usize>)
    requires
        forall|i: int| 0 <= i < es@.len() ==> (#[trigger] es@[i]).1 < n,
        sources_in(es@, n as nat),
    ensures
        r@.len() == n,
        forall|k: int| 0 <= k < n ==> r@[k] == pending(es@, Seq::new(n as nat, |i: int| false), k as usize),
{
    let ghost none = Seq::new(n as nat, |i: int| false);
    let mut deg: Vec<usize> = vec![0usize; n];
    let mut i: usize = 0;
    let m = es.len();
    while i < m
        invariant
            m == es@.len(),
            i <= m,
            deg@.len() == n,
            forall|j: int| 0 <= j < es@.len() ==> (#[trigger] es@[j]).1 < n,
            sources_in(es@, n as nat),
            none == Seq::new(n as nat, |i: int| false),
            forall|k: int| 0 <= k < n ==> deg@[k] == pending(es@.subrange(0, i as int), none, k as usize),
        decreases m - i,
    {
        let t = es[i].1;
        proof {
            let next = es@.subrange(0, i + 1);
            assert(next.drop_last() =~= es@.subrange(0, i as int));
            assert(next.last() == es@[i as int]);
            lemma_pending_le(es@.subrange(0, i as int), none, t);
            if let Some(src) = es@[i as int].0 {
                assert(src < n);
                assert(!none[src as int]);
            }
        }
        deg.set(t, deg[t] + 1);
        i = i + 1;
    }
    assert(es@.subrange(0, m as int) =~= es@);
    deg
}

/// For each of `n` keys, the targets of the edges from it.
fn adjacency(n: usize, es: &Vec<KeyEdge>) -> (r: Vec<Vec<usize>>)
    requires
        sources_in(es@, n as nat),
    ensures
        r@.len() == n,
        forall|x: int| 0 <= x < n ==> (#[trigger] r@[x])@ == outs(es@, x as usize),
{
    let mut adj: Vec<Vec<usize>> = Vec::new();
    let mut k: usize = 0;
    while k < n
        invariant
            k <= n,
            adj@.len() == k,
            forall|x: int| 0 <= x < k ==> (#[trigger] adj@[x])@ == Seq::<usize>::empty(),
        decreases n - k,
    {
        adj.push(Vec::new());
        k = k + 1;
    }
    let mut i: usize = 0;
    while i < es.len()
        invariant
            i <= es@.len(),
            adj@.len() == n,
            sources_in(es@, n as nat),
            forall|x: int| 0 <= x < n ==> (#[trigger] adj@[x])@ == outs(es@.subrange(0, i as int), x as usize),
        decreases es.len() - i,
    {
        let e = es[i];
        proof {
            let next = es@.subrange(0, i + 1);
            assert(next.drop_last() =~= es@.subrange(0, i as int));
            assert(next.last() == es@[i as int]);
        }
        match e.0 {
            Some(src) => {
                assert(es@[i as int].0 matches Some(s) ==> s < n);
                let ghost before = adj@;
                adj[src].push(e.1);
                proof {
                    assert forall|x: int| 0 <= x < n implies (#[trigger] adj@[x])@ == outs(es@.subrange(0, i + 1), x as usize) by {
                        if x != src {
                            assert(adj@[x] == before[x]);
                        }
                    }
                }
            },
            None => {},
        }
        i = i + 1;
    }
    assert(es@.subrange(0, es@.len() as int) =~= es@);
    adj
}


/// For each of `n` keys, whether it occurs in `order`.
pub open spec fn flags_of(order: Seq<usize>, n: nat) -> Seq<bool> {
    Seq::new(n, |j: int| order.contains(j as usize))
}

/// Every edge into a processed key comes from a key processed before it.
pub open spec fn edges_ordered(es: Seq<KeyEdge>, order: Seq<usize>) -> bool {
    forall|e: int| 0 <= e < es.len() && order.contains((#[trigger] es[e]).1) ==>
        (es[e].0 matches Some(s) && exists|a: int, b: int| 0 <= a < b < order.len() && order[a] == s && order[b] == es[e].1)
}

/// Kahn's algorithm over `n` keys: keys whose incoming edges all come from
/// processed keys are processed, last found first; the order of processing.
#[verifier::loop_isolation(false)]
#[verifier::rlimit(80)]
fn kahn(n: usize, es: &Vec<KeyEdge>) -> (order: Vec<usize>)
    requires
        forall|i: int| 0 <= i < es@.len() ==> (#[trigger] es@[i]).1 < n,
        sources_in(es@, n as nat),
    ensures
        order@.no_duplicates(),
        forall|a: int| 0 <= a < order@.len() ==> (#[trigger] order@[a]) < n,
        edges_ordered(es@, order@),
        forall|k: int| 0 <= k < n && !order@.contains(k as usize) ==>
            #[trigger] pending(es@, flags_of(order@, n as nat), k as usize) > 0,
{
    let mut indeg = in_degrees(n, es);
    let adj = adjacency(n, es);
    let mut done: Vec<bool> = vec![false; n];
    assert(done@ =~= Seq::new(n as nat, |i: int| false));
    proof {
        lemma_count_none(done@);
    }
    let mut queue: Vec<usize> = Vec::new();
    let mut k: usize = 0;
    while k < n
        invariant
            k <= n,
            indeg@.len() == n,
            done@.len() == n,
            queue@.no_duplicates(),
            forall|q: int| 0 <= q < queue@.len() ==> (#[trigger] queue@[q]) < k && indeg@[queue@[q] as int] == 0,
            forall|j: int| 0 <= j < k && indeg@[j] == 0 ==> queue@.contains(j as usize),
        decreases n - k,
    {
        if indeg[k] == 0 {
            let ghost before = queue@;
            queue.push(k);
            proof {
                assert forall|j: int| 0 <= j < k + 1 && indeg@[j] == 0 implies queue@.contains(j as usize) by {
                    if j < k {
                        let w = choose|w: int| 0 <= w < before.len() && before[w] == j as usize;
                        assert(queue@[w] == j as usize);
                    } else {
                        assert(queue@[queue@.len() - 1] == k);
                    }
                }
            }
        }
        k = k + 1;
    }
    let mut order: Vec<usize> = Vec::new();
    while queue.len() > 0
        invariant
            indeg@.len() == n,
            done@.len() == n,
            adj@.len() == n,
            forall|x: int| 0 <= x < n ==> (#[trigger] adj@[x])@ == outs(es@, x as usize),
            forall|i: int| 0 <= i < es@.len() ==> (#[trigger] es@[i]).1 < n,
            sources_in(es@, n as nat),
            forall|j: int| 0 <= j < n ==> indeg@[j] == pending(es@, done@, j as usize),
            forall|j: int| 0 <= j < n && done@[j] ==> indeg@[j] == 0,
            queue@.no_duplicates(),
            forall|q: int| 0 <= q < queue@.len() ==> (#[trigger] queue@[q]) < n && !done@[queue@[q] as int] && indeg@[queue@[q] as int] == 0,
            forall|j: int| 0 <= j < n && !done@[j] && indeg@[j] == 0 ==> queue@.contains(j as usize),
            order@.len() == count_true(done@),
            order@.no_duplicates(),
            forall|a: int| 0 <= a < order@.len() ==> (#[trigger] order@[a]) < n,
            forall|j: int| 0 <= j < n ==> (done@[j] <==> order@.contains(j as usize)),
            edges_ordered(es@, order@),
        decreases n - count_true(done@),
    {
        let ghost q0 = queue@;
        let x = queue.pop().unwrap();
        proof {
            assert(q0 =~= queue@.push(x));
            assert(q0[q0.len() - 1] == x);
        }
        let ghost d0 = done@;
        let ghost o0 = order@;
        proof {
            lemma_count_true(d0, x as int);
            assert forall|j: int| 0 <= j < n implies #[trigger] count_edges(es@, x, j as usize) <= pending(es@, d0, j as usize)
                && pending(es@, d0.update(x as int, true), j as usize) == pending(es@, d0, j as usize) - count_edges(es@, x, j as usize) by {
                lemma_pending_done(es@, d0, x, j as usize);
            }
            lemma_pending_witness(es@, d0, x);
        }
        done.set(x, true);
        order.push(x);
        proof {
            assert(order@.len() == count_true(done@));
            assert forall|a: int, b: int| 0 <= a < b < order@.len() implies order@[a] != order@[b] by {
                if b == order@.len() - 1 {
                    assert(!d0[x as int]);
                    assert(o0.contains(o0[a]));
                }
            }
            assert forall|j: int| 0 <= j < n implies (done@[j] <==> order@.contains(j as usize)) by {
                if j == x {
                    assert(order@[order@.len() - 1] == x);
                } else {
                    if o0.contains(j as usize) {
                        let w = choose|w: int| 0 <= w < o0.len() && o0[w] == j as usize;
                        assert(order@[w] == j as usize);
                    }
                    if order@.contains(j as usize) {
                        let w = choose|w: int| 0 <= w < order@.len() && order@[w] == j as usize;
                        assert(w < o0.len());
                        assert(o0[w] == j as usize);
                    }
                }
            }
            assert forall|e: int| 0 <= e < es@.len() && order@.contains((#[trigger] es@[e]).1) implies
                (es@[e].0 matches Some(s) && exists|a: int, b: int| 0 <= a < b < order@.len() && order@[a] == s && order@[b] == es@[e].1) by {
                if es@[e].1 == x {
                    assert(!(es@[e].0 matches Some(s) && d0[s as int]) ==> pending(es@, d0, x) > 0);
                    let s = es@[e].0->0;
                    assert(o0.contains(s));
                    let a = choose|a: int| 0 <= a < o0.len() && o0[a] == s;
                    assert(order@[a] == s);
                    assert(order@[order@.len() - 1] == x);
                } else {
                    let w = choose|w: int| 0 <= w < order@.len() && order@[w] == es@[e].1;
                    assert(w < o0.len());
                    assert(o0.contains(es@[e].1));
                    let (a, b) = choose|a: int, b: int| 0 <= a < b < o0.len() && o0[a] == es@[e].0->0 && o0[b] == es@[e].1;
                    assert(order@[a] == o0[a]);
                    assert(order@[b] == o0[b]);
                }
            }
        }
        let ghost i0 = indeg@;
        let ghost qmid = queue@;
        let out = &adj[x];
        let ghost ox = out@;
        proof {
            assert forall|j: int| 0 <= j < n implies #[trigger] occ(ox, j as usize) == count_edges(es@, x, j as usize) by {
                lemma_outs_occ(es@, x, j as usize);
            }
            lemma_outs_bound(es@, x, n);
        }
        let mut t: usize = 0;
        assert forall|j: int| 0 <= j < n implies #[trigger] occ(ox.subrange(0, 0), j as usize) == 0 by {
            assert(ox.subrange(0, 0) =~= Seq::<usize>::empty());
        }
        while t < out.len()
            invariant
                t <= ox.len(),
                out@ == ox,
                indeg@.len() == n,
                forall|j: int| 0 <= j < ox.len() ==> (#[trigger] ox[j]) < n,
                forall|j: int| 0 <= j < n ==> indeg@[j] == i0[j] - occ(ox.subrange(0, t as int), j as usize),
                forall|j: int| 0 <= j < n ==> #[trigger] occ(ox.subrange(0, t as int), j as usize) <= occ(ox, j as usize),
                queue@.no_duplicates(),
                forall|q: int| 0 <= q < queue@.len() ==> (#[trigger] queue@[q]) < n && !done@[queue@[q] as int] && indeg@[queue@[q] as int] == 0,
                forall|j: int| 0 <= j < n && !done@[j] && #[trigger] indeg@[j] == 0 && i0[j] > 0 ==> queue@.contains(j as usize),
                forall|q: int| 0 <= q < qmid.len() ==> queue@.contains(#[trigger] qmid[q]),
            decreases ox.len() - t,
        {
            let target = out[t];
            proof {
                lemma_occ_prefix(ox, t as int, target);
                assert forall|j: int| 0 <= j < n implies #[trigger] occ(ox.subrange(0, t + 1), j as usize) <= occ(ox, j as usize) by {
                    lemma_occ_mono(ox, t + 1, j as usize);
                }
                assert forall|j: int| 0 <= j < n implies #[trigger] occ(ox.subrange(0, t + 1), j as usize)
                    == occ(ox.subrange(0, t as int), j as usize) + if ox[t as int] == j as usize { 1nat } else { 0nat } by {
                    lemma_occ_prefix(ox, t as int, j as usize);
                }
            }
            let cur = indeg[target];
            assert(cur >= 1);
            indeg.set(target, cur - 1);
            if cur - 1 == 0 {
                proof {
                    if done@[target as int] {
                        assert(d0[target as int] || target == x);
                    }
                }
                let ghost qb = queue@;
                queue.push(target);
                proof {
                    assert(!qb.contains(target));
                    assert forall|a: int, b: int| 0 <= a < b < queue@.len() implies queue@[a] != queue@[b] by {
                        if b == queue@.len() - 1 {
                            assert(qb.contains(qb[a]));
                        }
                    }
                    assert forall|q: int| 0 <= q < qmid.len() implies queue@.contains(#[trigger] qmid[q]) by {
                        let w = choose|w: int| 0 <= w < qb.len() && qb[w] == qmid[q];
                        assert(queue@[w] == qmid[q]);
                    }
                    assert(queue@[queue@.len() - 1] == target);
                    assert forall|j: int| 0 <= j < n && !done@[j] && #[trigger] indeg@[j] == 0 && i0[j] > 0 implies queue@.contains(j as usize) by {
                        if j != target {
                            let w = choose|w: int| 0 <= w < qb.len() && qb[w] == j as usize;
                            assert(queue@[w] == j as usize);
                        }
                    }
                }
            }
            t = t + 1;
        }
        proof {
            assert(ox.subrange(0, ox.len() as int) =~= ox);
            assert forall|j: int| 0 <= j < n implies indeg@[j] == pending(es@, done@, j as usize) by {
                assert(done@ == d0.update(x as int, true));
            }
            assert forall|j: int| 0 <= j < n && !done@[j] && indeg@[j] == 0 implies queue@.contains(j as usize) by {
                if qmid.contains(j as usize) {
                    let w = choose|w: int| 0 <= w < qmid.len() && qmid[w] == j as usize;
                    assert(queue@.contains(qmid[w]));
                } else if i0[j] == 0 {
                    assert(!d0[j]);
                    assert(q0.contains(j as usize));
                    let w = choose|w: int| 0 <= w < q0.len() && q0[w] == j as usize;
                    assert(w != q0.len() - 1);
                    assert(qmid[w] == j as usize);
                }
            }
        }
    }
    proof {
        assert(done@ =~= flags_of(order@, n as nat));
        assert forall|j: int| 0 <= j < n && !order@.contains(j as usize) implies
            #[trigger] pending(es@, flags_of(order@, n as nat), j as usize) > 0 by {
            if indeg@[j] == 0 {
                assert(queue@.contains(j as usize));
            }
        }
    }
    order
}


/// The names of the files, in order.
pub open spec fn names_of(files: Seq<(String, VtFile)>) -> Seq<Seq<char>> {
    Seq::new(files.len(), |i: int| files[i].0@)
}

/// The wires as pairs of names.
pub open spec fn pairs_of(edges: Seq<(String, String)>) -> Seq<(Seq<char>, Seq<char>)> {
    Seq::new(edges.len(), |i: int| (edges[i].0@, edges[i].1@))
}

/// A node of the ordering: a file's name or a wire's target.
pub open spec fn is_node(names: Seq<Seq<char>>, es: Seq<(Seq<char>, Seq<char>)>, x: Seq<char>) -> bool {
    names.contains(x) || exists|e: int| 0 <= e < es.len() && (#[trigger] es[e]).1 == x
}

/// `out` lists as many distinct nodes as there are files, and every wire
/// into a listed node comes from a node listed before it.
pub open spec fn topo_listing(out: Seq<Seq<char>>, names: Seq<Seq<char>>, es: Seq<(Seq<char>, Seq<char>)>) -> bool {
    &&& out.len() == names.len()
    &&& ordered_nodes(out, names, es)
}

/// `out` lists distinct nodes, and every wire into a listed node comes from
/// a node listed before it.
pub open spec fn ordered_nodes(out: Seq<Seq<char>>, names: Seq<Seq<char>>, es: Seq<(Seq<char>, Seq<char>)>) -> bool {
    &&& out.no_duplicates()
    &&& forall|a: int| 0 <= a < out.len() ==> is_node(names, es, #[trigger] out[a])
    &&& forall|e: int, b: int| #![trigger out[b], es[e]] 0 <= e < es.len() && 0 <= b < out.len() && out[b] == es[e].1
        ==> exists|a: int| 0 <= a < b && out[a] == es[e].0
}

/// Nothing more could be listed: every node left out has a wire into it
/// from a source left out (or from a name that is no node).
pub open spec fn closed_nodes(out: Seq<Seq<char>>, names: Seq<Seq<char>>, es: Seq<(Seq<char>, Seq<char>)>) -> bool {
    forall|x: Seq<char>| is_node(names, es, x) && !out.contains(x) ==>
        exists|e: int| 0 <= e < es.len() && (#[trigger] es[e]).1 == x && !out.contains(es[e].0)
}

/// A listing in wire order to which no node can be added.
pub open spec fn settled(out: Seq<Seq<char>>, names: Seq<Seq<char>>, es: Seq<(Seq<char>, Seq<char>)>) -> bool {
    ordered_nodes(out, names, es) && closed_nodes(out, names, es)
}

/// The file names are distinct and every wire joins two of them.
pub open spec fn well_named(names: Seq<Seq<char>>, es: Seq<(Seq<char>, Seq<char>)>) -> bool {
    &&& names.no_duplicates()
    &&& forall|e: int| 0 <= e < es.len() ==> names.contains((#[trigger] es[e]).0) && names.contains(es[e].1)
}

/// `rank` grows along every wire.
pub open spec fn ranked(es: Seq<(Seq<char>, Seq<char>)>, rank: spec_fn(Seq<char>) -> nat) -> bool {
    forall|e: int| 0 <= e < es.len() ==> rank((#[trigger] es[e]).0) < rank(es[e].1)
}

/// The wires admit a ranking, that is, they close no cycle.
pub open spec fn has_ranking(es: Seq<(Seq<char>, Seq<char>)>) -> bool {
    exists|rank: spec_fn(Seq<char>) -> nat| ranked(es, rank)
}

/// Distinct elements all found in a distinct `b` are no more than `b`.
proof fn lemma_len_within<T>(a: Seq<T>, b: Seq<T>)
    requires
        a.no_duplicates(),
        b.no_duplicates(),
        forall|i: int| 0 <= i < a.len() ==> b.contains(#[trigger] a[i]),
    ensures
        a.len() <= b.len(),
        a.len() == b.len() ==> forall|j: int| 0 <= j < b.len() ==> a.contains(#[trigger] b[j]),
{
    a.unique_seq_to_set();
    b.unique_seq_to_set();
    assert(a.to_set().subset_of(b.to_set())) by {
        assert forall|x: T| a.to_set().contains(x) implies b.to_set().contains(x) by {
            let i = choose|i: int| 0 <= i < a.len() && a[i] == x;
            assert(b.contains(a[i]));
        }
    }
    vstd::set_lib::lemma_len_subset(a.to_set(), b.to_set());
    if a.len() == b.len() {
        vstd::set_lib::lemma_subset_equality(a.to_set(), b.to_set());
        assert forall|j: int| 0 <= j < b.len() implies a.contains(#[trigger] b[j]) by {
            assert(b.to_set().contains(b[j]));
            assert(a.to_set().contains(b[j]));
        }
    }
}

/// A listing of well-named wires gives a ranking: each node's place in it.
pub proof fn lemma_listing_ranks(out: Seq<Seq<char>>, names: Seq<Seq<char>>, es: Seq<(Seq<char>, Seq<char>)>)
    requires
        topo_listing(out, names, es),
        well_named(names, es),
    ensures
        has_ranking(es),
{
    assert forall|i: int| 0 <= i < out.len() implies names.contains(#[trigger] out[i]) by {
        if !names.contains(out[i]) {
            let e = choose|e: int| 0 <= e < es.len() && (#[trigger] es[e]).1 == out[i];
            assert(names.contains(es[e].1));
        }
    }
    lemma_len_within(out, names);
    let rank = |x: Seq<char>| (choose|a: int| 0 <= a < out.len() && out[a] == x) as nat;
    assert forall|e: int| 0 <= e < es.len() implies rank((#[trigger] es[e]).0) < rank(es[e].1) by {
        let t = es[e].1;
        assert(names.contains(t));
        let j = choose|j: int| 0 <= j < names.len() && names[j] == t;
        assert(out.contains(names[j]));
        let b = choose|b: int| 0 <= b < out.len() && out[b] == t;
        assert(out[b] == es[e].1);
        let a = choose|a: int| 0 <= a < b && out[a] == es[e].0;
        let ra = choose|x: int| 0 <= x < out.len() && out[x] == es[e].0;
        assert(out[a] == es[e].0);
        assert(ra == a);
        assert(rank(es[e].1) == b);
        assert(rank(es[e].0) == a);
    }
    assert(ranked(es, rank));
}

/// The position of `name` among `keys`, if it is there.
fn key_pos(keys: &Vec<String>, name: &String) -> (r: Option<usize>)
    ensures
        match r {
            Some(p) => p < keys@.len() && keys@[p as int]@ == name@,
            None => !strs_v(keys@).contains(name@),
        },
{
    let mut i: usize = 0;
    while i < keys.len()
        invariant
            i <= keys@.len(),
            forall|j: int| 0 <= j < i ==> keys@[j]@ != name@,
        decreases keys.len() - i,
    {
        if str_eq(keys[i].as_str(), name.as_str()) {
            return Some(i);
        }
        i = i + 1;
    }
    proof {
        if strs_v(keys@).contains(name@) {
            let j = choose|j: int| 0 <= j < strs_v(keys@).len() && strs_v(keys@)[j] == name@;
            assert(keys@[j]@ == name@);
        }
    }
    None
}

/// The nodes to order: each file's name, then each wire's target, first
/// occurrence kept.
fn collect_keys(files: &[(String, VtFile)], edges: &[(String, String)]) -> (keys: Vec<String>)
    ensures
        strs_v(keys@).no_duplicates(),
        forall|i: int| 0 <= i < files@.len() ==> strs_v(keys@).contains(#[trigger] names_of(files@)[i]),
        forall|e: int| 0 <= e < edges@.len() ==> strs_v(keys@).contains((#[trigger] pairs_of(edges@)[e]).1),
        forall|k: int| 0 <= k < keys@.len() ==> is_node(names_of(files@), pairs_of(edges@), #[trigger] strs_v(keys@)[k]),
        well_named(names_of(files@), pairs_of(edges@)) ==> strs_v(keys@) == names_of(files@),
{
    let ghost names = names_of(files@);
    let ghost es = pairs_of(edges@);
    let mut keys: Vec<String> = Vec::new();
    let mut i: usize = 0;
    while i < files.len()
        invariant
            i <= files@.len(),
            names == names_of(files@),
            es == pairs_of(edges@),
            strs_v(keys@).no_duplicates(),
            forall|j: int| 0 <= j < i ==> strs_v(keys@).contains(#[trigger] names[j]),
            forall|k: int| 0 <= k < keys@.len() ==> names.contains(#[trigger] strs_v(keys@)[k]),
            names.no_duplicates() ==> strs_v(keys@) == names.subrange(0, i as int),
        decreases files.len() - i,
    {
        let name = &files[i].0;
        let ghost before = strs_v(keys@);
        match key_pos(&keys, name) {
            Some(p) => {
                proof {
                    assert(before[p as int] == name@);
                    assert(names[i as int] == name@);
                    if names.no_duplicates() {
                        assert(before == names.subrange(0, i as int));
                        assert(names[p as int] == names[i as int]);
                    }
                    assert forall|j: int| 0 <= j < i + 1 implies strs_v(keys@).contains(#[trigger] names[j]) by {
                        if j == i {
                            assert(strs_v(keys@)[p as int] == names[j]);
                        }
                    }
                }
            },
            None => {
                keys.push(name.clone());
                proof {
                    assert(strs_v(keys@) =~= before.push(name@));
                    assert(names[i as int] == name@);
                    assert forall|a: int, b: int| 0 <= a < b < strs_v(keys@).len() implies strs_v(keys@)[a] != strs_v(keys@)[b] by {
                        if b == before.len() {
                            assert(before.contains(before[a]));
                        }
                    }
                    assert forall|j: int| 0 <= j < i + 1 implies strs_v(keys@).contains(#[trigger] names[j]) by {
                        if j < i {
                            let w = choose|w: int| 0 <= w < before.len() && before[w] == names[j];
                            assert(strs_v(keys@)[w] == names[j]);
                        } else {
                            assert(strs_v(keys@)[before.len() as int] == names[j]);
                        }
                    }
                    assert forall|k: int| 0 <= k < keys@.len() implies names.contains(#[trigger] strs_v(keys@)[k]) by {
                        if k < before.len() {
                            assert(strs_v(keys@)[k] == before[k]);
                        } else {
                            assert(strs_v(keys@)[k] == names[i as int]);
                        }
                    }
                    if names.no_duplicates() {
                        assert(names.subrange(0, i + 1) =~= names.subrange(0, i as int).push(names[i as int]));
                    }
                }
            },
        }
        i = i + 1;
    }
    proof {
        assert(names.subrange(0, files@.len() as int) =~= names);
    }
    let mut e: usize = 0;
    while e < edges.len()
        invariant
            e <= edges@.len(),
            names == names_of(files@),
            es == pairs_of(edges@),
            strs_v(keys@).no_duplicates(),
            forall|j: int| 0 <= j < files@.len() ==> strs_v(keys@).contains(#[trigger] names[j]),
            forall|j: int| 0 <= j < e ==> strs_v(keys@).contains((#[trigger] es[j]).1),
            forall|k: int| 0 <= k < keys@.len() ==> is_node(names, es, #[trigger] strs_v(keys@)[k]),
            well_named(names, es) ==> strs_v(keys@) == names,
        decreases edges.len() - e,
    {
        let target = &edges[e].1;
        let ghost before = strs_v(keys@);
        proof {
            assert(es[e as int].1 == target@);
        }
        match key_pos(&keys, target) {
            Some(p) => {
                proof {
                    assert(before[p as int] == target@);
                    assert(strs_v(keys@).contains(es[e as int].1));
                }
            },
            None => {
                proof {
                    if well_named(names, es) {
                        assert(names.contains(es[e as int].1));
                    }
                }
                keys.push(target.clone());
                proof {
                    assert(strs_v(keys@) =~= before.push(target@));
                    assert forall|a: int, b: int| 0 <= a < b < strs_v(keys@).len() implies strs_v(keys@)[a] != strs_v(keys@)[b] by {
                        if b == before.len() {
                            assert(before.contains(before[a]));
                        }
                    }
                    assert forall|j: int| 0 <= j < files@.len() implies strs_v(keys@).contains(#[trigger] names[j]) by {
                        let w = choose|w: int| 0 <= w < before.len() && before[w] == names[j];
                        assert(strs_v(keys@)[w] == names[j]);
                    }
                    assert forall|k: int| 0 <= k < keys@.len() implies is_node(names, es, #[trigger] strs_v(keys@)[k]) by {
                        if k < before.len() {
                            assert(strs_v(keys@)[k] == before[k]);
                        } else {
                            assert(strs_v(keys@)[k] == es[e as int].1);
                        }
                    }
                    assert(strs_v(keys@)[before.len() as int] == es[e as int].1);
                    assert(strs_v(keys@).contains(es[e as int].1));
                }
            },
        }
        proof {
            assert forall|j: int| 0 <= j < e + 1 implies strs_v(keys@).contains((#[trigger] es[j]).1) by {
                if j < e {
                    let w = choose|w: int| 0 <= w < before.len() && before[w] == es[j].1;
                    assert(strs_v(keys@)[w] == es[j].1);
                }
            }
        }
        e = e + 1;
    }
    keys
}


/// The wires as positions among `keys`: the target's, and the source's
/// where the source is a key.
fn key_edges(keys: &Vec<String>, edges: &[(String, String)]) -> (ke: Vec<KeyEdge>)
    requires
        forall|e: int| 0 <= e < edges@.len() ==> strs_v(keys@).contains((#[trigger] pairs_of(edges@)[e]).1),
    ensures
        ke@.len() == edges@.len(),
        forall|e: int| 0 <= e < ke@.len() ==> (#[trigger] ke@[e]).1 < keys@.len()
            && strs_v(keys@)[ke@[e].1 as int] == pairs_of(edges@)[e].1,
        forall|e: int| 0 <= e < ke@.len() ==> match (#[trigger] ke@[e]).0 {
            Some(s) => s < keys@.len() && strs_v(keys@)[s as int] == pairs_of(edges@)[e].0,
            None => !strs_v(keys@).contains(pairs_of(edges@)[e].0),
        },
{
    let ghost es = pairs_of(edges@);
    let mut ke: Vec<KeyEdge> = Vec::new();
    let mut e: usize = 0;
    while e < edges.len()
        invariant
            e <= edges@.len(),
            es == pairs_of(edges@),
            ke@.len() == e,
            forall|j: int| 0 <= j < edges@.len() ==> strs_v(keys@).contains((#[trigger] es[j]).1),
            forall|j: int| 0 <= j < e ==> (#[trigger] ke@[j]).1 < keys@.len() && strs_v(keys@)[ke@[j].1 as int] == es[j].1,
            forall|j: int| 0 <= j < e ==> match (#[trigger] ke@[j]).0 {
                Some(s) => s < keys@.len() && strs_v(keys@)[s as int] == es[j].0,
                None => !strs_v(keys@).contains(es[j].0),
            },
        decreases edges.len() - e,
    {
        let from = key_pos(keys, &edges[e].0);
        let to = key_pos(keys, &edges[e].1);
        proof {
            assert(es[e as int] == (edges@[e as int].0@, edges@[e as int].1@));
            assert(strs_v(keys@).contains(es[e as int].1));
        }
        match to {
            Some(t) => {
                ke.push((from, t));
            },
            None => {
                // Never taken: every wire's target is a key.
                proof {
                    assert(false);
                }
            },
        }
        e = e + 1;
    }
    ke
}

/// The ordered keys, read as names, list the nodes in an order that every
/// wire respects.
proof fn lemma_order_listing(keys: Seq<Seq<char>>, ke: Seq<KeyEdge>, order: Seq<usize>,
    names: Seq<Seq<char>>, es: Seq<(Seq<char>, Seq<char>)>)
    requires
        keys.no_duplicates(),
        forall|k: int| 0 <= k < keys.len() ==> is_node(names, es, #[trigger] keys[k]),
        ke.len() == es.len(),
        forall|e: int| 0 <= e < ke.len() ==> (#[trigger] ke[e]).1 < keys.len() && keys[ke[e].1 as int] == es[e].1,
        forall|e: int| 0 <= e < ke.len() ==> match (#[trigger] ke[e]).0 {
            Some(s) => s < keys.len() && keys[s as int] == es[e].0,
            None => !keys.contains(es[e].0),
        },
        order.no_duplicates(),
        forall|a: int| 0 <= a < order.len() ==> (#[trigger] order[a]) < keys.len(),
        edges_ordered(ke, order),
    ensures
        ordered_nodes(Seq::new(order.len(), |a: int| keys[order[a] as int]), names, es),
{
    let out = Seq::new(order.len(), |a: int| keys[order[a] as int]);
    assert forall|a: int, b: int| 0 <= a < b < out.len() implies out[a] != out[b] by {
        assert(order[a] != order[b]);
    }
    assert forall|a: int| 0 <= a < out.len() implies is_node(names, es, #[trigger] out[a]) by {
        assert(out[a] == keys[order[a] as int]);
    }
    assert forall|e: int, b: int| #![trigger out[b], es[e]] 0 <= e < es.len() && 0 <= b < out.len() && out[b] == es[e].1
        implies exists|a: int| 0 <= a < b && out[a] == es[e].0 by {
        let t = ke[e].1;
        assert(keys[t as int] == es[e].1);
        assert(keys[order[b] as int] == keys[t as int]);
        assert(order[b] == t);
        assert(order.contains(ke[e].1));
        let s = ke[e].0->0;
        let (a, b2) = choose|a: int, b2: int| 0 <= a < b2 < order.len() && order[a] == s && order[b2] == ke[e].1;
        assert(b2 == b);
        assert(out[a] == keys[s as int]);
    }
}

/// The ordered keys, read as names, leave out only nodes that wait on a
/// source left out.
proof fn lemma_order_closed(keys: Seq<Seq<char>>, ke: Seq<KeyEdge>, order: Seq<usize>,
    names: Seq<Seq<char>>, es: Seq<(Seq<char>, Seq<char>)>)
    requires
        keys.no_duplicates(),
        forall|x: Seq<char>| #[trigger] is_node(names, es, x) ==> keys.contains(x),
        ke.len() == es.len(),
        forall|e: int| 0 <= e < ke.len() ==> (#[trigger] ke[e]).1 < keys.len() && keys[ke[e].1 as int] == es[e].1,
        forall|e: int| 0 <= e < ke.len() ==> match (#[trigger] ke[e]).0 {
            Some(s) => s < keys.len() && keys[s as int] == es[e].0,
            None => !keys.contains(es[e].0),
        },
        forall|a: int| 0 <= a < order.len() ==> (#[trigger] order[a]) < keys.len(),
        forall|k: int| 0 <= k < keys.len() && !order.contains(k as usize) ==>
            #[trigger] pending(ke, flags_of(order, keys.len()), k as usize) > 0,
        keys.len() <= usize::MAX,
    ensures
        closed_nodes(Seq::new(order.len(), |a: int| keys[order[a] as int]), names, es),
{
    let out = Seq::new(order.len(), |a: int| keys[order[a] as int]);
    let n = keys.len();
    let done = flags_of(order, n);
    assert forall|x: Seq<char>| is_node(names, es, x) && !out.contains(x) implies
        exists|e: int| 0 <= e < es.len() && (#[trigger] es[e]).1 == x && !out.contains(es[e].0) by {
        assert(keys.contains(x));
        let k = choose|k: int| 0 <= k < keys.len() && keys[k] == x;
        if order.contains(k as usize) {
            let a = choose|a: int| 0 <= a < order.len() && order[a] == k as usize;
            assert(order[a] as int == k);
            assert(out[a] == x);
            assert(out.contains(x));
        }
        assert(pending(ke, done, k as usize) > 0);
        lemma_pending_witness(ke, done, k as usize);
        let i = choose|i: int| 0 <= i < ke.len() && (#[trigger] ke[i]).1 == k as usize
            && !(ke[i].0 matches Some(s) && done[s as int]);
        assert(es[i].1 == x);
        if out.contains(es[i].0) {
            let a = choose|a: int| 0 <= a < out.len() && out[a] == es[i].0;
            assert(keys[order[a] as int] == es[i].0);
            assert(keys.contains(es[i].0));
            let s = ke[i].0->0;
            assert(keys[s as int] == keys[order[a] as int]);
            assert(s == order[a]);
            assert(order.contains(s));
            assert(done[s as int]);
        }
    }
}

/// A node listed by one ordered listing is listed by every closed one.
proof fn lemma_listed_in(o1: Seq<Seq<char>>, o2: Seq<Seq<char>>, names: Seq<Seq<char>>,
    es: Seq<(Seq<char>, Seq<char>)>, b: int)
    requires
        ordered_nodes(o1, names, es),
        closed_nodes(o2, names, es),
        0 <= b < o1.len(),
    ensures
        o2.contains(o1[b]),
    decreases b,
{
    let x = o1[b];
    if !o2.contains(x) {
        assert(is_node(names, es, o1[b]));
        let e = choose|e: int| 0 <= e < es.len() && (#[trigger] es[e]).1 == x && !o2.contains(es[e].0);
        assert(o1[b] == es[e].1);
        let a = choose|a: int| 0 <= a < b && o1[a] == es[e].0;
        lemma_listed_in(o1, o2, names, es, a);
    }
}

/// All settled listings list the same nodes, so as many of them.
pub proof fn lemma_settled_unique(o1: Seq<Seq<char>>, o2: Seq<Seq<char>>, names: Seq<Seq<char>>,
    es: Seq<(Seq<char>, Seq<char>)>)
    requires
        settled(o1, names, es),
        settled(o2, names, es),
    ensures
        o1.len() == o2.len(),
        forall|i: int| 0 <= i < o1.len() ==> o2.contains(#[trigger] o1[i]),
{
    assert forall|i: int| 0 <= i < o1.len() implies o2.contains(#[trigger] o1[i]) by {
        lemma_listed_in(o1, o2, names, es, i);
    }
    assert forall|i: int| 0 <= i < o2.len() implies o1.contains(#[trigger] o2[i]) by {
        lemma_listed_in(o2, o1, names, es, i);
    }
    lemma_len_within(o1, o2);
    lemma_len_within(o2, o1);
}

/// Where the wires admit a ranking and all join distinct named keys, no key
/// is left with an edge that waits on it: Kahn's order holds every key.
proof fn lemma_ranking_completes(keys: Seq<Seq<char>>, ke: Seq<KeyEdge>, order: Seq<usize>, es: Seq<(Seq<char>, Seq<char>)>)
    requires
        well_named(keys, es),
        ke.len() == es.len(),
        forall|e: int| 0 <= e < ke.len() ==> (#[trigger] ke[e]).1 < keys.len() && keys[ke[e].1 as int] == es[e].1,
        forall|e: int| 0 <= e < ke.len() ==> match (#[trigger] ke[e]).0 {
            Some(s) => s < keys.len() && keys[s as int] == es[e].0,
            None => !keys.contains(es[e].0),
        },
        order.no_duplicates(),
        forall|a: int| 0 <= a < order.len() ==> (#[trigger] order[a]) < keys.len(),
        forall|k: int| 0 <= k < keys.len() && !order.contains(k as usize) ==>
            #[trigger] pending(ke, flags_of(order, keys.len()), k as usize) > 0,
        has_ranking(es),
        keys.len() <= usize::MAX,
    ensures
        order.len() == keys.len(),
{
    let n = keys.len();
    let range = Seq::new(n, |i: int| i as usize);
    assert forall|a: int, b: int| 0 <= a < b < range.len() implies range[a] != range[b] by {
        assert(range[a] == a as usize && range[b] == b as usize);
    }
    assert forall|i: int| 0 <= i < order.len() implies range.contains(#[trigger] order[i]) by {
        assert(range[order[i] as int] == order[i]);
    }
    lemma_len_within(order, range);
    if order.len() < n {
        if forall|k: int| 0 <= k < n ==> order.contains(#[trigger] range[k]) {
            lemma_len_within(range, order);
            assert(false);
        }
        let k = choose|k: int| 0 <= k < n && !order.contains(#[trigger] range[k]);
        assert(range[k] == k as usize);
        let rank = choose|rank: spec_fn(Seq<char>) -> nat| ranked(es, rank);
        let done = flags_of(order, n);
        let m = lemma_least_rank(keys, done, rank, k);
        assert(pending(ke, done, m as usize) > 0);
        lemma_pending_witness(ke, done, m as usize);
        let i = choose|i: int| 0 <= i < ke.len() && (#[trigger] ke[i]).1 == m as usize
            && !(ke[i].0 matches Some(s) && done[s as int]);
        assert(keys.contains(es[i].0));
        let s = ke[i].0->0;
        assert(keys[s as int] == es[i].0);
        assert(rank(es[i].0) < rank(es[i].1));
        assert(keys[m] == es[i].1);
        assert(!done[s as int]);
        assert(rank(keys[m]) <= rank(keys[s as int]));
    }
}

/// Orders the named nodes so that every wire's source comes before its
/// target (Kahn's algorithm). The nodes are the files' names and the wires'
/// targets; a wire from a name that is neither never lets its target go.
/// Fails where fewer nodes than files could be ordered.
pub fn topo_sort_names(files: &[(String, VtFile)], edges: &[(String, String)]) -> (r: Result<Vec<String>, VenturiError>)
    ensures
        r matches Ok(out) ==> topo_listing(strs_v(out@), names_of(files@), pairs_of(edges@))
            && settled(strs_v(out@), names_of(files@), pairs_of(edges@)),
        r is Err ==> err_is(r, ErrV::Codegen("cycle detected in DAG"@)),
        r is Ok <==> exists|o: Seq<Seq<char>>| #[trigger] topo_listing(o, names_of(files@), pairs_of(edges@))
            && settled(o, names_of(files@), pairs_of(edges@)),
        well_named(names_of(files@), pairs_of(edges@)) ==> (r is Ok <==> has_ranking(pairs_of(edges@))),
{
    let ghost names = names_of(files@);
    let ghost es = pairs_of(edges@);
    let keys = collect_keys(files, edges);
    let ke = key_edges(&keys, edges);
    let n = keys.len();
    let ghost kv = strs_v(keys@);
    proof {
        assert forall|i: int| 0 <= i < ke@.len() implies ((#[trigger] ke@[i]).0 matches Some(s) ==> s < n) by {
            assert(ke@[i] == ke@[i]);
        }
    }
    let order = kahn(n, &ke);
    proof {
        let all = Seq::new(order@.len(), |a: int| kv[order@[a] as int]);
        assert forall|x: Seq<char>| is_node(names, es, x) implies kv.contains(x) by {
            if names.contains(x) {
                let j = choose|j: int| 0 <= j < names.len() && names[j] == x;
                assert(kv.contains(names_of(files@)[j]));
            } else {
                let e = choose|e: int| 0 <= e < es.len() && (#[trigger] es[e]).1 == x;
                assert(kv.contains(pairs_of(edges@)[e].1));
            }
        }
        lemma_order_listing(kv, ke@, order@, names, es);
        lemma_order_closed(kv, ke@, order@, names, es);
        assert(settled(all, names, es));
    }
    if order.len() != files.len() {
        proof {
            if well_named(names, es) && has_ranking(es) {
                lemma_ranking_completes(kv, ke@, order@, es);
            }
            let all = Seq::new(order@.len(), |a: int| kv[order@[a] as int]);
            if exists|o: Seq<Seq<char>>| #[trigger] topo_listing(o, names, es) && settled(o, names, es) {
                let o = choose|o: Seq<Seq<char>>| #[trigger] topo_listing(o, names, es) && settled(o, names, es);
                lemma_settled_unique(o, all, names, es);
            }
        }
        return Err(VenturiError::Codegen(String::from_str("cycle detected in DAG")));
    }
    let mut out: Vec<String> = Vec::new();
    let mut i: usize = 0;
    while i < order.len()
        invariant
            i <= order@.len(),
            kv == strs_v(keys@),
            forall|a: int| 0 <= a < order@.len() ==> (#[trigger] order@[a]) < keys@.len(),
            out@.len() == i,
            strs_v(out@) == Seq::new(i as nat, |a: int| kv[order@[a] as int]),
        decreases order.len() - i,
    {
        let k = order[i];
        let ghost before = out@;
        out.push(keys[k].clone());
        proof {
            assert(out@ == before.push(out@[i as int]));
            assert(out@[i as int]@ == kv[k as int]);
            assert forall|a: int| 0 <= a < i + 1 implies #[trigger] strs_v(out@)[a] == kv[order@[a] as int] by {
                if a < i {
                    assert(out@[a] == before[a]);
                    assert(strs_v(before)[a] == kv[order@[a] as int]);
                }
            }
            assert(strs_v(out@) =~= Seq::new((i + 1) as nat, |a: int| kv[order@[a] as int]));
        }
        i = i + 1;
    }
    proof {
        assert(strs_v(out@) =~= Seq::new(order@.len(), |a: int| kv[order@[a] as int]));
        assert(topo_listing(strs_v(out@), names, es));
        if well_named(names, es) {
            lemma_listing_ranks(strs_v(out@), names, es);
        }
    }
    Ok(out)
}


/// The index of the first file named `name`, if any.
pub open spec fn first_file(files: Seq<(String, VtFile)>, name: Seq<char>) -> Option<int> {
    if exists|k: int| 0 <= k < files.len() && #[trigger] files[k].0@ == name {
        Some(choose|k: int| 0 <= k < files.len() && #[trigger] files[k].0@ == name
            && forall|j: int| 0 <= j < k ==> files[j].0@ != name)
    } else {
        None
    }
}

/// For each ordered name that names a file, the index of the first such
/// file; names of no file are passed over.
pub open spec fn picked(ordered: Seq<Seq<char>>, files: Seq<(String, VtFile)>) -> Seq<int>
    decreases ordered.len(),
{
    if ordered.len() == 0 {
        seq![]
    } else {
        let pre = picked(ordered.drop_last(), files);
        match first_file(files, ordered.last()) {
            Some(k) => pre.push(k),
            None => pre,
        }
    }
}

proof fn lemma_first_file(files: Seq<(String, VtFile)>, name: Seq<char>, k: int)
    requires
        0 <= k < files.len(),
        files[k].0@ == name,
        forall|j: int| 0 <= j < k ==> files[j].0@ != name,
    ensures
        first_file(files, name) == Some(k),
{
    let c = choose|c: int| 0 <= c < files.len() && #[trigger] files[c].0@ == name
        && forall|j: int| 0 <= j < c ==> files[j].0@ != name;
    assert(files[k].0@ == name);
    if c < k {
        assert(files[c].0@ != name);
    } else if c > k {
        assert(files[k].0@ != name);
    }
}

/// The position of the first file named `name`.
fn file_pos(files: &Vec<(String, VtFile)>, name: &str) -> (r: Option<usize>)
    ensures
        match r {
            Some(k) => k < files@.len() && files@[k as int].0@ == name@
                && forall|j: int| 0 <= j < k ==> files@[j].0@ != name@,
            None => forall|j: int| 0 <= j < files@.len() ==> files@[j].0@ != name@,
        },
{
    let mut k: usize = 0;
    while k < files.len()
        invariant
            k <= files@.len(),
            forall|j: int| 0 <= j < k ==> files@[j].0@ != name@,
        decreases files.len() - k,
    {
        if str_eq(files[k].0.as_str(), name) {
            return Some(k);
        }
        k = k + 1;
    }
    None
}

/// The files to emit, in the given order of names: each name's first file,
/// names of no file passed over.
pub fn nodes_for<'a>(ordered: &Vec<String>, files: &'a Vec<(String, VtFile)>) -> (r: Vec<(&'a str, &'a VtFile)>)
    ensures
        r@.len() == picked(strs_v(ordered@), files@).len(),
        forall|j: int| 0 <= j < r@.len() ==> {
            let k = #[trigger] picked(strs_v(ordered@), files@)[j];
            0 <= k < files@.len() && r@[j].0@ == files@[k].0@ && *r@[j].1 == files@[k].1
        },
{
    let ghost names = strs_v(ordered@);
    let mut out: Vec<(&'a str, &'a VtFile)> = Vec::new();
    let mut i: usize = 0;
    while i < ordered.len()
        invariant
            i <= ordered@.len(),
            names == strs_v(ordered@),
            out@.len() == picked(names.subrange(0, i as int), files@).len(),
            forall|j: int| 0 <= j < out@.len() ==> {
                let k = #[trigger] picked(names.subrange(0, i as int), files@)[j];
                0 <= k < files@.len() && out@[j].0@ == files@[k].0@ && *out@[j].1 == files@[k].1
            },
        decreases ordered.len() - i,
    {
        let ghost pre = picked(names.subrange(0, i as int), files@);
        proof {
            assert(names.subrange(0, i + 1).drop_last() =~= names.subrange(0, i as int));
            assert(names.subrange(0, i + 1).last() == ordered@[i as int]@);
        }
        let pos = file_pos(files, ordered[i].as_str());
        if let Some(k) = pos {
            proof {
                lemma_first_file(files@, ordered@[i as int]@, k as int);
            }
            let ghost before = out@;
            out.push((files[k].0.as_str(), &files[k].1));
            proof {
                let now = picked(names.subrange(0, i + 1), files@);
                assert(now == pre.push(k as int));
                assert forall|j: int| 0 <= j < out@.len() implies {
                    let kk = #[trigger] now[j];
                    0 <= kk < files@.len() && out@[j].0@ == files@[kk].0@ && *out@[j].1 == files@[kk].1
                } by {
                    if j < before.len() {
                        assert(now[j] == pre[j]);
                        assert(out@[j] == before[j]);
                    }
                }
            }
        } else {
            proof {
                assert(!(exists|c: int| 0 <= c < files@.len() && #[trigger] files@[c].0@ == ordered@[i as int]@));
                assert(picked(names.subrange(0, i + 1), files@) == pre);
            }
        }
        i = i + 1;
    }
    assert(names.subrange(0, ordered@.len() as int) =~= names);
    out
}

/// The wires of all the files, file by file, in the order written.
pub fn wires_of(files: &Vec<(String, VtFile)>) -> (r: Vec<(String, String)>)
    ensures
        pairs_of(r@) == crate::chassis::gather(files@, |vt: VtFile| crate::chassis::file_wires(vt)),
{
    let ghost fw = |vt: VtFile| crate::chassis::file_wires(vt);
    let mut out: Vec<(String, String)> = Vec::new();
    let mut i: usize = 0;
    while i < files.len()
        invariant
            i <= files@.len(),
            fw == (|vt: VtFile| crate::chassis::file_wires(vt)),
            pairs_of(out@) == crate::chassis::gather(files@.subrange(0, i as int), fw),
        decreases files.len() - i,
    {
        let vt = &files[i].1;
        let ghost out0 = pairs_of(out@);
        proof {
            assert(files@.subrange(0, i + 1).drop_last() =~= files@.subrange(0, i as int));
        }
        let mut j: usize = 0;
        while j < vt.dag_wires.len()
            invariant
                j <= vt.dag_wires@.len(),
                pairs_of(out@) == out0 + crate::chassis::file_wires(*vt).subrange(0, j as int),
            decreases vt.dag_wires.len() - j,
        {
            let w = &vt.dag_wires[j];
            let ghost before = out@;
            out.push((w.from.clone(), w.to.clone()));
            proof {
                assert(pairs_of(out@) =~= pairs_of(before).push((w.from@, w.to@)));
                assert(crate::chassis::file_wires(*vt).subrange(0, j + 1)
                    =~= crate::chassis::file_wires(*vt).subrange(0, j as int).push((w.from@, w.to@)));
            }
            j = j + 1;
        }
        assert(crate::chassis::file_wires(*vt).subrange(0, vt.dag_wires@.len() as int) =~= crate::chassis::file_wires(*vt));
        i = i + 1;
    }
    assert(files@.subrange(0, files@.len() as int) =~= files@);
    out
}

} // verus!
