//! Laws of the resolver, stated and proved over the same spec functions that
//! the executable functions' contracts use: determinism of the report,
//! boundary (XOR) symmetry of every reported edge, pruning containment, and
//! stability of reachability under added edges (so an alternate admissible
//! path keeps a node in the closure when some other edge disappears).

use vstd::prelude::*;
use crate::closure::{lemma_path_step_at, path_step, reaches, valid_path};
use crate::graph::{Graph, edge_admissible, skip_matches};
use crate::report::{
    ReportMap, edge_dep, edge_in_frontier, edge_key, find_key, frontier_upto, insert_grouped,
    lemma_find_key, spec_frontier,
};
use crate::resolve::{candidates_upto, spec_candidates};
use crate::text::contains_substr;

verus! {

/// Determinism: the report map is a pure function of graph, skip list and
/// target, so repeated resolutions of the same inputs produce an identical
/// report.
pub proof fn lemma_determinism(
    g: Graph,
    skip: Seq<Seq<char>>,
    target: int,
    r1: ReportMap,
    r2: ReportMap,
)
    requires
        r1 == spec_frontier(g, skip, target),
        r2 == spec_frontier(g, skip, target),
    ensures
        r1 == r2,
{
}

/// Every dependency string of the partial report traces back to a reported
/// edge among the first `n` with the same key and display string.
proof fn lemma_frontier_upto_from_edges(
    g: Graph,
    skip: Seq<Seq<char>>,
    target: int,
    n: int,
    i: int,
    d: int,
)
    requires
        0 <= i < frontier_upto(g, skip, target, n).len(),
        0 <= d < frontier_upto(g, skip, target, n)[i].1.len(),
    ensures
        exists|k: int|
            0 <= k < n && #[trigger] edge_in_frontier(g, skip, target, k) && edge_key(g, k)
                == frontier_upto(g, skip, target, n)[i].0 && edge_dep(g, k) == frontier_upto(
                g,
                skip,
                target,
                n,
            )[i].1[d],
    decreases n,
{
    let m = frontier_upto(g, skip, target, n);
    if n <= 0 {
        assert(false);
    } else {
        let prev = frontier_upto(g, skip, target, n - 1);
        if edge_in_frontier(g, skip, target, n - 1) {
            let key = edge_key(g, n - 1);
            let dep = edge_dep(g, n - 1);
            lemma_find_key(prev, key);
            let fi = find_key(prev, key);
            if fi < 0 {
                assert(m == prev.push((key, seq![dep])));
                if i < prev.len() {
                    assert(m[i] == prev[i]);
                    lemma_frontier_upto_from_edges(g, skip, target, n - 1, i, d);
                } else {
                    assert(m[i] == (key, seq![dep]));
                    assert(m[i].1[d] == dep);
                    assert(edge_in_frontier(g, skip, target, n - 1));
                }
            } else {
                assert(m == prev.update(fi, (key, prev[fi].1.push(dep))));
                if i != fi {
                    assert(m[i] == prev[i]);
                    lemma_frontier_upto_from_edges(g, skip, target, n - 1, i, d);
                } else {
                    assert(m[i].0 == key && prev[fi].0 == key);
                    if d < prev[fi].1.len() {
                        assert(m[i].1[d] == prev[i].1[d]);
                        lemma_frontier_upto_from_edges(g, skip, target, n - 1, i, d);
                    } else {
                        assert(m[i].1[d] == dep);
                        assert(edge_in_frontier(g, skip, target, n - 1));
                    }
                }
            }
        } else {
            assert(m == prev);
            lemma_frontier_upto_from_edges(g, skip, target, n - 1, i, d);
        }
    }
}

/// XOR symmetry: every key/dependency pair of the report comes from a
/// reported edge — admissible, both endpoints in the closure, and with
/// exactly one workspace-local endpoint (`edge_in_frontier` contains the
/// conjunct `from.in_workspace != to.in_workspace`). An edge with both or
/// neither endpoint workspace-local therefore never contributes an entry.
pub proof fn lemma_xor_symmetry(g: Graph, skip: Seq<Seq<char>>, target: int, i: int, d: int)
    requires
        0 <= i < spec_frontier(g, skip, target).len(),
        0 <= d < spec_frontier(g, skip, target)[i].1.len(),
    ensures
        exists|k: int|
            #[trigger] edge_in_frontier(g, skip, target, k) && edge_key(g, k) == spec_frontier(
                g,
                skip,
                target,
            )[i].0 && edge_dep(g, k) == spec_frontier(g, skip, target)[i].1[d],
{
    lemma_frontier_upto_from_edges(g, skip, target, g.edges.len() as int, i, d);
}

/// Pruning containment: an edge whose destination's identifier matches a
/// skip substring is never reported, and neither is an edge whose source or
/// destination has no admissible path to the target — in particular any
/// edge reachable only through a pruned node. Together with
/// `lemma_xor_symmetry`, no entry of the report can stem from such an edge.
pub proof fn lemma_pruning_containment(g: Graph, skip: Seq<Seq<char>>, target: int, k: int)
    ensures
        0 <= k < g.edges.len() && skip_matches(skip, g.nodes[g.edges[k].to as int].id@)
            ==> !edge_in_frontier(g, skip, target, k),
        !reaches(g, skip, g.edges[k].from as int, target) ==> !edge_in_frontier(
            g,
            skip,
            target,
            k,
        ),
        !reaches(g, skip, g.edges[k].to as int, target) ==> !edge_in_frontier(g, skip, target, k),
{
}

/// Closure completeness under edge removal: reachability only ever uses the
/// edges a graph has, so if every edge of `g_small` also occurs in `g_big`
/// (over the same nodes), any node with an admissible path in `g_small`
/// still reaches the target in `g_big`. Removing a single edge from a
/// diamond therefore never drops a node that keeps an alternate admissible
/// path, since the surviving path transfers unchanged.
pub proof fn lemma_reaches_monotone(
    g_small: Graph,
    g_big: Graph,
    skip: Seq<Seq<char>>,
    n: int,
    target: int,
)
    requires
        g_small.nodes@ == g_big.nodes@,
        forall|k: int|
            0 <= k < g_small.edges.len() ==> exists|k2: int|
                0 <= k2 < g_big.edges.len() && #[trigger] g_big.edges@[k2] == #[trigger] g_small.edges@[k],
        reaches(g_small, skip, n, target),
    ensures
        reaches(g_big, skip, n, target),
{
    let p = choose|p: Seq<int>| #[trigger] valid_path(g_small, skip, p, target) && p.first() == n;
    assert forall|j: int| 0 <= j < p.len() - 1 implies #[trigger] path_step(
        g_big,
        skip,
        p[j],
        p[j + 1],
    ) by {
        lemma_path_step_at(g_small, skip, p, target, j);
        let k = choose|k: int|
            0 <= k < g_small.edges.len() && (#[trigger] g_small.edges[k]).from as int == p[j]
                && g_small.edges[k].to as int == p[j + 1] && edge_admissible(g_small, skip, k);
        let k2 = choose|k2: int|
            0 <= k2 < g_big.edges.len() && #[trigger] g_big.edges@[k2] == g_small.edges@[k];
        assert(g_big.edges[k2].from as int == p[j]);
        assert(g_big.edges[k2].to as int == p[j + 1]);
        assert(edge_admissible(g_big, skip, k2));
    }
    assert(valid_path(g_big, skip, p, target));
}

/// Some list of `m` is keyed by `key` and holds `dep`.
pub open spec fn report_has_pair(m: ReportMap, key: Seq<char>, dep: Seq<char>) -> bool {
    exists|i: int, d: int|
        0 <= i < m.len() && 0 <= d < m[i].1.len() && (#[trigger] m[i].1[d]) == dep && m[i].0
            == key
}

/// Grouped insertion never loses a pair that is already present.
proof fn lemma_insert_grouped_preserves(m: ReportMap, key: Seq<char>, dep: Seq<char>, a: Seq<char>, b: Seq<char>)
    requires
        report_has_pair(m, a, b),
    ensures
        report_has_pair(insert_grouped(m, key, dep), a, b),
{
    let m2 = insert_grouped(m, key, dep);
    let (i, d) = choose|i: int, d: int|
        0 <= i < m.len() && 0 <= d < m[i].1.len() && (#[trigger] m[i].1[d]) == b && m[i].0 == a;
    lemma_find_key(m, key);
    let fi = find_key(m, key);
    if fi < 0 {
        assert(m2[i] == m[i]);
        assert(m2[i].1[d] == b && m2[i].0 == a);
    } else if i != fi {
        assert(m2[i] == m[i]);
        assert(m2[i].1[d] == b && m2[i].0 == a);
    } else {
        assert(m2[i].0 == key && m[i].0 == key);
        assert(m2[i].1 == m[i].1.push(dep));
        assert(m2[i].1[d] == b && m2[i].0 == a);
    }
}

/// Grouped insertion makes the inserted pair present.
proof fn lemma_insert_grouped_inserts(m: ReportMap, key: Seq<char>, dep: Seq<char>)
    ensures
        report_has_pair(insert_grouped(m, key, dep), key, dep),
{
    let m2 = insert_grouped(m, key, dep);
    lemma_find_key(m, key);
    let fi = find_key(m, key);
    if fi < 0 {
        assert(m2[m.len() as int] == (key, seq![dep]));
        assert(m2[m.len() as int].1[0] == dep);
    } else {
        assert(m2[fi].0 == key);
        assert(m2[fi].1 == m[fi].1.push(dep));
        assert(m2[fi].1[m[fi].1.len() as int] == dep);
    }
}

/// Every reported edge among the first `n` has its pair in the partial
/// report.
proof fn lemma_frontier_upto_complete(g: Graph, skip: Seq<Seq<char>>, target: int, n: int, k: int)
    requires
        0 <= k < n,
        edge_in_frontier(g, skip, target, k),
    ensures
        report_has_pair(frontier_upto(g, skip, target, n), edge_key(g, k), edge_dep(g, k)),
    decreases n,
{
    let prev = frontier_upto(g, skip, target, n - 1);
    if k == n - 1 {
        lemma_insert_grouped_inserts(prev, edge_key(g, k), edge_dep(g, k));
    } else {
        lemma_frontier_upto_complete(g, skip, target, n - 1, k);
        if edge_in_frontier(g, skip, target, n - 1) {
            lemma_insert_grouped_preserves(
                prev,
                edge_key(g, n - 1),
                edge_dep(g, n - 1),
                edge_key(g, k),
                edge_dep(g, k),
            );
        }
    }
}

/// Report completeness: every admissible boundary-crossing edge of the
/// closure contributes its destination's display string to the list keyed
/// by its source's display name — the converse of `lemma_xor_symmetry`.
pub proof fn lemma_report_completeness(g: Graph, skip: Seq<Seq<char>>, target: int, k: int)
    requires
        edge_in_frontier(g, skip, target, k),
    ensures
        report_has_pair(spec_frontier(g, skip, target), edge_key(g, k), edge_dep(g, k)),
{
    lemma_frontier_upto_complete(g, skip, target, g.edges.len() as int, k);
}

/// The candidate list holds exactly the nodes (below `k`) whose identifier
/// contains the pattern.
proof fn lemma_candidates_membership(g: Graph, pattern: Seq<char>, k: int, n: int)
    ensures
        candidates_upto(g, pattern, k).contains(n) <==> (0 <= n < k && contains_substr(
            g.nodes[n].id@,
            pattern,
        )),
    decreases k,
{
    if k > 0 {
        lemma_candidates_membership(g, pattern, k - 1, n);
        let prev = candidates_upto(g, pattern, k - 1);
        if contains_substr(g.nodes[k - 1].id@, pattern) {
            let cur = prev.push(k - 1);
            assert(cur.last() == k - 1);
            assert forall|m: int| #[trigger] cur.contains(m) implies prev.contains(m) || m == k
                - 1 by {
                let i = choose|i: int| 0 <= i < cur.len() && cur[i] == m;
                if i < prev.len() {
                    assert(prev[i] == m);
                }
            }
            assert forall|m: int| prev.contains(m) implies #[trigger] cur.contains(m) by {
                let i = choose|i: int| 0 <= i < prev.len() && prev[i] == m;
                assert(cur[i] == m);
            }
            assert(cur.contains(k - 1)) by {
                assert(cur[cur.len() - 1] == k - 1);
            }
        }
    }
}

/// Target exclusivity: resolution succeeds exactly when one node matches.
/// A singleton candidate list names a node whose identifier contains the
/// pattern while no other node's identifier does; with zero or several
/// matching nodes the list is not a singleton, the run fails with
/// `AmbiguousTarget`, and no report is produced.
pub proof fn lemma_target_exclusivity(g: Graph, pattern: Seq<char>, t: int)
    requires
        spec_candidates(g, pattern) == seq![t],
    ensures
        0 <= t < g.nodes.len(),
        contains_substr(g.nodes[t].id@, pattern),
        forall|n: int|
            0 <= n < g.nodes.len() && n != t ==> !contains_substr(g.nodes[n].id@, pattern),
{
    let cands = spec_candidates(g, pattern);
    assert(cands.contains(t)) by {
        assert(cands[0] == t);
    }
    lemma_candidates_membership(g, pattern, g.nodes.len() as int, t);
    assert forall|n: int|
        0 <= n < g.nodes.len() && n != t implies !contains_substr(g.nodes[n].id@, pattern) by {
        lemma_candidates_membership(g, pattern, g.nodes.len() as int, n);
        if contains_substr(g.nodes[n].id@, pattern) {
            assert(cands.contains(n));
            let i = choose|i: int| 0 <= i < cands.len() && cands[i] == n;
            assert(i == 0);
        }
    }
}

} // verus!
