//! The frontier report: for every admissible edge of the ancestor closure
//! that crosses the workspace/external boundary, the display string of its
//! destination is appended to the list keyed by its source's display name.
//! The mapping is kept as a vector of entries in first-discovery order, with
//! one entry per distinct key, which makes the grouping deterministic.

use vstd::prelude::*;
use crate::closure::{ancestor_closure, reaches};
use crate::graph::{Graph, edge_admissible, id_matches_skip};
use crate::text::{dashify, display_name, display_pair, make_display_pair, str_eq};

verus! {

/// One report entry: a dependency source (display name of the `from` side of
/// boundary-crossing edges) and the `"name version"` strings of the `to`
/// sides attributed to it, in discovery order.
pub struct FrontierEntry {
    pub source: String,
    pub deps: Vec<String>,
}

impl View for FrontierEntry {
    type V = (Seq<char>, Seq<Seq<char>>);

    open spec fn view(&self) -> (Seq<char>, Seq<Seq<char>>) {
        (self.source@, self.deps.deep_view())
    }
}

impl DeepView for FrontierEntry {
    type V = (Seq<char>, Seq<Seq<char>>);

    open spec fn deep_view(&self) -> (Seq<char>, Seq<Seq<char>>) {
        self.view()
    }
}

/// The mathematical shape of the grouped report: key/list pairs in
/// first-discovery order, keys unique.
pub type ReportMap = Seq<(Seq<char>, Seq<Seq<char>>)>;

/// Index of the first entry of `m` whose key is `key`, or `-1` if none.
pub open spec fn find_key(m: ReportMap, key: Seq<char>) -> int
    decreases m.len(),
{
    if m.len() == 0 {
        -1
    } else if m.first().0 == key {
        0
    } else {
        let r = find_key(m.drop_first(), key);
        if r < 0 {
            -1
        } else {
            r + 1
        }
    }
}

/// `find_key` returns `-1` exactly when no entry has the key, and otherwise
/// the first index that does.
pub proof fn lemma_find_key(m: ReportMap, key: Seq<char>)
    ensures
        find_key(m, key) == -1 || 0 <= find_key(m, key) < m.len(),
        find_key(m, key) == -1 ==> forall|j: int| 0 <= j < m.len() ==> (#[trigger] m[j]).0 != key,
        0 <= find_key(m, key) ==> m[find_key(m, key)].0 == key && forall|j: int|
            0 <= j < find_key(m, key) ==> (#[trigger] m[j]).0 != key,
    decreases m.len(),
{
    if m.len() != 0 && m.first().0 != key {
        let tail = m.drop_first();
        lemma_find_key(tail, key);
        assert(forall|j: int| 0 <= j < tail.len() ==> #[trigger] tail[j] == m[j + 1]);
        if find_key(m, key) == -1 {
            assert forall|j: int| 0 <= j < m.len() implies (#[trigger] m[j]).0 != key by {
                if j >= 1 {
                    assert(tail[j - 1] == m[j]);
                }
            }
        } else {
            let r = find_key(tail, key);
            assert(m[r + 1] == tail[r]);
            assert forall|j: int| 0 <= j < find_key(m, key) implies (#[trigger] m[j]).0 != key by {
                if j >= 1 {
                    assert(tail[j - 1] == m[j]);
                }
            }
        }
    }
}

/// Append `dep` to the list keyed by `key`, creating the entry at the end if
/// the key is absent (get-or-create-empty, then push).
pub open spec fn insert_grouped(m: ReportMap, key: Seq<char>, dep: Seq<char>) -> ReportMap {
    let i = find_key(m, key);
    if i < 0 {
        m.push((key, seq![dep]))
    } else {
        m.update(i, (key, m[i].1.push(dep)))
    }
}

/// Appends `dep` under `key` in the frontier accumulator, exactly as
/// `insert_grouped` describes.
pub fn report_insert(frontier: &mut Vec<FrontierEntry>, key: String, dep: String)
    ensures
        final(frontier).deep_view() == insert_grouped(old(frontier).deep_view(), key@, dep@),
{
    let ghost m = old(frontier).deep_view();
    let mut i: usize = 0;
    while i < frontier.len()
        invariant
            m == old(frontier).deep_view(),
            frontier.deep_view() == m,
            frontier.len() == m.len(),
            i <= frontier.len(),
            forall|j: int| 0 <= j < i ==> (#[trigger] m[j]).0 != key@,
        decreases frontier.len() - i,
    {
        proof {
            assert(m[i as int] == frontier@[i as int].deep_view());
        }
        if str_eq(frontier[i].source.as_str(), key.as_str()) {
            proof {
                lemma_find_key(m, key@);
                assert(find_key(m, key@) == i as int);
            }
            let entry = frontier.remove(i);
            let FrontierEntry { source, mut deps } = entry;
            deps.push(dep);
            frontier.insert(i, FrontierEntry { source, deps });
            proof {
                assert(frontier.deep_view() =~~= insert_grouped(m, key@, dep@));
            }
            return;
        }
        i += 1;
    }
    proof {
        lemma_find_key(m, key@);
        assert(find_key(m, key@) == -1);
    }
    let mut deps: Vec<String> = Vec::new();
    deps.push(dep);
    frontier.push(FrontierEntry { source: key, deps });
    proof {
        assert(frontier.deep_view() =~~= insert_grouped(m, key@, dep@));
    }
}

/// Edge `k` is reported: it is admissible, both endpoints lie in the pruned
/// ancestor closure of `target`, and exactly one endpoint is
/// workspace-local.
pub open spec fn edge_in_frontier(g: Graph, skip: Seq<Seq<char>>, target: int, k: int) -> bool {
    &&& 0 <= k < g.edges.len()
    &&& edge_admissible(g, skip, k)
    &&& reaches(g, skip, g.edges[k].from as int, target)
    &&& reaches(g, skip, g.edges[k].to as int, target)
    &&& g.nodes[g.edges[k].from as int].in_workspace != g.nodes[g.edges[k].to as int].in_workspace
}

/// The report key of edge `k`: the `from` node's name, underscores
/// normalized to hyphens.
pub open spec fn edge_key(g: Graph, k: int) -> Seq<char> {
    dashify(g.nodes[g.edges[k].from as int].name@)
}

/// The report value of edge `k`: `"{to.name} {to.version}"`.
pub open spec fn edge_dep(g: Graph, k: int) -> Seq<char> {
    display_pair(g.nodes[g.edges[k].to as int].name@, g.nodes[g.edges[k].to as int].version@)
}

/// The grouped frontier built from the first `k` edges, in edge order.
pub open spec fn frontier_upto(g: Graph, skip: Seq<Seq<char>>, target: int, k: int) -> ReportMap
    decreases k,
{
    if k <= 0 {
        Seq::empty()
    } else {
        let prev = frontier_upto(g, skip, target, k - 1);
        if edge_in_frontier(g, skip, target, k - 1) {
            insert_grouped(prev, edge_key(g, k - 1), edge_dep(g, k - 1))
        } else {
            prev
        }
    }
}

/// The full grouped frontier of `target` under `skip`: one pass over all
/// edges in index order, a pure function of graph, skip list and target.
pub open spec fn spec_frontier(g: Graph, skip: Seq<Seq<char>>, target: int) -> ReportMap {
    frontier_upto(g, skip, target, g.edges.len() as int)
}

/// Computes the grouped frontier of `target`: runs the pruned backward
/// closure, then scans every edge once, keeping exactly the admissible edges
/// inside the closure whose endpoints differ on workspace membership.
pub fn build_frontier(g: &Graph, target: usize, skip: &Vec<String>) -> (r: Vec<FrontierEntry>)
    requires
        g.wf(),
        target < g.nodes.len(),
    ensures
        r.deep_view() == spec_frontier(*g, skip.deep_view(), target as int),
{
    let ghost skipv = skip.deep_view();
    let visited = ancestor_closure(g, target, skip);
    let mut frontier: Vec<FrontierEntry> = Vec::new();
    proof {
        assert(frontier.deep_view() =~= frontier_upto(*g, skipv, target as int, 0));
    }
    let mut k: usize = 0;
    while k < g.edges.len()
        invariant
            g.wf(),
            target < g.nodes.len(),
            skipv == skip.deep_view(),
            visited.len() == g.nodes.len(),
            forall|n: int|
                0 <= n < g.nodes.len() ==> ((#[trigger] visited[n]) <==> reaches(
                    *g,
                    skipv,
                    n,
                    target as int,
                )),
            k <= g.edges.len(),
            frontier.deep_view() == frontier_upto(*g, skipv, target as int, k as int),
        decreases g.edges.len() - k,
    {
        let e_from = g.edges[k].from;
        let e_to = g.edges[k].to;
        let adm = !id_matches_skip(g.nodes[e_to].id.as_str(), skip);
        if adm && visited[e_from] && visited[e_to] && (g.nodes[e_from].in_workspace
            != g.nodes[e_to].in_workspace) {
            proof {
                assert(edge_in_frontier(*g, skipv, target as int, k as int));
            }
            let key = display_name(g.nodes[e_from].name.as_str());
            let dep = make_display_pair(
                g.nodes[e_to].name.as_str(),
                g.nodes[e_to].version.as_str(),
            );
            report_insert(&mut frontier, key, dep);
        } else {
            proof {
                assert(!edge_in_frontier(*g, skipv, target as int, k as int));
            }
        }
        k += 1;
    }
    frontier
}

/// The result of one resolution: the target's own display string and the
/// grouped frontier. Built fresh per invocation; serializable without loss.
pub struct Report {
    pub target_display: String,
    pub frontier: Vec<FrontierEntry>,
}

} // verus!
