//! The ancestor closure: backward reachability from the target under the
//! skip-list pruning rule, computed as a work-list search and proved to
//! return exactly the set of nodes with some admissible path to the target.

use vstd::prelude::*;
use crate::graph::{Graph, edge_admissible, id_matches_skip};

verus! {

/// Some admissible edge of `g` runs from `a` to `b`.
pub open spec fn path_step(g: Graph, skip: Seq<Seq<char>>, a: int, b: int) -> bool {
    exists|k: int|
        0 <= k < g.edges.len() && (#[trigger] g.edges[k]).from as int == a
            && g.edges[k].to as int == b && edge_admissible(g, skip, k)
}

/// `p` is a path of in-range nodes whose every step is an admissible edge
/// and whose last node is `target`.
pub open spec fn valid_path(g: Graph, skip: Seq<Seq<char>>, p: Seq<int>, target: int) -> bool {
    &&& p.len() >= 1
    &&& p.last() == target
    &&& forall|j: int| 0 <= j < p.len() ==> 0 <= #[trigger] p[j] < g.nodes.len()
    &&& forall|j: int| 0 <= j < p.len() - 1 ==> #[trigger] path_step(g, skip, p[j], p[j + 1])
}

/// Node `n` has some admissible path to `target`: `n` is in the ancestor
/// closure of `target` under the pruning rule.
pub open spec fn reaches(g: Graph, skip: Seq<Seq<char>>, n: int, target: int) -> bool {
    exists|p: Seq<int>| #[trigger] valid_path(g, skip, p, target) && p.first() == n
}

/// Instantiates the step condition of a valid path at position `j`.
pub proof fn lemma_path_step_at(g: Graph, skip: Seq<Seq<char>>, p: Seq<int>, target: int, j: int)
    requires
        valid_path(g, skip, p, target),
        0 <= j < p.len() - 1,
    ensures
        path_step(g, skip, p[j], p[j + 1]),
{
}

/// The target reaches itself by the one-node path.
pub proof fn lemma_reaches_self(g: Graph, skip: Seq<Seq<char>>, target: int)
    requires
        0 <= target < g.nodes.len(),
    ensures
        reaches(g, skip, target, target),
{
    let p: Seq<int> = seq![target];
    assert(p.last() == target);
    assert(valid_path(g, skip, p, target));
}

/// Prepending an admissible edge to a path: if edge `k` is admissible and
/// its destination reaches `target`, so does its source.
pub proof fn lemma_reaches_step(g: Graph, skip: Seq<Seq<char>>, k: int, target: int)
    requires
        g.wf(),
        0 <= k < g.edges.len(),
        edge_admissible(g, skip, k),
        reaches(g, skip, g.edges[k].to as int, target),
    ensures
        reaches(g, skip, g.edges[k].from as int, target),
{
    let p = choose|p: Seq<int>|
        #[trigger] valid_path(g, skip, p, target) && p.first() == g.edges[k].to as int;
    let q = seq![g.edges[k].from as int] + p;
    assert(q.len() == 1 + p.len());
    assert(q.last() == p.last());
    assert(q.first() == g.edges[k].from as int);
    assert forall|j: int| 0 <= j < q.len() implies 0 <= #[trigger] q[j] < g.nodes.len() by {
        assert(forall|jj: int| 1 <= jj < q.len() ==> #[trigger] q[jj] == p[jj - 1]);
    }
    assert forall|j: int| 0 <= j < q.len() - 1 implies #[trigger] path_step(g, skip, q[j], q[j + 1]) by {
        if j == 0 {
            assert(q[0] == g.edges[k].from as int);
            assert(q[1] == p[0]);
            assert(p.first() == g.edges[k].to as int);
            assert(path_step(g, skip, q[0], q[1]));
        } else {
            assert(q[j] == p[j - 1]);
            assert(q[j + 1] == p[j]);
            lemma_path_step_at(g, skip, p, target, j - 1);
        }
    }
    assert(valid_path(g, skip, q, target));
}

/// A visited set is closed when following any admissible edge backward from
/// a visited node stays inside it.
pub open spec fn closed(g: Graph, skip: Seq<Seq<char>>, vs: Seq<bool>) -> bool {
    forall|k: int|
        0 <= k < g.edges.len() && edge_admissible(g, skip, k)
            && vs[(#[trigger] g.edges[k]).to as int] ==> vs[g.edges[k].from as int]
}

/// Every node with an admissible path to the target lies in any closed
/// visited set that contains the target.
pub proof fn lemma_closed_complete(
    g: Graph,
    skip: Seq<Seq<char>>,
    vs: Seq<bool>,
    target: int,
    p: Seq<int>,
)
    requires
        g.wf(),
        vs.len() == g.nodes.len(),
        0 <= target < g.nodes.len(),
        vs[target],
        closed(g, skip, vs),
        valid_path(g, skip, p, target),
    ensures
        vs[p.first()],
    decreases p.len(),
{
    if p.len() == 1 {
        assert(p.first() == p.last());
    } else {
        let tail = p.subrange(1, p.len() as int);
        assert(tail.len() == p.len() - 1);
        assert(tail.last() == p.last());
        assert(forall|j: int| 0 <= j < tail.len() ==> #[trigger] tail[j] == p[j + 1]);
        assert forall|j: int| 0 <= j < tail.len() - 1 implies #[trigger] path_step(
            g,
            skip,
            tail[j],
            tail[j + 1],
        ) by {
            lemma_path_step_at(g, skip, p, target, j + 1);
            assert(path_step(g, skip, p[j + 1], p[j + 1 + 1]));
        }
        assert(valid_path(g, skip, tail, target));
        lemma_closed_complete(g, skip, vs, target, tail);
        assert(vs[p[1]]);
        lemma_path_step_at(g, skip, p, target, 0);
        assert(path_step(g, skip, p[0], p[1]));
        let k = choose|k: int|
            0 <= k < g.edges.len() && (#[trigger] g.edges[k]).from as int == p[0]
                && g.edges[k].to as int == p[1] && edge_admissible(g, skip, k);
        assert(vs[g.edges[k].to as int]);
        assert(vs[g.edges[k].from as int]);
    }
}

/// How many entries of `s` are still false.
spec fn count_false(s: Seq<bool>) -> nat
    decreases s.len(),
{
    if s.len() == 0 {
        0
    } else {
        count_false(s.drop_last()) + (if s.last() {
            0nat
        } else {
            1nat
        })
    }
}

/// Setting a false entry to true lowers the false count by one.
proof fn lemma_count_false_update(s: Seq<bool>, i: int)
    requires
        0 <= i < s.len(),
        !s[i],
    ensures
        count_false(s.update(i, true)) + 1 == count_false(s),
    decreases s.len(),
{
    let t = s.update(i, true);
    assert(t.len() == s.len());
    if i == s.len() - 1 {
        assert(t.drop_last() =~= s.drop_last());
        assert(t.last());
        assert(!s.last());
    } else {
        assert(t.drop_last() =~= s.drop_last().update(i, true));
        assert(t.last() == s.last());
        lemma_count_false_update(s.drop_last(), i);
    }
}

/// The ancestor closure of `target` under the skip list: `r[n]` is true
/// exactly when node `n` has some admissible path to `target`. Computed as a
/// backward work-list search that never crosses an edge whose destination
/// identifier contains a skip substring. Termination holds for any graph
/// (visited nodes are never revisited), so acyclicity is not needed here.
pub fn ancestor_closure(g: &Graph, target: usize, skip: &Vec<String>) -> (visited: Vec<bool>)
    requires
        g.wf(),
        target < g.nodes.len(),
    ensures
        visited.len() == g.nodes.len(),
        forall|n: int|
            0 <= n < g.nodes.len() ==> ((#[trigger] visited[n]) <==> reaches(
                *g,
                skip.deep_view(),
                n,
                target as int,
            )),
{
    let ghost skipv = skip.deep_view();
    let n = g.nodes.len();
    let mut visited: Vec<bool> = Vec::new();
    while visited.len() < n
        invariant
            visited.len() <= n,
            forall|j: int| 0 <= j < visited.len() ==> !(#[trigger] visited[j]),
        decreases n - visited.len(),
    {
        visited.push(false);
    }
    let mut queue: Vec<usize> = Vec::new();
    visited[target] = true;
    queue.push(target);
    proof {
        lemma_reaches_self(*g, skipv, target as int);
        assert(queue@[0] == target);
        assert(queue@.contains(target));
        assert(forall|v: int|
            0 <= v < visited.len() && (#[trigger] visited[v]) ==> v == target as int);
    }
    while queue.len() > 0
        invariant
            g.wf(),
            target < g.nodes.len(),
            skipv == skip.deep_view(),
            visited.len() == g.nodes.len(),
            visited[target as int],
            forall|q: int|
                0 <= q < queue.len() ==> (#[trigger] queue[q]) < g.nodes.len()
                    && visited[queue[q] as int],
            forall|v: int|
                0 <= v < visited.len() && (#[trigger] visited[v]) ==> reaches(
                    *g,
                    skipv,
                    v,
                    target as int,
                ),
            forall|k: int|
                0 <= k < g.edges.len() && edge_admissible(*g, skipv, k)
                    && visited[(#[trigger] g.edges[k]).to as int] && !queue@.contains(
                    g.edges[k].to,
                ) ==> visited[g.edges[k].from as int],
        decreases 2 * count_false(visited@) + queue.len(),
    {
        let ghost old_q = queue@;
        let cur_opt = queue.pop();
        let cur = cur_opt.unwrap();
        proof {
            assert(old_q[old_q.len() - 1] == cur);
            assert forall|x: usize| #[trigger] old_q.contains(x) implies (queue@.contains(x) || x
                == cur) by {
                let idx = choose|idx: int| 0 <= idx < old_q.len() && old_q[idx] == x;
                if idx < old_q.len() - 1 {
                    assert(queue@[idx] == x);
                }
            }
        }
        let ghost m0: nat = 2 * count_false(visited@) + queue@.len();
        let mut k: usize = 0;
        while k < g.edges.len()
            invariant
                g.wf(),
                target < g.nodes.len(),
                skipv == skip.deep_view(),
                visited.len() == g.nodes.len(),
                visited[target as int],
                cur < g.nodes.len(),
                visited[cur as int],
                k <= g.edges.len(),
                forall|q: int|
                    0 <= q < queue.len() ==> (#[trigger] queue[q]) < g.nodes.len()
                        && visited[queue[q] as int],
                forall|v: int|
                    0 <= v < visited.len() && (#[trigger] visited[v]) ==> reaches(
                        *g,
                        skipv,
                        v,
                        target as int,
                    ),
                forall|e: int|
                    0 <= e < g.edges.len() && edge_admissible(*g, skipv, e)
                        && visited[(#[trigger] g.edges[e]).to as int] && !queue@.contains(
                        g.edges[e].to,
                    ) && (g.edges[e].to != cur || e < k) ==> visited[g.edges[e].from as int],
                2 * count_false(visited@) + queue@.len() <= m0,
            decreases g.edges.len() - k,
        {
            let ghost pre_q = queue@;
            let e_from = g.edges[k].from;
            let e_to = g.edges[k].to;
            if e_to == cur {
                let adm = !id_matches_skip(g.nodes[e_to].id.as_str(), skip);
                proof {
                    assert(adm == edge_admissible(*g, skipv, k as int));
                }
                if adm && !visited[e_from] {
                    proof {
                        lemma_count_false_update(visited@, e_from as int);
                        lemma_reaches_step(*g, skipv, k as int, target as int);
                    }
                    visited[e_from] = true;
                    queue.push(e_from);
                    proof {
                        assert forall|x: usize| #[trigger] pre_q.contains(x) implies queue@.contains(
                            x,
                        ) by {
                            let idx = choose|idx: int| 0 <= idx < pre_q.len() && pre_q[idx] == x;
                            assert(queue@[idx] == x);
                        }
                        assert(queue@.contains(e_from)) by {
                            assert(queue@[queue@.len() - 1] == e_from);
                        }
                    }
                }
            }
            k += 1;
        }
    }
    proof {
        assert forall|v: int|
            0 <= v < g.nodes.len() && reaches(*g, skipv, v, target as int) implies visited@[v] by {
            let p = choose|p: Seq<int>|
                #[trigger] valid_path(*g, skipv, p, target as int) && p.first() == v;
            lemma_closed_complete(*g, skipv, visited@, target as int, p);
        }
    }
    visited
}

} // verus!
