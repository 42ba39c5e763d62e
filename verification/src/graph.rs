//! The package dependency graph as the resolver sees it: immutable nodes
//! (identifier, display name, version, workspace membership) and directed
//! edges `from -> to` meaning "`from` declares a dependency on `to`", held
//! by index into the node table. The graph is built once by the caller,
//! from whatever metadata source it has, and is read-only here.

use vstd::prelude::*;
use crate::text::{contains_substr, str_contains};

verus! {

/// One package of the dependency graph.
pub struct Node {
    /// Globally unique, opaque, stable identifier (target selection and the
    /// skip list match against this, by substring).
    pub id: String,
    /// Human-readable name; not necessarily unique across sources.
    pub name: String,
    /// Version, already rendered as text.
    pub version: String,
    /// Whether the package is part of the local workspace, as opposed to
    /// fetched from an external source.
    pub in_workspace: bool,
}

/// A directed dependency edge `from -> to`, each endpoint an index into the
/// graph's node table.
pub struct Edge {
    pub from: usize,
    pub to: usize,
}

/// An immutable package dependency graph. Assumed acyclic at the package
/// level, as is standard for resolved dependency graphs; behavior of the
/// traversal on a cyclic graph is unspecified and callers must not supply
/// one. Well-formedness (`wf`) only requires edge endpoints in range.
pub struct Graph {
    pub nodes: Vec<Node>,
    pub edges: Vec<Edge>,
}

impl Graph {
    /// Every edge endpoint is an index into `nodes`.
    pub open spec fn wf(self) -> bool {
        forall|k: int|
            0 <= k < self.edges.len() ==> (#[trigger] self.edges[k]).from < self.nodes.len()
                && self.edges[k].to < self.nodes.len()
    }

    /// Runtime check of `wf`, for callers that built the graph from
    /// unchecked input.
    pub fn check_wf(&self) -> (r: bool)
        ensures
            r == self.wf(),
    {
        let n = self.nodes.len();
        let mut k: usize = 0;
        while k < self.edges.len()
            invariant
                n == self.nodes.len(),
                k <= self.edges.len(),
                forall|j: int|
                    0 <= j < k ==> (#[trigger] self.edges[j]).from < n && self.edges[j].to < n,
            decreases self.edges.len() - k,
        {
            let e = &self.edges[k];
            if e.from >= n || e.to >= n {
                return false;
            }
            k += 1;
        }
        true
    }
}

/// Some substring of the skip list occurs in `id`.
pub open spec fn skip_matches(skip: Seq<Seq<char>>, id: Seq<char>) -> bool {
    exists|s: int| 0 <= s < skip.len() && contains_substr(id, #[trigger] skip[s])
}

/// Edge `k` of `g` may be crossed by the traversal: its destination's
/// identifier contains no skip substring. Pruning is structural — an
/// inadmissible edge is never crossed, so nodes reachable only through it
/// are never visited.
pub open spec fn edge_admissible(g: Graph, skip: Seq<Seq<char>>, k: int) -> bool {
    !skip_matches(skip, g.nodes[g.edges[k].to as int].id@)
}

/// Does some skip substring occur in `id`?
pub fn id_matches_skip(id: &str, skip: &Vec<String>) -> (r: bool)
    ensures
        r == skip_matches(skip.deep_view(), id@),
{
    let mut s: usize = 0;
    while s < skip.len()
        invariant
            s <= skip.len(),
            forall|j: int| 0 <= j < s ==> !contains_substr(id@, #[trigger] skip.deep_view()[j]),
        decreases skip.len() - s,
    {
        if str_contains(id, skip[s].as_str()) {
            assert(contains_substr(id@, skip.deep_view()[s as int]));
            return true;
        }
        s += 1;
    }
    false
}

} // verus!
