//! Target resolution and the resolution pipeline. A target is selected by a
//! case-sensitive substring of its package identifier; exactly one node must
//! match, and zero or several matches abort the run (with the full candidate
//! list for diagnostics) before any traversal work begins. Also holds the
//! output-format selector, parsed from its command-line spelling.

use core::str::FromStr;
use vstd::prelude::*;
use crate::graph::Graph;
use crate::report::{Report, build_frontier, spec_frontier};
use crate::text::{contains_substr, display_pair, make_display_pair, str_contains, str_eq};

verus! {

/// Indices (in order) of the first `k` nodes whose identifier contains
/// `pattern`.
pub open spec fn candidates_upto(g: Graph, pattern: Seq<char>, k: int) -> Seq<int>
    decreases k,
{
    if k <= 0 {
        Seq::empty()
    } else {
        let prev = candidates_upto(g, pattern, k - 1);
        if contains_substr(g.nodes[k - 1].id@, pattern) {
            prev.push(k - 1)
        } else {
            prev
        }
    }
}

/// Indices (in order) of every node whose identifier contains `pattern`.
pub open spec fn spec_candidates(g: Graph, pattern: Seq<char>) -> Seq<int> {
    candidates_upto(g, pattern, g.nodes.len() as int)
}

/// The identifiers of the candidate nodes, for diagnostic display.
pub open spec fn candidate_ids(g: Graph, pattern: Seq<char>) -> Seq<Seq<char>> {
    spec_candidates(g, pattern).map_values(|i: int| g.nodes[i].id@)
}

/// The only failure of a resolution run: the target substring matched zero
/// or more than one package identifier. No partial report is ever produced.
#[derive(Debug)]
pub enum FrontierError {
    /// Carries the identifier of every matching node (empty when nothing
    /// matched), so the caller can display the candidates before aborting.
    AmbiguousTarget { matches: Vec<String> },
}

/// Finds the unique node whose identifier contains `pattern`, scanning all
/// nodes in order. Zero or several matches yield `AmbiguousTarget` with the
/// full match list.
pub fn resolve_target(g: &Graph, pattern: &str) -> (r: Result<usize, FrontierError>)
    ensures
        match r {
            Ok(t) => t < g.nodes.len() && spec_candidates(*g, pattern@) == seq![t as int],
            Err(e) => spec_candidates(*g, pattern@).len() != 1 && match e {
                FrontierError::AmbiguousTarget { matches } => matches.deep_view()
                    == candidate_ids(*g, pattern@),
            },
        },
{
    let mut cands: Vec<usize> = Vec::new();
    let mut i: usize = 0;
    while i < g.nodes.len()
        invariant
            i <= g.nodes.len(),
            cands@.len() == candidates_upto(*g, pattern@, i as int).len(),
            forall|q: int|
                0 <= q < cands@.len() ==> (#[trigger] cands@[q]) < g.nodes.len() && cands@[q] as int
                    == candidates_upto(*g, pattern@, i as int)[q],
        decreases g.nodes.len() - i,
    {
        if str_contains(g.nodes[i].id.as_str(), pattern) {
            cands.push(i);
        }
        i += 1;
    }
    if cands.len() == 1 {
        let t = cands[0];
        proof {
            assert(cands@[0] as int == spec_candidates(*g, pattern@)[0]);
            assert(spec_candidates(*g, pattern@) =~= seq![t as int]);
        }
        Ok(t)
    } else {
        let mut matches: Vec<String> = Vec::new();
        let mut j: usize = 0;
        while j < cands.len()
            invariant
                j <= cands.len(),
                cands@.len() == spec_candidates(*g, pattern@).len(),
                forall|q: int|
                    0 <= q < cands@.len() ==> (#[trigger] cands@[q]) < g.nodes.len()
                        && cands@[q] as int == spec_candidates(*g, pattern@)[q],
                matches@.len() == j,
                forall|q: int|
                    0 <= q < j ==> (#[trigger] matches@[q])@ == g.nodes@[cands@[q] as int].id@,
            decreases cands.len() - j,
        {
            let idx = cands[j];
            matches.push(g.nodes[idx].id.clone());
            j += 1;
        }
        proof {
            assert(matches.deep_view() =~= candidate_ids(*g, pattern@));
        }
        Err(FrontierError::AmbiguousTarget { matches })
    }
}

/// Resolves the target by identifier substring and, if it is unique,
/// computes the grouped workspace-frontier report for it under the skip
/// list. Zero or several matches abort the whole run with `AmbiguousTarget`
/// before any traversal; no partial report exists.
pub fn resolve_frontier(g: &Graph, pattern: &str, skip: &Vec<String>) -> (r: Result<
    Report,
    FrontierError,
>)
    requires
        g.wf(),
    ensures
        match r {
            Ok(rep) => {
                &&& spec_candidates(*g, pattern@).len() == 1
                &&& rep.target_display@ == display_pair(
                    g.nodes[spec_candidates(*g, pattern@)[0]].name@,
                    g.nodes[spec_candidates(*g, pattern@)[0]].version@,
                )
                &&& rep.frontier.deep_view() == spec_frontier(
                    *g,
                    skip.deep_view(),
                    spec_candidates(*g, pattern@)[0],
                )
            },
            Err(e) => spec_candidates(*g, pattern@).len() != 1 && match e {
                FrontierError::AmbiguousTarget { matches } => matches.deep_view()
                    == candidate_ids(*g, pattern@),
            },
        },
{
    let target = match resolve_target(g, pattern) {
        Ok(t) => t,
        Err(e) => {
            return Err(e);
        },
    };
    let frontier = build_frontier(g, target, skip);
    let target_display = make_display_pair(
        g.nodes[target].name.as_str(),
        g.nodes[target].version.as_str(),
    );
    Ok(Report { target_display, frontier })
}

/// The output format of the surrounding tool, parsed from its command-line
/// spelling. The resolver itself never serializes; this only records the
/// caller's choice.
#[derive(Clone, Copy, Debug, PartialEq, Eq, Structural)]
pub enum OutputFmt {
    TOML,
    JSON,
    HTML,
}

/// Parses an output-format name: exactly `"toml"`, `"json"` or `"html"`;
/// anything else is rejected with the diagnostic message.
pub fn parse_output_fmt(s: &str) -> (r: Result<OutputFmt, &'static str>)
    ensures
        match r {
            Ok(f) => (s@ == "toml"@ && f == OutputFmt::TOML) || (s@ == "json"@ && f
                == OutputFmt::JSON) || (s@ == "html"@ && f == OutputFmt::HTML),
            Err(m) => s@ != "toml"@ && s@ != "json"@ && s@ != "html"@ && m@ == "must be one of [toml, json]"@,
        },
{
    if str_eq(s, "toml") {
        Ok(OutputFmt::TOML)
    } else if str_eq(s, "json") {
        Ok(OutputFmt::JSON)
    } else if str_eq(s, "html") {
        Ok(OutputFmt::HTML)
    } else {
        Err("must be one of [toml, json]")
    }
}

impl FromStr for OutputFmt {
    type Err = &'static str;

    fn from_str(s: &str) -> Result<Self, Self::Err> {
        parse_output_fmt(s)
    }
}

} // verus!
