//! The closure resolver over a structured build graph: nodes are packages,
//! edges the declared dependency relations, and the closure is the set of
//! externally sourced packages reachable from the build roots. Reachability
//! is a worklist traversal with a visited set; the result is proved to hold
//! exactly the reachable nodes. Local workspace members — nodes without an
//! external source — are never part of the closure.

use crate::classify::{closure_views_of, ClosureEntry, ClosureEntryView, Resolved, ResolvedView};
use crate::semver_ext::{spec_version_of_text, version_from_text};
use vstd::prelude::*;

verus! {

/// One package of the resolved build graph.
pub struct GraphNode {
    pub name: Vec<u8>,
    pub version_text: Vec<u8>,
    /// Whether the package comes from an external source; workspace members
    /// do not.
    pub external: bool,
    /// Indices of the packages this one depends on.
    pub deps: Vec<usize>,
}

pub struct BuildGraph {
    pub nodes: Vec<GraphNode>,
    /// Indices of the build roots: the project's own packages.
    pub roots: Vec<usize>,
}

impl BuildGraph {
    pub open spec fn n(self) -> int {
        self.nodes@.len() as int
    }

    pub open spec fn wf(self) -> bool {
        &&& forall|i: int, k: int|
            0 <= i < self.n() && 0 <= k < (#[trigger] self.nodes@[i]).deps@.len()
                ==> (#[trigger] self.nodes@[i].deps@[k]) < self.nodes@.len()
        &&& forall|k: int| 0 <= k < self.roots@.len() ==> (#[trigger] self.roots@[k]) < self.nodes@.len()
    }

    pub open spec fn is_root(self, i: int) -> bool {
        exists|k: int| 0 <= k < self.roots@.len() && (#[trigger] self.roots@[k]) == i
    }

    pub open spec fn has_edge(self, i: int, j: int) -> bool {
        0 <= i < self.n() && exists|k: int|
            0 <= k < self.nodes@[i].deps@.len() && (#[trigger] self.nodes@[i].deps@[k]) == j
    }

    /// A dependency path: starts at a root, follows edges.
    pub open spec fn is_path(self, p: Seq<int>) -> bool {
        &&& p.len() > 0
        &&& self.is_root(p[0])
        &&& forall|q: int| 0 <= q < p.len() ==> 0 <= #[trigger] p[q] < self.n()
        &&& forall|q: int| 0 <= q < p.len() - 1 ==> self.has_edge(#[trigger] p[q], p[q + 1])
    }

    /// Reachable from some build root.
    pub open spec fn reachable(self, i: int) -> bool {
        exists|p: Seq<int>| self.is_path(p) && p.last() == i
    }
}

spec fn count_true(s: Seq<bool>) -> int
    decreases s.len(),
{
    if s.len() == 0 {
        0
    } else {
        (if s[0] {
            1int
        } else {
            0int
        }) + count_true(s.skip(1))
    }
}

proof fn lemma_count_true_bounds(s: Seq<bool>)
    ensures
        0 <= count_true(s) <= s.len(),
    decreases s.len(),
{
    if s.len() > 0 {
        lemma_count_true_bounds(s.skip(1));
    }
}

proof fn lemma_count_true_update(s: Seq<bool>, i: int)
    requires
        0 <= i < s.len(),
        !s[i],
    ensures
        count_true(s.update(i, true)) == count_true(s) + 1,
    decreases s.len(),
{
    if s.len() > 0 {
        if i == 0 {
            assert(s.update(0, true).skip(1) =~= s.skip(1));
        } else {
            assert(s.update(i, true).skip(1) =~= s.skip(1).update(i - 1, true));
            assert(s.skip(1)[i - 1] == s[i]);
            lemma_count_true_update(s.skip(1), i - 1);
            assert(s.update(i, true)[0] == s[0]);
        }
    }
}

proof fn lemma_path_extend(g: BuildGraph, p: Seq<int>, j: int)
    requires
        g.is_path(p),
        g.has_edge(p.last(), j),
        0 <= j < g.n(),
    ensures
        g.is_path(p.push(j)),
        p.push(j).last() == j,
{
    let p2 = p.push(j);
    assert(p2[0] == p[0]);
    assert forall|q: int| 0 <= q < p2.len() implies 0 <= #[trigger] p2[q] < g.n() by {
        if q < p.len() {
            assert(p2[q] == p[q]);
        }
    }
    assert forall|q: int| 0 <= q < p2.len() - 1 implies g.has_edge(#[trigger] p2[q], p2[q + 1]) by {
        if q < p.len() - 1 {
            assert(p2[q] == p[q] && p2[q + 1] == p[q + 1]);
        } else {
            assert(p2[q] == p.last() && p2[q + 1] == j);
        }
    }
}

/// A visited set that holds every root and is closed under edges holds every
/// reachable node.
proof fn lemma_closed_covers(g: BuildGraph, visited: Seq<bool>, p: Seq<int>)
    requires
        g.wf(),
        visited.len() == g.n(),
        forall|k: int| 0 <= k < g.roots@.len() ==> visited[#[trigger] g.roots@[k] as int],
        forall|i: int, j: int|
            #![trigger visited[i], visited[j]]
            0 <= i < g.n() && visited[i] && g.has_edge(i, j) && 0 <= j < g.n() ==> visited[j],
        g.is_path(p),
    ensures
        visited[p.last()],
    decreases p.len(),
{
    if p.len() == 1 {
        let k = choose|k: int| 0 <= k < g.roots@.len() && (#[trigger] g.roots@[k]) == p[0];
        assert(visited[g.roots@[k] as int]);
    } else {
        let q = p.drop_last();
        assert(q[0] == p[0]);
        assert forall|m: int| 0 <= m < q.len() implies 0 <= #[trigger] q[m] < g.n() by {
            assert(q[m] == p[m]);
        }
        assert forall|m: int| 0 <= m < q.len() - 1 implies g.has_edge(
            #[trigger] q[m],
            q[m + 1],
        ) by {
            assert(q[m] == p[m] && q[m + 1] == p[m + 1]);
        }
        lemma_closed_covers(g, visited, q);
        assert(g.has_edge(p[p.len() - 2], p.last()));
    }
}

/// Marks exactly the nodes reachable from the roots.
#[verifier::rlimit(100)]
pub fn reachable_set(g: &BuildGraph) -> (r: Vec<bool>)
    requires
        g.wf(),
    ensures
        r@.len() == g.nodes@.len(),
        forall|i: int| 0 <= i < g.n() ==> r@[i] == g.reachable(i),
{
    let n = g.nodes.len();
    let mut visited: Vec<bool> = Vec::new();
    let mut z: usize = 0;
    while z < n
        invariant
            0 <= z <= n,
            n == g.nodes@.len(),
            visited@.len() == z,
            forall|i: int| 0 <= i < z ==> !(#[trigger] visited@[i]),
        decreases n - z,
    {
        visited.push(false);
        z = z + 1;
    }
    let mut stack: Vec<usize> = Vec::new();
    let mut ri: usize = 0;
    while ri < g.roots.len()
        invariant
            g.wf(),
            0 <= ri <= g.roots@.len(),
            n == g.nodes@.len(),
            visited@.len() == n,
            forall|i: int| 0 <= i < n && #[trigger] visited@[i] ==> g.reachable(i),
            forall|k: int| 0 <= k < ri ==> visited@[#[trigger] g.roots@[k] as int],
            forall|k: int|
                0 <= k < stack@.len() ==> (#[trigger] stack@[k]) < n && visited@[stack@[k] as int],
            forall|i: int|
                0 <= i < n && #[trigger] visited@[i] ==> stack@.contains(i as usize),
        decreases g.roots@.len() - ri,
    {
        let root = g.roots[ri];
        if !visited[root] {
            let ghost vpre = visited@;
            let ghost spre = stack@;
            visited.set(root, true);
            stack.push(root);
            proof {
                let p = seq![root as int];
                assert(g.is_path(p) && p.last() == root as int) by {
                    assert(g.roots@[ri as int] == root);
                }
                assert(g.reachable(root as int));
                assert forall|i: int| 0 <= i < n && #[trigger] visited@[i] implies stack@.contains(
                    i as usize,
                ) by {
                    if i != root {
                        assert(vpre[i]);
                        assert(spre.contains(i as usize));
                        let k = choose|k: int| 0 <= k < spre.len() && spre[k] == i as usize;
                        assert(stack@[k] == i as usize);
                    } else {
                        assert(stack@.last() == root);
                    }
                }
            }
        }
        ri = ri + 1;
    }
    while stack.len() > 0
        invariant
            g.wf(),
            n == g.nodes@.len(),
            visited@.len() == n,
            forall|i: int| 0 <= i < n && #[trigger] visited@[i] ==> g.reachable(i),
            forall|k: int| 0 <= k < g.roots@.len() ==> visited@[#[trigger] g.roots@[k] as int],
            forall|k: int|
                0 <= k < stack@.len() ==> (#[trigger] stack@[k]) < n && visited@[stack@[k] as int],
            forall|i: int, j: int|
                #![trigger visited@[i], visited@[j]]
                0 <= i < n && visited@[i] && g.has_edge(i, j) && 0 <= j < n ==> visited@[j]
                    || stack@.contains(i as usize),
        decreases (n - count_true(visited@)), stack@.len(),
    {
        proof {
            lemma_count_true_bounds(visited@);
        }
        let ghost spre = stack@;
        let node = stack.pop().unwrap();
        let ghost popped_stack = stack@;
        proof {
            assert(stack@ =~= spre.drop_last());
            assert(node == spre.last());
            assert forall|i: int, j: int|
                #![trigger visited@[i], visited@[j]]
                0 <= i < n && visited@[i] && g.has_edge(i, j) && 0 <= j < n implies visited@[j]
                || stack@.contains(i as usize) || i == node as int by {
                if !visited@[j] && i != node as int {
                    assert(spre.contains(i as usize));
                    let k = choose|k: int| 0 <= k < spre.len() && spre[k] == i as usize;
                    assert(k < spre.len() - 1) by {
                        if k == spre.len() - 1 {
                            assert(spre[k] == node);
                        }
                    }
                    assert(stack@[k] == i as usize);
                }
            }
        }
        let deps_len = g.nodes[node].deps.len();
        let mut d: usize = 0;
        let ghost v0 = visited@;
        let mut pushed_new = false;
        while d < deps_len
            invariant
                g.wf(),
                n == g.nodes@.len(),
                (node as int) < n,
                visited@.len() == n,
                deps_len == g.nodes@[node as int].deps@.len(),
                0 <= d <= deps_len,
                visited@[node as int],
                g.reachable(node as int),
                forall|i: int| 0 <= i < n && #[trigger] visited@[i] ==> g.reachable(i),
                forall|k: int| 0 <= k < g.roots@.len() ==> visited@[#[trigger] g.roots@[k] as int],
                forall|k: int|
                    0 <= k < stack@.len() ==> (#[trigger] stack@[k]) < n
                        && visited@[stack@[k] as int],
                forall|i: int, j: int|
                    #![trigger visited@[i], visited@[j]]
                    0 <= i < n && visited@[i] && g.has_edge(i, j) && 0 <= j < n ==> visited@[j]
                        || stack@.contains(i as usize) || i == node,
                forall|k: int|
                    0 <= k < d ==> visited@[#[trigger] g.nodes@[node as int].deps@[k] as int],
                v0.len() == n,
                forall|i: int| 0 <= i < n && v0[i] ==> visited@[i],
                pushed_new ==> count_true(visited@) > count_true(v0),
                !pushed_new ==> visited@ == v0 && stack@ == popped_stack,
                count_true(visited@) >= count_true(v0),
            decreases deps_len - d,
        {
            let j = g.nodes[node].deps[d];
            proof {
                assert(g.nodes@[node as int].deps@[d as int] == j);
                assert((j as int) < n);
            }
            if !visited[j] {
                proof {
                    lemma_count_true_update(visited@, j as int);
                    lemma_count_true_bounds(visited@);
                    let p = choose|p: Seq<int>| g.is_path(p) && p.last() == node as int;
                    assert(g.has_edge(node as int, j as int));
                    lemma_path_extend(*g, p, j as int);
                    assert(g.reachable(j as int));
                }
                let ghost prevstack = stack@;
                visited.set(j, true);
                stack.push(j);
                pushed_new = true;
                proof {
                    assert forall|k: int| 0 <= k < stack@.len() implies (#[trigger] stack@[k]) < n
                        && visited@[stack@[k] as int] by {
                        if k < prevstack.len() {
                            assert(stack@[k] == prevstack[k]);
                        }
                    }
                    assert forall|i: int, j2: int|
                        #![trigger visited@[i], visited@[j2]]
                        0 <= i < n && visited@[i] && g.has_edge(i, j2) && 0 <= j2 < n
                            implies visited@[j2] || stack@.contains(i as usize) || i
                        == node as int by {
                        if i != j as int {
                            if !(visited@[j2] || i == node as int) {
                                assert(prevstack.contains(i as usize));
                                let k = choose|k: int|
                                    0 <= k < prevstack.len() && prevstack[k] == i as usize;
                                assert(stack@[k] == i as usize);
                            }
                        } else {
                            assert(stack@.last() == j);
                        }
                    }
                }
            }
            d = d + 1;
        }
        proof {
            assert forall|i: int, j2: int|
                #![trigger visited@[i], visited@[j2]]
                0 <= i < n && visited@[i] && g.has_edge(i, j2) && 0 <= j2 < n
                    implies visited@[j2] || stack@.contains(i as usize) by {
                if i == node as int && !visited@[j2] {
                    let k = choose|k: int|
                        0 <= k < g.nodes@[i].deps@.len() && (#[trigger] g.nodes@[i].deps@[k])
                            == j2;
                    assert(visited@[g.nodes@[node as int].deps@[k] as int]);
                }
            }
            if !pushed_new {
                assert(stack@.len() < popped_stack.len() + 1);
            }
            lemma_count_true_bounds(visited@);
        }
    }
    proof {
        assert forall|i: int| 0 <= i < g.n() implies visited@[i] == g.reachable(i) by {
            if g.reachable(i) {
                let p = choose|p: Seq<int>| g.is_path(p) && p.last() == i;
                lemma_closed_covers(*g, visited@, p);
            }
        }
    }
    visited
}

/// The closure entry a node denotes.
pub open spec fn spec_entry_of(node: GraphNode) -> ClosureEntryView {
    ClosureEntryView {
        name: node.name@,
        resolved: match spec_version_of_text(node.version_text@) {
            Some(v) => ResolvedView::Known(v),
            None => ResolvedView::Unparsed(node.version_text@),
        },
    }
}

pub open spec fn acc_has_name(acc: Seq<ClosureEntryView>, name: Seq<u8>) -> bool {
    exists|k: int| 0 <= k < acc.len() && (#[trigger] acc[k]).name == name
}

/// The closure collected from the nodes in index order: each reachable,
/// externally sourced node whose name is not collected yet contributes an
/// entry.
pub open spec fn spec_collect(
    g: BuildGraph,
    reach: Seq<bool>,
    i: int,
    acc: Seq<ClosureEntryView>,
) -> Seq<ClosureEntryView>
    decreases g.n() - i,
{
    if i < 0 || i >= g.n() {
        acc
    } else {
        let node = g.nodes@[i];
        let take = reach[i] && node.external && !acc_has_name(acc, node.name@);
        spec_collect(
            g,
            reach,
            i + 1,
            if take {
                acc.push(spec_entry_of(node))
            } else {
                acc
            },
        )
    }
}

/// Resolves the closure of a build graph: one entry per distinct name among
/// the reachable external packages; a version text that does not parse is
/// kept raw and will be flagged by the classifier.
pub fn resolve_closure(g: &BuildGraph) -> (r: Vec<ClosureEntry>)
    requires
        g.wf(),
    ensures
        closure_views_of(r@) == spec_collect(*g, reach_of(*g), 0, Seq::empty()),
        forall|a: int, b: int|
            0 <= a < b < r@.len() ==> (#[trigger] closure_views_of(r@)[a]).name != (
            #[trigger] closure_views_of(r@)[b]).name,
{
    let reach = reachable_set(g);
    proof {
        assert(reach@ =~= reach_of(*g));
    }
    let mut out: Vec<ClosureEntry> = Vec::new();
    let mut i: usize = 0;
    proof {
        assert(closure_views_of(out@) =~= Seq::<ClosureEntryView>::empty());
    }
    while i < g.nodes.len()
        invariant
            g.wf(),
            reach@ == reach_of(*g),
            reach@.len() == g.nodes@.len(),
            0 <= i <= g.n(),
            spec_collect(*g, reach@, 0, Seq::empty()) == spec_collect(
                *g,
                reach@,
                i as int,
                closure_views_of(out@),
            ),
            forall|a: int, b: int|
                0 <= a < b < out@.len() ==> (#[trigger] closure_views_of(out@)[a]).name != (
                #[trigger] closure_views_of(out@)[b]).name,
        decreases g.n() - i,
    {
        let take = reach[i] && g.nodes[i].external && !has_entry_name(
            &out,
            g.nodes[i].name.as_slice(),
        );
        proof {
            assert(reach@[i as int] == reach_of(*g)[i as int]);
        }
        if take {
            let name = crate::bytes::slice_to_vec_range(
                g.nodes[i].name.as_slice(),
                0,
                g.nodes[i].name.len(),
            );
            let resolved = match version_from_text(g.nodes[i].version_text.as_slice()) {
                Some(v) => Resolved::Known(v),
                None => Resolved::Unparsed(
                    crate::bytes::slice_to_vec_range(
                        g.nodes[i].version_text.as_slice(),
                        0,
                        g.nodes[i].version_text.len(),
                    ),
                ),
            };
            let ghost prev = out@;
            let entry = ClosureEntry { name, resolved };
            proof {
                assert(entry@.name =~= g.nodes@[i as int].name@);
                assert(entry@.resolved == spec_entry_of(g.nodes@[i as int]).resolved) by {
                    match entry@.resolved {
                        ResolvedView::Unparsed(t) => {
                            assert(t =~= g.nodes@[i as int].version_text@);
                        },
                        ResolvedView::Known(_) => {},
                    }
                }
                assert(entry@ == spec_entry_of(g.nodes@[i as int]));
            }
            out.push(entry);
            proof {
                assert(closure_views_of(out@) =~= closure_views_of(prev).push(
                    spec_entry_of(g.nodes@[i as int]),
                ));
                assert forall|a: int, b: int|
                    0 <= a < b < out@.len() implies (#[trigger] closure_views_of(out@)[a]).name
                    != (#[trigger] closure_views_of(out@)[b]).name by {
                    assert(closure_views_of(out@)[a] == out@[a]@);
                    assert(closure_views_of(out@)[b] == out@[b]@);
                    if b < prev.len() {
                        assert(out@[a] == prev[a] && out@[b] == prev[b]);
                        assert(closure_views_of(prev)[a] == prev[a]@);
                        assert(closure_views_of(prev)[b] == prev[b]@);
                    } else {
                        assert(out@[b]@ == spec_entry_of(g.nodes@[i as int]));
                        assert(out@[a] == prev[a]);
                        assert(closure_views_of(prev)[a] == prev[a]@);
                        assert(!acc_has_name(closure_views_of(prev), out@[b]@.name));
                    }
                }
            }
        }
        i = i + 1;
    }
    out
}

/// The reachability vector of a graph.
pub open spec fn reach_of(g: BuildGraph) -> Seq<bool> {
    Seq::new(g.nodes@.len(), |i: int| g.reachable(i))
}

fn has_entry_name(out: &Vec<ClosureEntry>, name: &[u8]) -> (r: bool)
    ensures
        r == acc_has_name(closure_views_of(out@), name@),
{
    let mut k: usize = 0;
    while k < out.len()
        invariant
            0 <= k <= out@.len(),
            forall|m: int| 0 <= m < k ==> (#[trigger] closure_views_of(out@)[m]).name != name@,
        decreases out@.len() - k,
    {
        proof {
            assert(closure_views_of(out@)[k as int] == out@[k as int]@);
        }
        if crate::bytes::bytes_eq(out[k].name.as_slice(), name) {
            proof {
                assert(acc_has_name(closure_views_of(out@), name@));
            }
            return true;
        }
        k = k + 1;
    }
    false
}

} // verus!
