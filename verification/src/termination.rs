//! Why the search ends.
//!
//! Every pending route repeats no label, so it is shorter than there are labels, and a
//! round replaces one route by routes that are one step longer. [`work`] turns this into
//! a number that each round lowers.

use crate::path::{
    cheapest_index, extensions, leads_outside, lemma_cheapest_index, unvisited_edges, Adjacency,
    Edge, Label, Path,
};
use crate::search::{bounded, expansion, rounds};
use crate::soundness::{
    label_count, lemma_round, lemma_simple_path_fits, route_ok, search_inv, settled_after,
};
use vstd::prelude::*;

verus! {

/// An upper bound on the routes that can descend from one route which may still take `k`
/// steps, itself included: each route has at most `usize::MAX` extensions.
pub open spec fn span(k: int) -> nat
    decreases k,
{
    if k <= 0 {
        1
    } else {
        1 + (usize::MAX as nat) * span(k - 1)
    }
}

/// The number of steps that `path` may still take before it must repeat a label.
pub open spec fn room(path: Path) -> int {
    label_count() - path.steps.len()
}

/// An upper bound on the rounds that a search with these pending routes still makes.
pub open spec fn work(pending: Seq<Path>) -> nat
    decreases pending.len(),
{
    if pending.len() == 0 {
        0
    } else {
        work(pending.drop_last()) + span(room(pending.last()))
    }
}

/// The work of two sequences of routes, one after the other, is the sum of their work.
pub proof fn lemma_work_concat(a: Seq<Path>, b: Seq<Path>)
    ensures
        work(a + b) == work(a) + work(b),
    decreases b.len(),
{
    if b.len() == 0 {
        assert(a + b =~= a);
    } else {
        lemma_work_concat(a, b.drop_last());
        assert((a + b).drop_last() =~= a + b.drop_last());
    }
}

/// Taking one route out lowers the work by that route's span.
pub proof fn lemma_work_remove(pending: Seq<Path>, i: int)
    requires
        0 <= i < pending.len(),
    ensures
        work(pending.remove(i)) + span(room(pending[i])) == work(pending),
{
    let head = pending.take(i);
    let tail = pending.skip(i + 1);
    assert(pending.remove(i) =~= head + tail);
    assert(pending =~= head.push(pending[i]) + tail);
    assert(head.push(pending[i]).drop_last() =~= head);
    lemma_work_concat(head, tail);
    lemma_work_concat(head.push(pending[i]), tail);
}

/// Each extension of a route may take one step less than the route itself.
pub proof fn lemma_work_extensions(path: Path, edges: Seq<Edge>)
    ensures
        work(extensions(path, edges)) == edges.len() * span(room(path) - 1),
    decreases edges.len(),
{
    if edges.len() > 0 {
        lemma_work_extensions(path, edges.drop_last());
        assert(extensions(path, edges).drop_last() =~= extensions(path, edges.drop_last()));
        assert(room(extensions(path, edges).last()) == room(path) - 1);
        assert((edges.len() - 1) * span(room(path) - 1) + span(room(path) - 1) == edges.len()
            * span(room(path) - 1)) by (nonlinear_arith);
    } else {
        assert(0 * span(room(path) - 1) == 0);
    }
}

/// A round lowers the work: the route taken out is simple, so its span exceeds that of all
/// its extensions together.
pub proof fn lemma_round_shrinks(adj: Adjacency, visited: Set<Label>, pending: Seq<Path>, i: int)
    requires
        0 <= i < pending.len(),
        pending[i].steps.len() > 0,
        pending[i].is_simple(),
        expansion(adj, pending[i], visited).len() <= usize::MAX,
    ensures
        work(pending.remove(i) + expansion(adj, pending[i], visited)) < work(pending),
{
    let path = pending[i];
    let added = expansion(adj, path, visited);
    lemma_work_remove(pending, i);
    lemma_work_concat(pending.remove(i), added);
    lemma_simple_path_fits(path);
    let below = span(room(path) - 1);
    assert(work(added) == added.len() * below) by {
        if adj.contains_key(path.end()) {
            lemma_work_extensions(path, unvisited_edges(adj, path.end(), visited));
        } else {
            assert(0 * below == 0);
        }
    }
    assert(added.len() * below <= usize::MAX * below) by (nonlinear_arith)
        requires
            added.len() <= usize::MAX,
    ;
}

/// A search that stands between two rounds ends within as many rounds as its pending
/// routes have [`work`].
pub proof fn lemma_rounds_end(
    adj: Adjacency,
    from: Label,
    to: Label,
    visited: Set<Label>,
    pending: Seq<Path>,
    settled: Map<Label, nat>,
    n: nat,
)
    requires
        bounded(adj),
        search_inv(adj, from, to, visited, pending, settled),
        work(pending) <= n,
    ensures
        rounds(adj, to, visited, pending, n) is Some,
    decreases n,
{
    if pending.len() > 0 {
        lemma_cheapest_index(pending);
        let i = cheapest_index(pending);
        let path = pending[i];
        if path.end() != to {
            let seen = visited.insert(path.end());
            assert(route_ok(adj, from, visited, path));
            assert(adj.contains_key(path.end()) ==> adj[path.end()].len() <= usize::MAX);
            if adj.contains_key(path.end()) {
                adj[path.end()].lemma_filter_len(leads_outside(seen));
            }
            lemma_round_shrinks(adj, seen, pending, i);
            lemma_round(adj, from, to, visited, pending, settled, i);
            lemma_rounds_end(
                adj,
                from,
                to,
                seen,
                pending.remove(i) + expansion(adj, path, seen),
                settled_after(visited, settled, path),
                (n - 1) as nat,
            );
        }
    }
}

} // verus!
