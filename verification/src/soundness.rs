//! Why the search finds a cheapest route.
//!
//! Between two rounds a search is described by three values: the set of visited labels,
//! the sequence of pending routes, and for each visited label a settled cost that no path
//! to it undercuts. [`search_inv`] relates them. [`lemma_seed`] shows that the relation
//! holds when the search begins, [`lemma_round`] that one round keeps it, and
//! [`lemma_rounds_sound`] draws from it that the answer is right.

use crate::path::{
    cheapest_index, has_edge, leads_outside, lemma_cheapest_index, lemma_extended_follows,
    lemma_prefix_follows, lemma_weight_bound, lemma_weight_prefix, lemma_weight_push,
    unvisited_edges, Adjacency, Edge, Label, Path,
};
use crate::search::{answers, expansion, rounds};
use vstd::prelude::*;
use vstd::set_lib::{lemma_int_range, lemma_len_subset, set_int_range};

verus! {

/// The number of labels that exist.
pub open spec fn label_count() -> int {
    0x1_0000_0000
}

/// A sequence of labels without repetition is no longer than there are labels.
pub proof fn lemma_distinct_labels_bounded(labels: Seq<Label>)
    requires
        labels.no_duplicates(),
    ensures
        labels.len() <= label_count(),
{
    let numbers = labels.map_values(|l: Label| l as int);
    assert forall|i: int, j: int|
        0 <= i < numbers.len() && 0 <= j < numbers.len() && i != j implies numbers[i]
        != numbers[j] by {
        assert(labels[i] != labels[j]);
    }
    numbers.unique_seq_to_set();
    lemma_int_range(0, label_count());
    assert forall|n: int| numbers.to_set().contains(n) implies set_int_range(
        0,
        label_count(),
    ).contains(n) by {
        let i = choose|i: int| 0 <= i < numbers.len() && numbers[i] == n;
        assert(numbers[i] == labels[i] as int);
    }
    lemma_len_subset(numbers.to_set(), set_int_range(0, label_count()));
}

/// A simple path has fewer steps than there are labels, and its weight fits in a `u64`.
pub proof fn lemma_simple_path_fits(path: Path)
    requires
        path.is_simple(),
    ensures
        path.steps.len() < label_count(),
        path.weight() <= u64::MAX,
{
    lemma_distinct_labels_bounded(path.labels());
    lemma_weight_bound(path.steps);
    assert(path.steps.len() * u32::MAX <= u64::MAX) by (nonlinear_arith)
        requires
            path.steps.len() < 0x1_0000_0000,
    ;
}

/// Whether every label of `path` is in `visited`, the end included.
pub open spec fn within(path: Path, visited: Set<Label>) -> bool {
    forall|i: int| 0 <= i <= path.steps.len() ==> visited.contains(#[trigger] path.label_at(i))
}

/// A simple path inside `visited` stays simple when it takes an edge that leads outside.
pub proof fn lemma_extension_simple(path: Path, visited: Set<Label>, edge: Edge)
    requires
        path.is_simple(),
        within(path, visited),
        !visited.contains(edge.0),
    ensures
        path.extended(edge).is_simple(),
        path.weight() + edge.1 <= u64::MAX,
{
    let longer = path.extended(edge);
    let n = path.steps.len() as int;
    assert forall|i: int, j: int|
        0 <= i < longer.labels().len() && 0 <= j < longer.labels().len() && i
            != j implies longer.labels()[i] != longer.labels()[j] by {
        lemma_extension_labels(path, edge, i);
        lemma_extension_labels(path, edge, j);
        if i <= n && j <= n {
            assert(path.labels()[i] != path.labels()[j]);
        } else if i <= n {
            assert(visited.contains(path.label_at(i)));
        } else {
            assert(visited.contains(path.label_at(j)));
        }
    }
    lemma_simple_path_fits(longer);
    lemma_weight_push(path.steps, edge);
}

/// The labels of an extended path: those of the path, then the destination of the new
/// edge.
pub proof fn lemma_extension_labels(path: Path, edge: Edge, i: int)
    requires
        0 <= i <= path.steps.len() + 1,
    ensures
        path.extended(edge).label_at(i) == if i <= path.steps.len() {
            path.label_at(i)
        } else {
            edge.0
        },
{
}

/// Every route of an expansion of a simple path inside `visited` has a weight that fits in
/// a `u64`.
pub proof fn lemma_expansion_fits(adj: Adjacency, path: Path, visited: Set<Label>)
    requires
        path.is_simple(),
        within(path, visited),
        adj.contains_key(path.end()),
    ensures
        forall|k: int|
            0 <= k < unvisited_edges(adj, path.end(), visited).len() ==> path.weight() + (
            #[trigger] unvisited_edges(adj, path.end(), visited)[k]).1 <= u64::MAX,
{
    let edges = unvisited_edges(adj, path.end(), visited);
    assert forall|k: int| 0 <= k < edges.len() implies path.weight() + (#[trigger] edges[k]).1
        <= u64::MAX by {
        adj[path.end()].lemma_filter_pred(leads_outside(visited), k);
        lemma_extension_simple(path, visited, edges[k]);
    }
}

/// What holds of a pending route: it starts at `from`, takes at least one arc of `adj`,
/// repeats no label, and only its end may lie outside `visited`.
pub open spec fn route_ok(adj: Adjacency, from: Label, visited: Set<Label>, path: Path) -> bool {
    &&& path.start == from
    &&& path.steps.len() > 0
    &&& path.follows(adj)
    &&& path.is_simple()
    &&& within(path.prefix(path.steps.len() - 1), visited)
}

/// Whether every pending route is as [`route_ok`] asks.
pub open spec fn routes_ok(
    adj: Adjacency,
    from: Label,
    visited: Set<Label>,
    pending: Seq<Path>,
) -> bool {
    forall|i: int| 0 <= i < pending.len() ==> route_ok(adj, from, visited, #[trigger] pending[i])
}

/// Whether each visited label has a settled cost, and no path from `from` to it weighs
/// less.
pub open spec fn settled_ok(
    adj: Adjacency,
    from: Label,
    visited: Set<Label>,
    settled: Map<Label, nat>,
) -> bool {
    &&& forall|x: Label| visited.contains(x) ==> #[trigger] settled.contains_key(x)
    &&& forall|x: Label, p: Path|
        visited.contains(x) && #[trigger] p.connects(adj, from, x) ==> settled[x] <= p.weight()
}

/// Whether some pending route ends at `target` and weighs at most `bound`.
pub open spec fn covers(pending: Seq<Path>, target: Label, bound: int) -> bool {
    exists|i: int|
        0 <= i < pending.len() && (#[trigger] pending[i]).end() == target && pending[i].weight()
            <= bound
}

/// Whether each arc that leaves `x` for an unvisited label has a pending route to that
/// label which costs no more than the settled cost of `x` plus the arc.
pub open spec fn edges_covered(
    adj: Adjacency,
    visited: Set<Label>,
    pending: Seq<Path>,
    settled: Map<Label, nat>,
    x: Label,
) -> bool {
    forall|e: Edge| #[trigger]
        has_edge(adj, x, e) && !visited.contains(e.0) ==> covers(
            pending,
            e.0,
            settled[x] + e.1,
        )
}

/// Whether [`edges_covered`] holds of every visited label but `spared`.
pub open spec fn covered_except(
    adj: Adjacency,
    visited: Set<Label>,
    pending: Seq<Path>,
    settled: Map<Label, nat>,
    spared: Option<Label>,
) -> bool {
    forall|x: Label|
        visited.contains(x) && spared != Some(x) ==> #[trigger] edges_covered(
            adj,
            visited,
            pending,
            settled,
            x,
        )
}

/// What holds between two rounds of a search from `from` for `to`.
pub open spec fn search_inv(
    adj: Adjacency,
    from: Label,
    to: Label,
    visited: Set<Label>,
    pending: Seq<Path>,
    settled: Map<Label, nat>,
) -> bool {
    &&& visited.contains(from)
    &&& visited.contains(to) ==> to == from
    &&& routes_ok(adj, from, visited, pending)
    &&& settled_ok(adj, from, visited, settled)
    &&& covered_except(adj, visited, pending, settled, None)
}

/// The first step of `path`, among its first `n`, that arrives outside `visited`.
proof fn first_outside(path: Path, visited: Set<Label>, n: int) -> (j: int)
    requires
        0 <= n <= path.steps.len(),
        visited.contains(path.label_at(0)),
        !visited.contains(path.label_at(n)),
    ensures
        0 < j <= n,
        visited.contains(path.label_at(j - 1)),
        !visited.contains(path.label_at(j)),
    decreases n,
{
    if visited.contains(path.label_at(n - 1)) {
        n
    } else {
        first_outside(path, visited, n - 1)
    }
}

/// Between two rounds, every path from `from` to an unvisited label weighs at least as
/// much as some pending route.
pub proof fn lemma_cheaper_pending(
    adj: Adjacency,
    from: Label,
    to: Label,
    visited: Set<Label>,
    pending: Seq<Path>,
    settled: Map<Label, nat>,
    path: Path,
) -> (i: int)
    requires
        search_inv(adj, from, to, visited, pending, settled),
        path.start == from,
        path.follows(adj),
        !visited.contains(path.end()),
    ensures
        0 <= i < pending.len(),
        pending[i].weight() <= path.weight(),
{
    let j = first_outside(path, visited, path.steps.len() as int);
    let x = path.label_at(j - 1);
    let e = path.steps[j - 1];
    let head = path.prefix(j - 1);
    lemma_prefix_follows(path, adj, j - 1);
    assert(head.connects(adj, from, x));
    assert(has_edge(adj, x, e));
    assert(edges_covered(adj, visited, pending, settled, x));
    let i = choose|i: int|
        0 <= i < pending.len() && (#[trigger] pending[i]).end() == e.0 && pending[i].weight()
            <= settled[x] + e.1;
    assert(path.steps.take(j) =~= path.steps.take(j - 1).push(e));
    lemma_weight_push(path.steps.take(j - 1), e);
    lemma_weight_prefix(path.steps, j);
    i
}

/// The settled costs after a round that took `path` from the pending routes: its weight
/// becomes the settled cost of its end, unless that label was visited before.
pub open spec fn settled_after(visited: Set<Label>, settled: Map<Label, nat>, path: Path) -> Map<
    Label,
    nat,
> {
    if visited.contains(path.end()) {
        settled
    } else {
        settled.insert(path.end(), path.weight())
    }
}

/// Adding the expansion of `path` completes a round: where all holds but the cover of the
/// arcs that leave the end of `path`, and `path` reaches that end at its settled cost (or
/// those arcs were covered before), all holds afterwards.
pub proof fn lemma_expand(
    adj: Adjacency,
    from: Label,
    to: Label,
    visited: Set<Label>,
    pending: Seq<Path>,
    settled: Map<Label, nat>,
    path: Path,
)
    requires
        visited.contains(from),
        visited.contains(to) ==> to == from,
        routes_ok(adj, from, visited, pending),
        settled_ok(adj, from, visited, settled),
        covered_except(adj, visited, pending, settled, Some(path.end())),
        path.start == from,
        path.follows(adj),
        path.is_simple(),
        within(path, visited),
        edges_covered(adj, visited, pending, settled, path.end()) || path.weight()
            <= settled[path.end()],
    ensures
        search_inv(adj, from, to, visited, pending + expansion(adj, path, visited), settled),
{
    let u = path.end();
    let added = expansion(adj, path, visited);
    let after = pending + added;
    let keep = leads_outside(visited);
    assert forall|i: int| 0 <= i < after.len() implies route_ok(
        adj,
        from,
        visited,
        #[trigger] after[i],
    ) by {
        if i < pending.len() {
            assert(after[i] == pending[i]);
        } else {
            let k = i - pending.len();
            let e = adj[u].filter(keep)[k];
            assert(after[i] == path.extended(e));
            adj[u].lemma_filter_pred(keep, k);
            assert(adj[u].filter(keep).contains(e));
            adj[u].lemma_filter_contains_rev(keep, e);
            lemma_extended_follows(path, adj, e);
            lemma_extension_simple(path, visited, e);
            assert(path.extended(e).prefix(path.steps.len() as int).steps =~= path.steps);
        }
    }
    assert forall|x: Label| visited.contains(x) implies #[trigger] edges_covered(
        adj,
        visited,
        after,
        settled,
        x,
    ) by {
        assert forall|e: Edge| #[trigger]
            has_edge(adj, x, e) && !visited.contains(e.0) implies covers(
            after,
            e.0,
            settled[x] + e.1,
        ) by {
            if edges_covered(adj, visited, pending, settled, x) {
                let i = choose|i: int|
                    0 <= i < pending.len() && (#[trigger] pending[i]).end() == e.0
                        && pending[i].weight() <= settled[x] + e.1;
                assert(after[i] == pending[i]);
            } else {
                assert(x == u);
                let m = choose|m: int| 0 <= m < adj[u].len() && adj[u][m] == e;
                adj[u].lemma_filter_contains(keep, m);
                let k = choose|k: int|
                    0 <= k < adj[u].filter(keep).len() && adj[u].filter(keep)[k] == e;
                let i = pending.len() + k;
                assert(after[i] == path.extended(e));
                lemma_extended_follows(path, adj, e);
            }
        }
    }
}

/// Taking a cheapest pending route and marking its end visited prepares a round: all that
/// [`lemma_expand`] asks then holds of that route.
pub proof fn lemma_settle(
    adj: Adjacency,
    from: Label,
    to: Label,
    visited: Set<Label>,
    pending: Seq<Path>,
    settled: Map<Label, nat>,
    i: int,
)
    requires
        search_inv(adj, from, to, visited, pending, settled),
        0 <= i < pending.len(),
        forall|j: int| 0 <= j < pending.len() ==> pending[i].weight() <= (#[trigger] pending[j]).weight(),
        pending[i].end() != to,
    ensures
        ({
            let path = pending[i];
            let seen = visited.insert(path.end());
            let rest = pending.remove(i);
            let costs = settled_after(visited, settled, path);
            &&& seen.contains(from)
            &&& seen.contains(to) ==> to == from
            &&& routes_ok(adj, from, seen, rest)
            &&& settled_ok(adj, from, seen, costs)
            &&& covered_except(adj, seen, rest, costs, Some(path.end()))
            &&& path.start == from
            &&& path.follows(adj)
            &&& path.is_simple()
            &&& within(path, seen)
            &&& edges_covered(adj, seen, rest, costs, path.end()) || path.weight()
                <= costs[path.end()]
        }),
{
    let path = pending[i];
    let u = path.end();
    let seen = visited.insert(u);
    let rest = pending.remove(i);
    let costs = settled_after(visited, settled, path);
    assert(route_ok(adj, from, visited, path));
    assert forall|j: int| 0 <= j < rest.len() implies route_ok(
        adj,
        from,
        seen,
        #[trigger] rest[j],
    ) by {
        let q = if j < i {
            pending[j]
        } else {
            pending[j + 1]
        };
        assert(rest[j] == q);
        assert(route_ok(adj, from, visited, q));
        let head = q.prefix(q.steps.len() - 1);
        assert forall|k: int| 0 <= k <= head.steps.len() implies seen.contains(
            #[trigger] head.label_at(k),
        ) by {
            assert(visited.contains(head.label_at(k)));
        }
    }
    assert forall|x: Label| seen.contains(x) implies #[trigger] costs.contains_key(x) by {
        if visited.contains(x) {
            assert(settled.contains_key(x));
        }
    }
    assert forall|x: Label, p: Path|
        seen.contains(x) && #[trigger] p.connects(adj, from, x) implies costs[x]
        <= p.weight() by {
        if visited.contains(x) {
            assert(settled.contains_key(x));
            assert(settled[x] <= p.weight());
        } else {
            let k = lemma_cheaper_pending(adj, from, to, visited, pending, settled, p);
            assert(pending[i].weight() <= pending[k].weight());
        }
    }
    assert forall|x: Label| visited.contains(x) implies #[trigger] edges_covered(
        adj,
        seen,
        rest,
        costs,
        x,
    ) by {
        assert(edges_covered(adj, visited, pending, settled, x));
        assert forall|e: Edge| #[trigger]
            has_edge(adj, x, e) && !seen.contains(e.0) implies covers(rest, e.0, costs[x] + e.1) by {
            let k = choose|k: int|
                0 <= k < pending.len() && (#[trigger] pending[k]).end() == e.0
                    && pending[k].weight() <= settled[x] + e.1;
            assert(k != i);
            let j = if k < i {
                k
            } else {
                k - 1
            };
            assert(rest[j] == pending[k]);
        }
    }
    let head = path.prefix(path.steps.len() - 1);
    assert forall|k: int| 0 <= k <= path.steps.len() implies seen.contains(
        #[trigger] path.label_at(k),
    ) by {
        if k < path.steps.len() {
            assert(visited.contains(head.label_at(k)));
        }
    }
}

/// One round keeps what holds between rounds: a cheapest pending route that does not end
/// at `to` is taken out, its end is marked visited, and its expansion is added.
pub proof fn lemma_round(
    adj: Adjacency,
    from: Label,
    to: Label,
    visited: Set<Label>,
    pending: Seq<Path>,
    settled: Map<Label, nat>,
    i: int,
)
    requires
        search_inv(adj, from, to, visited, pending, settled),
        0 <= i < pending.len(),
        forall|j: int| 0 <= j < pending.len() ==> pending[i].weight() <= (#[trigger] pending[j]).weight(),
        pending[i].end() != to,
    ensures
        search_inv(
            adj,
            from,
            to,
            visited.insert(pending[i].end()),
            pending.remove(i) + expansion(adj, pending[i], visited.insert(pending[i].end())),
            settled_after(visited, settled, pending[i]),
        ),
{
    lemma_settle(adj, from, to, visited, pending, settled, i);
    lemma_expand(
        adj,
        from,
        to,
        visited.insert(pending[i].end()),
        pending.remove(i),
        settled_after(visited, settled, pending[i]),
        pending[i],
    );
}

/// The state in which a search begins: only `from` is visited, at cost zero, and the
/// pending routes are the arcs that leave it for another label.
pub proof fn lemma_seed(adj: Adjacency, from: Label, to: Label)
    ensures
        search_inv(
            adj,
            from,
            to,
            set![from],
            expansion(adj, Path::at(from), set![from]),
            map![from => 0nat],
        ),
{
    let visited = set![from];
    let settled = map![from => 0nat];
    let none = Seq::<Path>::empty();
    let origin = Path::at(from);
    assert(origin.labels().no_duplicates());
    lemma_expand(adj, from, to, visited, none, settled, origin);
    assert(none + expansion(adj, origin, visited) =~= expansion(adj, origin, visited));
}

/// A search that stands between two rounds and comes to an end gives a right answer.
pub proof fn lemma_rounds_sound(
    adj: Adjacency,
    from: Label,
    to: Label,
    visited: Set<Label>,
    pending: Seq<Path>,
    settled: Map<Label, nat>,
    n: nat,
)
    requires
        search_inv(adj, from, to, visited, pending, settled),
        rounds(adj, to, visited, pending, n) is Some,
    ensures
        rounds(adj, to, visited, pending, n) matches Some(answer) && answers(
            adj,
            from,
            to,
            answer,
        ),
    decreases n,
{
    if pending.len() == 0 {
        assert forall|p: Path| #[trigger] p.connects(adj, from, to) implies from == to by {
            if from != to {
                lemma_cheaper_pending(adj, from, to, visited, pending, settled, p);
            }
        }
    } else {
        lemma_cheapest_index(pending);
        let i = cheapest_index(pending);
        let path = pending[i];
        assert(route_ok(adj, from, visited, path));
        if path.end() == to {
            assert(path.labels()[0] != path.labels()[path.steps.len() as int]);
            assert forall|p: Path| #[trigger] p.connects(adj, from, to) implies path.weight()
                <= p.weight() by {
                let k = lemma_cheaper_pending(adj, from, to, visited, pending, settled, p);
                assert(pending[i].weight() <= pending[k].weight());
            }
        } else {
            let seen = visited.insert(path.end());
            lemma_round(adj, from, to, visited, pending, settled, i);
            lemma_rounds_sound(
                adj,
                from,
                to,
                seen,
                pending.remove(i) + expansion(adj, path, seen),
                settled_after(visited, settled, path),
                (n - 1) as nat,
            );
        }
    }
}

} // verus!
