//! The model: labels, edges, and paths as a start label with a sequence of edges.

use vstd::prelude::*;

verus! {

/// A vertex identifier. Labels may be dense or sparse.
pub type Label = u32;

/// An edge cost. Zero is a legal cost.
pub type Weight = u32;

/// The destination and the cost of an arc that leaves an implicit source.
pub type Edge = (Label, Weight);

/// For each label that has outgoing arcs, those arcs in the order in which they were
/// recorded. A label that is no key has no outgoing arc.
pub type Adjacency = Map<Label, Seq<Edge>>;

/// The sum of the costs of `steps`.
pub open spec fn total_weight(steps: Seq<Edge>) -> nat
    decreases steps.len(),
{
    if steps.len() == 0 {
        0
    } else {
        total_weight(steps.drop_last()) + steps.last().1 as nat
    }
}

/// Whether `edge` is one of the arcs that `adj` records for `source`.
pub open spec fn has_edge(adj: Adjacency, source: Label, edge: Edge) -> bool {
    adj.contains_key(source) && adj[source].contains(edge)
}

/// The test for an edge whose destination is outside `visited`.
pub open spec fn leads_outside(visited: Set<Label>) -> spec_fn(Edge) -> bool {
    |e: Edge| !visited.contains(e.0)
}

/// The arcs of `adj` that leave `label` for a destination outside `visited`, in recorded
/// order.
pub open spec fn unvisited_edges(adj: Adjacency, label: Label, visited: Set<Label>) -> Seq<Edge>
    recommends
        adj.contains_key(label),
{
    adj[label].filter(leads_outside(visited))
}

/// A start label and the edges taken from it, one after another.
pub struct Path {
    pub start: Label,
    pub steps: Seq<Edge>,
}

impl Path {
    /// The path that stays at `start`.
    pub open spec fn at(start: Label) -> Path {
        Path { start, steps: Seq::empty() }
    }

    /// The label that the path has reached after `i` steps. Step `i` leaves from it.
    pub open spec fn label_at(self, i: int) -> Label {
        if i == 0 {
            self.start
        } else {
            self.steps[i - 1].0
        }
    }

    /// The label at which the path arrives: the start label where no step was taken.
    pub open spec fn end(self) -> Label {
        self.label_at(self.steps.len() as int)
    }

    /// The start label followed by the destination of each step.
    pub open spec fn labels(self) -> Seq<Label> {
        Seq::new(self.steps.len() + 1, |i: int| self.label_at(i))
    }

    /// The sum of the costs of the steps.
    pub open spec fn weight(self) -> nat {
        total_weight(self.steps)
    }

    /// This path with one more step at its end.
    pub open spec fn extended(self, edge: Edge) -> Path {
        Path { start: self.start, steps: self.steps.push(edge) }
    }

    /// The first `n` steps of this path.
    pub open spec fn prefix(self, n: int) -> Path {
        Path { start: self.start, steps: self.steps.take(n) }
    }

    /// Whether no label occurs twice on the path.
    pub open spec fn is_simple(self) -> bool {
        self.labels().no_duplicates()
    }

    /// Whether every step is an arc of `adj` that leaves the label reached before it.
    pub open spec fn follows(self, adj: Adjacency) -> bool {
        forall|i: int|
            0 <= i < self.steps.len() ==> has_edge(adj, self.label_at(i), #[trigger] self.steps[i])
    }

    /// Whether the path leads from `from` to `to` along arcs of `adj`.
    pub open spec fn connects(self, adj: Adjacency, from: Label, to: Label) -> bool {
        self.start == from && self.end() == to && self.follows(adj)
    }
}

/// The weight of a sequence with one more edge is the weight before plus that edge's cost.
pub proof fn lemma_weight_push(steps: Seq<Edge>, edge: Edge)
    ensures
        total_weight(steps.push(edge)) == total_weight(steps) + edge.1,
{
    assert(steps.push(edge).drop_last() =~= steps);
}

/// A prefix weighs no more than the whole.
pub proof fn lemma_weight_prefix(steps: Seq<Edge>, n: int)
    requires
        0 <= n <= steps.len(),
    ensures
        total_weight(steps.take(n)) <= total_weight(steps),
    decreases steps.len(),
{
    if n == steps.len() {
        assert(steps.take(n) =~= steps);
    } else {
        lemma_weight_prefix(steps.drop_last(), n);
        assert(steps.drop_last().take(n) =~= steps.take(n));
    }
}

/// No edge costs more than `u32::MAX`, so the weight is at most that times the length.
pub proof fn lemma_weight_bound(steps: Seq<Edge>)
    ensures
        total_weight(steps) <= steps.len() * u32::MAX,
    decreases steps.len(),
{
    if steps.len() > 0 {
        lemma_weight_bound(steps.drop_last());
        assert((steps.len() - 1) * u32::MAX + u32::MAX == steps.len() * u32::MAX)
            by (nonlinear_arith);
    }
}

/// A prefix of a path that follows `adj` follows it too, and ends where its last step
/// leaves off.
pub proof fn lemma_prefix_follows(path: Path, adj: Adjacency, n: int)
    requires
        path.follows(adj),
        0 <= n <= path.steps.len(),
    ensures
        path.prefix(n).follows(adj),
        path.prefix(n).end() == path.label_at(n),
        path.prefix(n).start == path.start,
{
    let p = path.prefix(n);
    assert forall|i: int| 0 <= i < p.steps.len() implies has_edge(
        adj,
        p.label_at(i),
        #[trigger] p.steps[i],
    ) by {
        assert(p.steps[i] == path.steps[i]);
        assert(p.label_at(i) == path.label_at(i));
    }
}

/// An extension by an arc that leaves the end follows `adj` where the path did.
pub proof fn lemma_extended_follows(path: Path, adj: Adjacency, edge: Edge)
    requires
        path.follows(adj),
        has_edge(adj, path.end(), edge),
    ensures
        path.extended(edge).follows(adj),
        path.extended(edge).end() == edge.0,
        path.extended(edge).weight() == path.weight() + edge.1,
{
    let q = path.extended(edge);
    assert forall|i: int| 0 <= i < q.steps.len() implies has_edge(
        adj,
        q.label_at(i),
        #[trigger] q.steps[i],
    ) by {
        if i < path.steps.len() {
            assert(q.steps[i] == path.steps[i]);
            assert(q.label_at(i) == path.label_at(i));
        }
    }
    lemma_weight_push(path.steps, edge);
}

/// The labels of a path that leads from `from` to `to` begin with `from` and finish with
/// `to`, and there is one more of them than the path has steps.
pub proof fn lemma_labels_ends(path: Path, adj: Adjacency, from: Label, to: Label)
    requires
        path.connects(adj, from, to),
    ensures
        path.labels().len() == path.steps.len() + 1,
        path.labels().first() == from,
        path.labels().last() == to,
{
}

/// No path leads from a label that no arc leaves to another label.
pub proof fn lemma_unreachable_without_source(adj: Adjacency, from: Label, to: Label)
    requires
        !adj.contains_key(from),
        from != to,
    ensures
        !reachable(adj, from, to),
{
    assert forall|p: Path| !#[trigger] p.connects(adj, from, to) by {
        if p.connects(adj, from, to) {
            assert(has_edge(adj, p.label_at(0), p.steps[0]));
        }
    }
}

/// No path leads from another label to a label that no arc enters.
pub proof fn lemma_unreachable_without_arrival(adj: Adjacency, from: Label, to: Label)
    requires
        forall|x: Label, e: Edge| #[trigger] has_edge(adj, x, e) ==> e.0 != to,
        from != to,
    ensures
        !reachable(adj, from, to),
{
    assert forall|p: Path| !#[trigger] p.connects(adj, from, to) by {
        if p.connects(adj, from, to) {
            let last = p.steps.len() - 1;
            assert(has_edge(adj, p.label_at(last), p.steps[last]));
        }
    }
}

/// Whether some path leads from `from` to `to` along arcs of `adj`. The path without steps
/// leads from every label to itself.
pub open spec fn reachable(adj: Adjacency, from: Label, to: Label) -> bool {
    exists|p: Path| p.connects(adj, from, to)
}

/// Whether `path` leads from `from` to `to` along arcs of `adj` and no path that does so
/// weighs less.
pub open spec fn is_cheapest(adj: Adjacency, from: Label, to: Label, path: Path) -> bool {
    &&& path.connects(adj, from, to)
    &&& forall|p: Path| #[trigger] p.connects(adj, from, to) ==> path.weight() <= p.weight()
}

/// The paths that extend `path` by each of `edges`, in order.
pub open spec fn extensions(path: Path, edges: Seq<Edge>) -> Seq<Path> {
    Seq::new(edges.len(), |i: int| path.extended(edges[i]))
}

/// The index of the first path of least weight in `paths`; zero where there is none.
pub open spec fn cheapest_index(paths: Seq<Path>) -> int
    decreases paths.len(),
{
    if paths.len() <= 1 {
        0
    } else {
        let i = cheapest_index(paths.drop_last());
        if paths.last().weight() < paths[i].weight() {
            paths.len() - 1
        } else {
            i
        }
    }
}

/// The path at [`cheapest_index`] weighs no more than any other, and less than each one
/// before it.
pub proof fn lemma_cheapest_index(paths: Seq<Path>)
    requires
        paths.len() > 0,
    ensures
        0 <= cheapest_index(paths) < paths.len(),
        forall|j: int|
            0 <= j < paths.len() ==> paths[cheapest_index(paths)].weight() <= (
            #[trigger] paths[j]).weight(),
        forall|j: int|
            0 <= j < cheapest_index(paths) ==> paths[cheapest_index(paths)].weight() < (
            #[trigger] paths[j]).weight(),
    decreases paths.len(),
{
    if paths.len() > 1 {
        let front = paths.drop_last();
        lemma_cheapest_index(front);
        let i = cheapest_index(front);
        assert(paths[i] == front[i]);
        assert forall|j: int| 0 <= j < paths.len() implies paths[cheapest_index(paths)].weight()
            <= (#[trigger] paths[j]).weight() by {
            if j < front.len() {
                assert(paths[j] == front[j]);
            }
        }
        assert forall|j: int|
            0 <= j < cheapest_index(paths) implies paths[cheapest_index(paths)].weight() < (
        #[trigger] paths[j]).weight() by {
            assert(paths[j] == front[j]);
        }
    }
}

} // verus!
