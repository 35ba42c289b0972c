//! Weighted directed graphs: the adjacency query, the adjacency-list store, and the search
//! for a cheapest route.

use crate::frontier::Frontier;
use crate::path::{
    cheapest_index, has_edge, is_cheapest, leads_outside, lemma_unreachable_without_arrival,
    lemma_unreachable_without_source, reachable, unvisited_edges, Adjacency, Path,
};
pub use crate::path::{Edge, Label, Weight};
pub use crate::route::Route;
use crate::search::{bounded, expansion, lemma_outcome_within, rounds, search_outcome, seed};
use crate::soundness::{
    lemma_expansion_fits, lemma_round, lemma_rounds_sound, lemma_seed, lemma_settle, search_inv,
    settled_after,
};
use crate::termination::{lemma_round_shrinks, work};
use std::collections::HashMap;
use std::collections::HashSet;
use vstd::prelude::*;
use vstd::std_specs::hash::group_hash_axioms;

verus! {

broadcast use group_hash_axioms;

/// A graph that answers which arcs leave a label.
pub trait WeightedDirectedGraph {
    /// The graph as a map from each label that has outgoing arcs to those arcs.
    spec fn adjacency(&self) -> Adjacency;

    /// The arcs that leave `from`, or `None` where the graph records none for it.
    fn outgoing(&self, from: Label) -> (edges: Option<&Vec<Edge>>)
        ensures
            match edges {
                None => !self.adjacency().contains_key(from),
                Some(list) => self.adjacency().contains_key(from) && list@
                    == self.adjacency()[from],
            },
    ;

    /// The arcs that leave `from` for a label outside `visited`. `None` only where
    /// [`outgoing`](Self::outgoing) gives `None`; where every destination was visited, the
    /// result is an empty list.
    fn outgoing_unvisited(&self, from: Label, visited: &HashSet<Label>) -> (edges: Option<
        Vec<Edge>,
    >)
        ensures
            match edges {
                None => !self.adjacency().contains_key(from),
                Some(list) => self.adjacency().contains_key(from) && list@ == unvisited_edges(
                    self.adjacency(),
                    from,
                    visited@,
                ),
            },
    {
        match self.outgoing(from) {
            None => None,
            Some(all_outgoing) => {
                let ghost keep = leads_outside(visited@);
                let mut output: Vec<Edge> = Vec::new();
                let mut i: usize = 0;
                while i < all_outgoing.len()
                    invariant
                        i <= all_outgoing.len(),
                        keep == leads_outside(visited@),
                        output@ == all_outgoing@.take(i as int).filter(keep),
                    decreases all_outgoing.len() - i,
                {
                    let e = all_outgoing[i];
                    proof {
                        let prefix = all_outgoing@.take(i as int);
                        assert(all_outgoing@.take(i + 1) =~= prefix.push(e));
                        prefix.lemma_filter_push(e, keep);
                    }
                    if !visited.contains(&e.0) {
                        output.push(e);
                    }
                    i += 1;
                }
                assert(all_outgoing@.take(i as int) =~= all_outgoing@);
                Some(output)
            },
        }
    }

    /// A route of least total weight from `from` to `to`, or `None` where no arcs lead
    /// from the one to the other.
    ///
    /// A route takes at least one arc, and `from` counts as visited from the start, so a
    /// search from a label for that same label finds nothing, whether or not arcs lead
    /// back to it. A label that the graph does not know is a label that no arc leaves or
    /// enters. Of several routes of the least weight, the search settles on the one that
    /// [`search_outcome`] describes.
    fn dijkstra(&self, from: Label, to: Label) -> (route: Option<Route>)
        ensures
            route is Some <==> from != to && reachable(self.adjacency(), from, to),
            match route {
                Some(found) => {
                    &&& is_cheapest(self.adjacency(), from, to, found@)
                    &&& found@.is_simple()
                    &&& search_outcome(self.adjacency(), from, to) == Some(found@)
                },
                None => search_outcome(self.adjacency(), from, to) == None::<Path>,
            },
    {
        let ghost adj = self.adjacency();
        let mut visited: HashSet<Label> = HashSet::new();
        let mut frontier: Frontier = Frontier::new();
        visited.insert(from);
        let origin = Route::new(from);
        proof {
            assert(visited@ =~= set![from]);
            assert(origin@.labels().no_duplicates());
        }
        match self.outgoing_unvisited(from, &visited) {
            None => {},
            Some(first) => {
                proof {
                    lemma_expansion_fits(adj, origin@, visited@);
                }
                frontier.push_extensions(&origin, &first);
            },
        }
        let ghost mut settled = map![from => 0nat];
        let ghost mut done = 0nat;
        proof {
            lemma_seed(adj, from, to);
            assert(frontier@ =~= seed(adj, from));
        }
        loop
            invariant
                adj == self.adjacency(),
                search_inv(adj, from, to, visited@, frontier@, settled),
                forall|n: nat|
                    rounds(adj, to, set![from], seed(adj, from), done + n) == #[trigger] rounds(
                        adj,
                        to,
                        visited@,
                        frontier@,
                        n,
                    ),
            decreases work(frontier@),
        {
            let ghost pending = frontier@;
            let ghost i = cheapest_index(pending);
            let cheapest = match frontier.pop() {
                None => {
                    proof {
                        lemma_rounds_sound(adj, from, to, visited@, pending, settled, 0);
                        lemma_outcome_within(adj, from, to, done);
                    }
                    return None;
                },
                Some(p) => p,
            };
            let end = cheapest.end_label();
            if end == to {
                proof {
                    lemma_rounds_sound(adj, from, to, visited@, pending, settled, 0);
                    lemma_outcome_within(adj, from, to, done);
                    assert(cheapest@.connects(adj, from, to));
                }
                return Some(cheapest);
            }
            let ghost seen_before = visited@;
            visited.insert(end);
            proof {
                lemma_settle(adj, from, to, seen_before, pending, settled, i);
                lemma_round(adj, from, to, seen_before, pending, settled, i);
            }
            match self.outgoing_unvisited(end, &visited) {
                None => {},
                Some(frontier_expansion) => {
                    proof {
                        lemma_expansion_fits(adj, cheapest@, visited@);
                        assert(expansion(adj, cheapest@, visited@).len()
                            == frontier_expansion.len());
                    }
                    frontier.push_extensions(&cheapest, &frontier_expansion);
                },
            }
            proof {
                let added = expansion(adj, cheapest@, visited@);
                assert(frontier@ =~= pending.remove(i) + added);
                lemma_round_shrinks(adj, visited@, pending, i);
                assert forall|n: nat|
                    rounds(adj, to, set![from], seed(adj, from), done + 1 + n) == #[trigger] rounds(
                        adj,
                        to,
                        visited@,
                        frontier@,
                        n,
                    ) by {
                    assert(rounds(adj, to, seen_before, pending, n + 1) == rounds(
                        adj,
                        to,
                        visited@,
                        frontier@,
                        n,
                    ));
                }
                settled = settled_after(seen_before, settled, cheapest@);
                done = done + 1;
            }
        }
    }
}

/// The stored lists, each as the sequence of edges that it holds.
pub open spec fn lists_of(vertices: Map<Label, Vec<Edge>>) -> Adjacency {
    Map::new(|k: Label| vertices.contains_key(k), |k: Label| vertices[k]@)
}

/// A graph held as a list of outgoing arcs per source label.
#[derive(Debug)]
pub struct AdjacencyListBackedGraph {
    vertices: HashMap<Label, Vec<Edge>>,
}

impl WeightedDirectedGraph for AdjacencyListBackedGraph {
    closed spec fn adjacency(&self) -> Adjacency {
        lists_of(self.vertices@)
    }

    fn outgoing(&self, from: Label) -> (edges: Option<&Vec<Edge>>) {
        self.vertices.get(&from)
    }
}

/// A record of one arc: where it leaves, where it arrives, and what it costs.
pub trait EdgeSource {
    /// The arc as source, destination and cost.
    spec fn arc(&self) -> (Label, Label, Weight);

    /// The source label.
    fn from(&self) -> (label: Label)
        ensures
            label == self.arc().0,
    ;

    /// The destination label.
    fn to(&self) -> (label: Label)
        ensures
            label == self.arc().1,
    ;

    /// The cost.
    fn weight(&self) -> (weight: Weight)
        ensures
            weight == self.arc().2,
    ;
}

impl EdgeSource for (Label, Label, Weight) {
    open spec fn arc(&self) -> (Label, Label, Weight) {
        *self
    }

    fn from(&self) -> (label: Label) {
        self.0
    }

    fn to(&self) -> (label: Label) {
        self.1
    }

    fn weight(&self) -> (weight: Weight) {
        self.2
    }
}

/// The arcs that a sequence of records describes, in order.
pub open spec fn arcs_of<T: EdgeSource>(records: Seq<T>) -> Seq<(Label, Label, Weight)> {
    records.map_values(|t: T| t.arc())
}

/// The test for an arc that leaves `source`.
pub open spec fn leaves(source: Label) -> spec_fn((Label, Label, Weight)) -> bool {
    |a: (Label, Label, Weight)| a.0 == source
}

/// The destination and the cost of an arc.
pub open spec fn edge_of(arc: (Label, Label, Weight)) -> Edge {
    (arc.1, arc.2)
}

/// The edges that `arcs` holds for `source`: destination and cost of each arc that leaves
/// it, in order. Arcs between the same pair of labels all stay.
pub open spec fn edges_from(arcs: Seq<(Label, Label, Weight)>, source: Label) -> Seq<Edge> {
    arcs.filter(leaves(source)).map_values(|a: (Label, Label, Weight)| edge_of(a))
}

/// The adjacency that `arcs` describes. Only a label that some arc leaves is a key: one
/// that occurs as a destination alone is none.
pub open spec fn adjacency_of(arcs: Seq<(Label, Label, Weight)>) -> Adjacency {
    Map::new(
        |k: Label| exists|i: int| 0 <= i < arcs.len() && (#[trigger] arcs[i]).0 == k,
        |k: Label| edges_from(arcs, k),
    )
}

/// What one more arc adds to an adjacency: its edge goes to the end of its source's list.
pub proof fn lemma_adjacency_push(arcs: Seq<(Label, Label, Weight)>, arc: (Label, Label, Weight))
    ensures
        adjacency_of(arcs.push(arc)) == adjacency_of(arcs).insert(
            arc.0,
            edges_from(arcs, arc.0).push((arc.1, arc.2)),
        ),
{
    let after = arcs.push(arc);
    let lhs = adjacency_of(after);
    let rhs = adjacency_of(arcs).insert(arc.0, edges_from(arcs, arc.0).push((arc.1, arc.2)));
    assert forall|k: Label| lhs.contains_key(k) <==> rhs.contains_key(k) by {
        if lhs.contains_key(k) {
            let i = choose|i: int| 0 <= i < after.len() && (#[trigger] after[i]).0 == k;
            if i < arcs.len() {
                assert(arcs[i].0 == k);
            }
        }
        if rhs.contains_key(k) {
            if k == arc.0 {
                assert(after[arcs.len() as int].0 == k);
            } else {
                let i = choose|i: int| 0 <= i < arcs.len() && (#[trigger] arcs[i]).0 == k;
                assert(after[i].0 == k);
            }
        }
    }
    assert forall|k: Label| lhs.contains_key(k) implies lhs[k] == rhs[k] by {
        arcs.lemma_filter_push(arc, leaves(k));
        if k == arc.0 {
            assert(edges_from(after, k) =~= edges_from(arcs, k).push((arc.1, arc.2)));
        }
    }
    assert(lhs =~= rhs);
}

/// The graph that `arcs` describes has the recorded arcs and no others.
pub proof fn lemma_recorded_edges(arcs: Seq<(Label, Label, Weight)>, source: Label, edge: Edge)
    ensures
        has_edge(adjacency_of(arcs), source, edge) <==> arcs.contains((source, edge.0, edge.1)),
{
    let arc = (source, edge.0, edge.1);
    let kept = arcs.filter(leaves(source));
    if arcs.contains(arc) {
        let i = choose|i: int| 0 <= i < arcs.len() && arcs[i] == arc;
        assert(arcs[i].0 == source);
        arcs.lemma_filter_contains(leaves(source), i);
        let k = choose|k: int| 0 <= k < kept.len() && kept[k] == arc;
        assert(edges_from(arcs, source)[k] == edge);
    }
    if has_edge(adjacency_of(arcs), source, edge) {
        let k = choose|k: int|
            0 <= k < edges_from(arcs, source).len() && edges_from(arcs, source)[k] == edge;
        arcs.lemma_filter_pred(leaves(source), k);
        assert(kept[k] == arc);
        assert(kept.contains(arc));
        arcs.lemma_filter_contains_rev(leaves(source), arc);
    }
}

/// No path leads to another label from a label that no record names as a source.
pub proof fn lemma_unrecorded_source(arcs: Seq<(Label, Label, Weight)>, from: Label, to: Label)
    requires
        forall|i: int| 0 <= i < arcs.len() ==> (#[trigger] arcs[i]).0 != from,
        from != to,
    ensures
        !reachable(adjacency_of(arcs), from, to),
{
    lemma_unreachable_without_source(adjacency_of(arcs), from, to);
}

/// No path leads from another label to a label that no record names as a destination.
pub proof fn lemma_unrecorded_target(arcs: Seq<(Label, Label, Weight)>, from: Label, to: Label)
    requires
        forall|i: int| 0 <= i < arcs.len() ==> (#[trigger] arcs[i]).1 != to,
        from != to,
    ensures
        !reachable(adjacency_of(arcs), from, to),
{
    assert forall|x: Label, e: Edge| #[trigger]
        has_edge(adjacency_of(arcs), x, e) implies e.0 != to by {
        lemma_recorded_edges(arcs, x, e);
        let i = choose|i: int| 0 <= i < arcs.len() && arcs[i] == (x, e.0, e.1);
        assert(arcs[i].1 == e.0);
    }
    lemma_unreachable_without_arrival(adjacency_of(arcs), from, to);
}

/// A label that no arc leaves has an empty list of edges.
pub proof fn lemma_no_arc_no_edge(arcs: Seq<(Label, Label, Weight)>, source: Label)
    requires
        !adjacency_of(arcs).contains_key(source),
    ensures
        edges_from(arcs, source) == Seq::<Edge>::empty(),
{
    let kept = arcs.filter(leaves(source));
    if kept.len() > 0 {
        let a = kept[0];
        arcs.lemma_filter_pred(leaves(source), 0);
        assert(kept.contains(a));
        arcs.lemma_filter_contains_rev(leaves(source), a);
        let j = choose|j: int| 0 <= j < arcs.len() && arcs[j] == a;
        assert(arcs[j].0 == source);
    }
    assert(edges_from(arcs, source) =~= Seq::<Edge>::empty());
}

impl AdjacencyListBackedGraph {
    /// Every stored list is short enough to stand in a `Vec`, so what [`search`](crate::search)
    /// shows of bounded adjacencies holds of this graph.
    pub proof fn lemma_lists_fit(&self)
        ensures
            bounded(self.adjacency()),
    {
        assert forall|x: Label| #[trigger] self.adjacency().contains_key(x) implies self.adjacency()[x].len()
            <= usize::MAX by {
            assert(self.vertices@[x]@.len() == self.vertices@[x].len());
        }
    }

    /// Builds the graph from edge records: each record's destination and cost are appended
    /// to the list of its source, which is created where it did not exist.
    pub fn from_edges<T: EdgeSource>(v: Vec<T>) -> (graph: AdjacencyListBackedGraph)
        ensures
            graph.adjacency() == adjacency_of(arcs_of(v@)),
    {
        let mut vertices: HashMap<Label, Vec<Edge>> = HashMap::new();
        let ghost arcs = arcs_of(v@);
        let mut i: usize = 0;
        while i < v.len()
            invariant
                i <= v.len(),
                arcs == arcs_of(v@),
                lists_of(vertices@) == adjacency_of(arcs.take(i as int)),
            decreases v.len() - i,
        {
            let je = &v[i];
            let source = je.from();
            let edge = (je.to(), je.weight());
            proof {
                assert(arcs[i as int] == (source, edge.0, edge.1));
                assert(arcs.take(i + 1) =~= arcs.take(i as int).push(arcs[i as int]));
                lemma_adjacency_push(arcs.take(i as int), arcs[i as int]);
            }
            let ghost recorded = lists_of(vertices@);
            if !vertices.contains_key(&source) {
                vertices.insert(source, Vec::new());
                proof {
                    assert(!recorded.contains_key(source));
                    lemma_no_arc_no_edge(arcs.take(i as int), source);
                }
            }
            assert(lists_of(vertices@) =~= recorded.insert(
                source,
                edges_from(arcs.take(i as int), source),
            ));
            let ghost before = lists_of(vertices@);
            let mut list = vertices.remove(&source).unwrap();
            list.push(edge);
            vertices.insert(source, list);
            i += 1;
            assert(lists_of(vertices@) =~= before.insert(source, before[source].push(edge)));
        }
        assert(arcs.take(i as int) =~= arcs);
        AdjacencyListBackedGraph { vertices }
    }
}

} // verus!
