//! A candidate path as the search holds it.

use crate::path::{lemma_weight_push, total_weight, Edge, Label, Path};
use vstd::prelude::*;

verus! {

/// A start label and the edges traversed from it so far, with their summed cost.
///
/// The cost is kept as a `u64`: a route that visits no label twice has fewer than 2^32
/// steps, each of a cost below 2^32, so its sum always fits.
#[derive(PartialEq, Eq, Debug)]
pub struct Route {
    start_label: Label,
    edges: Vec<Edge>,
    cost: u64,
}

impl View for Route {
    type V = Path;

    closed spec fn view(&self) -> Path {
        Path { start: self.start_label, steps: self.edges@ }
    }
}

impl Route {
    #[verifier::type_invariant]
    spec fn cost_is_sum(self) -> bool {
        self.cost as nat == total_weight(self.edges@)
    }

    /// The route that has taken no edge yet.
    pub fn new(start: Label) -> (route: Route)
        ensures
            route@ == Path::at(start),
    {
        Route { start_label: start, edges: Vec::new(), cost: 0 }
    }

    /// A copy of this route with `edge` appended.
    pub fn extended(&self, edge: Edge) -> (route: Route)
        requires
            self@.weight() + edge.1 <= u64::MAX,
        ensures
            route@ == self@.extended(edge),
    {
        proof {
            use_type_invariant(self);
            lemma_weight_push(self.edges@, edge);
        }
        let mut edges: Vec<Edge> = Vec::new();
        let mut i: usize = 0;
        while i < self.edges.len()
            invariant
                i <= self.edges.len(),
                edges@ == self.edges@.take(i as int),
            decreases self.edges.len() - i,
        {
            edges.push(self.edges[i]);
            i += 1;
            assert(edges@ =~= self.edges@.take(i as int));
        }
        assert(self.edges@.take(i as int) =~= self.edges@);
        edges.push(edge);
        Route { start_label: self.start_label, edges, cost: self.cost + edge.1 as u64 }
    }

    /// The summed cost of the edges taken.
    pub fn weight(&self) -> (weight: u64)
        ensures
            weight == self@.weight(),
    {
        proof {
            use_type_invariant(self);
        }
        self.cost
    }

    /// The label at which the route has arrived.
    pub fn end_label(&self) -> (label: Label)
        ensures
            label == self@.end(),
    {
        let n = self.edges.len();
        if n == 0 {
            self.start_label
        } else {
            self.edges[n - 1].0
        }
    }

    /// The start label followed by the destination of each edge, in traversal order.
    pub fn label_vec(&self) -> (labels: Vec<Label>)
        ensures
            labels@ == self@.labels(),
    {
        let mut labels: Vec<Label> = Vec::new();
        labels.push(self.start_label);
        let mut i: usize = 0;
        while i < self.edges.len()
            invariant
                i <= self.edges.len(),
                labels@ == self@.labels().take(i + 1),
            decreases self.edges.len() - i,
        {
            labels.push(self.edges[i].0);
            i += 1;
            assert(labels@ =~= self@.labels().take(i + 1));
        }
        assert(self@.labels().take(i + 1) =~= self@.labels());
        labels
    }
}

} // verus!
