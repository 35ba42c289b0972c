//! The working set of a search: candidate routes, handed out cheapest first.

use crate::path::{cheapest_index, extensions, lemma_cheapest_index, Edge, Path};
use crate::route::Route;
use vstd::prelude::*;

verus! {

/// A collection of routes from which one of least weight is taken first. Of several routes
/// of that weight, the one that was added first is taken. Taking a route out looks at
/// every route held.
pub struct Frontier {
    routes: Vec<Route>,
}

impl View for Frontier {
    type V = Seq<Path>;

    /// The routes held, each as the path it stands for, in the order in which they were
    /// added.
    closed spec fn view(&self) -> Seq<Path> {
        self.routes@.map_values(|r: Route| r@)
    }
}

impl Frontier {
    /// A frontier that holds no route.
    pub fn new() -> (frontier: Frontier)
        ensures
            frontier@ == Seq::<Path>::empty(),
    {
        let frontier = Frontier { routes: Vec::new() };
        assert(frontier@ =~= Seq::<Path>::empty());
        frontier
    }

    /// The number of routes held.
    pub fn len(&self) -> (n: usize)
        ensures
            n == self@.len(),
    {
        self.routes.len()
    }

    /// Adds `route` behind the routes held.
    pub fn push(&mut self, route: Route)
        ensures
            final(self)@ == old(self)@.push(route@),
    {
        self.routes.push(route);
        assert(self@ =~= old(self)@.push(route@));
    }

    /// Adds, for each of `edges` in turn, the route that extends `route` by that edge.
    pub fn push_extensions(&mut self, route: &Route, edges: &Vec<Edge>)
        requires
            forall|k: int|
                0 <= k < edges.len() ==> route@.weight() + (#[trigger] edges[k]).1 <= u64::MAX,
        ensures
            final(self)@ == old(self)@ + extensions(route@, edges@),
    {
        let ghost before = self@;
        assert(before + extensions(route@, edges@.take(0)) =~= before);
        let mut k: usize = 0;
        while k < edges.len()
            invariant
                k <= edges.len(),
                forall|k: int|
                    0 <= k < edges.len() ==> route@.weight() + (#[trigger] edges[k]).1
                        <= u64::MAX,
                self@ == before + extensions(route@, edges@.take(k as int)),
            decreases edges.len() - k,
        {
            let edge = edges[k];
            assert(before + extensions(route@, edges@.take(k + 1)) =~= (before + extensions(
                route@,
                edges@.take(k as int),
            )).push(route@.extended(edge)));
            self.push(route.extended(edge));
            k += 1;
        }
        assert(edges@.take(k as int) =~= edges@);
    }

    /// Takes out the first route of least weight, if there is any route.
    pub fn pop(&mut self) -> (cheapest: Option<Route>)
        ensures
            match cheapest {
                None => old(self)@.len() == 0 && final(self)@ == old(self)@,
                Some(route) => {
                    let i = cheapest_index(old(self)@);
                    &&& 0 <= i < old(self)@.len()
                    &&& route@ == old(self)@[i]
                    &&& final(self)@ == old(self)@.remove(i)
                    &&& forall|j: int|
                        0 <= j < old(self)@.len() ==> route@.weight() <= (#[trigger] old(
                            self,
                        )@[j]).weight()
                },
            },
    {
        let n = self.routes.len();
        if n == 0 {
            return None;
        }
        let ghost held = self@;
        let mut best: usize = 0;
        let mut i: usize = 1;
        while i < n
            invariant
                n == self.routes.len(),
                held == self@,
                best < i <= n,
                best == cheapest_index(held.take(i as int)),
            decreases n - i,
        {
            proof {
                assert(held.take(i + 1).drop_last() =~= held.take(i as int));
                assert(held.take(i + 1).last() == self.routes[i as int]@);
                assert(held.take(i + 1)[best as int] == self.routes[best as int]@);
            }
            if self.routes[i].weight() < self.routes[best].weight() {
                best = i;
            }
            i += 1;
        }
        proof {
            assert(held.take(i as int) =~= held);
            lemma_cheapest_index(held);
        }
        let route = self.routes.remove(best);
        assert(self@ =~= held.remove(best as int));
        Some(route)
    }
}

} // verus!
