//! What a search computes, and what holds of its answer.
//!
//! [`rounds`] describes the search as a sequence of rounds on a set of visited labels and
//! a sequence of pending routes, and [`search_outcome`] names the answer that it settles
//! on. The proof functions at the end state what holds of that answer; they rest on
//! [`soundness`](crate::soundness) and [`termination`](crate::termination).

use crate::path::{
    cheapest_index, extensions, is_cheapest, reachable, unvisited_edges, Adjacency, Label, Path,
};
use crate::soundness::{lemma_rounds_sound, lemma_seed};
use crate::termination::{lemma_rounds_end, work};
use vstd::prelude::*;

verus! {

/// The routes that one round adds for `path`: one for each arc that leaves its end for a
/// label outside `visited`.
pub open spec fn expansion(adj: Adjacency, path: Path, visited: Set<Label>) -> Seq<Path> {
    if adj.contains_key(path.end()) {
        extensions(path, unvisited_edges(adj, path.end(), visited))
    } else {
        Seq::empty()
    }
}

/// The routes that are pending when a search from `from` begins: one for each arc that
/// leaves `from` for another label.
pub open spec fn seed(adj: Adjacency, from: Label) -> Seq<Path> {
    expansion(adj, Path::at(from), set![from])
}

/// What a search for `to` gives that stands at `visited` and `pending` and may make `n`
/// more rounds: `Some` of its answer, or `None` where `n` rounds do not bring it to an end.
///
/// A search ends without a route when nothing is pending, and with the first cheapest
/// pending route when that route ends at `to`. Otherwise a round takes that route out,
/// marks its end visited and appends its expansion.
pub open spec fn rounds(
    adj: Adjacency,
    to: Label,
    visited: Set<Label>,
    pending: Seq<Path>,
    n: nat,
) -> Option<Option<Path>>
    decreases n,
{
    if pending.len() == 0 {
        Some(None)
    } else {
        let i = cheapest_index(pending);
        let path = pending[i];
        if path.end() == to {
            Some(Some(path))
        } else if n == 0 {
            None
        } else {
            let seen = visited.insert(path.end());
            rounds(adj, to, seen, pending.remove(i) + expansion(adj, path, seen), (n - 1) as nat)
        }
    }
}

/// Whether a search from `from` for `to` ends within `n` rounds.
pub open spec fn finishes(adj: Adjacency, from: Label, to: Label, n: nat) -> bool {
    rounds(adj, to, set![from], seed(adj, from), n) is Some
}

/// The answer of the search from `from` for `to`: the route that it settles on, or `None`
/// where it settles on none.
pub open spec fn search_outcome(adj: Adjacency, from: Label, to: Label) -> Option<Path> {
    if exists|n: nat| finishes(adj, from, to, n) {
        let n = choose|n: nat| finishes(adj, from, to, n);
        match rounds(adj, to, set![from], seed(adj, from), n) {
            Some(answer) => answer,
            None => None,
        }
    } else {
        None
    }
}

/// A search that has ended within `n` rounds gives the same answer when it is allowed
/// more.
pub proof fn lemma_rounds_stable(
    adj: Adjacency,
    to: Label,
    visited: Set<Label>,
    pending: Seq<Path>,
    n: nat,
    m: nat,
)
    requires
        rounds(adj, to, visited, pending, n) is Some,
        n <= m,
    ensures
        rounds(adj, to, visited, pending, m) == rounds(adj, to, visited, pending, n),
    decreases n,
{
    if pending.len() > 0 {
        let i = cheapest_index(pending);
        let path = pending[i];
        if path.end() != to {
            let seen = visited.insert(path.end());
            lemma_rounds_stable(
                adj,
                to,
                seen,
                pending.remove(i) + expansion(adj, path, seen),
                (n - 1) as nat,
                (m - 1) as nat,
            );
        }
    }
}

/// The answer of a search is what it gives within any number of rounds that bring it to
/// an end.
pub proof fn lemma_outcome_within(adj: Adjacency, from: Label, to: Label, n: nat)
    requires
        finishes(adj, from, to, n),
    ensures
        rounds(adj, to, set![from], seed(adj, from), n) == Some(search_outcome(adj, from, to)),
{
    let m = choose|m: nat| finishes(adj, from, to, m);
    if n <= m {
        lemma_rounds_stable(adj, to, set![from], seed(adj, from), n, m);
    } else {
        lemma_rounds_stable(adj, to, set![from], seed(adj, from), m, n);
    }
}

/// Whether `answer` is right for a search from `from` for `to`: a simple route of least
/// weight where `to` is another label that arcs lead to, and none otherwise.
pub open spec fn answers(adj: Adjacency, from: Label, to: Label, answer: Option<Path>) -> bool {
    match answer {
        Some(path) => from != to && is_cheapest(adj, from, to, path) && path.is_simple(),
        None => from == to || !reachable(adj, from, to),
    }
}

/// Whether every list of arcs in `adj` is short enough to stand in a `Vec`.
pub open spec fn bounded(adj: Adjacency) -> bool {
    forall|x: Label| #[trigger] adj.contains_key(x) ==> adj[x].len() <= usize::MAX
}

/// Every search comes to an end: each round takes out a route that repeats no label, and
/// puts in its place routes that are one step longer.
pub proof fn lemma_search_ends(adj: Adjacency, from: Label, to: Label)
    requires
        bounded(adj),
    ensures
        finishes(adj, from, to, work(seed(adj, from))),
{
    lemma_seed(adj, from, to);
    lemma_rounds_end(
        adj,
        from,
        to,
        set![from],
        seed(adj, from),
        map![from => 0nat],
        work(seed(adj, from)),
    );
}

/// The search gives a right answer: a cheapest route from `from` to `to` where `to` is
/// another label that arcs lead to, and none otherwise. No route from `from` to `to`,
/// however it is put together from the arcs of `adj`, weighs less than the one that the
/// search settles on.
pub proof fn lemma_search_sound(adj: Adjacency, from: Label, to: Label)
    requires
        bounded(adj),
    ensures
        answers(adj, from, to, search_outcome(adj, from, to)),
{
    let n = work(seed(adj, from));
    lemma_search_ends(adj, from, to);
    lemma_seed(adj, from, to);
    lemma_rounds_sound(adj, from, to, set![from], seed(adj, from), map![from => 0nat], n);
    lemma_outcome_within(adj, from, to, n);
}

/// A search from a label for that same label finds nothing: it makes no route without an
/// arc, and it takes no arc back to where it began.
pub proof fn lemma_search_for_start(adj: Adjacency, from: Label)
    requires
        bounded(adj),
    ensures
        search_outcome(adj, from, from) == None::<Path>,
{
    lemma_search_sound(adj, from, from);
}

/// The route that a search finds begins at `from`, ends at `to`, and follows arcs of the
/// graph.
pub proof fn lemma_found_route_connects(adj: Adjacency, from: Label, to: Label)
    requires
        bounded(adj),
    ensures
        search_outcome(adj, from, to) matches Some(found) ==> {
            &&& found.connects(adj, from, to)
            &&& found.labels().first() == from
            &&& found.labels().last() == to
        },
{
    lemma_search_sound(adj, from, to);
}

/// A search finds nothing exactly where it is for its own start or for a label that no
/// arcs lead to: for one that no arc enters, say, or from one that no arc leaves.
pub proof fn lemma_absent_iff_unreachable(adj: Adjacency, from: Label, to: Label)
    requires
        bounded(adj),
    ensures
        search_outcome(adj, from, to) is None <==> from == to || !reachable(adj, from, to),
{
    lemma_search_sound(adj, from, to);
    match search_outcome(adj, from, to) {
        Some(found) => {
            assert(found.connects(adj, from, to));
        },
        None => {},
    }
}

/// Searching again gives the same answer: however many rounds two searches with the same
/// graph, start and target are allowed, where both come to an end they settle on the same
/// route or both on none.
pub proof fn lemma_search_repeatable(adj: Adjacency, from: Label, to: Label, n: nat, m: nat)
    requires
        finishes(adj, from, to, n),
        finishes(adj, from, to, m),
    ensures
        rounds(adj, to, set![from], seed(adj, from), n) == rounds(
            adj,
            to,
            set![from],
            seed(adj, from),
            m,
        ),
{
    lemma_outcome_within(adj, from, to, n);
    lemma_outcome_within(adj, from, to, m);
}

} // verus!
