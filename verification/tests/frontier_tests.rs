use dijkstra::frontier::Frontier;
use dijkstra::route::Route;

fn route_of_weight(start: u32, weight: u32) -> Route {
    Route::new(start).extended((start + 1, weight))
}

#[test]
fn new_route_stays_at_its_start() {
    let route = Route::new(7);
    assert_eq!(route.label_vec(), vec![7]);
    assert_eq!(route.end_label(), 7);
    assert_eq!(route.weight(), 0);
}

#[test]
fn extended_route_appends_destination_and_cost() {
    let first = Route::new(1).extended((2, 5));
    assert_eq!(first.label_vec(), vec![1, 2]);
    assert_eq!(first.end_label(), 2);
    assert_eq!(first.weight(), 5);
    let second = first.extended((9, 11));
    assert_eq!(second.label_vec(), vec![1, 2, 9]);
    assert_eq!(second.end_label(), 9);
    assert_eq!(second.weight(), 16);
    // The route that was extended is unchanged.
    assert_eq!(first.label_vec(), vec![1, 2]);
    assert_eq!(first.weight(), 5);
}

#[test]
fn routes_compare_by_start_and_edges() {
    assert_eq!(Route::new(1).extended((2, 5)), Route::new(1).extended((2, 5)));
    assert_ne!(Route::new(1).extended((2, 5)), Route::new(1).extended((2, 6)));
    assert_ne!(Route::new(1).extended((2, 5)), Route::new(3).extended((2, 5)));
    assert_ne!(Route::new(1), Route::new(1).extended((2, 0)));
}

#[test]
fn empty_frontier_gives_nothing() {
    let mut frontier = Frontier::new();
    assert_eq!(frontier.len(), 0);
    assert_eq!(frontier.pop(), None);
    assert_eq!(frontier.len(), 0);
}

#[test]
fn routes_come_out_cheapest_first() {
    let mut frontier = Frontier::new();
    for weight in [5u32, 3, 9, 1, 7, 3] {
        frontier.push(route_of_weight(weight, weight));
    }
    assert_eq!(frontier.len(), 6);
    let mut weights = Vec::new();
    while let Some(route) = frontier.pop() {
        weights.push(route.weight());
    }
    assert_eq!(weights, vec![1, 3, 3, 5, 7, 9]);
    assert_eq!(frontier.len(), 0);
}

#[test]
fn popped_route_is_the_one_pushed() {
    let mut frontier = Frontier::new();
    frontier.push(Route::new(4).extended((5, 2)).extended((6, 2)));
    frontier.push(Route::new(4).extended((8, 3)));
    let first = frontier.pop().unwrap();
    assert_eq!(first.label_vec(), vec![4, 8]);
    let second = frontier.pop().unwrap();
    assert_eq!(second.label_vec(), vec![4, 5, 6]);
    assert_eq!(frontier.pop(), None);
}

#[test]
fn pushes_between_pops_keep_the_order() {
    let mut frontier = Frontier::new();
    frontier.push(route_of_weight(0, 10));
    frontier.push(route_of_weight(0, 20));
    assert_eq!(frontier.pop().unwrap().weight(), 10);
    frontier.push(route_of_weight(0, 5));
    frontier.push(route_of_weight(0, 30));
    assert_eq!(frontier.pop().unwrap().weight(), 5);
    assert_eq!(frontier.pop().unwrap().weight(), 20);
    assert_eq!(frontier.pop().unwrap().weight(), 30);
    assert_eq!(frontier.pop(), None);
}

#[test]
fn push_extensions_adds_one_route_per_edge() {
    let mut frontier = Frontier::new();
    let base = Route::new(1).extended((2, 4));
    frontier.push(route_of_weight(9, 6));
    frontier.push_extensions(&base, &vec![(3, 5), (4, 1), (5, 3)]);
    assert_eq!(frontier.len(), 4);
    let mut seen = Vec::new();
    while let Some(route) = frontier.pop() {
        seen.push((route.label_vec(), route.weight()));
    }
    assert_eq!(
        seen,
        vec![
            (vec![1, 2, 4], 5),
            (vec![9, 10], 6),
            (vec![1, 2, 5], 7),
            (vec![1, 2, 3], 9),
        ]
    );
}

#[test]
fn push_extensions_of_no_edge_adds_nothing() {
    let mut frontier = Frontier::new();
    frontier.push_extensions(&Route::new(1), &Vec::new());
    assert_eq!(frontier.len(), 0);
}
