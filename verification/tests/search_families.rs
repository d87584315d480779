use graph_search::{
    a_star_computed_end, a_star_multiple_ends, a_star_search, at_step, bfs_computed_end,
    bfs_multiple_end, dfs, dfs_computed_end, dfs_multiple_end, dijkstra_computed_end,
    dijkstra_multiple_end, within_distance, within_steps, Heuristic, NoneValueResponse, PathWeight,
    StandardGraphVertex, VertexStore,
};

fn vertex(edges: Vec<(u64, Option<i64>)>) -> StandardGraphVertex {
    StandardGraphVertex::new_with_edges(edges)
}

/// 1 -> 2 -> 4 -> 6
/// 1 -> 3 -> 5 -> 6, and 3 -> 4
/// The data of a vertex is ten times its identifier.
fn diamond() -> VertexStore<StandardGraphVertex, u32> {
    let mut store = VertexStore::new();
    store.insert(1, vertex(vec![(2, Some(4)), (3, Some(1))]), 10);
    store.insert(2, vertex(vec![(4, Some(1))]), 20);
    store.insert(3, vertex(vec![(5, Some(1)), (4, Some(1))]), 30);
    store.insert(4, vertex(vec![(6, Some(10))]), 40);
    store.insert(5, vertex(vec![(6, Some(1))]), 50);
    store.insert(6, vertex(vec![]), 60);
    store
}

fn ends(paths: &Vec<graph_search::GraphPath<()>>) -> Vec<u64> {
    paths.iter().map(|p| p.vertex_ids()[0]).collect()
}

#[test]
fn bfs_computed_end_stops_at_the_nearest() {
    let store = diamond();
    let path = bfs_computed_end(&store, 1, |c: &u32| *c >= 40).unwrap();
    assert_eq!(path.vertex_ids(), vec![4, 2, 1]);
    let far = bfs_computed_end(&store, 1, |c: &u32| *c == 60).unwrap();
    assert_eq!(far.vertex_ids(), vec![6, 4, 2, 1]);
}

#[test]
fn bfs_multiple_end_collects_nearest_first() {
    let store = diamond();
    let all = bfs_multiple_end(&store, 1, |c: &u32| *c >= 40, None, None).unwrap();
    assert_eq!(ends(&all), vec![4, 5, 6]);
    assert_eq!(all[0].vertex_ids(), vec![4, 2, 1]);
    assert_eq!(all[1].vertex_ids(), vec![5, 3, 1]);
    assert_eq!(all[2].vertex_ids(), vec![6, 4, 2, 1]);
    let two = bfs_multiple_end(&store, 1, |c: &u32| *c >= 40, Some(2), None).unwrap();
    assert_eq!(ends(&two), vec![4, 5]);
    let near = bfs_multiple_end(&store, 1, |c: &u32| *c >= 40, None, Some(2)).unwrap();
    assert_eq!(ends(&near), vec![4, 5]);
    let none = bfs_multiple_end(&store, 1, |c: &u32| *c >= 40, Some(0), None).unwrap();
    assert!(none.is_empty());
    let with_start = bfs_multiple_end(&store, 1, |_: &u32| true, None, Some(1)).unwrap();
    assert_eq!(ends(&with_start), vec![1, 2, 3]);
}

#[test]
fn dfs_goes_deep_first() {
    let store = diamond();
    assert_eq!(dfs(&store, 1, 6).unwrap().vertex_ids(), vec![6, 4, 2, 1]);
    assert_eq!(dfs(&store, 1, 5).unwrap().vertex_ids(), vec![5, 3, 1]);
    let path = dfs_computed_end(&store, 1, |c: &u32| *c >= 50).unwrap();
    assert_eq!(path.vertex_ids(), vec![6, 4, 2, 1]);
}

#[test]
fn dfs_multiple_end_collects_in_depth_first_order() {
    let store = diamond();
    let all = dfs_multiple_end(&store, 1, |c: &u32| *c >= 40, None).unwrap();
    assert_eq!(ends(&all), vec![4, 6, 5]);
    assert_eq!(all[2].vertex_ids(), vec![5, 3, 1]);
    let one = dfs_multiple_end(&store, 1, |c: &u32| *c >= 40, Some(1)).unwrap();
    assert_eq!(ends(&one), vec![4]);
    let none = dfs_multiple_end(&store, 1, |c: &u32| *c >= 40, Some(0)).unwrap();
    assert!(none.is_empty());
}

#[test]
fn dijkstra_computed_end_stops_at_the_cheapest() {
    let store = diamond();
    let path = dijkstra_computed_end(&store, 1, |c: &u32| *c == 40 || *c == 60, NoneValueResponse::Impassable)
        .unwrap();
    assert_eq!(path.vertex_ids(), vec![4, 3, 1]);
    assert_eq!(path.nodes()[0].1, PathWeight::finite(2));
    let six = dijkstra_computed_end(&store, 1, |c: &u32| *c == 60, NoneValueResponse::Impassable).unwrap();
    assert_eq!(six.vertex_ids(), vec![6, 5, 3, 1]);
    assert_eq!(six.nodes()[0].1, PathWeight::finite(3));
}

#[test]
fn dijkstra_improves_a_queued_vertex() {
    // 2 is first reached with weight 10 and then, over 3, with weight 2;
    // 4 costs 5. The nearest of 2 and 4 is therefore 2.
    let mut store = VertexStore::new();
    store.insert(1, vertex(vec![(2, Some(10)), (3, Some(1)), (4, Some(5))]), 0u32);
    store.insert(2, vertex(vec![]), 1);
    store.insert(3, vertex(vec![(2, Some(1))]), 0);
    store.insert(4, vertex(vec![]), 1);
    let path = dijkstra_computed_end(&store, 1, |c: &u32| *c == 1, NoneValueResponse::Impassable).unwrap();
    assert_eq!(path.vertex_ids(), vec![2, 3, 1]);
    assert_eq!(path.nodes()[0].1, PathWeight::finite(2));
}

#[test]
fn dijkstra_multiple_end_respects_its_bounds() {
    let store = diamond();
    let all = dijkstra_multiple_end(&store, 1, |c: &u32| *c >= 40, NoneValueResponse::Impassable, None, None)
        .unwrap();
    let mut found: Vec<(u64, u64)> =
        all.iter().map(|p| (p.nodes()[0].0, p.nodes()[0].1.finite_sum)).collect();
    found.sort();
    assert_eq!(found, vec![(4, 2), (5, 2), (6, 3)]);
    let capped = dijkstra_multiple_end(
        &store,
        1,
        |c: &u32| *c >= 40,
        NoneValueResponse::Impassable,
        None,
        Some(PathWeight::finite(2)),
    )
    .unwrap();
    let mut near: Vec<u64> = capped.iter().map(|p| p.nodes()[0].0).collect();
    near.sort();
    assert_eq!(near, vec![4, 5]);
    let one = dijkstra_multiple_end(&store, 1, |c: &u32| *c == 60, NoneValueResponse::Impassable, Some(1), None)
        .unwrap();
    assert_eq!(one.len(), 1);
    assert_eq!(one[0].vertex_ids(), vec![6, 5, 3, 1]);
    let none = dijkstra_multiple_end(&store, 1, |_: &u32| true, NoneValueResponse::Impassable, Some(0), None)
        .unwrap();
    assert!(none.is_empty());
}

#[test]
fn a_star_follows_a_good_estimate() {
    let store = diamond();
    // the estimate is the difference of the data, divided by ten: never more
    // than what is left to walk
    let estimate = |here: &u32, end: &u32| Heuristic::Finite(((*end - *here) / 30) as u64);
    let path = a_star_search(&store, 1, 6, estimate, NoneValueResponse::Impassable).unwrap();
    assert_eq!(path.vertex_ids(), vec![6, 5, 3, 1]);
    assert_eq!(path.nodes()[0].1, PathWeight::finite(3));
}

#[test]
fn a_star_with_an_infinite_estimate_still_finds_a_walk() {
    let store = diamond();
    let path =
        a_star_search(&store, 1, 6, |_: &u32, _: &u32| Heuristic::Infinite, NoneValueResponse::Impassable)
            .unwrap();
    assert_eq!(path.vertex_ids()[0], 6);
    assert_eq!(*path.vertex_ids().last().unwrap(), 1);
}

#[test]
fn a_star_computed_end_and_multiple_ends() {
    let store = diamond();
    let path = a_star_computed_end(
        &store,
        1,
        |_: &u32| Heuristic::Finite(0),
        |c: &u32| *c == 60,
        NoneValueResponse::Impassable,
    )
    .unwrap();
    assert_eq!(path.vertex_ids(), vec![6, 5, 3, 1]);
    assert_eq!(path.nodes()[0].1, PathWeight::finite(3));
    let all = a_star_multiple_ends(
        &store,
        1,
        |_: &u32| Heuristic::Finite(0),
        |c: &u32| *c >= 50,
        NoneValueResponse::Impassable,
        None,
        None,
    )
    .unwrap();
    let mut found: Vec<(u64, u64)> =
        all.iter().map(|p| (p.nodes()[0].0, p.nodes()[0].1.finite_sum)).collect();
    found.sort();
    assert_eq!(found, vec![(5, 2), (6, 3)]);
}

#[test]
fn within_steps_tags_each_vertex_with_its_layer() {
    let store = diamond();
    assert_eq!(within_steps(&store, 1, 1).unwrap(), vec![(1, 0), (2, 1), (3, 1)]);
    assert_eq!(within_steps(&store, 1, 2).unwrap(), vec![(1, 0), (2, 1), (3, 1), (4, 2), (5, 2)]);
    assert_eq!(
        within_steps(&store, 1, 10).unwrap(),
        vec![(1, 0), (2, 1), (3, 1), (4, 2), (5, 2), (6, 3)]
    );
}

#[test]
fn at_step_keeps_one_layer() {
    let store = diamond();
    assert_eq!(at_step(&store, 1, 0).unwrap(), vec![1]);
    assert_eq!(at_step(&store, 1, 2).unwrap(), vec![4, 5]);
    assert_eq!(at_step(&store, 1, 3).unwrap(), vec![6]);
    assert!(at_step(&store, 1, 4).unwrap().is_empty());
}

#[test]
fn within_distance_gives_least_weights() {
    let store = diamond();
    let mut near = within_distance(&store, 1, 2).unwrap();
    near.sort();
    assert_eq!(near, vec![(1, 0), (3, 1), (4, 2), (5, 2)]);
    let mut all = within_distance(&store, 1, 100).unwrap();
    all.sort();
    assert_eq!(all, vec![(1, 0), (2, 4), (3, 1), (4, 2), (5, 2), (6, 3)]);
    assert_eq!(within_distance(&store, 1, 0).unwrap(), vec![(1, 0)]);
}

#[test]
fn within_distance_does_not_walk_unknown_edges() {
    let mut store = VertexStore::new();
    store.insert(1, vertex(vec![(2, None), (3, Some(1))]), ());
    store.insert(2, vertex(vec![]), ());
    store.insert(3, vertex(vec![]), ());
    let mut near = within_distance(&store, 1, 10).unwrap();
    near.sort();
    assert_eq!(near, vec![(1, 0), (3, 1)]);
}

#[test]
fn edges_to_vertices_outside_the_store_lead_nowhere() {
    let mut store = VertexStore::new();
    store.insert(1, vertex(vec![(99, Some(1)), (2, Some(1))]), ());
    store.insert(2, vertex(vec![(98, Some(1))]), ());
    assert_eq!(within_steps(&store, 1, 5).unwrap(), vec![(1, 0), (2, 1)]);
    let mut near = within_distance(&store, 1, 5).unwrap();
    near.sort();
    assert_eq!(near, vec![(1, 0), (2, 1)]);
    assert_eq!(dfs(&store, 1, 2).unwrap().vertex_ids(), vec![2, 1]);
}

#[test]
fn bfs_takes_the_earlier_edge_among_shortest_paths() {
    // 1 -> 3 -> 4 and 1 -> 2 -> 4: the edge to 3 is listed first
    let mut store = VertexStore::new();
    store.insert(1, vertex(vec![(3, Some(1)), (2, Some(1))]), 0u32);
    store.insert(2, vertex(vec![(4, Some(1))]), 0);
    store.insert(3, vertex(vec![(4, Some(1))]), 0);
    store.insert(4, vertex(vec![]), 1);
    assert_eq!(graph_search::bfs(&store, 1, 4).unwrap().vertex_ids(), vec![4, 3, 1]);
    assert_eq!(bfs_computed_end(&store, 1, |c: &u32| *c == 1).unwrap().vertex_ids(), vec![4, 3, 1]);
    assert_eq!(within_steps(&store, 1, 2).unwrap(), vec![(1, 0), (3, 1), (2, 1), (4, 2)]);
    assert_eq!(at_step(&store, 1, 1).unwrap(), vec![3, 2]);
}

#[test]
fn bfs_computed_end_takes_the_first_of_equally_near_ends() {
    let mut store = VertexStore::new();
    store.insert(1, vertex(vec![(2, Some(1)), (3, Some(1))]), 0u32);
    store.insert(2, vertex(vec![(5, Some(1))]), 0);
    store.insert(3, vertex(vec![(4, Some(1))]), 0);
    store.insert(4, vertex(vec![]), 1);
    store.insert(5, vertex(vec![]), 1);
    assert_eq!(bfs_computed_end(&store, 1, |c: &u32| *c == 1).unwrap().vertex_ids(), vec![5, 2, 1]);
    let all = bfs_multiple_end(&store, 1, |c: &u32| *c == 1, None, None).unwrap();
    assert_eq!(ends(&all), vec![5, 4]);
}

#[test]
fn dijkstra_multiple_end_gives_the_lightest_first() {
    let mut store = VertexStore::new();
    store.insert(1, vertex(vec![(2, Some(9)), (3, Some(4)), (4, Some(1))]), 1u32);
    store.insert(2, vertex(vec![]), 1);
    store.insert(3, vertex(vec![]), 1);
    store.insert(4, vertex(vec![(2, Some(2))]), 1);
    let all = dijkstra_multiple_end(&store, 1, |_: &u32| true, NoneValueResponse::Impassable, None, None)
        .unwrap();
    let found: Vec<(u64, u64)> = all.iter().map(|p| (p.nodes()[0].0, p.nodes()[0].1.finite_sum)).collect();
    assert_eq!(found, vec![(1, 0), (4, 1), (2, 3), (3, 4)]);
    assert_eq!(within_distance(&store, 1, 3).unwrap(), vec![(1, 0), (4, 1), (2, 3)]);
}
