use graph_search::{
    a_star_computed_end, a_star_multiple_ends, a_star_search, at_step, bfs, bfs_computed_end,
    bfs_multiple_end, dfs, dfs_computed_end, dfs_multiple_end, dijkstra_computed_end,
    dijkstra_multiple_end, dijkstra_search, within_distance, within_steps, GraphError, Heuristic,
    NoneValueResponse, StandardGraphVertex, VertexStore,
};

fn vertex(edges: Vec<(u64, Option<i64>)>) -> StandardGraphVertex {
    StandardGraphVertex::new_with_edges(edges)
}

fn negative() -> VertexStore<StandardGraphVertex, u32> {
    let mut store = VertexStore::new();
    store.insert(1, vertex(vec![(2, Some(1))]), 0);
    store.insert(2, vertex(vec![(3, Some(-4))]), 0);
    store.insert(3, vertex(vec![]), 1);
    store
}

fn island() -> VertexStore<StandardGraphVertex, u32> {
    let mut store = VertexStore::new();
    store.insert(1, vertex(vec![(2, Some(1)), (77, Some(1))]), 0);
    store.insert(2, vertex(vec![(1, Some(1))]), 0);
    store.insert(3, vertex(vec![]), 9);
    store
}

#[test]
fn negative_weight_stops_dijkstra() {
    let store = negative();
    assert_eq!(
        dijkstra_search(&store, 1, 3, NoneValueResponse::Impassable).err(),
        Some(GraphError::NegativeWeight)
    );
    assert_eq!(
        dijkstra_computed_end(&store, 1, |c: &u32| *c == 1, NoneValueResponse::Infinity).err(),
        Some(GraphError::NegativeWeight)
    );
    assert_eq!(
        dijkstra_multiple_end(&store, 1, |c: &u32| *c == 1, NoneValueResponse::Infinity, None, None)
            .err(),
        Some(GraphError::NegativeWeight)
    );
}

#[test]
fn negative_weight_stops_a_star() {
    let store = negative();
    assert_eq!(
        a_star_search(&store, 1, 3, |_: &u32, _: &u32| Heuristic::Finite(0), NoneValueResponse::Impassable)
            .err(),
        Some(GraphError::NegativeWeight)
    );
    assert_eq!(
        a_star_computed_end(
            &store,
            1,
            |_: &u32| Heuristic::Finite(2),
            |c: &u32| *c == 1,
            NoneValueResponse::Impassable
        )
        .err(),
        Some(GraphError::NegativeWeight)
    );
    assert_eq!(
        a_star_multiple_ends(
            &store,
            1,
            |_: &u32| Heuristic::Infinite,
            |c: &u32| *c == 1,
            NoneValueResponse::Impassable,
            None,
            None
        )
        .err(),
        Some(GraphError::NegativeWeight)
    );
}

#[test]
fn negative_weight_stops_within_distance() {
    let store = negative();
    assert_eq!(within_distance(&store, 1, 100).err(), Some(GraphError::NegativeWeight));
}

#[test]
fn negative_weight_does_not_matter_to_unweighted_searches() {
    let store = negative();
    assert_eq!(bfs(&store, 1, 3).unwrap().vertex_ids(), vec![3, 2, 1]);
    assert_eq!(dfs(&store, 1, 3).unwrap().vertex_ids(), vec![3, 2, 1]);
}

#[test]
fn a_missing_start_is_an_invalid_entity() {
    let store = island();
    let e = Some(GraphError::InvalidEntity);
    assert_eq!(bfs(&store, 50, 1).err(), e);
    assert_eq!(dfs(&store, 50, 1).err(), e);
    assert_eq!(dijkstra_search(&store, 50, 1, NoneValueResponse::Impassable).err(), e);
    assert_eq!(
        a_star_search(&store, 50, 1, |_: &u32, _: &u32| Heuristic::Finite(0), NoneValueResponse::Impassable)
            .err(),
        e
    );
    assert_eq!(bfs_computed_end(&store, 50, |_: &u32| true).err(), e);
    assert_eq!(dfs_computed_end(&store, 50, |_: &u32| true).err(), e);
    assert_eq!(bfs_multiple_end(&store, 50, |_: &u32| true, None, None).err(), e);
    assert_eq!(dfs_multiple_end(&store, 50, |_: &u32| true, None).err(), e);
    assert_eq!(dijkstra_computed_end(&store, 50, |_: &u32| true, NoneValueResponse::Impassable).err(), e);
    assert_eq!(
        dijkstra_multiple_end(&store, 50, |_: &u32| true, NoneValueResponse::Impassable, None, None).err(),
        e
    );
    assert_eq!(
        a_star_computed_end(
            &store,
            50,
            |_: &u32| Heuristic::Finite(0),
            |_: &u32| true,
            NoneValueResponse::Impassable
        )
        .err(),
        e
    );
    assert_eq!(
        a_star_multiple_ends(
            &store,
            50,
            |_: &u32| Heuristic::Finite(0),
            |_: &u32| true,
            NoneValueResponse::Impassable,
            None,
            None
        )
        .err(),
        e
    );
    assert_eq!(within_steps(&store, 50, 3).err(), e);
    assert_eq!(at_step(&store, 50, 3).err(), e);
    assert_eq!(within_distance(&store, 50, 3).err(), e);
}

#[test]
fn a_missing_end_is_an_invalid_entity() {
    let store = island();
    let e = Some(GraphError::InvalidEntity);
    assert_eq!(bfs(&store, 1, 77).err(), e);
    assert_eq!(dfs(&store, 1, 77).err(), e);
    assert_eq!(dijkstra_search(&store, 1, 77, NoneValueResponse::Impassable).err(), e);
    assert_eq!(
        a_star_search(&store, 1, 77, |_: &u32, _: &u32| Heuristic::Finite(0), NoneValueResponse::Impassable)
            .err(),
        e
    );
}

#[test]
fn an_unreachable_end_is_no_path() {
    let store = island();
    let e = Some(GraphError::NoPath);
    assert_eq!(bfs(&store, 1, 3).err(), e);
    assert_eq!(dfs(&store, 1, 3).err(), e);
    assert_eq!(dijkstra_search(&store, 1, 3, NoneValueResponse::Impassable).err(), e);
    assert_eq!(
        a_star_search(&store, 1, 3, |_: &u32, _: &u32| Heuristic::Finite(1), NoneValueResponse::Impassable)
            .err(),
        e
    );
    assert_eq!(bfs_computed_end(&store, 1, |c: &u32| *c == 9).err(), e);
    assert_eq!(dfs_computed_end(&store, 1, |c: &u32| *c == 9).err(), e);
    assert_eq!(dijkstra_computed_end(&store, 1, |c: &u32| *c == 9, NoneValueResponse::Impassable).err(), e);
    assert_eq!(
        a_star_computed_end(
            &store,
            1,
            |_: &u32| Heuristic::Finite(0),
            |c: &u32| *c == 9,
            NoneValueResponse::Impassable
        )
        .err(),
        e
    );
}

#[test]
fn searches_for_several_ends_come_back_empty_not_failed() {
    let store = island();
    assert!(bfs_multiple_end(&store, 1, |c: &u32| *c == 9, None, None).unwrap().is_empty());
    assert!(dfs_multiple_end(&store, 1, |c: &u32| *c == 9, None).unwrap().is_empty());
    assert!(dijkstra_multiple_end(&store, 1, |c: &u32| *c == 9, NoneValueResponse::Impassable, None, None)
        .unwrap()
        .is_empty());
    assert!(a_star_multiple_ends(
        &store,
        1,
        |_: &u32| Heuristic::Finite(0),
        |c: &u32| *c == 9,
        NoneValueResponse::Impassable,
        None,
        None
    )
    .unwrap()
    .is_empty());
}

#[test]
fn the_start_can_be_the_end() {
    let store = island();
    assert_eq!(bfs(&store, 1, 1).unwrap().vertex_ids(), vec![1]);
    assert_eq!(dfs(&store, 1, 1).unwrap().vertex_ids(), vec![1]);
    assert_eq!(
        dijkstra_search(&store, 1, 1, NoneValueResponse::Impassable).unwrap().vertex_ids(),
        vec![1]
    );
    assert_eq!(bfs_computed_end(&store, 1, |c: &u32| *c == 0).unwrap().vertex_ids(), vec![1]);
    assert_eq!(dfs_computed_end(&store, 1, |c: &u32| *c == 0).unwrap().vertex_ids(), vec![1]);
}

#[test]
fn error_messages_name_the_error() {
    assert_eq!(GraphError::NoPath.message(), "no path could be found between the provided vertices");
    assert_eq!(GraphError::InvalidEntity.message(), "the provided entity is not a valid GraphVertex");
    assert_eq!(GraphError::NegativeWeight.message(), "a provided edge weight was negative");
    assert_eq!(
        GraphError::InvalidPath.message(),
        "the provided set of (vertex, previous vertex) pairs does not result in a valid path"
    );
}
