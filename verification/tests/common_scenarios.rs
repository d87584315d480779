use graph_search::{
    a_star_search, bfs, dfs, dijkstra_search, within_steps, GraphError, Heuristic,
    NoneValueResponse, PathWeight, StandardGraphVertex, VertexStore,
};

const A: u64 = 1;
const B: u64 = 2;
const C: u64 = 3;
const D: u64 = 4;

fn vertex(edges: Vec<(u64, Option<i64>)>) -> StandardGraphVertex {
    StandardGraphVertex::new_with_edges(edges)
}

/// A twenty-vertex graph in which the only way from 1 to 5 leads over 2, then
/// over 3 or 7, and on over 12, 13, 19, 14, 15 and 10. The way over 7 is the
/// cheaper one; the way over 3 is listed first.
fn test_graph() -> VertexStore<StandardGraphVertex, usize> {
    let mut store = VertexStore::new();
    let edges: Vec<(u64, Vec<(u64, Option<i64>)>)> = vec![
        (0, vec![(1, Some(1))]),
        (1, vec![(2, Some(1)), (6, Some(1))]),
        (2, vec![(3, Some(5)), (7, Some(1))]),
        (3, vec![(12, Some(1))]),
        (4, vec![]),
        (5, vec![(4, Some(1))]),
        (6, vec![(11, Some(2))]),
        (7, vec![(12, Some(1))]),
        (8, vec![(9, Some(1))]),
        (9, vec![]),
        (10, vec![(5, Some(1))]),
        (11, vec![(16, Some(1))]),
        (12, vec![(13, Some(1))]),
        (13, vec![(19, Some(1))]),
        (14, vec![(15, Some(1))]),
        (15, vec![(10, Some(1))]),
        (16, vec![(17, Some(1))]),
        (17, vec![(18, Some(1))]),
        (18, vec![]),
        (19, vec![(14, Some(1))]),
    ];
    for (id, out) in edges {
        store.insert(id, vertex(out), id as usize);
    }
    store
}

#[test]
fn breadth_first_search_test() {
    let store = test_graph();
    let result = bfs(&store, 1, 5).expect("Test graph should have a valid path between the test vertices");
    let labels: Vec<usize> = result.vertex_ids().into_iter().map(|id| id as usize).collect();
    assert_eq!(labels, vec![5, 10, 15, 14, 19, 13, 12, 3, 2, 1]);
}

#[test]
fn depth_first_search_test() {
    let store = test_graph();
    let result = dfs(&store, 1, 5).expect("Test graph should have a valid path between the test vertices");
    let labels: Vec<usize> = result.vertex_ids().into_iter().map(|id| id as usize).collect();
    assert_eq!(labels, vec![5, 10, 15, 14, 19, 13, 12, 3, 2, 1]);
}

#[test]
fn dijkstra_search_test() {
    let store = test_graph();
    let result = dijkstra_search(&store, 1, 5, NoneValueResponse::Impassable)
        .expect("Test graph should have a valid path between the test vertices");
    let labels: Vec<usize> = result.vertex_ids().into_iter().map(|id| id as usize).collect();
    assert_eq!(labels, vec![5, 10, 15, 14, 19, 13, 12, 7, 2, 1]);
}

fn chain() -> VertexStore<StandardGraphVertex, ()> {
    let mut store = VertexStore::new();
    store.insert(A, vertex(vec![(B, Some(1))]), ());
    store.insert(B, vertex(vec![(C, Some(1))]), ());
    store.insert(C, vertex(vec![(D, Some(1))]), ());
    store.insert(D, vertex(vec![]), ());
    store
}

#[test]
fn chain_is_walked_by_dijkstra_and_bfs() {
    let store = chain();
    let weighted = dijkstra_search(&store, A, D, NoneValueResponse::Impassable).unwrap();
    assert_eq!(weighted.vertex_ids(), vec![D, C, B, A]);
    assert_eq!(weighted.nodes()[0], (D, PathWeight::finite(3)));
    assert_eq!(
        weighted.nodes().clone(),
        vec![
            (D, PathWeight::finite(3)),
            (C, PathWeight::finite(2)),
            (B, PathWeight::finite(1)),
            (A, PathWeight::finite(0)),
        ]
    );
    let unweighted = bfs(&store, A, D).unwrap();
    assert_eq!(unweighted.vertex_ids(), vec![D, C, B, A]);
}

fn two_routes() -> VertexStore<StandardGraphVertex, ()> {
    let mut store = VertexStore::new();
    store.insert(A, vertex(vec![(C, Some(1)), (B, Some(1))]), ());
    store.insert(B, vertex(vec![(D, Some(1))]), ());
    store.insert(C, vertex(vec![(D, Some(5))]), ());
    store.insert(D, vertex(vec![]), ());
    store
}

#[test]
fn dijkstra_takes_the_cheaper_route() {
    let store = two_routes();
    let path = dijkstra_search(&store, A, D, NoneValueResponse::Impassable).unwrap();
    assert_eq!(path.vertex_ids(), vec![D, B, A]);
    assert_eq!(path.nodes()[0].1, PathWeight::finite(2));
}

fn unknown_edge() -> VertexStore<StandardGraphVertex, ()> {
    let mut store = VertexStore::new();
    store.insert(A, vertex(vec![(B, None)]), ());
    store.insert(B, vertex(vec![]), ());
    store
}

#[test]
fn unknown_weight_follows_the_policy() {
    let store = unknown_edge();
    assert_eq!(
        dijkstra_search(&store, A, B, NoneValueResponse::Impassable).err(),
        Some(GraphError::NoPath)
    );
    let valued = dijkstra_search(&store, A, B, NoneValueResponse::Value(0)).unwrap();
    assert_eq!(valued.vertex_ids(), vec![B, A]);
    assert_eq!(valued.nodes()[0].1, PathWeight::finite(0));
    let crossed = dijkstra_search(&store, A, B, NoneValueResponse::Infinity).unwrap();
    assert_eq!(crossed.vertex_ids(), vec![B, A]);
    assert_eq!(crossed.nodes()[0].1, PathWeight { infinite_crossings: 1, finite_sum: 0 });
    let seven = dijkstra_search(&store, A, B, NoneValueResponse::Value(7)).unwrap();
    assert_eq!(seven.nodes()[0].1, PathWeight::finite(7));
}

#[test]
fn a_known_route_beats_an_unknown_edge() {
    let mut store = VertexStore::new();
    store.insert(A, vertex(vec![(D, None), (B, Some(100))]), ());
    store.insert(B, vertex(vec![(D, Some(100))]), ());
    store.insert(D, vertex(vec![]), ());
    let path = dijkstra_search(&store, A, D, NoneValueResponse::Infinity).unwrap();
    assert_eq!(path.vertex_ids(), vec![D, B, A]);
    assert_eq!(path.nodes()[0].1, PathWeight::finite(200));
    let direct = dijkstra_search(&store, A, D, NoneValueResponse::Value(150)).unwrap();
    assert_eq!(direct.vertex_ids(), vec![D, A]);
}

#[test]
fn within_zero_steps_is_the_start_alone() {
    let store = test_graph();
    assert_eq!(within_steps(&store, 1, 0).unwrap(), vec![(1, 0)]);
    let chain = chain();
    assert_eq!(within_steps(&chain, A, 0).unwrap(), vec![(A, 0)]);
}

#[test]
fn bfs_finds_the_fewest_edges() {
    let mut store = VertexStore::new();
    store.insert(A, vertex(vec![(B, Some(1)), (D, Some(50))]), ());
    store.insert(B, vertex(vec![(C, Some(1))]), ());
    store.insert(C, vertex(vec![(D, Some(1))]), ());
    store.insert(D, vertex(vec![]), ());
    assert_eq!(bfs(&store, A, D).unwrap().vertex_ids(), vec![D, A]);
    let cheap = dijkstra_search(&store, A, D, NoneValueResponse::Impassable).unwrap();
    assert_eq!(cheap.vertex_ids(), vec![D, C, B, A]);
    assert_eq!(cheap.nodes()[0].1, PathWeight::finite(3));
}

#[test]
fn a_star_without_estimate_agrees_with_dijkstra() {
    let store = test_graph();
    let by_dijkstra = dijkstra_search(&store, 1, 5, NoneValueResponse::Impassable).unwrap();
    let by_a_star = a_star_search(
        &store,
        1,
        5,
        |_: &usize, _: &usize| Heuristic::Finite(0),
        NoneValueResponse::Impassable,
    )
    .unwrap();
    assert_eq!(by_a_star.nodes()[0].1, by_dijkstra.nodes()[0].1);
    assert_eq!(by_a_star.nodes()[0].1, PathWeight::finite(9));
    let routes = two_routes();
    let d = dijkstra_search(&routes, A, D, NoneValueResponse::Impassable).unwrap();
    let a = a_star_search(&routes, A, D, |_: &(), _: &()| Heuristic::none(), NoneValueResponse::Impassable)
        .unwrap();
    assert_eq!(a.nodes()[0].1, d.nodes()[0].1);
}
