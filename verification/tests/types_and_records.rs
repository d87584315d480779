use graph_search::{
    FilterComponent, FilterGraphError, GraphError, GraphPath, GraphVertex, Heuristic,
    NoneValueResponse, PathWeight, StandardGraphVertex, VertexStore, VisitedNodes,
};

#[test]
fn path_weight_orders_by_crossings_first() {
    let cheap = PathWeight { infinite_crossings: 0, finite_sum: 1_000_000 };
    let crossed = PathWeight { infinite_crossings: 1, finite_sum: 0 };
    assert!(cheap.lt(&crossed));
    assert!(cheap.le(&crossed));
    assert!(!crossed.le(&cheap));
    assert!(PathWeight::finite(3).lt(&PathWeight::finite(4)));
    assert!(!PathWeight::finite(4).lt(&PathWeight::finite(4)));
    assert!(PathWeight::finite(4).le(&PathWeight::finite(4)));
    assert!(PathWeight::zero().le(&PathWeight::top()));
}

#[test]
fn path_weight_adds_and_saturates() {
    assert_eq!(PathWeight::zero().add_finite(5), PathWeight::finite(5));
    assert_eq!(PathWeight::finite(5).add_finite(7), PathWeight::finite(12));
    assert_eq!(PathWeight::finite(u64::MAX - 1).add_finite(7), PathWeight::finite(u64::MAX));
    assert_eq!(
        PathWeight::finite(5).add_crossing(),
        PathWeight { infinite_crossings: 1, finite_sum: 5 }
    );
    let nearly = PathWeight { infinite_crossings: u64::MAX - 1, finite_sum: 5 };
    assert_eq!(nearly.add_crossing(), PathWeight::top());
    assert_eq!(PathWeight::top().add_crossing(), PathWeight::top());
    assert_eq!(PathWeight::top().add_finite(1), PathWeight::top());
    assert_eq!(PathWeight::top(), PathWeight { infinite_crossings: u64::MAX, finite_sum: u64::MAX });
}

#[test]
fn path_weight_adds_estimates() {
    assert_eq!(PathWeight::finite(5).add_heuristic(Heuristic::Finite(2)), PathWeight::finite(7));
    assert_eq!(
        PathWeight::finite(5).add_heuristic(Heuristic::Infinite),
        PathWeight { infinite_crossings: 1, finite_sum: 5 }
    );
    assert_eq!(PathWeight::finite(5).add_heuristic(Heuristic::none()), PathWeight::finite(5));
    assert_eq!(Heuristic::none(), Heuristic::Finite(0));
}

#[test]
fn priorities_do_not_saturate() {
    assert_eq!(PathWeight::finite(5).priority(Heuristic::Finite(2)), (0, 7));
    assert_eq!(PathWeight::finite(5).priority(Heuristic::Infinite), (1, 5));
    assert_eq!(PathWeight::finite(5).priority(Heuristic::none()), (0, 5));
    assert_eq!(
        PathWeight::finite(u64::MAX).priority(Heuristic::Finite(u64::MAX)),
        (0, 2 * (u64::MAX as u128))
    );
    assert_eq!(PathWeight::top().priority(Heuristic::Infinite), (u64::MAX as u128 + 1, u64::MAX as u128));
}

#[test]
fn path_weight_extends_over_an_edge() {
    let w = PathWeight::finite(5);
    assert_eq!(w.extend(Some(3), NoneValueResponse::Impassable), Some(PathWeight::finite(8)));
    assert_eq!(w.extend(Some(0), NoneValueResponse::Impassable), Some(PathWeight::finite(5)));
    assert_eq!(w.extend(Some(-1), NoneValueResponse::Value(4)), None);
    assert_eq!(w.extend(None, NoneValueResponse::Impassable), None);
    assert_eq!(w.extend(None, NoneValueResponse::Value(4)), Some(PathWeight::finite(9)));
    assert_eq!(
        w.extend(None, NoneValueResponse::Infinity),
        Some(PathWeight { infinite_crossings: 1, finite_sum: 5 })
    );
}

#[test]
fn graph_path_keeps_its_nodes() {
    let path = GraphPath::new(vec![(3, 'c'), (2, 'b'), (1, 'a')]);
    assert_eq!(path.len(), 3);
    assert_eq!(path.vertex_ids(), vec![3, 2, 1]);
    assert_eq!(path.nodes().clone(), vec![(3, 'c'), (2, 'b'), (1, 'a')]);
    assert_eq!(path.into_nodes(), vec![(3, 'c'), (2, 'b'), (1, 'a')]);
    let single = GraphPath::single(7, ());
    assert_eq!(single.len(), 1);
    assert_eq!(single.vertex_ids(), vec![7]);
}

#[test]
fn standard_vertex_lists_its_edges() {
    let empty = StandardGraphVertex::new();
    assert!(empty.get_neighbours().is_empty());
    let v = StandardGraphVertex::new_with_edges(vec![(4, Some(2)), (5, None)]);
    assert_eq!(v.get_neighbours(), vec![4, 5]);
    assert_eq!(v.get_neighbours_with_weight(), vec![(4, Some(2)), (5, None)]);
    assert_eq!(v.find_edge(5), Some(1));
    assert_eq!(v.find_edge(6), None);
}

#[test]
fn standard_vertex_adds_an_edge_once() {
    let mut v = StandardGraphVertex::new();
    assert!(!v.add_edge(4, Some(2)));
    assert!(!v.add_edge(5, Some(3)));
    assert!(v.add_edge(4, Some(9)));
    assert_eq!(v.get_neighbours_with_weight(), vec![(4, Some(2)), (5, Some(3))]);
}

#[test]
fn standard_vertex_removes_by_swapping_in_the_last() {
    let mut v = StandardGraphVertex::new_with_edges(vec![(4, Some(2)), (5, Some(3)), (6, Some(4))]);
    assert!(v.remove_edge(4));
    assert_eq!(v.get_neighbours_with_weight(), vec![(6, Some(4)), (5, Some(3))]);
    assert!(!v.remove_edge(4));
    assert!(v.remove_edge(5));
    assert_eq!(v.get_neighbours(), vec![6]);
}

#[test]
fn standard_vertex_changes_a_weight() {
    let mut v = StandardGraphVertex::new_with_edges(vec![(4, Some(2)), (5, Some(3))]);
    assert!(v.change_weight_of(5, None));
    assert!(!v.change_weight_of(9, Some(1)));
    assert_eq!(v.get_neighbours_with_weight(), vec![(4, Some(2)), (5, None)]);
}

#[test]
fn store_looks_vertices_up() {
    let mut store: VertexStore<StandardGraphVertex, &str> = VertexStore::new();
    assert_eq!(store.len(), 0);
    store.insert(1, StandardGraphVertex::new(), "one");
    store.insert(2, StandardGraphVertex::new_with_edges(vec![(1, Some(1))]), "two");
    assert_eq!(store.len(), 2);
    assert!(store.contains(2));
    assert!(!store.contains(3));
    let entry = store.lookup(2).unwrap();
    assert_eq!(entry.data, "two");
    assert_eq!(entry.vertex.get_neighbours(), vec![1]);
    assert_eq!(store.lookup(3).err(), Some(GraphError::InvalidEntity));
    store.insert(2, StandardGraphVertex::new(), "deux");
    assert_eq!(store.len(), 2);
    assert_eq!(store.lookup(2).unwrap().data, "deux");
}

#[test]
fn visited_nodes_record_and_trace() {
    let mut visited = VisitedNodes::new_from_start(1);
    assert_eq!(visited.len(), 1);
    assert!(visited.is_visited(&1));
    assert!(!visited.is_visited(&2));
    visited.insert(2, 1, 1, PathWeight::finite(4));
    visited.insert(3, 2, 2, PathWeight::finite(9));
    assert_eq!(visited.len(), 3);
    let record = visited.get(3).unwrap();
    assert_eq!(record.predecessor, Some(2));
    assert_eq!(record.step, 2);
    assert_eq!(record.weight, PathWeight::finite(9));
    assert_eq!(visited.get(1).unwrap().predecessor, None);
    assert!(visited.get(4).is_none());
    assert_eq!(visited.determine_path(3).unwrap().vertex_ids(), vec![3, 2, 1]);
    assert_eq!(
        visited.determine_path_weighted(3).unwrap().into_nodes(),
        vec![(3, PathWeight::finite(9)), (2, PathWeight::finite(4)), (1, PathWeight::zero())]
    );
    assert_eq!(visited.determine_path(1).unwrap().vertex_ids(), vec![1]);
    visited.insert(3, 1, 1, PathWeight::finite(2));
    assert_eq!(visited.len(), 3);
    assert_eq!(visited.determine_path(3).unwrap().vertex_ids(), vec![3, 1]);
}

#[test]
fn a_predecessor_cycle_is_an_invalid_path() {
    let mut visited = VisitedNodes::new_from_start(1);
    visited.insert(2, 3, 1, PathWeight::zero());
    visited.insert(3, 4, 2, PathWeight::zero());
    visited.insert(4, 2, 3, PathWeight::zero());
    visited.insert(5, 4, 4, PathWeight::zero());
    assert_eq!(visited.determine_path(2).err(), Some(GraphError::InvalidPath));
    assert_eq!(visited.determine_path(5).err(), Some(GraphError::InvalidPath));
    assert_eq!(visited.determine_path_weighted(5).err(), Some(GraphError::InvalidPath));
    let mut own = VisitedNodes::new_from_start(1);
    own.insert(2, 2, 1, PathWeight::zero());
    assert_eq!(own.determine_path(2).err(), Some(GraphError::InvalidPath));
}

#[test]
fn a_missing_record_is_an_invalid_path() {
    let mut visited = VisitedNodes::new_from_start(1);
    visited.insert(2, 7, 1, PathWeight::zero());
    assert_eq!(visited.determine_path(2).err(), Some(GraphError::InvalidPath));
    assert_eq!(visited.determine_path(9).err(), Some(GraphError::InvalidPath));
    assert_eq!(visited.determine_path_weighted(9).err(), Some(GraphError::InvalidPath));
}

#[test]
fn a_chain_through_every_record_is_still_a_path() {
    let mut visited = VisitedNodes::new_from_start(1);
    visited.insert(2, 1, 1, PathWeight::zero());
    visited.insert(3, 2, 2, PathWeight::zero());
    visited.insert(4, 3, 3, PathWeight::zero());
    assert_eq!(visited.determine_path(4).unwrap().vertex_ids(), vec![4, 3, 2, 1]);
}

#[test]
fn filter_components_treat_a_missing_component_differently() {
    let present = 5u32;
    let needed: Result<&u32, FilterGraphError> = FilterComponent::from_option(Some(&present));
    assert_eq!(needed, Ok(&5));
    let missing: Result<&u32, FilterGraphError> = FilterComponent::from_option(None);
    assert_eq!(missing, Err(FilterGraphError::ComponentNotFound));
    let optional: Result<Option<&u32>, FilterGraphError> = FilterComponent::from_option(None);
    assert_eq!(optional, Ok(None));
    let given: Result<Option<&u32>, FilterGraphError> = FilterComponent::from_option(Some(&present));
    assert_eq!(given, Ok(Some(&5)));
}
