use graph_search::{
    a_star_computed_end, a_star_search, bfs, dfs, dijkstra_search, within_distance, within_steps, GraphError, Heuristic,
    NoneValueResponse, StandardGraphVertex, VertexStore,
};

/// A small generator of numbers, the same on every run.
struct Numbers(u64);

impl Numbers {
    fn next(&mut self, below: u64) -> u64 {
        self.0 = self.0.wrapping_mul(6364136223846793005).wrapping_add(1442695040888963407);
        (self.0 >> 33) % below
    }
}

type Edges = Vec<Vec<(u64, Option<i64>)>>;

fn random_graph(numbers: &mut Numbers) -> Edges {
    let n = 2 + numbers.next(5);
    (0..n)
        .map(|_| {
            let degree = numbers.next(4);
            (0..degree)
                .map(|_| {
                    let target = numbers.next(n + 1);
                    let weight = if numbers.next(5) == 0 { None } else { Some(numbers.next(6) as i64) };
                    (target, weight)
                })
                .collect()
        })
        .collect()
}

fn store_of(edges: &Edges) -> VertexStore<StandardGraphVertex, ()> {
    let mut store = VertexStore::new();
    for (id, out) in edges.iter().enumerate() {
        store.insert(id as u64, StandardGraphVertex::new_with_edges(out.clone()), ());
    }
    store
}

fn first_index(edges: &Edges, from: u64, to: u64) -> usize {
    edges[from as usize].iter().position(|e| e.0 == to).unwrap()
}

fn turns(edges: &Edges, path: &[u64]) -> Vec<usize> {
    path.windows(2).map(|w| first_index(edges, w[0], w[1])).collect()
}

/// Every simple path from `start`, by its last vertex.
fn simple_paths(edges: &Edges, start: u64) -> Vec<Vec<u64>> {
    fn go(edges: &Edges, path: &mut Vec<u64>, all: &mut Vec<Vec<u64>>) {
        all.push(path.clone());
        let here = *path.last().unwrap();
        for &(next, _) in &edges[here as usize] {
            if (next as usize) < edges.len() && !path.contains(&next) {
                path.push(next);
                go(edges, path, all);
                path.pop();
            }
        }
    }
    let mut all = Vec::new();
    go(edges, &mut vec![start], &mut all);
    all
}

/// The least weight of a walk from `start` to each vertex, where unknown
/// edges are not walked: `None` where no walk leads there.
fn least_weights(edges: &Edges, start: u64) -> Vec<Option<u64>> {
    let mut best: Vec<Option<u64>> = vec![None; edges.len()];
    best[start as usize] = Some(0);
    for _ in 0..edges.len() {
        for from in 0..edges.len() {
            if let Some(d) = best[from] {
                for &(to, w) in &edges[from] {
                    if let (true, Some(w)) = ((to as usize) < edges.len(), w) {
                        let candidate = d + w as u64;
                        if best[to as usize].map_or(true, |old| candidate < old) {
                            best[to as usize] = Some(candidate);
                        }
                    }
                }
            }
        }
    }
    best
}

#[test]
fn bfs_gives_the_first_shortest_path() {
    let mut numbers = Numbers(7);
    for _ in 0..300 {
        let edges = random_graph(&mut numbers);
        let store = store_of(&edges);
        let paths = simple_paths(&edges, 0);
        for end in 0..edges.len() as u64 {
            let to_end: Vec<&Vec<u64>> = paths.iter().filter(|p| *p.last().unwrap() == end).collect();
            match bfs(&store, 0, end) {
                Ok(path) => {
                    let mut forward = path.vertex_ids();
                    forward.reverse();
                    let expected = to_end
                        .iter()
                        .min_by_key(|p| (p.len(), turns(&edges, p)))
                        .expect("a path was found, so there is one");
                    assert_eq!(&forward, *expected);
                },
                Err(e) => {
                    assert_eq!(e, GraphError::NoPath);
                    assert!(to_end.is_empty());
                },
            }
        }
    }
}

#[test]
fn dfs_gives_the_first_simple_path() {
    let mut numbers = Numbers(11);
    for _ in 0..300 {
        let edges = random_graph(&mut numbers);
        let store = store_of(&edges);
        let paths = simple_paths(&edges, 0);
        for end in 0..edges.len() as u64 {
            let to_end: Vec<&Vec<u64>> = paths.iter().filter(|p| *p.last().unwrap() == end).collect();
            match dfs(&store, 0, end) {
                Ok(path) => {
                    let mut forward = path.vertex_ids();
                    forward.reverse();
                    let expected = to_end
                        .iter()
                        .min_by_key(|p| turns(&edges, p))
                        .expect("a path was found, so there is one");
                    assert_eq!(&forward, *expected);
                },
                Err(e) => {
                    assert_eq!(e, GraphError::NoPath);
                    assert!(to_end.is_empty());
                },
            }
        }
    }
}

#[test]
fn dijkstra_and_a_star_give_the_least_weight() {
    let mut numbers = Numbers(13);
    for _ in 0..300 {
        let edges = random_graph(&mut numbers);
        let store = store_of(&edges);
        let best = least_weights(&edges, 0);
        for end in 0..edges.len() as u64 {
            let by_dijkstra = dijkstra_search(&store, 0, end, NoneValueResponse::Impassable);
            let by_a_star =
                a_star_search(&store, 0, end, |_: &(), _: &()| Heuristic::Finite(0), NoneValueResponse::Impassable);
            match best[end as usize] {
                Some(d) => {
                    let path = by_dijkstra.unwrap();
                    assert_eq!(path.nodes()[0].0, end);
                    assert_eq!(path.nodes()[0].1.finite_sum, d);
                    assert_eq!(path.nodes()[0].1.infinite_crossings, 0);
                    assert_eq!(path.nodes().last().unwrap().0, 0);
                    // the weights along the path are those of its edges
                    let nodes = path.nodes();
                    for pair in nodes.windows(2) {
                        let (to, after) = pair[0];
                        let (from, before) = pair[1];
                        assert!(edges[from as usize]
                            .iter()
                            .any(|&(t, w)| t == to && w.map(|w| before.finite_sum + w as u64)
                                == Some(after.finite_sum)));
                    }
                    assert_eq!(by_a_star.unwrap().nodes()[0].1.finite_sum, d);
                },
                None => {
                    assert_eq!(by_dijkstra.err(), Some(GraphError::NoPath));
                    assert_eq!(by_a_star.err(), Some(GraphError::NoPath));
                },
            }
        }
    }
}

#[test]
fn neighbourhoods_hold_what_is_near() {
    let mut numbers = Numbers(17);
    for _ in 0..300 {
        let edges = random_graph(&mut numbers);
        let store = store_of(&edges);
        let paths = simple_paths(&edges, 0);
        let best = least_weights(&edges, 0);
        let budget = numbers.next(8);
        let mut near = within_distance(&store, 0, budget).unwrap();
        near.sort();
        let mut expected: Vec<(u64, u64)> = best
            .iter()
            .enumerate()
            .filter_map(|(v, d)| d.filter(|d| *d <= budget).map(|d| (v as u64, d)))
            .collect();
        expected.sort();
        assert_eq!(near, expected);

        let steps = numbers.next(4) as usize;
        let layers = within_steps(&store, 0, steps).unwrap();
        let mut expected: Vec<(usize, Vec<usize>, u64)> = (0..edges.len() as u64)
            .filter_map(|v| {
                paths
                    .iter()
                    .filter(|p| *p.last().unwrap() == v)
                    .map(|p| (p.len() - 1, turns(&edges, p), v))
                    .min()
            })
            .filter(|(len, _, _)| *len <= steps)
            .collect();
        expected.sort();
        let expected: Vec<(u64, usize)> = expected.into_iter().map(|(len, _, v)| (v, len)).collect();
        assert_eq!(layers, expected);
    }
}

/// The least weight of a walk from each vertex to `end`, where unknown
/// edges are not walked.
fn least_weights_to(edges: &Edges, end: u64) -> Vec<Option<u64>> {
    let mut best: Vec<Option<u64>> = vec![None; edges.len()];
    best[end as usize] = Some(0);
    for _ in 0..edges.len() {
        for from in 0..edges.len() {
            for &(to, w) in &edges[from] {
                if let (true, Some(w)) = ((to as usize) < edges.len(), w) {
                    if let Some(rest) = best[to as usize] {
                        let candidate = rest + w as u64;
                        if best[from].map_or(true, |old| candidate < old) {
                            best[from] = Some(candidate);
                        }
                    }
                }
            }
        }
    }
    best
}

#[test]
fn a_star_with_a_consistent_estimate_gives_the_least_weight() {
    let mut numbers = Numbers(19);
    for _ in 0..300 {
        let edges = random_graph(&mut numbers);
        let best = least_weights(&edges, 0);
        let slack = numbers.next(3);
        for end in 0..edges.len() as u64 {
            // what is left to walk, less a little: an estimate that never
            // falls by more than an edge adds
            let rest = least_weights_to(&edges, end);
            let mut store = VertexStore::new();
            for (id, out) in edges.iter().enumerate() {
                store.insert(id as u64, StandardGraphVertex::new_with_edges(out.clone()), rest[id]);
            }
            let estimate = |here: &Option<u64>, _: &Option<u64>| match here {
                Some(left) => Heuristic::Finite(left.saturating_sub(slack)),
                None => Heuristic::Infinite,
            };
            let found = a_star_search(&store, 0, end, estimate, NoneValueResponse::Impassable);
            match best[end as usize] {
                Some(d) => {
                    let path = found.unwrap();
                    assert_eq!(path.nodes()[0].0, end);
                    assert_eq!(path.nodes()[0].1.finite_sum, d);
                },
                None => assert_eq!(found.err(), Some(GraphError::NoPath)),
            }
        }
    }
}

#[test]
fn a_star_computed_end_gives_the_nearest_end() {
    let mut numbers = Numbers(23);
    for _ in 0..300 {
        let edges = random_graph(&mut numbers);
        let best = least_weights(&edges, 0);
        let ends: Vec<bool> = (0..edges.len()).map(|_| numbers.next(3) == 0).collect();
        // what is left to walk to the nearest end: nothing at an end
        let mut left: Vec<Option<u64>> = vec![None; edges.len()];
        for end in 0..edges.len() {
            if ends[end] {
                let rest = least_weights_to(&edges, end as u64);
                for v in 0..edges.len() {
                    if let Some(d) = rest[v] {
                        if left[v].map_or(true, |old| d < old) {
                            left[v] = Some(d);
                        }
                    }
                }
            }
        }
        let mut store = VertexStore::new();
        for (id, out) in edges.iter().enumerate() {
            store.insert(id as u64, StandardGraphVertex::new_with_edges(out.clone()), (ends[id], left[id]));
        }
        let found = a_star_computed_end(
            &store,
            0,
            |here: &(bool, Option<u64>)| match here.1 {
                Some(left) => Heuristic::Finite(left),
                None => Heuristic::Infinite,
            },
            |here: &(bool, Option<u64>)| here.0,
            NoneValueResponse::Impassable,
        );
        let nearest = (0..edges.len()).filter(|v| ends[*v]).filter_map(|v| best[v]).min();
        match nearest {
            Some(d) => {
                let path = found.unwrap();
                assert!(ends[path.nodes()[0].0 as usize]);
                assert_eq!(path.nodes()[0].1.finite_sum, d);
            },
            None => assert_eq!(found.err(), Some(GraphError::NoPath)),
        }
    }
}
