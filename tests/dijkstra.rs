use algo_kit::dijkstra::shortest_distance;

fn graph(n: usize, edges: &[(usize, usize, i64)]) -> Vec<Vec<(usize, i64)>> {
    let mut adj: Vec<Vec<(usize, i64)>> = vec![vec![]; n + 1];
    for &(u, v, w) in edges {
        adj[u].push((v, w));
    }
    adj
}

#[test]
fn picks_lighter_of_two_routes() {
    let adj = graph(4, &[(1, 2, 1), (2, 4, 5), (1, 3, 2), (3, 4, 1), (2, 3, 1)]);
    assert_eq!(shortest_distance(&adj, 1, 4), Some(3));
    assert_eq!(shortest_distance(&adj, 1, 2), Some(1));
    assert_eq!(shortest_distance(&adj, 1, 3), Some(2));
}

#[test]
fn unreachable_target() {
    let adj = graph(3, &[(1, 2, 4), (3, 1, 1)]);
    assert_eq!(shortest_distance(&adj, 1, 3), None);
    assert_eq!(shortest_distance(&adj, 3, 2), Some(5));
}

#[test]
fn source_is_target() {
    let adj = graph(2, &[(1, 2, 7), (2, 1, 7)]);
    assert_eq!(shortest_distance(&adj, 1, 1), Some(0));
}

#[test]
fn parallel_edges_and_zero_weights() {
    let adj = graph(3, &[(1, 2, 9), (1, 2, 3), (2, 3, 0), (1, 3, 4)]);
    assert_eq!(shortest_distance(&adj, 1, 3), Some(3));
}

#[test]
fn weights_beyond_i64_sum() {
    let adj = graph(3, &[(1, 2, i64::MAX), (2, 3, i64::MAX)]);
    assert_eq!(shortest_distance(&adj, 1, 3), Some(2 * (i64::MAX as i128)));
}
