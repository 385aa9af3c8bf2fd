use rand::{thread_rng, Rng};
use traderust::apsp::{dial, dijkstra, floyd_warshall, INFINITY, NO_PRED_NODE};
use traderust::grid::Matrix;

fn setup_scipy_test() -> Matrix {
    // https://docs.scipy.org/doc/scipy/reference/generated/scipy.sparse.csgraph.shortest_path.html
    let mut rows = vec![vec![INFINITY; 4]; 4];
    rows[0][1] = 1;
    rows[0][2] = 2;
    rows[1][3] = 1;
    rows[2][0] = 2;
    rows[2][3] = 3;
    Matrix::from_rows(&rows, 4)
}

fn compare_scipy_test(dist: Matrix, pred: Matrix) {
    let dist = dist.to_rows();
    let pred = pred.to_rows();
    assert_eq!(dist[0][0], 0);
    assert_eq!(dist[0][1], 1);
    assert_eq!(dist[0][2], 2);
    assert_eq!(dist[0][3], 2);

    assert_eq!(dist[1][0], 1);
    assert_eq!(dist[1][1], 0);
    assert_eq!(dist[1][2], 3);
    assert_eq!(dist[1][3], 1);

    assert_eq!(dist[2][0], 2);
    assert_eq!(dist[2][1], 3);
    assert_eq!(dist[2][2], 0);
    assert_eq!(dist[2][3], 3);

    assert_eq!(dist[3][0], 2);
    assert_eq!(dist[3][1], 1);
    assert_eq!(dist[3][2], 3);
    assert_eq!(dist[3][3], 0);

    assert_eq!(pred[0][0], NO_PRED_NODE);
    assert_eq!(pred[0][1], 0);
    assert_eq!(pred[0][2], 0);
    assert_eq!(pred[0][3], 1);

    assert_eq!(pred[1][0], 1);
    assert_eq!(pred[1][1], NO_PRED_NODE);
    assert_eq!(pred[1][2], 0);
    assert_eq!(pred[1][3], 1);

    assert_eq!(pred[2][0], 2);
    assert_eq!(pred[2][1], 0);
    assert_eq!(pred[2][2], NO_PRED_NODE);
    assert_eq!(pred[2][3], 2);

    assert_eq!(pred[3][0], 1);
    assert_eq!(pred[3][1], 3);
    assert_eq!(pred[3][2], 3);
    assert_eq!(pred[3][3], NO_PRED_NODE);
}

#[test]
fn test_floyd_warshall_scipy() {
    let mut dist = setup_scipy_test();
    let pred = floyd_warshall(&mut dist);
    compare_scipy_test(dist, pred);
}

#[test]
fn test_dijkstra_scipy() {
    let mut dist = setup_scipy_test();
    let pred = dijkstra(&mut dist);
    compare_scipy_test(dist, pred);
}

#[test]
fn test_dial_scipy() {
    let mut dist = setup_scipy_test();
    let pred = dial(&mut dist);
    compare_scipy_test(dist, pred);
}

fn setup_random_matrix(vertexes: usize, edges: usize) -> Matrix {
    let mut rng = thread_rng();
    let max_cost = 4;
    let mut rows = vec![vec![INFINITY; vertexes]; vertexes];
    for _ in 0..edges {
        let i = rng.gen_range(0..vertexes);
        let j = rng.gen_range(0..vertexes);
        let cost = rng.gen_range(1..=max_cost);
        rows[i][j] = cost as u16;
    }
    Matrix::from_rows(&rows, vertexes)
}

#[test]
fn test_multi_algorithm_random_matrix() {
    let mut dist1 = setup_random_matrix(100, 1000);
    let mut dist2 = dist1.clone();
    let mut dist3 = dist2.clone();

    floyd_warshall(&mut dist1);
    dijkstra(&mut dist2);
    dial(&mut dist3);

    assert_eq!(dist1, dist2);
    assert_eq!(dist1, dist3);
    // predecessors are not guaranteed to be identical
}

#[test]
fn test_two_algorithms_bigger_random_matrix() {
    let mut dist1 = setup_random_matrix(1000, 6000);
    let mut dist2 = dist1.clone();

    dijkstra(&mut dist1);
    dial(&mut dist2);

    assert_eq!(dist1, dist2);
    // predecessors are not guaranteed to be identical
}
