use lau_spectral_gap_experiment::laplacian::ObservationLaplacian;
use lau_spectral_gap_experiment::mdp::ChainMDP;
use lau_spectral_gap_experiment::mdp::GridWorldMDP;

#[test]
fn test_laplacian_from_chain() {
    let chain = ChainMDP::new(4);
    let lap = ObservationLaplacian::from_mdp(&chain);
    assert_eq!(lap.n, 4);
    assert_eq!(lap.laplacian.get(0, 0), 1);
    assert_eq!(lap.laplacian.get(1, 1), 2);
    assert_eq!(lap.laplacian.get(0, 1), -1);
}

#[test]
fn test_laplacian_row_sums_zero() {
    let grid = GridWorldMDP::new(3, 3);
    let lap = ObservationLaplacian::from_mdp(&grid);
    for i in 0..lap.n {
        let row_sum: i64 = (0..lap.n).map(|j| lap.laplacian.get(i, j)).sum();
        assert!(row_sum == 0, "Row {} sum: {}", i, row_sum);
    }
}

#[test]
fn test_laplacian_symmetric() {
    let grid = GridWorldMDP::new(5, 5);
    let lap = ObservationLaplacian::from_mdp(&grid);
    for i in 0..lap.n {
        for j in 0..lap.n {
            assert!(lap.laplacian.get(i, j) == lap.laplacian.get(j, i), "Asymmetric at ({}, {})", i, j);
        }
    }
}

#[test]
fn test_laplacian_verify() {
    let chain = ChainMDP::new(5);
    let lap = ObservationLaplacian::from_mdp(&chain);
    let props = lap.verify();
    assert!(props.symmetric);
    assert!(props.row_sum_zero);
    assert!(props.diag_nonneg);
}

#[test]
fn test_laplacian_from_grid_3x3() {
    let grid = GridWorldMDP::new(3, 3);
    let lap = ObservationLaplacian::from_mdp(&grid);
    assert_eq!(lap.degree.get(0, 0), 2);
    assert_eq!(lap.degree.get(4, 4), 4);
}

#[test]
fn test_laplacian_from_adjacency() {
    let adj = vec![vec![1], vec![0, 2], vec![1]];
    let lap = ObservationLaplacian::from_adjacency(3, &adj);
    assert_eq!(lap.n, 3);
    assert_eq!(lap.laplacian.get(0, 0), 1);
    assert_eq!(lap.laplacian.get(1, 1), 2);
}

#[test]
fn test_laplacian_degree_matches_adjacency() {
    let grid = GridWorldMDP::new(5, 5);
    let lap = ObservationLaplacian::from_mdp(&grid);
    for i in 0..lap.n {
        let adj_count = (0..lap.n).filter(|&j| lap.adjacency.get(i, j) > 0).count();
        assert_eq!(lap.degree.get(i, i), adj_count as i64);
    }
}

#[test]
fn test_laplacian_grid_10x10() {
    let grid = GridWorldMDP::new(10, 10);
    let lap = ObservationLaplacian::from_mdp(&grid);
    assert_eq!(lap.n, 100);
    let props = lap.verify();
    assert!(props.symmetric);
    assert!(props.row_sum_zero);
}

#[test]
fn laplacian_of_path_is_exact() {
    let adj = vec![vec![1], vec![0, 2], vec![1]];
    let lap = ObservationLaplacian::from_adjacency(3, &adj);
    let expected = [[1, -1, 0], [-1, 2, -1], [0, -1, 1]];
    for i in 0..3 {
        for j in 0..3 {
            assert_eq!(lap.laplacian.get(i, j), expected[i][j]);
            let a = if expected[i][j] == -1 { 1 } else { 0 };
            assert_eq!(lap.adjacency.get(i, j), a);
        }
    }
    assert_eq!(lap.degree.get(1, 1), 2);
    assert_eq!(lap.degree.get(0, 1), 0);
}

#[test]
fn laplacian_quadratic_form_is_nonnegative_on_grid() {
    let grid = GridWorldMDP::new(3, 3).with_obstacles(vec![4]);
    let lap = ObservationLaplacian::from_mdp(&grid);
    let x: Vec<i64> = vec![3, -1, 4, -1, 5, -9, 2, -6, 5];
    let mut q: i64 = 0;
    for i in 0..9 {
        for j in 0..9 {
            q += x[i] * lap.laplacian.get(i, j) * x[j];
        }
    }
    assert!(q >= 0);
    // Constant vectors are in the kernel.
    for i in 0..9 {
        let s: i64 = (0..9).map(|j| lap.laplacian.get(i, j) * 7).sum();
        assert_eq!(s, 0);
    }
}

#[test]
fn verify_reports_directed_and_repeated_lists() {
    // 0 -> 1 only: not symmetric.
    let directed = vec![vec![1], vec![]];
    let props = ObservationLaplacian::from_adjacency(2, &directed).verify();
    assert!(!props.symmetric);
    assert!(props.row_sum_zero);
    assert!(props.diag_nonneg);
    assert_eq!(props.n_states, 2);
    // A neighbor listed twice counts twice in the degree but once in A.
    let repeated = vec![vec![1, 1], vec![0]];
    let lap = ObservationLaplacian::from_adjacency(2, &repeated);
    assert_eq!(lap.degree.get(0, 0), 2);
    assert_eq!(lap.laplacian.get(0, 1), -1);
    let props = lap.verify();
    assert!(!props.row_sum_zero);
    assert!(props.symmetric);
}

#[test]
fn fewer_lists_than_states_leave_isolated_states() {
    let adj = vec![vec![1], vec![0]];
    let lap = ObservationLaplacian::from_adjacency(3, &adj);
    assert_eq!(lap.n, 3);
    assert_eq!(lap.laplacian.get(2, 2), 0);
    assert_eq!(lap.degree.get(2, 2), 0);
    assert!(lap.verify().row_sum_zero);
}
