use lau_spectral_gap_experiment::matrix::IntMatrix;
use lau_spectral_gap_experiment::mdp::support_adjacency;
use lau_spectral_gap_experiment::mdp::ChainMDP;
use lau_spectral_gap_experiment::mdp::GridWorldMDP;
use lau_spectral_gap_experiment::mdp::MDP;

fn row_sum(p: &IntMatrix, n: usize, s: usize) -> i64 {
    (0..n).map(|j| p.get(s, j)).sum()
}

#[test]
fn test_grid_3x3_basic() {
    let grid = GridWorldMDP::new(3, 3);
    assert_eq!(grid.n_states(), 9);
    assert_eq!(grid.n_actions(), 4);
}

#[test]
fn test_grid_transitions_deterministic() {
    let grid = GridWorldMDP::new(3, 3);
    let ps = grid.transition_matrices();
    assert_eq!(ps.len(), 4);
    for p in &ps {
        for s in 0..grid.n_states() {
            let row_sum: i64 = (0..grid.n_states()).map(|j| p.get(s, j)).sum();
            assert!(row_sum == 1, "Row {} doesn't sum to 1: {}", s, row_sum);
        }
    }
}

#[test]
fn test_grid_center_moves() {
    let grid = GridWorldMDP::new(3, 3);
    let ps = grid.transition_matrices();
    // Center state is 4 (row 1, col 1)
    assert_eq!(ps[0].get(4, 1), 1);
    assert_eq!(ps[1].get(4, 7), 1);
    assert_eq!(ps[2].get(4, 3), 1);
    assert_eq!(ps[3].get(4, 5), 1);
}

#[test]
fn test_grid_corner_stays() {
    let grid = GridWorldMDP::new(3, 3);
    let ps = grid.transition_matrices();
    assert_eq!(ps[0].get(0, 0), 1); // up -> wall
    assert_eq!(ps[2].get(0, 0), 1); // left -> wall
}

#[test]
fn test_grid_rewards() {
    let grid = GridWorldMDP::new(3, 3);
    let r = grid.rewards();
    assert_eq!(r.get(8, 0), 1);
    assert_eq!(r.get(8, 1), 1);
    assert_eq!(r.get(0, 0), 0);
}

#[test]
fn test_grid_adjacency() {
    let grid = GridWorldMDP::new(3, 3);
    let adj = grid.adjacency();
    assert_eq!(adj[4].len(), 4);
    assert_eq!(adj[0].len(), 2);
}

#[test]
fn test_grid_obstacles() {
    let grid = GridWorldMDP::new(3, 3).with_obstacles(vec![4]);
    let adj = grid.adjacency();
    assert!(adj[4].is_empty());
}

#[test]
fn test_chain_basic() {
    let chain = ChainMDP::new(5);
    assert_eq!(chain.n_states(), 5);
    assert_eq!(chain.n_actions(), 2);
}

#[test]
fn test_chain_transitions() {
    let chain = ChainMDP::new(5);
    let ps = chain.transition_matrices();
    assert_eq!(ps[0].get(2, 1), 1);
    assert_eq!(ps[1].get(2, 3), 1);
    assert_eq!(ps[0].get(0, 0), 1);
}

#[test]
fn test_chain_rewards() {
    let chain = ChainMDP::new(5);
    let r = chain.rewards();
    assert_eq!(r.get(4, 0), 1);
}

#[test]
fn test_chain_adjacency() {
    let chain = ChainMDP::new(5);
    let adj = chain.adjacency();
    assert_eq!(adj[0].len(), 1);
    assert_eq!(adj[2].len(), 2);
}

#[test]
fn test_grid_5x5() {
    let grid = GridWorldMDP::new(5, 5);
    assert_eq!(grid.n_states(), 25);
    let ps = grid.transition_matrices();
    for p in &ps {
        for s in 0..25 {
            let row_sum: i64 = (0..25).map(|j| p.get(s, j)).sum();
            assert_eq!(row_sum, 1);
        }
    }
}

#[test]
fn test_grid_10x10() {
    let grid = GridWorldMDP::new(10, 10);
    assert_eq!(grid.n_states(), 100);
}

#[test]
fn test_chain_long() {
    let chain = ChainMDP::new(20);
    assert_eq!(chain.n_states(), 20);
    let adj = chain.adjacency();
    assert_eq!(adj[10].len(), 2);
}

#[test]
fn grid_new_puts_goal_in_bottom_right_corner() {
    let grid = GridWorldMDP::new(2, 4);
    assert_eq!(grid.goal_states, vec![7]);
    assert!(grid.obstacles.is_empty());
    assert_eq!(grid.name(), "grid_world");
}

#[test]
fn grid_state_rc_roundtrip() {
    let grid = GridWorldMDP::new(3, 4);
    for s in 0..12 {
        let (r, c) = grid.state_to_rc(s);
        assert_eq!((r, c), (s / 4, s % 4));
        assert_eq!(grid.rc_to_state(r, c), s);
    }
    assert_eq!(grid.state_to_rc(7), (1, 3));
    assert_eq!(grid.rc_to_state(2, 1), 9);
}

#[test]
fn grid_actions_are_up_down_left_right() {
    let grid = GridWorldMDP::new(2, 2);
    assert_eq!(grid.actions(), [(-1, 0), (1, 0), (0, -1), (0, 1)]);
}

#[test]
fn grid_adjacency_order_and_symmetry() {
    let grid = GridWorldMDP::new(3, 3);
    let adj = grid.adjacency();
    assert_eq!(adj[4], vec![1, 3, 7, 5]);
    assert_eq!(adj[0], vec![3, 1]);
    assert_eq!(adj[8], vec![5, 7]);
    for s in 0..9 {
        for &t in &adj[s] {
            assert!(adj[t].contains(&s));
            assert_ne!(t, s);
        }
    }
}

#[test]
fn grid_adjacency_avoids_obstacles() {
    let grid = GridWorldMDP::new(3, 3).with_obstacles(vec![1, 4]);
    let adj = grid.adjacency();
    assert_eq!(adj[0], vec![3]);
    assert_eq!(adj[1], Vec::<usize>::new());
    assert_eq!(adj[7], vec![6, 8]);
}

#[test]
fn grid_obstacles_and_goals_absorb() {
    let grid = GridWorldMDP::new(3, 3).with_obstacles(vec![4]);
    let ps = grid.transition_matrices();
    // Moving from 1 down into the obstacle keeps the agent at 1.
    assert_eq!(ps[1].get(1, 1), 1);
    assert_eq!(ps[1].get(1, 4), 0);
    for a in 0..4 {
        assert_eq!(ps[a].get(4, 4), 1);
        assert_eq!(ps[a].get(8, 8), 1);
        assert_eq!(row_sum(&ps[a], 9, 4), 1);
    }
}

#[test]
fn grid_single_row_has_no_vertical_moves() {
    let grid = GridWorldMDP::new(1, 3);
    let adj = grid.adjacency();
    assert_eq!(adj[1], vec![0, 2]);
    let ps = grid.transition_matrices();
    assert_eq!(ps[0].get(1, 1), 1);
    assert_eq!(ps[3].get(1, 2), 1);
}

#[test]
fn chain_ends_hold_their_state() {
    let chain = ChainMDP::new(4);
    let ps = chain.transition_matrices();
    assert_eq!(ps.len(), 2);
    assert_eq!(ps[1].get(3, 3), 1);
    assert_eq!(ps[1].get(2, 3), 1);
    for a in 0..2 {
        for s in 0..4 {
            assert_eq!(row_sum(&ps[a], 4, s), 1);
        }
    }
    let r = chain.rewards();
    assert_eq!(r.get(3, 1), 1);
    assert_eq!(r.get(2, 0), 0);
    assert_eq!(chain.name(), "chain");
    assert_eq!(chain.adjacency()[0], vec![1]);
    assert_eq!(chain.adjacency()[1], vec![0, 2]);
}

#[test]
fn chain_of_zero_and_one_states() {
    let empty = ChainMDP::new(0);
    assert!(empty.adjacency().is_empty());
    assert_eq!(empty.transition_matrices().len(), 2);
    let single = ChainMDP::new(1);
    assert_eq!(single.adjacency(), vec![Vec::<usize>::new()]);
    assert_eq!(single.transition_matrices()[0].get(0, 0), 1);
}

#[test]
fn support_adjacency_lists_first_appearances() {
    // support[a][s][t]
    let support = vec![
        vec![vec![true, true, false], vec![false, false, true], vec![true, false, false]],
        vec![vec![false, false, true], vec![true, true, true], vec![true, true, false]],
    ];
    let adj = support_adjacency(3, &support);
    assert_eq!(adj[0], vec![1, 2]);
    assert_eq!(adj[1], vec![2, 0]);
    assert_eq!(adj[2], vec![0, 1]);
}
