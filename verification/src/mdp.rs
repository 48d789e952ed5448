//! MDP testbed: the state graphs and the deterministic dynamics of grid worlds
//! and chains.
//!
//! Transition matrices and rewards are 0/1 matrices (`IntMatrix`); the discount
//! factor and every floating-point quantity live with the caller.

use vstd::prelude::*;
use vstd::arithmetic::div_mod::lemma_fundamental_div_mod;
use vstd::arithmetic::div_mod::lemma_fundamental_div_mod_converse;
use crate::matrix::IntMatrix;
use crate::matrix::int_matrix_cells;
use crate::matrix::int_matrix_ncols;
use crate::matrix::is_rectangular;
use crate::matrix::is_table;
use crate::matrix::fits_in_memory;
use crate::laplacian::lists_within;
use crate::laplacian::lists_distinct;
use crate::laplacian::lists_symmetric;
use crate::laplacian::adjacency_entry;
use crate::sums::sum_to;
use crate::sums::lemma_sum_point;

verus! {

/// `true` when `v` holds `x`.
fn vec_contains(v: &Vec<usize>, x: usize) -> (b: bool)
    ensures
        b == v@.contains(x),
{
    let mut i: usize = 0;
    while i < v.len()
        invariant
            i <= v.len(),
            forall|k: int| 0 <= k < i ==> v@[k] != x,
        decreases v.len() - i,
    {
        if v[i] == x {
            assert(v@[i as int] == x);
            return true;
        }
        i = i + 1;
    }
    false
}

/// Row offset of action `a` (0 up, 1 down, 2 left, 3 right).
pub open spec fn delta_row(a: int) -> int {
    if a == 0 {
        -1
    } else if a == 1 {
        1
    } else {
        0
    }
}

/// Column offset of action `a` (0 up, 1 down, 2 left, 3 right).
pub open spec fn delta_col(a: int) -> int {
    if a == 2 {
        -1
    } else if a == 3 {
        1
    } else {
        0
    }
}

/// The structural interface of an MDP: its states, actions, deterministic
/// dynamics, rewards and state graph.
pub trait MDP {
    /// The sizes of this MDP fit in machine integers.
    spec fn is_valid(&self) -> bool;

    /// The reward matrix is defined.
    spec fn has_rewards(&self) -> bool;

    /// The number of states.
    spec fn spec_n_states(&self) -> nat;

    /// The number of actions.
    spec fn spec_n_actions(&self) -> nat;

    /// The adjacency lists of the state graph.
    spec fn spec_adjacency(&self) -> Seq<Seq<usize>>;

    /// Number of states.
    fn n_states(&self) -> (n: usize)
        requires
            self.is_valid(),
        ensures
            n == self.spec_n_states(),
    ;

    /// Number of actions.
    fn n_actions(&self) -> (k: usize)
        ensures
            k == self.spec_n_actions(),
    ;

    /// Transition matrix per action: `P[a]` is `n_states` by `n_states`.
    fn transition_matrices(&self) -> (ps: Vec<IntMatrix>)
        requires
            self.is_valid(),
            fits_in_memory(self.spec_n_states() as int, self.spec_n_states() as int),
        ensures
            ps@.len() == self.spec_n_actions(),
            forall|a: int|
                0 <= a < ps@.len() ==> {
                    &&& int_matrix_ncols(#[trigger] ps@[a]) == self.spec_n_states()
                    &&& int_matrix_cells(ps@[a]).len() == self.spec_n_states()
                    &&& is_rectangular(int_matrix_cells(ps@[a]), self.spec_n_states())
                },
    ;

    /// Reward function: `R[s][a]`.
    fn rewards(&self) -> (r: IntMatrix)
        requires
            self.is_valid(),
            self.has_rewards(),
            fits_in_memory(self.spec_n_states() as int, self.spec_n_actions() as int),
        ensures
            int_matrix_cells(r).len() == self.spec_n_states(),
            int_matrix_ncols(r) == self.spec_n_actions(),
    ;

    /// Adjacency lists for graph construction.
    fn adjacency(&self) -> (adj: Vec<Vec<usize>>)
        requires
            self.is_valid(),
        ensures
            adj@.map_values(|v: Vec<usize>| v@) == self.spec_adjacency(),
            lists_within(self.spec_n_states() as int, self.spec_adjacency()),
    ;

    /// Name of the MDP.
    fn name(&self) -> &'static str;
}

/// Grid world MDP: a `rows` by `cols` grid, states numbered row by row, with
/// absorbing goal states and blocked obstacle cells.
pub struct GridWorldMDP {
    pub rows: usize,
    pub cols: usize,
    pub goal_states: Vec<usize>,
    pub obstacles: Vec<usize>,
}

impl GridWorldMDP {
    /// The number of states, `rows * cols`.
    pub open spec fn num_states(&self) -> int {
        self.rows * self.cols
    }

    /// The state count fits in a `usize`.
    pub open spec fn fits(&self) -> bool {
        self.rows * self.cols <= usize::MAX
    }

    /// The grid fits in a `usize` and every goal state is a state.
    pub open spec fn well_formed(&self) -> bool {
        &&& self.fits()
        &&& forall|k: int|
            0 <= k < self.goal_states@.len() ==> (#[trigger] self.goal_states@[k]) < self.num_states()
    }

    /// State `s` is an obstacle cell.
    pub open spec fn is_obstacle(&self, s: int) -> bool {
        self.obstacles@.contains(s as usize)
    }

    /// State `s` is a goal state.
    pub open spec fn is_goal(&self, s: int) -> bool {
        self.goal_states@.contains(s as usize)
    }

    /// Row of state `s`.
    pub open spec fn row_of(&self, s: int) -> int {
        s / (self.cols as int)
    }

    /// Column of state `s`.
    pub open spec fn col_of(&self, s: int) -> int {
        s % (self.cols as int)
    }

    /// The state at row `r`, column `c`.
    pub open spec fn cell(&self, r: int, c: int) -> int {
        r * self.cols + c
    }

    /// The cell reached from `s` by moving one step in direction `a`, if it lies on
    /// the grid.
    pub open spec fn step(&self, s: int, a: int) -> Option<int> {
        let nr = self.row_of(s) + delta_row(a);
        let nc = self.col_of(s) + delta_col(a);
        if 0 <= nr < self.rows && 0 <= nc < self.cols {
            Some(self.cell(nr, nc))
        } else {
            None
        }
    }

    /// Where action `a` takes state `s`: goal and obstacle states stay put, and so
    /// does a move off the grid or into an obstacle.
    pub open spec fn target(&self, s: int, a: int) -> int {
        if self.is_obstacle(s) || self.is_goal(s) {
            s
        } else {
            match self.step(s, a) {
                Some(t) => if self.is_obstacle(t) {
                    s
                } else {
                    t
                },
                None => s,
            }
        }
    }

    /// Entry `(s, t)` of the 0/1 transition matrix of action `a`: row `s` has its
    /// single 1 at `target(s, a)`.
    pub open spec fn transition_entry(&self, a: int, s: int, t: int) -> i64 {
        if t == self.target(s, a) {
            1
        } else {
            0
        }
    }

    /// The sum of row `s` of the transition matrix of action `a`.
    pub open spec fn transition_row_sum(&self, a: int, s: int) -> int {
        sum_to(|t: int| self.transition_entry(a, s, t) as int, self.num_states())
    }

    /// Entry `(s, a)` of the reward matrix: 1 for a goal state, 0 elsewhere.
    pub open spec fn reward_entry(&self, s: int, a: int) -> i64 {
        if self.is_goal(s) {
            1
        } else {
            0
        }
    }

    /// The graph edge from `s` in direction `a`: the neighboring cell, when neither
    /// `s` nor that cell is an obstacle.
    pub open spec fn link(&self, s: int, a: int) -> Option<int> {
        if self.is_obstacle(s) {
            None
        } else {
            match self.step(s, a) {
                Some(t) => if self.is_obstacle(t) {
                    None
                } else {
                    Some(t)
                },
                None => None,
            }
        }
    }

    /// The edge from `s` in direction `a` as a list of at most one state, kept only
    /// when `keep` holds of its far end.
    pub open spec fn link_where(&self, s: int, a: int, keep: spec_fn(int) -> bool) -> Seq<usize> {
        match self.link(s, a) {
            Some(t) => if keep(t) {
                seq![t as usize]
            } else {
                Seq::empty()
            },
            None => Seq::empty(),
        }
    }

    /// The neighbors of `s` that satisfy `keep`, in the order up, left, down, right.
    pub open spec fn neighbors_where(&self, s: int, keep: spec_fn(int) -> bool) -> Seq<usize> {
        self.link_where(s, 0, keep) + self.link_where(s, 2, keep) + self.link_where(s, 1, keep)
            + self.link_where(s, 3, keep)
    }

    /// The adjacency list of `s`: its free neighbors in the order up, left, down,
    /// right; empty for an obstacle.
    pub open spec fn neighbors(&self, s: int) -> Seq<usize> {
        self.neighbors_where(s, |t: int| true)
    }

    /// A grid with the goal in the bottom-right corner and no obstacles.
    pub fn new(rows: usize, cols: usize) -> (g: GridWorldMDP)
        requires
            1 <= rows * cols <= usize::MAX,
        ensures
            g.rows == rows,
            g.cols == cols,
            g.goal_states@ == seq![(rows * cols - 1) as usize],
            g.obstacles@ == Seq::<usize>::empty(),
            g.well_formed(),
    {
        let n = rows * cols;
        let mut goal_states: Vec<usize> = Vec::new();
        goal_states.push(n - 1);
        GridWorldMDP { rows, cols, goal_states, obstacles: Vec::new() }
    }

    /// The same grid with the given obstacle cells.
    pub fn with_obstacles(self, obstacles: Vec<usize>) -> (g: GridWorldMDP)
        ensures
            g.rows == self.rows,
            g.cols == self.cols,
            g.goal_states@ == self.goal_states@,
            g.obstacles@ == obstacles@,
    {
        let mut g = self;
        g.obstacles = obstacles;
        g
    }

    /// Row and column of state `s`.
    pub fn state_to_rc(&self, s: usize) -> (rc: (usize, usize))
        requires
            self.cols > 0,
        ensures
            rc.0 == self.row_of(s as int),
            rc.1 == self.col_of(s as int),
            rc.0 == s / self.cols,
            rc.1 == s % self.cols,
            self.fits() && s < self.num_states() ==> rc.0 < self.rows && rc.1 < self.cols,
    {
        proof {
            if self.fits() && s < self.num_states() {
                lemma_rc_bounds(self.rows as int, self.cols as int, s as int);
            }
        }
        (s / self.cols, s % self.cols)
    }

    /// The state at row `r`, column `c`.
    pub fn rc_to_state(&self, r: usize, c: usize) -> (s: usize)
        requires
            r * self.cols + c <= usize::MAX,
        ensures
            s == self.cell(r as int, c as int),
            s == r * self.cols + c,
            self.fits() && r < self.rows && c < self.cols ==> s < self.num_states(),
    {
        proof {
            if r < self.rows && c < self.cols {
                lemma_cell_bound(self.rows as int, self.cols as int, r as int, c as int);
            }
            assert(0 <= r * self.cols) by (nonlinear_arith);
        }
        r * self.cols + c
    }

    /// The four actions as (row, column) offsets: up, down, left, right.
    pub fn actions(&self) -> (acts: [(i64, i64); 4])
        ensures
            forall|a: int| 0 <= a < 4 ==> #[trigger] acts@[a] == (delta_row(a) as i64, delta_col(a) as i64),
    {
        [(-1, 0), (1, 0), (0, -1), (0, 1)]
    }

    /// The cell one step from `s` in direction `a`, if it lies on the grid.
    fn step_exec(&self, s: usize, a: usize) -> (o: Option<usize>)
        requires
            self.fits(),
            s < self.num_states(),
            a < 4,
        ensures
            o == (match self.step(s as int, a as int) {
                Some(t) => Some(t as usize),
                None => None::<usize>,
            }),
            o matches Some(t) ==> t < self.num_states(),
            self.step(s as int, a as int) matches Some(t) ==> 0 <= t < self.num_states(),
    {
        proof {
            lemma_rc_bounds(self.rows as int, self.cols as int, s as int);
        }
        let (sr, sc) = self.state_to_rc(s);
        proof {
            if sr >= 1 {
                lemma_cell_bound(self.rows as int, self.cols as int, sr - 1, sc as int);
            }
            if sr + 1 < self.rows {
                lemma_cell_bound(self.rows as int, self.cols as int, sr + 1, sc as int);
            }
            if sc >= 1 {
                lemma_cell_bound(self.rows as int, self.cols as int, sr as int, sc - 1);
            }
            if sc + 1 < self.cols {
                lemma_cell_bound(self.rows as int, self.cols as int, sr as int, sc + 1);
            }
        }
        if a == 0 {
            if sr >= 1 {
                Some(self.rc_to_state(sr - 1, sc))
            } else {
                None
            }
        } else if a == 1 {
            if sr + 1 < self.rows {
                Some(self.rc_to_state(sr + 1, sc))
            } else {
                None
            }
        } else if a == 2 {
            if sc >= 1 {
                Some(self.rc_to_state(sr, sc - 1))
            } else {
                None
            }
        } else {
            if sc + 1 < self.cols {
                Some(self.rc_to_state(sr, sc + 1))
            } else {
                None
            }
        }
    }

    /// Where action `a` takes state `s`.
    fn target_exec(&self, s: usize, a: usize) -> (t: usize)
        requires
            self.fits(),
            s < self.num_states(),
            a < 4,
        ensures
            t == self.target(s as int, a as int),
            t < self.num_states(),
    {
        if vec_contains(&self.obstacles, s) || vec_contains(&self.goal_states, s) {
            return s;
        }
        match self.step_exec(s, a) {
            Some(ns) => {
                if vec_contains(&self.obstacles, ns) {
                    s
                } else {
                    ns
                }
            },
            None => s,
        }
    }

    /// Some direction `b < j` links `k` to `t`.
    spec fn linked_before(&self, k: int, j: int, t: int) -> bool {
        ||| (j > 0 && self.link(k, 0) == Some(t))
        ||| (j > 1 && self.link(k, 1) == Some(t))
        ||| (j > 2 && self.link(k, 2) == Some(t))
        ||| (j > 3 && self.link(k, 3) == Some(t))
    }

    /// The list that `adjacency` holds for `x` once the states before `k` and the
    /// first `j` directions of `k` are linked.
    spec fn adjacency_during(&self, x: int, k: int, j: int) -> Seq<usize> {
        if x < k {
            self.neighbors(x)
        } else if x == k {
            self.neighbors_where(k, |t: int| t < k || self.linked_before(k, j, t))
        } else {
            self.neighbors_where(x, |t: int| t < k || (t == k && self.linked_before(k, j, x)))
        }
    }

    /// Links free state `s` to its neighbor in direction `a`, in both lists, unless
    /// the edge is already recorded.
    fn link_direction(&self, adj: &mut Vec<Vec<usize>>, s: usize, a: usize)
        requires
            self.fits(),
            s < self.num_states(),
            !self.is_obstacle(s as int),
            a < 4,
            old(adj)@.len() == self.num_states(),
            forall|x: int|
                0 <= x < self.num_states() ==> (#[trigger] old(adj)@[x])@ == self.adjacency_during(
                    x,
                    s as int,
                    a as int,
                ),
        ensures
            final(adj)@.len() == self.num_states(),
            forall|x: int|
                0 <= x < self.num_states() ==> (#[trigger] final(adj)@[x])@ == self.adjacency_during(
                    x,
                    s as int,
                    a + 1,
                ),
    {
        let ghost n = self.num_states();
        let ghost k = s as int;
        let ghost j = a as int;
        match self.step_exec(s, a) {
            Some(ns) => {
                let ghost t = ns as int;
                if !vec_contains(&self.obstacles, ns) {
                    assert(self.link(k, j) == Some(t));
                    proof {
                        lemma_direction_back(*self, k, j, t);
                        if t > k {
                            lemma_direction_push_self(*self, k, j, t);
                        }
                    }
                    if ns != s && !vec_contains(&adj[s], ns) {
                        proof {
                            lemma_direction_push_other(*self, k, j, t);
                        }
                        adj[s].push(ns);
                        if !vec_contains(&adj[ns], s) {
                            adj[ns].push(s);
                        }
                        assert forall|x: int| 0 <= x < n implies (#[trigger] adj@[x])@
                            == self.adjacency_during(x, k, j + 1) by {
                            if x != k && x != t {
                                lemma_direction_unchanged(*self, k, j, x);
                            }
                        }
                        return;
                    }
                }
            },
            None => {},
        }
        assert forall|x: int| 0 <= x < n implies (#[trigger] adj@[x])@ == self.adjacency_during(
            x,
            k,
            j + 1,
        ) by {
            lemma_direction_unchanged(*self, k, j, x);
        }
    }

}

impl MDP for GridWorldMDP {
    open spec fn is_valid(&self) -> bool {
        self.fits()
    }

    open spec fn has_rewards(&self) -> bool {
        self.well_formed()
    }

    open spec fn spec_n_states(&self) -> nat {
        self.num_states() as nat
    }

    open spec fn spec_n_actions(&self) -> nat {
        4
    }

    open spec fn spec_adjacency(&self) -> Seq<Seq<usize>> {
        Seq::new(self.num_states() as nat, |s: int| self.neighbors(s))
    }

    /// The number of states.
    fn n_states(&self) -> (n: usize)
        ensures
            n == self.num_states(),
    {
        self.rows * self.cols
    }

    /// The number of actions: up, down, left, right.
    fn n_actions(&self) -> (k: usize)
        ensures
            k == 4,
    {
        4
    }

    /// One deterministic 0/1 transition matrix per action, in the order of
    /// `actions()`.
    fn transition_matrices(&self) -> (ps: Vec<IntMatrix>)
        ensures
            ps@.len() == 4,
            forall|a: int|
                0 <= a < 4 ==> {
                    &&& int_matrix_ncols(#[trigger] ps@[a]) == self.num_states()
                    &&& is_table(
                        int_matrix_cells(ps@[a]),
                        self.num_states() as nat,
                        self.num_states() as nat,
                        |s: int, t: int| self.transition_entry(a, s, t),
                    )
                },
    {
        let n = self.n_states();
        let mut result: Vec<IntMatrix> = Vec::new();
        let mut a: usize = 0;
        while a < 4
            invariant
                self.fits(),
                fits_in_memory(n as int, n as int),
                n == self.num_states(),
                a <= 4,
                result@.len() == a,
                forall|b: int|
                    0 <= b < a ==> {
                        &&& int_matrix_ncols(#[trigger] result@[b]) == n
                        &&& is_table(
                            int_matrix_cells(result@[b]),
                            n as nat,
                            n as nat,
                            |s: int, t: int| self.transition_entry(b, s, t),
                        )
                    },
            decreases 4 - a,
        {
            let mut p = IntMatrix::zeros(n, n);
            let mut s: usize = 0;
            while s < n
                invariant
                    self.fits(),
                    n == self.num_states(),
                    a < 4,
                    s <= n,
                    int_matrix_ncols(p) == n,
                    is_table(
                        int_matrix_cells(p),
                        n as nat,
                        n as nat,
                        |i: int, t: int|
                            if i < s {
                                self.transition_entry(a as int, i, t)
                            } else {
                                0i64
                            },
                    ),
                decreases n - s,
            {
                let t = self.target_exec(s, a);
                p.set(s, t, 1);
                s = s + 1;
            }
            result.push(p);
            a = a + 1;
        }
        result
    }

    /// The reward matrix: `R[s][a]` is 1 for every goal state `s`, 0 otherwise.
    fn rewards(&self) -> (r: IntMatrix)
        ensures
            int_matrix_ncols(r) == 4,
            is_table(
                int_matrix_cells(r),
                self.num_states() as nat,
                4,
                |s: int, a: int| self.reward_entry(s, a),
            ),
    {
        let n = self.n_states();
        let na = self.n_actions();
        let mut r = IntMatrix::zeros(n, na);
        let mut k: usize = 0;
        while k < self.goal_states.len()
            invariant
                self.well_formed(),
                n == self.num_states(),
                na == 4,
                k <= self.goal_states@.len(),
                int_matrix_ncols(r) == 4,
                is_table(
                    int_matrix_cells(r),
                    n as nat,
                    4,
                    |s: int, a: int|
                        if self.goal_states@.take(k as int).contains(s as usize) {
                            1i64
                        } else {
                            0i64
                        },
                ),
            decreases self.goal_states@.len() - k,
        {
            let g = self.goal_states[k];
            let mut a: usize = 0;
            while a < na
                invariant
                    self.well_formed(),
                    n == self.num_states(),
                    na == 4,
                    k < self.goal_states@.len(),
                    g == self.goal_states@[k as int],
                    g < n,
                    a <= 4,
                    int_matrix_ncols(r) == 4,
                    is_table(
                        int_matrix_cells(r),
                        n as nat,
                        4,
                        |s: int, b: int|
                            if self.goal_states@.take(k as int).contains(s as usize) || (s == g
                                && b < a) {
                                1i64
                            } else {
                                0i64
                            },
                    ),
                decreases 4 - a,
            {
                r.set(g, a, 1);
                a = a + 1;
            }
            proof {
                assert(self.goal_states@.take(k + 1) =~= self.goal_states@.take(k as int).push(g));
                assert forall|s: int| 0 <= s < n implies
                    #[trigger] self.goal_states@.take(k + 1).contains(s as usize)
                    == (self.goal_states@.take(k as int).contains(s as usize) || s == g) by {
                    if s == g {
                        assert(self.goal_states@.take(k + 1)[k as int] == g);
                    }
                }
            }
            k = k + 1;
        }
        assert(self.goal_states@.take(self.goal_states@.len() as int) =~= self.goal_states@);
        r
    }

    /// The state graph: two free cells are adjacent when they are next to each
    /// other on the grid. Each list holds the free neighbors in the order up, left,
    /// down, right; an obstacle's list is empty.
    fn adjacency(&self) -> (adj: Vec<Vec<usize>>)
        ensures
            adj@.len() == self.num_states(),
            forall|s: int| 0 <= s < self.num_states() ==> (#[trigger] adj@[s])@ == self.neighbors(s),
    {
        let n = self.n_states();
        let mut adj: Vec<Vec<usize>> = Vec::new();
        let mut i: usize = 0;
        while i < n
            invariant
                i <= n,
                adj@.len() == i,
                forall|x: int| 0 <= x < i ==> (#[trigger] adj@[x])@ == Seq::<usize>::empty(),
            decreases n - i,
        {
            adj.push(Vec::new());
            i = i + 1;
        }
        assert forall|x: int| 0 <= x < n implies (#[trigger] adj@[x])@ == self.adjacency_during(x, 0, 0) by {
            assert(self.adjacency_during(x, 0, 0) =~= Seq::<usize>::empty());
        }
        let mut s: usize = 0;
        while s < n
            invariant
                self.fits(),
                n == self.num_states(),
                s <= n,
                adj@.len() == n,
                forall|x: int|
                    0 <= x < n ==> (#[trigger] adj@[x])@ == self.adjacency_during(x, s as int, 0),
            decreases n - s,
        {
            if vec_contains(&self.obstacles, s) {
                assert forall|x: int| 0 <= x < n implies (#[trigger] adj@[x])@
                    == self.adjacency_during(x, s + 1, 0) by {
                    lemma_next_state(*self, s as int, x);
                }
            } else {
                let mut a: usize = 0;
                while a < 4
                    invariant
                        self.fits(),
                        n == self.num_states(),
                        s < n,
                        !self.is_obstacle(s as int),
                        a <= 4,
                        adj@.len() == n,
                        forall|x: int|
                            0 <= x < n ==> (#[trigger] adj@[x])@ == self.adjacency_during(
                                x,
                                s as int,
                                a as int,
                            ),
                    decreases 4 - a,
                {
                    self.link_direction(&mut adj, s, a);
                    a = a + 1;
                }
                assert forall|x: int| 0 <= x < n implies (#[trigger] adj@[x])@
                    == self.adjacency_during(x, s + 1, 0) by {
                    lemma_next_state(*self, s as int, x);
                }
            }
            s = s + 1;
        }
        assert forall|x: int| 0 <= x < n implies (#[trigger] adj@[x])@ == self.neighbors(x) by {
            assert(self.adjacency_during(x, n as int, 0) == self.neighbors(x));
        }
        assert(adj@.map_values(|v: Vec<usize>| v@) =~= self.spec_adjacency());
        proof {
            lemma_grid_graph_undirected(*self);
        }
        adj
    }

    /// The name of this MDP family.
    fn name(&self) -> (s: &'static str)
        ensures
            s@ == "grid_world"@,
    {
        "grid_world"
    }
}

/// The four moves from a state, and the move back from where each lands.
proof fn lemma_steps(g: GridWorldMDP, s: int)
    requires
        g.fits(),
        0 <= s < g.num_states(),
    ensures
        g.step(s, 0) matches Some(t) ==> t == s - g.cols && 0 <= t && g.step(t, 1) == Some(s),
        g.step(s, 1) matches Some(t) ==> t == s + g.cols && t < g.num_states() && g.step(t, 0) == Some(s),
        g.step(s, 2) matches Some(t) ==> t == s - 1 && 0 <= t && g.cols > 1 && g.step(t, 3) == Some(s),
        g.step(s, 3) matches Some(t) ==> t == s + 1 && t < g.num_states() && g.cols > 1 && g.step(t, 2)
            == Some(s),
{
    let rows = g.rows as int;
    let cols = g.cols as int;
    lemma_rc_bounds(rows, cols, s);
    let r = s / cols;
    let c = s % cols;
    if r >= 1 {
        let t = (r - 1) * cols + c;
        assert(t == s - cols) by (nonlinear_arith)
            requires
                t == (r - 1) * cols + c,
                s == r * cols + c,
        ;
        lemma_fundamental_div_mod_converse(t, cols, r - 1, c);
        lemma_cell_bound(rows, cols, r - 1, c);
    }
    if r + 1 < rows {
        let t = (r + 1) * cols + c;
        assert(t == s + cols) by (nonlinear_arith)
            requires
                t == (r + 1) * cols + c,
                s == r * cols + c,
        ;
        lemma_fundamental_div_mod_converse(t, cols, r + 1, c);
        lemma_cell_bound(rows, cols, r + 1, c);
    }
    if c >= 1 {
        let t = r * cols + (c - 1);
        lemma_fundamental_div_mod_converse(t, cols, r, c - 1);
        lemma_cell_bound(rows, cols, r, c - 1);
    }
    if c + 1 < cols {
        let t = r * cols + (c + 1);
        lemma_fundamental_div_mod_converse(t, cols, r, c + 1);
        lemma_cell_bound(rows, cols, r, c + 1);
    }
}

/// A state appears in `neighbors_where(s, keep)` exactly when some direction
/// links `s` to it and `keep` holds of it.
proof fn lemma_neighbors_where_member(g: GridWorldMDP, s: int, keep: spec_fn(int) -> bool, t: int)
    requires
        g.fits(),
        0 <= s < g.num_states(),
        0 <= t < g.num_states(),
    ensures
        g.neighbors_where(s, keep).contains(t as usize) <==> (keep(t) && (g.link(s, 0) == Some(t)
            || g.link(s, 1) == Some(t) || g.link(s, 2) == Some(t) || g.link(s, 3) == Some(t))),
{
    lemma_steps(g, s);
    let l0 = g.link_where(s, 0, keep);
    let l2 = g.link_where(s, 2, keep);
    let l1 = g.link_where(s, 1, keep);
    let l3 = g.link_where(s, 3, keep);
    let all = g.neighbors_where(s, keep);
    assert(all == l0 + l2 + l1 + l3);
    if keep(t) && (g.link(s, 0) == Some(t) || g.link(s, 1) == Some(t) || g.link(s, 2) == Some(t)
        || g.link(s, 3) == Some(t)) {
        if g.link(s, 0) == Some(t) {
            assert(all[0] == t as usize);
        } else if g.link(s, 2) == Some(t) {
            assert(all[l0.len() as int] == t as usize);
        } else if g.link(s, 1) == Some(t) {
            assert(all[(l0.len() + l2.len()) as int] == t as usize);
        } else {
            assert(all[(l0.len() + l2.len() + l1.len()) as int] == t as usize);
        }
    }
    if all.contains(t as usize) {
        let i = choose|i: int| 0 <= i < all.len() && all[i] == t as usize;
        if i < l0.len() {
        } else if i < l0.len() + l2.len() {
        } else if i < l0.len() + l2.len() + l1.len() {
        } else {
        }
    }
}

/// Two filters that agree on every neighbor of `x` select the same list.
proof fn lemma_neighbors_where_ext(g: GridWorldMDP, x: int, p: spec_fn(int) -> bool, q: spec_fn(int) -> bool)
    requires
        forall|a: int, u: int| 0 <= a < 4 && g.link(x, a) == Some(u) ==> p(u) == q(u),
    ensures
        g.neighbors_where(x, p) == g.neighbors_where(x, q),
{
    assert(g.link_where(x, 0, p) == g.link_where(x, 0, q));
    assert(g.link_where(x, 1, p) == g.link_where(x, 1, q));
    assert(g.link_where(x, 2, p) == g.link_where(x, 2, q));
    assert(g.link_where(x, 3, p) == g.link_where(x, 3, q));
}

/// An edge between two free states, seen from either end.
proof fn lemma_link_symmetric(g: GridWorldMDP, x: int, a: int, t: int)
    requires
        g.fits(),
        0 <= x < g.num_states(),
        0 <= a < 4,
        g.link(x, a) == Some(t),
    ensures
        0 <= t < g.num_states(),
        a == 0 ==> t == x - g.cols && g.link(t, 1) == Some(x),
        a == 1 ==> t == x + g.cols && g.link(t, 0) == Some(x),
        a == 2 ==> t == x - 1 && g.cols > 1 && g.link(t, 3) == Some(x),
        a == 3 ==> t == x + 1 && g.cols > 1 && g.link(t, 2) == Some(x),
{
    lemma_steps(g, x);
    lemma_steps(g, t);
}

/// Directions that reach no new state leave every list as it was.
proof fn lemma_direction_unchanged(g: GridWorldMDP, k: int, a: int, x: int)
    requires
        g.fits(),
        0 <= k < g.num_states(),
        0 <= x < g.num_states(),
        0 <= a < 4,
        match g.link(k, a) {
            Some(t) => t < k || (x != k && x != t),
            None => true,
        },
    ensures
        g.adjacency_during(x, k, a + 1) == g.adjacency_during(x, k, a),
{
    if x == k {
        lemma_neighbors_where_ext(
            g,
            k,
            |u: int| u < k || g.linked_before(k, a + 1, u),
            |u: int| u < k || g.linked_before(k, a, u),
        );
    } else if x > k {
        lemma_neighbors_where_ext(
            g,
            x,
            |u: int| u < k || (u == k && g.linked_before(k, a + 1, x)),
            |u: int| u < k || (u == k && g.linked_before(k, a, x)),
        );
    }
}

/// Linking `k` forward to a later state `t` appends `t` to the list of `k`,
/// which did not hold it.
proof fn lemma_direction_push_self(g: GridWorldMDP, k: int, a: int, t: int)
    requires
        g.fits(),
        0 <= k < g.num_states(),
        0 <= a < 4,
        g.link(k, a) == Some(t),
        t > k,
    ensures
        !g.adjacency_during(k, k, a).contains(t as usize),
        g.adjacency_during(k, k, a + 1) == g.adjacency_during(k, k, a).push(t as usize),
{
    lemma_steps(g, k);
    lemma_link_symmetric(g, k, a, t);
    let p = |u: int| u < k || g.linked_before(k, a, u);
    let q = |u: int| u < k || g.linked_before(k, a + 1, u);
    lemma_neighbors_where_member(g, k, p, t);
    assert(g.link_where(k, 0, q) == g.link_where(k, 0, p));
    assert(g.link_where(k, 2, q) == g.link_where(k, 2, p));
    if a == 1 {
        assert(g.link_where(k, 1, p) == Seq::<usize>::empty());
        assert(g.link_where(k, 1, q) == seq![t as usize]);
        assert(g.link_where(k, 3, q) == Seq::<usize>::empty());
        assert(g.link_where(k, 3, p) == Seq::<usize>::empty());
    } else {
        assert(a == 3);
        assert(g.link_where(k, 1, q) == g.link_where(k, 1, p));
        assert(g.link_where(k, 3, p) == Seq::<usize>::empty());
        assert(g.link_where(k, 3, q) == seq![t as usize]);
    }
    assert(g.neighbors_where(k, q) =~= g.neighbors_where(k, p).push(t as usize));
}

/// Linking `k` forward to a later state `t` appends `k` to the list of `t`,
/// which did not hold it.
proof fn lemma_direction_push_other(g: GridWorldMDP, k: int, a: int, t: int)
    requires
        g.fits(),
        0 <= k < g.num_states(),
        0 <= a < 4,
        g.link(k, a) == Some(t),
        t > k,
    ensures
        !g.adjacency_during(t, k, a).contains(k as usize),
        g.adjacency_during(t, k, a + 1) == g.adjacency_during(t, k, a).push(k as usize),
{
    lemma_steps(g, k);
    lemma_link_symmetric(g, k, a, t);
    lemma_steps(g, t);
    let p = |u: int| u < k || (u == k && g.linked_before(k, a, t));
    let q = |u: int| u < k || (u == k && g.linked_before(k, a + 1, t));
    lemma_neighbors_where_member(g, t, p, k);
    assert(!g.linked_before(k, a, t));
    assert(g.linked_before(k, a + 1, t));
    assert(g.link_where(t, 1, q) == Seq::<usize>::empty());
    assert(g.link_where(t, 1, p) == Seq::<usize>::empty());
    assert(g.link_where(t, 3, q) == Seq::<usize>::empty());
    assert(g.link_where(t, 3, p) == Seq::<usize>::empty());
    if a == 1 {
        assert(g.link_where(t, 0, p) == Seq::<usize>::empty());
        assert(g.link_where(t, 0, q) == seq![k as usize]);
        assert(g.link_where(t, 2, q) == Seq::<usize>::empty());
        assert(g.link_where(t, 2, p) == Seq::<usize>::empty());
    } else {
        assert(a == 3);
        assert(g.link_where(t, 0, q) == g.link_where(t, 0, p));
        assert(g.link_where(t, 2, p) == Seq::<usize>::empty());
        assert(g.link_where(t, 2, q) == seq![k as usize]);
    }
    assert(g.neighbors_where(t, q) =~= g.neighbors_where(t, p).push(k as usize));
}

/// Linking `k` back to an earlier state: that state is already in the list of `k`.
proof fn lemma_direction_back(g: GridWorldMDP, k: int, a: int, t: int)
    requires
        g.fits(),
        0 <= k < g.num_states(),
        0 <= a < 4,
        g.link(k, a) == Some(t),
    ensures
        t != k,
        t < k <==> (a == 0 || a == 2),
        t < k ==> g.adjacency_during(k, k, a).contains(t as usize),
{
    lemma_link_symmetric(g, k, a, t);
    lemma_neighbors_where_member(g, k, |u: int| u < k || g.linked_before(k, a, u), t);
}

/// Once every direction of `k` is linked, the list of `k` is complete.
proof fn lemma_next_state_self(g: GridWorldMDP, k: int)
    requires
        g.fits(),
        0 <= k < g.num_states(),
    ensures
        g.is_obstacle(k) ==> g.adjacency_during(k, k, 0) == g.adjacency_during(k, k + 1, 0),
        !g.is_obstacle(k) ==> g.adjacency_during(k, k, 4) == g.adjacency_during(k, k + 1, 0),
{
    if g.is_obstacle(k) {
        lemma_neighbors_where_ext(g, k, |u: int| u < k || g.linked_before(k, 0, u), |u: int| true);
    } else {
        lemma_neighbors_where_ext(g, k, |u: int| u < k || g.linked_before(k, 4, u), |u: int| true);
    }
}

/// A state that a later state `x` links to is free and links back to `x`.
proof fn lemma_link_back(g: GridWorldMDP, x: int, a: int, k: int)
    requires
        g.fits(),
        0 <= x < g.num_states(),
        0 <= a < 4,
        g.link(x, a) == Some(k),
    ensures
        !g.is_obstacle(k),
        g.linked_before(k, 4, x),
{
    lemma_link_symmetric(g, x, a, k);
}

/// Once every direction of `k` is linked, the list of a later state `x` holds
/// exactly its neighbors up to `k`.
#[verifier::spinoff_prover]
proof fn lemma_next_state_later(g: GridWorldMDP, k: int, x: int)
    requires
        g.fits(),
        0 <= k < x < g.num_states(),
    ensures
        g.is_obstacle(k) ==> g.adjacency_during(x, k, 0) == g.adjacency_during(x, k + 1, 0),
        !g.is_obstacle(k) ==> g.adjacency_during(x, k, 4) == g.adjacency_during(x, k + 1, 0),
{
    let j = if g.is_obstacle(k) {
        0int
    } else {
        4int
    };
    let p = |u: int| u < k || (u == k && g.linked_before(k, j, x));
    let q = |u: int| u < k + 1 || (u == k + 1 && g.linked_before(k + 1, 0, x));
    assert forall|a: int, u: int| 0 <= a < 4 && g.link(x, a) == Some(u) implies p(u) == q(u) by {
        if u == k {
            lemma_link_back(g, x, a, k);
        }
    }
    lemma_neighbors_where_ext(g, x, p, q);
    assert(g.adjacency_during(x, k, j) == g.neighbors_where(x, p));
    assert(g.adjacency_during(x, k + 1, 0) == g.neighbors_where(x, q));
}

/// Once every direction of `k` is linked, the lists are those of the next state.
proof fn lemma_next_state(g: GridWorldMDP, k: int, x: int)
    requires
        g.fits(),
        0 <= k < g.num_states(),
        0 <= x < g.num_states(),
    ensures
        g.is_obstacle(k) ==> g.adjacency_during(x, k, 0) == g.adjacency_during(x, k + 1, 0),
        !g.is_obstacle(k) ==> g.adjacency_during(x, k, 4) == g.adjacency_during(x, k + 1, 0),
{
    if x == k {
        lemma_next_state_self(g, k);
    } else if x > k {
        lemma_next_state_later(g, k, x);
    }
}

/// Row and column of a state lie on the grid.
proof fn lemma_rc_bounds(rows: int, cols: int, s: int)
    requires
        0 <= s < rows * cols,
        rows >= 0,
        cols >= 0,
    ensures
        cols > 0,
        0 <= s / cols < rows,
        0 <= s % cols < cols,
        s == (s / cols) * cols + s % cols,
{
    if cols == 0 {
        assert(rows * cols == 0) by (nonlinear_arith)
            requires
                cols == 0,
        ;
    }
    lemma_fundamental_div_mod(s, cols);
    assert(s / cols >= 0) by (nonlinear_arith)
        requires
            s >= 0,
            cols > 0,
    ;
    assert(s / cols < rows) by (nonlinear_arith)
        requires
            s < rows * cols,
            cols > 0,
            s == cols * (s / cols) + s % cols,
            s % cols >= 0,
    ;
    assert(s == (s / cols) * cols + s % cols) by (nonlinear_arith)
        requires
            s == cols * (s / cols) + s % cols,
    ;
}

/// A cell on the grid is a state.
proof fn lemma_cell_bound(rows: int, cols: int, r: int, c: int)
    requires
        0 <= r < rows,
        0 <= c < cols,
    ensures
        0 <= r * cols + c < rows * cols,
{
    assert(0 <= r * cols + c < rows * cols) by (nonlinear_arith)
        requires
            0 <= r < rows,
            0 <= c < cols,
    ;
}

/// Chain MDP: states `0, 1, ..., length - 1` on a line, with a move left and a
/// move right.
pub struct ChainMDP {
    pub length: usize,
}

impl ChainMDP {
    /// A chain of `length` states.
    pub fn new(length: usize) -> (c: ChainMDP)
        ensures
            c.length == length,
    {
        ChainMDP { length }
    }

    /// Where action `a` takes state `s`: action 0 moves left, action 1 moves right,
    /// and the ends of the chain hold their state.
    pub open spec fn target(&self, s: int, a: int) -> int {
        if a == 0 {
            if s == 0 {
                s
            } else {
                s - 1
            }
        } else {
            if s == self.length - 1 {
                s
            } else {
                s + 1
            }
        }
    }

    /// Entry `(s, t)` of the 0/1 transition matrix of action `a`.
    pub open spec fn transition_entry(&self, a: int, s: int, t: int) -> i64 {
        if t == self.target(s, a) {
            1
        } else {
            0
        }
    }

    /// The sum of row `s` of the transition matrix of action `a`.
    pub open spec fn transition_row_sum(&self, a: int, s: int) -> int {
        sum_to(|t: int| self.transition_entry(a, s, t) as int, self.length as int)
    }

    /// Entry `(s, a)` of the reward matrix: 1 in the last state, 0 elsewhere.
    pub open spec fn reward_entry(&self, s: int, a: int) -> i64 {
        if s == self.length - 1 {
            1
        } else {
            0
        }
    }

    /// The adjacency list of `s`: its left neighbor, then its right neighbor.
    pub open spec fn neighbors(&self, s: int) -> Seq<usize> {
        (if s > 0 {
            seq![(s - 1) as usize]
        } else {
            Seq::empty()
        }) + (if s < self.length - 1 {
            seq![(s + 1) as usize]
        } else {
            Seq::empty()
        })
    }

    /// The 0/1 transition matrix of action `a`.
    fn transition_matrix(&self, a: usize) -> (p: IntMatrix)
        requires
            a < 2,
            fits_in_memory(self.length as int, self.length as int),
        ensures
            int_matrix_ncols(p) == self.length,
            is_table(
                int_matrix_cells(p),
                self.length as nat,
                self.length as nat,
                |s: int, t: int| self.transition_entry(a as int, s, t),
            ),
    {
        let n = self.length;
        let mut p = IntMatrix::zeros(n, n);
        let mut s: usize = 0;
        while s < n
            invariant
                n == self.length,
                a < 2,
                s <= n,
                int_matrix_ncols(p) == n,
                is_table(
                    int_matrix_cells(p),
                    n as nat,
                    n as nat,
                    |i: int, t: int|
                        if i < s {
                            self.transition_entry(a as int, i, t)
                        } else {
                            0i64
                        },
                ),
            decreases n - s,
        {
            if a == 0 {
                if s == 0 {
                    p.set(s, s, 1);
                } else {
                    p.set(s, s - 1, 1);
                }
            } else {
                if s == n - 1 {
                    p.set(s, s, 1);
                } else {
                    p.set(s, s + 1, 1);
                }
            }
            s = s + 1;
        }
        p
    }
}

impl MDP for ChainMDP {
    open spec fn is_valid(&self) -> bool {
        true
    }

    open spec fn has_rewards(&self) -> bool {
        self.length >= 1
    }

    open spec fn spec_n_states(&self) -> nat {
        self.length as nat
    }

    open spec fn spec_n_actions(&self) -> nat {
        2
    }

    open spec fn spec_adjacency(&self) -> Seq<Seq<usize>> {
        Seq::new(self.length as nat, |s: int| self.neighbors(s))
    }

    /// The number of states.
    fn n_states(&self) -> (n: usize)
        ensures
            n == self.length,
    {
        self.length
    }

    /// The number of actions: left, right.
    fn n_actions(&self) -> (k: usize)
        ensures
            k == 2,
    {
        2
    }

    /// The transition matrices of moving left and moving right.
    fn transition_matrices(&self) -> (ps: Vec<IntMatrix>)
        ensures
            ps@.len() == 2,
            forall|a: int|
                0 <= a < 2 ==> {
                    &&& int_matrix_ncols(#[trigger] ps@[a]) == self.length
                    &&& is_table(
                        int_matrix_cells(ps@[a]),
                        self.length as nat,
                        self.length as nat,
                        |s: int, t: int| self.transition_entry(a, s, t),
                    )
                },
    {
        let p_left = self.transition_matrix(0);
        let p_right = self.transition_matrix(1);
        let mut ps: Vec<IntMatrix> = Vec::new();
        ps.push(p_left);
        ps.push(p_right);
        ps
    }

    /// The reward matrix: 1 for both actions in the last state.
    fn rewards(&self) -> (r: IntMatrix)
        ensures
            int_matrix_ncols(r) == 2,
            is_table(int_matrix_cells(r), self.length as nat, 2, |s: int, a: int| self.reward_entry(s, a)),
    {
        let n = self.length;
        let mut r = IntMatrix::zeros(n, 2);
        r.set(n - 1, 0, 1);
        r.set(n - 1, 1, 1);
        r
    }

    /// The chain graph: each state is adjacent to its left and right neighbors.
    fn adjacency(&self) -> (adj: Vec<Vec<usize>>)
        ensures
            adj@.len() == self.length,
            forall|s: int| 0 <= s < self.length ==> (#[trigger] adj@[s])@ == self.neighbors(s),
    {
        let n = self.length;
        let mut adj: Vec<Vec<usize>> = Vec::new();
        let mut s: usize = 0;
        while s < n
            invariant
                n == self.length,
                s <= n,
                adj@.len() == s,
                forall|x: int| 0 <= x < s ==> (#[trigger] adj@[x])@ == self.neighbors(x),
            decreases n - s,
        {
            let mut row: Vec<usize> = Vec::new();
            if s > 0 {
                row.push(s - 1);
            }
            if s < n - 1 {
                row.push(s + 1);
            }
            assert(row@ =~= self.neighbors(s as int));
            adj.push(row);
            s = s + 1;
        }
        assert(adj@.map_values(|v: Vec<usize>| v@) =~= self.spec_adjacency());
        proof {
            lemma_chain_graph_undirected(*self);
        }
        adj
    }

    /// The name of this MDP family.
    fn name(&self) -> (s: &'static str)
        ensures
            s@ == "chain"@,
    {
        "chain"
    }
}

/// The state graph of a chain is a simple undirected path: lists name states of
/// the chain, never the state itself and never one state twice, and `t` is
/// listed for `s` exactly when `s` is listed for `t`.
pub proof fn lemma_chain_graph_undirected(c: ChainMDP)
    ensures
        lists_within(c.length as int, c.spec_adjacency()),
        lists_distinct(c.spec_adjacency()),
        lists_symmetric(c.length as int, c.spec_adjacency()),
        forall|s: int|
            0 <= s < c.length ==> !(#[trigger] c.spec_adjacency()[s]).contains(s as usize),
{
    let n = c.length as int;
    let adj = c.spec_adjacency();
    assert forall|s: int| 0 <= s < n implies {
        &&& (#[trigger] adj[s]).len() <= 2
        &&& adj[s].no_duplicates()
        &&& !adj[s].contains(s as usize)
        &&& forall|k: int| 0 <= k < adj[s].len() ==> #[trigger] adj[s][k] < n
        &&& forall|t: int| 0 <= t < n ==> (#[trigger] adj[s].contains(t as usize) <==> (t == s - 1 || t == s + 1))
    } by {
        let l = c.neighbors(s);
        assert(adj[s] == l);
        assert forall|t: int| 0 <= t < n implies (#[trigger] l.contains(t as usize) <==> (t == s - 1 || t == s + 1)) by {
            if t == s - 1 {
                assert(l[0] == t as usize);
            }
            if t == s + 1 {
                assert(l[l.len() - 1] == t as usize);
            }
        }
    }
    assert forall|s: int, t: int| 0 <= s < n && 0 <= t < n implies #[trigger] adjacency_entry(adj, s, t)
        == adjacency_entry(adj, t, s) by {
        assert(adj[s].contains(t as usize) <==> (t == s - 1 || t == s + 1));
        assert(adj[t].contains(s as usize) <==> (s == t - 1 || s == t + 1));
    }
}

/// The supports of a stack of transition matrices, `[a][s][t]`.
pub open spec fn support_view(support: &Vec<Vec<Vec<bool>>>) -> Seq<Seq<Seq<bool>>> {
    support@.map_values(|m: Vec<Vec<bool>>| m@.map_values(|r: Vec<bool>| r@))
}

/// The states `t < m` other than `s` to which action `a` moves `s` with positive
/// probability, in increasing order.
pub open spec fn support_row(sup: Seq<Seq<Seq<bool>>>, a: int, s: int, m: int) -> Seq<usize>
    decreases m,
{
    if m <= 0 {
        Seq::empty()
    } else {
        support_row(sup, a, s, m - 1) + (if sup[a][s][m - 1] && m - 1 != s {
            seq![(m - 1) as usize]
        } else {
            Seq::empty()
        })
    }
}

/// The successors of `s` under the first `k` actions, action by action, each in
/// increasing order; a state may appear once per action.
pub open spec fn support_candidates(sup: Seq<Seq<Seq<bool>>>, n: int, s: int, k: int) -> Seq<usize>
    decreases k,
{
    if k <= 0 {
        Seq::empty()
    } else {
        support_candidates(sup, n, s, k - 1) + support_row(sup, k - 1, s, n)
    }
}

/// `l` with every repeat of an earlier element removed.
pub open spec fn first_occurrences(l: Seq<usize>) -> Seq<usize>
    decreases l.len(),
{
    if l.len() == 0 {
        Seq::empty()
    } else {
        let d = first_occurrences(l.drop_last());
        if d.contains(l.last()) {
            d
        } else {
            d.push(l.last())
        }
    }
}

/// The state graph of a stochastic MDP from the supports of its transition
/// matrices: `s` lists `t != s` when some action moves `s` to `t`, each such
/// state once, in order of first appearance scanning actions in order and
/// states in increasing order.
pub fn support_adjacency(n: usize, support: &Vec<Vec<Vec<bool>>>) -> (adj: Vec<Vec<usize>>)
    requires
        forall|a: int| 0 <= a < support@.len() ==> (#[trigger] support@[a])@.len() == n,
        forall|a: int, s: int|
            0 <= a < support@.len() && 0 <= s < n ==> (#[trigger] support@[a]@[s])@.len() == n,
    ensures
        adj@.len() == n,
        forall|s: int|
            0 <= s < n ==> (#[trigger] adj@[s])@ == first_occurrences(
                support_candidates(support_view(support), n as int, s, support@.len() as int),
            ),
{
    let ghost sup = support_view(support);
    let mut adj: Vec<Vec<usize>> = Vec::new();
    let mut i: usize = 0;
    while i < n
        invariant
            i <= n,
            adj@.len() == i,
            forall|x: int| 0 <= x < i ==> (#[trigger] adj@[x])@ == Seq::<usize>::empty(),
        decreases n - i,
    {
        adj.push(Vec::new());
        i = i + 1;
    }
    let mut a: usize = 0;
    while a < support.len()
        invariant
            sup == support_view(support),
            forall|b: int| 0 <= b < support@.len() ==> (#[trigger] support@[b])@.len() == n,
            forall|b: int, s: int|
                0 <= b < support@.len() && 0 <= s < n ==> (#[trigger] support@[b]@[s])@.len() == n,
            a <= support@.len(),
            adj@.len() == n,
            forall|x: int|
                0 <= x < n ==> (#[trigger] adj@[x])@ == first_occurrences(
                    support_candidates(sup, n as int, x, a as int),
                ),
        decreases support@.len() - a,
    {
        let mut s: usize = 0;
        while s < n
            invariant
                sup == support_view(support),
                forall|b: int| 0 <= b < support@.len() ==> (#[trigger] support@[b])@.len() == n,
                forall|b: int, x: int|
                    0 <= b < support@.len() && 0 <= x < n ==> (#[trigger] support@[b]@[x])@.len() == n,
                a < support@.len(),
                s <= n,
                adj@.len() == n,
                forall|x: int|
                    0 <= x < n ==> (#[trigger] adj@[x])@ == first_occurrences(
                        support_candidates(sup, n as int, x, if x < s { a + 1 } else { a as int }),
                    ),
            decreases n - s,
        {
            let mut t: usize = 0;
            while t < n
                invariant
                    sup == support_view(support),
                    forall|b: int| 0 <= b < support@.len() ==> (#[trigger] support@[b])@.len() == n,
                    forall|b: int, x: int|
                        0 <= b < support@.len() && 0 <= x < n ==> (#[trigger] support@[b]@[x])@.len()
                            == n,
                    a < support@.len(),
                    s < n,
                    t <= n,
                    adj@.len() == n,
                    adj@[s as int]@ == first_occurrences(
                        support_candidates(sup, n as int, s as int, a as int) + support_row(
                            sup,
                            a as int,
                            s as int,
                            t as int,
                        ),
                    ),
                    forall|x: int|
                        0 <= x < n && x != s ==> (#[trigger] adj@[x])@ == first_occurrences(
                            support_candidates(sup, n as int, x, if x < s { a + 1 } else { a as int }),
                        ),
                decreases n - t,
            {
                let ghost cands = support_candidates(sup, n as int, s as int, a as int) + support_row(
                    sup,
                    a as int,
                    s as int,
                    t as int,
                );
                let ghost next = support_candidates(sup, n as int, s as int, a as int) + support_row(
                    sup,
                    a as int,
                    s as int,
                    t + 1,
                );
                assert(support@[a as int]@[s as int]@[t as int] == sup[a as int][s as int][t as int]);
                if support[a][s][t] && s != t {
                    assert(next =~= cands.push(t));
                    assert(next.drop_last() =~= cands);
                    if !vec_contains(&adj[s], t) {
                        adj[s].push(t);
                    }
                } else {
                    assert(next =~= cands);
                }
                t = t + 1;
            }
            assert(support_candidates(sup, n as int, s as int, a + 1) == support_candidates(
                sup,
                n as int,
                s as int,
                a as int,
            ) + support_row(sup, a as int, s as int, n as int));
            s = s + 1;
        }
        a = a + 1;
    }
    adj
}

/// Removing repeats keeps exactly the elements of the list, each once.
pub proof fn lemma_first_occurrences(l: Seq<usize>)
    ensures
        first_occurrences(l).no_duplicates(),
        forall|v: usize| #[trigger] first_occurrences(l).contains(v) <==> l.contains(v),
    decreases l.len(),
{
    if l.len() > 0 {
        let rest = l.drop_last();
        let x = l.last();
        lemma_first_occurrences(rest);
        let d = first_occurrences(rest);
        assert(l =~= rest.push(x));
        if !d.contains(x) {
            assert(first_occurrences(l) == d.push(x));
            assert forall|i: int, j: int|
                0 <= i < d.push(x).len() && 0 <= j < d.push(x).len() && i != j implies d.push(x)[i]
                != d.push(x)[j] by {
                if i == d.len() {
                    assert(d.push(x)[j] == d[j]);
                } else if j == d.len() {
                    assert(d.push(x)[i] == d[i]);
                }
            }
        } else {
            assert(first_occurrences(l) == d);
        }
        assert forall|v: usize| #[trigger] first_occurrences(l).contains(v) <==> l.contains(v) by {
            if l.contains(v) && v != x {
                let k = choose|k: int| 0 <= k < l.len() && l[k] == v;
                assert(rest[k] == v);
                assert(d.contains(v));
                let i = choose|i: int| 0 <= i < d.len() && d[i] == v;
                assert(d.push(x)[i] == v);
            }
            if v == x {
                assert(l[l.len() - 1] == v);
                if !d.contains(x) {
                    assert(d.push(x)[d.len() as int] == v);
                }
            }
            if first_occurrences(l).contains(v) && v != x {
                let i = choose|i: int| 0 <= i < first_occurrences(l).len() && first_occurrences(l)[i] == v;
                if !d.contains(x) {
                    assert(d[i] == v);
                }
                assert(d.contains(v));
                assert(rest.contains(v));
                let k = choose|k: int| 0 <= k < rest.len() && rest[k] == v;
                assert(l[k] == v);
            }
        }
    }
}

/// A support row lists exactly the states below `m`, other than `s`, that action
/// `a` reaches from `s`.
proof fn lemma_support_row(sup: Seq<Seq<Seq<bool>>>, a: int, s: int, m: int)
    requires
        0 <= m <= usize::MAX,
    ensures
        forall|t: int|
            0 <= t <= usize::MAX ==> (#[trigger] support_row(sup, a, s, m).contains(t as usize) <==> (t < m && t != s
                && sup[a][s][t])),
        forall|k: int| 0 <= k < support_row(sup, a, s, m).len() ==> #[trigger] support_row(sup, a, s, m)[k] < m,
    decreases m,
{
    if m > 0 {
        lemma_support_row(sup, a, s, m - 1);
        let prev = support_row(sup, a, s, m - 1);
        let cur = support_row(sup, a, s, m);
        assert forall|t: int| 0 <= t <= usize::MAX implies (#[trigger] cur.contains(t as usize) <==> (t < m
            && t != s && sup[a][s][t])) by {
            if prev.contains(t as usize) {
                let k = choose|k: int| 0 <= k < prev.len() && prev[k] == t as usize;
                assert(cur[k] == t as usize);
            }
            if cur.contains(t as usize) {
                let k = choose|k: int| 0 <= k < cur.len() && cur[k] == t as usize;
                if k < prev.len() {
                    assert(prev[k] == t as usize);
                }
            }
            if t == m - 1 && t != s && sup[a][s][t] {
                assert(cur[cur.len() - 1] == t as usize);
            }
        }
    }
}

/// The state graph built from supports names only states below `n`, never the
/// state itself and never one state twice; `t` is listed for `s` exactly when
/// some action moves `s` to `t`.
pub proof fn lemma_support_adjacency_simple(sup: Seq<Seq<Seq<bool>>>, n: int, s: int, k: int)
    requires
        0 <= n <= usize::MAX,
        0 <= k,
    ensures
        first_occurrences(support_candidates(sup, n, s, k)).no_duplicates(),
        forall|t: int|
            0 <= t <= usize::MAX ==> (#[trigger] first_occurrences(support_candidates(sup, n, s, k)).contains(t as usize)
                <==> (t < n && t != s && exists|a: int| 0 <= a < k && #[trigger] sup[a][s][t])),
    decreases k,
{
    lemma_first_occurrences(support_candidates(sup, n, s, k));
    if k > 0 {
        lemma_support_adjacency_simple(sup, n, s, k - 1);
        lemma_first_occurrences(support_candidates(sup, n, s, k - 1));
        lemma_support_row(sup, k - 1, s, n);
        let prev = support_candidates(sup, n, s, k - 1);
        let row = support_row(sup, k - 1, s, n);
        let cur = support_candidates(sup, n, s, k);
        assert(cur == prev + row);
        assert forall|t: int| 0 <= t <= usize::MAX implies (#[trigger] first_occurrences(cur).contains(t as usize) <==> (t < n
            && t != s && exists|a: int| 0 <= a < k && #[trigger] sup[a][s][t])) by {
            assert(first_occurrences(cur).contains(t as usize) <==> cur.contains(t as usize));
            assert(first_occurrences(prev).contains(t as usize) <==> prev.contains(t as usize));
            if cur.contains(t as usize) {
                let i = choose|i: int| 0 <= i < cur.len() && cur[i] == t as usize;
                if i < prev.len() {
                    assert(prev[i] == t as usize);
                } else {
                    assert(row[i - prev.len()] == t as usize);
                }
            }
            if prev.contains(t as usize) {
                let i = choose|i: int| 0 <= i < prev.len() && prev[i] == t as usize;
                assert(cur[i] == t as usize);
            }
            if row.contains(t as usize) {
                let i = choose|i: int| 0 <= i < row.len() && row[i] == t as usize;
                assert(cur[prev.len() + i] == t as usize);
            }
            if t < n && t != s && exists|a: int| 0 <= a < k && #[trigger] sup[a][s][t] {
                let a = choose|a: int| 0 <= a < k && #[trigger] sup[a][s][t];
                if a == k - 1 {
                    assert(row.contains(t as usize));
                } else {
                    assert(prev.contains(t as usize));
                }
            }
        }
    }
}

/// Four lists of at most one element each, with distinct elements, concatenate
/// to a list without repeats.
proof fn lemma_concat_singletons(a: Seq<usize>, b: Seq<usize>, c: Seq<usize>, d: Seq<usize>)
    requires
        a.len() <= 1,
        b.len() <= 1,
        c.len() <= 1,
        d.len() <= 1,
        a.len() == 1 && b.len() == 1 ==> a[0] != b[0],
        a.len() == 1 && c.len() == 1 ==> a[0] != c[0],
        a.len() == 1 && d.len() == 1 ==> a[0] != d[0],
        b.len() == 1 && c.len() == 1 ==> b[0] != c[0],
        b.len() == 1 && d.len() == 1 ==> b[0] != d[0],
        c.len() == 1 && d.len() == 1 ==> c[0] != d[0],
    ensures
        (a + b + c + d).len() <= 4,
        (a + b + c + d).no_duplicates(),
{
    let l = a + b + c + d;
    let owner = |i: int|
        if i < a.len() {
            0int
        } else if i < a.len() + b.len() {
            1int
        } else if i < a.len() + b.len() + c.len() {
            2int
        } else {
            3int
        };
    assert forall|i: int, j: int| 0 <= i < l.len() && 0 <= j < l.len() && i != j implies l[i] != l[j] by {
        assert(owner(i) != owner(j));
        if owner(i) == 0 {
            assert(l[i] == a[0]);
        } else if owner(i) == 1 {
            assert(l[i] == b[0]);
        } else if owner(i) == 2 {
            assert(l[i] == c[0]);
        } else {
            assert(l[i] == d[0]);
        }
        if owner(j) == 0 {
            assert(l[j] == a[0]);
        } else if owner(j) == 1 {
            assert(l[j] == b[0]);
        } else if owner(j) == 2 {
            assert(l[j] == c[0]);
        } else {
            assert(l[j] == d[0]);
        }
    }
}

/// Each of the (at most four) neighbors of `x` is a distinct state.
#[verifier::spinoff_prover]
proof fn lemma_grid_neighbors_shape(g: GridWorldMDP, x: int)
    requires
        g.fits(),
        0 <= x < g.num_states(),
    ensures
        g.neighbors(x).len() <= 4,
        g.neighbors(x).no_duplicates(),
        forall|k: int| 0 <= k < g.neighbors(x).len() ==> #[trigger] g.neighbors(x)[k] < g.num_states()
            && g.neighbors(x)[k] != x,
        g.is_obstacle(x) ==> g.neighbors(x).len() == 0,
{
    lemma_steps(g, x);
    let l = g.neighbors(x);
    assert forall|k: int| 0 <= k < l.len() implies #[trigger] l[k] < g.num_states() && l[k] != x by {
        assert(l.contains(l[k]));
        lemma_neighbors_where_member(g, x, |t: int| true, l[k] as int);
    }
    let l0 = g.link_where(x, 0, |t: int| true);
    let l2 = g.link_where(x, 2, |t: int| true);
    let l1 = g.link_where(x, 1, |t: int| true);
    let l3 = g.link_where(x, 3, |t: int| true);
    lemma_concat_singletons(l0, l2, l1, l3);
}

/// The state graph of a grid world is a simple undirected graph: lists name
/// states of the grid, never the state itself and never one state twice, and
/// `t` is listed for `s` exactly when `s` is listed for `t`. Obstacles are
/// isolated.
pub proof fn lemma_grid_graph_undirected(g: GridWorldMDP)
    requires
        g.fits(),
    ensures
        lists_within(g.num_states(), g.spec_adjacency()),
        lists_distinct(g.spec_adjacency()),
        lists_symmetric(g.num_states(), g.spec_adjacency()),
        forall|s: int|
            0 <= s < g.num_states() ==> !(#[trigger] g.spec_adjacency()[s]).contains(s as usize),
        forall|s: int|
            0 <= s < g.num_states() && g.is_obstacle(s) ==> (#[trigger] g.spec_adjacency()[s]).len() == 0,
{
    let n = g.num_states();
    let adj = g.spec_adjacency();
    assert forall|s: int| 0 <= s < n implies {
        &&& (#[trigger] adj[s]).len() <= 4
        &&& adj[s].no_duplicates()
        &&& !adj[s].contains(s as usize)
        &&& forall|k: int| 0 <= k < adj[s].len() ==> #[trigger] adj[s][k] < n
        &&& g.is_obstacle(s) ==> adj[s].len() == 0
    } by {
        lemma_grid_neighbors_shape(g, s);
    }
    assert forall|s: int, t: int| 0 <= s < n && 0 <= t < n implies #[trigger] adjacency_entry(adj, s, t)
        == adjacency_entry(adj, t, s) by {
        lemma_neighbors_where_member(g, s, |u: int| true, t);
        lemma_neighbors_where_member(g, t, |u: int| true, s);
        if g.link(s, 0) == Some(t) || g.link(s, 1) == Some(t) || g.link(s, 2) == Some(t) || g.link(s, 3)
            == Some(t) {
            if g.link(s, 0) == Some(t) {
                lemma_link_symmetric(g, s, 0, t);
            } else if g.link(s, 1) == Some(t) {
                lemma_link_symmetric(g, s, 1, t);
            } else if g.link(s, 2) == Some(t) {
                lemma_link_symmetric(g, s, 2, t);
            } else {
                lemma_link_symmetric(g, s, 3, t);
            }
        }
        if g.link(t, 0) == Some(s) || g.link(t, 1) == Some(s) || g.link(t, 2) == Some(s) || g.link(t, 3)
            == Some(s) {
            if g.link(t, 0) == Some(s) {
                lemma_link_symmetric(g, t, 0, s);
            } else if g.link(t, 1) == Some(s) {
                lemma_link_symmetric(g, t, 1, s);
            } else if g.link(t, 2) == Some(s) {
                lemma_link_symmetric(g, t, 2, s);
            } else {
                lemma_link_symmetric(g, t, 3, s);
            }
        }
    }
}

/// `state_to_rc` and `rc_to_state` undo each other: every state is the cell at
/// its own row and column, and every cell of the grid has that row and column.
pub proof fn lemma_grid_rc_roundtrip(g: GridWorldMDP)
    requires
        g.fits(),
    ensures
        forall|s: int|
            0 <= s < g.num_states() ==> #[trigger] g.cell(g.row_of(s), g.col_of(s)) == s,
        forall|r: int, c: int|
            0 <= r < g.rows && 0 <= c < g.cols ==> g.row_of(#[trigger] g.cell(r, c)) == r && g.col_of(
                g.cell(r, c),
            ) == c,
{
    assert forall|s: int| 0 <= s < g.num_states() implies #[trigger] g.cell(g.row_of(s), g.col_of(s))
        == s by {
        lemma_rc_bounds(g.rows as int, g.cols as int, s);
    }
    assert forall|r: int, c: int| 0 <= r < g.rows && 0 <= c < g.cols implies g.row_of(
        #[trigger] g.cell(r, c),
    ) == r && g.col_of(g.cell(r, c)) == c by {
        lemma_fundamental_div_mod_converse(g.cell(r, c), g.cols as int, r, c);
    }
}

/// Every transition matrix of a grid world is stochastic: each row holds a single
/// 1, at a state of the grid, so it sums to 1.
pub proof fn lemma_grid_transitions_stochastic(g: GridWorldMDP)
    requires
        g.fits(),
    ensures
        forall|a: int, s: int|
            0 <= a < 4 && 0 <= s < g.num_states() ==> 0 <= #[trigger] g.target(s, a) < g.num_states(),
        forall|a: int, s: int|
            0 <= a < 4 && 0 <= s < g.num_states() ==> #[trigger] g.transition_row_sum(a, s) == 1,
{
    assert forall|a: int, s: int| 0 <= a < 4 && 0 <= s < g.num_states() implies 0 <= #[trigger] g.target(
        s,
        a,
    ) < g.num_states() by {
        lemma_steps(g, s);
    }
    assert forall|a: int, s: int| 0 <= a < 4 && 0 <= s < g.num_states() implies #[trigger] g.transition_row_sum(a, s) == 1 by {
        lemma_steps(g, s);
        lemma_sum_point(|t: int| g.transition_entry(a, s, t) as int, g.num_states(), g.target(s, a));
    }
}

/// Both transition matrices of a chain are stochastic: each row holds a single 1,
/// at a state of the chain, so it sums to 1.
pub proof fn lemma_chain_transitions_stochastic(c: ChainMDP)
    ensures
        forall|a: int, s: int|
            0 <= a < 2 && 0 <= s < c.length ==> 0 <= #[trigger] c.target(s, a) < c.length,
        forall|a: int, s: int|
            0 <= a < 2 && 0 <= s < c.length ==> #[trigger] c.transition_row_sum(a, s) == 1,
{
    assert forall|a: int, s: int| 0 <= a < 2 && 0 <= s < c.length implies #[trigger] c.transition_row_sum(a, s) == 1 by {
        lemma_sum_point(|t: int| c.transition_entry(a, s, t) as int, c.length as int, c.target(s, a));
    }
}

/// A step in direction `a` lands on `t` exactly when `t` sits one row up (0),
/// one row down (1), one column left (2) or one column right (3) of `s`, on
/// the same column or row respectively.
proof fn lemma_step_is_grid_move(g: GridWorldMDP, s: int, a: int, t: int)
    requires
        g.fits(),
        0 <= s < g.num_states(),
        0 <= t < g.num_states(),
        0 <= a < 4,
    ensures
        g.step(s, a) == Some(t) <==> {
            let cols = g.cols as int;
            ||| a == 0 && t % cols == s % cols && t / cols + 1 == s / cols
            ||| a == 1 && t % cols == s % cols && t / cols == s / cols + 1
            ||| a == 2 && t / cols == s / cols && t % cols + 1 == s % cols
            ||| a == 3 && t / cols == s / cols && t % cols == s % cols + 1
        },
{
    let rows = g.rows as int;
    let cols = g.cols as int;
    lemma_rc_bounds(rows, cols, s);
    lemma_rc_bounds(rows, cols, t);
    let nr = s / cols + delta_row(a);
    let nc = s % cols + delta_col(a);
    if 0 <= nr < rows && 0 <= nc < cols {
        lemma_fundamental_div_mod_converse(nr * cols + nc, cols, nr, nc);
    }
}

/// The grid world's state graph joins exactly the free cells that are next to
/// each other on the grid: same row and neighboring columns, or same column and
/// neighboring rows. Obstacles have no neighbors.
pub proof fn lemma_grid_adjacency_is_grid_neighbors(g: GridWorldMDP)
    requires
        g.fits(),
    ensures
        forall|s: int, t: int|
            0 <= s < g.rows * g.cols && 0 <= t < g.rows * g.cols ==> (
            #[trigger] g.spec_adjacency()[s].contains(t as usize) <==> {
                let cols = g.cols as int;
                &&& !g.obstacles@.contains(s as usize)
                &&& !g.obstacles@.contains(t as usize)
                &&& {
                    ||| t / cols == s / cols && (t % cols == s % cols + 1 || s % cols == t % cols + 1)
                    ||| t % cols == s % cols && (t / cols == s / cols + 1 || s / cols == t / cols + 1)
                }
            }),
{
    assert forall|s: int, t: int|
        0 <= s < g.rows * g.cols && 0 <= t < g.rows * g.cols implies (
        #[trigger] g.spec_adjacency()[s].contains(t as usize) <==> {
            let cols = g.cols as int;
            &&& !g.obstacles@.contains(s as usize)
            &&& !g.obstacles@.contains(t as usize)
            &&& {
                ||| t / cols == s / cols && (t % cols == s % cols + 1 || s % cols == t % cols + 1)
                ||| t % cols == s % cols && (t / cols == s / cols + 1 || s / cols == t / cols + 1)
            }
        }) by {
        assert(g.spec_adjacency()[s] == g.neighbors(s));
        lemma_neighbors_where_member(g, s, |u: int| true, t);
        lemma_step_is_grid_move(g, s, 0, t);
        lemma_step_is_grid_move(g, s, 1, t);
        lemma_step_is_grid_move(g, s, 2, t);
        lemma_step_is_grid_move(g, s, 3, t);
    }
}

/// Each transition matrix of a grid world moves a free, non-goal state one cell
/// in its direction (up, down, left, right) when that cell is on the grid and
/// free, and keeps it in place otherwise; goal and obstacle states stay put.
/// Every entry is 0 or 1, and row `s` has its 1 at exactly that state.
pub proof fn lemma_grid_transitions_move_on_grid(g: GridWorldMDP)
    requires
        g.fits(),
    ensures
        forall|a: int, s: int, t: int|
            0 <= a < 4 && 0 <= s < g.rows * g.cols && 0 <= t < g.rows * g.cols ==> {
                let rows = g.rows as int;
                let cols = g.cols as int;
                let r = s / cols;
                let c = s % cols;
                let on_grid = if a == 0 {
                    r >= 1
                } else if a == 1 {
                    r + 1 < rows
                } else if a == 2 {
                    c >= 1
                } else {
                    c + 1 < cols
                };
                let dest = if a == 0 {
                    s - cols
                } else if a == 1 {
                    s + cols
                } else if a == 2 {
                    s - 1
                } else {
                    s + 1
                };
                let stays = g.obstacles@.contains(s as usize) || g.goal_states@.contains(s as usize)
                    || !on_grid || g.obstacles@.contains(dest as usize);
                &&& (#[trigger] g.transition_entry(a, s, t) == 0 || g.transition_entry(a, s, t) == 1)
                &&& (g.transition_entry(a, s, t) == 1 <==> t == (if stays {
                    s
                } else {
                    dest
                }))
            },
{
    assert forall|a: int, s: int, t: int|
        0 <= a < 4 && 0 <= s < g.rows * g.cols && 0 <= t < g.rows * g.cols implies {
            let rows = g.rows as int;
            let cols = g.cols as int;
            let r = s / cols;
            let c = s % cols;
            let on_grid = if a == 0 {
                r >= 1
            } else if a == 1 {
                r + 1 < rows
            } else if a == 2 {
                c >= 1
            } else {
                c + 1 < cols
            };
            let dest = if a == 0 {
                s - cols
            } else if a == 1 {
                s + cols
            } else if a == 2 {
                s - 1
            } else {
                s + 1
            };
            let stays = g.obstacles@.contains(s as usize) || g.goal_states@.contains(s as usize)
                || !on_grid || g.obstacles@.contains(dest as usize);
            &&& (#[trigger] g.transition_entry(a, s, t) == 0 || g.transition_entry(a, s, t) == 1)
            &&& (g.transition_entry(a, s, t) == 1 <==> t == (if stays {
                s
            } else {
                dest
            }))
        } by {
        lemma_steps(g, s);
        lemma_rc_bounds(g.rows as int, g.cols as int, s);
    }
}

/// A grid world rewards 1 for every action taken in a goal state and 0 for
/// every action elsewhere.
pub proof fn lemma_grid_rewards_at_goals(g: GridWorldMDP)
    ensures
        forall|k: int, a: int|
            0 <= k < g.goal_states@.len() && 0 <= a < 4 ==> #[trigger] g.reward_entry(
                g.goal_states@[k] as int,
                a,
            ) == 1,
        forall|s: int, a: int|
            0 <= s <= usize::MAX && 0 <= a < 4 && !g.goal_states@.contains(s as usize) ==> #[trigger] g.reward_entry(
                s,
                a,
            ) == 0,
{
    assert forall|k: int, a: int| 0 <= k < g.goal_states@.len() && 0 <= a < 4 implies #[trigger] g.reward_entry(
        g.goal_states@[k] as int,
        a,
    ) == 1 by {
        assert(g.goal_states@.contains(g.goal_states@[k]));
    }
}

/// A chain moves left to the previous state, except at state 0, which stays;
/// and right to the next state, except at the last state, which stays. Every
/// entry is 0 or 1.
pub proof fn lemma_chain_transitions_move_along(c: ChainMDP)
    ensures
        forall|s: int, t: int|
            0 <= s < c.length && 0 <= t < c.length ==> {
                &&& (#[trigger] c.transition_entry(0, s, t) == 1 <==> t == (if s >= 1 {
                    s - 1
                } else {
                    0
                }))
                &&& (c.transition_entry(0, s, t) == 0 || c.transition_entry(0, s, t) == 1)
            },
        forall|s: int, t: int|
            0 <= s < c.length && 0 <= t < c.length ==> {
                &&& (#[trigger] c.transition_entry(1, s, t) == 1 <==> t == (if s + 1 < c.length {
                    s + 1
                } else {
                    s
                }))
                &&& (c.transition_entry(1, s, t) == 0 || c.transition_entry(1, s, t) == 1)
            },
{
}

/// A chain rewards 1 for both actions in its last state and 0 elsewhere.
pub proof fn lemma_chain_rewards_at_end(c: ChainMDP)
    ensures
        forall|s: int, a: int|
            0 <= s < c.length && 0 <= a < 2 ==> (#[trigger] c.reward_entry(s, a) == 1 <==> s + 1
                == c.length) && (c.reward_entry(s, a) == 0 || c.reward_entry(s, a) == 1),
{
}

/// In a chain, `t` is listed for `s` exactly when the two states are next to
/// each other on the line.
pub proof fn lemma_chain_adjacency_is_line_neighbors(c: ChainMDP)
    ensures
        forall|s: int, t: int|
            0 <= s < c.length && 0 <= t < c.length ==> (
            #[trigger] c.spec_adjacency()[s].contains(t as usize) <==> (t + 1 == s || s + 1 == t)),
{
    assert forall|s: int, t: int| 0 <= s < c.length && 0 <= t < c.length implies (
    #[trigger] c.spec_adjacency()[s].contains(t as usize) <==> (t + 1 == s || s + 1 == t)) by {
        let l = c.neighbors(s);
        assert(c.spec_adjacency()[s] == l);
        if t + 1 == s {
            assert(l[0] == t as usize);
        }
        if s + 1 == t {
            assert(l[l.len() - 1] == t as usize);
        }
    }
}

/// The position of neighbor `t` of `s` in the order up (0), left (1), down (2),
/// right (3).
pub open spec fn direction_rank(cols: int, s: int, t: int) -> int {
    if t + cols == s {
        0
    } else if t + 1 == s {
        1
    } else if t == s + cols {
        2
    } else {
        3
    }
}

/// The adjacency list of every grid state names its neighbors in the order up,
/// left, down, right; with `lemma_grid_adjacency_is_grid_neighbors` the list is
/// fully determined.
pub proof fn lemma_grid_adjacency_order(g: GridWorldMDP)
    requires
        g.fits(),
    ensures
        forall|s: int, i: int, j: int|
            0 <= s < g.rows * g.cols && 0 <= i < j < g.spec_adjacency()[s].len() ==> direction_rank(
                g.cols as int,
                s,
                #[trigger] g.spec_adjacency()[s][i] as int,
            ) < direction_rank(g.cols as int, s, #[trigger] g.spec_adjacency()[s][j] as int),
{
    assert forall|s: int, i: int, j: int|
        0 <= s < g.rows * g.cols && 0 <= i < j < g.spec_adjacency()[s].len() implies direction_rank(
        g.cols as int,
        s,
        #[trigger] g.spec_adjacency()[s][i] as int,
    ) < direction_rank(g.cols as int, s, #[trigger] g.spec_adjacency()[s][j] as int) by {
        lemma_steps(g, s);
        let l0 = g.link_where(s, 0, |t: int| true);
        let l2 = g.link_where(s, 2, |t: int| true);
        let l1 = g.link_where(s, 1, |t: int| true);
        let l3 = g.link_where(s, 3, |t: int| true);
        let l = g.spec_adjacency()[s];
        assert(l == l0 + l2 + l1 + l3);
        let owner = |k: int|
            if k < l0.len() {
                0int
            } else if k < l0.len() + l2.len() {
                2int
            } else if k < l0.len() + l2.len() + l1.len() {
                1int
            } else {
                3int
            };
        let rank_of = |a: int|
            if a == 0 {
                0int
            } else if a == 2 {
                1int
            } else if a == 1 {
                2int
            } else {
                3int
            };
        assert(l[i] as int == g.link(s, owner(i)).unwrap());
        assert(l[j] as int == g.link(s, owner(j)).unwrap());
        assert(direction_rank(g.cols as int, s, l[i] as int) == rank_of(owner(i)));
        assert(direction_rank(g.cols as int, s, l[j] as int) == rank_of(owner(j)));
    }
}

/// The adjacency list of every chain state is in increasing order.
pub proof fn lemma_chain_adjacency_increasing(c: ChainMDP)
    ensures
        forall|s: int, i: int, j: int|
            0 <= s < c.length && 0 <= i < j < c.spec_adjacency()[s].len() ==> #[trigger] c.spec_adjacency()[s][i]
                < #[trigger] c.spec_adjacency()[s][j],
{
}

} // verus!
