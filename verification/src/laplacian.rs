//! The observation Laplacian `L = D - A` of a state graph given by adjacency
//! lists, and the properties that make it a graph Laplacian.

use vstd::prelude::*;
use crate::matrix::IntMatrix;
use crate::matrix::int_matrix_cells;
use crate::matrix::int_matrix_ncols;
use crate::matrix::is_rectangular;
use crate::matrix::is_table;
use crate::matrix::fits_in_memory;
use crate::sums::sum_to;
use crate::sums::lemma_sum_ext;
use crate::sums::lemma_sum_add;
use crate::sums::lemma_sum_sub;
use crate::sums::lemma_sum_scale;
use crate::sums::lemma_sum_point;
use crate::sums::lemma_sum_zero;
use crate::sums::lemma_sum_nonneg;
use crate::sums::lemma_sum_swap;
use crate::sums::lemma_count_members;
use crate::mdp::MDP;
use crate::mdp::GridWorldMDP;
use crate::mdp::ChainMDP;
use crate::mdp::lemma_grid_graph_undirected;
use crate::mdp::lemma_chain_graph_undirected;

verus! {

/// The adjacency lists held in a slice of vectors.
pub open spec fn lists(adj: &[Vec<usize>]) -> Seq<Seq<usize>> {
    adj@.map_values(|v: Vec<usize>| v@)
}

/// There are at most `n` lists, every list names only states below `n`, and no
/// list is longer than an `i64` can count.
pub open spec fn lists_within(n: int, adj: Seq<Seq<usize>>) -> bool {
    &&& adj.len() <= n
    &&& forall|s: int, k: int| 0 <= s < adj.len() && 0 <= k < adj[s].len() ==> #[trigger] adj[s][k] < n
    &&& forall|s: int| 0 <= s < adj.len() ==> (#[trigger] adj[s]).len() <= i64::MAX
}

/// Entry `(s, t)` of the adjacency matrix: 1 when the list of `s` names `t`.
pub open spec fn adjacency_entry(adj: Seq<Seq<usize>>, s: int, t: int) -> i64 {
    if 0 <= s < adj.len() && adj[s].contains(t as usize) {
        1
    } else {
        0
    }
}

/// Entry `(s, t)` of the degree matrix: the length of the list of `s` on the
/// diagonal, 0 elsewhere.
pub open spec fn degree_entry(adj: Seq<Seq<usize>>, s: int, t: int) -> i64 {
    if s == t && 0 <= s < adj.len() {
        adj[s].len() as i64
    } else {
        0
    }
}

/// Entry `(s, t)` of the Laplacian `L = D - A`.
pub open spec fn laplacian_entry(adj: Seq<Seq<usize>>, s: int, t: int) -> int {
    degree_entry(adj, s, t) - adjacency_entry(adj, s, t)
}

/// The lists describe an undirected graph: `t` is listed for `s` exactly when `s`
/// is listed for `t`.
pub open spec fn lists_symmetric(n: int, adj: Seq<Seq<usize>>) -> bool {
    forall|s: int, t: int|
        0 <= s < n && 0 <= t < n ==> #[trigger] adjacency_entry(adj, s, t) == adjacency_entry(adj, t, s)
}

/// No list names a state twice.
pub open spec fn lists_distinct(adj: Seq<Seq<usize>>) -> bool {
    forall|s: int| 0 <= s < adj.len() ==> (#[trigger] adj[s]).no_duplicates()
}

/// Observation Laplacian computed from the adjacency structure of a state graph.
pub struct ObservationLaplacian {
    /// The Laplacian matrix `L = D - A`.
    pub laplacian: IntMatrix,
    /// The degree matrix `D`.
    pub degree: IntMatrix,
    /// The adjacency matrix `A`.
    pub adjacency: IntMatrix,
    /// The number of states.
    pub n: usize,
}

/// The checks that `verify` makes of a Laplacian.
pub struct LaplacianProperties {
    pub symmetric: bool,
    pub row_sum_zero: bool,
    pub diag_nonneg: bool,
    pub n_states: usize,
}

impl ObservationLaplacian {
    /// The three matrices are `n` by `n`.
    pub open spec fn well_shaped(&self) -> bool {
        &&& int_matrix_cells(self.laplacian).len() == self.n
        &&& int_matrix_ncols(self.laplacian) == self.n
        &&& is_rectangular(int_matrix_cells(self.laplacian), self.n as nat)
        &&& int_matrix_cells(self.degree).len() == self.n
        &&& int_matrix_ncols(self.degree) == self.n
        &&& is_rectangular(int_matrix_cells(self.degree), self.n as nat)
        &&& int_matrix_cells(self.adjacency).len() == self.n
        &&& int_matrix_ncols(self.adjacency) == self.n
        &&& is_rectangular(int_matrix_cells(self.adjacency), self.n as nat)
    }

    /// Entry `(i, j)` of `L`.
    pub open spec fn l(&self, i: int, j: int) -> int {
        int_matrix_cells(self.laplacian)[i][j] as int
    }

    /// This is the Laplacian of the `n`-state graph with adjacency lists `adj`.
    pub open spec fn is_laplacian_of(&self, n: nat, adj: Seq<Seq<usize>>) -> bool {
        &&& self.n == n
        &&& self.well_shaped()
        &&& is_table(int_matrix_cells(self.adjacency), n, n, |s: int, t: int| adjacency_entry(adj, s, t))
        &&& is_table(int_matrix_cells(self.degree), n, n, |s: int, t: int| degree_entry(adj, s, t))
        &&& forall|s: int, t: int|
            0 <= s < n && 0 <= t < n ==> #[trigger] self.l(s, t) == laplacian_entry(adj, s, t)
    }

    /// `L` equals its transpose.
    pub open spec fn spec_symmetric(&self) -> bool {
        forall|i: int, j: int| 0 <= i < self.n && 0 <= j < self.n ==> #[trigger] self.l(i, j) == self.l(j, i)
    }

    /// The sum of the first `m` entries of row `i` of `L`.
    pub open spec fn row_partial_sum(&self, i: int, m: int) -> int {
        sum_to(|j: int| self.l(i, j), m)
    }

    /// The sum of row `i` of `L`.
    pub open spec fn row_sum(&self, i: int) -> int {
        self.row_partial_sum(i, self.n as int)
    }

    /// Every row of `L` sums to zero.
    pub open spec fn spec_row_sum_zero(&self) -> bool {
        forall|i: int| 0 <= i < self.n ==> #[trigger] self.row_sum(i) == 0
    }

    /// Every diagonal entry of `L` is nonnegative.
    pub open spec fn spec_diag_nonneg(&self) -> bool {
        forall|i: int| 0 <= i < self.n ==> #[trigger] self.l(i, i) >= 0
    }

    /// Entry `i` of the product `L x`.
    pub open spec fn row_dot(&self, i: int, x: Seq<int>) -> int {
        sum_to(|j: int| self.l(i, j) * x[j], self.n as int)
    }

    /// The quadratic form `x^T L x`.
    pub open spec fn quadratic_form(&self, x: Seq<int>) -> int {
        sum_to(|i: int| x[i] * self.row_dot(i, x), self.n as int)
    }

    /// `L` is an `n` by `n` matrix.
    pub open spec fn laplacian_shaped(&self) -> bool {
        &&& int_matrix_cells(self.laplacian).len() == self.n
        &&& int_matrix_ncols(self.laplacian) == self.n
        &&& is_rectangular(int_matrix_cells(self.laplacian), self.n as nat)
    }

    /// The sum of row `i` of `L`, accumulated exactly.
    fn row_sum_exec(&self, i: usize) -> (r: i128)
        requires
            self.laplacian_shaped(),
            i < self.n,
        ensures
            r == self.row_sum(i as int),
    {
        let n = self.n;
        let mut acc: i128 = 0;
        let mut j: usize = 0;
        while j < n
            invariant
                self.laplacian_shaped(),
                n == self.n,
                i < n,
                j <= n,
                acc == self.row_partial_sum(i as int, j as int),
                -(j as int) * 0x8000_0000_0000_0000 <= acc <= (j as int) * 0x8000_0000_0000_0000,
            decreases n - j,
        {
            let x = self.laplacian.get(i, j);
            assert(self.row_partial_sum(i as int, j + 1) == self.row_partial_sum(i as int, j as int)
                + self.l(i as int, j as int));
            assert((j as int) * 0x8000_0000_0000_0000 + 0x8000_0000_0000_0000 <= 0xffff_ffff_ffff_ffff
                * 0x8000_0000_0000_0000);
            acc = acc + x as i128;
            j = j + 1;
        }
        acc
    }

    /// Checks the Laplacian properties: `L` is symmetric, every row sums to zero,
    /// and no diagonal entry is negative.
    pub fn verify(&self) -> (props: LaplacianProperties)
        requires
            self.laplacian_shaped(),
        ensures
            props.symmetric == self.spec_symmetric(),
            props.row_sum_zero == self.spec_row_sum_zero(),
            props.diag_nonneg == self.spec_diag_nonneg(),
            props.n_states == self.n,
    {
        let n = self.n;
        let mut symmetric = true;
        let mut row_sum_zero = true;
        let mut diag_nonneg = true;
        let mut i: usize = 0;
        while i < n
            invariant
                self.laplacian_shaped(),
                n == self.n,
                i <= n,
                symmetric == (forall|a: int, b: int|
                    0 <= a < i && 0 <= b < n ==> #[trigger] self.l(a, b) == self.l(b, a)),
                row_sum_zero == (forall|a: int| 0 <= a < i ==> #[trigger] self.row_sum(a) == 0),
                diag_nonneg == (forall|a: int| 0 <= a < i ==> #[trigger] self.l(a, a) >= 0),
            decreases n - i,
        {
            let row_sum = self.row_sum_exec(i);
            if row_sum != 0 {
                row_sum_zero = false;
            }
            let diag = self.laplacian.get(i, i);
            assert(self.l(i as int, i as int) == diag);
            if diag < 0 {
                diag_nonneg = false;
            }
            let ghost sym_before = symmetric;
            let mut row_symmetric = true;
            let mut j: usize = 0;
            while j < n
                invariant
                    self.laplacian_shaped(),
                    n == self.n,
                    i < n,
                    j <= n,
                    row_symmetric == (forall|b: int| 0 <= b < j ==> #[trigger] self.l(i as int, b) == self.l(b, i as int)),
                decreases n - j,
            {
                let lij = self.laplacian.get(i, j);
                let lji = self.laplacian.get(j, i);
                assert(self.l(i as int, j as int) == lij && self.l(j as int, i as int) == lji);
                if lij != lji {
                    row_symmetric = false;
                }
                j = j + 1;
            }
            if !row_symmetric {
                symmetric = false;
            }
            assert(symmetric == (forall|a: int, b: int|
                0 <= a < i + 1 && 0 <= b < n ==> #[trigger] self.l(a, b) == self.l(b, a))) by {
                if !row_symmetric {
                    let b = choose|b: int| 0 <= b < n && !(self.l(i as int, b) == self.l(b, i as int));
                    assert(!(self.l(i as int, b) == self.l(b, i as int)));
                }
            }
            i = i + 1;
        }
        LaplacianProperties { symmetric, row_sum_zero, diag_nonneg, n_states: n }
    }

    /// Builds the Laplacian of an MDP's state graph.
    pub fn from_mdp<M: MDP>(mdp: &M) -> (lap: ObservationLaplacian)
        requires
            mdp.is_valid(),
            fits_in_memory(mdp.spec_n_states() as int, mdp.spec_n_states() as int),
        ensures
            lap.is_laplacian_of(mdp.spec_n_states(), mdp.spec_adjacency()),
    {
        let n = mdp.n_states();
        let adj_list = mdp.adjacency();
        Self::from_adjacency(n, adj_list.as_slice())
    }

    /// Builds `A`, `D` and `L = D - A` from explicit adjacency lists: `A[s][t]` is 1
    /// when the list of `s` names `t`, `D[s][s]` is the length of the list of `s`.
    pub fn from_adjacency(n: usize, adj: &[Vec<usize>]) -> (lap: ObservationLaplacian)
        requires
            lists_within(n as int, lists(adj)),
            fits_in_memory(n as int, n as int),
        ensures
            lap.is_laplacian_of(n as nat, lists(adj)),
    {
        let mut a = IntMatrix::zeros(n, n);
        let mut d = IntMatrix::zeros(n, n);
        let ghost l = lists(adj);
        let mut s: usize = 0;
        while s < adj.len()
            invariant
                l == lists(adj),
                lists_within(n as int, l),
                s <= adj@.len(),
                int_matrix_ncols(a) == n,
                int_matrix_ncols(d) == n,
                is_table(
                    int_matrix_cells(a),
                    n as nat,
                    n as nat,
                    |i: int, t: int| if i < s { adjacency_entry(l, i, t) } else { 0i64 },
                ),
                is_table(
                    int_matrix_cells(d),
                    n as nat,
                    n as nat,
                    |i: int, t: int| if i < s { degree_entry(l, i, t) } else { 0i64 },
                ),
            decreases adj@.len() - s,
        {
            let neighbors = &adj[s];
            assert(neighbors@ == l[s as int]);
            assert(l[s as int].len() <= i64::MAX);
            let degree = neighbors.len() as i64;
            d.set(s, s, degree);
            let mut k: usize = 0;
            while k < neighbors.len()
                invariant
                    l == lists(adj),
                    lists_within(n as int, l),
                    s < adj@.len(),
                    neighbors@ == l[s as int],
                    k <= neighbors@.len(),
                    int_matrix_ncols(a) == n,
                    is_table(
                        int_matrix_cells(a),
                        n as nat,
                        n as nat,
                        |i: int, t: int|
                            if i < s {
                                adjacency_entry(l, i, t)
                            } else if i == s && neighbors@.take(k as int).contains(t as usize) {
                                1i64
                            } else {
                                0i64
                            },
                    ),
                decreases neighbors@.len() - k,
            {
                let t = neighbors[k];
                assert(t < n);
                a.set(s, t, 1);
                proof {
                    assert(neighbors@.take(k + 1) =~= neighbors@.take(k as int).push(t));
                    assert forall|u: int| 0 <= u < n implies #[trigger] neighbors@.take(k + 1).contains(
                        u as usize,
                    ) == (neighbors@.take(k as int).contains(u as usize) || u == t) by {
                        if u == t {
                            assert(neighbors@.take(k + 1)[k as int] == t);
                        }
                    }
                }
                k = k + 1;
            }
            assert(neighbors@.take(neighbors@.len() as int) =~= neighbors@);
            s = s + 1;
        }
        let laplacian = d.sub(&a);
        let lap = ObservationLaplacian { laplacian, degree: d, adjacency: a, n };
        assert forall|i: int, t: int| 0 <= i < n && 0 <= t < n implies #[trigger] lap.l(i, t)
            == laplacian_entry(l, i, t) by {
            assert(int_matrix_cells(d)[i][t] == degree_entry(l, i, t));
            assert(int_matrix_cells(a)[i][t] == adjacency_entry(l, i, t));
        }
        lap
    }
}

/// The diagonal of a Laplacian is never negative: a state's degree is at least 1
/// whenever its own list names it.
pub proof fn lemma_laplacian_diag_nonneg(lap: ObservationLaplacian, n: nat, adj: Seq<Seq<usize>>)
    requires
        lap.is_laplacian_of(n, adj),
        lists_within(n as int, adj),
    ensures
        lap.spec_diag_nonneg(),
{
    assert forall|i: int| 0 <= i < lap.n implies #[trigger] lap.l(i, i) >= 0 by {
        assert(lap.l(i, i) == laplacian_entry(adj, i, i));
        if 0 <= i < adj.len() {
            assert(adj[i].len() <= i64::MAX);
            if adj[i].contains(i as usize) {
                assert(adj[i].len() >= 1);
            }
        }
    }
}

/// The Laplacian of an undirected graph is symmetric.
pub proof fn lemma_laplacian_symmetric(lap: ObservationLaplacian, n: nat, adj: Seq<Seq<usize>>)
    requires
        lap.is_laplacian_of(n, adj),
        lists_symmetric(n as int, adj),
    ensures
        lap.spec_symmetric(),
{
    assert forall|i: int, j: int| 0 <= i < lap.n && 0 <= j < lap.n implies #[trigger] lap.l(i, j) == lap.l(
        j,
        i,
    ) by {
        assert(lap.l(i, j) == laplacian_entry(adj, i, j));
        assert(lap.l(j, i) == laplacian_entry(adj, j, i));
        assert(adjacency_entry(adj, i, j) == adjacency_entry(adj, j, i));
    }
}

/// Row `i` of the adjacency matrix sums to the degree of `i` when no list names a
/// state twice.
proof fn lemma_adjacency_row_sum(n: nat, adj: Seq<Seq<usize>>, i: int)
    requires
        n <= usize::MAX,
        lists_within(n as int, adj),
        lists_distinct(adj),
        0 <= i < n,
    ensures
        sum_to(|j: int| adjacency_entry(adj, i, j) as int, n as int) == degree_entry(adj, i, i),
{
    if i < adj.len() {
        let l = adj[i];
        assert(l.len() <= i64::MAX);
        assert forall|k: int| 0 <= k < l.len() implies #[trigger] l[k] < n by {
            assert(adj[i][k] < n);
        }
        lemma_count_members(l, n as int);
        lemma_sum_ext(
            |j: int| adjacency_entry(adj, i, j) as int,
            |t: int| if l.contains(t as usize) { 1int } else { 0int },
            n as int,
        );
    } else {
        lemma_sum_zero(|j: int| adjacency_entry(adj, i, j) as int, n as int);
    }
}

/// The degree of every state is the number of its neighbors, when no list names a
/// state twice.
pub proof fn lemma_degree_counts_neighbors(lap: ObservationLaplacian, n: nat, adj: Seq<Seq<usize>>)
    requires
        lap.is_laplacian_of(n, adj),
        lists_within(n as int, adj),
        lists_distinct(adj),
    ensures
        forall|i: int|
            0 <= i < n ==> #[trigger] int_matrix_cells(lap.degree)[i][i] as int == sum_to(
                |j: int| int_matrix_cells(lap.adjacency)[i][j] as int,
                n as int,
            ),
{
    assert forall|i: int| 0 <= i < n implies #[trigger] int_matrix_cells(lap.degree)[i][i] as int
        == sum_to(|j: int| int_matrix_cells(lap.adjacency)[i][j] as int, n as int) by {
        lemma_adjacency_row_sum(n, adj, i);
        lemma_sum_ext(
            |j: int| int_matrix_cells(lap.adjacency)[i][j] as int,
            |j: int| adjacency_entry(adj, i, j) as int,
            n as int,
        );
    }
}

/// Every row of the Laplacian sums to zero when no list names a state twice:
/// the constant vector is in the kernel, so 0 is an eigenvalue.
pub proof fn lemma_laplacian_rows_sum_to_zero(lap: ObservationLaplacian, n: nat, adj: Seq<Seq<usize>>)
    requires
        lap.is_laplacian_of(n, adj),
        lists_within(n as int, adj),
        lists_distinct(adj),
    ensures
        lap.spec_row_sum_zero(),
{
    assert forall|i: int| 0 <= i < lap.n implies #[trigger] lap.row_sum(i) == 0 by {
        let d = |j: int| degree_entry(adj, i, j) as int;
        let a = |j: int| adjacency_entry(adj, i, j) as int;
        let row = |j: int| lap.l(i, j);
        lemma_sum_sub(d, a, row, n as int);
        lemma_sum_point(d, n as int, i);
        lemma_adjacency_row_sum(n, adj, i);
    }
}

/// The Laplacian of an undirected graph is positive semi-definite:
/// `x^T L x >= 0` for every vector `x`, since it equals half the sum of
/// `(x_i - x_j)^2` over the ordered pairs of neighbors.
pub proof fn lemma_laplacian_positive_semidefinite(
    lap: ObservationLaplacian,
    n: nat,
    adj: Seq<Seq<usize>>,
    x: Seq<int>,
)
    requires
        lap.is_laplacian_of(n, adj),
        lists_within(n as int, adj),
        lists_distinct(adj),
        lists_symmetric(n as int, adj),
        x.len() == n,
    ensures
        lap.quadratic_form(x) >= 0,
{
    let nn = n as int;
    let e = |i: int, j: int| (adjacency_entry(adj, i, j) as int) * x[i] * (x[i] - x[j]);
    // x_i * (row i of L times x) is the sum over j of e(i, j).
    assert forall|i: int| 0 <= i < nn implies x[i] * #[trigger] lap.row_dot(i, x)
        == sum_to(|j: int| e(i, j), nn) by {
        let lx = |j: int| lap.l(i, j) * x[j];
        let dx = |j: int| (degree_entry(adj, i, j) as int) * x[j];
        let ax = |j: int| (adjacency_entry(adj, i, j) as int) * x[j];
        let a = |j: int| adjacency_entry(adj, i, j) as int;
        let axi = |j: int| (adjacency_entry(adj, i, j) as int) * x[i];
        let diff = |j: int| (adjacency_entry(adj, i, j) as int) * (x[i] - x[j]);
        assert forall|j: int| 0 <= j < nn implies #[trigger] lx(j) == dx(j) - ax(j) by {
            assert(lap.l(i, j) == laplacian_entry(adj, i, j));
            let dd = degree_entry(adj, i, j) as int;
            let aa = adjacency_entry(adj, i, j) as int;
            let xj = x[j];
            assert((dd - aa) * xj == dd * xj - aa * xj) by (nonlinear_arith);
        }
        lemma_sum_sub(dx, ax, lx, nn);
        assert forall|j: int| 0 <= j < nn && j != i implies #[trigger] dx(j) == 0 by {
            assert(degree_entry(adj, i, j) == 0);
        }
        lemma_sum_point(dx, nn, i);
        lemma_adjacency_row_sum(n, adj, i);
        assert forall|j: int| 0 <= j < nn implies #[trigger] axi(j) == x[i] * a(j) by {
            let aa = adjacency_entry(adj, i, j) as int;
            let xi = x[i];
            assert(aa * xi == xi * aa) by (nonlinear_arith);
        }
        lemma_sum_scale(a, axi, x[i], nn);
        assert forall|j: int| 0 <= j < nn implies #[trigger] diff(j) == axi(j) - ax(j) by {
            let aa = adjacency_entry(adj, i, j) as int;
            let xi = x[i];
            let xj = x[j];
            assert(aa * (xi - xj) == aa * xi - aa * xj) by (nonlinear_arith);
        }
        lemma_sum_sub(axi, ax, diff, nn);
        assert forall|j: int| 0 <= j < nn implies #[trigger] e(i, j) == x[i] * diff(j) by {
            let aa = adjacency_entry(adj, i, j) as int;
            let xi = x[i];
            let xj = x[j];
            assert(aa * xi * (xi - xj) == xi * (aa * (xi - xj))) by (nonlinear_arith);
        }
        lemma_sum_scale(diff, |j: int| e(i, j), x[i], nn);
        assert(dx(i) == (degree_entry(adj, i, i) as int) * x[i]);
        let deg = degree_entry(adj, i, i) as int;
        let xi = x[i];
        let sa = sum_to(a, nn);
        let sax = sum_to(ax, nn);
        assert(xi * (deg * xi - sax) == xi * (xi * sa - sax)) by (nonlinear_arith)
            requires
                deg == sa,
        ;
    }
    let rows = |i: int| sum_to(|j: int| e(i, j), nn);
    let cols = |i: int| sum_to(|j: int| e(j, i), nn);
    lemma_sum_ext(|i: int| x[i] * lap.row_dot(i, x), rows, nn);
    // Summing e the other way round gives the same total.
    lemma_sum_swap(e, nn, nn);
    assert forall|i: int| 0 <= i < nn implies #[trigger] cols(i) == sum_to(|j: int| e(j, i), nn) by {}
    lemma_sum_ext(|j: int| sum_to(|i: int| e(i, j), nn), cols, nn);
    // Pairing e(i, j) with e(j, i) gives adjacency * (x_i - x_j)^2.
    let pair = |i: int, j: int| e(i, j) + e(j, i);
    let pairs = |i: int| sum_to(|j: int| pair(i, j), nn);
    assert forall|i: int| 0 <= i < nn implies #[trigger] pairs(i) == rows(i) + cols(i) by {
        lemma_sum_add(|j: int| e(i, j), |j: int| e(j, i), |j: int| pair(i, j), nn);
    }
    lemma_sum_add(rows, cols, pairs, nn);
    assert forall|i: int| 0 <= i < nn implies #[trigger] pairs(i) >= 0 by {
        assert forall|j: int| 0 <= j < nn implies #[trigger] pair(i, j) >= 0 by {
            let aij = adjacency_entry(adj, i, j) as int;
            let aji = adjacency_entry(adj, j, i) as int;
            assert(aij == aji);
            let xi = x[i];
            let xj = x[j];
            assert(aij * xi * (xi - xj) + aji * xj * (xj - xi) >= 0) by (nonlinear_arith)
                requires
                    aij == aji,
                    0 <= aij,
            ;
        }
        lemma_sum_nonneg(|j: int| pair(i, j), nn);
    }
    lemma_sum_nonneg(pairs, nn);
}

/// The Laplacian of a simple undirected graph is symmetric, its rows sum to zero,
/// its diagonal is nonnegative, and it is positive semi-definite.
pub proof fn lemma_undirected_laplacian(lap: ObservationLaplacian, n: nat, adj: Seq<Seq<usize>>)
    requires
        lap.is_laplacian_of(n, adj),
        lists_within(n as int, adj),
        lists_distinct(adj),
        lists_symmetric(n as int, adj),
    ensures
        lap.spec_symmetric(),
        lap.spec_row_sum_zero(),
        lap.spec_diag_nonneg(),
        forall|x: Seq<int>| x.len() == n ==> #[trigger] lap.quadratic_form(x) >= 0,
{
    lemma_laplacian_symmetric(lap, n, adj);
    lemma_laplacian_rows_sum_to_zero(lap, n, adj);
    lemma_laplacian_diag_nonneg(lap, n, adj);
    assert forall|x: Seq<int>| x.len() == n implies #[trigger] lap.quadratic_form(x) >= 0 by {
        lemma_laplacian_positive_semidefinite(lap, n, adj, x);
    }
}

/// The Laplacian of every grid world passes all of `verify`'s checks and is
/// positive semi-definite.
pub proof fn lemma_grid_laplacian(g: GridWorldMDP, lap: ObservationLaplacian)
    requires
        g.is_valid(),
        lap.is_laplacian_of(g.spec_n_states(), g.spec_adjacency()),
    ensures
        lap.spec_symmetric(),
        lap.spec_row_sum_zero(),
        lap.spec_diag_nonneg(),
        forall|x: Seq<int>| x.len() == lap.n ==> #[trigger] lap.quadratic_form(x) >= 0,
{
    lemma_grid_graph_undirected(g);
    lemma_undirected_laplacian(lap, g.spec_n_states(), g.spec_adjacency());
}

/// The Laplacian of every chain passes all of `verify`'s checks and is positive
/// semi-definite.
pub proof fn lemma_chain_laplacian(c: ChainMDP, lap: ObservationLaplacian)
    requires
        lap.is_laplacian_of(c.spec_n_states(), c.spec_adjacency()),
    ensures
        lap.spec_symmetric(),
        lap.spec_row_sum_zero(),
        lap.spec_diag_nonneg(),
        forall|x: Seq<int>| x.len() == lap.n ==> #[trigger] lap.quadratic_form(x) >= 0,
{
    lemma_chain_graph_undirected(c);
    lemma_undirected_laplacian(lap, c.spec_n_states(), c.spec_adjacency());
}

/// The sum of row `i` of an integer matrix's first `n` columns.
proof fn lemma_row_sum_is_cell_sum(lap: ObservationLaplacian, i: int)
    ensures
        lap.row_sum(i) == sum_to(|j: int| int_matrix_cells(lap.laplacian)[i][j] as int, lap.n as int),
{
    lemma_sum_ext(
        |j: int| lap.l(i, j),
        |j: int| int_matrix_cells(lap.laplacian)[i][j] as int,
        lap.n as int,
    );
}

/// What `verify` reports, entry by entry of `L`: `row_sum_zero` holds exactly
/// when every row `i < n`, the last one included, sums to zero over its `n`
/// entries; `symmetric` exactly when `L[i][j] == L[j][i]` for all `i, j < n`;
/// `diag_nonneg` exactly when `L[i][i] >= 0` for all `i < n`.
pub proof fn lemma_verify_flags_meaning(lap: ObservationLaplacian)
    ensures
        lap.spec_row_sum_zero() <==> (forall|i: int|
            #![trigger int_matrix_cells(lap.laplacian)[i]]
            0 <= i < lap.n ==> sum_to(|j: int| int_matrix_cells(lap.laplacian)[i][j] as int, lap.n as int)
                == 0),
        lap.spec_symmetric() <==> (forall|i: int, j: int|
            0 <= i < lap.n && 0 <= j < lap.n ==> #[trigger] int_matrix_cells(lap.laplacian)[i][j]
                == int_matrix_cells(lap.laplacian)[j][i]),
        lap.spec_diag_nonneg() <==> (forall|i: int|
            0 <= i < lap.n ==> #[trigger] int_matrix_cells(lap.laplacian)[i][i] >= 0),
{
    let cells = int_matrix_cells(lap.laplacian);
    let n = lap.n as int;
    assert forall|i: int| 0 <= i < n implies #[trigger] lap.row_sum(i) == sum_to(
        |j: int| cells[i][j] as int,
        n,
    ) by {
        lemma_row_sum_is_cell_sum(lap, i);
    }
    if lap.spec_row_sum_zero() {
        assert forall|i: int| #![trigger cells[i]] 0 <= i < n implies sum_to(
            |j: int| cells[i][j] as int,
            n,
        ) == 0 by {
            assert(lap.row_sum(i) == 0);
        }
    }
    if forall|i: int| #![trigger cells[i]] 0 <= i < n ==> sum_to(|j: int| cells[i][j] as int, n) == 0 {
        assert forall|i: int| 0 <= i < n implies #[trigger] lap.row_sum(i) == 0 by {
            assert(sum_to(|j: int| cells[i][j] as int, n) == 0);
        }
    }
    if lap.spec_symmetric() {
        assert forall|i: int, j: int| 0 <= i < n && 0 <= j < n implies #[trigger] cells[i][j] == cells[j][i] by {
            assert(lap.l(i, j) == lap.l(j, i));
        }
    }
    if lap.spec_diag_nonneg() {
        assert forall|i: int| 0 <= i < n implies #[trigger] cells[i][i] >= 0 by {
            assert(lap.l(i, i) >= 0);
        }
    }
}

/// The matrices of `from_adjacency`, entry by entry: `A[s][t]` is 1 when the
/// list of `s` names `t` and 0 otherwise, `D` holds the list lengths on its
/// diagonal and 0 off it, and `L[s][t] == D[s][t] - A[s][t]`.
pub proof fn lemma_laplacian_entries(lap: ObservationLaplacian, n: nat, adj: Seq<Seq<usize>>)
    requires
        lap.is_laplacian_of(n, adj),
    ensures
        forall|s: int, t: int|
            0 <= s < n && 0 <= t < n ==> {
                let listed = s < adj.len() && adj[s].contains(t as usize);
                &&& #[trigger] int_matrix_cells(lap.adjacency)[s][t] == (if listed {
                    1i64
                } else {
                    0i64
                })
                &&& int_matrix_cells(lap.degree)[s][t] == (if s == t && s < adj.len() {
                    adj[s].len() as i64
                } else {
                    0i64
                })
                &&& lap.l(s, t) == int_matrix_cells(lap.degree)[s][t] - int_matrix_cells(lap.adjacency)[s][t]
            },
{
}

} // verus!
