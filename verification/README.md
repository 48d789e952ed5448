# lau-spectral-gap-experiment

Does the spectral gap of the graph Laplacian on an MDP's state space predict the
convergence rate of entropy-regularized policy gradient on that MDP?

- `src/` is the verified library: grid-world and chain MDPs (deterministic 0/1
  transition matrices, rewards, state graphs), the state graph of a stochastic
  MDP from the supports of its transition matrices, the observation Laplacian
  `L = D - A` with its checks, and the tally of matching comparisons. Matrices
  are `nalgebra::DMatrix<i64>` behind `matrix::IntMatrix`. Proved: the state
  graphs of grid worlds and chains are simple and undirected; their transition
  matrices are stochastic; the Laplacian of an undirected graph is symmetric,
  has zero row sums, a nonnegative diagonal, and is positive semi-definite.
- `app/` holds the floating-point side: discount factors, random MDPs, the
  normalized and temperature-scaled Laplacians, eigenvalues and the spectral
  gap, policy gradient, and the rate comparison.
- `tests/` exercises the library on concrete grids, chains and graphs.
