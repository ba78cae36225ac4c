# fluidsim

A 2D fluid simulation (pseudo-spectral Navier-Stokes solver) and a Fourier Neural
Operator trained to imitate it, with the structural logic verified by Verus.

## Layout

- `src/` — the verified library.
  - `fno/backprop/graph.rs`: the computation-graph arena. Each node is an input leaf
    or an operation on earlier nodes; every node's meaning is an expression tree.
  - `fno/backprop/fft_traced.rs`: complex numbers over graph nodes, the radix-2 FFT
    and inverse FFT (1D and 2D) as butterfly networks of nodes.
  - `fno/layers.rs`: pointwise linear layers and Fourier layers (residual branch plus
    truncated spectral mixing, summed and passed through ReLU).
  - `fno/mod.rs`: the operator (lift, Fourier layers, projections), weight collection
    and reconstruction from stored weights, initial weight layout.
  - `fno/training.rs`: the autoregressive rollout loss graph.
  - `calculations/fft.rs`: bit-reversal reordering, strided gather and scatter.
  - `solver.rs`: wavenumber layout and the two-thirds de-aliasing rule.
  - `web.rs`: viewer presets, checkpoint decoding, RGBA image layout.
- `app/` — everything numeric in binary32 arithmetic (graph evaluation and
  back-propagation, the FFT on numbers, the solver, random initial conditions,
  Adam training), the command line and the WebAssembly viewer.
- `tests/` — numeric tests through a graph evaluator, and structural tests.

Every weight and input value enters the graph as the bit pattern of a binary32
number; the library proves what each node computes, symbolically, and the
application evaluates it. In those expressions an input node is named by its
position as well as its value, so the contracts say which weight nodes an output
depends on (and hence where back-propagation sends gradients); constants the
library puts in itself are named by value alone.
