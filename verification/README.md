# rinnd

Approximate nearest-neighbour search, verified with Verus: random projection trees, greedy graph
search, signed and unsigned quantization, and the index that ties them together.

## Layout

- `src/` is the library. Every function in it is verified against its contract.
  - `single` holds single-precision numbers as bit patterns and orders them; `calls` says what it
    means for a supplied function to behave as a mathematical one.
  - `distance` has the metrics, the proxy distances and the quantized kernels.
  - `heap`, `visited`, `graph`, `layout` and `rng` are the structures that searches are made of.
  - `tree` routes queries through flat trees, quantized or not, and grows forests breadth first;
    `tree::crossing` proves that a search finds the nearest leaves.
  - `search` is greedy search: `model` states what a search does step by step, `counting` how far
    its counts go, and `greedy` and `single_leaf` do it.
  - `index` builds an index, queries it, and codes it in signed bytes.
  - `options`, `normalize` and `benchmark` check options, normalize rows and measure distances.
  - `parallel` is the one module that is trusted: it hands work to rayon.
- `tests/` runs the library on concrete numbers.
- `app/` is the Python extension module: arrays in, arrays out, and the floating-point arithmetic.

## Numbers

The library computes nothing with floating-point numbers itself. It decides with them, and it takes
the arithmetic from its callers: a search is given functions for margins, bounds and similarities,
an encoder is given functions for scales and codes. Contracts are exact over these functions, for
all of them, provided that equal arguments give equal results.
