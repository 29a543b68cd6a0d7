# gemm_common

Matrix-vector kernels, `dst = alpha * dst + beta * lhs * rhs`, the way they are split across
threads, and a cache of packed left-hand sides, written in Verus and proved against their contracts.

* `src/` is the verified library.
  * `element`, `simd`: the arithmetic that a kernel needs from its scalars and vectors.
  * `strides`: a matrix inside a slice.
  * `gemv`: the serial kernels. Their contracts fix every rounding step.
  * `tasks`, `parallel`: how a product is cut into a grid of tasks, and run on the `rayon` pool.
  * `sums`, `exact`: where nothing is rounded, every kernel and every split gives the same product.
  * `packed_cache`: the cache, its fingerprints and its limits.
* `tests/` runs the library from outside.
* `app/` has raw-pointer entry points, the settings read from the environment, and one cache per
  thread.

What is trusted is marked `external_body`, each with a comment that names the function it calls.
