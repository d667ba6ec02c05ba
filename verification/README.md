# rxla_core

Verified construction of tensor programs: lazy tensor expressions with shape and
element type checks, reverse-mode differentiation, symbolic state with atomic
updates, sessions, compilation caches, placement plans and runtimes.

`src/` is the library. Every operation states which expression it records, or
with which error it refuses its operands. `tests/` runs it. `app/` holds what
touches the machine: files, foreign memory, floating-point literals and the
clock.

| Area | Modules |
| --- | --- |
| Graphs and types | `dtype`, `shape`, `op`, `graph`, `sound`, `facts`, `listing`, `error` |
| Tensor operations | `ops`, `indexing`, `matmul`, `contraction`, `einsum`, `statistics`, `scans`, `shape_ops`, `attention`, `convolution`, `pooling`, `rotary`, `boxes`, `image`, `resize`, `nn`, `random` |
| Differentiation | `gradients`, `autodiff`, `linearity` |
| Elements of values | `elements`, `diagonals`, `words`, `regions`, `masks`, `prefixes`, `products`, `corners`, `overlaps`, `assignments`, `adjoints`, `extents`, `labels` |
| What succeeds | `success`, `edges`, `draws` |
| Programs | `interface`, `tracer`, `compiler`, `compilation`, `executable`, `artifact`, `compile_options`, `planning`, `runtime` |
| State | `state`, `state_tree`, `plan`, `session`, `kv_cache`, `batch_norm_state`, `random_state` |
| Storage | `cache`, `envelope`, `disk_cache`, `dlpack`, `text` |
