# `fused_gpu`

A graph-based GPU compiler for linear algebra and machine learning, written in
Rust and verified with Verus.

A graph of operations is validated, sorted and lowered to kernels: those of a
forward pass, of a backward pass, and of a loss. Operations that work element by
element are fused into one kernel. Kernels can be optimized, and are written as
WGSL.

## Layout

- `src/` is the library. `dispatch::backend` holds graphs, the kernel IR
  (`kernel`), the operations (`std_lib`) and the WGSL writer (`wgsl`);
  `dispatch` holds contexts, tensors in flight, compilation and launches.
- `src/dispatch/backend/sound` proves that lowered and optimized kernels are
  well formed: they can be written, and take only the parameters they are
  compiled with.
- `src/dispatch/backend/meaning` runs kernels without loops on formulas, and
  proves what the kernels of elementwise graphs and of losses store. It also
  runs kernels with loops, conditions, shared buffers and barriers, by all the
  threads of a block, and proves what every kernel of a forward pass
  (`results`) and of a backward pass (`answers`) stores, where the operations of
  the graph work element by element or are products of matrices, in any
  combination. This covers blocks that lie in the matrix of the kernel's node,
  sums over multiples of the tile, and matrices whose elements an unsigned
  integer can count. It covers neither softmax nor products of more than two
  dimensions, nor a forward kernel that loads a result which it also computes.
- `src/dispatch/binding.rs` proves which buffer stands for which parameter.
- `app/` is the `wgpu` backend, which Verus does not see.
- `tests/` runs lowered graphs on a simulated device.

## What is trusted

`dispatch::bytes` views slices of words as bytes through the `briny` crate. That
such a view holds the bytes of the words, in the byte order of the machine, is
believed and not proved.
