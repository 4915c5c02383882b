# microgpt

Speculative decoding for a small transformer, with the games, routers and GPU training plans
around it, verified with Verus.

## Layout

- `src/` is the library. Every item of it is verified.
  - `types`, `transformer`: model configuration, the generator of random numbers, and the loop
    that generates tokens.
  - `speculative`: draft trees, constraint pruners, sampling, and what verifiers accept.
  - `gpu`: data loading, adapters and their file format, and the plans of what is dispatched
    for the forward pass, the loss, the backward pass and the optimizer.
  - `pruners/bomber`, `pruners/go`: two games, their players, and validators that run in a
    WebAssembly sandbox.
  - `pruners/delta_mem`: memories of several domains and a pruner that they steer.
  - `percepta`: the runner of compiled programs, and Sudoku boards.
  - `rest`, `router`, `wasm`: search requests and replies, projections of embeddings, and the
    metadata of validators.
  - `random`, `float_bits`, `double_bits`, `text`: seeded draws, the order and rounding of
    single-precision numbers, their narrowing from double precision, and text.
- `app/` is ordinary Rust around the library: the model and the memories in floating point,
  files, HTTP, the device, charts.
- `tests/` holds the tests of the library.

## Numbers

Single-precision numbers are carried through the library as their bit patterns, or as exact
integers in a fixed unit. `float_bits` says how patterns are ordered and how sums are rounded.

## What is trusted

A few functions call outside crates, and their contracts are believed: the draws of `fastrand`
in `random`, the hash of `blake3` in `gpu/lora`, the sandbox of `wasmtime` in
`pruners/bomber/sandbox`, and two functions of the standard library on strings. Each says in its
documentation what is claimed of the outside function.
