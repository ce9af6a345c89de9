# memory_model_sim

A simulator of an RV32I core in front of a cache hierarchy, for comparing
cache designs that keep security classes apart (SMT slices, backup caches,
randomised remapping, dynamic way partitions) under cache-timing attacks.

- `src/` is the library, written in Verus and verified: main memory and the
  set-associative cache levels, the five first-level designs, the core
  (decode, execute, builtins, cycle accounting), the runners for one or two
  programs, the experiment logic and the command-line parsing.
- `tests/` exercises the library from outside.
- `app/` is the executable around it: file and random-number input, and the
  floating-point statistics and reports of an experiment.
