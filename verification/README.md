# rog2_pf

Two trackers of a wellbore's stratigraphic depth, verified with Verus: a
likelihood-weighted particle filter over many seeds, and a beam search over an ensemble
of configurations. Both compare the gamma ray along a horizontal well with the log of a
type well.

- `src/` is the library. Every function carries a contract that Verus proves.
  Floating-point values are bit patterns (`u32`, `u64`); comparisons are decided on the
  patterns in `ieee`, and rounding operations come from an implementation of
  `arith::Arith`. Contracts say, for arithmetic in which an operation's result is a
  function of its operands (`arith::deterministic`), exactly which operations a result
  is made of. The pattern of a NaN is exempt: it may vary from one run of an operation
  to the next, and the library hands on the canonical one. Where the machine's logarithm,
  exponential, sine or cosine is itself not reproducible, the contracts speak only of
  what does not go through it, such as errors, shapes, tables and names.
  - `batch`, `beam`: configurations, wells, their validation and their flat layout.
  - `filter`, `reference`: the particle filter, one seed and a whole batch.
  - `beam_reference`: smoothing, the search with its backtrack, the ensemble.
  - `optimum`: what the search achieves: it is not lost while costs stay below the dead
    bound, and a beam as wide as the log finds a cheapest path.
  - `quadratic`: what the quadratic smoother reproduces where nothing rounds.
  - `device`, `beam_device`: what each device kernel computes.
  - `host`, `beam_host`: plans of a run on a device, chunk by chunk, and the same plans
    carried out on one processor.
  - `text`, `decimal`: channel names, printed as `%g` does, with six correctly rounded
    digits.
  - `kernel`, `scan`, `layout`, `blend`, `output`, `error`, `backend`, `bytes`,
    `bench`, `grid`, `synthetic`: what these are built from.
- `tests/` runs the library with the machine's own floating point.
- `app/` is the program around it: CubeCL kernels and devices, benchmarks, diagnostics
  and the Python module.

What is trusted: the byte views of `bytemuck` (`bytes`), the debug quoting of a string
(`error`), and ASCII lower-casing (`backend`).
