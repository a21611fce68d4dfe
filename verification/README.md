# ofgpu

Readers and writers for finite-volume case files, verified with Verus.

* `src/` is the library. It holds no file, no device and no floating-point operation:
  it takes texts, tables and numbers by their bits, and gives texts, bytes, tables and
  refusals. Every function states in its contract what it returns, and every failure
  names the input that it is due to. What there is to say beside a result, such as a
  setting that the permissive mode passed over, comes back as notices to be printed.
* `tests/` runs it on concrete cases.
* `app/` is ordinary Rust around it: it reads and writes files, computes geometry,
  weights and statistics in floating point, and launches the matrix kernels.

What holds of the library as a whole is stated in public proof functions beside the
functions that they speak of. Some of them: what is written of a field reads back
(`src/round_trip.rs`), seventeen digits tell every number (`src/exact.rs`), the regions
of a split pair up face by face (`src/regions.rs`), every cell of a grid is found in its
volume file (`src/nvdb.rs`, `src/vdb.rs`), and the rows of a matrix hold what the mesh
couples (`src/ldu.rs`).
