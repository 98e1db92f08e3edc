# ferrosim

Neighbor-list construction for molecular dynamics and machine-learning
interatomic potentials: for every atom, the atoms (and the periodic images of
them) within a cutoff radius, as `(i, j, shift)` records in the ASE / torch_nl
convention. The list is always full: `(i, j, S)` and `(j, i, -S)` both appear.

## Layout

- `src/` — the verified library (Verus). Everything here is integer logic
  with contracts:
  - `neighbor_list.rs`: the record type `NeighborList`, its canonical sorted
    form (a verified merge sort), and the proof that the sorted form depends
    only on the records held, not on their order.
  - `grid.rs`: the cell-list bin grid (`build_bin_grid`), axis wrapping
    (`wrap_axis`) and the per-atom candidate search (`neighbor_candidates`).
  - `search_laws.rs`: what the candidate search finds, exactly; that it is
    symmetric (`(i, j, S)` for atom `i` exactly when `(j, i, -S)` for atom
    `j`); and that it never repeats a record.
  - `images.rs`: the periodic images of the brute-force reference and the
    mirror-record bookkeeping that keeps its list full.
  - `batch.rs`: work items and per-system grouping of a batch, with the proof
    that batching gives each system exactly its own records.
  - `gpu_layout.rs`: the flat integer buffers of the GPU path (atom
    numbering, compressed bin table), reading the GPU output back, and the
    output-buffer retry policy.
- `app/` — the floating-point front end, not verified: `Cell`, `System`,
  fractional coordinates and bin sizing, distance tests, the brute-force
  reference, the `rayon` batched path, the `wgpu` GPU path and its WGSL
  shader, and `VerletList`.
- `tests/` — tests of the library on concrete values.
