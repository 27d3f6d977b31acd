# clawhdf5

Verifiable HDF5 storage, written and proved in Verus.

The library in `src/` covers

- Merkle trees over the chunks or leaves of a dataset, inclusion proofs, and the
  packed attribute that binds a tree's root to the dataset (`tree`, `attr`,
  `dataset`, `companion`, `contiguous`, `version`);
- proofs that part of a dataset is genuine (`subset_proof`, `selection`,
  `chunk_grid`, `verification_grid`);
- a provenance journal, the choice of a snapshot to go back to, and the response
  to a failed verification (`journal`, `recovery`, `response`);
- the writer that lays out HDF5 files, with dense storage, chunked, compact,
  contiguous and virtual datasets (`file_writer`, `file_size`, `dense`,
  `fractal_heap`, `object_header`, `chunked`, `vds`, `parallel`), and a reader for
  what it writes (`reader`, `dense_reader`, `chunk_reader`, `link_reader`);
- moving agent memories from SQLite rows into such files and comparing the two
  (`migrate`, `memory_writer`, `memory_file`, `columns`, `half`, `validate`);
- the parts of collective I/O and of szip decoding that decide and check
  (`mpi_vol`, `szip`).

Modules whose names end in `_laws`, and `memory_roundtrip`, hold what relates
several functions: above all that what was written is what is read back.

Hash functions and the thread pool come from outside crates; their wrappers in
`digest` and `tree` say what is relied on. `app/` is the migration program:
argument handling, SQLite and file access, and floating-point comparison.
