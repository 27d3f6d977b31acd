//! Verifiable HDF5 storage: Merkle trees over dataset chunks, subset proofs,
//! provenance journals, and the writer that lays out HDF5 files.

pub mod attr;
pub mod attr_laws;
pub mod builders;
pub mod bytes;
pub mod checksum;
pub mod chunk_grid;
pub mod chunk_laws;
pub mod chunk_reader;
pub mod chunked;
pub mod columns;
pub mod companion;
pub mod contiguous;
pub mod cursor;
pub mod dataset;
pub mod dense;
pub mod dense_laws;
pub mod dense_reader;
pub mod digest;
pub mod error;
pub mod file_laws;
pub mod file_size;
pub mod file_writer;
pub mod format_laws;
pub mod fractal_heap;
pub mod grid_laws;
pub mod half;
pub mod journal;
pub mod layout;
pub mod link_laws;
pub mod link_reader;
pub mod memory_file;
pub mod memory_laws;
pub mod memory_roundtrip;
pub mod memory_writer;
pub mod messages;
pub mod migrate;
pub mod mpi_vol;
pub mod object_header;
pub mod parallel;
pub mod path_laws;
pub mod reader;
pub mod reader_laws;
pub mod recovery;
pub mod response;
pub mod selection;
pub mod selection_laws;
pub mod storage_laws;
pub mod subset_proof;
pub mod szip;
pub mod text;
pub mod tree;
pub mod validate;
pub mod vds;
pub mod verification_grid;
pub mod version;
pub mod view_laws;
