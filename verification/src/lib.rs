//! Transparent access to fasta/fastq sequence files: classify a path's
//! format, scan per-record sequence lengths, and copy the records whose
//! ordinal position belongs to a caller-supplied index set.
//!
//! The library works on plain byte buffers; opening, decompressing and
//! writing the underlying files is left to the surrounding I/O layer.

pub mod errors;
pub mod fastx;
pub mod filetype;
pub mod laws;
pub mod record;
