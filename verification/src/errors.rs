use vstd::prelude::*;

verus! {

/// Errors arising while classifying paths or reading, filtering and writing
/// sequence records.
///
/// `ReadError`, `CreateError` and `WriteError` describe failures of the
/// surrounding I/O layer, which hands the underlying cause over as plain text.
#[derive(Debug)]
pub enum FastxError {
    /// The path's extension marks neither a fasta nor a fastq file; carries
    /// the offending path verbatim.
    UnknownFileType(String),
    /// The input file could not be opened or read.
    ReadError { msg: String },
    /// A sequence record could not be parsed.
    ParseError,
    /// The output file could not be created.
    CreateError { msg: String },
    /// Some wanted record indices were not present in the input.
    IndicesNotFound,
    /// Writing to the output failed.
    WriteError { msg: String },
}

} // verus!
