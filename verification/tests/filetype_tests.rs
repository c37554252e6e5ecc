use fastx::errors::FastxError;
use fastx::fastx::Fastx;
use fastx::filetype::{is_compressed, FileType};
use std::any::Any;

#[test]
fn fasta_extension_returns_fasta_filetype() {
    let path = "data/in.fasta";

    let actual = FileType::from_path(path).unwrap();
    let expected = FileType::Fasta;

    assert_eq!(actual, expected)
}

#[test]
fn fa_extension_returns_fasta_filetype() {
    let path = "data/in.fa";

    let actual = FileType::from_path(path).unwrap();
    let expected = FileType::Fasta;

    assert_eq!(actual, expected)
}

#[test]
fn compressed_fasta_extension_returns_fasta_filetype() {
    let path = "data/in.fa.gz";

    let actual = FileType::from_path(path).unwrap();
    let expected = FileType::Fasta;

    assert_eq!(actual, expected)
}

#[test]
fn fastq_extension_returns_fastq_filetype() {
    let path = "data/in.fastq";

    let actual = FileType::from_path(path).unwrap();
    let expected = FileType::Fastq;

    assert_eq!(actual, expected)
}

#[test]
fn fq_extension_returns_fastq_filetype() {
    let path = "data/in.fq";

    let actual = FileType::from_path(path).unwrap();
    let expected = FileType::Fastq;

    assert_eq!(actual, expected)
}

#[test]
fn compressed_fastq_extension_returns_fastq_filetype() {
    let path = "data/in.fq.gz";

    let actual = FileType::from_path(path).unwrap();
    let expected = FileType::Fastq;

    assert_eq!(actual, expected)
}

#[test]
fn invalid_extension_raises_error() {
    let path = "data/in.bam";

    let actual = FileType::from_path(path).unwrap_err();
    let expected = FastxError::UnknownFileType(String::from(path));

    assert_eq!(actual.type_id(), expected.type_id())
}

#[test]
fn no_extension_raises_error() {
    let path = "data/fq";

    let actual = FileType::from_path(path).unwrap_err();
    let expected = FastxError::UnknownFileType(String::from(path));

    assert_eq!(actual.type_id(), expected.type_id())
}

#[test]
fn empty_path_raises_error() {
    let path = "";

    let actual = FileType::from_path(path).unwrap_err();
    let expected = FastxError::UnknownFileType(String::from(path));

    assert_eq!(actual.type_id(), expected.type_id())
}

#[test]
fn file_type_from_str_fq_extension_returns_fastq_filetype() {
    let path = "data/in.fq";

    let actual = FileType::from_str(path).unwrap();
    let expected = FileType::Fastq;

    assert_eq!(actual, expected)
}

#[test]
fn file_type_from_str_compressed_fastq_extension_returns_fastq_filetype() {
    let path = "data/in.fq.gz";

    let actual = FileType::from_str(path).unwrap();
    let expected = FileType::Fastq;

    assert_eq!(actual, expected)
}

#[test]
fn file_type_from_str_invalid_extension_raises_error() {
    let path = "data/in.bam";

    let actual = FileType::from_str(path).unwrap_err();
    let expected = FastxError::UnknownFileType(String::from(path));

    assert_eq!(actual.type_id(), expected.type_id())
}

#[test]
fn path_is_compressed() {
    let path = "this/is/compres.gz";

    assert!(is_compressed(path))
}

#[test]
fn path_is_not_compressed() {
    let path = "this/is/compres.fa";

    assert!(!is_compressed(path))
}

#[test]
fn fastx_from_fasta() {
    let path = "data/my.fa";

    let actual = Fastx::from_path(path).unwrap();
    let expected = Fastx {
        path: String::from(path),
        filetype: FileType::Fasta,
        is_compressed: false,
    };

    assert_eq!(actual, expected)
}

#[test]
fn fastx_from_non_fastaq_fails() {
    let path = "data/my.gz";

    let actual = Fastx::from_path(path).unwrap_err();
    let expected = FastxError::UnknownFileType(String::from(path));

    assert_eq!(actual.type_id(), expected.type_id())
}

#[test]
fn fastx_from_compressed_fastq_records_compression() {
    let path = "data/my.fastq.gz";

    let actual = Fastx::from_path(path).unwrap();

    assert_eq!(actual.filetype, FileType::Fastq);
    assert!(actual.is_compressed)
}

#[test]
fn compression_suffix_alone_is_not_enough() {
    let path = "data/my.gz";

    assert!(is_compressed(path));
    assert!(FileType::from_path(path).is_err())
}
