use fastx::errors::FastxError;
use fastx::fastx::Fastx;
use std::collections::HashSet;

fn wanted(indices: &[u32]) -> HashSet<u32> {
    let mut set: HashSet<u32> = HashSet::new();
    for i in indices {
        set.insert(*i);
    }
    set
}

#[test]
fn get_read_lengths_for_empty_fasta_returns_empty_vector() {
    let text = "";

    let actual = Fastx::read_lengths(text.as_bytes()).unwrap();
    let expected: Vec<u32> = Vec::new();

    assert_eq!(actual, expected)
}

#[test]
fn get_read_lengths_for_fasta() {
    let text = ">read1\nACGT\n>read2\nG";

    let actual = Fastx::read_lengths(text.as_bytes()).unwrap();
    let expected: Vec<u32> = vec![4, 1];

    assert_eq!(actual, expected)
}

#[test]
fn get_read_lengths_for_fastq() {
    let text = "@read1\nACGT\n+\n!!!!\n@read2\nG\n+\n!";

    let actual = Fastx::read_lengths(text.as_bytes()).unwrap();
    let expected: Vec<u32> = vec![4, 1];

    assert_eq!(actual, expected)
}

#[test]
fn get_read_lengths_for_multiline_fasta() {
    let text = ">r1\nACGT\nAC\n>r2\nG\n";

    let actual = Fastx::read_lengths(text.as_bytes()).unwrap();
    let expected: Vec<u32> = vec![6, 1];

    assert_eq!(actual, expected)
}

#[test]
fn get_read_lengths_rejects_unmarked_input() {
    let text = "read1\nACGT\n";

    let actual = Fastx::read_lengths(text.as_bytes()).unwrap_err();

    assert!(matches!(actual, FastxError::ParseError))
}

#[test]
fn get_read_lengths_rejects_truncated_fastq() {
    let text = "@read1\nACGT\n+\n";

    let actual = Fastx::read_lengths(text.as_bytes()).unwrap_err();

    assert!(matches!(actual, FastxError::ParseError))
}

#[test]
fn filter_reads_empty_indices_no_output() {
    let text = "@read1\nACGT\n+\n!!!!";
    let fastx = Fastx::from_path("in.fastq").unwrap();
    let reads_to_keep = wanted(&[]);
    let mut out: Vec<u8> = Vec::new();

    let filter_result = fastx.filter_reads_into(text.as_bytes(), reads_to_keep, &mut out);

    assert!(filter_result.is_ok());

    let actual = String::from_utf8(out).unwrap();
    let expected = String::new();

    assert_eq!(actual, expected)
}

#[test]
fn filter_fastq_reads_one_index_matches_only_read() {
    let text = "@read1\nACGT\n+\n!!!!\n";
    let fastx = Fastx::from_path("in.fastq").unwrap();
    let reads_to_keep = wanted(&[0]);
    let mut out: Vec<u8> = Vec::new();

    let filter_result = fastx.filter_reads_into(text.as_bytes(), reads_to_keep, &mut out);
    assert!(filter_result.is_ok());

    let actual = String::from_utf8(out).unwrap();
    let expected = text;

    assert_eq!(actual, expected)
}

#[test]
fn filter_fasta_reads_one_index_matches_only_read() {
    let text = ">read1\nACGT\n";
    let fastx = Fastx::from_path("in.fa").unwrap();
    let reads_to_keep = wanted(&[0]);
    let mut out: Vec<u8> = Vec::new();

    let filter_result = fastx.filter_reads_into(text.as_bytes(), reads_to_keep, &mut out);
    assert!(filter_result.is_ok());

    let actual = String::from_utf8(out).unwrap();
    let expected = text;

    assert_eq!(actual, expected)
}

#[test]
fn filter_fastq_reads_one_index_matches_one_of_two_reads() {
    let text = "@read1\nACGT\n+\n!!!!\n@read2\nCCCC\n+\n$$$$\n";
    let fastx = Fastx::from_path("in.fastq").unwrap();
    let reads_to_keep = wanted(&[1]);
    let mut out: Vec<u8> = Vec::new();

    let filter_result = fastx.filter_reads_into(text.as_bytes(), reads_to_keep, &mut out);
    assert!(filter_result.is_ok());

    let actual = String::from_utf8(out).unwrap();
    let expected = "@read2\nCCCC\n+\n$$$$\n";

    assert_eq!(actual, expected)
}

#[test]
fn filter_fastq_reads_two_indices_matches_first_and_last_reads() {
    let text = "@read1\nACGT\n+\n!!!!\n@read2\nCCCC\n+\n$$$$\n@read3\nA\n+\n$\n";
    let fastx = Fastx::from_path("in.fastq").unwrap();
    let reads_to_keep = wanted(&[0, 2]);
    let mut out: Vec<u8> = Vec::new();

    let filter_result = fastx.filter_reads_into(text.as_bytes(), reads_to_keep, &mut out);
    assert!(filter_result.is_ok());

    let actual = String::from_utf8(out).unwrap();
    let expected = "@read1\nACGT\n+\n!!!!\n@read3\nA\n+\n$\n";

    assert_eq!(actual, expected)
}

#[test]
fn filter_fasta_reads_one_index_out_of_range() {
    let text = ">read1 length=4\nACGT\n>read2\nCCCC\n";
    let fastx = Fastx::from_path("in.fa").unwrap();
    let reads_to_keep = wanted(&[0, 2]);
    let mut out: Vec<u8> = Vec::new();

    let filter_result = fastx.filter_reads_into(text.as_bytes(), reads_to_keep, &mut out);
    assert!(filter_result.is_err());

    let actual = String::from_utf8(out).unwrap();
    let expected = ">read1 length=4\nACGT\n";

    assert_eq!(actual, expected)
}

#[test]
fn filter_fastq_reads_one_index_out_of_range() {
    let text = "@read1 length=4\nACGT\n+\n!!!!\n@read2\nC\n+\n^\n";
    let fastx = Fastx::from_path("in.fq").unwrap();
    let reads_to_keep = wanted(&[0, 2]);
    let mut out: Vec<u8> = Vec::new();

    let filter_result = fastx.filter_reads_into(text.as_bytes(), reads_to_keep, &mut out);
    assert!(filter_result.is_err());

    let actual = String::from_utf8(out).unwrap();
    let expected = "@read1 length=4\nACGT\n+\n!!!!\n";

    assert_eq!(actual, expected)
}

#[test]
fn filter_full_set_reproduces_fasta_file() {
    let text = ">read1 length=4\nACGT\n>read2\nCCCC\n";
    let fastx = Fastx::from_path("in.fa").unwrap();
    let reads_to_keep = wanted(&[0, 1]);
    let mut out: Vec<u8> = Vec::new();

    let filter_result = fastx.filter_reads_into(text.as_bytes(), reads_to_keep, &mut out);
    assert!(filter_result.is_ok());

    let actual = String::from_utf8(out).unwrap();

    assert_eq!(actual, text)
}

#[test]
fn filter_twice_with_same_set_gives_identical_output() {
    let text = "@read1\nACGT\n+\n!!!!\n@read2\nCCCC\n+\n$$$$\n";
    let fastx = Fastx::from_path("in.fastq").unwrap();
    let mut first: Vec<u8> = Vec::new();
    let mut second: Vec<u8> = Vec::new();

    let first_result = fastx.filter_reads_into(text.as_bytes(), wanted(&[0]), &mut first);
    let second_result = fastx.filter_reads_into(text.as_bytes(), wanted(&[0]), &mut second);

    assert!(first_result.is_ok());
    assert!(second_result.is_ok());
    assert_eq!(first, second)
}

#[test]
fn filter_empty_indices_ignores_malformed_input() {
    let text = "this is not a sequence file";
    let fastx = Fastx::from_path("in.fa").unwrap();
    let reads_to_keep = wanted(&[]);
    let mut out: Vec<u8> = Vec::new();

    let filter_result = fastx.filter_reads_into(text.as_bytes(), reads_to_keep, &mut out);

    assert!(filter_result.is_ok());
    assert!(out.is_empty())
}

#[test]
fn filter_empty_input_nonempty_indices_reports_missing() {
    let text = "";
    let fastx = Fastx::from_path("in.fastq").unwrap();
    let reads_to_keep = wanted(&[5]);
    let mut out: Vec<u8> = Vec::new();

    let filter_result = fastx.filter_reads_into(text.as_bytes(), reads_to_keep, &mut out);

    assert!(matches!(filter_result.unwrap_err(), FastxError::IndicesNotFound));
    assert!(out.is_empty())
}

#[test]
fn filter_malformed_record_reports_parse_error() {
    let text = "not a fasta record";
    let fastx = Fastx::from_path("in.fa").unwrap();
    let reads_to_keep = wanted(&[0]);
    let mut out: Vec<u8> = Vec::new();

    let filter_result = fastx.filter_reads_into(text.as_bytes(), reads_to_keep, &mut out);

    assert!(matches!(filter_result.unwrap_err(), FastxError::ParseError));
    assert!(out.is_empty())
}

#[test]
fn filter_stops_early_before_later_garbage() {
    let text = "@read1\nACGT\n+\n!!!!\nnot a record at all";
    let fastx = Fastx::from_path("in.fastq").unwrap();
    let reads_to_keep = wanted(&[0]);
    let mut out: Vec<u8> = Vec::new();

    let filter_result = fastx.filter_reads_into(text.as_bytes(), reads_to_keep, &mut out);

    assert!(filter_result.is_ok());

    let actual = String::from_utf8(out).unwrap();
    let expected = "@read1\nACGT\n+\n!!!!\n";

    assert_eq!(actual, expected)
}

#[test]
fn filter_appends_after_existing_output() {
    let text = ">read1\nACGT\n";
    let fastx = Fastx::from_path("in.fa").unwrap();
    let reads_to_keep = wanted(&[0]);
    let mut out: Vec<u8> = Vec::from("existing".as_bytes());

    let filter_result = fastx.filter_reads_into(text.as_bytes(), reads_to_keep, &mut out);
    assert!(filter_result.is_ok());

    let actual = String::from_utf8(out).unwrap();
    let expected = "existing>read1\nACGT\n";

    assert_eq!(actual, expected)
}

#[test]
fn get_read_lengths_for_fasta_with_empty_record() {
    let text = ">r1\n\n>r2\nAC\n";

    let actual = Fastx::read_lengths(text.as_bytes()).unwrap();
    let expected: Vec<u32> = vec![0, 2];

    assert_eq!(actual, expected)
}
