use crate::errors::FastxError;
use vstd::prelude::*;
use vstd::string::StrSliceExecFns;

verus! {

/// The two recognized sequence-file formats.
#[derive(Clone, Copy, Debug, PartialEq, Eq, Structural)]
pub enum FileType {
    Fasta,
    Fastq,
}

/// True when `p` ends with `suffix`.
pub open spec fn has_suffix(p: Seq<char>, suffix: Seq<char>) -> bool {
    p.len() >= suffix.len() && p.subrange(p.len() - suffix.len(), p.len() as int) =~= suffix
}

/// The single recognized compression suffix.
pub open spec fn spec_gz_suffix() -> Seq<char> {
    seq!['.', 'g', 'z']
}

/// Does the path name a fasta file, once any compression suffix is gone?
pub open spec fn spec_is_fasta(p: Seq<char>) -> bool {
    has_suffix(p, seq!['.', 'f', 'a']) || has_suffix(p, seq!['.', 'f', 'a', 's', 't', 'a'])
}

/// Does the path name a fastq file, once any compression suffix is gone?
pub open spec fn spec_is_fastq(p: Seq<char>) -> bool {
    has_suffix(p, seq!['.', 'f', 'q']) || has_suffix(p, seq!['.', 'f', 'a', 's', 't', 'q'])
}

/// Format and compression derived from a path, by its extension chain alone:
/// strip one trailing compression suffix, then match the remaining extension.
pub open spec fn spec_classify(p: Seq<char>) -> Option<(FileType, bool)> {
    if has_suffix(p, spec_gz_suffix()) {
        let stem = p.subrange(0, p.len() - spec_gz_suffix().len());
        if spec_is_fasta(stem) {
            Some((FileType::Fasta, true))
        } else if spec_is_fastq(stem) {
            Some((FileType::Fastq, true))
        } else {
            None
        }
    } else {
        if spec_is_fasta(p) {
            Some((FileType::Fasta, false))
        } else if spec_is_fastq(p) {
            Some((FileType::Fastq, false))
        } else {
            None
        }
    }
}

/// Reports whether `s` ends with `pat`, over the character views.
fn str_ends_with(s: &str, pat: &str) -> (r: bool)
    ensures
        r == has_suffix(s@, pat@),
{
    let n = s.unicode_len();
    let m = pat.unicode_len();
    if m > n {
        return false;
    }
    let mut i: usize = 0;
    while i < m
        invariant
            m <= n,
            n == s@.len(),
            m == pat@.len(),
            i <= m,
            forall|j: int| 0 <= j < i ==> s@[s@.len() - m + j] == pat@[j],
        decreases m - i,
    {
        if s.get_char(n - m + i) != pat.get_char(i) {
            assert(!has_suffix(s@, pat@)) by {
                if has_suffix(s@, pat@) {
                    assert(s@.subrange(s@.len() - m, s@.len() as int)[i as int] == pat@[i as int]);
                }
            }
            return false;
        }
        i = i + 1;
    }
    assert(has_suffix(s@, pat@)) by {
        assert(s@.subrange(s@.len() - m, s@.len() as int) =~= pat@);
    }
    true
}

/// Classify a path by its extension chain, mirroring `spec_classify`.
fn classify(path: &str) -> (r: Option<(FileType, bool)>)
    ensures
        r == spec_classify(path@),
{
    proof {
        reveal_strlit(".gz");
        reveal_strlit(".fa");
        reveal_strlit(".fasta");
        reveal_strlit(".fq");
        reveal_strlit(".fastq");
        assert(".gz"@ =~= spec_gz_suffix());
        assert(".fa"@ =~= seq!['.', 'f', 'a']);
        assert(".fasta"@ =~= seq!['.', 'f', 'a', 's', 't', 'a']);
        assert(".fq"@ =~= seq!['.', 'f', 'q']);
        assert(".fastq"@ =~= seq!['.', 'f', 'a', 's', 't', 'q']);
    }
    if str_ends_with(path, ".gz") {
        let n = path.unicode_len();
        let stem = path.substring_char(0, n - 3);
        if str_ends_with(stem, ".fa") || str_ends_with(stem, ".fasta") {
            Some((FileType::Fasta, true))
        } else if str_ends_with(stem, ".fq") || str_ends_with(stem, ".fastq") {
            Some((FileType::Fastq, true))
        } else {
            None
        }
    } else {
        if str_ends_with(path, ".fa") || str_ends_with(path, ".fasta") {
            Some((FileType::Fasta, false))
        } else if str_ends_with(path, ".fq") || str_ends_with(path, ".fastq") {
            Some((FileType::Fastq, false))
        } else {
            None
        }
    }
}

/// True when the path carries the recognized compression suffix.
pub fn is_compressed(path: &str) -> (r: bool)
    ensures
        r == has_suffix(path@, spec_gz_suffix()),
{
    proof {
        reveal_strlit(".gz");
        assert(".gz"@ =~= spec_gz_suffix());
    }
    str_ends_with(path, ".gz")
}

impl FileType {
    /// Derive the format from the path's extension, stripping one trailing
    /// compression suffix first. Unrecognized paths fail, carrying the path.
    pub fn from_path(path: &str) -> (r: Result<FileType, FastxError>)
        ensures
            match r {
                Result::Ok(ft) => spec_classify(path@) matches Some(c) && c.0 == ft,
                Result::Err(e) => spec_classify(path@) is None && (e matches FastxError::UnknownFileType(p)
                    && p@ == path@),
            },
    {
        match classify(path) {
            Some(c) => Ok(c.0),
            None => Err(FastxError::UnknownFileType(path.to_owned())),
        }
    }

    /// The same classification, read from a plain string.
    pub fn from_str(path: &str) -> (r: Result<FileType, FastxError>)
        ensures
            match r {
                Result::Ok(ft) => spec_classify(path@) matches Some(c) && c.0 == ft,
                Result::Err(e) => spec_classify(path@) is None && (e matches FastxError::UnknownFileType(p)
                    && p@ == path@),
            },
    {
        Self::from_path(path)
    }
}

} // verus!
