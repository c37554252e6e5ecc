use crate::errors::FastxError;
use crate::filetype::{spec_classify, FileType};
use crate::record::{
    lemma_next_progress, next_record, spec_next, spec_records, spec_render, RecView, Scanned,
    Step, FASTA_MARK, FASTQ_MARK,
};
use std::collections::HashSet;
use vstd::prelude::*;

verus! {

broadcast use vstd::std_specs::hash::group_hash_axioms;

/// A fasta or fastq file, named by its path, with format and compression
/// derived from the path's extension chain once, at construction.
#[derive(Debug)]
pub struct Fastx {
    pub path: String,
    pub filetype: FileType,
    pub is_compressed: bool,
}

impl PartialEq for Fastx {
    fn eq(&self, other: &Fastx) -> bool {
        self.path == other.path && self.filetype == other.filetype && self.is_compressed
            == other.is_compressed
    }
}

impl vstd::std_specs::cmp::PartialEqSpecImpl for Fastx {
    open spec fn obeys_eq_spec() -> bool {
        true
    }

    open spec fn eq_spec(&self, other: &Fastx) -> bool {
        self.path@ == other.path@ && self.filetype == other.filetype && self.is_compressed
            == other.is_compressed
    }
}

/// The per-record sequence lengths of `rs`, in order.
pub open spec fn lengths_of(rs: Seq<RecView>) -> Seq<nat> {
    rs.map_values(|r: RecView| r.seq.len())
}

/// The outcome of a length scan: the lengths of all records, in encounter
/// order, or `None` when some record is malformed. The format is inferred
/// from the input's first byte; an empty input has no records.
pub open spec fn spec_lengths(s: Seq<u8>) -> Option<Seq<nat>> {
    if s.len() == 0 {
        Some(Seq::empty())
    } else if s[0] == FASTA_MARK {
        match spec_records(s, FileType::Fasta, 0) {
            Some(rs) => Some(lengths_of(rs)),
            None => None,
        }
    } else if s[0] == FASTQ_MARK {
        match spec_records(s, FileType::Fastq, 0) {
            Some(rs) => Some(lengths_of(rs)),
            None => None,
        }
    } else {
        None
    }
}

/// How a filtering pass ends: every wanted index was found, some were not,
/// or a record could not be parsed first.
pub enum Outcome {
    Success,
    MissingIndices,
    BadRecord,
}

/// The bytes a filtering pass writes and how it ends, scanning records from
/// `pos` with the next record holding ordinal position `idx`: each record
/// whose position lies in `wanted` is rendered and its position removed;
/// the pass stops as soon as `wanted` is empty, and otherwise ends at the
/// first malformed record or at the end of the input.
pub open spec fn spec_filter(s: Seq<u8>, ft: FileType, pos: int, idx: int, wanted: Set<u32>) -> (
    Seq<u8>,
    Outcome,
)
    recommends
        0 <= pos <= s.len(),
    decreases s.len() - pos when 0 <= pos <= s.len() via spec_filter_dec
{
    if wanted.is_empty() {
        (Seq::empty(), Outcome::Success)
    } else {
        match spec_next(s, ft, pos) {
            Step::End => (Seq::empty(), Outcome::MissingIndices),
            Step::Bad => (Seq::empty(), Outcome::BadRecord),
            Step::Next { rec, next } => {
                if 0 <= idx <= u32::MAX && wanted.contains(idx as u32) {
                    let rest = spec_filter(s, ft, next, idx + 1, wanted.remove(idx as u32));
                    (spec_render(rec) + rest.0, rest.1)
                } else {
                    spec_filter(s, ft, next, idx + 1, wanted)
                }
            },
        }
    }
}

#[via_fn]
proof fn spec_filter_dec(s: Seq<u8>, ft: FileType, pos: int, idx: int, wanted: Set<u32>) {
    if 0 <= pos <= s.len() {
        lemma_next_progress(s, ft, pos);
    }
}

impl Fastx {
    /// Classify `path` and build the handle; an unrecognized extension chain
    /// fails, carrying the path verbatim.
    pub fn from_path(path: &str) -> (r: Result<Fastx, FastxError>)
        ensures
            match r {
                Result::Ok(f) => spec_classify(path@) matches Some(c) && f.path@ == path@
                    && f.filetype == c.0 && f.is_compressed == c.1,
                Result::Err(e) => spec_classify(path@) is None && (e
                    matches FastxError::UnknownFileType(p) && p@ == path@),
            },
    {
        match FileType::from_path(path) {
            Ok(ft) => {
                let compressed = crate::filetype::is_compressed(path);
                Ok(Fastx { path: path.to_owned(), filetype: ft, is_compressed: compressed })
            },
            Err(e) => Err(e),
        }
    }

    /// The sequence length of every record in `data`, in encounter order; a
    /// malformed record aborts the scan, discarding all lengths. The format
    /// is read off the first byte, as content-sniffing readers do.
    pub fn read_lengths(data: &[u8]) -> (r: Result<Vec<u32>, FastxError>)
        requires
            data@.len() <= u32::MAX,
        ensures
            match r {
                Result::Ok(v) => spec_lengths(data@) matches Some(ls) && v@.len() == ls.len()
                    && (forall|i: int| 0 <= i < ls.len() ==> v@[i] == ls[i]),
                Result::Err(e) => spec_lengths(data@) is None && e is ParseError,
            },
    {
        let n = data.len();
        if n == 0 {
            let v: Vec<u32> = Vec::new();
            return Ok(v);
        }
        let ft = if data[0] == FASTA_MARK {
            FileType::Fasta
        } else if data[0] == FASTQ_MARK {
            FileType::Fastq
        } else {
            return Err(FastxError::ParseError);
        };
        let mut lengths: Vec<u32> = Vec::new();
        let ghost mut seen: Seq<RecView> = Seq::empty();
        let mut pos: usize = 0;
        loop
            invariant
                pos <= n,
                n == data@.len(),
                n <= u32::MAX,
                n > 0,
                data@[0] == FASTA_MARK || data@[0] == FASTQ_MARK,
                ft == (if data@[0] == FASTA_MARK {
                    FileType::Fasta
                } else {
                    FileType::Fastq
                }),
                lengths@.len() == seen.len(),
                forall|i: int| 0 <= i < seen.len() ==> lengths@[i] == seen[i].seq.len(),
                spec_records(data@, ft, pos as int) matches Some(rest) ==> spec_records(
                    data@,
                    ft,
                    0,
                ) == Some(seen + rest),
                spec_records(data@, ft, pos as int) is None ==> spec_records(data@, ft, 0) is None,
            decreases n - pos,
        {
            match next_record(data, pos, ft) {
                Scanned::Finished => {
                    proof {
                        assert(spec_records(data@, ft, pos as int) == Some(Seq::<RecView>::empty()));
                        assert(seen + Seq::<RecView>::empty() =~= seen);
                        assert(spec_lengths(data@) == Some(lengths_of(seen)));
                    }
                    return Ok(lengths);
                },
                Scanned::Malformed => {
                    proof {
                        assert(spec_records(data@, ft, pos as int) is None);
                    }
                    return Err(FastxError::ParseError);
                },
                Scanned::Parsed { rec, next } => {
                    proof {
                        lemma_next_progress(data@, ft, pos as int);
                        match spec_records(data@, ft, next as int) {
                            Some(rest2) => {
                                assert(spec_records(data@, ft, pos as int) == Some(
                                    seq![rec@] + rest2,
                                ));
                                assert(seen + (seq![rec@] + rest2) =~= seen.push(rec@) + rest2);
                            },
                            None => {},
                        }
                    }
                    lengths.push(rec.seq.len() as u32);
                    proof {
                        seen = seen.push(rec@);
                    }
                    pos = next;
                },
            }
        }
    }

    /// Copy every record of `data` whose zero-based position lies in
    /// `reads_to_keep` to `write_to`, in input order and in native text form.
    /// Scanning stops as soon as all wanted positions are found; a malformed
    /// record fails the pass at once; positions still wanted when the input
    /// ends are reported as missing. Output written before a failure stays.
    pub fn filter_reads_into(
        &self,
        data: &[u8],
        reads_to_keep: HashSet<u32>,
        write_to: &mut Vec<u8>,
    ) -> (r: Result<(), FastxError>)
        ensures
            final(write_to)@ == old(write_to)@ + spec_filter(
                data@,
                self.filetype,
                0,
                0,
                reads_to_keep@,
            ).0,
            match spec_filter(data@, self.filetype, 0, 0, reads_to_keep@).1 {
                Outcome::Success => r is Ok,
                Outcome::MissingIndices => r matches Err(FastxError::IndicesNotFound),
                Outcome::BadRecord => r matches Err(FastxError::ParseError),
            },
    {
        let ft = self.filetype;
        let ghost s = data@;
        let ghost w0 = reads_to_keep@;
        let mut wanted = reads_to_keep;
        let mut pos: usize = 0;
        let mut idx: usize = 0;
        let ghost mut acc: Seq<u8> = Seq::empty();
        loop
            invariant
                pos <= data@.len(),
                idx <= pos,
                s == data@,
                ft == self.filetype,
                w0 == reads_to_keep@,
                write_to@ == old(write_to)@ + acc,
                spec_filter(s, ft, 0, 0, w0).0 == acc + spec_filter(
                    s,
                    ft,
                    pos as int,
                    idx as int,
                    wanted@,
                ).0,
                spec_filter(s, ft, 0, 0, w0).1 == spec_filter(
                    s,
                    ft,
                    pos as int,
                    idx as int,
                    wanted@,
                ).1,
            decreases data@.len() - pos,
        {
            if wanted.is_empty() {
                proof {
                    assert(spec_filter(s, ft, pos as int, idx as int, wanted@).0
                        =~= Seq::<u8>::empty());
                    assert(acc + Seq::<u8>::empty() =~= acc);
                }
                return Ok(());
            }
            match next_record(data, pos, ft) {
                Scanned::Finished => {
                    proof {
                        assert(spec_filter(s, ft, pos as int, idx as int, wanted@).0
                            =~= Seq::<u8>::empty());
                        assert(acc + Seq::<u8>::empty() =~= acc);
                    }
                    return Err(FastxError::IndicesNotFound);
                },
                Scanned::Malformed => {
                    proof {
                        assert(spec_filter(s, ft, pos as int, idx as int, wanted@).0
                            =~= Seq::<u8>::empty());
                        assert(acc + Seq::<u8>::empty() =~= acc);
                    }
                    return Err(FastxError::ParseError);
                },
                Scanned::Parsed { rec, next } => {
                    let ghost w_old = wanted@;
                    let ghost acc_old = acc;
                    let in_wanted = idx <= u32::MAX as usize && wanted.contains(&(idx as u32));
                    if in_wanted {
                        rec.render_into(write_to);
                        wanted.remove(&(idx as u32));
                        proof {
                            acc = acc + spec_render(rec@);
                            assert(wanted@ == w_old.remove(idx as u32));
                            let rest = spec_filter(s, ft, next as int, idx as int + 1, wanted@);
                            assert(spec_filter(s, ft, pos as int, idx as int, w_old).0
                                == spec_render(rec@) + rest.0);
                            assert(acc_old + (spec_render(rec@) + rest.0) =~= acc + rest.0);
                            assert(write_to@ =~= old(write_to)@ + acc);
                        }
                    } else {
                        proof {
                            assert(spec_filter(s, ft, pos as int, idx as int, w_old)
                                == spec_filter(s, ft, next as int, idx as int + 1, wanted@));
                        }
                    }
                    pos = next;
                    idx = idx + 1;
                },
            }
        }
    }
}

} // verus!
