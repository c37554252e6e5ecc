use crate::filetype::FileType;
use vstd::prelude::*;

verus! {

/// The bytes the record grammar singles out: newline and the three markers.
pub const NL: u8 = 10;

pub const FASTA_MARK: u8 = 62;

pub const FASTQ_MARK: u8 = 64;

pub const PLUS_MARK: u8 = 43;


/// Mathematical image of one sequence record: the header line's text after
/// its marker, the concatenated sequence bytes, and the quality bytes for a
/// fastq record (`None` for fasta).
#[verifier::ext_equal]
pub ghost struct RecView {
    pub header: Seq<u8>,
    pub seq: Seq<u8>,
    pub qual: Option<Seq<u8>>,
}

/// What scanning for the next record at a given position yields: the end of
/// the input, a malformed record, or a record together with the position
/// just past it.
#[verifier::ext_equal]
pub ghost enum Step {
    End,
    Bad,
    Next { rec: RecView, next: int },
}

/// Index of the first newline at or after `pos`, or the input's length.
pub open spec fn line_end(s: Seq<u8>, pos: int) -> int
    recommends
        0 <= pos <= s.len(),
    decreases s.len() - pos when 0 <= pos <= s.len()
{
    if pos >= s.len() {
        pos
    } else if s[pos] == NL {
        pos
    } else {
        line_end(s, pos + 1)
    }
}

/// Position of the line that follows a line ending at `e`.
pub open spec fn after_line(s: Seq<u8>, e: int) -> int {
    if e < s.len() {
        e + 1
    } else {
        s.len() as int
    }
}

pub proof fn lemma_line_end(s: Seq<u8>, pos: int)
    requires
        0 <= pos <= s.len(),
    ensures
        pos <= line_end(s, pos) <= s.len(),
        forall|i: int| pos <= i < line_end(s, pos) ==> s[i] != NL,
        line_end(s, pos) < s.len() ==> s[line_end(s, pos)] == NL,
    decreases s.len() - pos,
{
    if pos < s.len() && s[pos] != NL {
        lemma_line_end(s, pos + 1);
    }
}

/// The sequence bytes of a fasta record, read from `pos`: the concatenation
/// of whole lines up to the next header marker or the end of the input,
/// paired with the position where reading stopped.
pub open spec fn fasta_body(s: Seq<u8>, pos: int) -> (Seq<u8>, int)
    recommends
        0 <= pos <= s.len(),
    decreases s.len() - pos when 0 <= pos <= s.len() via fasta_body_dec
{
    if pos >= s.len() {
        (Seq::empty(), pos)
    } else if s[pos] == FASTA_MARK {
        (Seq::empty(), pos)
    } else {
        let e = line_end(s, pos);
        let rest = fasta_body(s, after_line(s, e));
        (s.subrange(pos, e) + rest.0, rest.1)
    }
}

#[via_fn]
proof fn fasta_body_dec(s: Seq<u8>, pos: int) {
    if 0 <= pos < s.len() && s[pos] != FASTA_MARK {
        lemma_line_end(s, pos);
    }
}

pub proof fn lemma_fasta_body(s: Seq<u8>, pos: int)
    requires
        0 <= pos <= s.len(),
    ensures
        pos <= fasta_body(s, pos).1 <= s.len(),
        fasta_body(s, pos).0.len() <= fasta_body(s, pos).1 - pos,
    decreases s.len() - pos,
{
    if pos < s.len() && s[pos] != FASTA_MARK {
        lemma_line_end(s, pos);
        lemma_fasta_body(s, after_line(s, line_end(s, pos)));
    }
}

/// Scan one fasta record at `pos`: a header line marked `>`, then sequence
/// lines up to the next marker or the end of the input.
pub open spec fn spec_next_fasta(s: Seq<u8>, pos: int) -> Step
    recommends
        0 <= pos <= s.len(),
{
    if pos >= s.len() {
        Step::End
    } else if s[pos] != FASTA_MARK {
        Step::Bad
    } else {
        let he = line_end(s, pos);
        let body = fasta_body(s, after_line(s, he));
        Step::Next {
            rec: RecView { header: s.subrange(pos + 1, he), seq: body.0, qual: None },
            next: body.1,
        }
    }
}

/// Scan one fastq record at `pos`: four lines, a header marked `@`, the
/// sequence, a separator marked `+`, and the quality text. A record cut off
/// before its quality line is malformed.
pub open spec fn spec_next_fastq(s: Seq<u8>, pos: int) -> Step
    recommends
        0 <= pos <= s.len(),
{
    if pos >= s.len() {
        Step::End
    } else if s[pos] != FASTQ_MARK {
        Step::Bad
    } else {
        let he = line_end(s, pos);
        let sstart = after_line(s, he);
        if sstart >= s.len() {
            Step::Bad
        } else {
            let se = line_end(s, sstart);
            let pstart = after_line(s, se);
            if pstart >= s.len() || s[pstart] != PLUS_MARK {
                Step::Bad
            } else {
                let pe = line_end(s, pstart);
                let qstart = after_line(s, pe);
                if qstart >= s.len() {
                    Step::Bad
                } else {
                    let qe = line_end(s, qstart);
                    Step::Next {
                        rec: RecView {
                            header: s.subrange(pos + 1, he),
                            seq: s.subrange(sstart, se),
                            qual: Some(s.subrange(qstart, qe)),
                        },
                        next: after_line(s, qe),
                    }
                }
            }
        }
    }
}

/// Scan one record of either format.
pub open spec fn spec_next(s: Seq<u8>, ft: FileType, pos: int) -> Step
    recommends
        0 <= pos <= s.len(),
{
    match ft {
        FileType::Fasta => spec_next_fasta(s, pos),
        FileType::Fastq => spec_next_fastq(s, pos),
    }
}

/// A scanned record strictly advances the position and stays in bounds, and
/// its parts are no longer than the input.
pub proof fn lemma_next_progress(s: Seq<u8>, ft: FileType, pos: int)
    requires
        0 <= pos <= s.len(),
    ensures
        match spec_next(s, ft, pos) {
            Step::Next { rec, next } => pos < next <= s.len() && rec.seq.len() <= s.len(),
            _ => true,
        },
{
    if pos < s.len() {
        lemma_line_end(s, pos);
        match ft {
            FileType::Fasta => {
                if s[pos] == FASTA_MARK {
                    let he = line_end(s, pos);
                    lemma_fasta_body(s, after_line(s, he));
                }
            },
            FileType::Fastq => {
                if s[pos] == FASTQ_MARK {
                    let he = line_end(s, pos);
                    let sstart = after_line(s, he);
                    if sstart < s.len() {
                        lemma_line_end(s, sstart);
                        let se = line_end(s, sstart);
                        let pstart = after_line(s, se);
                        if pstart < s.len() && s[pstart] == PLUS_MARK {
                            lemma_line_end(s, pstart);
                            let pe = line_end(s, pstart);
                            let qstart = after_line(s, pe);
                            if qstart < s.len() {
                                lemma_line_end(s, qstart);
                            }
                        }
                    }
                }
            },
        }
    }
}

/// All records of the input from `pos` on, in order, or `None` when a
/// malformed record is met before the end of the input.
pub open spec fn spec_records(s: Seq<u8>, ft: FileType, pos: int) -> Option<Seq<RecView>>
    recommends
        0 <= pos <= s.len(),
    decreases s.len() - pos when 0 <= pos <= s.len() via spec_records_dec
{
    match spec_next(s, ft, pos) {
        Step::End => Some(Seq::empty()),
        Step::Bad => None,
        Step::Next { rec, next } => match spec_records(s, ft, next) {
            Some(rest) => Some(seq![rec] + rest),
            None => None,
        },
    }
}

#[via_fn]
proof fn spec_records_dec(s: Seq<u8>, ft: FileType, pos: int) {
    if 0 <= pos <= s.len() {
        lemma_next_progress(s, ft, pos);
    }
}

/// A fasta body is single-line text that cannot open a header line: the
/// scan strips every newline and stops before any marker.
proof fn lemma_fasta_body_clean(s: Seq<u8>, pos: int)
    requires
        0 <= pos <= s.len(),
    ensures
        newline_free(fasta_body(s, pos).0),
        fasta_body(s, pos).0.len() == 0 || fasta_body(s, pos).0[0] != FASTA_MARK,
    decreases s.len() - pos,
{
    if pos < s.len() && s[pos] != FASTA_MARK {
        lemma_line_end(s, pos);
        let e = line_end(s, pos);
        lemma_fasta_body_clean(s, after_line(s, e));
        let line = s.subrange(pos, e);
        let rest = fasta_body(s, after_line(s, e)).0;
        assert(forall|i: int| 0 <= i < line.len() ==> line[i] != NL);
        assert(newline_free(line + rest));
        if line.len() > 0 {
            assert((line + rest)[0] == s[pos]);
        }
    }
}

/// Every record the scanner yields renders cleanly: its parts are single
/// lines, and a fasta sequence cannot be mistaken for a header line. So
/// scanning and rendering are inverse in both directions.
pub proof fn lemma_next_clean(s: Seq<u8>, ft: FileType, pos: int)
    requires
        0 <= pos <= s.len(),
    ensures
        match spec_next(s, ft, pos) {
            Step::Next { rec, next } => renders_cleanly(rec, ft),
            _ => true,
        },
{
    if pos < s.len() {
        lemma_line_end(s, pos);
        match ft {
            FileType::Fasta => {
                if s[pos] == FASTA_MARK {
                    lemma_fasta_body_clean(s, after_line(s, line_end(s, pos)));
                }
            },
            FileType::Fastq => {
                if s[pos] == FASTQ_MARK {
                    let he = line_end(s, pos);
                    let sstart = after_line(s, he);
                    if sstart < s.len() {
                        lemma_line_end(s, sstart);
                        let se = line_end(s, sstart);
                        let pstart = after_line(s, se);
                        if pstart < s.len() && s[pstart] == PLUS_MARK {
                            lemma_line_end(s, pstart);
                            let qstart = after_line(s, line_end(s, pstart));
                            if qstart < s.len() {
                                lemma_line_end(s, qstart);
                            }
                        }
                    }
                }
            },
        }
    }
}

/// Every record of a parseable input renders cleanly.
pub proof fn lemma_records_clean(s: Seq<u8>, ft: FileType, pos: int)
    requires
        0 <= pos <= s.len(),
    ensures
        match spec_records(s, ft, pos) {
            Some(recs) => forall|i: int|
                0 <= i < recs.len() ==> renders_cleanly(#[trigger] recs[i], ft),
            None => true,
        },
    decreases s.len() - pos,
{
    match spec_next(s, ft, pos) {
        Step::End => {},
        Step::Bad => {},
        Step::Next { rec, next } => {
            lemma_next_progress(s, ft, pos);
            lemma_next_clean(s, ft, pos);
            lemma_records_clean(s, ft, next);
            match spec_records(s, ft, next) {
                Some(rest) => {
                    let recs = seq![rec] + rest;
                    assert(spec_records(s, ft, pos) == Some(recs));
                    assert forall|i: int| 0 <= i < recs.len() implies renders_cleanly(
                        #[trigger] recs[i],
                        ft,
                    ) by {
                        if i > 0 {
                            assert(recs[i] == rest[i - 1]);
                        }
                    }
                },
                None => {},
            }
        },
    }
}

/// A record's native text form: `>{header}\n{seq}\n` for fasta, and
/// `@{header}\n{seq}\n+\n{qual}\n` for fastq.
pub open spec fn spec_render(r: RecView) -> Seq<u8> {
    match r.qual {
        None => seq![FASTA_MARK] + r.header + seq![NL] + r.seq + seq![NL],
        Some(q) => seq![FASTQ_MARK] + r.header + seq![NL] + r.seq + seq![NL, PLUS_MARK, NL] + q
            + seq![NL],
    }
}

/// No newline anywhere in `x`: it fits on one line of a record's text.
pub open spec fn newline_free(x: Seq<u8>) -> bool {
    forall|i: int| 0 <= i < x.len() ==> x[i] != NL
}

/// A record whose native text parses back to itself: every part fits on its
/// line, and a fasta sequence does not begin like a header line. Every
/// record the scanner produces is of this shape.
pub open spec fn renders_cleanly(r: RecView, ft: FileType) -> bool {
    match ft {
        FileType::Fasta => r.qual is None && newline_free(r.header) && newline_free(r.seq) && (
        r.seq.len() == 0 || r.seq[0] != FASTA_MARK),
        FileType::Fastq => newline_free(r.header) && newline_free(r.seq) && (r.qual matches Some(q)
            && newline_free(q)),
    }
}

/// One sequence record: header text (without its marker), sequence bytes,
/// and quality bytes for fastq records.
pub struct Record {
    pub header: Vec<u8>,
    pub seq: Vec<u8>,
    pub qual: Option<Vec<u8>>,
}

impl View for Record {
    type V = RecView;

    open spec fn view(&self) -> RecView {
        RecView {
            header: self.header@,
            seq: self.seq@,
            qual: match self.qual {
                Some(q) => Some(q@),
                None => None,
            },
        }
    }
}

impl Record {
    /// Append the record's native text form to `out`.
    pub fn render_into(&self, out: &mut Vec<u8>)
        ensures
            final(out)@ == old(out)@ + spec_render(self@),
    {
        match &self.qual {
            None => {
                out.push(FASTA_MARK);
                append_range(out, self.header.as_slice(), 0, self.header.len());
                out.push(NL);
                append_range(out, self.seq.as_slice(), 0, self.seq.len());
                out.push(NL);
            },
            Some(q) => {
                out.push(FASTQ_MARK);
                append_range(out, self.header.as_slice(), 0, self.header.len());
                out.push(NL);
                append_range(out, self.seq.as_slice(), 0, self.seq.len());
                out.push(NL);
                out.push(PLUS_MARK);
                out.push(NL);
                append_range(out, q.as_slice(), 0, q.len());
                out.push(NL);
            },
        }
        assert(out@ =~= old(out)@ + spec_render(self@));
    }
}

/// Append `data[a..b]` to `out`.
fn append_range(out: &mut Vec<u8>, data: &[u8], a: usize, b: usize)
    requires
        a <= b <= data@.len(),
    ensures
        final(out)@ == old(out)@ + data@.subrange(a as int, b as int),
{
    let mut i = a;
    while i < b
        invariant
            a <= i <= b,
            b <= data@.len(),
            out@ == old(out)@ + data@.subrange(a as int, i as int),
        decreases b - i,
    {
        out.push(data[i]);
        proof {
            assert(out@ =~= old(out)@ + data@.subrange(a as int, i + 1));
        }
        i = i + 1;
    }
    assert(out@ =~= old(out)@ + data@.subrange(a as int, b as int));
}

/// Index of the first newline at or after `pos`, or the input's length.
fn find_line_end(data: &[u8], pos: usize) -> (e: usize)
    requires
        pos <= data@.len(),
    ensures
        e == line_end(data@, pos as int),
{
    let n = data.len();
    let mut i = pos;
    while i < n
        invariant
            pos <= i <= n,
            n == data@.len(),
            line_end(data@, pos as int) == line_end(data@, i as int),
        decreases n - i,
    {
        if data[i] == NL {
            return i;
        }
        i = i + 1;
    }
    i
}

/// Copy `data[a..b]` out into a fresh buffer.
fn copy_range(data: &[u8], a: usize, b: usize) -> (v: Vec<u8>)
    requires
        a <= b <= data@.len(),
    ensures
        v@ == data@.subrange(a as int, b as int),
{
    vstd::slice::slice_to_vec(vstd::slice::slice_subrange(data, a, b))
}

/// What one scanning step found in the input.
pub enum Scanned {
    /// No record starts here: the input is exhausted.
    Finished,
    /// The bytes at this position are not a well-formed record.
    Malformed,
    /// A record, and the position just past it.
    Parsed { rec: Record, next: usize },
}

/// Scan the record that starts at `pos`, mirroring `spec_next`.
pub fn next_record(data: &[u8], pos: usize, ft: FileType) -> (r: Scanned)
    requires
        pos <= data@.len(),
    ensures
        match r {
            Scanned::Finished => spec_next(data@, ft, pos as int) == Step::End,
            Scanned::Malformed => spec_next(data@, ft, pos as int) == Step::Bad,
            Scanned::Parsed { rec, next } => pos < next <= data@.len() && spec_next(
                data@,
                ft,
                pos as int,
            ) == (Step::Next { rec: rec@, next: next as int }),
        },
{
    match ft {
        FileType::Fasta => next_fasta(data, pos),
        FileType::Fastq => next_fastq(data, pos),
    }
}

fn next_fasta(data: &[u8], pos: usize) -> (r: Scanned)
    requires
        pos <= data@.len(),
    ensures
        match r {
            Scanned::Finished => spec_next_fasta(data@, pos as int) == Step::End,
            Scanned::Malformed => spec_next_fasta(data@, pos as int) == Step::Bad,
            Scanned::Parsed { rec, next } => pos < next <= data@.len() && spec_next_fasta(
                data@,
                pos as int,
            ) == (Step::Next { rec: rec@, next: next as int }),
        },
{
    let n = data.len();
    if pos == n {
        return Scanned::Finished;
    }
    if data[pos] != FASTA_MARK {
        return Scanned::Malformed;
    }
    let he = find_line_end(data, pos);
    proof {
        lemma_line_end(data@, pos as int);
    }
    let header = copy_range(data, pos + 1, he);
    let body_start: usize = if he < n {
        he + 1
    } else {
        n
    };
    let ghost bstart = body_start as int;
    let mut cur = body_start;
    let mut sq: Vec<u8> = Vec::new();
    while cur < n && data[cur] != FASTA_MARK
        invariant
            bstart <= cur <= n,
            n == data@.len(),
            fasta_body(data@, bstart).0 == sq@ + fasta_body(data@, cur as int).0,
            fasta_body(data@, bstart).1 == fasta_body(data@, cur as int).1,
        decreases n - cur,
    {
        let le = find_line_end(data, cur);
        proof {
            lemma_line_end(data@, cur as int);
        }
        let ghost prev = cur as int;
        let ghost sq_prev = sq@;
        append_range(&mut sq, data, cur, le);
        cur = if le < n {
            le + 1
        } else {
            n
        };
        proof {
            assert(after_line(data@, line_end(data@, prev)) == cur as int);
            assert(fasta_body(data@, prev).0 == data@.subrange(prev, line_end(data@, prev))
                + fasta_body(data@, cur as int).0);
            assert(fasta_body(data@, bstart).0 =~= sq@ + fasta_body(data@, cur as int).0);
        }
    }
    proof {
        assert(fasta_body(data@, cur as int).0 =~= Seq::<u8>::empty());
        assert(fasta_body(data@, bstart).0 =~= sq@);
        assert(fasta_body(data@, cur as int).1 == cur as int);
        assert(after_line(data@, line_end(data@, pos as int)) == bstart);
    }
    Scanned::Parsed { rec: Record { header, seq: sq, qual: None }, next: cur }
}

fn next_fastq(data: &[u8], pos: usize) -> (r: Scanned)
    requires
        pos <= data@.len(),
    ensures
        match r {
            Scanned::Finished => spec_next_fastq(data@, pos as int) == Step::End,
            Scanned::Malformed => spec_next_fastq(data@, pos as int) == Step::Bad,
            Scanned::Parsed { rec, next } => pos < next <= data@.len() && spec_next_fastq(
                data@,
                pos as int,
            ) == (Step::Next { rec: rec@, next: next as int }),
        },
{
    let n = data.len();
    if pos == n {
        return Scanned::Finished;
    }
    if data[pos] != FASTQ_MARK {
        return Scanned::Malformed;
    }
    let he = find_line_end(data, pos);
    proof {
        lemma_line_end(data@, pos as int);
    }
    let sstart: usize = if he < n {
        he + 1
    } else {
        n
    };
    if sstart == n {
        return Scanned::Malformed;
    }
    let se = find_line_end(data, sstart);
    proof {
        lemma_line_end(data@, sstart as int);
    }
    let pstart: usize = if se < n {
        se + 1
    } else {
        n
    };
    if pstart == n {
        return Scanned::Malformed;
    }
    if data[pstart] != PLUS_MARK {
        return Scanned::Malformed;
    }
    let pe = find_line_end(data, pstart);
    proof {
        lemma_line_end(data@, pstart as int);
    }
    let qstart: usize = if pe < n {
        pe + 1
    } else {
        n
    };
    if qstart == n {
        return Scanned::Malformed;
    }
    let qe = find_line_end(data, qstart);
    proof {
        lemma_line_end(data@, qstart as int);
    }
    let header = copy_range(data, pos + 1, he);
    let sq = copy_range(data, sstart, se);
    let qual = copy_range(data, qstart, qe);
    let next: usize = if qe < n {
        qe + 1
    } else {
        n
    };
    Scanned::Parsed { rec: Record { header, seq: sq, qual: Some(qual) }, next }
}

} // verus!
