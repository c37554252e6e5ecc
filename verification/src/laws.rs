use crate::fastx::{spec_filter, Outcome};
use crate::filetype::FileType;
use crate::record::{
    after_line, fasta_body, lemma_next_progress, line_end, newline_free, renders_cleanly,
    spec_next, spec_records, spec_render, RecView, Step, FASTA_MARK, FASTQ_MARK, NL, PLUS_MARK,
};
use vstd::prelude::*;

verus! {

/// The native text of all records of `rs`, concatenated in order.
pub open spec fn spec_render_all(rs: Seq<RecView>) -> Seq<u8>
    decreases rs.len(),
{
    if rs.len() == 0 {
        Seq::empty()
    } else {
        spec_render(rs[0]) + spec_render_all(rs.drop_first())
    }
}

/// The bytes a filtering pass over the records `recs` selects, when the
/// first of them holds ordinal position `idx`: the renderings of exactly
/// those records whose position lies in `wanted`, in input order.
pub open spec fn spec_selected(recs: Seq<RecView>, wanted: Set<u32>, idx: int) -> Seq<u8>
    decreases recs.len(),
{
    if recs.len() == 0 {
        Seq::empty()
    } else {
        let head = if 0 <= idx <= u32::MAX && wanted.contains(idx as u32) {
            spec_render(recs[0])
        } else {
            Seq::<u8>::empty()
        };
        head + spec_selected(recs.drop_first(), wanted, idx + 1)
    }
}

/// A parseable tail of the input unfolds record by record.
proof fn lemma_records_unfold(s: Seq<u8>, ft: FileType, pos: int, recs: Seq<RecView>)
    requires
        0 <= pos <= s.len(),
        spec_records(s, ft, pos) == Some(recs),
    ensures
        recs.len() == 0 ==> spec_next(s, ft, pos) == Step::End,
        recs.len() > 0 ==> (spec_next(s, ft, pos) matches Step::Next { rec, next }
            && rec == recs[0] && pos < next <= s.len() && spec_records(s, ft, next) == Some(
            recs.drop_first(),
        )),
{
    match spec_next(s, ft, pos) {
        Step::End => {
            assert(recs =~= Seq::<RecView>::empty());
        },
        Step::Bad => {
            assert(false);
        },
        Step::Next { rec, next } => {
            lemma_next_progress(s, ft, pos);
            match spec_records(s, ft, next) {
                Some(rest) => {
                    assert(recs == seq![rec] + rest);
                    assert(recs[0] == rec);
                    assert(rest =~= recs.drop_first());
                },
                None => {
                    assert(false);
                },
            }
        },
    }
}

/// Selection only reads membership of the positions the records occupy.
proof fn lemma_selected_congruent(recs: Seq<RecView>, w1: Set<u32>, w2: Set<u32>, idx: int)
    requires
        forall|k: u32| idx <= (k as int) < idx + recs.len() ==> (w1.contains(k) == w2.contains(k)),
    ensures
        spec_selected(recs, w1, idx) == spec_selected(recs, w2, idx),
    decreases recs.len(),
{
    if recs.len() > 0 {
        if 0 <= idx <= u32::MAX {
            assert(w1.contains(idx as u32) == w2.contains(idx as u32));
        }
        lemma_selected_congruent(recs.drop_first(), w1, w2, idx + 1);
    }
}

/// A set containing no position at or past `idx` selects nothing.
proof fn lemma_selected_none(recs: Seq<RecView>, wanted: Set<u32>, idx: int)
    requires
        forall|k: u32| idx <= k as int ==> !wanted.contains(k),
    ensures
        spec_selected(recs, wanted, idx) == Seq::<u8>::empty(),
    decreases recs.len(),
{
    if recs.len() > 0 {
        lemma_selected_none(recs.drop_first(), wanted, idx + 1);
        assert(spec_selected(recs, wanted, idx) =~= Seq::<u8>::empty());
    }
}

/// A set whose only position at or past `idx` is `i`, a position some record
/// occupies, selects exactly that record.
proof fn lemma_selected_single(recs: Seq<RecView>, wanted: Set<u32>, idx: int, i: u32)
    requires
        0 <= idx,
        idx <= (i as int) < idx + recs.len(),
        wanted.contains(i),
        forall|k: u32| idx <= k as int && #[trigger] wanted.contains(k) ==> k == i,
    ensures
        spec_selected(recs, wanted, idx) == spec_render(recs[i as int - idx]),
    decreases recs.len(),
{
    if idx == i as int {
        lemma_selected_none(recs.drop_first(), wanted.remove(i), idx + 1);
        lemma_selected_congruent(recs.drop_first(), wanted, wanted.remove(i), idx + 1);
        assert(spec_selected(recs, wanted, idx) =~= spec_render(recs[0]));
    } else {
        if 0 <= idx <= u32::MAX && wanted.contains(idx as u32) {
            assert(idx as u32 == i);
            assert(false);
        }
        lemma_selected_single(recs.drop_first(), wanted, idx + 1, i);
        assert(spec_selected(recs, wanted, idx) =~= spec_render(recs[i as int - idx]));
    }
}

/// The filter characterized over the parsed records: on a fully parseable
/// input it writes exactly the renderings of the records at wanted
/// positions, in order, and succeeds precisely when every wanted position
/// is one some record occupies.
pub proof fn lemma_filter_selects(
    s: Seq<u8>,
    ft: FileType,
    recs: Seq<RecView>,
    wanted: Set<u32>,
    pos: int,
    idx: int,
)
    requires
        0 <= pos <= s.len(),
        0 <= idx,
        spec_records(s, ft, pos) == Some(recs),
    ensures
        spec_filter(s, ft, pos, idx, wanted).0 == spec_selected(recs, wanted, idx),
        spec_filter(s, ft, pos, idx, wanted).1 == (if (forall|k: u32|
            wanted.contains(k) ==> idx <= (k as int) < idx + recs.len()) {
            Outcome::Success
        } else {
            Outcome::MissingIndices
        }),
    decreases recs.len(),
{
    lemma_records_unfold(s, ft, pos, recs);
    if wanted.is_empty() {
        assert(forall|k: u32| !wanted.contains(k));
        lemma_selected_none(recs, wanted, idx);
    } else {
        if recs.len() == 0 {
            if forall|k: u32| !(#[trigger] wanted.contains(k)) {
                assert(wanted =~= Set::<u32>::empty());
                assert(false);
            }
            let k0 = choose|k: u32| wanted.contains(k);
            assert(wanted.contains(k0) && !(idx <= (k0 as int) < idx));
        } else {
            match spec_next(s, ft, pos) {
                Step::Next { rec, next } => {
                    let tail = recs.drop_first();
                    if 0 <= idx <= u32::MAX && wanted.contains(idx as u32) {
                        let w2 = wanted.remove(idx as u32);
                        lemma_filter_selects(s, ft, tail, w2, next, idx + 1);
                        assert forall|k: u32| idx + 1 <= (k as int) < idx + 1 + tail.len() implies (
                        w2.contains(k) == wanted.contains(k)) by {
                            assert(k != idx as u32);
                        }
                        lemma_selected_congruent(tail, w2, wanted, idx + 1);
                        assert(spec_filter(s, ft, pos, idx, wanted).0 == spec_render(rec)
                            + spec_selected(tail, wanted, idx + 1));
                        assert(spec_selected(recs, wanted, idx) == spec_render(recs[0])
                            + spec_selected(tail, wanted, idx + 1));
                        // success carries over: removing the matched position
                        // leaves exactly the positions of the remaining records
                        if forall|k: u32| wanted.contains(k) ==> idx <= (k as int) < idx
                            + recs.len() {
                            assert forall|k: u32| w2.contains(k) implies idx + 1 <= (k as int) < idx
                                + 1 + tail.len() by {
                                assert(wanted.contains(k));
                                assert(k != idx as u32);
                            }
                        } else {
                            let k0 = choose|k: u32|
                                wanted.contains(k) && !(idx <= (k as int) < idx + recs.len());
                            assert(k0 != idx as u32);
                            assert(w2.contains(k0) && !(idx + 1 <= (k0 as int) < idx + 1
                                + tail.len()));
                        }
                    } else {
                        lemma_filter_selects(s, ft, tail, wanted, next, idx + 1);
                        assert(spec_selected(recs, wanted, idx) =~= spec_selected(
                            tail,
                            wanted,
                            idx + 1,
                        ));
                        // the record just skipped occupies no wanted position,
                        // so both ranges admit the same sets
                        if forall|k: u32| wanted.contains(k) ==> idx + 1 <= (k as int) < idx + 1
                            + tail.len() {
                            assert(forall|k: u32| wanted.contains(k) ==> idx <= (k as int) < idx
                                + recs.len());
                        } else {
                            let k0 = choose|k: u32|
                                wanted.contains(k) && !(idx + 1 <= (k as int) < idx + 1
                                    + tail.len());
                            assert(wanted.contains(k0));
                            if k0 as int == idx {
                                assert(wanted.contains(idx as u32));
                                assert(false);
                            }
                            assert(!(idx <= (k0 as int) < idx + recs.len()));
                        }
                    }
                },
                _ => {
                    assert(false);
                },
            }
        }
    }
}


/// A set containing every position the records occupy selects them all.
proof fn lemma_selected_full(recs: Seq<RecView>, wanted: Set<u32>, idx: int)
    requires
        0 <= idx,
        idx + recs.len() <= (u32::MAX as int) + 1,
        forall|k: u32| idx <= (k as int) < idx + recs.len() ==> wanted.contains(k),
    ensures
        spec_selected(recs, wanted, idx) == spec_render_all(recs),
    decreases recs.len(),
{
    if recs.len() > 0 {
        assert(idx <= u32::MAX);
        assert(wanted.contains(idx as u32));
        lemma_selected_full(recs.drop_first(), wanted, idx + 1);
    }
}

/// Round trip: filtering an n-record input with the full position set
/// `{0, ..., n-1}` writes every record, in original order and native text
/// form, and succeeds.
pub proof fn lemma_filter_full_set_round_trip(
    s: Seq<u8>,
    ft: FileType,
    recs: Seq<RecView>,
    wanted: Set<u32>,
)
    requires
        spec_records(s, ft, 0) == Some(recs),
        recs.len() <= (u32::MAX as int) + 1,
        wanted == Set::new(|k: u32| (k as int) < recs.len()),
    ensures
        spec_filter(s, ft, 0, 0, wanted).0 == spec_render_all(recs),
        spec_filter(s, ft, 0, 0, wanted).1 == Outcome::Success,
{
    lemma_filter_selects(s, ft, recs, wanted, 0, 0);
    lemma_selected_full(recs, wanted, 0);
}

/// Idempotence: two filtering passes over the same input with equal wanted
/// sets write identical bytes and end the same way.
pub proof fn lemma_filter_idempotent(s: Seq<u8>, ft: FileType, w1: Set<u32>, w2: Set<u32>)
    requires
        w1 == w2,
    ensures
        spec_filter(s, ft, 0, 0, w1) == spec_filter(s, ft, 0, 0, w2),
{
}

/// An empty wanted set writes nothing and succeeds, whatever the input
/// holds.
pub proof fn lemma_filter_empty_wanted(s: Seq<u8>, ft: FileType, wanted: Set<u32>)
    requires
        wanted.is_empty(),
    ensures
        spec_filter(s, ft, 0, 0, wanted).0 == Seq::<u8>::empty(),
        spec_filter(s, ft, 0, 0, wanted).1 == Outcome::Success,
{
}

/// An empty input can satisfy no wanted position: nothing is written and
/// the missing indices are reported.
pub proof fn lemma_filter_empty_input(s: Seq<u8>, ft: FileType, wanted: Set<u32>)
    requires
        s.len() == 0,
        !wanted.is_empty(),
    ensures
        spec_filter(s, ft, 0, 0, wanted).0 == Seq::<u8>::empty(),
        spec_filter(s, ft, 0, 0, wanted).1 == Outcome::MissingIndices,
{
}

/// Partial match: a wanted set holding one position a record occupies and
/// one past the last record writes exactly the occupied record and reports
/// missing indices.
pub proof fn lemma_filter_partial_match(
    s: Seq<u8>,
    ft: FileType,
    recs: Seq<RecView>,
    i: u32,
    j: u32,
)
    requires
        spec_records(s, ft, 0) == Some(recs),
        (i as int) < recs.len(),
        (j as int) >= recs.len(),
    ensures
        spec_filter(s, ft, 0, 0, set![i, j]).0 == spec_render(recs[i as int]),
        spec_filter(s, ft, 0, 0, set![i, j]).1 == Outcome::MissingIndices,
{
    let w = set![i, j];
    lemma_filter_selects(s, ft, recs, w, 0, 0);
    let wi = set![i];
    assert forall|k: u32| 0 <= (k as int) < recs.len() implies (w.contains(k) == wi.contains(
        k,
    )) by {
        assert(k != j);
    }
    lemma_selected_congruent(recs, w, wi, 0);
    lemma_selected_single(recs, wi, 0, i);
    assert(w.contains(j) && !(0 <= (j as int) < recs.len()));
}


/// `line_end` finds exactly the first newline.
proof fn lemma_line_end_is(s: Seq<u8>, pos: int, e: int)
    requires
        0 <= pos <= e <= s.len(),
        forall|i: int| pos <= i < e ==> s[i] != NL,
        e == s.len() || s[e] == NL,
    ensures
        line_end(s, pos) == e,
    decreases e - pos,
{
    if pos < e {
        lemma_line_end_is(s, pos + 1, e);
    }
}

/// The byte that opens a record of the given format.
spec fn start_mark(ft: FileType) -> u8 {
    match ft {
        FileType::Fasta => FASTA_MARK,
        FileType::Fastq => FASTQ_MARK,
    }
}

/// A well-formed record's text opens with its format's marker.
proof fn lemma_render_starts_with_mark(r: RecView, ft: FileType)
    requires
        renders_cleanly(r, ft),
    ensures
        spec_render(r).len() >= 3,
        spec_render(r)[0] == start_mark(ft),
{
}

/// Scanning the text of one well-formed fasta record, laid down at `pos`
/// and followed by nothing or by another record's marker, yields exactly
/// that record.
proof fn lemma_rendered_step_fasta(s: Seq<u8>, r: RecView, pos: int)
    requires
        0 <= pos,
        pos + spec_render(r).len() <= s.len(),
        renders_cleanly(r, FileType::Fasta),
        forall|i: int| 0 <= i < spec_render(r).len() ==> s[pos + i] == spec_render(r)[i],
        pos + spec_render(r).len() < s.len() ==> s[pos + spec_render(r).len()] == FASTA_MARK,
    ensures
        spec_next(s, FileType::Fasta, pos) == (Step::Next {
            rec: r,
            next: pos + spec_render(r).len(),
        }),
{
    let rendered = spec_render(r);
    let hl = r.header.len() as int;
    let q = r.seq;
    let ql = q.len() as int;
    let bend = pos + rendered.len();
    assert(rendered == seq![FASTA_MARK] + r.header + seq![NL] + q + seq![NL]);
    assert(rendered.len() == 3 + hl + ql);
    assert(rendered[0] == FASTA_MARK);
    assert(forall|i: int| 0 <= i < hl ==> rendered[1 + i] == r.header[i]);
    assert(rendered[1 + hl] == NL);
    assert(forall|i: int| 0 <= i < ql ==> rendered[2 + hl + i] == q[i]);
    assert(rendered[2 + hl + ql] == NL);
    // the header line
    let he = pos + 1 + hl;
    assert forall|i: int| pos <= i < he implies s[i] != NL by {
        if i > pos {
            assert(s[i] == rendered[i - pos]);
            assert(rendered[i - pos] == r.header[i - pos - 1]);
        }
    }
    lemma_line_end_is(s, pos, he);
    assert(s.subrange(pos + 1, he) =~= r.header);
    assert(after_line(s, he) == he + 1);
    // the sequence line
    let bstart = he + 1;
    assert forall|i: int| bstart <= i < bstart + ql implies s[i] != NL by {
        assert(s[i] == rendered[i - pos]);
        assert(rendered[i - pos] == q[i - bstart]);
    }
    lemma_line_end_is(s, bstart, bstart + ql);
    assert(s.subrange(bstart, bstart + ql) =~= q);
    assert(after_line(s, bstart + ql) == bend);
    // past the record's own text the body scan stops at once
    assert(fasta_body(s, bend) == (Seq::<u8>::empty(), bend));
    // so the body is the one sequence line
    assert(s[bstart] != FASTA_MARK);
    assert(fasta_body(s, bstart).0 =~= q);
    assert(fasta_body(s, bstart).1 == bend);
    assert((RecView { header: s.subrange(pos + 1, he), seq: fasta_body(s, bstart).0, qual: None })
        =~= r);
}

/// Scanning the text of one well-formed fastq record laid down at `pos`
/// yields exactly that record.
proof fn lemma_rendered_step_fastq(s: Seq<u8>, r: RecView, pos: int)
    requires
        0 <= pos,
        pos + spec_render(r).len() <= s.len(),
        renders_cleanly(r, FileType::Fastq),
        forall|i: int| 0 <= i < spec_render(r).len() ==> s[pos + i] == spec_render(r)[i],
    ensures
        spec_next(s, FileType::Fastq, pos) == (Step::Next {
            rec: r,
            next: pos + spec_render(r).len(),
        }),
{
    let rendered = spec_render(r);
    let hl = r.header.len() as int;
    let q = r.seq;
    let ql = q.len() as int;
    let u = r.qual->Some_0;
    let ul = u.len() as int;
    let bend = pos + rendered.len();
    assert(rendered == seq![FASTQ_MARK] + r.header + seq![NL] + q + seq![NL, PLUS_MARK, NL] + u
        + seq![NL]);
    assert(rendered.len() == 6 + hl + ql + ul);
    assert(rendered[0] == FASTQ_MARK);
    assert(forall|i: int| 0 <= i < hl ==> rendered[1 + i] == r.header[i]);
    assert(rendered[1 + hl] == NL);
    assert(forall|i: int| 0 <= i < ql ==> rendered[2 + hl + i] == q[i]);
    assert(rendered[2 + hl + ql] == NL);
    assert(rendered[3 + hl + ql] == PLUS_MARK);
    assert(rendered[4 + hl + ql] == NL);
    assert(forall|i: int| 0 <= i < ul ==> rendered[5 + hl + ql + i] == u[i]);
    assert(rendered[5 + hl + ql + ul] == NL);
    // the header line
    let he = pos + 1 + hl;
    assert forall|i: int| pos <= i < he implies s[i] != NL by {
        if i > pos {
            assert(s[i] == rendered[i - pos]);
            assert(rendered[i - pos] == r.header[i - pos - 1]);
        }
    }
    lemma_line_end_is(s, pos, he);
    assert(s.subrange(pos + 1, he) =~= r.header);
    // the sequence line
    let sstart = he + 1;
    assert(after_line(s, he) == sstart);
    let se = sstart + ql;
    assert forall|i: int| sstart <= i < se implies s[i] != NL by {
        assert(s[i] == rendered[i - pos]);
        assert(rendered[i - pos] == q[i - sstart]);
    }
    lemma_line_end_is(s, sstart, se);
    assert(s.subrange(sstart, se) =~= q);
    // the separator line
    let pstart = se + 1;
    assert(after_line(s, se) == pstart);
    assert(s[pstart] == PLUS_MARK);
    lemma_line_end_is(s, pstart, pstart + 1);
    // the quality line
    let qstart = pstart + 2;
    assert(after_line(s, pstart + 1) == qstart);
    let qe = qstart + ul;
    assert forall|i: int| qstart <= i < qe implies s[i] != NL by {
        assert(s[i] == rendered[i - pos]);
        assert(rendered[i - pos] == u[i - qstart]);
    }
    lemma_line_end_is(s, qstart, qe);
    assert(s.subrange(qstart, qe) =~= u);
    assert(after_line(s, qe) == bend);
    assert((RecView {
        header: s.subrange(pos + 1, he),
        seq: s.subrange(sstart, se),
        qual: Some(s.subrange(qstart, qe)),
    }) =~= r);
}

/// The native text of well-formed records parses back to exactly those
/// records: rendering and scanning are inverse on records of the shape the
/// scanner produces.
pub proof fn lemma_render_all_parses(s: Seq<u8>, ft: FileType, recs: Seq<RecView>, pos: int)
    requires
        0 <= pos <= s.len(),
        s.subrange(pos, s.len() as int) == spec_render_all(recs),
        forall|i: int| 0 <= i < recs.len() ==> renders_cleanly(#[trigger] recs[i], ft),
    ensures
        spec_records(s, ft, pos) == Some(recs),
    decreases recs.len(),
{
    if recs.len() == 0 {
        assert(s.len() - pos == 0);
        assert(recs =~= Seq::<RecView>::empty());
    } else {
        let r = recs[0];
        let rest = recs.drop_first();
        let rendered = spec_render(r);
        let tail_text = spec_render_all(rest);
        assert(spec_render_all(recs) == rendered + tail_text);
        assert(s.len() - pos == rendered.len() + tail_text.len());
        assert forall|i: int| 0 <= i < rendered.len() + tail_text.len() implies s[pos + i] == (
        rendered + tail_text)[i] by {
            assert(s.subrange(pos, s.len() as int)[i] == s[pos + i]);
        }
        assert forall|i: int| 0 <= i < rendered.len() implies s[pos + i] == rendered[i] by {
            assert(s[pos + i] == (rendered + tail_text)[i]);
        }
        let bend = pos + rendered.len();
        // if anything follows, it opens the next record
        if bend < s.len() {
            assert(rest.len() > 0);
            assert(tail_text == spec_render(rest[0]) + spec_render_all(rest.drop_first()));
            assert(rest[0] == recs[1]);
            lemma_render_starts_with_mark(rest[0], ft);
            assert(s[bend] == (rendered + tail_text)[rendered.len() as int]);
            assert((rendered + tail_text)[rendered.len() as int] == tail_text[0]);
            assert(s[bend] == start_mark(ft));
        }
        match ft {
            FileType::Fasta => {
                lemma_rendered_step_fasta(s, r, pos);
            },
            FileType::Fastq => {
                lemma_rendered_step_fastq(s, r, pos);
            },
        }
        assert(s.subrange(bend, s.len() as int) =~= tail_text) by {
            assert forall|j: int| 0 <= j < tail_text.len() implies s.subrange(
                bend,
                s.len() as int,
            )[j] == tail_text[j] by {
                assert(s[bend + j] == (rendered + tail_text)[rendered.len() + j]);
            }
        }
        assert forall|i: int| 0 <= i < rest.len() implies renders_cleanly(
            #[trigger] rest[i],
            ft,
        ) by {
            assert(rest[i] == recs[i + 1]);
        }
        lemma_render_all_parses(s, ft, rest, bend);
        assert(seq![r] + rest =~= recs);
    }
}

/// Round trip, byte for byte: a file that is the native text of records of
/// the shape the scanner produces, filtered with the full position set, is
/// reproduced exactly, and the pass succeeds.
pub proof fn lemma_filter_full_set_reproduces_file(
    s: Seq<u8>,
    ft: FileType,
    recs: Seq<RecView>,
    wanted: Set<u32>,
)
    requires
        s == spec_render_all(recs),
        forall|i: int| 0 <= i < recs.len() ==> renders_cleanly(#[trigger] recs[i], ft),
        recs.len() <= (u32::MAX as int) + 1,
        wanted == Set::new(|k: u32| (k as int) < recs.len()),
    ensures
        spec_filter(s, ft, 0, 0, wanted).0 == s,
        spec_filter(s, ft, 0, 0, wanted).1 == Outcome::Success,
{
    assert(s.subrange(0, s.len() as int) =~= spec_render_all(recs));
    lemma_render_all_parses(s, ft, recs, 0);
    lemma_filter_full_set_round_trip(s, ft, recs, wanted);
}

} // verus!
