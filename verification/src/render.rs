//! Rendering of one output file's byte content.
//!
//! An output file holds the header line followed by the batch's records,
//! each terminated by a line feed.

use crate::LF;
use vstd::prelude::*;

verus! {

/// One row as it stands in a file: the row's bytes followed by a line
/// feed.
pub open spec fn spec_line(row: Seq<u8>) -> Seq<u8> {
    row.push(LF)
}

/// The rows in order, each terminated by a line feed.
pub open spec fn spec_lines(rows: Seq<Seq<u8>>) -> Seq<u8>
    decreases rows.len(),
{
    if rows.len() == 0 {
        Seq::<u8>::empty()
    } else {
        spec_line(rows.first()) + spec_lines(rows.drop_first())
    }
}

/// The full content of an output file: the header line, then the records.
pub open spec fn spec_content(header: Seq<u8>, rows: Seq<Seq<u8>>) -> Seq<u8> {
    spec_line(header) + spec_lines(rows)
}

/// Appending a row extends the rendered lines at the end.
pub proof fn lemma_lines_push(rows: Seq<Seq<u8>>, row: Seq<u8>)
    ensures
        spec_lines(rows.push(row)) == spec_lines(rows) + spec_line(row),
    decreases rows.len(),
{
    if rows.len() == 0 {
        assert(rows.push(row).drop_first() =~= rows);
        assert(spec_lines(rows.push(row)) =~= spec_lines(rows) + spec_line(row));
    } else {
        assert(rows.push(row).drop_first() =~= rows.drop_first().push(row));
        lemma_lines_push(rows.drop_first(), row);
        assert(spec_lines(rows.push(row)) =~= spec_lines(rows) + spec_line(row));
    }
}

/// Header replication: the content of every output file begins with the
/// header row, byte for byte, closed by the first line feed the file ever
/// needs.
pub proof fn lemma_header_first(header: Seq<u8>, rows: Seq<Seq<u8>>)
    ensures
        spec_content(header, rows).len() > header.len(),
        spec_content(header, rows).take(header.len() as int) == header,
        spec_content(header, rows)[header.len() as int] == LF,
{
    assert(spec_content(header, rows).take(header.len() as int) =~= header);
}

/// Renders the header and the given rows as one file's bytes.
pub fn render_file(header: &Vec<u8>, rows: &Vec<Vec<u8>>) -> (content: Vec<u8>)
    ensures
        content@ == spec_content(header@, rows.deep_view()),
{
    let ghost rseq = rows.deep_view();
    let mut content: Vec<u8> = Vec::new();
    push_line(&mut content, header);
    proof {
        assert(rseq.take(0) =~= Seq::<Seq<u8>>::empty());
        assert(content@ =~= spec_content(header@, rseq.take(0)));
    }
    let mut i: usize = 0;
    while i < rows.len()
        invariant
            i <= rows@.len(),
            rseq == rows.deep_view(),
            rseq.len() == rows@.len(),
            content@ == spec_content(header@, rseq.take(i as int)),
        decreases rows.len() - i,
    {
        push_line(&mut content, &rows[i]);
        proof {
            assert(rseq.take(i + 1) =~= rseq.take(i as int).push(rseq[i as int]));
            lemma_lines_push(rseq.take(i as int), rseq[i as int]);
            assert(content@ =~= spec_content(header@, rseq.take(i + 1)));
        }
        i = i + 1;
    }
    proof {
        assert(rseq.take(rseq.len() as int) =~= rseq);
    }
    content
}

/// Appends one row and its terminating line feed to `out`.
fn push_line(out: &mut Vec<u8>, row: &Vec<u8>)
    ensures
        final(out)@ == old(out)@ + spec_line(row@),
{
    let mut i: usize = 0;
    while i < row.len()
        invariant
            i <= row@.len(),
            out@ == old(out)@ + row@.take(i as int),
        decreases row.len() - i,
    {
        proof {
            assert(row@.take(i + 1) =~= row@.take(i as int).push(row@[i as int]));
        }
        out.push(row[i]);
        i = i + 1;
    }
    out.push(LF);
    proof {
        assert(row@.take(row@.len() as int) =~= row@);
        assert(out@ =~= old(out)@ + spec_line(row@));
    }
}

} // verus!
