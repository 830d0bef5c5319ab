//! The decoder's laws, stated over the spec functions that the executable
//! contracts use: a stream of valid lines yields every chunk in order, lines
//! that yield nothing never disturb their neighbours, and the boundaries of
//! the underlying reads never matter.

use vstd::prelude::*;

use crate::decoder::{
    all_lines, chunk_of_json, chunks_of_lines, decode_line_spec, drain_spec, first_lf, has_data_prefix,
    lemma_chunks_of_lines_cons, lemma_first_lf, trim_ws,
};

verus! {

/// One line of a well-formed stream: non-empty, terminated by a line feed,
/// and holding no line feed before its terminator.
pub open spec fn is_terminated_line(l: Seq<u8>) -> bool {
    &&& l.len() > 0
    &&& l.last() == 10
    &&& forall|j: int| 0 <= j < l.len() - 1 ==> l[j] != 10
}

/// The byte stream a sequence of lines forms, in order.
pub open spec fn concat_bytes(lines: Seq<Seq<u8>>) -> Seq<u8>
    decreases lines.len(),
{
    if lines.len() == 0 {
        Seq::empty()
    } else {
        lines[0] + concat_bytes(lines.drop_first())
    }
}

/// The first line feed of `s` is at `i` exactly when `s[i]` is one and no
/// earlier byte is.
proof fn lemma_first_lf_at(s: Seq<u8>, i: int)
    requires
        0 <= i < s.len(),
        s[i] == 10,
        forall|j: int| 0 <= j < i ==> s[j] != 10,
    ensures
        first_lf(s) == i,
{
    lemma_first_lf(s);
    if first_lf(s) < i {
        assert(s[first_lf(s) as int] == 10);
    }
    if first_lf(s) > i {
        assert(s[i] != 10);
    }
}

/// Splitting the concatenation of terminated lines on line feeds gives back
/// exactly those lines, whether or not the source is closed.
pub proof fn lemma_lines_roundtrip(lines: Seq<Seq<u8>>, closed: bool)
    requires
        forall|i: int| 0 <= i < lines.len() ==> is_terminated_line(#[trigger] lines[i]),
    ensures
        all_lines(concat_bytes(lines), closed) == lines,
    decreases lines.len(),
{
    if lines.len() == 0 {
        assert(all_lines(Seq::empty(), closed) =~= lines);
    } else {
        let l0 = lines[0];
        let rest = lines.drop_first();
        let buf = concat_bytes(lines);
        assert(is_terminated_line(l0));
        assert forall|j: int| 0 <= j < l0.len() - 1 implies buf[j] != 10 by {
            assert(buf[j] == l0[j]);
        }
        lemma_first_lf_at(buf, l0.len() - 1);
        assert(buf.take(l0.len() as int) =~= l0);
        assert(buf.skip(l0.len() as int) =~= concat_bytes(rest));
        assert forall|i: int| 0 <= i < rest.len() implies is_terminated_line(
            #[trigger] rest[i],
        ) by {
            assert(rest[i] == lines[i + 1]);
        }
        lemma_lines_roundtrip(rest, closed);
        assert(seq![l0] + rest =~= lines);
    }
}

/// When every line of a sequence decodes to a chunk, the sequence yields
/// exactly one chunk per line, in line order.
pub proof fn lemma_all_lines_produce(lines: Seq<Seq<u8>>)
    requires
        forall|i: int| 0 <= i < lines.len() ==> (#[trigger] decode_line_spec(lines[i])) is Some,
    ensures
        chunks_of_lines(lines).len() == lines.len(),
        forall|i: int|
            0 <= i < lines.len() ==> Some(#[trigger] chunks_of_lines(lines)[i])
                == decode_line_spec(lines[i]),
    decreases lines.len(),
{
    if lines.len() == 0 {
    } else {
        let rest = lines.drop_first();
        assert forall|i: int| 0 <= i < rest.len() implies (#[trigger] decode_line_spec(
            rest[i],
        )) is Some by {
            assert(rest[i] == lines[i + 1]);
        }
        lemma_all_lines_produce(rest);
        let c0 = decode_line_spec(lines[0]).unwrap();
        assert(chunks_of_lines(lines) == seq![c0] + chunks_of_lines(rest));
        assert forall|i: int| 0 <= i < lines.len() implies Some(
            #[trigger] chunks_of_lines(lines)[i],
        ) == decode_line_spec(lines[i]) by {
            if i > 0 {
                assert(chunks_of_lines(lines)[i] == chunks_of_lines(rest)[i - 1]);
                assert(rest[i - 1] == lines[i]);
            }
        }
    }
}

/// A stream made of N valid, terminated lines decodes to exactly N chunks,
/// in input order.
pub proof fn lemma_valid_stream_yields_all(lines: Seq<Seq<u8>>, closed: bool)
    requires
        forall|i: int| 0 <= i < lines.len() ==> is_terminated_line(#[trigger] lines[i]),
        forall|i: int| 0 <= i < lines.len() ==> (#[trigger] decode_line_spec(lines[i])) is Some,
    ensures
        chunks_of_lines(all_lines(concat_bytes(lines), closed)).len() == lines.len(),
        forall|i: int|
            0 <= i < lines.len() ==> Some(
                #[trigger] chunks_of_lines(all_lines(concat_bytes(lines), closed))[i],
            ) == decode_line_spec(lines[i]),
{
    lemma_lines_roundtrip(lines, closed);
    lemma_all_lines_produce(lines);
}

/// A line that decodes to nothing can be dropped from any position without
/// changing the chunks the surrounding lines yield.
pub proof fn lemma_skipped_line(before: Seq<Seq<u8>>, line: Seq<u8>, after: Seq<Seq<u8>>)
    requires
        decode_line_spec(line) is None,
    ensures
        chunks_of_lines(before + seq![line] + after) == chunks_of_lines(before + after),
    decreases before.len(),
{
    if before.len() == 0 {
        assert(before + seq![line] + after =~= seq![line] + after);
        lemma_chunks_of_lines_cons(line, after);
        assert(before + after =~= after);
    } else {
        let b0 = before[0];
        let tail = before.drop_first();
        lemma_skipped_line(tail, line, after);
        assert(before + seq![line] + after =~= seq![b0] + (tail + seq![line] + after));
        assert(before + after =~= seq![b0] + (tail + after));
        lemma_chunks_of_lines_cons(b0, tail + seq![line] + after);
        lemma_chunks_of_lines_cons(b0, tail + after);
    }
}

/// Blank lines produce no chunk and do not break the sequencing of the
/// surrounding valid lines.
pub proof fn lemma_blank_line_skipped(before: Seq<Seq<u8>>, line: Seq<u8>, after: Seq<Seq<u8>>)
    requires
        trim_ws(line).len() == 0,
    ensures
        chunks_of_lines(before + seq![line] + after) == chunks_of_lines(before + after),
{
    lemma_skipped_line(before, line, after);
}

/// A prefixed line whose payload does not parse as a chunk is skipped, and
/// the surrounding lines still decode exactly as without it.
pub proof fn lemma_malformed_line_skipped(before: Seq<Seq<u8>>, line: Seq<u8>, after: Seq<Seq<u8>>)
    requires
        has_data_prefix(trim_ws(line)),
        chunk_of_json(trim_ws(line).skip(5)) is None,
    ensures
        chunks_of_lines(before + seq![line] + after) == chunks_of_lines(before + after),
{
    lemma_skipped_line(before, line, after);
}

/// Read boundaries are irrelevant: handing the decoder two pieces one after
/// the other buffers exactly the bytes that handing their concatenation at
/// once does, so every later pull drains the same chunks either way and a
/// line split across two reads decodes as one line.
pub proof fn lemma_read_boundaries_irrelevant(
    pending: Seq<u8>,
    piece1: Seq<u8>,
    piece2: Seq<u8>,
    closed: bool,
)
    ensures
        (pending + piece1) + piece2 == pending + (piece1 + piece2),
        drain_spec((pending + piece1) + piece2, closed) == drain_spec(
            pending + (piece1 + piece2),
            closed,
        ),
{
    assert((pending + piece1) + piece2 =~= pending + (piece1 + piece2));
}

} // verus!

