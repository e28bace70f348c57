//! Occurrences of valid UTF-8 text begin and end on character boundaries.
use vstd::prelude::*;
use vstd::utf8::*;
use crate::matcher::{lemma_scan_sound, occurs_at, scan, spans_of};

verus! {

/// A boundary of a suffix that starts on a boundary is a boundary of the
/// whole.
proof fn lemma_boundary_of_suffix(s: Seq<u8>, p: int, j: int)
    requires
        valid_utf8(s),
        0 <= p <= s.len(),
        is_char_boundary(s, p),
        is_char_boundary(s.subrange(p, s.len() as int), j),
    ensures
        is_char_boundary(s, p + j),
    decreases s.len(),
{
    if p == 0 {
        assert(s.subrange(0, s.len() as int) =~= s);
    } else {
        let w = length_of_first_scalar(s);
        let t = pop_first_scalar(s);
        assert(is_char_boundary(t, p - w));
        assert(p - w >= 0);
        assert(t.subrange(p - w, t.len() as int) =~= s.subrange(p, s.len() as int));
        lemma_boundary_of_suffix(t, p - w, j);
        if j == 0 {
        } else {
            assert(is_char_boundary(s, p + j) == is_char_boundary(t, p + j - w));
        }
    }
}

/// From a boundary inside the text, the next scalar is well formed and ends on
/// a boundary.
proof fn lemma_next_boundary(s: Seq<u8>, p: int)
    requires
        valid_utf8(s),
        0 <= p < s.len(),
        is_char_boundary(s, p),
    ensures
        valid_first_scalar(s.subrange(p, s.len() as int)),
        is_char_boundary(s, p + length_of_first_scalar(s.subrange(p, s.len() as int))),
{
    let m = s.subrange(p, s.len() as int);
    valid_utf8_split(s, p);
    let w = length_of_first_scalar(m);
    assert(is_char_boundary(pop_first_scalar(m), 0));
    assert(is_char_boundary(m, w));
    lemma_boundary_of_suffix(s, p, w);
}

proof fn lemma_occurrence_end_on_boundary(query: Seq<u8>, line: Seq<u8>, o: int, j: int)
    requires
        valid_utf8(query),
        valid_utf8(line),
        occurs_at(query, line, o),
        0 <= j <= query.len(),
        is_char_boundary(query, j),
        is_char_boundary(line, o + j),
    ensures
        is_char_boundary(line, o + query.len()),
    decreases query.len() - j,
{
    if j < query.len() {
        lemma_next_boundary(query, j);
        lemma_next_boundary(line, o + j);
        let mq = query.subrange(j, query.len() as int);
        let ml = line.subrange(o + j, line.len() as int);
        assert(line[o + j] == query[j]);
        assert(mq[0] == query[j]);
        assert(ml[0] == line[o + j]);
        let w = length_of_first_scalar(mq);
        assert(length_of_first_scalar(ml) == w);
        assert(j + w <= query.len());
        lemma_occurrence_end_on_boundary(query, line, o, j + w);
    }
}

/// An occurrence of valid UTF-8 text in valid UTF-8 text starts and ends on
/// character boundaries.
proof fn lemma_occurrence_on_boundaries(query: Seq<u8>, line: Seq<u8>, o: int)
    requires
        valid_utf8(query),
        valid_utf8(line),
        query.len() > 0,
        occurs_at(query, line, o),
    ensures
        is_char_boundary(line, o),
        is_char_boundary(line, o + query.len()),
{
    assert(is_char_boundary(query, 0));
    is_char_boundary_iff_not_is_continuation_byte(query, 0);
    assert(line[o + 0] == query[0]);
    if o > 0 {
        is_char_boundary_iff_not_is_continuation_byte(line, o);
    }
    lemma_occurrence_end_on_boundary(query, line, o, 0);
}

/// Every span of valid UTF-8 `query` in a valid UTF-8 `line` starts and ends
/// on a character boundary of `line`, so the line can be cut at any span.
pub proof fn lemma_spans_on_char_boundaries(query: Seq<u8>, line: Seq<u8>)
    requires
        valid_utf8(query),
        valid_utf8(line),
    ensures
        forall|j: int| 0 <= j < spans_of(query, line).len() ==> is_char_boundary(
            line,
            #[trigger] spans_of(query, line)[j].0,
        ) && is_char_boundary(
            line,
            spans_of(query, line)[j].0 + spans_of(query, line)[j].1,
        ),
{
    let sp = spans_of(query, line);
    let s = scan(query, line, 0);
    lemma_scan_sound(query, line, 0);
    assert forall|j: int| 0 <= j < sp.len() implies is_char_boundary(line, #[trigger] sp[j].0)
        && is_char_boundary(line, sp[j].0 + sp[j].1) by {
        assert(sp[j] == (s[j], query.len() as int));
        lemma_occurrence_on_boundaries(query, line, s[j]);
    }
}

} // verus!
