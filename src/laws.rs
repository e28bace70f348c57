//! Properties that hold of every search.
use vstd::prelude::*;
use vstd::utf8::*;
use crate::folding::{fold_chars, lemma_fold_keeps_length, match_key};
use crate::matcher::{lemma_scan_sound, occurs_at, scan};
use crate::render::spans_ordered;
use crate::scanner::{
    lemma_newline_from_bounds, line_spans, lines_of, newline_from, outcome_of, outcome_view, search_spec, strip_cr,
    SingleLineResult,
};

verus! {

/// Every entry of an outcome is one of the lines, with its spans, and has at
/// least one span.
proof fn lemma_outcome_entries(query: Seq<u8>, lines: Seq<Seq<u8>>, case_sensitive: bool)
    ensures
        forall|i: int| 0 <= i < outcome_of(query, lines, case_sensitive).len() ==> exists|k: int|
            0 <= k < lines.len() && #[trigger] outcome_of(query, lines, case_sensitive)[i] == (
                lines[k],
                line_spans(query, lines[k], case_sensitive),
            ) && line_spans(query, lines[k], case_sensitive).len() > 0,
        outcome_of(query, lines, case_sensitive).len() <= lines.len(),
    decreases lines.len(),
{
    if lines.len() > 0 {
        let prev = lines.drop_last();
        lemma_outcome_entries(query, prev, case_sensitive);
        let out = outcome_of(query, lines, case_sensitive);
        assert forall|i: int| 0 <= i < out.len() implies exists|k: int|
            0 <= k < lines.len() && #[trigger] out[i] == (
                lines[k],
                line_spans(query, lines[k], case_sensitive),
            ) && line_spans(query, lines[k], case_sensitive).len() > 0 by {
            let po = outcome_of(query, prev, case_sensitive);
            if i < po.len() {
                let k = choose|k: int|
                    0 <= k < prev.len() && #[trigger] po[i] == (
                        prev[k],
                        line_spans(query, prev[k], case_sensitive),
                    ) && line_spans(query, prev[k], case_sensitive).len() > 0;
                assert(prev[k] == lines[k]);
            } else {
                assert(out[i] == (lines[lines.len() - 1], line_spans(query, lines.last(), case_sensitive)));
            }
        }
    }
}

/// In case-sensitive mode, the bytes of a line at each of its spans are
/// exactly the query.
pub proof fn lemma_case_sensitive_matches_equal_query(query: Seq<u8>, doc: Seq<u8>)
    ensures
        forall|i: int, j: int|
            0 <= i < search_spec(query, doc, true).len() && 0 <= j < search_spec(query, doc, true)[i].1.len()
                ==> #[trigger] search_spec(query, doc, true)[i].0.subrange(
                search_spec(query, doc, true)[i].1[j].0,
                search_spec(query, doc, true)[i].1[j].0 + search_spec(query, doc, true)[i].1[j].1,
            ) == query,
{
    let out = search_spec(query, doc, true);
    let lines = lines_of(doc);
    lemma_outcome_entries(query, lines, true);
    assert forall|i: int, j: int| 0 <= i < out.len() && 0 <= j < out[i].1.len() implies #[trigger] out[i].0.subrange(
        out[i].1[j].0,
        out[i].1[j].0 + out[i].1[j].1,
    ) == query by {
        let k = choose|k: int|
            0 <= k < lines.len() && #[trigger] out[i] == (lines[k], line_spans(query, lines[k], true))
                && line_spans(query, lines[k], true).len() > 0;
        let l = lines[k];
        lemma_scan_sound(query, l, 0);
        let o = scan(query, l, 0)[j];
        assert(out[i].1[j] == (o, query.len() as int));
        assert(occurs_at(query, l, o));
        assert forall|m: int| 0 <= m < query.len() implies #[trigger] l.subrange(o, o + query.len())[m] == query[m] by {
            assert(l[o + m] == query[m]);
        }
        assert(l.subrange(o, o + query.len()) =~= query);
    }
}

/// In case-insensitive mode, the folded line at each of its spans is
/// exactly the folded query; the line itself is one of the document's lines,
/// as it stands there, not folded. (Folding keeps the byte length of every
/// character, so a span of the folded line is the same span of the line.)
pub proof fn lemma_case_insensitive_matches_fold_to_query(query: Seq<u8>, doc: Seq<u8>)
    ensures
        forall|i: int, j: int|
            0 <= i < search_spec(query, doc, false).len() && 0 <= j < search_spec(query, doc, false)[i].1.len()
                ==> #[trigger] match_key(search_spec(query, doc, false)[i].0, false).subrange(
                search_spec(query, doc, false)[i].1[j].0,
                search_spec(query, doc, false)[i].1[j].0 + search_spec(query, doc, false)[i].1[j].1,
            ) == match_key(query, false),
        forall|i: int| 0 <= i < search_spec(query, doc, false).len() ==> lines_of(doc).contains(
            #[trigger] search_spec(query, doc, false)[i].0,
        ),
{
    let out = search_spec(query, doc, false);
    let lines = lines_of(doc);
    let qk = match_key(query, false);
    lemma_outcome_entries(query, lines, false);
    assert forall|i: int, j: int| 0 <= i < out.len() && 0 <= j < out[i].1.len() implies #[trigger] match_key(out[i].0, false).subrange(
        out[i].1[j].0,
        out[i].1[j].0 + out[i].1[j].1,
    ) == qk by {
        let k = choose|k: int|
            0 <= k < lines.len() && #[trigger] out[i] == (lines[k], line_spans(query, lines[k], false))
                && line_spans(query, lines[k], false).len() > 0;
        let lk = match_key(lines[k], false);
        lemma_scan_sound(qk, lk, 0);
        let o = scan(qk, lk, 0)[j];
        assert(out[i].1[j] == (o, qk.len() as int));
        assert(occurs_at(qk, lk, o));
        assert forall|m: int| 0 <= m < qk.len() implies #[trigger] lk.subrange(o, o + qk.len())[m] == qk[m] by {
            assert(lk[o + m] == qk[m]);
        }
        assert(lk.subrange(o, o + qk.len()) =~= qk);
    }
    assert forall|i: int| 0 <= i < out.len() implies lines.contains(#[trigger] out[i].0) by {
        let k = choose|k: int|
            0 <= k < lines.len() && #[trigger] out[i] == (lines[k], line_spans(query, lines[k], false))
                && line_spans(query, lines[k], false).len() > 0;
        assert(lines[k] == out[i].0);
    }
}

/// The spans of a line lie within it, in strictly ascending order, each
/// ending at or before the start of the next.
pub proof fn lemma_line_spans_ordered(query: Seq<u8>, line: Seq<char>, case_sensitive: bool)
    ensures
        spans_ordered(line_spans(query, encode_utf8(line), case_sensitive), encode_utf8(line).len() as int),
        forall|j: int| 0 <= j < line_spans(query, encode_utf8(line), case_sensitive).len() - 1
            ==> #[trigger] line_spans(query, encode_utf8(line), case_sensitive)[j].0
                < line_spans(query, encode_utf8(line), case_sensitive)[j + 1].0,
{
    let l = encode_utf8(line);
    let qk = match_key(query, case_sensitive);
    let lk = match_key(l, case_sensitive);
    encode_utf8_decode_utf8(line);
    lemma_fold_keeps_length(line);
    assert(lk.len() == l.len());
    let sp = line_spans(query, l, case_sensitive);
    let s = scan(qk, lk, 0);
    lemma_scan_sound(qk, lk, 0);
    if s.len() > 0 {
        assert(qk.len() > 0);
    }
    assert forall|j: int| 0 <= j < sp.len() - 1 implies #[trigger] sp[j].0 + sp[j].1 <= sp[j + 1].0
        && sp[j].0 < sp[j + 1].0 by {
        assert(sp[j] == (s[j], qk.len() as int));
        assert(sp[j + 1] == (s[j + 1], qk.len() as int));
    }
    assert forall|j: int| 0 <= j < sp.len() implies 0 <= #[trigger] sp[j].0 && 0 <= sp[j].1
        && sp[j].0 + sp[j].1 <= l.len() by {
        assert(sp[j] == (s[j], qk.len() as int));
        assert(occurs_at(qk, lk, s[j]));
    }
}

/// The spans of every reported line are in strictly ascending order, each
/// ending at or before the start of the next.
pub proof fn lemma_spans_ascending(query: Seq<u8>, doc: Seq<u8>, case_sensitive: bool)
    ensures
        forall|i: int, j: int|
            0 <= i < search_spec(query, doc, case_sensitive).len() && 0 <= j < search_spec(query, doc, case_sensitive)[i].1.len() - 1
                ==> 0 <= search_spec(query, doc, case_sensitive)[i].1[j].0
                && #[trigger] search_spec(query, doc, case_sensitive)[i].1[j].0 + search_spec(query, doc, case_sensitive)[i].1[j].1
                <= search_spec(query, doc, case_sensitive)[i].1[j + 1].0
                && search_spec(query, doc, case_sensitive)[i].1[j].0 < search_spec(query, doc, case_sensitive)[i].1[j + 1].0,
{
    let out = search_spec(query, doc, case_sensitive);
    let lines = lines_of(doc);
    let qk = match_key(query, case_sensitive);
    lemma_outcome_entries(query, lines, case_sensitive);
    assert forall|i: int, j: int| 0 <= i < out.len() && 0 <= j < out[i].1.len() - 1 implies 0 <= out[i].1[j].0
        && #[trigger] out[i].1[j].0 + out[i].1[j].1 <= out[i].1[j + 1].0 && out[i].1[j].0 < out[i].1[j + 1].0 by {
        let k = choose|k: int|
            0 <= k < lines.len() && #[trigger] out[i] == (lines[k], line_spans(query, lines[k], case_sensitive))
                && line_spans(query, lines[k], case_sensitive).len() > 0;
        let lk = match_key(lines[k], case_sensitive);
        let s = scan(qk, lk, 0);
        lemma_scan_sound(qk, lk, 0);
        assert(qk.len() > 0);
        assert(out[i].1[j] == (s[j], qk.len() as int));
        assert(out[i].1[j + 1] == (s[j + 1], qk.len() as int));
    }
}

/// A search reports no more lines than the document has.
pub proof fn lemma_result_count_at_most_lines(query: Seq<u8>, doc: Seq<u8>, case_sensitive: bool)
    ensures
        search_spec(query, doc, case_sensitive).len() <= lines_of(doc).len(),
{
    lemma_outcome_entries(query, lines_of(doc), case_sensitive);
}

/// An empty document, and an empty query, give an empty outcome.
pub proof fn lemma_empty_inputs_no_result(query: Seq<u8>, doc: Seq<u8>, case_sensitive: bool)
    requires
        doc.len() == 0 || query.len() == 0,
    ensures
        search_spec(query, doc, case_sensitive).len() == 0,
{
    let lines = lines_of(doc);
    lemma_outcome_entries(query, lines, case_sensitive);
    if query.len() > 0 {
        assert(lines.len() == 0);
    } else {
        let qk = match_key(query, case_sensitive);
        assert(decode_utf8(query) =~= Seq::<char>::empty());
        assert(fold_chars(decode_utf8(query)) =~= Seq::<char>::empty());
        assert(qk.len() == 0);
        let out = search_spec(query, doc, case_sensitive);
        if out.len() > 0 {
            let k = choose|k: int|
                0 <= k < lines.len() && #[trigger] out[0] == (lines[k], line_spans(query, lines[k], case_sensitive))
                    && line_spans(query, lines[k], case_sensitive).len() > 0;
            assert(scan(qk, match_key(lines[k], case_sensitive), 0).len() == 0);
        }
    }
}

/// An occurrence within one of the document's lines is an occurrence within
/// the document.
proof fn lemma_line_occurrence_in_doc(query: Seq<u8>, doc: Seq<u8>, k: int, o: int)
    requires
        0 <= k < lines_of(doc).len(),
        occurs_at(query, lines_of(doc)[k], o),
    ensures
        exists|p: int| occurs_at(query, doc, p),
    decreases doc.len(),
{
    let e = newline_from(doc, 0);
    lemma_newline_from_bounds(doc, 0);
    let l = lines_of(doc)[k];
    if e >= doc.len() {
        assert(l == doc);
        assert(occurs_at(query, doc, o));
    } else if k == 0 {
        assert(l == strip_cr(doc.take(e)));
        assert(l.len() <= doc.len());
        assert forall|m: int| 0 <= m < query.len() implies #[trigger] doc[o + m] == query[m] by {
            assert(l[o + m] == query[m]);
            assert(l[o + m] == doc[o + m]);
        }
        assert(occurs_at(query, doc, o));
    } else {
        let rest = doc.skip(e + 1);
        assert(lines_of(doc)[k] == lines_of(rest)[k - 1]);
        lemma_line_occurrence_in_doc(query, rest, k - 1, o);
        let p = choose|p: int| occurs_at(query, rest, p);
        assert forall|m: int| 0 <= m < query.len() implies #[trigger] doc[p + e + 1 + m] == query[m] by {
            assert(rest[p + m] == query[m]);
            assert(rest[p + m] == doc[p + e + 1 + m]);
        }
        assert(occurs_at(query, doc, p + e + 1));
    }
}

/// In either mode, a query whose match key occurs in the match key of no
/// line of the document gives an empty outcome.
pub proof fn lemma_no_line_occurrence_no_result(query: Seq<u8>, doc: Seq<u8>, case_sensitive: bool)
    requires
        forall|k: int, p: int| 0 <= k < lines_of(doc).len() ==> !#[trigger] occurs_at(
            match_key(query, case_sensitive),
            match_key(lines_of(doc)[k], case_sensitive),
            p,
        ),
    ensures
        search_spec(query, doc, case_sensitive).len() == 0,
{
    let lines = lines_of(doc);
    let out = search_spec(query, doc, case_sensitive);
    let qk = match_key(query, case_sensitive);
    lemma_outcome_entries(query, lines, case_sensitive);
    if out.len() > 0 {
        let k = choose|k: int|
            0 <= k < lines.len() && #[trigger] out[0] == (lines[k], line_spans(query, lines[k], case_sensitive))
                && line_spans(query, lines[k], case_sensitive).len() > 0;
        let lk = match_key(lines[k], case_sensitive);
        lemma_scan_sound(qk, lk, 0);
        assert(occurs_at(qk, lk, scan(qk, lk, 0)[0]));
    }
}

/// A query that occurs nowhere in the document gives an empty case-sensitive
/// outcome.
pub proof fn lemma_no_occurrence_no_result(query: Seq<u8>, doc: Seq<u8>)
    requires
        forall|p: int| !occurs_at(query, doc, p),
    ensures
        search_spec(query, doc, true).len() == 0,
{
    let lines = lines_of(doc);
    let out = search_spec(query, doc, true);
    lemma_outcome_entries(query, lines, true);
    if out.len() > 0 {
        let k = choose|k: int|
            0 <= k < lines.len() && #[trigger] out[0] == (lines[k], line_spans(query, lines[k], true))
                && line_spans(query, lines[k], true).len() > 0;
        lemma_scan_sound(query, lines[k], 0);
        let o = scan(query, lines[k], 0)[0];
        lemma_line_occurrence_in_doc(query, doc, k, o);
    }
}

/// A search is a function of its inputs: two searches of the same document
/// for the same query in the same mode report the same lines and spans.
pub proof fn lemma_search_deterministic<'a, 'b>(
    query: Seq<u8>,
    doc: Seq<u8>,
    case_sensitive: bool,
    first: Seq<SingleLineResult<'a>>,
    second: Seq<SingleLineResult<'b>>,
)
    requires
        outcome_view(first) == search_spec(query, doc, case_sensitive),
        outcome_view(second) == search_spec(query, doc, case_sensitive),
    ensures
        first.len() == second.len(),
        forall|i: int| 0 <= i < first.len() ==> #[trigger] first[i]@ == second[i]@,
{
    assert(outcome_view(first).len() == first.len());
    assert forall|i: int| 0 <= i < first.len() implies #[trigger] first[i]@ == second[i]@ by {
        assert(outcome_view(first)[i] == first[i]@);
        assert(outcome_view(second)[i] == second[i]@);
    }
}

} // verus!
