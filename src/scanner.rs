//! Splitting a document into lines and collecting the lines that match.
use vstd::prelude::*;
use vstd::string::*;
use vstd::utf8::*;
use crate::boundaries::lemma_spans_on_char_boundaries;
use crate::laws::lemma_line_spans_ordered;
use crate::folding::{fold_chars, lemma_fold_keeps_boundaries, match_key, match_key_of};
use crate::matcher::{find_matches, spans_of, spans_view};

verus! {

/// The byte that ends a line.
pub const NEWLINE: u8 = 10;

/// The byte that, right before a newline, belongs to the line terminator.
pub const CARRIAGE_RETURN: u8 = 13;

/// Index of the first newline in `s` at or after `j`, or `s.len()` if none.
pub open spec fn newline_from(s: Seq<u8>, j: int) -> int
    decreases s.len() - j,
{
    if j < 0 || j >= s.len() {
        s.len() as int
    } else if s[j] == NEWLINE {
        j
    } else {
        newline_from(s, j + 1)
    }
}

/// A line that ended with a newline loses one carriage return before it.
pub open spec fn strip_cr(l: Seq<u8>) -> Seq<u8> {
    if l.len() > 0 && l.last() == CARRIAGE_RETURN {
        l.drop_last()
    } else {
        l
    }
}

/// The lines of a document: the text between newlines, without the line
/// terminator (`\n` or `\r\n`). A final newline does not start another line,
/// and a carriage return at the very end, with no newline after it, stays in
/// the last line.
pub open spec fn lines_of(s: Seq<u8>) -> Seq<Seq<u8>>
    decreases s.len(),
    via lines_of_decreases
{
    if s.len() == 0 {
        Seq::empty()
    } else if newline_from(s, 0) >= s.len() {
        seq![s]
    } else {
        seq![strip_cr(s.take(newline_from(s, 0)))] + lines_of(s.skip(newline_from(s, 0) + 1))
    }
}

/// `newline_from` finds the first newline at or after `j`.
pub proof fn lemma_newline_from_bounds(s: Seq<u8>, j: int)
    requires
        0 <= j,
    ensures
        j <= newline_from(s, j) <= s.len() || (j > s.len() && newline_from(s, j) == s.len()),
        newline_from(s, j) < s.len() ==> s[newline_from(s, j)] == NEWLINE,
        forall|k: int| j <= k < newline_from(s, j) ==> s[k] != NEWLINE,
    decreases s.len() - j,
{
    if j < s.len() && s[j] != NEWLINE {
        lemma_newline_from_bounds(s, j + 1);
    }
}

#[via_fn]
proof fn lines_of_decreases(s: Seq<u8>) {
    lemma_newline_from_bounds(s, 0);
}

/// The spans of `query` in `line` under the chosen mode: offsets and lengths
/// of the occurrences of the query's match key in the line's match key.
pub open spec fn line_spans(query: Seq<u8>, line: Seq<u8>, case_sensitive: bool) -> Seq<(int, int)> {
    spans_of(match_key(query, case_sensitive), match_key(line, case_sensitive))
}

/// What a search reports for each line, in order: the lines with at least
/// one match, each with its spans.
pub open spec fn outcome_of(query: Seq<u8>, lines: Seq<Seq<u8>>, case_sensitive: bool) -> Seq<(Seq<u8>, Seq<(int, int)>)>
    decreases lines.len(),
{
    if lines.len() == 0 {
        Seq::empty()
    } else {
        let prev = outcome_of(query, lines.drop_last(), case_sensitive);
        let sp = line_spans(query, lines.last(), case_sensitive);
        if sp.len() == 0 {
            prev
        } else {
            prev.push((lines.last(), sp))
        }
    }
}

/// The outcome of searching `doc` for `query`.
pub open spec fn search_spec(query: Seq<u8>, doc: Seq<u8>, case_sensitive: bool) -> Seq<(Seq<u8>, Seq<(int, int)>)> {
    outcome_of(query, lines_of(doc), case_sensitive)
}

/// One line that holds the query, and where.
#[derive(PartialEq, Debug)]
pub struct SingleLineResult<'a> {
    /// The line, as it stands in the document, without its terminator.
    pub line: &'a str,
    /// The `(offset, length)` byte spans of the occurrences in `line`.
    pub matches: Vec<(usize, usize)>,
}

impl<'a> View for SingleLineResult<'a> {
    type V = (Seq<u8>, Seq<(int, int)>);

    open spec fn view(&self) -> (Seq<u8>, Seq<(int, int)>) {
        (self.line.spec_bytes(), spans_view(self.matches@))
    }
}

impl<'a> SingleLineResult<'a> {
    /// Every span starts and ends on a character boundary of the line.
    pub open spec fn on_char_boundaries(&self) -> bool {
        forall|j: int| 0 <= j < self@.1.len() ==> is_char_boundary(self@.0, #[trigger] self@.1[j].0)
            && is_char_boundary(self@.0, self@.1[j].0 + self@.1[j].1)
    }
}

/// The views of a sequence of line results.
pub open spec fn outcome_view<'a>(v: Seq<SingleLineResult<'a>>) -> Seq<(Seq<u8>, Seq<(int, int)>)> {
    v.map_values(|r: SingleLineResult<'a>| r@)
}

/// Splits off the next line of `rest`; returns the line and what follows
/// its terminator.
fn next_line<'a>(rest: &'a str) -> (r: (&'a str, &'a str))
    requires
        rest.spec_bytes().len() > 0,
    ensures
        lines_of(rest.spec_bytes()) == seq![r.0.spec_bytes()] + lines_of(r.1.spec_bytes()),
        r.1.spec_bytes().len() < rest.spec_bytes().len(),
{
    let bytes = rest.as_bytes();
    let ghost s = rest.spec_bytes();
    proof {
        encode_utf8_valid_utf8(rest@);
        lemma_newline_from_bounds(s, 0);
    }
    let mut j: usize = 0;
    while j < bytes.len() && bytes[j] != NEWLINE
        invariant
            bytes@ == s,
            j <= s.len(),
            newline_from(s, j as int) == newline_from(s, 0),
        decreases s.len() - j,
    {
        j = j + 1;
    }
    if j == bytes.len() {
        proof {
            is_char_boundary_start_end_of_seq(s);
        }
        let (line, tail) = rest.split_at(j);
        proof {
            assert(line.spec_bytes() =~= s);
            assert(tail.spec_bytes() =~= Seq::<u8>::empty());
            assert(lines_of(tail.spec_bytes()) =~= Seq::<Seq<u8>>::empty());
            assert(seq![s] + Seq::<Seq<u8>>::empty() =~= seq![s]);
        }
        (line, tail)
    } else {
        proof {
            is_char_boundary_iff_not_is_continuation_byte(s, j as int);
        }
        let (raw, tail) = rest.split_at(j);
        let ghost t = tail.spec_bytes();
        proof {
            encode_utf8_valid_utf8(tail@);
            assert(t[0] == NEWLINE);
            assert(is_char_boundary(pop_first_scalar(t), 0));
            assert(is_char_boundary(t, 1));
        }
        let (_, after) = tail.split_at(1);
        proof {
            assert(after.spec_bytes() =~= s.skip(j + 1));
            assert(raw.spec_bytes() =~= s.take(j as int));
        }
        let rb = raw.as_bytes();
        if j > 0 && rb[j - 1] == CARRIAGE_RETURN {
            proof {
                encode_utf8_valid_utf8(raw@);
                is_char_boundary_iff_not_is_continuation_byte(raw.spec_bytes(), j - 1);
            }
            let (line, _) = raw.split_at(j - 1);
            proof {
                assert(line.spec_bytes() =~= strip_cr(s.take(j as int)));
            }
            (line, after)
        } else {
            proof {
                assert(raw.spec_bytes() =~= strip_cr(s.take(j as int)));
            }
            (raw, after)
        }
    }
}

/// Searches `contents` line by line for `query` and returns, in document
/// order, every line with at least one occurrence together with the spans of
/// its occurrences. Lines without an occurrence are left out; an empty query
/// matches nothing. In case-insensitive mode the query and each line are
/// compared in folded form, and the spans, which folding leaves in place, are
/// reported against the original line.
pub fn search<'a>(query: &str, contents: &'a str, case_sensitive: bool) -> (r: Vec<SingleLineResult<'a>>)
    ensures
        outcome_view(r@) == search_spec(query.spec_bytes(), contents.spec_bytes(), case_sensitive),
        forall|i: int| 0 <= i < r@.len() ==> (#[trigger] r@[i]).on_char_boundaries() && r@[i].wf(),
{
    let qk = match_key_of(query, case_sensitive);
    proof {
        encode_utf8_valid_utf8(query@);
        encode_utf8_valid_utf8(fold_chars(decode_utf8(query.spec_bytes())));
    }
    let mut out: Vec<SingleLineResult<'a>> = Vec::new();
    let mut rest: &'a str = contents;
    let ghost mut done: Seq<Seq<u8>> = Seq::empty();
    while rest.as_bytes().len() > 0
        invariant
            qk@ == match_key(query.spec_bytes(), case_sensitive),
            lines_of(contents.spec_bytes()) == done + lines_of(rest.spec_bytes()),
            outcome_view(out@) == outcome_of(query.spec_bytes(), done, case_sensitive),
            valid_utf8(qk@),
            forall|i: int| 0 <= i < out@.len() ==> (#[trigger] out@[i]).on_char_boundaries() && out@[i].wf(),
        decreases rest.spec_bytes().len(),
    {
        let (line, after) = next_line(rest);
        let lk = match_key_of(line, case_sensitive);
        let matches = find_matches(qk.as_slice(), lk.as_slice());
        proof {
            encode_utf8_decode_utf8(line@);
            encode_utf8_valid_utf8(line@);
            encode_utf8_valid_utf8(fold_chars(line@));
            lemma_spans_on_char_boundaries(qk@, lk@);
            lemma_line_spans_ordered(query.spec_bytes(), line@, case_sensitive);
            if !case_sensitive {
                assert forall|j: int| 0 <= j < spans_view(matches@).len() implies is_char_boundary(
                    line.spec_bytes(),
                    #[trigger] spans_view(matches@)[j].0,
                ) && is_char_boundary(line.spec_bytes(), spans_view(matches@)[j].0 + spans_view(matches@)[j].1) by {
                    lemma_fold_keeps_boundaries(line@, spans_view(matches@)[j].0);
                    lemma_fold_keeps_boundaries(line@, spans_view(matches@)[j].0 + spans_view(matches@)[j].1);
                }
            }
            let d2 = done.push(line.spec_bytes());
            assert(d2.drop_last() =~= done);
            assert(done + lines_of(rest.spec_bytes()) =~= d2 + lines_of(after.spec_bytes()));
        }
        if matches.len() > 0 {
            let ghost old_out = out@;
            out.push(SingleLineResult { line, matches });
            proof {
                assert(out@[out@.len() - 1]@ == (line.spec_bytes(), spans_view(matches@)));
                assert(outcome_view(out@) =~= outcome_view(old_out).push((line.spec_bytes(), spans_view(matches@))));
            }
        }
        proof {
            done = done.push(line.spec_bytes());
        }
        rest = after;
    }
    proof {
        assert(lines_of(rest.spec_bytes()) =~= Seq::<Seq<u8>>::empty());
        assert(done + Seq::<Seq<u8>>::empty() =~= done);
    }
    out
}

/// Case-sensitive search: occurrences are byte-for-byte equal to `query`.
pub fn search_case_sensitive<'a>(query: &str, contents: &'a str) -> (r: Vec<SingleLineResult<'a>>)
    ensures
        outcome_view(r@) == search_spec(query.spec_bytes(), contents.spec_bytes(), true),
        forall|i: int| 0 <= i < r@.len() ==> (#[trigger] r@[i]).on_char_boundaries() && r@[i].wf(),
{
    search(query, contents, true)
}

/// Case-insensitive search: occurrences equal `query` once both sides are
/// folded (see `crate::folding`); the reported lines keep their original case.
pub fn search_case_insensitive<'a>(query: &str, contents: &'a str) -> (r: Vec<SingleLineResult<'a>>)
    ensures
        outcome_view(r@) == search_spec(query.spec_bytes(), contents.spec_bytes(), false),
        forall|i: int| 0 <= i < r@.len() ==> (#[trigger] r@[i]).on_char_boundaries() && r@[i].wf(),
{
    search(query, contents, false)
}

} // verus!
