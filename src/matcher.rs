//! Finding the occurrences of a query within one line, byte for byte.
use vstd::prelude::*;

verus! {

/// `query` occurs in `line` at byte offset `i`.
pub open spec fn occurs_at(query: Seq<u8>, line: Seq<u8>, i: int) -> bool {
    &&& 0 <= i
    &&& i + query.len() <= line.len()
    &&& forall|k: int| 0 <= k < query.len() ==> #[trigger] line[i + k] == query[k]
}

/// Offsets of the occurrences found by a left-to-right scan starting at `i`
/// that resumes right after each occurrence it takes. An empty query has
/// no occurrences.
pub open spec fn scan(query: Seq<u8>, line: Seq<u8>, i: int) -> Seq<int>
    decreases line.len() - i,
{
    if query.len() == 0 || i < 0 || i + query.len() > line.len() {
        Seq::empty()
    } else if occurs_at(query, line, i) {
        seq![i].add(scan(query, line, i + query.len()))
    } else {
        scan(query, line, i + 1)
    }
}

/// The match spans `(offset, length)` that the scan from `i` yields.
pub open spec fn spans_from(query: Seq<u8>, line: Seq<u8>, i: int) -> Seq<(int, int)> {
    scan(query, line, i).map_values(|o: int| (o, query.len() as int))
}

/// The match spans `(offset, length)` of `query` in `line`.
pub open spec fn spans_of(query: Seq<u8>, line: Seq<u8>) -> Seq<(int, int)> {
    spans_from(query, line, 0)
}

/// Views a vector of spans as integer pairs.
pub open spec fn spans_view(v: Seq<(usize, usize)>) -> Seq<(int, int)> {
    v.map_values(|p: (usize, usize)| (p.0 as int, p.1 as int))
}

/// Every offset the scan from `i` yields is an occurrence at or after `i`,
/// and each one starts at or after the end of the one before.
pub proof fn lemma_scan_sound(query: Seq<u8>, line: Seq<u8>, i: int)
    requires
        0 <= i,
    ensures
        forall|j: int| 0 <= j < scan(query, line, i).len() ==> i <= #[trigger] scan(query, line, i)[j]
            && occurs_at(query, line, scan(query, line, i)[j]),
        forall|j: int| 0 <= j < scan(query, line, i).len() - 1 ==>
            #[trigger] scan(query, line, i)[j] + query.len() <= scan(query, line, i)[j + 1],
    decreases line.len() - i,
{
    if query.len() == 0 || i + query.len() > line.len() {
    } else if occurs_at(query, line, i) {
        let t = scan(query, line, i + query.len());
        lemma_scan_sound(query, line, i + query.len());
        let s = scan(query, line, i);
        assert(s == seq![i].add(t));
        assert forall|j: int| 0 <= j < s.len() - 1 implies #[trigger] s[j] + query.len() <= s[j + 1] by {
            if j > 0 {
                assert(s[j] == t[j - 1]);
                assert(s[j + 1] == t[(j - 1) + 1]);
            } else if t.len() > 0 {
                assert(s[1] == t[0]);
            }
        }
        assert forall|j: int| 0 <= j < s.len() implies i <= #[trigger] s[j] && occurs_at(query, line, s[j]) by {
            if j > 0 {
                assert(s[j] == t[j - 1]);
            }
        }
    } else {
        lemma_scan_sound(query, line, i + 1);
        assert(scan(query, line, i) == scan(query, line, i + 1));
    }
}

fn occurs_at_exec(query: &[u8], line: &[u8], i: usize) -> (r: bool)
    requires
        i + query@.len() <= line@.len(),
    ensures
        r == occurs_at(query@, line@, i as int),
{
    let mut k: usize = 0;
    while k < query.len()
        invariant
            k <= query@.len(),
            i + query@.len() <= line@.len(),
            line@.len() == line.len(),
            forall|j: int| 0 <= j < k ==> #[trigger] line@[i + j] == query@[j],
        decreases query@.len() - k,
    {
        if line[i + k] != query[k] {
            return false;
        }
        k = k + 1;
    }
    true
}

/// Finds the non-overlapping occurrences of `query` in `line`, left to
/// right, and returns them as `(offset, length)` byte spans of `line`.
pub fn find_matches(query: &[u8], line: &[u8]) -> (r: Vec<(usize, usize)>)
    ensures
        spans_view(r@) == spans_of(query@, line@),
{
    let mut out: Vec<(usize, usize)> = Vec::new();
    if query.len() == 0 {
        proof {
            assert(spans_of(query@, line@) =~= Seq::empty());
        }
        return out;
    }
    let n = query.len();
    let mut i: usize = 0;
    while i <= line.len() && n <= line.len() - i
        invariant
            n == query@.len(),
            n > 0,
            i <= line@.len() + n,
            spans_view(out@) + spans_from(query@, line@, i as int)
                == spans_of(query@, line@),
        decreases line@.len() + n - i,
    {
        if occurs_at_exec(query, line, i) {
            proof {
                lemma_spans_step(query@, line@, i as int, out@, (i, n));
            }
            out.push((i, n));
            i = i + n;
        } else {
            proof {
                lemma_spans_skip(query@, line@, i as int);
            }
            i = i + 1;
        }
    }
    proof {
        assert(scan(query@, line@, i as int) =~= Seq::empty());
        assert(spans_view(out@) + spans_from(query@, line@, i as int)
            =~= spans_view(out@));
    }
    out
}

proof fn lemma_spans_step(
    query: Seq<u8>,
    line: Seq<u8>,
    i: int,
    out: Seq<(usize, usize)>,
    p: (usize, usize),
)
    requires
        query.len() > 0,
        0 <= i,
        i + query.len() <= line.len(),
        occurs_at(query, line, i),
        p.0 == i,
        p.1 == query.len(),
    ensures
        spans_view(out) + spans_from(query, line, i)
            =~= spans_view(out.push(p)) + spans_from(query, line, i + query.len()),
{
    let t = scan(query, line, i + query.len());
    assert(scan(query, line, i) == seq![i].add(t));
    assert(spans_view(out.push(p)) =~= spans_view(out).push((i, query.len() as int)));
}

proof fn lemma_spans_skip(query: Seq<u8>, line: Seq<u8>, i: int)
    requires
        query.len() > 0,
        0 <= i,
        i + query.len() <= line.len(),
        !occurs_at(query, line, i),
    ensures
        spans_from(query, line, i) == spans_from(query, line, i + 1),
{
}

} // verus!
