//! Cutting a matched line into the pieces that a display emphasises or
//! leaves plain.
use vstd::prelude::*;
use vstd::string::*;
use vstd::utf8::*;
use crate::scanner::SingleLineResult;

verus! {

/// A byte range `[start, end)` of a line, and whether it is an occurrence.
#[derive(Clone, Copy, PartialEq, Eq, Debug, Structural)]
pub struct Segment {
    pub start: usize,
    pub end: usize,
    pub emphasized: bool,
}

/// Spans lie within a line of `len` bytes, in order and without overlap.
pub open spec fn spans_ordered(spans: Seq<(int, int)>, len: int) -> bool {
    &&& forall|i: int| 0 <= i < spans.len() ==> 0 <= #[trigger] spans[i].0 && 0 <= spans[i].1
        && spans[i].0 + spans[i].1 <= len
    &&& forall|i: int| 0 <= i < spans.len() - 1 ==> #[trigger] spans[i].0 + spans[i].1 <= spans[i + 1].0
}

/// The pieces of a line from byte `cur` on: before each span a plain piece
/// (possibly empty), then the span itself, and a plain piece up to `len` at
/// the end.
pub open spec fn segments_from(spans: Seq<(int, int)>, cur: int, len: int) -> Seq<(int, int, bool)>
    decreases spans.len(),
{
    if spans.len() == 0 {
        seq![(cur, len, false)]
    } else {
        seq![(cur, spans[0].0, false), (spans[0].0, spans[0].0 + spans[0].1, true)]
            + segments_from(spans.skip(1), spans[0].0 + spans[0].1, len)
    }
}

pub open spec fn segments_view(v: Seq<Segment>) -> Seq<(int, int, bool)> {
    v.map_values(|g: Segment| (g.start as int, g.end as int, g.emphasized))
}

impl<'a> SingleLineResult<'a> {
    /// The spans lie within the line, in order and without overlap.
    pub open spec fn wf(&self) -> bool {
        spans_ordered(self@.1, self@.0.len() as int)
    }

    /// Tells whether the spans lie within the line, in order and without
    /// overlap.
    pub fn spans_in_order(&self) -> (b: bool)
        ensures
            b == self.wf(),
    {
        let len = self.line.as_bytes().len();
        let n = self.matches.len();
        let mut i: usize = 0;
        while i < n
            invariant
                n == self.matches@.len(),
                len == self@.0.len(),
                i <= n,
                forall|k: int| 0 <= k < i ==> 0 <= #[trigger] self@.1[k].0 && 0 <= self@.1[k].1
                    && self@.1[k].0 + self@.1[k].1 <= len,
                forall|k: int| 0 <= k < i as int - 1 ==> #[trigger] self@.1[k].0 + self@.1[k].1 <= self@.1[k + 1].0,
            decreases n - i,
        {
            let (o, l) = self.matches[i];
            proof {
                assert(self@.1[i as int] == (o as int, l as int));
            }
            if l > len || o > len - l {
                return false;
            }
            if i > 0 {
                let (po, pl) = self.matches[i - 1];
                proof {
                    assert(self@.1[i - 1] == (po as int, pl as int));
                }
                if po + pl > o {
                    return false;
                }
            }
            i = i + 1;
        }
        true
    }

    /// Cuts the line into plain and emphasised pieces that cover it from
    /// start to end: the occurrences are the emphasised pieces, in order.
    pub fn segments(&self) -> (r: Vec<Segment>)
        requires
            self.wf(),
        ensures
            segments_view(r@) == segments_from(self@.1, 0, self@.0.len() as int),
            self.on_char_boundaries() ==> forall|k: int| 0 <= k < r@.len() ==> is_char_boundary(
                self@.0,
                #[trigger] r@[k].start as int,
            ) && is_char_boundary(self@.0, r@[k].end as int),
    {
        proof {
            encode_utf8_valid_utf8(self.line@);
            is_char_boundary_start_end_of_seq(self@.0);
        }
        let len = self.line.as_bytes().len();
        let n = self.matches.len();
        let mut out: Vec<Segment> = Vec::new();
        let mut cur: usize = 0;
        let mut i: usize = 0;
        proof {
            assert(self@.1.skip(0) =~= self@.1);
            assert(segments_view(out@) + segments_from(self@.1, 0, len as int)
                =~= segments_from(self@.1, 0, len as int));
        }
        while i < n
            invariant
                self.wf(),
                n == self.matches@.len(),
                len == self@.0.len(),
                i <= n,
                cur <= len,
                i > 0 ==> cur == self@.1[i - 1].0 + self@.1[i - 1].1,
                i == 0 ==> cur == 0,
                segments_view(out@) + segments_from(self@.1.skip(i as int), cur as int, len as int)
                    == segments_from(self@.1, 0, len as int),
                is_char_boundary(self@.0, 0),
                is_char_boundary(self@.0, len as int),
                self.on_char_boundaries() ==> is_char_boundary(self@.0, cur as int),
                self.on_char_boundaries() ==> forall|k: int| 0 <= k < out@.len() ==> is_char_boundary(
                    self@.0,
                    #[trigger] out@[k].start as int,
                ) && is_char_boundary(self@.0, out@[k].end as int),
            decreases n - i,
        {
            let (o, l) = self.matches[i];
            let ghost sp = self@.1.skip(i as int);
            proof {
                assert(self@.1[i as int] == (o as int, l as int));
                assert(sp[0] == self@.1[i as int]);
                assert(sp.skip(1) =~= self@.1.skip(i + 1));
                if i > 0 {
                    assert(self@.1[i - 1].0 + self@.1[i - 1].1 <= self@.1[(i - 1) + 1].0);
                }
            }
            let ghost before = out@;
            out.push(Segment { start: cur, end: o, emphasized: false });
            out.push(Segment { start: o, end: o + l, emphasized: true });
            proof {
                assert(segments_view(out@) =~= segments_view(before) + seq![
                    (cur as int, o as int, false),
                    (o as int, o + l, true),
                ]);
                assert(segments_view(before) + segments_from(sp, cur as int, len as int)
                    =~= segments_view(out@) + segments_from(sp.skip(1), o + l, len as int));
            }
            cur = o + l;
            i = i + 1;
        }
        let ghost before = out@;
        out.push(Segment { start: cur, end: len, emphasized: false });
        proof {
            assert(self@.1.skip(n as int) =~= Seq::<(int, int)>::empty());
            assert(segments_view(out@) =~= segments_view(before) + seq![(cur as int, len as int, false)]);
        }
        out
    }
}

} // verus!
