use std::ops::Range;
use vstd::prelude::*;

verus! {

/// Half-open index ranges as pairs of mathematical integers: start, then end.
pub open spec fn spans_of(ranges: Seq<Range<usize>>) -> Seq<(int, int)> {
    Seq::new(ranges.len(), |i: int| (ranges[i].start as int, ranges[i].end as int))
}

/// Every span is non-empty and lies below `limit`, and each ends where or before
/// the next begins.
pub open spec fn spans_ordered(spans: Seq<(int, int)>, limit: int) -> bool {
    &&& forall|i: int| 0 <= i < spans.len() ==> 0 <= (#[trigger] spans[i]).0 < spans[i].1 <= limit
    &&& forall|i: int, j: int|
        0 <= i < j < spans.len() ==> (#[trigger] spans[i]).1 <= (#[trigger] spans[j]).0
}

/// The mathematical content of a corpus: its bytes and its segments.
pub struct CorpusView {
    pub data: Seq<u8>,
    pub bounds: Seq<(int, int)>,
}

impl CorpusView {
    /// The corpus invariant: every segment is a non-empty range of the buffer, and
    /// the segments are in ascending order and do not overlap.
    pub open spec fn wf(self) -> bool {
        spans_ordered(self.bounds, self.data.len() as int)
    }

    /// The bytes of segment `b`.
    pub open spec fn segment(self, b: int) -> Seq<u8> {
        self.data.subrange(self.bounds[b].0, self.bounds[b].1)
    }
}

/// A byte buffer with the ordered segments that divide it into regions, each of
/// which is worked on by itself.
#[derive(Debug, PartialEq, Eq)]
pub struct ConcatenatedBytes {
    pub data: Vec<u8>,
    pub bounds: Vec<Range<usize>>,
}

impl View for ConcatenatedBytes {
    type V = CorpusView;

    open spec fn view(&self) -> CorpusView {
        CorpusView { data: self.data@, bounds: spans_of(self.bounds@) }
    }
}

impl ConcatenatedBytes {
    /// The corpus invariant, on the value itself.
    pub open spec fn wf(&self) -> bool {
        self@.wf()
    }

    /// A corpus of the given bytes and segments.
    pub fn new(data: Vec<u8>, bounds: Vec<Range<usize>>) -> (c: ConcatenatedBytes)
        ensures
            c.data == data,
            c.bounds == bounds,
    {
        ConcatenatedBytes { data, bounds }
    }

    /// Whether the corpus invariant holds.
    pub fn is_well_formed(&self) -> (ok: bool)
        ensures
            ok == self.wf(),
    {
        let mut floor: usize = 0;
        let mut i: usize = 0;
        while i < self.bounds.len()
            invariant
                i <= self.bounds.len(),
                floor <= self.data.len(),
                spans_ordered(spans_of(self.bounds@).take(i as int), self.data@.len() as int),
                forall|t: int| 0 <= t < i ==> (#[trigger] self.bounds@[t]).end <= floor,
                i == 0 ==> floor == 0,
                i > 0 ==> floor == self.bounds@[i - 1].end,
            decreases self.bounds.len() - i,
        {
            let start: usize = self.bounds[i].start;
            let end: usize = self.bounds[i].end;
            let ghost all = spans_of(self.bounds@);
            if !(floor <= start && start < end && end <= self.data.len()) {
                proof {
                    if self.wf() {
                        assert(all[i as int].0 < all[i as int].1);
                        if i > 0 {
                            assert(all[i - 1].1 <= all[i as int].0);
                        }
                    }
                }
                return false;
            }
            proof {
                let before = all.take(i as int);
                let after = all.take(i + 1);
                assert forall|a: int, b: int| 0 <= a < b < after.len() implies (#[trigger] after[a]).1
                    <= (#[trigger] after[b]).0 by {
                    if b < i {
                        assert(before[a].1 <= before[b].0);
                    }
                }
                assert forall|a: int| 0 <= a < after.len() implies 0 <= (#[trigger] after[a]).0
                    < after[a].1 <= self.data@.len() by {
                    if a < i {
                        assert(before[a].0 < before[a].1);
                    }
                }
            }
            floor = end;
            i += 1;
        }
        proof {
            assert(spans_of(self.bounds@).take(i as int) =~= spans_of(self.bounds@));
        }
        true
    }
}

} // verus!
