use crate::corpus::{spans_of, spans_ordered, ConcatenatedBytes, CorpusView};
use crate::search::{
    all_matches, all_subbyte, lemma_match_offsets, match_at, occurrences, offsets_of,
    total_occurrences,
};
use std::ops::Range;
use vstd::prelude::*;

verus! {

/// The spans that the occurrences of a pattern leave over between `from` and `end`.
/// `matches` holds the offsets of the occurrences, ascending and counted from
/// `base`; each occurrence is `width` long. Occurrences that touch or overlap
/// leave nothing between them.
pub open spec fn gaps(matches: Seq<int>, width: int, base: int, from: int, end: int) -> Seq<
    (int, int),
>
    decreases matches.len(),
{
    if matches.len() == 0 {
        if from < end {
            seq![(from, end)]
        } else {
            Seq::empty()
        }
    } else {
        let m = base + matches[0];
        let head = if from < m {
            seq![(from, m)]
        } else {
            Seq::empty()
        };
        head + gaps(matches.skip(1), width, base, m + width, end)
    }
}

/// The kept spans of segment `b`: what the occurrences of `pattern` in it leave over.
pub open spec fn kept_in_segment(c: CorpusView, b: int, pattern: Seq<u8>) -> Seq<(int, int)> {
    gaps(
        all_matches(c.segment(b), pattern),
        pattern.len() as int,
        c.bounds[b].0,
        c.bounds[b].0,
        c.bounds[b].1,
    )
}

/// The kept spans of the first `b` segments, in order.
pub open spec fn kept_spans_upto(c: CorpusView, pattern: Seq<u8>, b: int) -> Seq<(int, int)>
    decreases b,
{
    if b <= 0 {
        Seq::empty()
    } else {
        kept_spans_upto(c, pattern, b - 1) + kept_in_segment(c, b - 1, pattern)
    }
}

/// The kept spans of a corpus: within each segment, what no occurrence of `pattern`
/// covers. A segment without an occurrence is kept whole.
pub open spec fn kept_spans(c: CorpusView, pattern: Seq<u8>) -> Seq<(int, int)> {
    kept_spans_upto(c, pattern, c.bounds.len() as int)
}

/// The lengths of the spans, added up.
pub open spec fn span_total(spans: Seq<(int, int)>) -> int
    decreases spans.len(),
{
    if spans.len() == 0 {
        0
    } else {
        span_total(spans.drop_last()) + spans.last().1 - spans.last().0
    }
}

/// The bytes of the spans, one span after the other.
pub open spec fn joined(data: Seq<u8>, spans: Seq<(int, int)>) -> Seq<u8>
    decreases spans.len(),
{
    if spans.len() == 0 {
        Seq::empty()
    } else {
        joined(data, spans.drop_last()) + data.subrange(spans.last().0, spans.last().1)
    }
}

/// The corpus built from the spans of a buffer: their bytes joined, and one
/// segment for each span, at the place where its bytes now lie.
pub open spec fn rebuilt(data: Seq<u8>, spans: Seq<(int, int)>) -> CorpusView {
    CorpusView {
        data: joined(data, spans),
        bounds: Seq::new(
            spans.len(),
            |k: int| (span_total(spans.take(k)), span_total(spans.take(k + 1))),
        ),
    }
}

/// Position `p` lies in one of the spans.
pub open spec fn in_spans(spans: Seq<(int, int)>, p: int) -> bool {
    exists|i: int| 0 <= i < spans.len() && (#[trigger] spans[i]).0 <= p < spans[i].1
}

/// Position `p` of the buffer lies inside an occurrence of `pattern` in segment `b`.
pub open spec fn covered(c: CorpusView, b: int, pattern: Seq<u8>, p: int) -> bool {
    exists|m: int| #[trigger]
        match_at(c.segment(b), pattern, m) && c.bounds[b].0 + m <= p < c.bounds[b].0 + m
            + pattern.len()
}

/// Position `p` lies inside one of the listed occurrences.
pub open spec fn hit(matches: Seq<int>, width: int, base: int, p: int) -> bool {
    exists|j: int|
        0 <= j < matches.len() && base + (#[trigger] matches[j]) <= p < base + matches[j] + width
}

/// The offsets ascend, and every occurrence ends before or at `end`.
pub open spec fn matches_fit(matches: Seq<int>, width: int, base: int, end: int) -> bool {
    &&& forall|a: int, b: int|
        0 <= a < b < matches.len() ==> (#[trigger] matches[a]) < (#[trigger] matches[b])
    &&& forall|j: int| 0 <= j < matches.len() ==> base + (#[trigger] matches[j]) + width <= end
}

/// A position lies in one of two lists of spans, one after the other, where it
/// lies in either.
pub proof fn lemma_in_spans_concat(a: Seq<(int, int)>, b: Seq<(int, int)>, p: int)
    ensures
        in_spans(a + b, p) <==> in_spans(a, p) || in_spans(b, p),
{
    let both = a + b;
    if in_spans(a, p) {
        let i = choose|i: int| 0 <= i < a.len() && (#[trigger] a[i]).0 <= p < a[i].1;
        assert(both[i] == a[i]);
    }
    if in_spans(b, p) {
        let i = choose|i: int| 0 <= i < b.len() && (#[trigger] b[i]).0 <= p < b[i].1;
        assert(both[a.len() + i] == b[i]);
    }
    if in_spans(both, p) {
        let i = choose|i: int| 0 <= i < both.len() && (#[trigger] both[i]).0 <= p < both[i].1;
        if i < a.len() {
            assert(both[i] == a[i]);
        } else {
            assert(both[i] == b[i - a.len()]);
        }
    }
}

/// The spans between occurrences lie between `from` and `end`, and none is empty.
pub proof fn lemma_gaps_range(matches: Seq<int>, width: int, base: int, from: int, end: int)
    requires
        width > 0,
        matches_fit(matches, width, base, end),
        matches.len() > 0 ==> from <= base + matches[0] + width,
        from <= end,
    ensures
        forall|i: int|
            0 <= i < gaps(matches, width, base, from, end).len() ==> from <= (#[trigger] gaps(
                matches,
                width,
                base,
                from,
                end,
            )[i]).0 < gaps(matches, width, base, from, end)[i].1 <= end,
    decreases matches.len(),
{
    if matches.len() > 0 {
        let m = base + matches[0];
        let rest = matches.skip(1);
        assert forall|a: int, b: int| 0 <= a < b < rest.len() implies (#[trigger] rest[a]) < (
        #[trigger] rest[b]) by {
            assert(matches[a + 1] < matches[b + 1]);
        }
        assert forall|j: int| 0 <= j < rest.len() implies base + (#[trigger] rest[j]) + width
            <= end by {
            assert(base + matches[j + 1] + width <= end);
        }
        if rest.len() > 0 {
            assert(matches[0] < matches[1]);
        }
        assert(base + matches[0] + width <= end);
        lemma_gaps_range(rest, width, base, m + width, end);
        let all = gaps(matches, width, base, from, end);
        let head = if from < m {
            seq![(from, m)]
        } else {
            Seq::<(int, int)>::empty()
        };
        let tail = gaps(rest, width, base, m + width, end);
        assert forall|i: int| 0 <= i < all.len() implies from <= (#[trigger] all[i]).0 < all[i].1
            <= end by {
            if i < head.len() {
                assert(all[i] == head[i]);
            } else {
                assert(all[i] == tail[i - head.len()]);
            }
        }
    }
}

/// Between `from` and `end`, the spans between occurrences hold the positions
/// that lie in no occurrence, and no others.
pub proof fn lemma_gaps_cover(
    matches: Seq<int>,
    width: int,
    base: int,
    from: int,
    end: int,
    p: int,
)
    requires
        width > 0,
        matches_fit(matches, width, base, end),
        matches.len() > 0 ==> from <= base + matches[0] + width,
        from <= p < end,
    ensures
        in_spans(gaps(matches, width, base, from, end), p) <==> !hit(matches, width, base, p),
    decreases matches.len(),
{
    let all = gaps(matches, width, base, from, end);
    if matches.len() == 0 {
        assert(all[0] == (from, end));
    } else {
        let m = base + matches[0];
        let rest = matches.skip(1);
        let head = if from < m {
            seq![(from, m)]
        } else {
            Seq::<(int, int)>::empty()
        };
        let tail = gaps(rest, width, base, m + width, end);
        assert forall|a: int, b: int| 0 <= a < b < rest.len() implies (#[trigger] rest[a]) < (
        #[trigger] rest[b]) by {
            assert(matches[a + 1] < matches[b + 1]);
        }
        assert forall|j: int| 0 <= j < rest.len() implies base + (#[trigger] rest[j]) + width
            <= end by {
            assert(base + matches[j + 1] + width <= end);
        }
        if rest.len() > 0 {
            assert(matches[0] < matches[1]);
        }
        assert(base + matches[0] + width <= end);
        lemma_gaps_range(rest, width, base, m + width, end);
        lemma_in_spans_concat(head, tail, p);
        if in_spans(head, p) {
            let i = choose|i: int| 0 <= i < head.len() && (#[trigger] head[i]).0 <= p < head[i].1;
            assert(head[i] == (from, m));
        }
        if hit(rest, width, base, p) {
            let j = choose|j: int|
                0 <= j < rest.len() && base + (#[trigger] rest[j]) <= p < base + rest[j] + width;
            assert(matches[j + 1] == rest[j]);
        }
        if hit(matches, width, base, p) {
            let j = choose|j: int|
                0 <= j < matches.len() && base + (#[trigger] matches[j]) <= p < base + matches[j]
                    + width;
            if j > 0 {
                assert(rest[j - 1] == matches[j]);
            }
        }
        if p < m {
            assert(head[0] == (from, m));
            assert(!hit(matches, width, base, p)) by {
                if hit(matches, width, base, p) {
                    let j = choose|j: int|
                        0 <= j < matches.len() && base + (#[trigger] matches[j]) <= p < base
                            + matches[j] + width;
                    if j > 0 {
                        assert(matches[0] < matches[j]);
                    }
                }
            }
        } else if p < m + width {
            assert(base + matches[0] <= p < base + matches[0] + width);
            if in_spans(tail, p) {
                let i = choose|i: int|
                    0 <= i < tail.len() && (#[trigger] tail[i]).0 <= p < tail[i].1;
                assert(m + width <= tail[i].0);
            }
        } else {
            lemma_gaps_cover(rest, width, base, m + width, end, p);
        }
    }
}

/// The kept spans of a segment lie in the segment, and hold its positions that
/// lie in no occurrence of the pattern, and no others.
pub proof fn lemma_kept_in_segment(c: CorpusView, b: int, pattern: Seq<u8>, p: int)
    requires
        c.wf(),
        0 <= b < c.bounds.len(),
        pattern.len() > 0,
    ensures
        in_spans(kept_in_segment(c, b, pattern), p) <==> c.bounds[b].0 <= p < c.bounds[b].1
            && !covered(c, b, pattern, p),
{
    let (start, end) = c.bounds[b];
    let segment = c.segment(b);
    let matches = all_matches(segment, pattern);
    let width = pattern.len() as int;
    let kept = kept_in_segment(c, b, pattern);
    assert(0 <= c.bounds[b].0 < c.bounds[b].1 <= c.data.len());
    lemma_match_offsets(segment, pattern, segment.len() as int);
    assert forall|j: int| 0 <= j < matches.len() implies start + (#[trigger] matches[j]) + width
        <= end by {
        assert(match_at(segment, pattern, matches[j]));
    }
    lemma_gaps_range(matches, width, start, start, end);
    if in_spans(kept, p) {
        let i = choose|i: int| 0 <= i < kept.len() && (#[trigger] kept[i]).0 <= p < kept[i].1;
        assert(start <= kept[i].0 < kept[i].1 <= end);
    }
    if start <= p < end {
        lemma_gaps_cover(matches, width, start, start, end, p);
        if hit(matches, width, start, p) {
            let j = choose|j: int|
                0 <= j < matches.len() && start + (#[trigger] matches[j]) <= p < start
                    + matches[j] + width;
            assert(match_at(segment, pattern, matches[j]));
        }
        if covered(c, b, pattern, p) {
            let m = choose|m: int| #[trigger]
                match_at(segment, pattern, m) && start + m <= p < start + m + pattern.len();
            assert(matches.contains(m));
            let j = matches.index_of(m);
            assert(matches[j] == m);
        }
    }
}

/// The kept spans of the first `n` segments hold the positions of these segments
/// that lie in no occurrence of the pattern, and no others.
pub proof fn lemma_kept_spans_upto(c: CorpusView, pattern: Seq<u8>, n: int, p: int)
    requires
        c.wf(),
        0 <= n <= c.bounds.len(),
        pattern.len() > 0,
    ensures
        in_spans(kept_spans_upto(c, pattern, n), p) <==> exists|b: int|
            0 <= b < n && (#[trigger] c.bounds[b]).0 <= p < c.bounds[b].1 && !covered(
                c,
                b,
                pattern,
                p,
            ),
    decreases n,
{
    if n > 0 {
        lemma_kept_spans_upto(c, pattern, n - 1, p);
        lemma_kept_in_segment(c, n - 1, pattern, p);
        lemma_in_spans_concat(
            kept_spans_upto(c, pattern, n - 1),
            kept_in_segment(c, n - 1, pattern),
            p,
        );
        if in_spans(kept_spans_upto(c, pattern, n - 1), p) {
            let b = choose|b: int|
                0 <= b < n - 1 && (#[trigger] c.bounds[b]).0 <= p < c.bounds[b].1 && !covered(
                    c,
                    b,
                    pattern,
                    p,
                );
            assert(0 <= b < n && c.bounds[b].0 <= p < c.bounds[b].1);
        }
        if in_spans(kept_in_segment(c, n - 1, pattern), p) {
            assert(c.bounds[n - 1].0 <= p < c.bounds[n - 1].1);
        }
    }
}

/// What is kept of a corpus when a pattern is cut out of it: the positions of its
/// segments that lie in no occurrence of the pattern within their segment, and
/// nothing else.
pub proof fn lemma_kept_spans_are_uncovered(c: CorpusView, pattern: Seq<u8>, p: int)
    requires
        c.wf(),
        pattern.len() > 0,
    ensures
        in_spans(kept_spans(c, pattern), p) <==> exists|b: int|
            0 <= b < c.bounds.len() && (#[trigger] c.bounds[b]).0 <= p < c.bounds[b].1
                && !covered(c, b, pattern, p),
{
    lemma_kept_spans_upto(c, pattern, c.bounds.len() as int, p);
}

/// The lengths of two lists of spans, one after the other, add up.
pub proof fn lemma_span_total_concat(a: Seq<(int, int)>, b: Seq<(int, int)>)
    ensures
        span_total(a + b) == span_total(a) + span_total(b),
    decreases b.len(),
{
    if b.len() == 0 {
        assert(a + b =~= a);
    } else {
        assert((a + b).drop_last() =~= a + b.drop_last());
        lemma_span_total_concat(a, b.drop_last());
    }
}

/// One span is as long as it is.
pub proof fn lemma_span_total_one(start: int, end: int)
    ensures
        span_total(seq![(start, end)]) == end - start,
{
    let one = seq![(start, end)];
    assert(one.drop_last() =~= Seq::<(int, int)>::empty());
    assert(span_total(Seq::<(int, int)>::empty()) == 0);
    assert(one.last() == (start, end));
}

/// The joined bytes of spans of a buffer are as many as the spans are long.
pub proof fn lemma_joined_len(data: Seq<u8>, spans: Seq<(int, int)>)
    requires
        forall|i: int|
            0 <= i < spans.len() ==> 0 <= (#[trigger] spans[i]).0 <= spans[i].1 <= data.len(),
    ensures
        joined(data, spans).len() == span_total(spans),
    decreases spans.len(),
{
    if spans.len() > 0 {
        let front = spans.drop_last();
        assert forall|i: int| 0 <= i < front.len() implies 0 <= (#[trigger] front[i]).0
            <= front[i].1 <= data.len() by {
            assert(front[i] == spans[i]);
        }
        lemma_joined_len(data, front);
        assert(0 <= spans[spans.len() - 1].0 <= spans[spans.len() - 1].1 <= data.len());
    }
}

/// The spans between occurrences are no longer than the stretch from `from` to
/// `end`, and shorter by an occurrence where one begins at or after `from`.
pub proof fn lemma_gaps_total(matches: Seq<int>, width: int, base: int, from: int, end: int)
    requires
        width > 0,
        matches_fit(matches, width, base, end),
        matches.len() > 0 ==> from <= base + matches[0] + width,
        from <= end,
    ensures
        span_total(gaps(matches, width, base, from, end)) <= end - from,
        matches.len() > 0 && from <= base + matches[0] ==> span_total(
            gaps(matches, width, base, from, end),
        ) + width <= end - from,
    decreases matches.len(),
{
    assert(span_total(Seq::<(int, int)>::empty()) == 0);
    if matches.len() == 0 {
        if from < end {
            lemma_span_total_one(from, end);
        }
    } else {
        let m = base + matches[0];
        let rest = matches.skip(1);
        let head = if from < m {
            seq![(from, m)]
        } else {
            Seq::<(int, int)>::empty()
        };
        let tail = gaps(rest, width, base, m + width, end);
        assert forall|a: int, b: int| 0 <= a < b < rest.len() implies (#[trigger] rest[a]) < (
        #[trigger] rest[b]) by {
            assert(matches[a + 1] < matches[b + 1]);
        }
        assert forall|j: int| 0 <= j < rest.len() implies base + (#[trigger] rest[j]) + width
            <= end by {
            assert(base + matches[j + 1] + width <= end);
        }
        if rest.len() > 0 {
            assert(matches[0] < matches[1]);
        }
        assert(base + matches[0] + width <= end);
        lemma_gaps_total(rest, width, base, m + width, end);
        lemma_span_total_concat(head, tail);
        if from < m {
            lemma_span_total_one(from, m);
        }
        assert(gaps(matches, width, base, from, end) == head + tail);
    }
}

/// What is kept of the first `n` segments lies in the buffer, and is shorter than
/// what these segments span by the length of the pattern where it occurs in them.
pub proof fn lemma_kept_total(c: CorpusView, pattern: Seq<u8>, n: int)
    requires
        c.wf(),
        0 <= n <= c.bounds.len(),
        pattern.len() > 0,
    ensures
        forall|i: int|
            0 <= i < kept_spans_upto(c, pattern, n).len() ==> 0 <= (#[trigger] kept_spans_upto(
                c,
                pattern,
                n,
            )[i]).0 < kept_spans_upto(c, pattern, n)[i].1 <= c.data.len(),
        n == 0 ==> span_total(kept_spans_upto(c, pattern, n)) == 0,
        n > 0 ==> span_total(kept_spans_upto(c, pattern, n)) + (if occurrences(c, pattern, n) > 0 {
            pattern.len() as int
        } else {
            0
        }) <= c.bounds[n - 1].1,
    decreases n,
{
    if n > 0 {
        let (start, end) = c.bounds[n - 1];
        let segment = c.segment(n - 1);
        let matches = all_matches(segment, pattern);
        let width = pattern.len() as int;
        let before = kept_spans_upto(c, pattern, n - 1);
        let here = kept_in_segment(c, n - 1, pattern);
        let all = kept_spans_upto(c, pattern, n);
        assert(0 <= c.bounds[n - 1].0 < c.bounds[n - 1].1 <= c.data.len());
        if n > 1 {
            assert(c.bounds[n - 2].1 <= c.bounds[n - 1].0);
        }
        lemma_kept_total(c, pattern, n - 1);
        lemma_match_offsets(segment, pattern, segment.len() as int);
        assert forall|j: int| 0 <= j < matches.len() implies start + (#[trigger] matches[j])
            + width <= end by {
            assert(match_at(segment, pattern, matches[j]));
        }
        if matches.len() > 0 {
            assert(match_at(segment, pattern, matches[0]));
        }
        lemma_gaps_range(matches, width, start, start, end);
        lemma_gaps_total(matches, width, start, start, end);
        lemma_span_total_concat(before, here);
        assert forall|i: int| 0 <= i < all.len() implies 0 <= (#[trigger] all[i]).0 < all[i].1
            <= c.data.len() by {
            if i < before.len() {
                assert(all[i] == before[i]);
            } else {
                assert(all[i] == here[i - before.len()]);
            }
        }
    }
}

/// Cutting out a pattern that occurs shortens the corpus by the length of the
/// pattern at least.
pub proof fn lemma_cut_shortens(c: CorpusView, pattern: Seq<u8>)
    requires
        c.wf(),
        pattern.len() > 0,
        total_occurrences(c, pattern) > 0,
    ensures
        rebuilt(c.data, kept_spans(c, pattern)).data.len() + pattern.len() <= c.data.len(),
{
    let n = c.bounds.len() as int;
    lemma_kept_total(c, pattern, n);
    lemma_joined_len(c.data, kept_spans(c, pattern));
    assert(0 <= c.bounds[n - 1].0 < c.bounds[n - 1].1 <= c.data.len());
}

/// The first spans of a list are no longer than more of them.
pub proof fn lemma_span_total_grows(spans: Seq<(int, int)>, i: int, j: int)
    requires
        forall|t: int| 0 <= t < spans.len() ==> (#[trigger] spans[t]).0 <= spans[t].1,
        0 <= i <= j <= spans.len(),
    ensures
        0 <= span_total(spans.take(i)) <= span_total(spans.take(j)),
        j < spans.len() ==> span_total(spans.take(j + 1)) == span_total(spans.take(j))
            + spans[j].1 - spans[j].0,
    decreases j,
{
    if j < spans.len() {
        assert(spans.take(j + 1).drop_last() =~= spans.take(j));
        assert(spans.take(j + 1).last() == spans[j]);
    }
    if j == 0 {
        assert(span_total(spans.take(0)) == 0);
    } else {
        assert(spans.take(j).drop_last() =~= spans.take(j - 1));
        assert(spans.take(j).last() == spans[j - 1]);
        assert(spans[j - 1].0 <= spans[j - 1].1);
        if i < j {
            lemma_span_total_grows(spans, i, j - 1);
        } else {
            lemma_span_total_grows(spans, 0, j - 1);
        }
    }
}

/// The corpus built from spans of a buffer that are not empty keeps the corpus
/// invariant.
pub proof fn lemma_rebuilt_wf(data: Seq<u8>, spans: Seq<(int, int)>)
    requires
        forall|i: int|
            0 <= i < spans.len() ==> 0 <= (#[trigger] spans[i]).0 < spans[i].1 <= data.len(),
    ensures
        rebuilt(data, spans).wf(),
{
    let built = rebuilt(data, spans);
    lemma_joined_len(data, spans);
    assert(spans.take(spans.len() as int) =~= spans);
    assert forall|i: int| 0 <= i < built.bounds.len() implies 0 <= (#[trigger] built.bounds[i]).0
        < built.bounds[i].1 <= built.data.len() by {
        lemma_span_total_grows(spans, i, i);
        lemma_span_total_grows(spans, i + 1, spans.len() as int);
        assert(spans[i].0 < spans[i].1);
    }
    assert forall|i: int, j: int| 0 <= i < j < built.bounds.len() implies (
    #[trigger] built.bounds[i]).1 <= (#[trigger] built.bounds[j]).0 by {
        lemma_span_total_grows(spans, i + 1, j);
    }
}

/// Cutting a pattern out of a corpus keeps the corpus invariant.
pub proof fn lemma_cut_keeps_invariant(c: CorpusView, pattern: Seq<u8>)
    requires
        c.wf(),
        pattern.len() > 0,
    ensures
        rebuilt(c.data, kept_spans(c, pattern)).wf(),
{
    lemma_kept_total(c, pattern, c.bounds.len() as int);
    lemma_rebuilt_wf(c.data, kept_spans(c, pattern));
}

/// Why a corpus could not be rebuilt.
#[derive(Clone, Copy, Debug, PartialEq, Eq, Structural)]
pub enum SegmentError {
    /// The span at this place in the list is empty.
    EmptySpan(usize),
}

/// Computes the spans of the corpus that are kept when every occurrence of
/// `pattern` is cut out of it, segment by segment.
pub fn generate_cutoff_by_pattern(byte_vec: &ConcatenatedBytes, pattern: &[u8]) -> (cutoff: Vec<
    Range<usize>,
>)
    requires
        byte_vec.wf(),
        pattern.len() > 0,
    ensures
        spans_of(cutoff@) == kept_spans(byte_vec@, pattern@),
        spans_ordered(spans_of(cutoff@), byte_vec.data@.len() as int),
        forall|i: int|
            0 <= i < cutoff@.len() ==> (#[trigger] cutoff@[i]).start < cutoff@[i].end
                <= byte_vec.data@.len(),
        span_total(spans_of(cutoff@)) + (if total_occurrences(byte_vec@, pattern@) > 0 {
            pattern@.len() as int
        } else {
            0
        }) <= byte_vec.data@.len(),
{
    let ghost c = byte_vec@;
    let ghost pat = pattern@;
    let ghost width = pattern@.len() as int;
    let mut cutoff: Vec<Range<usize>> = Vec::new();
    let mut reached: usize = 0;
    let mut b: usize = 0;
    proof {
        assert(spans_of(cutoff@) =~= kept_spans_upto(c, pat, 0));
    }
    while b < byte_vec.bounds.len()
        invariant
            byte_vec.wf(),
            c == byte_vec@,
            pat == pattern@,
            width == pattern@.len(),
            width > 0,
            b <= byte_vec.bounds.len(),
            reached <= byte_vec.data.len(),
            b > 0 ==> reached == byte_vec.bounds@[b - 1].end,
            spans_of(cutoff@) == kept_spans_upto(c, pat, b as int),
            spans_ordered(spans_of(cutoff@), reached as int),
            span_total(spans_of(cutoff@)) + (if occurrences(c, pat, b as int) > 0 {
                width
            } else {
                0
            }) <= reached,
        decreases byte_vec.bounds.len() - b,
    {
        let start: usize = byte_vec.bounds[b].start;
        let end: usize = byte_vec.bounds[b].end;
        proof {
            assert(c.bounds[b as int] == (start as int, end as int));
            assert(0 <= c.bounds[b as int].0 < c.bounds[b as int].1 <= c.data.len());
            if b > 0 {
                assert(c.bounds[b - 1].1 <= c.bounds[b as int].0);
            }
        }
        let found = all_subbyte(&byte_vec.data[start..end], pattern, None);
        let ghost matches = offsets_of(found@);
        let ghost target = kept_spans_upto(c, pat, b as int) + kept_in_segment(c, b as int, pat);
        let mut from: usize = start;
        let mut t: usize = 0;
        proof {
            assert(matches.skip(0) =~= matches);
            assert(c.segment(b as int) == byte_vec.data@.subrange(start as int, end as int));
        }
        while t < found.len()
            invariant
                t <= found.len(),
                width == pattern@.len(),
                width > 0,
                matches == offsets_of(found@),
                start <= from <= end,
                end <= byte_vec.data.len(),
                end - start == byte_vec.data@.subrange(start as int, end as int).len(),
                t == 0 ==> from == start,
                t > 0 ==> from == start + found@[t - 1] + width,
                forall|k: int|
                    0 <= k < found@.len() ==> (#[trigger] found@[k]) + width <= end - start,
                forall|x: int, y: int| 0 <= x < y < found@.len() ==> found@[x] < found@[y],
                spans_of(cutoff@) + gaps(matches.skip(t as int), width, start as int, from as int, end as int)
                    == target,
                spans_ordered(spans_of(cutoff@), from as int),
                span_total(spans_of(cutoff@)) + (if occurrences(c, pat, b as int) > 0 || t > 0 {
                    width
                } else {
                    0
                }) <= from,
            decreases found.len() - t,
        {
            let m: usize = start + found[t];
            proof {
                let rest = matches.skip(t as int);
                assert(rest[0] == found@[t as int]);
                assert(rest.skip(1) =~= matches.skip(t + 1));
                if t > 0 {
                    assert(found@[t - 1] < found@[t as int]);
                }
            }
            if from < m {
                let ghost before = spans_of(cutoff@);
                cutoff.push(from..m);
                proof {
                    assert(spans_of(cutoff@) =~= before + seq![(from as int, m as int)]);
                    assert(spans_of(cutoff@).drop_last() =~= before);
                    assert(before + seq![(from as int, m as int)] + gaps(
                        matches.skip(t + 1),
                        width,
                        start as int,
                        m + width,
                        end as int,
                    ) =~= before + (seq![(from as int, m as int)] + gaps(
                        matches.skip(t + 1),
                        width,
                        start as int,
                        m + width,
                        end as int,
                    )));
                }
            } else {
                proof {
                    let tail = gaps(matches.skip(t + 1), width, start as int, m + width, end as int);
                    assert(Seq::<(int, int)>::empty() + tail =~= tail);
                }
            }
            from = m + pattern.len();
            t += 1;
        }
        if from < end {
            let ghost before = spans_of(cutoff@);
            cutoff.push(from..end);
            proof {
                assert(spans_of(cutoff@) =~= before + seq![(from as int, end as int)]);
                assert(spans_of(cutoff@).drop_last() =~= before);
            }
        } else {
            proof {
                assert(spans_of(cutoff@) + Seq::<(int, int)>::empty() =~= spans_of(cutoff@));
            }
        }
        reached = end;
        b += 1;
    }
    proof {
        assert forall|i: int| 0 <= i < cutoff@.len() implies (#[trigger] cutoff@[i]).start
            < cutoff@[i].end <= byte_vec.data@.len() by {
            assert(spans_of(cutoff@)[i].0 < spans_of(cutoff@)[i].1);
        }
    }
    cutoff
}

/// Builds the corpus that holds the bytes of the given spans of `byte`, joined, with
/// one segment for each span. An empty span is refused.
pub fn rebuild_2d_byte_vec(cutoff: &[Range<usize>], byte: &ConcatenatedBytes) -> (r: Result<
    ConcatenatedBytes,
    SegmentError,
>)
    requires
        forall|i: int|
            0 <= i < cutoff@.len() ==> (#[trigger] cutoff@[i]).start <= cutoff@[i].end
                <= byte.data@.len(),
    ensures
        match r {
            Ok(c) => {
                &&& forall|i: int| 0 <= i < cutoff@.len() ==> (#[trigger] cutoff@[i]).start < cutoff@[i].end
                &&& c@ == rebuilt(byte.data@, spans_of(cutoff@))
                &&& c.wf()
                &&& c.data@.len() == span_total(spans_of(cutoff@))
            },
            Err(SegmentError::EmptySpan(at)) => {
                &&& at < cutoff@.len()
                &&& cutoff@[at as int].start == cutoff@[at as int].end
                &&& forall|i: int| 0 <= i < at ==> (#[trigger] cutoff@[i]).start < cutoff@[i].end
            },
        },
{
    let ghost spans = spans_of(cutoff@);
    let mut data: Vec<u8> = Vec::new();
    let mut bounds: Vec<Range<usize>> = Vec::new();
    let mut i: usize = 0;
    proof {
        assert(spans.take(0) =~= Seq::<(int, int)>::empty());
    }
    while i < cutoff.len()
        invariant
            i <= cutoff.len(),
            spans == spans_of(cutoff@),
            forall|k: int|
                0 <= k < cutoff@.len() ==> (#[trigger] cutoff@[k]).start <= cutoff@[k].end
                    <= byte.data@.len(),
            forall|k: int| 0 <= k < i ==> (#[trigger] cutoff@[k]).start < cutoff@[k].end,
            data@ == joined(byte.data@, spans.take(i as int)),
            data@.len() == span_total(spans.take(i as int)),
            bounds@.len() == i,
            forall|k: int|
                0 <= k < i ==> (#[trigger] spans_of(bounds@)[k]) == (
                    span_total(spans.take(k)),
                    span_total(spans.take(k + 1)),
                ),
            spans_ordered(spans_of(bounds@), data@.len() as int),
        decreases cutoff.len() - i,
    {
        let start: usize = cutoff[i].start;
        let end: usize = cutoff[i].end;
        if start == end {
            return Err(SegmentError::EmptySpan(i));
        }
        let before: usize = data.len();
        let ghost data0 = data@;
        let ghost bounds0 = spans_of(bounds@);
        data.extend_from_slice(&byte.data[start..end]);
        let after: usize = data.len();
        bounds.push(before..after);
        proof {
            let now = spans.take(i + 1);
            assert(now.drop_last() =~= spans.take(i as int));
            assert(now.last() == (start as int, end as int));
            assert(data@ =~= data0 + byte.data@.subrange(start as int, end as int));
            assert(spans_of(bounds@) =~= bounds0.push((before as int, after as int)));
            assert forall|k: int| 0 <= k < i + 1 implies (#[trigger] spans_of(bounds@)[k]) == (
                span_total(spans.take(k)),
                span_total(spans.take(k + 1)),
            ) by {
                if k < i {
                    assert(spans_of(bounds@)[k] == bounds0[k]);
                }
            }
            assert forall|x: int, y: int| 0 <= x < y < i + 1 implies (#[trigger] spans_of(
                bounds@,
            )[x]).1 <= (#[trigger] spans_of(bounds@)[y]).0 by {
                assert(spans_of(bounds@)[x] == bounds0[x]);
                if y < i {
                    assert(spans_of(bounds@)[y] == bounds0[y]);
                }
            }
            assert forall|k: int| 0 <= k < i + 1 implies 0 <= (#[trigger] spans_of(bounds@)[k]).0
                < spans_of(bounds@)[k].1 <= data@.len() by {
                if k < i {
                    assert(spans_of(bounds@)[k] == bounds0[k]);
                }
            }
        }
        i += 1;
    }
    let c = ConcatenatedBytes::new(data, bounds);
    proof {
        assert(spans.take(i as int) =~= spans);
        assert(c@.bounds =~= rebuilt(byte.data@, spans).bounds);
    }
    Ok(c)
}

} // verus!
