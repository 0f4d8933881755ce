use crate::corpus::{ConcatenatedBytes, CorpusView};
use crate::search::{match_offsets, occurrences, total_occurrences};
use crate::table::{clamp, keys_nonempty, repeated_only, value_or_zero, ByteTable};
use vstd::arithmetic::div_mod::{lemma_fundamental_div_mod_converse, lemma_small_mod};
use vstd::prelude::*;

verus! {

/// The number of counting steps between two sweeps where none is given.
pub const DEFAULT_DROPOUT: u32 = 0xf_ffff;

/// The substrings that begin at `i` and end before or at `end`, shortest first.
pub open spec fn row(data: Seq<u8>, i: int, end: int) -> Seq<Seq<u8>> {
    Seq::new((end - i) as nat, |t: int| data.subrange(i, i + t + 1))
}

/// The substrings of the segment from `start` to `end` that begin before `i`, in
/// the order in which they are counted: by where they begin, then by length.
pub open spec fn segment_stream(data: Seq<u8>, start: int, i: int, end: int) -> Seq<Seq<u8>>
    decreases i - start,
{
    if i <= start {
        Seq::empty()
    } else {
        segment_stream(data, start, i - 1, end) + row(data, i - 1, end)
    }
}

/// The substrings of the first `b` segments, in the order in which they are counted.
pub open spec fn corpus_stream(c: CorpusView, b: int) -> Seq<Seq<u8>>
    decreases b,
{
    if b <= 0 {
        Seq::empty()
    } else {
        corpus_stream(c, b - 1) + segment_stream(
            c.data,
            c.bounds[b - 1].0,
            c.bounds[b - 1].1,
            c.bounds[b - 1].1,
        )
    }
}

/// Every non-empty substring of every segment, once for each place where it
/// stands, in the order in which they are counted.
pub open spec fn substring_stream(c: CorpusView) -> Seq<Seq<u8>> {
    corpus_stream(c, c.bounds.len() as int)
}

/// One counting step: the count of `k` goes up by one, from zero where `k` is new.
pub open spec fn tally_step(m: Map<Seq<u8>, int>, k: Seq<u8>) -> Map<Seq<u8>, int> {
    m.insert(k, clamp(value_or_zero(m, k) + 1))
}

/// The counts after the strings of `stream` were counted one by one, starting from
/// `seed`, with a sweep after every `interval` steps.
pub open spec fn tally(stream: Seq<Seq<u8>>, interval: int, seed: Map<Seq<u8>, int>) -> Map<
    Seq<u8>,
    int,
>
    decreases stream.len(),
{
    if stream.len() == 0 {
        seed
    } else {
        let counted = tally_step(tally(stream.drop_last(), interval, seed), stream.last());
        if stream.len() % (interval as nat) == 0 {
            repeated_only(counted)
        } else {
            counted
        }
    }
}

/// The candidates of a corpus with their counts: what is left of the tally of its
/// substrings after a last sweep.
pub open spec fn candidate_counts(c: CorpusView, interval: int, seed: Map<Seq<u8>, int>) -> Map<
    Seq<u8>,
    int,
> {
    repeated_only(tally(substring_stream(c), interval, seed))
}

/// The interval that is used for a requested one.
pub open spec fn interval_of(dropout: Option<u32>) -> int {
    match dropout {
        Some(d) => d as int,
        None => DEFAULT_DROPOUT as int,
    }
}

/// The counts that the counting starts from.
pub open spec fn seed_of(pre_keyed_map: Option<&ByteTable>) -> Map<Seq<u8>, int> {
    match pre_keyed_map {
        Some(t) => t@,
        None => Map::empty(),
    }
}

/// How often `k` stands in `stream`.
pub open spec fn times_in(stream: Seq<Seq<u8>>, k: Seq<u8>) -> nat
    decreases stream.len(),
{
    if stream.len() == 0 {
        0
    } else {
        times_in(stream.drop_last(), k) + if stream.last() == k {
            1nat
        } else {
            0nat
        }
    }
}

/// A string stands in two streams, one after the other, as often as in both.
pub proof fn lemma_times_in_concat(a: Seq<Seq<u8>>, b: Seq<Seq<u8>>, k: Seq<u8>)
    ensures
        times_in(a + b, k) == times_in(a, k) + times_in(b, k),
    decreases b.len(),
{
    if b.len() == 0 {
        assert(a + b =~= a);
    } else {
        assert((a + b).drop_last() =~= a + b.drop_last());
        lemma_times_in_concat(a, b.drop_last(), k);
    }
}

/// A string stands in a stream at most once for each place.
pub proof fn lemma_times_in_bound(stream: Seq<Seq<u8>>, k: Seq<u8>)
    ensures
        times_in(stream, k) <= stream.len(),
    decreases stream.len(),
{
    if stream.len() > 0 {
        lemma_times_in_bound(stream.drop_last(), k);
    }
}

/// As long as no sweep falls into the counting, the tally of a stream holds each
/// string that stands in it, with the number of times that it does.
pub proof fn lemma_tally_unswept(stream: Seq<Seq<u8>>, interval: int, k: Seq<u8>)
    requires
        stream.len() < interval <= i64::MAX,
    ensures
        tally(stream, interval, Map::empty()).contains_key(k) <==> times_in(stream, k) > 0,
        times_in(stream, k) > 0 ==> tally(stream, interval, Map::empty())[k] == times_in(stream, k),
    decreases stream.len(),
{
    if stream.len() > 0 {
        lemma_tally_unswept(stream.drop_last(), interval, k);
        lemma_times_in_bound(stream.drop_last(), k);
        lemma_small_mod(stream.len(), interval as nat);
    }
}

/// Of the substrings that begin at `i`, at most one is `k`: the one of the length
/// of `k`, if the segment reaches that far.
proof fn lemma_row_times(data: Seq<u8>, i: int, end: int, k: Seq<u8>, t: int)
    requires
        0 <= i <= end <= data.len(),
        0 <= t <= end - i,
    ensures
        times_in(row(data, i, end).take(t), k) == if 0 < k.len() <= t && data.subrange(
            i,
            i + k.len(),
        ) == k {
            1nat
        } else {
            0nat
        },
    decreases t,
{
    if t > 0 {
        let line = row(data, i, end);
        lemma_row_times(data, i, end, k, t - 1);
        assert(line.take(t).drop_last() =~= line.take(t - 1));
        assert(line.take(t).last() == data.subrange(i, i + t));
        assert(data.subrange(i, i + t).len() == t);
    }
}

/// A string stands among the substrings of a segment that begin before `i` once
/// for each of its occurrences in the segment that begin before `i`.
proof fn lemma_segment_times(data: Seq<u8>, start: int, i: int, end: int, k: Seq<u8>)
    requires
        0 <= start <= i <= end <= data.len(),
        k.len() > 0,
    ensures
        times_in(segment_stream(data, start, i, end), k) == match_offsets(
            data.subrange(start, end),
            k,
            i - start,
        ).len(),
    decreases i - start,
{
    if i > start {
        let line = row(data, i - 1, end);
        let segment = data.subrange(start, end);
        lemma_segment_times(data, start, i - 1, end, k);
        lemma_times_in_concat(segment_stream(data, start, i - 1, end), line, k);
        lemma_row_times(data, i - 1, end, k, end - (i - 1));
        assert(line.take(end - (i - 1)) =~= line);
        if i - 1 + k.len() <= end {
            assert(segment.subrange(i - 1 - start, i - 1 - start + k.len()) =~= data.subrange(
                i - 1,
                i - 1 + k.len(),
            ));
        }
    }
}

/// A string stands among the substrings of the first `b` segments as often as it
/// occurs in them.
pub proof fn lemma_corpus_times(c: CorpusView, b: int, k: Seq<u8>)
    requires
        c.wf(),
        0 <= b <= c.bounds.len(),
        k.len() > 0,
    ensures
        times_in(corpus_stream(c, b), k) == occurrences(c, k, b),
    decreases b,
{
    if b > 0 {
        let (start, end) = c.bounds[b - 1];
        assert(0 <= c.bounds[b - 1].0 < c.bounds[b - 1].1 <= c.data.len());
        lemma_corpus_times(c, b - 1, k);
        lemma_times_in_concat(
            corpus_stream(c, b - 1),
            segment_stream(c.data, start, end, end),
            k,
        );
        lemma_segment_times(c.data, start, end, end, k);
    }
}

/// No substring in the stream of a corpus is empty.
pub proof fn lemma_stream_nonempty(c: CorpusView, b: int)
    requires
        c.wf(),
        0 <= b <= c.bounds.len(),
    ensures
        times_in(corpus_stream(c, b), Seq::empty()) == 0,
    decreases b,
{
    if b > 0 {
        let (start, end) = c.bounds[b - 1];
        assert(0 <= c.bounds[b - 1].0 < c.bounds[b - 1].1 <= c.data.len());
        lemma_stream_nonempty(c, b - 1);
        lemma_times_in_concat(
            corpus_stream(c, b - 1),
            segment_stream(c.data, start, end, end),
            Seq::empty(),
        );
        lemma_segment_empty(c.data, start, end, end);
    }
}

proof fn lemma_segment_empty(data: Seq<u8>, start: int, i: int, end: int)
    requires
        0 <= start <= i <= end <= data.len(),
    ensures
        times_in(segment_stream(data, start, i, end), Seq::empty()) == 0,
    decreases i - start,
{
    if i > start {
        let line = row(data, i - 1, end);
        lemma_segment_empty(data, start, i - 1, end);
        lemma_times_in_concat(segment_stream(data, start, i - 1, end), line, Seq::empty());
        lemma_row_times(data, i - 1, end, Seq::empty(), end - (i - 1));
        assert(line.take(end - (i - 1)) =~= line);
    }
}

/// Where the interval is longer than the counting, so that the only sweep is the
/// last one, the candidates are the strings that occur at least twice in the
/// corpus, each with the number of its occurrences.
pub proof fn lemma_counts_without_sweep(c: CorpusView, interval: int, k: Seq<u8>)
    requires
        c.wf(),
        substring_stream(c).len() < interval <= i64::MAX,
    ensures
        candidate_counts(c, interval, Map::empty()).contains_key(k) <==> k.len() > 0
            && total_occurrences(c, k) >= 2,
        candidate_counts(c, interval, Map::empty()).contains_key(k) ==> candidate_counts(
            c,
            interval,
            Map::empty(),
        )[k] == total_occurrences(c, k),
{
    lemma_tally_unswept(substring_stream(c), interval, k);
    if k.len() > 0 {
        lemma_corpus_times(c, c.bounds.len() as int, k);
    } else {
        assert(k =~= Seq::empty());
        lemma_stream_nonempty(c, c.bounds.len() as int);
    }
}

/// The substrings of a segment that begin before `i` are at most as many as there
/// are places before `i` times the length of the segment.
proof fn lemma_segment_stream_len(data: Seq<u8>, start: int, i: int, end: int)
    requires
        0 <= start <= i <= end <= data.len(),
    ensures
        segment_stream(data, start, i, end).len() <= (i - start) * (end - start),
    decreases i - start,
{
    if i > start {
        lemma_segment_stream_len(data, start, i - 1, end);
        assert((i - 1 - start) * (end - start) + (end - start) == (i - start) * (end - start))
            by (nonlinear_arith);
    } else {
        assert((i - start) * (end - start) == 0) by (nonlinear_arith)
            requires
                i == start,
        ;
    }
}

/// The substrings of the first `b` segments are at most as many as the bytes up
/// to the end of these segments times the bytes of the buffer.
proof fn lemma_corpus_stream_len(c: CorpusView, b: int)
    requires
        c.wf(),
        0 <= b <= c.bounds.len(),
    ensures
        b == 0 ==> corpus_stream(c, b).len() == 0,
        b > 0 ==> corpus_stream(c, b).len() <= c.bounds[b - 1].1 * c.data.len(),
    decreases b,
{
    if b > 0 {
        let (start, end) = c.bounds[b - 1];
        let total = c.data.len() as int;
        assert(0 <= c.bounds[b - 1].0 < c.bounds[b - 1].1 <= c.data.len());
        lemma_corpus_stream_len(c, b - 1);
        lemma_segment_stream_len(c.data, start, end, end);
        let before = if b > 1 {
            c.bounds[b - 2].1
        } else {
            0
        };
        if b > 1 {
            assert(c.bounds[b - 2].1 <= c.bounds[b - 1].0);
            assert(0 <= c.bounds[b - 2].0 < c.bounds[b - 2].1);
        }
        assert(before * total + (end - start) * (end - start) <= end * total) by (nonlinear_arith)
            requires
                0 <= before <= start < end <= total,
        ;
    }
}

/// The substrings of a corpus are at most as many as the square of its bytes.
pub proof fn lemma_stream_len(c: CorpusView)
    requires
        c.wf(),
    ensures
        substring_stream(c).len() <= c.data.len() * c.data.len(),
{
    let n = c.bounds.len() as int;
    let total = c.data.len() as int;
    lemma_corpus_stream_len(c, n);
    if n > 0 {
        assert(0 <= c.bounds[n - 1].0 < c.bounds[n - 1].1 <= c.data.len());
        let end = c.bounds[n - 1].1;
        assert(end * total <= total * total) by (nonlinear_arith)
            requires
                0 <= end <= total,
        ;
    } else {
        assert(0 <= total * total) by (nonlinear_arith);
    }
}

/// With the interval that is used where none is given, a corpus of 1023 bytes or
/// fewer is counted without a sweep before the last: its candidates are the
/// strings that occur at least twice in it, each with the number of its
/// occurrences.
pub proof fn lemma_counts_of_short_corpus(c: CorpusView, k: Seq<u8>)
    requires
        c.wf(),
        c.data.len() <= 1023,
    ensures
        candidate_counts(c, DEFAULT_DROPOUT as int, Map::empty()).contains_key(k) <==> k.len() > 0
            && total_occurrences(c, k) >= 2,
        candidate_counts(c, DEFAULT_DROPOUT as int, Map::empty()).contains_key(k)
            ==> candidate_counts(c, DEFAULT_DROPOUT as int, Map::empty())[k] == total_occurrences(
            c,
            k,
        ),
{
    let total = c.data.len() as int;
    lemma_stream_len(c);
    assert(total * total <= 1023 * 1023) by (nonlinear_arith)
        requires
            0 <= total <= 1023,
    ;
    lemma_counts_without_sweep(c, DEFAULT_DROPOUT as int, k);
}

/// Counts every substring of every segment of the corpus, starting from the counts
/// of `pre_keyed_map` if there is one. After every `dropout` counting steps, and
/// once more at the end, the entries with a count of one or less are swept out, so
/// that every entry of the result has occurred at least twice since the last sweep
/// before it.
pub fn train_unigram_bytes(
    byte_vec: &ConcatenatedBytes,
    dropout: Option<u32>,
    pre_keyed_map: Option<&ByteTable>,
) -> (counter: ByteTable)
    requires
        byte_vec.wf(),
        dropout matches Some(d) ==> d > 0,
        pre_keyed_map matches Some(t) ==> t.wf(),
    ensures
        counter.wf(),
        counter@ == candidate_counts(byte_vec@, interval_of(dropout), seed_of(pre_keyed_map)),
        forall|k: Seq<u8>| counter@.contains_key(k) ==> counter@[k] > 1,
        keys_nonempty(seed_of(pre_keyed_map)) ==> keys_nonempty(counter@),
{
    let interval: u32 = match dropout {
        Some(d) => d,
        None => DEFAULT_DROPOUT,
    };
    let mut counter = match pre_keyed_map {
        Some(t) => t.duplicate(),
        None => ByteTable::new(),
    };
    let ghost seed = counter@;
    let ghost c = byte_vec@;
    let ghost mut done: Seq<Seq<u8>> = Seq::empty();
    let ghost mut sweeps: int = 0;
    let mut phase: u32 = 0;
    let mut b: usize = 0;
    while b < byte_vec.bounds.len()
        invariant
            byte_vec.wf(),
            c == byte_vec@,
            interval > 0,
            b <= byte_vec.bounds.len(),
            counter.wf(),
            counter@ == tally(done, interval as int, seed),
            done == corpus_stream(c, b as int),
            phase < interval,
            sweeps >= 0,
            done.len() == sweeps * interval + phase,
            keys_nonempty(seed) ==> keys_nonempty(counter@),
        decreases byte_vec.bounds.len() - b,
    {
        let start: usize = byte_vec.bounds[b].start;
        let end: usize = byte_vec.bounds[b].end;
        let ghost head = corpus_stream(c, b as int);
        proof {
            assert(c.bounds[b as int] == (start as int, end as int));
            assert(0 <= c.bounds[b as int].0 < c.bounds[b as int].1 <= c.data.len());
            assert(done =~= head + segment_stream(c.data, start as int, start as int, end as int));
        }
        let mut i: usize = start;
        while i < end
            invariant
                c == byte_vec@,
                interval > 0,
                start <= i <= end,
                end <= byte_vec.data.len(),
                counter.wf(),
                counter@ == tally(done, interval as int, seed),
                done == head + segment_stream(c.data, start as int, i as int, end as int),
                phase < interval,
                sweeps >= 0,
                done.len() == sweeps * interval + phase,
                keys_nonempty(seed) ==> keys_nonempty(counter@),
            decreases end - i,
        {
            let ghost mid = done;
            let ghost line = row(c.data, i as int, end as int);
            proof {
                assert(done =~= mid + line.take(0));
            }
            let mut j: usize = i;
            while j < end
                invariant
                    c == byte_vec@,
                    interval > 0,
                    i <= j <= end,
                    end <= byte_vec.data.len(),
                    line == row(c.data, i as int, end as int),
                    counter.wf(),
                    counter@ == tally(done, interval as int, seed),
                    done == mid + line.take(j - i),
                    phase < interval,
                    sweeps >= 0,
                    done.len() == sweeps * interval + phase,
                    keys_nonempty(seed) ==> keys_nonempty(counter@),
                decreases end - j,
            {
                let key = &byte_vec.data[i..j + 1];
                let ghost before = counter@;
                let ghost prior = done;
                counter.add_saturating(key, 1);
                phase = phase + 1;
                proof {
                    done = done.push(key@);
                    assert(key@ == line[j - i]);
                    assert(done =~= mid + line.take(j + 1 - i));
                    assert(done.drop_last() =~= prior);
                    assert(counter@ == tally_step(before, key@));
                    assert(done.len() == sweeps * interval + phase);
                }
                if phase == interval {
                    counter.retain_repeated();
                    phase = 0;
                    proof {
                        assert((sweeps + 1) * interval == sweeps * interval + interval)
                            by (nonlinear_arith);
                        sweeps = sweeps + 1;
                        lemma_fundamental_div_mod_converse(
                            done.len() as int,
                            interval as int,
                            sweeps,
                            0,
                        );
                    }
                } else {
                    proof {
                        lemma_fundamental_div_mod_converse(
                            done.len() as int,
                            interval as int,
                            sweeps,
                            phase as int,
                        );
                    }
                }
                j += 1;
            }
            proof {
                assert(line.take(end - i) =~= line);
                assert(done =~= head + (segment_stream(c.data, start as int, i as int, end as int)
                    + line));
            }
            i += 1;
        }
        b += 1;
    }
    counter.retain_repeated();
    counter
}

} // verus!
