use crate::corpus::{ConcatenatedBytes, CorpusView};
use crate::search::{all_matches, all_subbyte, lemma_match_offsets, occurrences, total_occurrences};
use crate::table::{clamp, keys_nonempty, ByteTable};
use vstd::prelude::*;

verus! {

/// The gain of a candidate: each of its occurrences, replaced by a token of one
/// byte, saves its length less one. The product is limited to the 64-bit range.
pub open spec fn score_of(c: CorpusView, k: Seq<u8>) -> int {
    clamp(total_occurrences(c, k) * (k.len() - 1))
}

/// The scores of a set of candidates over a corpus.
pub open spec fn score_table(c: CorpusView, candidates: Set<Seq<u8>>) -> Map<Seq<u8>, int> {
    Map::new(|k: Seq<u8>| candidates.contains(k), |k: Seq<u8>| score_of(c, k))
}

/// The gain of a candidate of length `len` that occurs `count` times.
fn gain(count: usize, len: usize) -> (s: i64)
    requires
        len > 0,
    ensures
        s == clamp(count * (len - 1)),
{
    let a: u128 = count as u128;
    let b: u128 = (len - 1) as u128;
    assert(a * b <= 0xffff_ffff_ffff_ffff * 0xffff_ffff_ffff_ffff) by (nonlinear_arith)
        requires
            a <= 0xffff_ffff_ffff_ffff,
            b <= 0xffff_ffff_ffff_ffff,
    ;
    let p: u128 = a * b;
    if p > i64::MAX as u128 {
        i64::MAX
    } else {
        p as i64
    }
}

/// Counts the occurrences of `pattern` in the corpus, each segment searched by
/// itself, overlapping occurrences included.
pub fn count_occurrences(byte_vec: &ConcatenatedBytes, pattern: &[u8]) -> (count: usize)
    requires
        byte_vec.wf(),
        pattern.len() > 0,
    ensures
        count == total_occurrences(byte_vec@, pattern@),
{
    let ghost c = byte_vec@;
    let mut count: usize = 0;
    let mut b: usize = 0;
    while b < byte_vec.bounds.len()
        invariant
            byte_vec.wf(),
            c == byte_vec@,
            pattern.len() > 0,
            b <= byte_vec.bounds.len(),
            count == occurrences(c, pattern@, b as int),
            b == 0 ==> count == 0,
            b > 0 ==> count <= byte_vec.bounds@[b - 1].end,
        decreases byte_vec.bounds.len() - b,
    {
        let start: usize = byte_vec.bounds[b].start;
        let end: usize = byte_vec.bounds[b].end;
        proof {
            assert(c.bounds[b as int] == (start as int, end as int));
            assert(0 <= c.bounds[b as int].0 < c.bounds[b as int].1 <= c.data.len());
            if b > 0 {
                assert(c.bounds[b - 1].1 <= c.bounds[b as int].0);
            }
            lemma_match_offsets(c.segment(b as int), pattern@, end - start);
        }
        let found = all_subbyte(&byte_vec.data[start..end], pattern, None);
        proof {
            assert(found@.len() == all_matches(c.segment(b as int), pattern@).len());
        }
        count = count + found.len();
        b += 1;
    }
    count
}

/// Scores every candidate of `counter` over the corpus: the number of its
/// occurrences times its length less one. The counts in `counter` are not read.
pub fn numerical_grade_encodable(byte_vec: &ConcatenatedBytes, counter: &ByteTable) -> (scores:
    ByteTable)
    requires
        byte_vec.wf(),
        counter.wf(),
        keys_nonempty(counter@),
    ensures
        scores.wf(),
        scores@ == score_table(byte_vec@, counter@.dom()),
{
    let ghost c = byte_vec@;
    let ghost keys = counter.spec_keys();
    let mut scores = ByteTable::new();
    let mut i: usize = 0;
    proof {
        counter.lemma_entries();
    }
    while i < counter.len()
        invariant
            byte_vec.wf(),
            counter.wf(),
            keys_nonempty(counter@),
            c == byte_vec@,
            keys == counter.spec_keys(),
            i <= keys.len(),
            scores.wf(),
            forall|t: int| 0 <= t < keys.len() ==> counter@.contains_key(#[trigger] keys[t]),
            forall|k: Seq<u8>|
                scores@.contains_key(k) <==> exists|t: int| 0 <= t < i && #[trigger] keys[t] == k,
            forall|k: Seq<u8>| scores@.contains_key(k) ==> scores@[k] == score_of(c, k),
        decreases keys.len() - i,
    {
        let key = counter.key_at(i);
        proof {
            assert(counter@.contains_key(keys[i as int]));
        }
        let count = count_occurrences(byte_vec, key.as_slice());
        let score = gain(count, key.len());
        let ghost before = scores@;
        scores.insert(key.as_slice(), score);
        proof {
            assert forall|k: Seq<u8>| scores@.contains_key(k) <==> exists|t: int|
                0 <= t < i + 1 && #[trigger] keys[t] == k by {
                if scores@.contains_key(k) {
                    if k == key@ {
                        assert(keys[i as int] == k);
                    } else {
                        assert(before.contains_key(k));
                        let t = choose|t: int| 0 <= t < i && #[trigger] keys[t] == k;
                        assert(0 <= t < i + 1 && keys[t] == k);
                    }
                }
                if exists|t: int| 0 <= t < i + 1 && #[trigger] keys[t] == k {
                    let t = choose|t: int| 0 <= t < i + 1 && #[trigger] keys[t] == k;
                    if t < i {
                        assert(before.contains_key(k));
                    }
                }
            }
        }
        i += 1;
    }
    proof {
        let goal = score_table(c, counter@.dom());
        assert forall|k: Seq<u8>| scores@.contains_key(k) <==> goal.contains_key(k) by {
            if goal.contains_key(k) {
                assert(keys.contains(k));
                let t = keys.index_of(k);
                assert(0 <= t < i && keys[t] == k);
            }
        }
        assert(scores@ =~= goal);
    }
    scores
}

} // verus!
