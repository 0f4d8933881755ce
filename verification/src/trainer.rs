use crate::corpus::{ConcatenatedBytes, CorpusView};
use crate::counter::{
    candidate_counts, lemma_counts_of_short_corpus, train_unigram_bytes, DEFAULT_DROPOUT,
};
use crate::order::{lemma_lex_total, lex_le, lex_lt};
use crate::scorer::{numerical_grade_encodable, score_of, score_table};
use crate::search::{all_matches, lemma_match_offsets, occurrences, total_occurrences};
use crate::segmenter::{
    generate_cutoff_by_pattern, kept_spans, lemma_cut_shortens, rebuild_2d_byte_vec, rebuilt,
};
use crate::table::{has_no_key, ByteTable};
use crate::vocabulary::scores_natural;
use std::ops::Range;
use vstd::prelude::*;
use vstd::slice::slice_to_vec;

verus! {

/// `k` wins over `scores`: no candidate scores higher, and of those that score as
/// high none comes after `k` in lexicographic order.
pub open spec fn is_winner(scores: Map<Seq<u8>, int>, k: Seq<u8>) -> bool {
    &&& scores.contains_key(k)
    &&& forall|o: Seq<u8>|
        scores.contains_key(o) ==> scores[o] < scores[k] || (scores[o] == scores[k] && lex_le(
            o,
            k,
        ))
}

/// The candidate that wins over `scores`.
pub open spec fn winner(scores: Map<Seq<u8>, int>) -> Seq<u8> {
    choose|k: Seq<u8>| is_winner(scores, k)
}

/// At most one candidate wins.
pub proof fn lemma_winner_unique(scores: Map<Seq<u8>, int>, a: Seq<u8>, b: Seq<u8>)
    requires
        is_winner(scores, a),
        is_winner(scores, b),
    ensures
        a == b,
{
    lemma_lex_total(a, b);
    assert(scores[b] < scores[a] || (scores[b] == scores[a] && lex_le(b, a)));
    assert(scores[a] < scores[b] || (scores[a] == scores[b] && lex_le(a, b)));
}

/// The corpus that a training starts from: the bytes as one segment.
pub open spec fn initial_corpus(bytes: Seq<u8>) -> CorpusView {
    CorpusView {
        data: bytes,
        bounds: if bytes.len() > 0 {
            seq![(0int, bytes.len() as int)]
        } else {
            Seq::empty()
        },
    }
}

/// The vocabulary that the greedy rounds add to `acc`, starting from corpus `c`.
/// A round counts the substrings of the corpus, scores the candidates, takes the
/// winner and cuts its occurrences out of the corpus. The rounds end when the
/// corpus is empty, when nothing occurs twice, or when the winner's score is two
/// or less. A round that takes a token shortens the corpus, so the rounds go on
/// after each of them.
pub open spec fn greedy_rounds(c: CorpusView, acc: Map<Seq<u8>, int>) -> Map<Seq<u8>, int>
    decreases c.data.len(),
{
    let counts = candidate_counts(c, DEFAULT_DROPOUT as int, Map::empty());
    if c.data.len() == 0 || has_no_key(counts) {
        acc
    } else {
        let best = winner(score_table(c, counts.dom()));
        let gain = score_of(c, best);
        if gain <= 2 {
            acc
        } else {
            let next = rebuilt(c.data, kept_spans(c, best));
            if next.data.len() < c.data.len() {
                greedy_rounds(next, acc.insert(best, gain))
            } else {
                acc.insert(best, gain)
            }
        }
    }
}

/// The vocabulary of one chunk of bytes, before the correction that ends a training.
pub open spec fn greedy_vocabulary(bytes: Seq<u8>) -> Map<Seq<u8>, int> {
    greedy_rounds(initial_corpus(bytes), Map::empty())
}

/// A round that takes a token shortens the corpus: the recursion of the rounds
/// goes on after every such round.
pub proof fn lemma_round_shortens(c: CorpusView, best: Seq<u8>)
    requires
        c.wf(),
        score_of(c, best) > 2,
    ensures
        rebuilt(c.data, kept_spans(c, best)).data.len() < c.data.len(),
{
    let count = total_occurrences(c, best) as int;
    let width = best.len() as int;
    assert(count > 0 && width > 1) by (nonlinear_arith)
        requires
            count * (width - 1) > 2,
            count >= 0,
            width >= 0,
    ;
    lemma_cut_shortens(c, best);
}

/// A chunk of one byte or none has no vocabulary: nothing occurs twice in it.
pub proof fn lemma_tiny_chunk_has_no_vocabulary(bytes: Seq<u8>)
    requires
        bytes.len() <= 1,
    ensures
        greedy_vocabulary(bytes) == Map::<Seq<u8>, int>::empty(),
{
    let c = initial_corpus(bytes);
    if bytes.len() == 1 {
        let counts = candidate_counts(c, DEFAULT_DROPOUT as int, Map::empty());
        assert(c.bounds[0] == (0int, 1int));
        assert forall|k: Seq<u8>| !counts.contains_key(k) by {
            lemma_counts_of_short_corpus(c, k);
            lemma_match_offsets(c.segment(0), k, 1);
            assert(occurrences(c, k, 0) == 0);
            assert(occurrences(c, k, 1) == occurrences(c, k, 0) + all_matches(
                c.segment(0),
                k,
            ).len());
        }
    }
}

/// Every token has two bytes at least, and a score above two that fits in 64 bits.
pub open spec fn tokens_gainful(m: Map<Seq<u8>, int>) -> bool {
    forall|k: Seq<u8>| m.contains_key(k) ==> 2 < #[trigger] m[k] <= i64::MAX && k.len() >= 2
}

/// The rounds take tokens of two bytes at least, with scores above two.
pub proof fn lemma_greedy_rounds_gainful(c: CorpusView, acc: Map<Seq<u8>, int>)
    requires
        tokens_gainful(acc),
    ensures
        tokens_gainful(greedy_rounds(c, acc)),
    decreases c.data.len(),
{
    let counts = candidate_counts(c, DEFAULT_DROPOUT as int, Map::empty());
    if !(c.data.len() == 0 || has_no_key(counts)) {
        let best = winner(score_table(c, counts.dom()));
        let gain = score_of(c, best);
        if gain > 2 {
            let next = rebuilt(c.data, kept_spans(c, best));
            let count = total_occurrences(c, best) as int;
            let width = best.len() as int;
            assert(width > 1) by (nonlinear_arith)
                requires
                    count * (width - 1) > 2,
                    count >= 0,
                    width >= 0,
            ;
            let grown = acc.insert(best, gain);
            assert forall|k: Seq<u8>| grown.contains_key(k) implies 2 < #[trigger] grown[k]
                <= i64::MAX && k.len() >= 2 by {
                if k != best {
                    assert(acc.contains_key(k));
                    assert(2 < acc[k] <= i64::MAX);
                }
            }
            if next.data.len() < c.data.len() {
                lemma_greedy_rounds_gainful(next, grown);
            }
        }
    }
}

/// The rounds add no negative score.
pub proof fn lemma_greedy_rounds_natural(c: CorpusView, acc: Map<Seq<u8>, int>)
    requires
        scores_natural(acc),
    ensures
        scores_natural(greedy_rounds(c, acc)),
    decreases c.data.len(),
{
    let counts = candidate_counts(c, DEFAULT_DROPOUT as int, Map::empty());
    if !(c.data.len() == 0 || has_no_key(counts)) {
        let best = winner(score_table(c, counts.dom()));
        let gain = score_of(c, best);
        if gain > 2 {
            let next = rebuilt(c.data, kept_spans(c, best));
            if next.data.len() < c.data.len() {
                lemma_greedy_rounds_natural(next, acc.insert(best, gain));
            }
        }
    }
}

/// Picks the winner of a score table: the place of the highest score, and of
/// those that share it the last in key order.
pub fn select_best(scores: &ByteTable) -> (at: usize)
    requires
        scores.wf(),
        scores.spec_keys().len() > 0,
    ensures
        at < scores.spec_keys().len(),
        is_winner(scores@, scores.spec_keys()[at as int]),
        winner(scores@) == scores.spec_keys()[at as int],
{
    let ghost keys = scores.spec_keys();
    let ghost vals = scores.spec_values();
    let mut at: usize = 0;
    let mut best: i64 = scores.value_at(0);
    let mut i: usize = 1;
    while i < scores.len()
        invariant
            scores.wf(),
            keys == scores.spec_keys(),
            vals == scores.spec_values(),
            1 <= i <= keys.len(),
            at < i,
            best == vals[at as int],
            forall|t: int| 0 <= t < i ==> #[trigger] vals[t] < best || (vals[t] == best && t <= at),
        decreases keys.len() - i,
    {
        let v = scores.value_at(i);
        if v >= best {
            best = v;
            at = i;
        }
        i += 1;
    }
    proof {
        scores.lemma_entries();
        let k = keys[at as int];
        assert forall|o: Seq<u8>| scores@.contains_key(o) implies scores@[o] < scores@[k] || (
        scores@[o] == scores@[k] && lex_le(o, k)) by {
            assert(keys.contains(o));
            let t = keys.index_of(o);
            assert(keys[t] == o);
            assert(vals[t] < best || (vals[t] == best && t <= at));
            if t < at {
                assert(lex_lt(keys[t], keys[at as int]));
            }
        }
        assert(is_winner(scores@, k));
        lemma_winner_unique(scores@, k, winner(scores@));
    }
    at
}

/// Trains the vocabulary of one chunk of bytes: round after round, the candidate
/// with the highest gain becomes a token and is cut out of the corpus.
pub fn greedy_bpe_encode(byte: &[u8]) -> (tokenizer_model: ByteTable)
    ensures
        tokenizer_model.wf(),
        tokenizer_model@ == greedy_vocabulary(byte@),
        tokens_gainful(tokenizer_model@),
        scores_natural(tokenizer_model@),
{
    let mut bounds: Vec<Range<usize>> = Vec::new();
    if byte.len() > 0 {
        bounds.push(0..byte.len());
    }
    let mut byte_vec = ConcatenatedBytes::new(slice_to_vec(byte), bounds);
    let mut tokenizer_model = ByteTable::new();
    proof {
        assert(byte_vec@.bounds =~= initial_corpus(byte@).bounds);
        lemma_greedy_rounds_natural(initial_corpus(byte@), Map::empty());
        lemma_greedy_rounds_gainful(initial_corpus(byte@), Map::empty());
    }
    while byte_vec.data.len() > 0
        invariant
            byte_vec.wf(),
            tokenizer_model.wf(),
            greedy_rounds(byte_vec@, tokenizer_model@) == greedy_vocabulary(byte@),
            scores_natural(greedy_vocabulary(byte@)),
            tokens_gainful(greedy_vocabulary(byte@)),
        decreases byte_vec.data.len(),
    {
        let ghost c = byte_vec@;
        let counter = train_unigram_bytes(&byte_vec, None, None);
        if counter.is_empty() {
            return tokenizer_model;
        }
        let scores = numerical_grade_encodable(&byte_vec, &counter);
        proof {
            counter.lemma_entries();
            scores.lemma_entries();
            let first = counter.spec_keys()[0];
            assert(counter@.contains_key(first));
            assert(scores@.contains_key(first));
            assert(scores.spec_keys().contains(first));
        }
        let at = select_best(&scores);
        let best_score = scores.value_at(at);
        if best_score <= 2 {
            return tokenizer_model;
        }
        let best = scores.key_at(at);
        proof {
            assert(scores@.contains_key(best@));
            assert(counter@.contains_key(best@));
            assert(best_score == score_of(c, best@));
            assert(total_occurrences(c, best@) > 0) by (nonlinear_arith)
                requires
                    total_occurrences(c, best@) * (best@.len() - 1) > 2,
                    best@.len() > 0,
            ;
        }
        tokenizer_model.insert(best.as_slice(), best_score);
        let cutoff = generate_cutoff_by_pattern(&byte_vec, best.as_slice());
        match rebuild_2d_byte_vec(cutoff.as_slice(), &byte_vec) {
            Ok(next) => {
                byte_vec = next;
            },
            Err(_) => {
                // Not reached: no kept span is empty.
                return tokenizer_model;
            },
        }
    }
    tokenizer_model
}

} // verus!
