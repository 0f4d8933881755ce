use crate::table::{clamp, value_or_zero, values_fit, ByteTable};
use vstd::prelude::*;

verus! {

/// Two vocabularies merged: every token of either, with the sum of its two scores,
/// a missing score counting as zero. The sum is limited to the 64-bit range.
pub open spec fn merged(a: Map<Seq<u8>, int>, b: Map<Seq<u8>, int>) -> Map<Seq<u8>, int> {
    Map::new(
        |k: Seq<u8>| a.contains_key(k) || b.contains_key(k),
        |k: Seq<u8>| clamp(value_or_zero(a, k) + value_or_zero(b, k)),
    )
}

/// A vocabulary after the correction that ends a training: each score less the
/// length of its token, limited to the 64-bit range.
pub open spec fn corrected(m: Map<Seq<u8>, int>) -> Map<Seq<u8>, int> {
    Map::new(|k: Seq<u8>| m.contains_key(k), |k: Seq<u8>| clamp(m[k] - k.len()))
}

/// No score is negative, and every score fits in 64 bits.
pub open spec fn scores_natural(m: Map<Seq<u8>, int>) -> bool {
    forall|k: Seq<u8>| m.contains_key(k) ==> 0 <= #[trigger] m[k] <= i64::MAX
}

/// Merging does not depend on which vocabulary comes first.
pub proof fn lemma_merged_commutative(a: Map<Seq<u8>, int>, b: Map<Seq<u8>, int>)
    ensures
        merged(a, b) == merged(b, a),
{
    assert(merged(a, b) =~= merged(b, a));
}

/// Merging three vocabularies of scores that are not negative does not depend on
/// which two are merged first.
pub proof fn lemma_merged_associative(
    a: Map<Seq<u8>, int>,
    b: Map<Seq<u8>, int>,
    c: Map<Seq<u8>, int>,
)
    requires
        scores_natural(a),
        scores_natural(b),
        scores_natural(c),
    ensures
        merged(merged(a, b), c) == merged(a, merged(b, c)),
{
    assert(merged(merged(a, b), c) =~= merged(a, merged(b, c)));
}

/// Merging with the empty vocabulary changes nothing.
pub proof fn lemma_merged_empty(a: Map<Seq<u8>, int>)
    requires
        values_fit(a),
    ensures
        merged(a, Map::empty()) == a,
        merged(Map::empty(), a) == a,
{
    assert(merged(a, Map::empty()) =~= a);
    assert(merged(Map::empty(), a) =~= a);
}

/// Merged scores that are not negative are not negative.
pub proof fn lemma_merged_natural(a: Map<Seq<u8>, int>, b: Map<Seq<u8>, int>)
    requires
        scores_natural(a),
        scores_natural(b),
    ensures
        scores_natural(merged(a, b)),
{
}

/// Merges a vocabulary into another: `summed` then holds every token of either,
/// with the sum of its scores.
pub fn merge_into(summed: &mut ByteTable, stats: &ByteTable)
    requires
        old(summed).wf(),
        stats.wf(),
    ensures
        final(summed).wf(),
        final(summed)@ == merged(old(summed)@, stats@),
{
    let ghost keys = stats.spec_keys();
    let ghost first = summed@;
    let mut i: usize = 0;
    proof {
        stats.lemma_entries();
        summed.lemma_values_fit();
    }
    while i < stats.len()
        invariant
            stats.wf(),
            summed.wf(),
            keys == stats.spec_keys(),
            i <= keys.len(),
            values_fit(first),
            forall|t: int|
                0 <= t < keys.len() ==> stats@.contains_key(#[trigger] keys[t]) && stats@[keys[t]]
                    == stats.spec_values()[t],
            forall|k: Seq<u8>|
                #![trigger summed@.contains_key(k)]
                summed@.contains_key(k) <==> first.contains_key(k) || exists|t: int|
                    0 <= t < i && #[trigger] keys[t] == k,
            forall|k: Seq<u8>|
                #![trigger summed@.contains_key(k)]
                summed@.contains_key(k) ==> summed@[k] == if exists|t: int|
                    0 <= t < i && #[trigger] keys[t] == k {
                    clamp(value_or_zero(first, k) + stats@[k])
                } else {
                    first[k]
                },
        decreases keys.len() - i,
    {
        let key = stats.key_at(i);
        let value = stats.value_at(i);
        let ghost before = summed@;
        proof {
            if exists|t: int| 0 <= t < i && #[trigger] keys[t] == key@ {
                let t = choose|t: int| 0 <= t < i && #[trigger] keys[t] == key@;
                crate::table::lemma_sorted_distinct(keys, t, i as int);
            }
        }
        summed.add_saturating(key.as_slice(), value);
        proof {
            assert forall|k: Seq<u8>| summed@.contains_key(k) <==> first.contains_key(k)
                || exists|t: int| 0 <= t < i + 1 && #[trigger] keys[t] == k by {
                if summed@.contains_key(k) {
                    if k == key@ {
                        assert(keys[i as int] == k);
                    } else if !first.contains_key(k) {
                        let t = choose|t: int| 0 <= t < i && #[trigger] keys[t] == k;
                        assert(0 <= t < i + 1 && keys[t] == k);
                    }
                }
                if exists|t: int| 0 <= t < i + 1 && #[trigger] keys[t] == k {
                    let t = choose|t: int| 0 <= t < i + 1 && #[trigger] keys[t] == k;
                    if t < i {
                        assert(before.contains_key(k));
                    }
                }
            }
            assert forall|k: Seq<u8>| summed@.contains_key(k) implies summed@[k] == if exists|
                t: int,
            |
                0 <= t < i + 1 && #[trigger] keys[t] == k {
                clamp(value_or_zero(first, k) + stats@[k])
            } else {
                first[k]
            } by {
                if k == key@ {
                    assert(keys[i as int] == k);
                } else {
                    if exists|t: int| 0 <= t < i + 1 && #[trigger] keys[t] == k {
                        let t = choose|t: int| 0 <= t < i + 1 && #[trigger] keys[t] == k;
                        assert(0 <= t < i && keys[t] == k);
                    } else {
                        if exists|t: int| 0 <= t < i && #[trigger] keys[t] == k {
                            let t = choose|t: int| 0 <= t < i && #[trigger] keys[t] == k;
                            assert(0 <= t < i + 1 && keys[t] == k);
                        }
                    }
                }
            }
        }
        i += 1;
    }
    proof {
        let goal = merged(first, stats@);
        assert forall|k: Seq<u8>| summed@.contains_key(k) <==> goal.contains_key(k) by {
            if stats@.contains_key(k) {
                assert(keys.contains(k));
                let t = keys.index_of(k);
                assert(0 <= t < i && keys[t] == k);
            }
        }
        assert forall|k: Seq<u8>| summed@.contains_key(k) implies summed@[k] == goal[k] by {
            if stats@.contains_key(k) {
                assert(keys.contains(k));
                let t = keys.index_of(k);
                assert(0 <= t < i && keys[t] == k);
            } else {
                if exists|t: int| 0 <= t < i && #[trigger] keys[t] == k {
                    let t = choose|t: int| 0 <= t < i && #[trigger] keys[t] == k;
                    assert(stats@.contains_key(keys[t]));
                }
            }
        }
        assert(summed@ =~= goal);
    }
}

/// Merges two vocabularies: the result holds every token of either, with the sum
/// of its scores.
pub fn sum_byte_pair_encoding(tokenizer: &ByteTable, stats: &ByteTable) -> (summed: ByteTable)
    requires
        tokenizer.wf(),
        stats.wf(),
    ensures
        summed.wf(),
        summed@ == merged(tokenizer@, stats@),
{
    let mut summed = tokenizer.duplicate();
    merge_into(&mut summed, stats);
    summed
}

/// The correction that ends a training: takes from every score the length of its
/// token.
pub fn apply_length_bias(model: &ByteTable) -> (out: ByteTable)
    requires
        model.wf(),
    ensures
        out.wf(),
        out@ == corrected(model@),
{
    let ghost keys = model.spec_keys();
    let mut out = ByteTable::new();
    let mut i: usize = 0;
    proof {
        model.lemma_entries();
    }
    while i < model.len()
        invariant
            model.wf(),
            out.wf(),
            keys == model.spec_keys(),
            i <= keys.len(),
            forall|t: int|
                0 <= t < keys.len() ==> model@.contains_key(#[trigger] keys[t]) && model@[keys[t]]
                    == model.spec_values()[t],
            forall|k: Seq<u8>|
                out@.contains_key(k) <==> exists|t: int| 0 <= t < i && #[trigger] keys[t] == k,
            forall|k: Seq<u8>| out@.contains_key(k) ==> out@[k] == clamp(model@[k] - k.len()),
        decreases keys.len() - i,
    {
        let key = model.key_at(i);
        let value = model.value_at(i);
        let wide: i128 = value as i128 - key.len() as i128;
        let score: i64 = if wide < i64::MIN as i128 {
            i64::MIN
        } else {
            wide as i64
        };
        let ghost before = out@;
        out.insert(key.as_slice(), score);
        proof {
            assert forall|k: Seq<u8>| out@.contains_key(k) <==> exists|t: int|
                0 <= t < i + 1 && #[trigger] keys[t] == k by {
                if out@.contains_key(k) {
                    if k == key@ {
                        assert(keys[i as int] == k);
                    } else {
                        assert(before.contains_key(k));
                        let t = choose|t: int| 0 <= t < i && #[trigger] keys[t] == k;
                        assert(0 <= t < i + 1 && keys[t] == k);
                    }
                }
                if exists|t: int| 0 <= t < i + 1 && #[trigger] keys[t] == k {
                    let t = choose|t: int| 0 <= t < i + 1 && #[trigger] keys[t] == k;
                    if t < i {
                        assert(before.contains_key(k));
                    }
                }
            }
        }
        i += 1;
    }
    proof {
        let goal = corrected(model@);
        assert forall|k: Seq<u8>| out@.contains_key(k) <==> goal.contains_key(k) by {
            if goal.contains_key(k) {
                assert(keys.contains(k));
                let t = keys.index_of(k);
                assert(0 <= t < i && keys[t] == k);
            }
        }
        assert(out@ =~= goal);
    }
    out
}

} // verus!
