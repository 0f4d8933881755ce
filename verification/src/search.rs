use crate::corpus::CorpusView;
use vstd::prelude::*;

verus! {

/// `pattern` occurs in `text` at offset `i`.
pub open spec fn match_at(text: Seq<u8>, pattern: Seq<u8>, i: int) -> bool {
    0 <= i && i + pattern.len() <= text.len() && text.subrange(i, i + pattern.len()) == pattern
}

/// The offsets below `n` at which `pattern` occurs in `text`, ascending. Occurrences
/// that overlap each other all count.
pub open spec fn match_offsets(text: Seq<u8>, pattern: Seq<u8>, n: int) -> Seq<int>
    decreases n,
{
    if n <= 0 {
        Seq::empty()
    } else if match_at(text, pattern, n - 1) {
        match_offsets(text, pattern, n - 1).push(n - 1)
    } else {
        match_offsets(text, pattern, n - 1)
    }
}

/// Every offset at which `pattern` occurs in `text`, ascending.
pub open spec fn all_matches(text: Seq<u8>, pattern: Seq<u8>) -> Seq<int> {
    match_offsets(text, pattern, text.len() as int)
}

/// How often `pattern` occurs in the first `b` segments of a corpus, each segment
/// searched by itself.
pub open spec fn occurrences(c: CorpusView, pattern: Seq<u8>, b: int) -> nat
    decreases b,
{
    if b <= 0 {
        0
    } else {
        occurrences(c, pattern, b - 1) + all_matches(c.segment(b - 1), pattern).len()
    }
}

/// How often `pattern` occurs in a corpus.
pub open spec fn total_occurrences(c: CorpusView, pattern: Seq<u8>) -> nat {
    occurrences(c, pattern, c.bounds.len() as int)
}

/// Machine indices as mathematical integers.
pub open spec fn offsets_of(found: Seq<usize>) -> Seq<int> {
    Seq::new(found.len(), |i: int| found[i] as int)
}

/// The list of offsets holds exactly the occurrences below `n`, each once, in
/// ascending order.
pub proof fn lemma_match_offsets(text: Seq<u8>, pattern: Seq<u8>, n: int)
    ensures
        match_offsets(text, pattern, n).len() <= if n > 0 { n } else { 0 },
        forall|k: int|
            0 <= k < match_offsets(text, pattern, n).len() ==> 0 <= (#[trigger] match_offsets(
                text,
                pattern,
                n,
            )[k]) < n && match_at(text, pattern, match_offsets(text, pattern, n)[k]),
        forall|a: int, b: int|
            0 <= a < b < match_offsets(text, pattern, n).len() ==> (#[trigger] match_offsets(
                text,
                pattern,
                n,
            )[a]) < (#[trigger] match_offsets(text, pattern, n)[b]),
        forall|i: int|
            0 <= i < n && match_at(text, pattern, i) ==> match_offsets(text, pattern, n).contains(i),
    decreases n,
{
    if n > 0 {
        lemma_match_offsets(text, pattern, n - 1);
        let before = match_offsets(text, pattern, n - 1);
        let now = match_offsets(text, pattern, n);
        assert forall|i: int| 0 <= i < n && match_at(text, pattern, i) implies now.contains(i) by {
            if i < n - 1 {
                let k = before.index_of(i);
                assert(before[k] == i);
                assert(now[k] == i);
            } else {
                assert(now[now.len() - 1] == i);
            }
        }
    }
}

/// No occurrence starts so late that the pattern would run past the end.
pub proof fn lemma_match_offsets_tail(text: Seq<u8>, pattern: Seq<u8>, m: int, n: int)
    requires
        pattern.len() > 0,
        0 <= m <= n,
        m + pattern.len() > text.len(),
    ensures
        match_offsets(text, pattern, n) == match_offsets(text, pattern, m),
    decreases n - m,
{
    if m < n {
        lemma_match_offsets_tail(text, pattern, m, n - 1);
    }
}

/// Whether `pattern` occurs in `text` at offset `i`.
fn window_matches(text: &[u8], pattern: &[u8], i: usize) -> (hit: bool)
    requires
        i + pattern.len() <= text.len(),
    ensures
        hit == match_at(text@, pattern@, i as int),
{
    let mut t: usize = 0;
    while t < pattern.len()
        invariant
            t <= pattern.len(),
            i + pattern.len() <= text.len(),
            forall|u: int| 0 <= u < t ==> text@[i + u] == pattern@[u],
        decreases pattern.len() - t,
    {
        if text[i + t] != pattern[t] {
            proof {
                let window = text@.subrange(i as int, i + pattern@.len());
                assert(window[t as int] != pattern@[t as int]);
            }
            return false;
        }
        t += 1;
    }
    proof {
        assert(text@.subrange(i as int, i + pattern@.len()) =~= pattern@);
    }
    true
}

/// Finds every offset at which `pattern` occurs in `byte_arr`, ascending, whether
/// or not the occurrences overlap. `pre_allocate_len` is a hint at how many there
/// will be.
pub fn all_subbyte(byte_arr: &[u8], pattern: &[u8], pre_allocate_len: Option<usize>) -> (found: Vec<
    usize,
>)
    requires
        pattern.len() > 0,
    ensures
        offsets_of(found@) == all_matches(byte_arr@, pattern@),
        forall|k: int|
            0 <= k < found@.len() ==> match_at(byte_arr@, pattern@, (#[trigger] found@[k]) as int),
        forall|a: int, b: int| 0 <= a < b < found@.len() ==> found@[a] < found@[b],
        forall|i: int| match_at(byte_arr@, pattern@, i) ==> offsets_of(found@).contains(i),
{
    let hint: usize = match pre_allocate_len {
        Some(n) => if n < byte_arr.len() {
            n
        } else {
            byte_arr.len()
        },
        None => 0,
    };
    let mut found: Vec<usize> = Vec::with_capacity(hint);
    let mut i: usize = 0;
    while i < byte_arr.len() && pattern.len() <= byte_arr.len() - i
        invariant
            i <= byte_arr.len(),
            pattern.len() > 0,
            offsets_of(found@) == match_offsets(byte_arr@, pattern@, i as int),
        decreases byte_arr.len() - i,
    {
        let hit = window_matches(byte_arr, pattern, i);
        if hit {
            found.push(i);
            proof {
                assert(offsets_of(found@) =~= match_offsets(byte_arr@, pattern@, i as int).push(
                    i as int,
                ));
            }
        }
        i += 1;
    }
    proof {
        lemma_match_offsets_tail(byte_arr@, pattern@, i as int, byte_arr@.len() as int);
        lemma_match_offsets(byte_arr@, pattern@, byte_arr@.len() as int);
        let all = all_matches(byte_arr@, pattern@);
        assert forall|k: int| 0 <= k < found@.len() implies match_at(
            byte_arr@,
            pattern@,
            (#[trigger] found@[k]) as int,
        ) by {
            assert(all[k] == found@[k]);
        }
        assert forall|a: int, b: int| 0 <= a < b < found@.len() implies found@[a] < found@[b] by {
            assert(all[a] == found@[a]);
            assert(all[b] == found@[b]);
        }
    }
    found
}

} // verus!
