use crate::order::lex_lt;
use crate::table::{keys_nonempty, lemma_sorted_distinct, lemma_table_map_is, strictly_sorted, ByteTable};
use crate::vocab_file::{lemma_line_round_trip, parse_line, parsed_line, vocabulary_line};
use vstd::prelude::*;
use vstd::slice::slice_to_vec;

verus! {

/// The order in which a tokenizer tries its tokens: `a` is tried before `b` where
/// it is longer, or as long and later in lexicographic order.
pub open spec fn longer_first(a: Seq<u8>, b: Seq<u8>) -> bool {
    a.len() > b.len() || (a.len() == b.len() && lex_lt(b, a))
}

/// The vocabulary that the first `n` lines of a vocabulary file give: each line
/// that stands for an entry puts its score under its token, a later line
/// overriding an earlier one with the same token. Other lines are passed over.
pub open spec fn loaded(lines: Seq<Seq<u8>>, n: int) -> Map<Seq<u8>, int>
    decreases n,
{
    if n <= 0 {
        Map::empty()
    } else {
        match parsed_line(lines[n - 1]) {
            Some(entry) => loaded(lines, n - 1).insert(entry.0, entry.1),
            None => loaded(lines, n - 1),
        }
    }
}

/// The lines that are written for the entries of a table, without their ends.
pub open spec fn lines_of(keys: Seq<Seq<u8>>, values: Seq<i64>) -> Seq<Seq<u8>> {
    Seq::new(keys.len(), |i: int| vocabulary_line(keys[i], values[i] as int))
}

/// The first `n` lines that are written for a table give its first `n` entries.
proof fn lemma_loaded_lines(keys: Seq<Seq<u8>>, values: Seq<i64>, n: int)
    requires
        strictly_sorted(keys),
        keys.len() == values.len(),
        forall|i: int| 0 <= i < keys.len() ==> (#[trigger] keys[i]).len() > 0,
        0 <= n <= keys.len(),
    ensures
        forall|k: Seq<u8>|
            loaded(lines_of(keys, values), n).contains_key(k) <==> keys.take(n).contains(k),
        forall|i: int|
            0 <= i < n ==> loaded(lines_of(keys, values), n)[#[trigger] keys[i]] == values[i],
    decreases n,
{
    let lines = lines_of(keys, values);
    if n > 0 {
        let before = loaded(lines, n - 1);
        let now = loaded(lines, n);
        lemma_loaded_lines(keys, values, n - 1);
        assert(keys[n - 1].len() > 0);
        lemma_line_round_trip(keys[n - 1], values[n - 1] as int);
        assert(lines[n - 1] == vocabulary_line(keys[n - 1], values[n - 1] as int));
        assert(now == before.insert(keys[n - 1], values[n - 1] as int));
        assert forall|k: Seq<u8>| now.contains_key(k) <==> keys.take(n).contains(k) by {
            if keys.take(n).contains(k) {
                let t = keys.take(n).index_of(k);
                assert(keys.take(n)[t] == k);
                if t < n - 1 {
                    assert(keys.take(n - 1)[t] == k);
                    assert(keys.take(n - 1).contains(k));
                }
            }
            if now.contains_key(k) {
                if k == keys[n - 1] {
                    assert(keys.take(n)[n - 1] == k);
                } else {
                    assert(keys.take(n - 1).contains(k));
                    let t = keys.take(n - 1).index_of(k);
                    assert(keys.take(n - 1)[t] == k);
                    assert(keys.take(n)[t] == k);
                }
            }
        }
        assert forall|i: int| 0 <= i < n implies now[#[trigger] keys[i]] == values[i] by {
            if i < n - 1 {
                if keys[i] == keys[n - 1] {
                    lemma_sorted_distinct(keys, i, n - 1);
                }
            }
        }
    } else {
        assert forall|k: Seq<u8>| !keys.take(0).contains(k) by {
            if keys.take(0).contains(k) {
                let t = keys.take(0).index_of(k);
                assert(keys.take(0)[t] == k);
            }
        }
    }
}

/// What is written for a vocabulary without an empty token is read again as that
/// vocabulary.
pub proof fn lemma_vocabulary_round_trip(model: ByteTable)
    requires
        model.wf(),
        keys_nonempty(model@),
    ensures
        loaded(
            lines_of(model.spec_keys(), model.spec_values()),
            model.spec_keys().len() as int,
        ) == model@,
{
    let keys = model.spec_keys();
    let values = model.spec_values();
    let n = keys.len() as int;
    model.lemma_entries();
    assert forall|i: int| 0 <= i < keys.len() implies (#[trigger] keys[i]).len() > 0 by {
        assert(model@.contains_key(keys[i]));
    }
    lemma_loaded_lines(keys, values, n);
    assert(keys.take(n) =~= keys);
    lemma_table_map_is(keys, values, loaded(lines_of(keys, values), n));
}

/// The lines as mathematical sequences.
pub open spec fn line_views(lines: Seq<Vec<u8>>) -> Seq<Seq<u8>> {
    Seq::new(lines.len(), |i: int| lines[i]@)
}

/// A trained vocabulary, held for encoding and decoding.
#[derive(Debug)]
pub struct TokCodec {
    pub model: ByteTable,
}

impl TokCodec {
    /// A codec over the given vocabulary.
    pub fn new(model: ByteTable) -> (codec: TokCodec)
        ensures
            codec.model == model,
    {
        TokCodec { model }
    }

    /// A codec over the vocabulary that the lines of a vocabulary file give. With it
    /// come the places of the lines that stand for no entry and were passed over,
    /// in ascending order.
    pub fn from_lines(lines: &Vec<Vec<u8>>) -> (r: (TokCodec, Vec<usize>))
        ensures
            r.0.model.wf(),
            r.0.model@ == loaded(line_views(lines@), lines@.len() as int),
            forall|i: int|
                0 <= i < lines@.len() ==> (parsed_line(#[trigger] lines@[i]@) is None
                    <==> r.1@.contains(i as usize)),
            forall|a: int, b: int| 0 <= a < b < r.1@.len() ==> r.1@[a] < r.1@[b],
            forall|a: int| 0 <= a < r.1@.len() ==> (#[trigger] r.1@[a]) < lines@.len(),
    {
        let ghost all = line_views(lines@);
        let mut model = ByteTable::new();
        let mut skipped: Vec<usize> = Vec::new();
        let mut i: usize = 0;
        while i < lines.len()
            invariant
                all == line_views(lines@),
                i <= lines.len(),
                model.wf(),
                model@ == loaded(all, i as int),
                forall|t: int|
                    0 <= t < i ==> (parsed_line(#[trigger] lines@[t]@) is None
                        <==> skipped@.contains(t as usize)),
                forall|a: int, b: int| 0 <= a < b < skipped@.len() ==> skipped@[a] < skipped@[b],
                forall|a: int| 0 <= a < skipped@.len() ==> (#[trigger] skipped@[a]) < i,
            decreases lines.len() - i,
        {
            proof {
                assert(all[i as int] == lines@[i as int]@);
            }
            let ghost before = skipped@;
            match parse_line(lines[i].as_slice()) {
                Some(entry) => {
                    model.insert(entry.0.as_slice(), entry.1);
                },
                None => {
                    skipped.push(i);
                    proof {
                        assert(skipped@[skipped@.len() - 1] == i);
                    }
                },
            }
            proof {
                assert forall|t: int| 0 <= t < i + 1 implies (parsed_line(
                    #[trigger] lines@[t]@,
                ) is None <==> skipped@.contains(t as usize)) by {
                    if t < i {
                        if before.contains(t as usize) {
                            let a = before.index_of(t as usize);
                            assert(skipped@[a] == t);
                        }
                        if skipped@.contains(t as usize) {
                            let a = skipped@.index_of(t as usize);
                            assert(skipped@[a] == t);
                            assert(before[a] == t);
                        }
                    } else {
                        if skipped@.contains(t as usize) {
                            let a = skipped@.index_of(t as usize);
                            assert(skipped@[a] == t);
                        }
                    }
                }
            }
            i += 1;
        }
        (TokCodec { model }, skipped)
    }

    /// The tokens with their scores in the order in which a tokenizer tries them:
    /// the longest first, and of tokens of one length the lexicographically
    /// greatest first.
    pub fn from_longest_bytes_iter(&self) -> (out: Vec<(Vec<u8>, i64)>)
        requires
            self.model.wf(),
        ensures
            out@.len() == self.model.spec_keys().len(),
            forall|a: int, b: int|
                0 <= a < b < out@.len() ==> longer_first((#[trigger] out@[a]).0@, (#[trigger] out@[b]).0@),
            forall|j: int|
                0 <= j < out@.len() ==> self.model@.contains_key((#[trigger] out@[j]).0@)
                    && self.model@[out@[j].0@] == out@[j].1,
            forall|k: Seq<u8>|
                self.model@.contains_key(k) ==> exists|j: int|
                    0 <= j < out@.len() && (#[trigger] out@[j]).0@ == k,
    {
        let ghost keys = self.model.spec_keys();
        let ghost vals = self.model.spec_values();
        let mut out: Vec<(Vec<u8>, i64)> = Vec::new();
        let ghost mut from: Seq<int> = Seq::empty();
        let mut i: usize = 0;
        proof {
            self.model.lemma_entries();
        }
        while i < self.model.len()
            invariant
                self.model.wf(),
                keys == self.model.spec_keys(),
                vals == self.model.spec_values(),
                i <= keys.len(),
                out@.len() == i,
                from.len() == i,
                forall|a: int| 0 <= a < i ==> 0 <= #[trigger] from[a] < i,
                forall|a: int|
                    0 <= a < i ==> (#[trigger] out@[a]).0@ == keys[from[a]] && out@[a].1
                        == vals[from[a]],
                forall|a: int, b: int|
                    0 <= a < b < i ==> longer_first((#[trigger] out@[a]).0@, (#[trigger] out@[b]).0@),
                forall|t: int| 0 <= t < i ==> #[trigger] from.contains(t),
            decreases keys.len() - i,
        {
            let key = self.model.key_at(i);
            let value = self.model.value_at(i);
            let mut at: usize = 0;
            while at < out.len() && out[at].0.len() > key.len()
                invariant
                    at <= out@.len(),
                    forall|a: int| 0 <= a < at ==> (#[trigger] out@[a]).0@.len() > key@.len(),
                decreases out@.len() - at,
            {
                at += 1;
            }
            let ghost before = out@;
            let ghost origin = from;
            let entry = (slice_to_vec(key.as_slice()), value);
            out.insert(at, entry);
            proof {
                from = origin.insert(at as int, i as int);
                before.insert_ensures(at as int, entry);
                origin.insert_ensures(at as int, i as int);
                assert forall|a: int| 0 <= a < i + 1 implies (#[trigger] out@[a]).0@ == keys[from[a]]
                    && out@[a].1 == vals[from[a]] by {
                    if a < at {
                        assert(out@[a] == before[a]);
                    } else if a > at {
                        assert(out@[a] == before[a - 1]);
                        assert(from[a] == origin[a - 1]);
                    }
                }
                assert forall|a: int, b: int| 0 <= a < b < i + 1 implies longer_first(
                    (#[trigger] out@[a]).0@,
                    (#[trigger] out@[b]).0@,
                ) by {
                    let x = if a < at {
                        a
                    } else {
                        a - 1
                    };
                    let y = if b < at {
                        b
                    } else {
                        b - 1
                    };
                    if a != at {
                        assert(out@[a] == before[x]);
                    }
                    if b != at {
                        assert(out@[b] == before[y]);
                    }
                    if a == at {
                        assert(before[y].0@ == keys[origin[y]]);
                        assert(lex_lt(keys[origin[y]], keys[i as int]));
                        if at < before.len() {
                            if y > at {
                                assert(longer_first(before[at as int].0@, before[y].0@));
                            }
                        }
                    } else if b == at {
                    } else {
                        assert(longer_first(before[x].0@, before[y].0@));
                    }
                }
                assert forall|t: int| 0 <= t < i + 1 implies #[trigger] from.contains(t) by {
                    if t < i {
                        assert(origin.contains(t));
                        let a = origin.index_of(t);
                        assert(origin[a] == t);
                        if a < at {
                            assert(from[a] == t);
                        } else {
                            assert(from[a + 1] == t);
                        }
                    } else {
                        assert(from[at as int] == t);
                    }
                }
            }
            i += 1;
        }
        proof {
            assert forall|k: Seq<u8>| self.model@.contains_key(k) implies exists|j: int|
                0 <= j < out@.len() && (#[trigger] out@[j]).0@ == k by {
                assert(keys.contains(k));
                let t = keys.index_of(k);
                assert(keys[t] == k);
                assert(from.contains(t));
                let a = from.index_of(t);
                assert(from[a] == t);
                assert(out@[a].0@ == k);
            }
        }
        out
    }
}

} // verus!
