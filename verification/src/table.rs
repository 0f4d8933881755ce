use crate::order::{
    compare_bytes, lemma_lex_irreflexive, lemma_lex_total, lemma_lex_transitive, lex_lt, Side,
};
use vstd::prelude::*;
use vstd::slice::slice_to_vec;

verus! {

/// Each key comes strictly before every later one.
pub open spec fn strictly_sorted(keys: Seq<Seq<u8>>) -> bool {
    forall|i: int, j: int| 0 <= i < j < keys.len() ==> lex_lt(#[trigger] keys[i], #[trigger] keys[j])
}

/// The mapping that a list of keys and a list of values of the same length stand for.
pub open spec fn table_map(keys: Seq<Seq<u8>>, values: Seq<i64>) -> Map<Seq<u8>, int> {
    Map::new(|k: Seq<u8>| keys.contains(k), |k: Seq<u8>| values[keys.index_of(k)] as int)
}

/// A value limited to what a 64-bit signed integer holds.
pub open spec fn clamp(x: int) -> int {
    if x > i64::MAX {
        i64::MAX as int
    } else if x < i64::MIN {
        i64::MIN as int
    } else {
        x
    }
}

/// The value under `k`, zero where there is none.
pub open spec fn value_or_zero(m: Map<Seq<u8>, int>, k: Seq<u8>) -> int {
    if m.contains_key(k) {
        m[k]
    } else {
        0
    }
}

/// The mapping has no entry.
pub open spec fn has_no_key(m: Map<Seq<u8>, int>) -> bool {
    forall|k: Seq<u8>| !m.contains_key(k)
}

/// Every value fits in 64 bits, sign included.
pub open spec fn values_fit(m: Map<Seq<u8>, int>) -> bool {
    forall|k: Seq<u8>| m.contains_key(k) ==> i64::MIN <= #[trigger] m[k] <= i64::MAX
}

/// No key is the empty string.
pub open spec fn keys_nonempty(m: Map<Seq<u8>, int>) -> bool {
    forall|k: Seq<u8>| m.contains_key(k) ==> k.len() > 0
}

/// What a sweep leaves of a mapping: the entries whose value exceeds one.
pub open spec fn repeated_only(m: Map<Seq<u8>, int>) -> Map<Seq<u8>, int> {
    Map::new(|k: Seq<u8>| m.contains_key(k) && m[k] > 1, |k: Seq<u8>| m[k])
}

/// A sweep removes no entry whose value exceeds one, and leaves its value as it is.
pub proof fn lemma_sweep_keeps_repeated(m: Map<Seq<u8>, int>, k: Seq<u8>)
    requires
        m.contains_key(k),
        m[k] > 1,
    ensures
        repeated_only(m).contains_key(k),
        repeated_only(m)[k] == m[k],
{
}

/// In a sorted list a key stands at one place only.
pub proof fn lemma_sorted_distinct(keys: Seq<Seq<u8>>, i: int, j: int)
    requires
        strictly_sorted(keys),
        0 <= i < keys.len(),
        0 <= j < keys.len(),
        keys[i] == keys[j],
    ensures
        i == j,
{
    lemma_lex_irreflexive(keys[i]);
}

/// The mapping gives the key at place `i` the value at place `i`.
pub proof fn lemma_table_map_at(keys: Seq<Seq<u8>>, values: Seq<i64>, i: int)
    requires
        strictly_sorted(keys),
        keys.len() == values.len(),
        0 <= i < keys.len(),
    ensures
        table_map(keys, values).contains_key(keys[i]),
        table_map(keys, values)[keys[i]] == values[i],
{
    assert(keys.contains(keys[i]));
    lemma_sorted_distinct(keys, i, keys.index_of(keys[i]));
}

/// A mapping that agrees with the lists place by place, and has no other key, is
/// the mapping of the lists.
pub proof fn lemma_table_map_is(keys: Seq<Seq<u8>>, values: Seq<i64>, m: Map<Seq<u8>, int>)
    requires
        strictly_sorted(keys),
        keys.len() == values.len(),
        forall|i: int|
            0 <= i < keys.len() ==> m.contains_key(#[trigger] keys[i]) && m[keys[i]] == values[i],
        forall|k: Seq<u8>| m.contains_key(k) ==> keys.contains(k),
    ensures
        table_map(keys, values) == m,
{
    let t = table_map(keys, values);
    assert forall|k: Seq<u8>| t.contains_key(k) implies m.contains_key(k) && t[k] == m[k] by {
        let j = keys.index_of(k);
        assert(keys[j] == k);
        lemma_table_map_at(keys, values, j);
    }
    assert(t =~= m);
}

/// Two sorted lists of the same keys are the same list.
pub proof fn lemma_sorted_same_keys(a: Seq<Seq<u8>>, b: Seq<Seq<u8>>)
    requires
        strictly_sorted(a),
        strictly_sorted(b),
        forall|k: Seq<u8>| a.contains(k) <==> b.contains(k),
    ensures
        a == b,
    decreases a.len(),
{
    if a.len() == 0 {
        if b.len() > 0 {
            assert(b.contains(b[0]));
            assert(a.contains(b[0]));
        }
        assert(a =~= b);
    } else {
        let x = a.last();
        assert(a[a.len() - 1] == x);
        assert(a.contains(x));
        assert(b.contains(x));
        let j = b.index_of(x);
        assert(b[j] == x);
        let y = b.last();
        assert(b[b.len() - 1] == y);
        assert(b.contains(y));
        assert(a.contains(y));
        let i = a.index_of(y);
        assert(a[i] == y);
        lemma_lex_total(x, y);
        if j < b.len() - 1 {
            assert(lex_lt(b[j], b[b.len() - 1]));
        }
        if i < a.len() - 1 {
            assert(lex_lt(a[i], a[a.len() - 1]));
        }
        assert(x == y);
        let front = a.drop_last();
        let other = b.drop_last();
        assert forall|k: Seq<u8>| front.contains(k) <==> other.contains(k) by {
            if front.contains(k) {
                let t = front.index_of(k);
                assert(front[t] == k);
                assert(a[t] == k);
                assert(lex_lt(a[t], a[a.len() - 1]));
                lemma_lex_irreflexive(x);
                assert(a.contains(k));
                assert(b.contains(k));
                let u = b.index_of(k);
                assert(b[u] == k);
                assert(other[u] == k);
            }
            if other.contains(k) {
                let t = other.index_of(k);
                assert(other[t] == k);
                assert(b[t] == k);
                assert(lex_lt(b[t], b[b.len() - 1]));
                lemma_lex_irreflexive(y);
                assert(b.contains(k));
                assert(a.contains(k));
                let u = a.index_of(k);
                assert(a[u] == k);
                assert(front[u] == k);
            }
        }
        assert forall|p: int, q: int| 0 <= p < q < front.len() implies lex_lt(
            #[trigger] front[p],
            #[trigger] front[q],
        ) by {
            assert(lex_lt(a[p], a[q]));
        }
        assert forall|p: int, q: int| 0 <= p < q < other.len() implies lex_lt(
            #[trigger] other[p],
            #[trigger] other[q],
        ) by {
            assert(lex_lt(b[p], b[q]));
        }
        lemma_sorted_same_keys(front, other);
        assert(a =~= front.push(x));
        assert(b =~= other.push(y));
    }
}

/// The sum of two 64-bit values, limited to the 64-bit range.
pub fn saturating_sum(a: i64, b: i64) -> (r: i64)
    ensures
        r == clamp(a + b),
{
    let s: i128 = a as i128 + b as i128;
    if s > i64::MAX as i128 {
        i64::MAX
    } else if s < i64::MIN as i128 {
        i64::MIN
    } else {
        s as i64
    }
}

/// An ordered mapping from byte strings to signed 64-bit values. The keys are held
/// in ascending lexicographic order, each once.
#[derive(Debug, PartialEq, Eq)]
pub struct ByteTable {
    keys: Vec<Vec<u8>>,
    values: Vec<i64>,
}

impl View for ByteTable {
    type V = Map<Seq<u8>, int>;

    open spec fn view(&self) -> Map<Seq<u8>, int> {
        table_map(self.spec_keys(), self.spec_values())
    }
}

impl ByteTable {
    /// The keys in the order in which the table holds them.
    pub closed spec fn spec_keys(&self) -> Seq<Seq<u8>> {
        Seq::new(self.keys@.len(), |i: int| self.keys@[i]@)
    }

    /// The values, each at the place of its key.
    pub closed spec fn spec_values(&self) -> Seq<i64> {
        self.values@
    }

    /// The table's invariant: as many values as keys, and the keys strictly ascending.
    pub open spec fn wf(&self) -> bool {
        &&& self.spec_keys().len() == self.spec_values().len()
        &&& strictly_sorted(self.spec_keys())
    }

    /// The key at each place maps to the value at that place, and every key of the
    /// mapping stands at some place.
    pub proof fn lemma_entries(&self)
        requires
            self.wf(),
        ensures
            forall|i: int|
                0 <= i < self.spec_keys().len() ==> self@.contains_key(#[trigger] self.spec_keys()[i])
                    && self@[self.spec_keys()[i]] == self.spec_values()[i],
            forall|k: Seq<u8>| self@.contains_key(k) ==> self.spec_keys().contains(k),
    {
        assert forall|i: int| 0 <= i < self.spec_keys().len() implies self@.contains_key(
            #[trigger] self.spec_keys()[i],
        ) && self@[self.spec_keys()[i]] == self.spec_values()[i] by {
            lemma_table_map_at(self.spec_keys(), self.spec_values(), i);
        }
    }

    /// A table is held in one way only: two tables with the same mapping hold the
    /// same keys and values at the same places.
    pub proof fn lemma_same_view_same_entries(&self, other: &ByteTable)
        requires
            self.wf(),
            other.wf(),
            self@ == other@,
        ensures
            self.spec_keys() == other.spec_keys(),
            self.spec_values() == other.spec_values(),
    {
        let keys = self.spec_keys();
        assert forall|k: Seq<u8>| keys.contains(k) <==> other.spec_keys().contains(k) by {
            assert(self@.contains_key(k) == keys.contains(k));
            assert(other@.contains_key(k) == other.spec_keys().contains(k));
        }
        lemma_sorted_same_keys(keys, other.spec_keys());
        self.lemma_entries();
        other.lemma_entries();
        assert forall|i: int| 0 <= i < keys.len() implies self.spec_values()[i]
            == other.spec_values()[i] by {
            assert(self@[keys[i]] == self.spec_values()[i]);
            assert(other@[other.spec_keys()[i]] == other.spec_values()[i]);
        }
        assert(self.spec_values() =~= other.spec_values());
    }

    /// The values of a table fit in 64 bits.
    pub proof fn lemma_values_fit(&self)
        requires
            self.wf(),
        ensures
            values_fit(self@),
    {
        assert forall|k: Seq<u8>| self@.contains_key(k) implies i64::MIN <= #[trigger] self@[k]
            <= i64::MAX by {
            let j = self.spec_keys().index_of(k);
            assert(self.spec_keys()[j] == k);
            lemma_table_map_at(self.spec_keys(), self.spec_values(), j);
        }
    }

    /// An empty table.
    pub fn new() -> (t: ByteTable)
        ensures
            t.wf(),
            t@ == Map::<Seq<u8>, int>::empty(),
            t.spec_keys().len() == 0,
    {
        let t = ByteTable { keys: Vec::new(), values: Vec::new() };
        proof {
            assert(t@ =~= Map::<Seq<u8>, int>::empty());
        }
        t
    }

    /// The number of entries.
    pub fn len(&self) -> (n: usize)
        ensures
            n == self.spec_keys().len(),
    {
        self.keys.len()
    }

    /// Whether the table holds no entry.
    pub fn is_empty(&self) -> (b: bool)
        ensures
            b == (self.spec_keys().len() == 0),
            b == has_no_key(self@),
    {
        proof {
            if self.keys@.len() > 0 {
                assert(self.spec_keys().contains(self.spec_keys()[0]));
                assert(self@.contains_key(self.spec_keys()[0]));
            }
        }
        self.keys.len() == 0
    }

    /// The key at place `i`, counting in ascending key order.
    pub fn key_at(&self, i: usize) -> (k: &Vec<u8>)
        requires
            i < self.spec_keys().len(),
        ensures
            k@ == self.spec_keys()[i as int],
    {
        &self.keys[i]
    }

    /// The value at place `i`, counting in ascending key order.
    pub fn value_at(&self, i: usize) -> (v: i64)
        requires
            self.wf(),
            i < self.spec_keys().len(),
        ensures
            v == self.spec_values()[i as int],
            self@.contains_key(self.spec_keys()[i as int]),
            self@[self.spec_keys()[i as int]] == v,
    {
        proof {
            self.lemma_entries();
        }
        self.values[i]
    }

    /// Whether the table's invariant holds.
    pub fn is_well_formed(&self) -> (ok: bool)
        ensures
            ok == self.wf(),
    {
        if self.keys.len() != self.values.len() {
            return false;
        }
        let ghost keys = self.spec_keys();
        let mut i: usize = 1;
        while i < self.keys.len()
            invariant
                keys == self.spec_keys(),
                1 <= i,
                self.keys.len() == self.values.len(),
                forall|p: int, q: int|
                    0 <= p < q < i && q < keys.len() ==> lex_lt(#[trigger] keys[p], #[trigger] keys[q]),
            decreases self.keys.len() - i,
        {
            match compare_bytes(self.keys[i - 1].as_slice(), self.keys[i].as_slice()) {
                Side::Before => {
                    proof {
                        assert forall|p: int, q: int| 0 <= p < q < i + 1 && q < keys.len() implies lex_lt(
                            #[trigger] keys[p],
                            #[trigger] keys[q],
                        ) by {
                            if q == i && p < i - 1 {
                                assert(lex_lt(keys[p], keys[i - 1]));
                                lemma_lex_transitive(keys[p], keys[i - 1], keys[i as int]);
                            }
                        }
                    }
                },
                _ => {
                    proof {
                        lemma_lex_total(keys[i - 1], keys[i as int]);
                        if self.wf() {
                            assert(lex_lt(keys[i - 1], keys[i as int]));
                        }
                    }
                    return false;
                },
            }
            i += 1;
        }
        true
    }

    /// Whether no key of the table is the empty string.
    pub fn has_no_empty_key(&self) -> (b: bool)
        requires
            self.wf(),
        ensures
            b == keys_nonempty(self@),
    {
        let nothing: [u8; 0] = [];
        let found = self.contains_key(nothing.as_slice());
        proof {
            assert(nothing@ =~= Seq::<u8>::empty());
            if !found {
                assert forall|k: Seq<u8>| self@.contains_key(k) implies k.len() > 0 by {
                    if k.len() == 0 {
                        assert(k =~= Seq::<u8>::empty());
                    }
                }
            }
        }
        !found
    }

    /// Where `key` stands, or where it would have to be put.
    fn find(&self, key: &[u8]) -> (r: (bool, usize))
        requires
            self.wf(),
        ensures
            r.1 <= self.spec_keys().len(),
            r.0 ==> r.1 < self.spec_keys().len() && self.spec_keys()[r.1 as int] == key@,
            r.0 == self@.contains_key(key@),
            !r.0 ==> forall|t: int| 0 <= t < r.1 ==> lex_lt(#[trigger] self.spec_keys()[t], key@),
            !r.0 ==> forall|t: int|
                r.1 <= t < self.spec_keys().len() ==> lex_lt(key@, #[trigger] self.spec_keys()[t]),
    {
        let mut lo: usize = 0;
        let mut hi: usize = self.keys.len();
        while lo < hi
            invariant
                self.wf(),
                lo <= hi <= self.keys.len(),
                forall|t: int| 0 <= t < lo ==> lex_lt(#[trigger] self.spec_keys()[t], key@),
                forall|t: int|
                    hi <= t < self.spec_keys().len() ==> lex_lt(key@, #[trigger] self.spec_keys()[t]),
            decreases hi - lo,
        {
            let mid: usize = lo + (hi - lo) / 2;
            match compare_bytes(self.keys[mid].as_slice(), key) {
                Side::Same => {
                    proof {
                        assert(self.spec_keys()[mid as int] == key@);
                        assert(self.spec_keys().contains(key@));
                    }
                    return (true, mid);
                },
                Side::Before => {
                    proof {
                        assert forall|t: int| 0 <= t < mid + 1 implies lex_lt(
                            #[trigger] self.spec_keys()[t],
                            key@,
                        ) by {
                            if t < mid {
                                lemma_lex_transitive(
                                    self.spec_keys()[t],
                                    self.spec_keys()[mid as int],
                                    key@,
                                );
                            }
                        }
                    }
                    lo = mid + 1;
                },
                Side::After => {
                    proof {
                        assert forall|t: int| mid <= t < self.spec_keys().len() implies lex_lt(
                            key@,
                            #[trigger] self.spec_keys()[t],
                        ) by {
                            if t > mid {
                                lemma_lex_transitive(
                                    key@,
                                    self.spec_keys()[mid as int],
                                    self.spec_keys()[t],
                                );
                            }
                        }
                    }
                    hi = mid;
                },
            }
        }
        proof {
            lemma_lex_irreflexive(key@);
            if self.spec_keys().contains(key@) {
                let j = self.spec_keys().index_of(key@);
                assert(self.spec_keys()[j] == key@);
            }
        }
        (false, lo)
    }

    /// The value under `key`, if the table holds one.
    pub fn get(&self, key: &[u8]) -> (r: Option<i64>)
        requires
            self.wf(),
        ensures
            r.is_some() == self@.contains_key(key@),
            r.is_some() ==> self@[key@] == r.unwrap(),
    {
        let (found, at) = self.find(key);
        if found {
            proof {
                self.lemma_entries();
            }
            Some(self.values[at])
        } else {
            None
        }
    }

    /// Whether the table holds `key`.
    pub fn contains_key(&self, key: &[u8]) -> (b: bool)
        requires
            self.wf(),
        ensures
            b == self@.contains_key(key@),
    {
        self.find(key).0
    }

    /// Puts `value` under the key at place `at`, or puts key and value in at that place.
    fn store(&mut self, found: bool, at: usize, key: &[u8], value: i64)
        requires
            old(self).wf(),
            at <= old(self).spec_keys().len(),
            found ==> at < old(self).spec_keys().len() && old(self).spec_keys()[at as int] == key@,
            !found ==> forall|t: int| 0 <= t < at ==> lex_lt(#[trigger] old(self).spec_keys()[t], key@),
            !found ==> forall|t: int|
                at <= t < old(self).spec_keys().len() ==> lex_lt(
                    key@,
                    #[trigger] old(self).spec_keys()[t],
                ),
        ensures
            final(self).wf(),
            final(self)@ == old(self)@.insert(key@, value as int),
    {
        proof {
            self.lemma_entries();
        }
        let ghost keys0 = self.spec_keys();
        let ghost vals0 = self.spec_values();
        let ghost goal = self@.insert(key@, value as int);
        if found {
            self.values.set(at, value);
            proof {
                assert(self.spec_keys() =~= keys0);
                assert forall|i: int| 0 <= i < keys0.len() implies goal.contains_key(
                    #[trigger] self.spec_keys()[i],
                ) && goal[self.spec_keys()[i]] == self.spec_values()[i] by {
                    if i != at {
                        if keys0[i] == keys0[at as int] {
                            lemma_sorted_distinct(keys0, i, at as int);
                        }
                    }
                }
                assert forall|k: Seq<u8>| goal.contains_key(k) implies self.spec_keys().contains(
                    k,
                ) by {
                    if k == key@ {
                        assert(keys0[at as int] == k);
                    }
                }
                lemma_table_map_is(self.spec_keys(), self.spec_values(), goal);
            }
        } else {
            let owned = slice_to_vec(key);
            self.keys.insert(at, owned);
            self.values.insert(at, value);
            proof {
                let keys1 = self.spec_keys();
                let vals1 = self.spec_values();
                old(self).keys@.insert_ensures(at as int, owned);
                vals0.insert_ensures(at as int, value);
                assert(keys1.len() == keys0.len() + 1);
                assert(keys1[at as int] == key@);
                assert(forall|i: int| 0 <= i < at ==> keys1[i] == keys0[i]);
                assert(forall|i: int| at < i < keys1.len() ==> keys1[i] == keys0[i - 1]);
                assert forall|i: int, j: int| 0 <= i < j < keys1.len() implies lex_lt(
                    #[trigger] keys1[i],
                    #[trigger] keys1[j],
                ) by {
                    if j < at {
                    } else if j == at {
                    } else if i < at {
                        assert(lex_lt(keys0[i], keys0[j - 1])) by {
                            if i < j - 1 {
                            } else {
                                lemma_lex_transitive(keys0[i], key@, keys0[j - 1]);
                            }
                        }
                    } else if i == at {
                    } else {
                    }
                }
                lemma_lex_irreflexive(key@);
                assert forall|i: int| 0 <= i < keys1.len() implies goal.contains_key(
                    #[trigger] keys1[i],
                ) && goal[keys1[i]] == vals1[i] by {
                    if i < at {
                        assert(keys0[i] != key@);
                    } else if i > at {
                        assert(keys0[i - 1] != key@);
                    }
                }
                assert forall|k: Seq<u8>| goal.contains_key(k) implies keys1.contains(k) by {
                    if k == key@ {
                        assert(keys1[at as int] == k);
                    } else {
                        let j = keys0.index_of(k);
                        assert(keys0[j] == k);
                        if j < at {
                            assert(keys1[j] == k);
                        } else {
                            assert(keys1[j + 1] == k);
                        }
                    }
                }
                lemma_table_map_is(keys1, vals1, goal);
            }
        }
    }

    /// Puts `value` under `key`, in place of the value that was there, if any.
    pub fn insert(&mut self, key: &[u8], value: i64)
        requires
            old(self).wf(),
        ensures
            final(self).wf(),
            final(self)@ == old(self)@.insert(key@, value as int),
    {
        let (found, at) = self.find(key);
        self.store(found, at, key, value);
    }

    /// Adds `delta` to the value under `key`, starting from zero where the table has
    /// no such key. The sum is limited to the 64-bit range.
    pub fn add_saturating(&mut self, key: &[u8], delta: i64)
        requires
            old(self).wf(),
        ensures
            final(self).wf(),
            final(self)@ == old(self)@.insert(
                key@,
                clamp(value_or_zero(old(self)@, key@) + delta),
            ),
    {
        let (found, at) = self.find(key);
        let before: i64 = if found {
            proof {
                self.lemma_entries();
            }
            self.values[at]
        } else {
            0
        };
        self.store(found, at, key, saturating_sum(before, delta));
    }

    /// The sweep: removes every entry whose value is one or less, and no other.
    pub fn retain_repeated(&mut self)
        requires
            old(self).wf(),
        ensures
            final(self).wf(),
            final(self)@ == repeated_only(old(self)@),
            forall|k: Seq<u8>|
                old(self)@.contains_key(k) && old(self)@[k] > 1 ==> final(self)@.contains_key(k)
                    && final(self)@[k] == old(self)@[k],
    {
        proof {
            self.lemma_entries();
        }
        let ghost keys0 = self.spec_keys();
        let ghost vals0 = self.spec_values();
        let ghost goal = repeated_only(self@);
        let mut keys: Vec<Vec<u8>> = Vec::new();
        let mut values: Vec<i64> = Vec::new();
        let ghost mut from: Seq<int> = Seq::empty();
        let mut i: usize = 0;
        while i < self.keys.len()
            invariant
                self.wf(),
                self.spec_keys() == keys0,
                self.spec_values() == vals0,
                i <= self.keys.len(),
                keys.len() == values.len(),
                from.len() == keys.len(),
                forall|a: int| 0 <= a < from.len() ==> 0 <= #[trigger] from[a] < i,
                forall|a: int, b: int| 0 <= a < b < from.len() ==> from[a] < from[b],
                forall|a: int|
                    0 <= a < from.len() ==> (#[trigger] keys@[a])@ == keys0[from[a]] && values@[a]
                        == vals0[from[a]] && vals0[from[a]] > 1,
                forall|t: int| 0 <= t < i && #[trigger] vals0[t] > 1 ==> from.contains(t),
            decreases self.keys.len() - i,
        {
            if self.values[i] > 1 {
                keys.push(slice_to_vec(self.keys[i].as_slice()));
                values.push(self.values[i]);
                proof {
                    let ghost prev = from;
                    from = from.push(i as int);
                    assert forall|t: int| 0 <= t < i + 1 && #[trigger] vals0[t] > 1 implies from.contains(
                        t,
                    ) by {
                        if t < i {
                            assert(prev.contains(t));
                            let a = prev.index_of(t);
                            assert(prev[a] == t);
                            assert(from[a] == t);
                        } else {
                            assert(from[from.len() - 1] == t);
                        }
                    }
                }
            }
            i += 1;
        }
        self.keys = keys;
        self.values = values;
        proof {
            let keys1 = self.spec_keys();
            let vals1 = self.spec_values();
            assert forall|a: int, b: int| 0 <= a < b < keys1.len() implies lex_lt(
                #[trigger] keys1[a],
                #[trigger] keys1[b],
            ) by {
                assert(keys1[a] == keys0[from[a]]);
                assert(keys1[b] == keys0[from[b]]);
            }
            assert forall|a: int| 0 <= a < keys1.len() implies goal.contains_key(
                #[trigger] keys1[a],
            ) && goal[keys1[a]] == vals1[a] by {
                assert(keys1[a] == keys0[from[a]]);
            }
            assert forall|k: Seq<u8>| goal.contains_key(k) implies keys1.contains(k) by {
                assert(keys0.contains(k));
                let t = keys0.index_of(k);
                assert(keys0[t] == k);
                assert(vals0[t] > 1);
                assert(from.contains(t));
                let a = from.index_of(t);
                assert(from[a] == t);
                assert(keys1[a] == k);
            }
            lemma_table_map_is(keys1, vals1, goal);
        }
    }

    /// A table with the same entries.
    pub fn duplicate(&self) -> (t: ByteTable)
        requires
            self.wf(),
        ensures
            t.wf(),
            t@ == self@,
            t.spec_keys() == self.spec_keys(),
            t.spec_values() == self.spec_values(),
    {
        let mut keys: Vec<Vec<u8>> = Vec::new();
        let mut values: Vec<i64> = Vec::new();
        let mut i: usize = 0;
        while i < self.keys.len()
            invariant
                self.wf(),
                i <= self.keys.len(),
                keys.len() == i,
                values.len() == i,
                forall|a: int| 0 <= a < i ==> (#[trigger] keys@[a])@ == self.keys@[a]@,
                forall|a: int| 0 <= a < i ==> values@[a] == self.values@[a],
            decreases self.keys.len() - i,
        {
            keys.push(slice_to_vec(self.keys[i].as_slice()));
            values.push(self.values[i]);
            i += 1;
        }
        let t = ByteTable { keys, values };
        proof {
            assert(t.spec_keys() =~= self.spec_keys());
            assert(t.spec_values() =~= self.spec_values());
        }
        t
    }

    /// The entries as pairs of key and value, in ascending key order.
    pub fn entries(&self) -> (out: Vec<(Vec<u8>, i64)>)
        requires
            self.wf(),
        ensures
            out@.len() == self.spec_keys().len(),
            forall|i: int|
                0 <= i < out@.len() ==> (#[trigger] out@[i]).0@ == self.spec_keys()[i] && out@[i].1
                    == self.spec_values()[i],
    {
        let mut out: Vec<(Vec<u8>, i64)> = Vec::new();
        let mut i: usize = 0;
        while i < self.keys.len()
            invariant
                self.wf(),
                i <= self.keys.len(),
                out@.len() == i,
                forall|a: int|
                    0 <= a < i ==> (#[trigger] out@[a]).0@ == self.spec_keys()[a] && out@[a].1
                        == self.spec_values()[a],
            decreases self.keys.len() - i,
        {
            out.push((slice_to_vec(self.keys[i].as_slice()), self.values[i]));
            i += 1;
        }
        out
    }
}

} // verus!
