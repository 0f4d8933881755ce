use crate::numbers::{
    all_digits, digit_value, number_of, parse_signed, parse_unsigned, parsed_signed,
    parsed_unsigned,
};
use crate::options::{find_byte, index_of_byte};
use crate::table::ByteTable;
use vstd::prelude::*;

verus! {

/// The character of a decimal digit.
pub open spec fn digit(d: int) -> u8 {
    (48 + d) as u8
}

/// A natural number in base 10, without leading zeros.
pub open spec fn decimal(n: nat) -> Seq<u8>
    decreases n,
{
    if n < 10 {
        seq![digit(n as int)]
    } else {
        decimal(n / 10).push(digit((n % 10) as int))
    }
}

/// An integer in base 10, with a minus sign before a negative one.
pub open spec fn signed_decimal(v: int) -> Seq<u8> {
    if v < 0 {
        seq![45u8] + decimal((-v) as nat)
    } else {
        decimal(v as nat)
    }
}

/// The bytes of a token as decimal numbers, with a comma and a space between two.
pub open spec fn byte_list(key: Seq<u8>) -> Seq<u8>
    decreases key.len(),
{
    if key.len() == 0 {
        Seq::empty()
    } else if key.len() == 1 {
        decimal(key[0] as nat)
    } else {
        byte_list(key.drop_last()) + seq![44u8, 32u8] + decimal(key.last() as nat)
    }
}

/// One line of a vocabulary file, without the end of the line: the token as a
/// list of its bytes in square brackets, a tab, and the score.
pub open spec fn vocabulary_line(key: Seq<u8>, score: int) -> Seq<u8> {
    seq![91u8] + byte_list(key) + seq![93u8, 9u8] + signed_decimal(score)
}

/// The lines of the first `n` entries, each with a line feed after it.
pub open spec fn vocabulary_text(keys: Seq<Seq<u8>>, values: Seq<i64>, n: int) -> Seq<u8>
    decreases n,
{
    if n <= 0 {
        Seq::empty()
    } else {
        vocabulary_text(keys, values, n - 1) + vocabulary_line(keys[n - 1], values[n - 1] as int)
            + seq![10u8]
    }
}

/// A space, or one of the control characters from the tab to the carriage return.
pub open spec fn is_blank(c: u8) -> bool {
    c == 32 || (9 <= c <= 13)
}

/// The text without the blanks at its start.
pub open spec fn trim_start(s: Seq<u8>) -> Seq<u8>
    decreases s.len(),
{
    if s.len() > 0 && is_blank(s[0]) {
        trim_start(s.skip(1))
    } else {
        s
    }
}

/// The text without the blanks at its end.
pub open spec fn trim_end(s: Seq<u8>) -> Seq<u8>
    decreases s.len(),
{
    if s.len() > 0 && is_blank(s.last()) {
        trim_end(s.drop_last())
    } else {
        s
    }
}

/// The bytes that a list of decimal numbers stands for, read from `from` on. The
/// numbers are parted by commas and may have blanks around them; each is 255 at
/// most. A list with anything else in it stands for nothing.
pub open spec fn parsed_bytes(s: Seq<u8>, from: int) -> Option<Seq<u8>>
    decreases s.len() - from,
{
    let stop = index_of_byte(s, 44, from);
    if from < 0 || stop < from || stop > s.len() {
        None
    } else {
        match parsed_unsigned(trim_end(trim_start(s.subrange(from, stop))), 10, 255) {
            None => None,
            Some(v) => if stop >= s.len() {
                Some(seq![v as u8])
            } else {
                match parsed_bytes(s, stop + 1) {
                    None => None,
                    Some(rest) => Some(seq![v as u8] + rest),
                }
            },
        }
    }
}

/// The entry that a line of a vocabulary file stands for. Before the first tab
/// stands the token: a list of bytes between two characters, the brackets. After
/// it, up to the next tab or the end, stands the score.
pub open spec fn parsed_line(line: Seq<u8>) -> Option<(Seq<u8>, int)> {
    let tab = index_of_byte(line, 9, 0);
    if tab >= line.len() || tab < 2 {
        None
    } else {
        let end = index_of_byte(line, 9, tab + 1);
        match (
            parsed_bytes(line.subrange(1, tab - 1), 0),
            parsed_signed(line.subrange(tab + 1, end), -(i64::MIN as int), i64::MAX as int),
        ) {
            (Some(key), Some(score)) => Some((key, score)),
            _ => None,
        }
    }
}

/// The place of the first `c` from `from` on is `at`, where no `c` stands before
/// `at` and one stands there, or the text ends there.
proof fn lemma_index_of_byte(s: Seq<u8>, c: u8, from: int, at: int)
    requires
        0 <= from <= at <= s.len(),
        forall|i: int| from <= i < at ==> s[i] != c,
        at == s.len() || s[at] == c,
    ensures
        index_of_byte(s, c, from) == at,
    decreases at - from,
{
    if from < at {
        lemma_index_of_byte(s, c, from + 1, at);
    }
}

/// A number in base 10 is written with digits only, with one at least, and stands
/// for itself.
pub proof fn lemma_decimal(n: nat)
    ensures
        decimal(n).len() > 0,
        forall|i: int| 0 <= i < decimal(n).len() ==> 48 <= #[trigger] decimal(n)[i] <= 57,
        all_digits(decimal(n), 10),
        number_of(decimal(n), 10) == n,
    decreases n,
{
    let d = decimal(n);
    if n >= 10 {
        lemma_decimal(n / 10);
        assert(d.drop_last() =~= decimal(n / 10));
        assert(d.last() == digit((n % 10) as int));
        assert forall|i: int| 0 <= i < d.len() implies 48 <= #[trigger] d[i] <= 57 by {
            if i < d.len() - 1 {
                assert(d[i] == decimal(n / 10)[i]);
            }
        }
    } else {
        assert(d.drop_last() =~= Seq::<u8>::empty());
        assert(number_of(d.drop_last(), 10) == 0);
    }
    assert forall|i: int| 0 <= i < d.len() implies digit_value(#[trigger] d[i]) < 10 by {
        assert(48 <= d[i] <= 57);
    }
}

/// A number that was written in base 10 is read as itself, with or without a
/// blank before it.
proof fn lemma_read_decimal(lead: Seq<u8>, n: nat, max: int)
    requires
        n <= max,
        lead.len() == 0 || lead == seq![32u8],
    ensures
        parsed_unsigned(trim_end(trim_start(lead + decimal(n))), 10, max) == Some(n as int),
{
    let d = decimal(n);
    lemma_decimal(n);
    assert(48 <= d[0] <= 57);
    assert(48 <= d[d.len() - 1] <= 57);
    if lead.len() == 0 {
        assert(lead + d =~= d);
    } else {
        assert((lead + d).skip(1) =~= d);
        assert((lead + d)[0] == 32);
    }
    assert(trim_start(d) == d);
    assert(trim_end(d) == d);
}

/// A score that was written is read as itself.
pub proof fn lemma_score_round_trip(v: int)
    requires
        i64::MIN <= v <= i64::MAX,
    ensures
        parsed_signed(signed_decimal(v), -(i64::MIN as int), i64::MAX as int) == Some(v),
        forall|i: int| 0 <= i < signed_decimal(v).len() ==> #[trigger] signed_decimal(v)[i] != 9,
{
    let s = signed_decimal(v);
    if v < 0 {
        let d = decimal((-v) as nat);
        lemma_decimal((-v) as nat);
        assert(s.skip(1) =~= d);
        assert(s[0] == 45);
        assert forall|i: int| 0 <= i < s.len() implies #[trigger] s[i] != 9 by {
            if i > 0 {
                assert(s[i] == d[i - 1]);
            }
        }
    } else {
        lemma_decimal(v as nat);
        assert(48 <= s[0] <= 57);
    }
}

/// A list of bytes is written with digits, commas and spaces only, and is not
/// empty where the token is not.
proof fn lemma_byte_list_chars(key: Seq<u8>)
    ensures
        key.len() > 0 ==> byte_list(key).len() > 0,
        forall|i: int|
            0 <= i < byte_list(key).len() ==> (48 <= #[trigger] byte_list(key)[i] <= 57)
                || byte_list(key)[i] == 44 || byte_list(key)[i] == 32,
    decreases key.len(),
{
    if key.len() == 1 {
        lemma_decimal(key[0] as nat);
    } else if key.len() > 1 {
        let front = byte_list(key.drop_last());
        let d = decimal(key.last() as nat);
        lemma_byte_list_chars(key.drop_last());
        lemma_decimal(key.last() as nat);
        let all = byte_list(key);
        assert forall|i: int| 0 <= i < all.len() implies (48 <= #[trigger] all[i] <= 57) || all[i]
            == 44 || all[i] == 32 by {
            if i < front.len() {
                assert(all[i] == front[i]);
            } else if i >= front.len() + 2 {
                assert(all[i] == d[i - front.len() - 2]);
            }
        }
    }
}

/// The list of a token of two bytes or more is the first byte, a comma, a space
/// and the list of the other bytes.
proof fn lemma_byte_list_front(key: Seq<u8>)
    requires
        key.len() >= 2,
    ensures
        byte_list(key) == decimal(key[0] as nat) + seq![44u8, 32u8] + byte_list(key.skip(1)),
    decreases key.len(),
{
    let sep = seq![44u8, 32u8];
    let last = decimal(key.last() as nat);
    if key.len() == 2 {
        assert(key.drop_last().len() == 1);
        assert(key.skip(1).len() == 1);
        assert(byte_list(key.drop_last()) == decimal(key[0] as nat));
        assert(byte_list(key.skip(1)) == decimal(key[1] as nat));
    } else {
        let inner = key.drop_last();
        lemma_byte_list_front(inner);
        assert(inner.skip(1) =~= key.skip(1).drop_last());
        assert(key.skip(1).last() == key.last());
        assert(byte_list(key) =~= decimal(key[0] as nat) + sep + (byte_list(inner.skip(1)) + sep
            + last));
    }
}

/// The list of a token that was written after `pre`, with or without a space
/// before it, is read from there as the token.
proof fn lemma_read_byte_list(pre: Seq<u8>, lead: Seq<u8>, key: Seq<u8>)
    requires
        key.len() >= 1,
        lead.len() == 0 || lead == seq![32u8],
    ensures
        parsed_bytes(pre + lead + byte_list(key), pre.len() as int) == Some(key),
    decreases key.len(),
{
    let s = pre + lead + byte_list(key);
    let d = decimal(key[0] as nat);
    let from = pre.len() as int;
    let stop = from + lead.len() + d.len();
    lemma_decimal(key[0] as nat);
    lemma_read_decimal(lead, key[0] as nat, 255);
    if key.len() == 1 {
        assert(s =~= pre + (lead + d));
        assert forall|i: int| from <= i < s.len() implies s[i] != 44 by {
            if i >= from + lead.len() {
                assert(s[i] == d[i - from - lead.len()]);
            }
        }
        lemma_index_of_byte(s, 44, from, s.len() as int);
        assert(s.subrange(from, s.len() as int) =~= lead + d);
        assert(seq![key[0]] =~= key);
    } else {
        let rest = key.skip(1);
        lemma_byte_list_front(key);
        let pre2 = pre + lead + d + seq![44u8];
        assert(s =~= pre2 + seq![32u8] + byte_list(rest));
        assert(s =~= pre + (lead + d) + seq![44u8, 32u8] + byte_list(rest));
        assert forall|i: int| from <= i < stop implies s[i] != 44 by {
            if i >= from + lead.len() {
                assert(s[i] == d[i - from - lead.len()]);
            }
        }
        assert(s[stop] == 44);
        lemma_index_of_byte(s, 44, from, stop);
        assert(s.subrange(from, stop) =~= lead + d);
        lemma_read_byte_list(pre2, seq![32u8], rest);
        assert(seq![key[0]] + rest =~= key);
    }
}

/// A line that was written for a token that is not empty is read as the token
/// and its score.
pub proof fn lemma_line_round_trip(key: Seq<u8>, score: int)
    requires
        key.len() > 0,
        i64::MIN <= score <= i64::MAX,
    ensures
        parsed_line(vocabulary_line(key, score)) == Some((key, score)),
{
    let line = vocabulary_line(key, score);
    let list = byte_list(key);
    let number = signed_decimal(score);
    let tab: int = list.len() as int + 2;
    lemma_byte_list_chars(key);
    lemma_score_round_trip(score);
    assert forall|i: int| 0 <= i < tab implies line[i] != 9 by {
        if 1 <= i < tab - 1 {
            assert(line[i] == list[i - 1]);
        }
    }
    assert(line[tab] == 9);
    lemma_index_of_byte(line, 9, 0, tab);
    assert forall|i: int| tab + 1 <= i < line.len() implies line[i] != 9 by {
        assert(line[i] == number[i - tab - 1]);
    }
    lemma_index_of_byte(line, 9, tab + 1, line.len() as int);
    assert(line.subrange(1, tab - 1) =~= list);
    assert(line.subrange(tab + 1, line.len() as int) =~= number);
    lemma_read_byte_list(Seq::empty(), Seq::empty(), key);
    assert(Seq::<u8>::empty() + Seq::<u8>::empty() + list =~= list);
}

/// The part of the text between the blanks at its two ends.
pub fn trim(s: &[u8]) -> (out: &[u8])
    ensures
        out@ == trim_end(trim_start(s@)),
{
    let mut lo: usize = 0;
    proof {
        assert(s@.skip(0) =~= s@);
    }
    while lo < s.len() && (s[lo] == 32 || (9 <= s[lo] && s[lo] <= 13))
        invariant
            lo <= s.len(),
            trim_start(s@) == trim_start(s@.skip(lo as int)),
        decreases s.len() - lo,
    {
        proof {
            assert(s@.skip(lo as int).skip(1) =~= s@.skip(lo + 1));
        }
        lo += 1;
    }
    let mut hi: usize = s.len();
    let ghost body = s@.skip(lo as int);
    proof {
        assert(body.take(body.len() as int) =~= body);
    }
    while hi > lo && (s[hi - 1] == 32 || (9 <= s[hi - 1] && s[hi - 1] <= 13))
        invariant
            lo <= hi <= s.len(),
            body == s@.skip(lo as int),
            trim_start(s@) == body,
            trim_end(body) == trim_end(body.take(hi - lo)),
        decreases hi - lo,
    {
        proof {
            assert(body.take(hi - lo).drop_last() =~= body.take(hi - lo - 1));
        }
        hi -= 1;
    }
    proof {
        assert(body.take(hi - lo) =~= s@.subrange(lo as int, hi as int));
    }
    &s[lo..hi]
}

/// Reads a list of bytes, each a decimal number, parted by commas.
pub fn parse_bytes(s: &[u8]) -> (r: Option<Vec<u8>>)
    ensures
        r matches Some(key) ==> parsed_bytes(s@, 0) == Some(key@),
        r is None ==> parsed_bytes(s@, 0) is None,
{
    let mut key: Vec<u8> = Vec::new();
    let mut from: usize = 0;
    loop
        invariant
            from <= s.len(),
            parsed_bytes(s@, 0) == match parsed_bytes(s@, from as int) {
                None => None::<Seq<u8>>,
                Some(rest) => Some(key@ + rest),
            },
        decreases s.len() - from,
    {
        let stop = find_byte(s, 44, from);
        let ghost before = key@;
        match parse_unsigned(trim(&s[from..stop]), 10, 255) {
            None => {
                return None;
            },
            Some(v) => {
                key.push(v as u8);
                if stop >= s.len() {
                    proof {
                        assert(key@ =~= before + seq![v as u8]);
                    }
                    return Some(key);
                }
                proof {
                    match parsed_bytes(s@, stop + 1) {
                        None => {},
                        Some(rest) => {
                            assert(key@ + rest =~= before + (seq![v as u8] + rest));
                        },
                    }
                }
                from = stop + 1;
            },
        }
    }
}

/// Reads one line of a vocabulary file: the token and its score, or nothing where
/// the line is not of that form.
pub fn parse_line(line: &[u8]) -> (r: Option<(Vec<u8>, i64)>)
    ensures
        r matches Some(entry) ==> parsed_line(line@) == Some((entry.0@, entry.1 as int)),
        r is None ==> parsed_line(line@) is None,
{
    let tab = find_byte(line, 9, 0);
    if tab >= line.len() || tab < 2 {
        return None;
    }
    let end = find_byte(line, 9, tab + 1);
    match parse_bytes(&line[1..tab - 1]) {
        None => None,
        Some(key) => match parse_signed(&line[tab + 1..end]) {
            None => None,
            Some(score) => Some((key, score)),
        },
    }
}

/// The text of a vocabulary file is given by the vocabulary alone: two tables
/// with the same mapping are written as the same bytes.
pub proof fn lemma_same_vocabulary_same_text(a: ByteTable, b: ByteTable)
    requires
        a.wf(),
        b.wf(),
        a@ == b@,
    ensures
        vocabulary_text(a.spec_keys(), a.spec_values(), a.spec_keys().len() as int)
            == vocabulary_text(b.spec_keys(), b.spec_values(), b.spec_keys().len() as int),
{
    a.lemma_same_view_same_entries(&b);
}

/// Appends `n` in base 10.
pub fn push_decimal(out: &mut Vec<u8>, n: u64)
    ensures
        final(out)@ == old(out)@ + decimal(n as nat),
    decreases n,
{
    if n >= 10 {
        push_decimal(out, n / 10);
    }
    let ghost before = out@;
    out.push(48 + (n % 10) as u8);
    proof {
        if n >= 10 {
            assert(out@ =~= old(out)@ + decimal((n / 10) as nat).push(digit((n % 10) as int)));
        } else {
            assert(out@ =~= old(out)@ + seq![digit(n as int)]);
        }
    }
}

/// Appends `v` in base 10, with a minus sign if it is negative.
pub fn push_signed_decimal(out: &mut Vec<u8>, v: i64)
    ensures
        final(out)@ == old(out)@ + signed_decimal(v as int),
{
    if v < 0 {
        out.push(45);
        let magnitude: u64 = (-(v as i128)) as u64;
        push_decimal(out, magnitude);
        proof {
            assert(out@ =~= old(out)@ + (seq![45u8] + decimal((-v) as nat)));
        }
    } else {
        push_decimal(out, v as u64);
    }
}

/// Appends the line of one entry, without the end of the line.
pub fn push_line(out: &mut Vec<u8>, key: &[u8], score: i64)
    ensures
        final(out)@ == old(out)@ + vocabulary_line(key@, score as int),
{
    out.push(91);
    let mut i: usize = 0;
    proof {
        assert(key@.take(0) =~= Seq::<u8>::empty());
        assert(out@ =~= old(out)@ + seq![91u8] + byte_list(key@.take(0)));
    }
    while i < key.len()
        invariant
            i <= key.len(),
            out@ == old(out)@ + seq![91u8] + byte_list(key@.take(i as int)),
        decreases key.len() - i,
    {
        let ghost before = out@;
        let ghost done = key@.take(i as int);
        if i > 0 {
            out.push(44);
            out.push(32);
        }
        push_decimal(out, key[i] as u64);
        proof {
            let now = key@.take(i + 1);
            assert(now.drop_last() =~= done);
            assert(now.last() == key@[i as int]);
            if i > 0 {
                assert(out@ =~= old(out)@ + seq![91u8] + (byte_list(done) + seq![44u8, 32u8]
                    + decimal(key@[i as int] as nat)));
            } else {
                assert(byte_list(done) =~= Seq::<u8>::empty());
                assert(out@ =~= old(out)@ + seq![91u8] + decimal(key@[i as int] as nat));
            }
        }
        i += 1;
    }
    let ghost listed = out@;
    out.push(93);
    out.push(9);
    push_signed_decimal(out, score);
    proof {
        assert(key@.take(i as int) =~= key@);
        assert(out@ =~= old(out)@ + (seq![91u8] + byte_list(key@) + seq![93u8, 9u8]
            + signed_decimal(score as int)));
    }
}

/// The text of a vocabulary file: one line for each token, in ascending order of
/// the tokens.
pub fn render_vocabulary(model: &ByteTable) -> (text: Vec<u8>)
    requires
        model.wf(),
    ensures
        text@ == vocabulary_text(
            model.spec_keys(),
            model.spec_values(),
            model.spec_keys().len() as int,
        ),
{
    let mut text: Vec<u8> = Vec::new();
    let mut i: usize = 0;
    while i < model.len()
        invariant
            model.wf(),
            i <= model.spec_keys().len(),
            text@ == vocabulary_text(model.spec_keys(), model.spec_values(), i as int),
        decreases model.spec_keys().len() - i,
    {
        push_line(&mut text, model.key_at(i).as_slice(), model.value_at(i));
        text.push(10);
        i += 1;
    }
    text
}

} // verus!
