use crate::numbers::{parse_unsigned, parsed_unsigned};
use vstd::prelude::*;

verus! {

/// Why an option on the command line was refused.
#[derive(Clone, Copy, Debug, PartialEq, Eq, Structural)]
pub enum OptionError {
    /// The option is there, but what follows its name is no number, or one that
    /// is out of range.
    InvalidNumber,
}

/// Why the arguments of the program were refused.
#[derive(Clone, Copy, Debug, PartialEq, Eq, Structural)]
pub enum UsageError {
    /// More than the options and the input file were given.
    TooManyArguments,
    /// The options were given, the input file was not.
    MissingFile,
    /// Nothing was given.
    MissingOptions,
}

/// Checks the number of arguments, the name of the program counted: the program
/// takes its options and the path of its input.
pub fn check_argument_count(count: usize) -> (r: Result<(), UsageError>)
    ensures
        count >= 4 ==> r == Err::<(), UsageError>(UsageError::TooManyArguments),
        count == 2 ==> r == Err::<(), UsageError>(UsageError::MissingFile),
        count == 1 ==> r == Err::<(), UsageError>(UsageError::MissingOptions),
        count == 0 || count == 3 ==> r is Ok,
{
    if count >= 4 {
        Err(UsageError::TooManyArguments)
    } else if count == 2 {
        Err(UsageError::MissingFile)
    } else if count == 1 {
        Err(UsageError::MissingOptions)
    } else {
        Ok(())
    }
}

/// `s` begins with `prefix`.
pub open spec fn has_prefix(s: Seq<u8>, prefix: Seq<u8>) -> bool {
    prefix.len() <= s.len() && s.take(prefix.len() as int) == prefix
}

/// The first place from `from` on at which `c` stands in `s`, or the length of
/// `s` where there is none.
pub open spec fn index_of_byte(s: Seq<u8>, c: u8, from: int) -> int
    decreases s.len() - from,
{
    if from >= s.len() {
        s.len() as int
    } else if s[from] == c {
        from
    } else {
        index_of_byte(s, c, from + 1)
    }
}

/// What stands between the first equals sign and the next one, or the end. A
/// text without an equals sign has no such field.
pub open spec fn second_field(s: Seq<u8>) -> Option<Seq<u8>> {
    let first = index_of_byte(s, 61, 0);
    if first >= s.len() {
        None
    } else {
        Some(s.subrange(first + 1, index_of_byte(s, 61, first + 1)))
    }
}

/// The text without its underscores.
pub open spec fn without_underscores(s: Seq<u8>) -> Seq<u8>
    decreases s.len(),
{
    if s.len() == 0 {
        Seq::empty()
    } else if s.last() == 95 {
        without_underscores(s.drop_last())
    } else {
        without_underscores(s.drop_last()).push(s.last())
    }
}

/// The number that a literal stands for: hexadecimal after `0x`, binary after
/// `0b`, decimal otherwise.
pub open spec fn literal_value(s: Seq<u8>, max: int) -> Option<int> {
    if has_prefix(s, seq![48u8, 120u8]) {
        parsed_unsigned(s.skip(2), 16, max)
    } else if has_prefix(s, seq![48u8, 98u8]) {
        parsed_unsigned(s.skip(2), 2, max)
    } else {
        parsed_unsigned(s, 10, max)
    }
}

/// The place of the first option from `from` on that begins with `prefix`, or the
/// number of options where there is none.
pub open spec fn first_option(options: Seq<Seq<u8>>, prefix: Seq<u8>, from: int) -> int
    decreases options.len() - from,
{
    if from >= options.len() {
        options.len() as int
    } else if has_prefix(options[from], prefix) {
        from
    } else {
        first_option(options, prefix, from + 1)
    }
}

/// The number that the options give under a name: none where no option begins
/// with the name; otherwise the literal in the second field of the first such
/// option, underscores left out.
pub open spec fn option_number(options: Seq<Seq<u8>>, name: Seq<u8>, max: int) -> Result<
    Option<int>,
    OptionError,
> {
    let at = first_option(options, name, 0);
    if at >= options.len() {
        Ok(None)
    } else {
        match second_field(options[at]) {
            None => Err(OptionError::InvalidNumber),
            Some(field) => match literal_value(without_underscores(field), max) {
                Some(v) => Ok(Some(v)),
                None => Err(OptionError::InvalidNumber),
            },
        }
    }
}

/// The options as mathematical sequences.
pub open spec fn option_views(options: Seq<Vec<u8>>) -> Seq<Seq<u8>> {
    Seq::new(options.len(), |i: int| options[i]@)
}

/// Whether `s` begins with `prefix`.
pub fn starts_with(s: &[u8], prefix: &[u8]) -> (b: bool)
    ensures
        b == has_prefix(s@, prefix@),
{
    if prefix.len() > s.len() {
        return false;
    }
    let mut i: usize = 0;
    while i < prefix.len()
        invariant
            i <= prefix.len() <= s.len(),
            forall|t: int| 0 <= t < i ==> s@[t] == prefix@[t],
        decreases prefix.len() - i,
    {
        if s[i] != prefix[i] {
            proof {
                assert(s@.take(prefix@.len() as int)[i as int] != prefix@[i as int]);
            }
            return false;
        }
        i += 1;
    }
    proof {
        assert(s@.take(prefix@.len() as int) =~= prefix@);
    }
    true
}

/// The first place from `from` on at which `c` stands, or the length of `s`.
pub fn find_byte(s: &[u8], c: u8, from: usize) -> (at: usize)
    requires
        from <= s.len(),
    ensures
        at == index_of_byte(s@, c, from as int),
        from <= at <= s.len(),
{
    let mut at: usize = from;
    while at < s.len() && s[at] != c
        invariant
            from <= at <= s.len(),
            index_of_byte(s@, c, from as int) == index_of_byte(s@, c, at as int),
        decreases s.len() - at,
    {
        at += 1;
    }
    at
}

/// A copy of the text without its underscores.
pub fn strip_underscores(s: &[u8]) -> (out: Vec<u8>)
    ensures
        out@ == without_underscores(s@),
{
    let mut out: Vec<u8> = Vec::new();
    let mut i: usize = 0;
    proof {
        assert(s@.take(0) =~= Seq::<u8>::empty());
    }
    while i < s.len()
        invariant
            i <= s.len(),
            out@ == without_underscores(s@.take(i as int)),
        decreases s.len() - i,
    {
        proof {
            assert(s@.take(i + 1).drop_last() =~= s@.take(i as int));
        }
        if s[i] != 95 {
            out.push(s[i]);
        }
        i += 1;
    }
    proof {
        assert(s@.take(i as int) =~= s@);
    }
    out
}

/// Reads a literal: hexadecimal after `0x`, binary after `0b`, decimal otherwise.
pub fn parse_literal(s: &[u8], max: u64) -> (r: Option<u64>)
    ensures
        r matches Some(v) ==> literal_value(s@, max as int) == Some(v as int),
        r is None ==> literal_value(s@, max as int) is None,
{
    let hex: [u8; 2] = [48, 120];
    let binary: [u8; 2] = [48, 98];
    proof {
        assert(hex@ =~= seq![48u8, 120u8]);
        assert(binary@ =~= seq![48u8, 98u8]);
    }
    if starts_with(s, hex.as_slice()) {
        proof {
            assert(s@.subrange(2, s@.len() as int) =~= s@.skip(2));
        }
        parse_unsigned(&s[2..s.len()], 16, max)
    } else if starts_with(s, binary.as_slice()) {
        proof {
            assert(s@.subrange(2, s@.len() as int) =~= s@.skip(2));
        }
        parse_unsigned(&s[2..s.len()], 2, max)
    } else {
        parse_unsigned(s, 10, max)
    }
}

/// Reads the number that the options give under the name `starts_with`, such as
/// `mt=`: `Ok(None)` where no option has the name, the number where the first
/// such option holds one that is at most `max`, and an error otherwise.
pub fn parse_uint(options: &Vec<Vec<u8>>, starts_with: &[u8], max: u64) -> (r: Result<
    Option<u64>,
    OptionError,
>)
    ensures
        match option_number(option_views(options@), starts_with@, max as int) {
            Ok(None) => r == Ok::<Option<u64>, OptionError>(None),
            Ok(Some(v)) => r matches Ok(Some(w)) && w == v,
            Err(e) => r == Err::<Option<u64>, OptionError>(e),
        },
{
    let ghost all = option_views(options@);
    let mut at: usize = 0;
    while at < options.len() && !self::starts_with(options[at].as_slice(), starts_with)
        invariant
            all == option_views(options@),
            at <= options.len(),
            first_option(all, starts_with@, 0) == first_option(all, starts_with@, at as int),
        decreases options.len() - at,
    {
        proof {
            assert(all[at as int] == options@[at as int]@);
        }
        at += 1;
    }
    if at >= options.len() {
        return Ok(None);
    }
    proof {
        assert(all[at as int] == options@[at as int]@);
    }
    let option = options[at].as_slice();
    let first = find_byte(option, 61, 0);
    if first >= option.len() {
        return Err(OptionError::InvalidNumber);
    }
    let next = find_byte(option, 61, first + 1);
    let field = strip_underscores(&option[first + 1..next]);
    match parse_literal(field.as_slice(), max) {
        Some(v) => Ok(Some(v)),
        None => Err(OptionError::InvalidNumber),
    }
}

} // verus!
