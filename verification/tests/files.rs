use bpe_trainer::codec::TokCodec;
use bpe_trainer::numbers::{digit_of, parse_digits, parse_signed, parse_unsigned};
use bpe_trainer::options::{
    check_argument_count, find_byte, parse_literal, parse_uint, starts_with, strip_underscores,
    OptionError, UsageError,
};
use bpe_trainer::orchestrator::limit_chunk_length;
use bpe_trainer::table::ByteTable;
use bpe_trainer::vocab_file::{
    parse_bytes, parse_line, push_decimal, push_line, push_signed_decimal, render_vocabulary, trim,
};

fn options(texts: &[&str]) -> Vec<Vec<u8>> {
    texts.iter().map(|t| t.as_bytes().to_vec()).collect()
}

#[test]
fn digits_of_every_base() {
    assert_eq!(digit_of(b'0'), 0);
    assert_eq!(digit_of(b'9'), 9);
    assert_eq!(digit_of(b'a'), 10);
    assert_eq!(digit_of(b'F'), 15);
    assert_eq!(digit_of(b'z'), 35);
    assert_eq!(digit_of(b'_'), 36);
    assert_eq!(parse_digits(b"1010", 2, u64::MAX), Some(10));
    assert_eq!(parse_digits(b"3fff", 16, u64::MAX), Some(0x3fff));
    assert_eq!(parse_digits(b"3FFF", 16, u64::MAX), Some(0x3fff));
    assert_eq!(parse_digits(b"12", 2, u64::MAX), None);
    assert_eq!(parse_digits(b"", 10, u64::MAX), None);
    assert_eq!(parse_digits(b"255", 10, 255), Some(255));
    assert_eq!(parse_digits(b"256", 10, 255), None);
    assert_eq!(parse_digits(b"18446744073709551615", 10, u64::MAX), Some(u64::MAX));
    assert_eq!(parse_digits(b"18446744073709551616", 10, u64::MAX), None);
    assert_eq!(parse_digits(b"000", 10, 0), Some(0));
}

#[test]
fn numbers_with_a_sign() {
    assert_eq!(parse_unsigned(b"+17", 10, 255), Some(17));
    assert_eq!(parse_unsigned(b"+", 10, 255), None);
    assert_eq!(parse_unsigned(b"-17", 10, 255), None);
    assert_eq!(parse_unsigned(b"++1", 10, 255), None);
    assert_eq!(parse_signed(b"-17"), Some(-17));
    assert_eq!(parse_signed(b"+17"), Some(17));
    assert_eq!(parse_signed(b"17"), Some(17));
    assert_eq!(parse_signed(b"-"), None);
    assert_eq!(parse_signed(b"-+1"), None);
    assert_eq!(parse_signed(b"9223372036854775807"), Some(i64::MAX));
    assert_eq!(parse_signed(b"9223372036854775808"), None);
    assert_eq!(parse_signed(b"-9223372036854775808"), Some(i64::MIN));
    assert_eq!(parse_signed(b"-9223372036854775809"), None);
    assert_eq!(parse_signed(b"1 "), None);
}

#[test]
fn literals_in_three_bases() {
    assert_eq!(parse_literal(b"0x3fff", u64::MAX), Some(0x3fff));
    assert_eq!(parse_literal(b"0b01111", 255), Some(15));
    assert_eq!(parse_literal(b"42", 255), Some(42));
    assert_eq!(parse_literal(b"0x", 255), None);
    assert_eq!(parse_literal(b"0b2", 255), None);
    assert_eq!(parse_literal(b"0xff", 255), Some(255));
    assert_eq!(parse_literal(b"0x100", 255), None);
    assert_eq!(parse_literal(b"", 255), None);
    assert_eq!(parse_literal(b"0", 255), Some(0));
}

#[test]
fn options_by_name() {
    let given = options(&["v=0b0_1111", "br=0x3fff", "mt=0", "x", "mt=9"]);
    assert_eq!(parse_uint(&given, b"v=", 255), Ok(Some(15)));
    assert_eq!(parse_uint(&given, b"br=", u64::MAX), Ok(Some(0x3fff)));
    assert_eq!(parse_uint(&given, b"mt=", u64::MAX), Ok(Some(0)));
    assert_eq!(parse_uint(&given, b"tcb=", u64::MAX), Ok(None));
    assert_eq!(parse_uint(&Vec::new(), b"v=", 255), Ok(None));
    assert_eq!(
        parse_uint(&options(&["v=300"]), b"v=", 255),
        Err(OptionError::InvalidNumber)
    );
    assert_eq!(
        parse_uint(&options(&["v="]), b"v=", 255),
        Err(OptionError::InvalidNumber)
    );
    assert_eq!(
        parse_uint(&options(&["v=abc"]), b"v=", 255),
        Err(OptionError::InvalidNumber)
    );
    assert_eq!(parse_uint(&options(&["v=1=2"]), b"v=", 255), Ok(Some(1)));
    assert_eq!(parse_uint(&options(&["v=1_0"]), b"v", 255), Ok(Some(10)));
    assert_eq!(
        parse_uint(&options(&["verbose"]), b"v", 255),
        Err(OptionError::InvalidNumber)
    );
}

#[test]
fn pieces_of_an_option() {
    assert!(starts_with(b"mt=4", b"mt="));
    assert!(starts_with(b"mt=4", b""));
    assert!(!starts_with(b"m", b"mt="));
    assert!(!starts_with(b"tm=4", b"mt="));
    assert_eq!(find_byte(b"a=b=c", b'=', 0), 1);
    assert_eq!(find_byte(b"a=b=c", b'=', 2), 3);
    assert_eq!(find_byte(b"a=b=c", b'=', 4), 5);
    assert_eq!(find_byte(b"", b'=', 0), 0);
    assert_eq!(strip_underscores(b"_1_000__"), b"1000".to_vec());
    assert_eq!(strip_underscores(b""), Vec::<u8>::new());
}

#[test]
fn the_number_of_arguments() {
    assert_eq!(check_argument_count(1), Err(UsageError::MissingOptions));
    assert_eq!(check_argument_count(2), Err(UsageError::MissingFile));
    assert_eq!(check_argument_count(3), Ok(()));
    assert_eq!(check_argument_count(4), Err(UsageError::TooManyArguments));
    assert_eq!(check_argument_count(9), Err(UsageError::TooManyArguments));
}

#[test]
fn the_chunk_length_is_at_most_the_input() {
    assert_eq!(limit_chunk_length(None, 10), None);
    assert_eq!(limit_chunk_length(Some(4), 10), Some(4));
    assert_eq!(limit_chunk_length(Some(40), 10), Some(10));
}

#[test]
fn decimal_rendering() {
    let mut out = b"x".to_vec();
    push_decimal(&mut out, 0);
    push_decimal(&mut out, 7);
    push_decimal(&mut out, 1203);
    push_decimal(&mut out, u64::MAX);
    assert_eq!(out, b"x07120318446744073709551615".to_vec());
    let mut signed = Vec::new();
    push_signed_decimal(&mut signed, -45);
    push_signed_decimal(&mut signed, 0);
    push_signed_decimal(&mut signed, i64::MIN);
    push_signed_decimal(&mut signed, i64::MAX);
    assert_eq!(
        signed,
        b"-450-92233720368547758089223372036854775807".to_vec()
    );
}

#[test]
fn a_line_of_the_vocabulary_file() {
    let mut out = Vec::new();
    push_line(&mut out, b"abc", 1);
    assert_eq!(out, b"[97, 98, 99]\t1".to_vec());
    let mut out = Vec::new();
    push_line(&mut out, &[0], -12);
    assert_eq!(out, b"[0]\t-12".to_vec());
    let mut out = Vec::new();
    push_line(&mut out, &[], 5);
    assert_eq!(out, b"[]\t5".to_vec());
}

#[test]
fn the_vocabulary_file_is_in_key_order() {
    let mut model = ByteTable::new();
    model.insert(b"b", 40);
    model.insert(&[0, 0], 40);
    model.insert(b"abc", 1);
    assert_eq!(
        render_vocabulary(&model),
        b"[0, 0]\t40\n[97, 98, 99]\t1\n[98]\t40\n".to_vec()
    );
    assert_eq!(render_vocabulary(&ByteTable::new()), Vec::<u8>::new());
}

#[test]
fn reading_a_line() {
    assert_eq!(parse_line(b"[0, 0]\t40"), Some((vec![0, 0], 40)));
    assert_eq!(parse_line(b"[97,98 ,  99]\t-1"), Some((b"abc".to_vec(), -1)));
    assert_eq!(parse_line(b"[7]\t3\tmore"), Some((vec![7], 3)));
    assert_eq!(parse_line(b"[]\t3"), None);
    assert_eq!(parse_line(b"[1, 2]"), None);
    assert_eq!(parse_line(b"[256]\t3"), None);
    assert_eq!(parse_line(b"[1,]\t3"), None);
    assert_eq!(parse_line(b"[1]\t"), None);
    assert_eq!(parse_line(b"[1]\t 3"), None);
    assert_eq!(parse_line(b"\t3"), None);
    assert_eq!(parse_line(b""), None);
    assert_eq!(parse_bytes(b" 1 , 2,3 "), Some(vec![1, 2, 3]));
    assert_eq!(parse_bytes(b""), None);
    assert_eq!(trim(b"  a b \r\n"), b"a b");
    assert_eq!(trim(b" \t "), b"");
}

#[test]
fn what_is_written_is_read_again() {
    let mut model = ByteTable::new();
    model.insert(b"abc", 1);
    model.insert(&[0, 255, 10], -7);
    model.insert(b"zz", i64::MAX);
    model.insert(b"y", i64::MIN);
    let text = render_vocabulary(&model);
    let lines: Vec<Vec<u8>> = text
        .split(|b| *b == b'\n')
        .filter(|l| !l.is_empty())
        .map(|l| l.to_vec())
        .collect();
    let (codec, skipped) = TokCodec::from_lines(&lines);
    assert_eq!(codec.model, model);
    assert_eq!(skipped, Vec::<usize>::new());
}

#[test]
fn lines_of_another_form_are_passed_over() {
    let lines: Vec<Vec<u8>> = vec![
        b"[1]\t5".to_vec(),
        b"nonsense".to_vec(),
        b"[2]\t6".to_vec(),
        b"[1]\t9".to_vec(),
        b"".to_vec(),
    ];
    let (codec, skipped) = TokCodec::from_lines(&lines);
    assert_eq!(codec.model.entries(), vec![(vec![1], 9), (vec![2], 6)]);
    assert_eq!(skipped, vec![1, 4]);
}
