use bpe_trainer::corpus::ConcatenatedBytes;
use bpe_trainer::counter::train_unigram_bytes;
use bpe_trainer::debug_enum;
use bpe_trainer::orchestrator::train_tokenizer;
use bpe_trainer::params::TokenizerParameters;
use bpe_trainer::scorer::numerical_grade_encodable;
use bpe_trainer::search::all_subbyte;
use bpe_trainer::segmenter::{generate_cutoff_by_pattern, rebuild_2d_byte_vec};
use bpe_trainer::table::ByteTable;

#[test]
fn test_train_unigram_bytes() {
    let byte_vec = ConcatenatedBytes::new(
        vec![1, 2, 3, 1, 2, 3, 1, 2, 3, 1, 2, 3, 1, 2, 3, 1],
        vec![0..8, 8..16],
    );

    let test_dropout = 0x3fff;
    let counter = train_unigram_bytes(&byte_vec, Some(test_dropout), None);

    assert_eq!(counter.get(&vec![1, 2]).unwrap(), 5);
    assert_eq!(counter.get(&vec![3, 1]).unwrap(), 5);
    assert_eq!(counter.get(&vec![1, 2, 3]).unwrap(), 4);
    assert_eq!(counter.get(&vec![3, 1, 2]).unwrap(), 4);
}

#[test]
fn test_numerical_grade_encodable() {
    let byte_vec = ConcatenatedBytes::new(
        vec![1, 2, 3, 1, 2, 3, 1, 2, 3, 1, 2, 3, 1, 2, 3, 1],
        vec![0..8, 8..16],
    );
    let mut counter = ByteTable::new();
    counter.insert(&vec![1, 2], 0);
    counter.insert(&vec![3, 1], 0);

    let scores = numerical_grade_encodable(&byte_vec, &counter);
    assert_eq!(scores.get(&vec![1, 2]).unwrap(), 5);
    assert_eq!(scores.get(&vec![3, 1]).unwrap(), 5);
}

#[test]
fn test_all_substring() {
    let binary: Vec<u8> = ("a".repeat(10000) + "b" + &"a".repeat(5) + "b").bytes().collect();
    let pattern: Vec<u8> = "ab".bytes().collect();
    let result = all_subbyte(&binary, &pattern, Some(5));
    assert_eq!(result, vec![9999, 10005]);
    assert_eq!(all_subbyte(b"qwertyuiop", b"tyu", None), vec![4]);
    assert_eq!(all_subbyte(b"qwertyuiop", b"asd", Some(1000)), vec![]);
}

#[test]
fn test_generate_cutoff_by_pattern() {
    let byte_vec = ConcatenatedBytes::new(
        vec![1, 2, 3, 1, 2, 3, 1, 2, 3, 1, 2, 3, 1, 2, 3, 1],
        vec![0..8, 8..16],
    );
    let pattern = vec![1, 2, 3];
    let result = generate_cutoff_by_pattern(&byte_vec, &pattern);
    assert_eq!(result, vec![6..8, 8..9, 15..16]);
}

#[test]
fn test_rebuild_2d_byte_vec() {
    let byte_vec = ConcatenatedBytes::new(
        vec![1, 2, 3, 1, 2, 3, 1, 2, 3, 1, 2, 3, 1, 2, 3, 1],
        vec![0..8, 8..16],
    );
    let cutoff = vec![6..8, 8..9, 15..16];
    let result = rebuild_2d_byte_vec(&cutoff, &byte_vec).unwrap();
    assert_eq!(
        result,
        ConcatenatedBytes::new(vec![1, 2, 3, 1], vec![0..2, 2..3, 3..4])
    );
}

#[test]
fn test_train_tokenizer() {
    let result_too_short = train_tokenizer(&mut TokenizerParameters {
        mode: 0,
        multi_threaded: Some(2),
        dbg_lv: debug_enum::DEBUG,
        bin_dat: Some(b"a".to_vec()),
        bytes_to_read: None,
        trainer_chk_bytes: Some(2),
    })
    .unwrap();
    let result = train_tokenizer(&mut TokenizerParameters {
        mode: 0,
        multi_threaded: Some(2),
        dbg_lv: debug_enum::DEBUG,
        bin_dat: Some(b"abcdabcc".to_vec()),
        bytes_to_read: None,
        trainer_chk_bytes: None,
    })
    .unwrap();

    assert_eq!(result_too_short, ByteTable::new());
    let mut expected = ByteTable::new();
    expected.insert(&b"abc".to_vec(), 1);
    assert_eq!(result, expected);
}
