use bpe_trainer::corpus::ConcatenatedBytes;
use bpe_trainer::counter::{train_unigram_bytes, DEFAULT_DROPOUT};
use bpe_trainer::order::{compare_bytes, Side};
use bpe_trainer::orchestrator::{
    group_chunks, group_size, merge_models, split_chunks, thread_count, train_chunks,
    train_tokenizer, train_tokenizer_rayon_multi_threaded, train_tokenizer_single_thread,
};
use bpe_trainer::params::TokenizerParameters;
use bpe_trainer::scorer::{count_occurrences, numerical_grade_encodable};
use bpe_trainer::search::all_subbyte;
use bpe_trainer::segmenter::{generate_cutoff_by_pattern, rebuild_2d_byte_vec, SegmentError};
use bpe_trainer::table::{saturating_sum, ByteTable};
use bpe_trainer::trainer::{greedy_bpe_encode, select_best};
use bpe_trainer::vocabulary::{apply_length_bias, sum_byte_pair_encoding};

fn table(entries: &[(&[u8], i64)]) -> ByteTable {
    let mut t = ByteTable::new();
    for (k, v) in entries {
        t.insert(k, *v);
    }
    t
}

fn params(data: &[u8], threads: Option<usize>, chunk: Option<usize>) -> TokenizerParameters {
    let mut p = TokenizerParameters::new();
    p.bin_dat = Some(data.to_vec());
    p.multi_threaded = threads;
    p.trainer_chk_bytes = chunk;
    p
}

#[test]
fn compare_bytes_orders_lexicographically() {
    assert_eq!(compare_bytes(b"abc", b"abd"), Side::Before);
    assert_eq!(compare_bytes(b"ab", b"abc"), Side::Before);
    assert_eq!(compare_bytes(b"b", b"abc"), Side::After);
    assert_eq!(compare_bytes(b"abc", b"abc"), Side::Same);
    assert_eq!(compare_bytes(b"", b""), Side::Same);
    assert_eq!(compare_bytes(b"", b"a"), Side::Before);
    assert_eq!(compare_bytes(&[200], &[100, 1]), Side::After);
}

#[test]
fn table_keeps_keys_in_ascending_order() {
    let t = table(&[(b"b", 2), (b"abc", 3), (b"a", 1), (b"ab", 4)]);
    assert_eq!(
        t.entries(),
        vec![
            (b"a".to_vec(), 1),
            (b"ab".to_vec(), 4),
            (b"abc".to_vec(), 3),
            (b"b".to_vec(), 2)
        ]
    );
    assert_eq!(t.len(), 4);
    assert!(!t.is_empty());
    assert_eq!(t.key_at(2), &b"abc".to_vec());
    assert_eq!(t.value_at(2), 3);
    assert!(t.contains_key(b"ab"));
    assert!(!t.contains_key(b"ba"));
    assert_eq!(t.get(b"zz"), None);
}

#[test]
fn table_insert_replaces_the_value() {
    let mut t = table(&[(b"a", 1)]);
    t.insert(b"a", 7);
    assert_eq!(t.entries(), vec![(b"a".to_vec(), 7)]);
}

#[test]
fn table_add_saturating_starts_from_zero_and_saturates() {
    let mut t = ByteTable::new();
    t.add_saturating(b"k", 5);
    assert_eq!(t.get(b"k"), Some(5));
    t.add_saturating(b"k", -7);
    assert_eq!(t.get(b"k"), Some(-2));
    t.add_saturating(b"k", i64::MAX);
    t.add_saturating(b"k", i64::MAX);
    assert_eq!(t.get(b"k"), Some(i64::MAX));
    t.insert(b"m", i64::MIN);
    t.add_saturating(b"m", -1);
    assert_eq!(t.get(b"m"), Some(i64::MIN));
    assert_eq!(saturating_sum(i64::MAX, 1), i64::MAX);
    assert_eq!(saturating_sum(i64::MIN, -1), i64::MIN);
    assert_eq!(saturating_sum(-3, 5), 2);
}

#[test]
fn sweep_removes_counts_of_one_or_less_only() {
    let mut t = table(&[(b"a", 0), (b"b", 1), (b"c", 2), (b"d", -4), (b"e", 9)]);
    t.retain_repeated();
    assert_eq!(t.entries(), vec![(b"c".to_vec(), 2), (b"e".to_vec(), 9)]);
}

#[test]
fn duplicate_has_the_same_entries() {
    let t = table(&[(b"x", 1), (b"y", 2)]);
    assert_eq!(t.duplicate(), t);
}

#[test]
fn well_formed_corpus_is_recognised() {
    assert!(ConcatenatedBytes::new(vec![1, 2, 3, 4], vec![0..2, 2..4]).is_well_formed());
    assert!(ConcatenatedBytes::new(vec![1, 2, 3, 4], vec![1..2, 3..4]).is_well_formed());
    assert!(ConcatenatedBytes::new(vec![], vec![]).is_well_formed());
    assert!(!ConcatenatedBytes::new(vec![1, 2, 3, 4], vec![0..0]).is_well_formed());
    assert!(!ConcatenatedBytes::new(vec![1, 2, 3, 4], vec![0..5]).is_well_formed());
    assert!(!ConcatenatedBytes::new(vec![1, 2, 3, 4], vec![0..3, 2..4]).is_well_formed());
    assert!(!ConcatenatedBytes::new(vec![1, 2, 3, 4], vec![2..4, 0..2]).is_well_formed());
}

#[test]
fn overlapping_matches_are_all_found() {
    assert_eq!(all_subbyte(b"aaaa", b"aa", None), vec![0, 1, 2]);
    assert_eq!(all_subbyte(b"abc", b"abcd", None), Vec::<usize>::new());
    assert_eq!(all_subbyte(b"", b"a", None), Vec::<usize>::new());
    assert_eq!(all_subbyte(b"abc", b"abc", None), vec![0]);
    assert_eq!(all_subbyte(b"xyx", b"x", Some(usize::MAX)), vec![0, 2]);
}

#[test]
fn counting_without_a_sweep_counts_every_substring() {
    let corpus = ConcatenatedBytes::new(vec![1, 2, 1, 2], vec![0..4]);
    let counter = train_unigram_bytes(&corpus, None, None);
    assert_eq!(
        counter.entries(),
        vec![(vec![1], 2), (vec![1, 2], 2), (vec![2], 2)]
    );
    assert_eq!(DEFAULT_DROPOUT, 0xf_ffff);
}

#[test]
fn counting_does_not_cross_segments() {
    let corpus = ConcatenatedBytes::new(vec![1, 2, 1, 2], vec![0..2, 2..4]);
    let counter = train_unigram_bytes(&corpus, None, None);
    assert_eq!(
        counter.entries(),
        vec![(vec![1], 2), (vec![1, 2], 2), (vec![2], 2)]
    );
    let split = ConcatenatedBytes::new(vec![1, 2, 1, 2], vec![0..1, 1..4]);
    let counter = train_unigram_bytes(&split, None, None);
    assert_eq!(counter.entries(), vec![(vec![1], 2), (vec![2], 2)]);
}

#[test]
fn a_sweep_after_every_step_leaves_nothing() {
    let corpus = ConcatenatedBytes::new(vec![1, 2, 1, 2], vec![0..4]);
    let counter = train_unigram_bytes(&corpus, Some(1), None);
    assert!(counter.is_empty());
}

#[test]
fn a_sweep_forgets_what_it_met_once() {
    let corpus = ConcatenatedBytes::new(vec![1, 2, 1, 2], vec![0..4]);
    let counter = train_unigram_bytes(&corpus, Some(8), None);
    assert_eq!(counter.entries(), vec![(vec![1], 2)]);
}

#[test]
fn counting_starts_from_the_seed() {
    let corpus = ConcatenatedBytes::new(vec![7, 8], vec![0..2]);
    let seed = table(&[(&[7], 1), (&[9, 9], 5), (&[8, 8], 1)]);
    let counter = train_unigram_bytes(&corpus, None, Some(&seed));
    assert_eq!(counter.entries(), vec![(vec![7], 2), (vec![9, 9], 5)]);
}

#[test]
fn occurrences_are_counted_segment_by_segment() {
    let corpus = ConcatenatedBytes::new(b"aaaaaa".to_vec(), vec![0..3, 3..6]);
    assert_eq!(count_occurrences(&corpus, b"aa"), 4);
    let whole = ConcatenatedBytes::new(b"aaaaaa".to_vec(), vec![0..6]);
    assert_eq!(count_occurrences(&whole, b"aa"), 5);
    assert_eq!(count_occurrences(&whole, b"b"), 0);
}

#[test]
fn score_is_occurrences_times_length_less_one() {
    let corpus = ConcatenatedBytes::new(b"abcdabcc".to_vec(), vec![0..8]);
    let candidates = table(&[(b"abc", 0), (b"c", 100), (b"bc", -1), (b"zz", 2)]);
    let scores = numerical_grade_encodable(&corpus, &candidates);
    assert_eq!(
        scores.entries(),
        vec![
            (b"abc".to_vec(), 4),
            (b"bc".to_vec(), 2),
            (b"c".to_vec(), 0),
            (b"zz".to_vec(), 0)
        ]
    );
}

#[test]
fn the_last_of_the_highest_scores_wins() {
    let scores = table(&[(b"a", 5), (b"ab", 9), (b"b", 9), (b"c", 1)]);
    assert_eq!(select_best(&scores), 2);
    let single = table(&[(b"q", -3)]);
    assert_eq!(select_best(&single), 0);
    let rising = table(&[(b"a", 1), (b"b", 2), (b"c", 3)]);
    assert_eq!(select_best(&rising), 2);
    let falling = table(&[(b"a", 3), (b"b", 2), (b"c", 1)]);
    assert_eq!(select_best(&falling), 0);
}

#[test]
fn runs_of_touching_matches_leave_nothing_between_them() {
    let corpus = ConcatenatedBytes::new(b"xabababy".to_vec(), vec![0..8]);
    assert_eq!(generate_cutoff_by_pattern(&corpus, b"ab"), vec![0..1, 7..8]);
    let run = ConcatenatedBytes::new(b"aaaaa".to_vec(), vec![0..5]);
    assert_eq!(generate_cutoff_by_pattern(&run, b"aa"), Vec::new());
    let gaps = ConcatenatedBytes::new(b"ab-ab--ab".to_vec(), vec![0..9]);
    assert_eq!(generate_cutoff_by_pattern(&gaps, b"ab"), vec![2..3, 5..7]);
}

#[test]
fn a_segment_without_a_match_is_kept_whole() {
    let corpus = ConcatenatedBytes::new(b"abcxyzabc".to_vec(), vec![0..3, 3..6, 6..9]);
    assert_eq!(generate_cutoff_by_pattern(&corpus, b"bc"), vec![0..1, 3..6, 6..7]);
    assert_eq!(generate_cutoff_by_pattern(&corpus, b"q"), vec![0..3, 3..6, 6..9]);
}

#[test]
fn a_match_across_two_segments_is_none() {
    let corpus = ConcatenatedBytes::new(b"abab".to_vec(), vec![0..1, 1..4]);
    assert_eq!(generate_cutoff_by_pattern(&corpus, b"ab"), vec![0..1, 1..2]);
}

#[test]
fn rebuilding_refuses_an_empty_span() {
    let corpus = ConcatenatedBytes::new(vec![1, 2, 3, 4], vec![0..4]);
    assert_eq!(
        rebuild_2d_byte_vec(&[0..1, 2..2, 3..3], &corpus),
        Err(SegmentError::EmptySpan(1))
    );
    assert_eq!(
        rebuild_2d_byte_vec(&[], &corpus),
        Ok(ConcatenatedBytes::new(vec![], vec![]))
    );
    assert_eq!(
        rebuild_2d_byte_vec(&[2..4, 0..1], &corpus),
        Ok(ConcatenatedBytes::new(vec![3, 4, 1], vec![0..2, 2..3]))
    );
}

#[test]
fn greedy_training_of_one_chunk() {
    assert_eq!(greedy_bpe_encode(b"abcdabcc"), table(&[(b"abc", 4)]));
    assert!(greedy_bpe_encode(b"a").is_empty());
    assert!(greedy_bpe_encode(b"").is_empty());
    assert!(greedy_bpe_encode(b"abab").is_empty());
    assert_eq!(greedy_bpe_encode(b"ababab"), table(&[(b"abab", 6)]));
}

#[test]
fn greedy_training_takes_several_rounds() {
    let model = greedy_bpe_encode(b"abcabcabc--xyzwxyzwxyzw");
    assert_eq!(model, table(&[(b"abcabc", 10), (b"xyzwxyzw", 14)]));
}

#[test]
fn greedy_training_breaks_ties_by_the_greater_key() {
    let model = greedy_bpe_encode(b"abab-cdcd");
    assert!(model.is_empty());
    let model = greedy_bpe_encode(b"abcabc-xyzxyz");
    assert_eq!(model, table(&[(b"abc", 4), (b"xyz", 4)]));
    let model = greedy_bpe_encode(b"aaaa");
    assert_eq!(model, table(&[(b"aaa", 4)]));
    let model = greedy_bpe_encode(b"abc1ab2bc3ab4bc");
    assert_eq!(model, table(&[(b"bc", 3)]));
}

#[test]
fn merging_adds_the_scores_of_shared_tokens() {
    let a = table(&[(b"ab", 3), (b"cd", 5)]);
    let b = table(&[(b"cd", 4), (b"ef", 7)]);
    let expected = table(&[(b"ab", 3), (b"cd", 9), (b"ef", 7)]);
    assert_eq!(sum_byte_pair_encoding(&a, &b), expected);
    assert_eq!(sum_byte_pair_encoding(&b, &a), expected);
    assert_eq!(sum_byte_pair_encoding(&a, &ByteTable::new()), a);
    assert_eq!(sum_byte_pair_encoding(&ByteTable::new(), &a), a);
    let c = table(&[(b"ab", 1), (b"zz", 2)]);
    assert_eq!(
        sum_byte_pair_encoding(&sum_byte_pair_encoding(&a, &b), &c),
        sum_byte_pair_encoding(&a, &sum_byte_pair_encoding(&b, &c))
    );
    assert_eq!(merge_models(&vec![]), ByteTable::new());
    assert_eq!(
        merge_models(&vec![a, b, c]),
        table(&[(b"ab", 4), (b"cd", 9), (b"ef", 7), (b"zz", 2)])
    );
}

#[test]
fn the_correction_takes_the_length_of_each_token() {
    let model = table(&[(b"abc", 4), (b"xy", 2), (b"", 5), (b"wxyz", i64::MIN + 1)]);
    assert_eq!(
        apply_length_bias(&model),
        table(&[(b"abc", 1), (b"xy", 0), (b"", 5), (b"wxyz", i64::MIN)])
    );
}

#[test]
fn chunks_are_cut_at_the_chunk_length() {
    assert_eq!(
        split_chunks(b"abcdefg", 3),
        vec![b"abc".to_vec(), b"def".to_vec(), b"g".to_vec()]
    );
    assert_eq!(split_chunks(b"abcdef", 3), vec![b"abc".to_vec(), b"def".to_vec()]);
    assert_eq!(split_chunks(b"ab", 3), vec![b"ab".to_vec()]);
    assert_eq!(split_chunks(b"", 3), Vec::<Vec<u8>>::new());
    assert_eq!(split_chunks(b"ab", usize::MAX), vec![b"ab".to_vec()]);
}

#[test]
fn groups_hold_the_chunks_in_order() {
    let chunks = split_chunks(b"abcdefg", 1);
    let groups = group_chunks(&chunks, 3);
    assert_eq!(
        groups,
        vec![
            vec![b"a".to_vec(), b"b".to_vec(), b"c".to_vec()],
            vec![b"d".to_vec(), b"e".to_vec(), b"f".to_vec()],
            vec![b"g".to_vec()]
        ]
    );
    assert_eq!(group_chunks(&Vec::new(), 2), Vec::<Vec<Vec<u8>>>::new());
    assert_eq!(group_size(7, 3), 3);
    assert_eq!(group_size(6, 3), 2);
    assert_eq!(group_size(1, 8), 1);
    assert_eq!(group_size(0, 8), 0);
}

#[test]
fn the_thread_count_is_never_zero() {
    assert_eq!(thread_count(4, 16), 4);
    assert_eq!(thread_count(0, 16), 16);
    assert_eq!(thread_count(0, 0), 1);
}

#[test]
fn single_thread_training_merges_the_chunks() {
    let p = params(b"abcdabccabcdabcc", None, Some(8));
    assert_eq!(train_tokenizer_single_thread(&p), table(&[(b"abc", 8)]));
    assert_eq!(
        train_chunks(&vec![b"abcdabcc".to_vec(), b"ababab".to_vec()]),
        table(&[(b"abab", 6), (b"abc", 4)])
    );
}

#[test]
fn the_default_chunk_length_is_set() {
    let mut p = params(b"abcdabcc", None, None);
    let model = train_tokenizer(&mut p).unwrap();
    assert_eq!(p.trainer_chk_bytes, Some(8));
    assert_eq!(model, table(&[(b"abc", 1)]));
    let mut long = params(&[0u8; 40], None, None);
    train_tokenizer(&mut long).unwrap();
    assert_eq!(long.trainer_chk_bytes, Some(16));
    let mut kept = params(b"abcdabcc", None, Some(3));
    train_tokenizer(&mut kept).unwrap();
    assert_eq!(kept.trainer_chk_bytes, Some(3));
}

#[test]
fn a_corpus_of_one_byte_has_no_vocabulary() {
    let mut p = params(b"a", None, None);
    assert!(train_tokenizer(&mut p).unwrap().is_empty());
}

#[test]
fn the_correction_is_made_once_for_a_token_of_many_chunks() {
    let mut p = params(b"abcdabccabcdabcc", None, Some(8));
    assert_eq!(train_tokenizer(&mut p).unwrap(), table(&[(b"abc", 5)]));
}

#[test]
fn the_chunk_length_changes_the_vocabulary() {
    let mut whole = params(b"abcabc", None, Some(6));
    assert_eq!(train_tokenizer(&mut whole).unwrap(), table(&[(b"abc", 1)]));
    let mut halves = params(b"abcabc", None, Some(3));
    assert!(train_tokenizer(&mut halves).unwrap().is_empty());
}

#[test]
fn the_thread_count_does_not_change_the_vocabulary() {
    let mut data: Vec<u8> = Vec::new();
    for i in 0..400u32 {
        data.push((i % 7) as u8);
        data.push((i * i % 5) as u8);
        data.push((i / 3 % 4) as u8);
    }
    let mut single = params(&data, None, Some(16));
    let expected = train_tokenizer(&mut single).unwrap();
    assert!(!expected.is_empty());
    for threads in [0usize, 1, 2, 3, 5, 8, 200] {
        let mut p = params(&data, Some(threads), Some(16));
        assert_eq!(train_tokenizer(&mut p).unwrap(), expected);
        let mut again = params(&data, Some(threads), Some(16));
        assert_eq!(train_tokenizer(&mut again).unwrap(), expected);
    }
}

#[test]
fn worker_threads_train_what_one_thread_trains() {
    let p = params(b"abcdabccabcdabccababab", Some(3), Some(8));
    let single = params(b"abcdabccabcdabccababab", None, Some(8));
    assert_eq!(
        train_tokenizer_rayon_multi_threaded(&p).unwrap(),
        train_tokenizer_single_thread(&single)
    );
    assert_eq!(
        train_tokenizer_single_thread(&single),
        table(&[(b"abab", 6), (b"abc", 8)])
    );
    let empty = params(b"", Some(2), Some(8));
    assert!(train_tokenizer_rayon_multi_threaded(&empty).unwrap().is_empty());
}

#[test]
fn the_new_parameters() {
    let p = TokenizerParameters::new();
    assert_eq!(p.mode, 0);
    assert_eq!(p.dbg_lv, 0b1_1111);
    assert_eq!(p.bin_dat, None);
    assert_eq!(p.bytes_to_read, None);
    assert_eq!(p.multi_threaded, None);
    assert_eq!(p.trainer_chk_bytes, Some(16));
    assert!(p.has_silent() && p.has_error() && p.has_warn() && p.has_debug() && p.has_info());
    assert!(!p.has_verbose() && !p.has_lengthy());
    assert!(!p.is_none() && !p.is_train() && !p.is_encode() && !p.is_decode());
    let mut q = TokenizerParameters::new();
    q.dbg_lv = 1;
    assert!(q.is_train() && q.has_silent() && !q.has_error());
    q.dbg_lv = 0;
    assert!(q.is_none());
    q.dbg_lv = 2;
    assert!(q.is_encode());
    q.dbg_lv = 3;
    assert!(q.is_decode());
    q.dbg_lv = 0b110_0000;
    assert!(q.has_verbose() && q.has_lengthy());
}

#[test]
fn the_longest_tokens_are_tried_first() {
    let codec = bpe_trainer::codec::TokCodec::new(table(&[
        (b"a", 1),
        (b"ab", 2),
        (b"abc", 3),
        (b"b", 4),
        (b"ba", 5),
        (b"zzzz", 6),
    ]));
    assert_eq!(
        codec.from_longest_bytes_iter(),
        vec![
            (b"zzzz".to_vec(), 6),
            (b"abc".to_vec(), 3),
            (b"ba".to_vec(), 5),
            (b"ab".to_vec(), 2),
            (b"b".to_vec(), 4),
            (b"a".to_vec(), 1)
        ]
    );
    let empty = bpe_trainer::codec::TokCodec::new(ByteTable::new());
    assert_eq!(empty.from_longest_bytes_iter(), Vec::new());
}

#[test]
fn training_with_a_pool_that_was_set_up() {
    let p = params(b"abcdabccabcdabccababab", Some(2), Some(8));
    let pool = rayon::ThreadPoolBuilder::new().num_threads(2).build();
    assert!(pool.is_ok());
    assert_eq!(
        bpe_trainer::orchestrator::train_with_pool(&p, pool, 2),
        Ok(table(&[(b"abab", 6), (b"abc", 8)]))
    );
}

#[test]
fn training_without_a_pool_is_refused() {
    let p = params(b"abcdabcc", Some(2), Some(8));
    let first = rayon::ThreadPoolBuilder::new().num_threads(1).build_global();
    assert!(first.is_ok());
    let second = rayon::ThreadPoolBuilder::new().num_threads(1).build_global();
    let error = second.unwrap_err();
    assert_eq!(
        bpe_trainer::orchestrator::train_with_pool(&p, Err(error), 2),
        Err(bpe_trainer::orchestrator::TrainError::ThreadPool)
    );
}

#[test]
fn a_table_knows_whether_a_key_is_empty() {
    assert!(table(&[(b"a", 1), (b"b", 2)]).has_no_empty_key());
    assert!(ByteTable::new().has_no_empty_key());
    assert!(!table(&[(b"a", 1), (b"", 2)]).has_no_empty_key());
}

#[test]
fn a_table_built_by_its_methods_is_well_formed() {
    assert!(ByteTable::new().is_well_formed());
    assert!(table(&[(b"b", 2), (b"abc", 3), (b"a", 1), (b"ab", 4)]).is_well_formed());
    let mut swept = table(&[(b"b", 2), (b"abc", 3), (b"a", 1)]);
    swept.retain_repeated();
    assert!(swept.is_well_formed());
}

#[test]
fn merging_into_a_vocabulary() {
    let mut model = table(&[(b"ab", 3), (b"cd", 5)]);
    bpe_trainer::vocabulary::merge_into(&mut model, &table(&[(b"cd", 4), (b"ef", 7)]));
    assert_eq!(model, table(&[(b"ab", 3), (b"cd", 9), (b"ef", 7)]));
    bpe_trainer::vocabulary::merge_into(&mut model, &ByteTable::new());
    assert_eq!(model, table(&[(b"ab", 3), (b"cd", 9), (b"ef", 7)]));
    let mut high = table(&[(b"x", i64::MAX)]);
    bpe_trainer::vocabulary::merge_into(&mut high, &table(&[(b"x", 1)]));
    assert_eq!(high, table(&[(b"x", i64::MAX)]));
}
