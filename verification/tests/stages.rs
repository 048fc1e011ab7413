use sais::buckets::{bucket_ends, bucket_starts, symbol_counts};
use sais::classify::{classify_types, lms_positions};
use sais::convert::{store_i32, store_i64, widen_i32, widen_i64, widen_u16, widen_u8};
use sais::compact::{distinct_symbols, merge_distinct, rank_of, rename_symbols};
use sais::seeds::remove_s_type;
use sais::reduce::{lms_substrings_equal, name_lms_substrings, reduced_text};
use sais::solver::{collect_lms, select_positions, suffix_sort};
use sais::validate::is_suffix_array_of;

// b = 1, a = 0, n = 2
const BANANA: [u64; 6] = [1, 0, 2, 0, 2, 0];
// "babababb" with a = 0, b = 1
const BABABABB: [u64; 8] = [1, 0, 1, 0, 1, 0, 1, 1];

#[test]
fn counts_and_bucket_edges() {
    let counts = symbol_counts(&BANANA, 4);
    assert_eq!(counts, vec![3, 1, 2, 0]);
    assert_eq!(bucket_starts(&counts), vec![0, 3, 4, 6]);
    assert_eq!(bucket_ends(&counts), vec![3, 4, 6, 6]);
    assert_eq!(symbol_counts(&[], 2), vec![0, 0]);
    assert_eq!(symbol_counts(&[], 0), Vec::<usize>::new());
    assert_eq!(bucket_starts(&[]), Vec::<usize>::new());
    assert_eq!(bucket_ends(&[]), Vec::<usize>::new());
}

#[test]
fn counts_add_up_to_the_length() {
    let text: Vec<u64> = (0..1000u64).map(|i| (i * i + 3 * i) % 17).collect();
    let counts = symbol_counts(&text, 17);
    assert_eq!(counts.iter().sum::<usize>(), 1000);
    let ends = bucket_ends(&counts);
    assert_eq!(ends[16], 1000);
}

#[test]
fn types_of_banana() {
    // L S L S L L
    assert_eq!(classify_types(&BANANA), vec![false, true, false, true, false, false]);
    assert_eq!(classify_types(&[]), Vec::<bool>::new());
    assert_eq!(classify_types(&[9]), vec![false]);
    assert_eq!(classify_types(&[4, 4, 4]), vec![false, false, false]);
    assert_eq!(classify_types(&[1, 1, 2, 2, 0]), vec![true, true, false, false, false]);
}

#[test]
fn lms_positions_of_banana() {
    let types = classify_types(&BANANA);
    assert_eq!(lms_positions(&types), vec![1, 3]);
    assert_eq!(lms_positions(&[]), Vec::<usize>::new());
    assert_eq!(lms_positions(&[true]), Vec::<usize>::new());
    assert_eq!(lms_positions(&[true, true, false]), Vec::<usize>::new());
    assert_eq!(lms_positions(&[false, true, false, true, false, true]), vec![1, 3, 5]);
}

#[test]
fn at_most_half_the_positions_are_lms() {
    let text: Vec<u64> = (0..1001u64).map(|i| (i * 7919) % 13).collect();
    let types = classify_types(&text);
    let lms = lms_positions(&types);
    assert!(2 * lms.len() <= text.len());
    for w in lms.windows(2) {
        assert!(w[0] + 2 <= w[1]);
    }
}

#[test]
fn equal_and_unequal_lms_substrings() {
    let types = classify_types(&BABABABB);
    assert_eq!(lms_positions(&types), vec![1, 3, 5]);
    // "aba" and "aba"
    assert!(lms_substrings_equal(&BABABABB, &types, 1, 3));
    // "aba" and "abb" followed by the end
    assert!(!lms_substrings_equal(&BABABABB, &types, 3, 5));
    assert!(!lms_substrings_equal(&BABABABB, &types, 5, 1));
    assert!(lms_substrings_equal(&BABABABB, &types, 5, 5));
    // in "banana": "ana" and "ana" followed by the end
    let types = classify_types(&BANANA);
    assert!(!lms_substrings_equal(&BANANA, &types, 1, 3));
}

#[test]
fn a_proper_prefix_is_a_different_substring() {
    // "cabacabcab": LMS substrings "aba", "abca" and "ab" with the end
    let text: Vec<u64> = vec![2, 0, 1, 0, 2, 0, 1, 2, 0, 1];
    let types = classify_types(&text);
    assert_eq!(lms_positions(&types), vec![1, 3, 5, 8]);
    assert!(!lms_substrings_equal(&text, &types, 1, 5));
    assert!(!lms_substrings_equal(&text, &types, 5, 8));
    assert!(!lms_substrings_equal(&text, &types, 1, 3));
}

#[test]
fn names_follow_the_given_order() {
    let types = classify_types(&BABABABB);
    assert_eq!(name_lms_substrings(&BABABABB, &types, &[1, 3, 5]), vec![0, 0, 1]);
    assert_eq!(name_lms_substrings(&BABABABB, &types, &[5, 1, 3]), vec![0, 1, 1]);
    assert_eq!(name_lms_substrings(&BABABABB, &types, &[1, 5, 3]), vec![0, 1, 2]);
    assert_eq!(name_lms_substrings(&BABABABB, &types, &[]), Vec::<usize>::new());
}

#[test]
fn reduced_text_is_in_text_order() {
    assert_eq!(reduced_text(&BABABABB, &[1, 3, 5], &[5, 1, 3], &[0, 1, 1]), vec![1, 1, 0]);
    assert_eq!(reduced_text(&BABABABB, &[1, 3, 5], &[1, 3, 5], &[0, 0, 1]), vec![0, 0, 1]);
    assert_eq!(reduced_text(&BABABABB, &[], &[], &[]), Vec::<u64>::new());
}

#[test]
fn lms_entries_keep_their_order() {
    let types = classify_types(&BANANA);
    assert_eq!(collect_lms(&types, &[5, 3, 1, 0, 4, 2]), vec![3, 1]);
    assert_eq!(collect_lms(&types, &[1, usize::MAX, 9, 3, 0]), vec![1, 3]);
    assert_eq!(collect_lms(&types, &[]), Vec::<usize>::new());
}

#[test]
fn positions_selected_by_rank() {
    assert_eq!(select_positions(&[1, 3, 5], &[2, 0, 1]), vec![5, 1, 3]);
    assert_eq!(select_positions(&[1, 3, 5], &[]), Vec::<usize>::new());
}

#[test]
fn sorting_by_induction() {
    assert_eq!(suffix_sort(&BANANA, 3), vec![5, 3, 1, 0, 4, 2]);
    assert_eq!(suffix_sort(&BABABABB, 2), vec![1, 3, 5, 7, 0, 2, 4, 6]);
    assert_eq!(suffix_sort(&[], 0), Vec::<usize>::new());
    assert_eq!(suffix_sort(&[], 5), Vec::<usize>::new());
    assert_eq!(suffix_sort(&[0], 1), vec![0]);
    assert_eq!(suffix_sort(&[7, 7, 7, 7], 8), vec![3, 2, 1, 0]);
}

#[test]
fn sorting_over_a_wide_alphabet() {
    assert_eq!(suffix_sort(&BANANA, u64::MAX), vec![5, 3, 1, 0, 4, 2]);
    let wide = [u64::MAX - 1, 5, u64::MAX - 1, 5, 1 << 40, 5];
    // "c a c a b a"
    assert_eq!(suffix_sort(&wide, u64::MAX), vec![5, 3, 1, 4, 2, 0]);
    assert_eq!(suffix_sort(&[1 << 63], u64::MAX), vec![0]);
}

#[test]
fn a_wide_alphabet_gives_what_a_tight_one_gives() {
    let mut seed: u64 = 7;
    for _ in 0..200 {
        seed = seed.wrapping_mul(6364136223846793005).wrapping_add(1442695040888963407);
        let len = (seed >> 40) as usize % 50;
        let mut text: Vec<u64> = Vec::new();
        for _ in 0..len {
            seed = seed.wrapping_mul(6364136223846793005).wrapping_add(1442695040888963407);
            text.push((seed >> 40) % 3);
        }
        let spread: Vec<u64> = text.iter().map(|c| c * (1 << 50) + 17).collect();
        let tight = suffix_sort(&text, 3);
        assert_eq!(suffix_sort(&spread, u64::MAX), tight);
        assert!(is_suffix_array_of(&text, &tight));
    }
}

#[test]
fn distinct_symbols_in_order() {
    assert_eq!(distinct_symbols(&BANANA, 0, 6), vec![0, 1, 2]);
    assert_eq!(distinct_symbols(&BANANA, 1, 2), vec![0]);
    assert_eq!(distinct_symbols(&BANANA, 2, 6), vec![0, 2]);
    assert_eq!(distinct_symbols(&BANANA, 3, 3), Vec::<u64>::new());
    assert_eq!(distinct_symbols(&[9, 3, u64::MAX, 3, 0, 9], 0, 6), vec![0, 3, 9, u64::MAX]);
}

#[test]
fn merging_keeps_each_value_once() {
    assert_eq!(merge_distinct(&vec![1, 4, 9], &vec![2, 4, 10, 11]), vec![1, 2, 4, 9, 10, 11]);
    assert_eq!(merge_distinct(&vec![], &vec![3]), vec![3]);
    assert_eq!(merge_distinct(&vec![3], &vec![]), vec![3]);
    assert_eq!(merge_distinct(&vec![], &vec![]), Vec::<u64>::new());
    assert_eq!(merge_distinct(&vec![5, 6], &vec![5, 6]), vec![5, 6]);
}

#[test]
fn ranks_and_renaming() {
    let list = [3u64, 8, 21, 400];
    assert_eq!(rank_of(&list, 3), 0);
    assert_eq!(rank_of(&list, 8), 1);
    assert_eq!(rank_of(&list, 21), 2);
    assert_eq!(rank_of(&list, 400), 3);
    assert_eq!(rank_of(&[6], 6), 0);
    assert_eq!(rename_symbols(&[400, 3, 3, 21, 8], &list), vec![3, 0, 0, 2, 1]);
    assert_eq!(rename_symbols(&[], &list), Vec::<u64>::new());
}

#[test]
fn s_type_positions_are_taken_out() {
    let types = classify_types(&BANANA);
    let mut sa = vec![5, 3, 1, 0, 4, 2];
    remove_s_type(&types, &mut sa);
    assert_eq!(sa, vec![5, usize::MAX, usize::MAX, 0, 4, 2]);
    let mut gaps = vec![usize::MAX, 1, usize::MAX, 0];
    remove_s_type(&types, &mut gaps);
    assert_eq!(gaps, vec![usize::MAX, usize::MAX, usize::MAX, 0]);
}

#[test]
fn the_suffix_array_is_recognised() {
    assert!(is_suffix_array_of(&BANANA, &[5, 3, 1, 0, 4, 2]));
    assert!(is_suffix_array_of(&[], &[]));
    assert!(is_suffix_array_of(&[3], &[0]));
}

#[test]
fn other_arrays_are_not() {
    // two neighbours swapped
    assert!(!is_suffix_array_of(&BANANA, &[5, 1, 3, 0, 4, 2]));
    // in order by first symbol only
    assert!(!is_suffix_array_of(&BANANA, &[1, 3, 5, 0, 2, 4]));
    // a position twice
    assert!(!is_suffix_array_of(&BANANA, &[5, 3, 1, 0, 4, 4]));
    // a position out of range
    assert!(!is_suffix_array_of(&BANANA, &[5, 3, 1, 0, 4, 6]));
    // too short, too long
    assert!(!is_suffix_array_of(&BANANA, &[5, 3, 1, 0, 4]));
    assert!(!is_suffix_array_of(&BANANA, &[5, 3, 1, 0, 4, 2, 0]));
    assert!(!is_suffix_array_of(&[], &[0]));
}

#[test]
fn widening_keeps_the_symbols() {
    assert_eq!(widen_u8(b"\x00a\xff"), vec![0, 97, 255]);
    assert_eq!(widen_u16(&[0, 65535, 256]), vec![0, 65535, 256]);
    assert_eq!(widen_i32(&[4, 0, 2], 5), Some((vec![4, 0, 2], 5)));
    assert_eq!(widen_i32(&[4, 0, 2], 100), Some((vec![4, 0, 2], 5)));
    assert_eq!(widen_i32(&[], 1), Some((vec![], 0)));
    assert_eq!(widen_i32(&[4, 0, 2], 4), None);
    assert_eq!(widen_i32(&[0, -1], 4), None);
    assert_eq!(
        widen_i64(&[i64::MAX - 1, 0], i64::MAX),
        Some((vec![i64::MAX as u64 - 1, 0], i64::MAX as u64))
    );
    assert_eq!(widen_i64(&[i64::MAX, 0], i64::MAX), None);
    assert_eq!(widen_i64(&[0, -7], 4), None);
}

#[test]
fn storing_fills_the_front() {
    let mut narrow = vec![-1i32; 5];
    store_i32(&mut narrow, &[2, 0, 1]);
    assert_eq!(narrow, vec![2, 0, 1, -1, -1]);
    let mut long = vec![-1i64; 3];
    store_i64(&mut long, &[2, 0, 1]);
    assert_eq!(long, vec![2, 0, 1]);
    store_i64(&mut long, &[]);
    assert_eq!(long, vec![2, 0, 1]);
}
