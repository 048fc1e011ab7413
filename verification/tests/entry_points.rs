use sais::error::ConstructionError;
use sais::{
    long_suffix_array_i64, long_suffix_array_u16, long_suffix_array_u8, suffix_array_i32,
    suffix_array_u16, suffix_array_u8,
};

fn by_sorting_u8(text: &[u8]) -> Vec<i32> {
    let mut all: Vec<i32> = (0..text.len() as i32).collect();
    all.sort_by(|a, b| text[*a as usize..].cmp(&text[*b as usize..]));
    all
}

fn next_random(seed: &mut u64) -> u64 {
    *seed = seed.wrapping_mul(6364136223846793005).wrapping_add(1442695040888963407);
    *seed >> 33
}

#[test]
fn test() {
    let text = b"ACGT";
    let mut sa = vec![0; text.len()];
    suffix_array_u8(text, &mut sa).unwrap();
}

#[test]
fn increasing_symbols_give_the_identity() {
    let text = b"ACGT";
    let mut sa = vec![7i32; 4];
    assert_eq!(suffix_array_u8(text, &mut sa), Ok(()));
    assert_eq!(sa, vec![0, 1, 2, 3]);
}

#[test]
fn banana_bytes() {
    let mut sa = vec![0i32; 6];
    assert_eq!(suffix_array_u8(b"banana", &mut sa), Ok(()));
    assert_eq!(sa, vec![5, 3, 1, 0, 4, 2]);
}

#[test]
fn mississippi_bytes() {
    let mut sa = vec![0i32; 11];
    assert_eq!(suffix_array_u8(b"mississippi", &mut sa), Ok(()));
    assert_eq!(sa, vec![10, 7, 4, 1, 0, 9, 8, 6, 3, 5, 2]);
}

#[test]
fn empty_text_succeeds_and_writes_nothing() {
    let mut none: Vec<i32> = Vec::new();
    assert_eq!(suffix_array_u8(b"", &mut none), Ok(()));
    assert!(none.is_empty());
    let mut spare = vec![9i32, 9, 9];
    assert_eq!(suffix_array_u8(b"", &mut spare), Ok(()));
    assert_eq!(spare, vec![9, 9, 9]);
}

#[test]
fn single_symbol_text() {
    let mut sa = vec![5i32; 1];
    assert_eq!(suffix_array_u8(b"x", &mut sa), Ok(()));
    assert_eq!(sa, vec![0]);
}

#[test]
fn identical_symbols_come_out_in_reverse() {
    let mut sa = vec![0i32; 6];
    assert_eq!(suffix_array_u8(b"aaaaaa", &mut sa), Ok(()));
    assert_eq!(sa, vec![5, 4, 3, 2, 1, 0]);
}

#[test]
fn spare_capacity_is_allowed() {
    let mut sa = vec![-1i32; 10];
    assert_eq!(suffix_array_u8(b"banana", &mut sa), Ok(()));
    assert_eq!(&sa[..6], &[5, 3, 1, 0, 4, 2]);
    assert_eq!(&sa[6..], &[-1, -1, -1, -1]);
}

#[test]
fn short_buffer_is_refused_without_a_write() {
    let text = *b"banana";
    let mut sa = vec![42i32; 5];
    assert_eq!(
        suffix_array_u8(&text, &mut sa),
        Err(ConstructionError::InsufficientOutputSpace)
    );
    assert_eq!(sa, vec![42; 5]);
    assert_eq!(&text, b"banana");
}

#[test]
fn short_buffer_is_refused_by_every_variant() {
    let mut narrow = vec![0i32; 2];
    let mut long = vec![0i64; 2];
    assert_eq!(
        suffix_array_u16(&[3, 2, 1], &mut narrow),
        Err(ConstructionError::InsufficientOutputSpace)
    );
    assert_eq!(
        suffix_array_i32(&mut [2, 1, 0], &mut narrow, 3),
        Err(ConstructionError::InsufficientOutputSpace)
    );
    assert_eq!(
        long_suffix_array_u8(b"abc", &mut long),
        Err(ConstructionError::InsufficientOutputSpace)
    );
    assert_eq!(
        long_suffix_array_u16(&[3, 2, 1], &mut long),
        Err(ConstructionError::InsufficientOutputSpace)
    );
    assert_eq!(
        long_suffix_array_i64(&mut [2, 1, 0], &mut long, 3),
        Err(ConstructionError::InsufficientOutputSpace)
    );
    assert_eq!(narrow, vec![0, 0]);
    assert_eq!(long, vec![0, 0]);
}

#[test]
fn short_buffer_comes_before_a_bad_alphabet() {
    let mut text = vec![5i32, 9, 5];
    let mut sa = vec![0i32; 2];
    assert_eq!(
        suffix_array_i32(&mut text, &mut sa, 0),
        Err(ConstructionError::InsufficientOutputSpace)
    );
}

#[test]
fn symbol_equal_to_alphabet_size_is_refused() {
    let mut text = vec![0i32, 3, 1, 2];
    let mut sa = vec![8i32; 4];
    assert_eq!(
        suffix_array_i32(&mut text, &mut sa, 3),
        Err(ConstructionError::InvalidAlphabetSize)
    );
    assert_eq!(text, vec![0, 3, 1, 2]);
    assert_eq!(sa, vec![8; 4]);
    let mut wide = vec![0i64, 3, 1, 2];
    let mut long = vec![8i64; 4];
    assert_eq!(
        long_suffix_array_i64(&mut wide, &mut long, 3),
        Err(ConstructionError::InvalidAlphabetSize)
    );
    assert_eq!(wide, vec![0, 3, 1, 2]);
    assert_eq!(long, vec![8; 4]);
}

#[test]
fn negative_symbol_is_refused() {
    let mut text = vec![1i32, -1, 0];
    let mut sa = vec![0i32; 3];
    assert_eq!(
        suffix_array_i32(&mut text, &mut sa, 10),
        Err(ConstructionError::InvalidAlphabetSize)
    );
    let mut wide = vec![1i64, i64::MIN, 0];
    let mut long = vec![0i64; 3];
    assert_eq!(
        long_suffix_array_i64(&mut wide, &mut long, 10),
        Err(ConstructionError::InvalidAlphabetSize)
    );
}

#[test]
fn alphabet_size_must_be_positive() {
    let mut sa = vec![0i32; 1];
    assert_eq!(
        suffix_array_i32(&mut [], &mut sa, 0),
        Err(ConstructionError::InvalidAlphabetSize)
    );
    assert_eq!(
        suffix_array_i32(&mut [0], &mut sa, -4),
        Err(ConstructionError::InvalidAlphabetSize)
    );
    let mut long = vec![0i64; 1];
    assert_eq!(
        long_suffix_array_i64(&mut [], &mut long, 0),
        Err(ConstructionError::InvalidAlphabetSize)
    );
    assert_eq!(
        long_suffix_array_i64(&mut [0], &mut long, i64::MIN),
        Err(ConstructionError::InvalidAlphabetSize)
    );
}

#[test]
fn integer_text_with_a_tight_alphabet() {
    // "banana" with a = 0, b = 1, n = 2
    let mut text = vec![1i32, 0, 2, 0, 2, 0];
    let mut sa = vec![0i32; 6];
    assert_eq!(suffix_array_i32(&mut text, &mut sa, 3), Ok(()));
    assert_eq!(sa, vec![5, 3, 1, 0, 4, 2]);
    assert_eq!(text, vec![1, 0, 2, 0, 2, 0]);
}

#[test]
fn alphabet_size_is_an_upper_bound() {
    let mut text = vec![1i32, 0, 2, 0, 2, 0];
    let mut sa = vec![0i32; 6];
    assert_eq!(suffix_array_i32(&mut text, &mut sa, i32::MAX), Ok(()));
    assert_eq!(sa, vec![5, 3, 1, 0, 4, 2]);
    let mut wide = vec![1i64, 0, 2, 0, 2, 0];
    let mut long = vec![0i64; 6];
    assert_eq!(long_suffix_array_i64(&mut wide, &mut long, i64::MAX), Ok(()));
    assert_eq!(long, vec![5, 3, 1, 0, 4, 2]);
}

#[test]
fn sparse_integer_symbols() {
    let mut text = vec![70_000i32, 3, 1_000_000, 3, 1_000_000, 3];
    let mut sa = vec![0i32; 6];
    assert_eq!(suffix_array_i32(&mut text, &mut sa, 1_000_001), Ok(()));
    assert_eq!(sa, vec![5, 3, 1, 0, 4, 2]);
}

#[test]
fn large_sparse_integer_symbols() {
    // symbols far apart and a text too short for a table over them
    let n = 50_000usize;
    let mut seed: u64 = 5;
    let mut text: Vec<i32> = (0..n)
        .map(|_| ((next_random(&mut seed) % 1000) as i32) * 2_000_000 + 123)
        .collect();
    let before = text.clone();
    let mut sa = vec![0i32; n];
    assert_eq!(suffix_array_i32(&mut text, &mut sa, i32::MAX), Ok(()));
    assert_eq!(text, before);
    for i in 0..n - 1 {
        assert!(text[sa[i] as usize..] < text[sa[i + 1] as usize..]);
    }
    let mut wide: Vec<i64> = before.iter().map(|c| (*c as i64) << 31).collect();
    let mut long = vec![0i64; n];
    assert_eq!(long_suffix_array_i64(&mut wide, &mut long, i64::MAX), Ok(()));
    let narrowed: Vec<i32> = long.iter().map(|p| *p as i32).collect();
    assert_eq!(narrowed, sa);
}

#[test]
fn all_symbols_different() {
    // a text that holds every symbol below its length once: the suffix array
    // is the inverse of the text
    let n = 100_003usize;
    let mut text: Vec<i32> = (0..n).map(|i| ((i * 7919) % n) as i32).collect();
    let before = text.clone();
    let mut sa = vec![0i32; n];
    assert_eq!(suffix_array_i32(&mut text, &mut sa, n as i32), Ok(()));
    assert_eq!(text, before);
    for (i, c) in text.iter().enumerate() {
        assert_eq!(sa[*c as usize] as usize, i);
    }
}

#[test]
fn a_fibonacci_word() {
    let mut a: Vec<u8> = vec![b'a'];
    let mut b: Vec<u8> = vec![b'a', b'b'];
    while b.len() < 150_000 {
        let mut next = b.clone();
        next.extend_from_slice(&a);
        a = b;
        b = next;
    }
    let n = b.len();
    let mut sa = vec![0i64; n];
    assert_eq!(long_suffix_array_u8(&b, &mut sa), Ok(()));
    let mut seen = vec![false; n];
    for p in &sa {
        assert!(!seen[*p as usize]);
        seen[*p as usize] = true;
    }
    let mut inverse = vec![0usize; n];
    for (i, p) in sa.iter().enumerate() {
        inverse[*p as usize] = i;
    }
    // neighbours are in order by first symbol and then by what follows
    for i in 0..n - 1 {
        let (p, q) = (sa[i] as usize, sa[i + 1] as usize);
        assert!(b[p] <= b[q]);
        if b[p] == b[q] {
            assert!(p + 1 == n || (q + 1 < n && inverse[p + 1] < inverse[q + 1]));
        }
    }
}

#[test]
fn sixteen_bit_symbols() {
    let text: Vec<u16> = vec![300, 7, 65535, 7, 65535, 7];
    let mut sa = vec![0i32; 6];
    assert_eq!(suffix_array_u16(&text, &mut sa), Ok(()));
    assert_eq!(sa, vec![5, 3, 1, 0, 4, 2]);
    let mut long = vec![0i64; 6];
    assert_eq!(long_suffix_array_u16(&text, &mut long), Ok(()));
    assert_eq!(long, vec![5, 3, 1, 0, 4, 2]);
}

#[test]
fn long_indices() {
    let mut sa = vec![0i64; 11];
    assert_eq!(long_suffix_array_u8(b"mississippi", &mut sa), Ok(()));
    assert_eq!(sa, vec![10, 7, 4, 1, 0, 9, 8, 6, 3, 5, 2]);
    let mut text = vec![1i64, 0, 2, 0, 2, 0];
    let mut out = vec![0i64; 6];
    assert_eq!(long_suffix_array_i64(&mut text, &mut out, 3), Ok(()));
    assert_eq!(out, vec![5, 3, 1, 0, 4, 2]);
    assert_eq!(text, vec![1, 0, 2, 0, 2, 0]);
}

#[test]
fn two_runs_agree() {
    let text = b"abracadabra_abracadabra";
    let mut first = vec![0i32; text.len()];
    let mut second = vec![-1i32; text.len()];
    assert_eq!(suffix_array_u8(text, &mut first), Ok(()));
    assert_eq!(suffix_array_u8(text, &mut second), Ok(()));
    assert_eq!(first, second);
}

#[test]
fn result_is_a_permutation_in_suffix_order() {
    let text = b"the quick brown fox jumps over the lazy dog, the end";
    let n = text.len();
    let mut sa = vec![0i32; n];
    assert_eq!(suffix_array_u8(text, &mut sa), Ok(()));
    let mut seen = vec![false; n];
    for p in &sa {
        assert!(0 <= *p && (*p as usize) < n);
        assert!(!seen[*p as usize]);
        seen[*p as usize] = true;
    }
    assert!(seen.iter().all(|s| *s));
    for i in 0..n - 1 {
        assert!(text[sa[i] as usize..] < text[sa[i + 1] as usize..]);
    }
}

#[test]
fn random_texts_agree_with_sorting() {
    let mut seed: u64 = 2024;
    for round in 0..400 {
        let len = next_random(&mut seed) as usize % 60;
        let sigma = 1 + (round % 5) as u64;
        let text: Vec<u8> = (0..len)
            .map(|_| b'a' + (next_random(&mut seed) % sigma) as u8)
            .collect();
        let mut sa = vec![0i32; len];
        assert_eq!(suffix_array_u8(&text, &mut sa), Ok(()));
        assert_eq!(sa, by_sorting_u8(&text));
        let mut long = vec![0i64; len];
        assert_eq!(long_suffix_array_u8(&text, &mut long), Ok(()));
        let narrowed: Vec<i32> = long.iter().map(|p| *p as i32).collect();
        assert_eq!(narrowed, sa);
        let mut numbers: Vec<i32> = text.iter().map(|c| (*c - b'a') as i32).collect();
        let mut from_numbers = vec![0i32; len];
        assert_eq!(
            suffix_array_i32(&mut numbers, &mut from_numbers, sigma as i32),
            Ok(())
        );
        assert_eq!(from_numbers, sa);
    }
}

#[test]
fn a_long_periodic_text() {
    let n = 200_000usize;
    let text: Vec<u8> = (0..n).map(|i| if i % 2 == 0 { b'a' } else { b'b' }).collect();
    let mut sa = vec![0i32; n];
    assert_eq!(suffix_array_u8(&text, &mut sa), Ok(()));
    // the suffixes that start with 'a', shortest first, then those that start with 'b'
    for i in 0..n / 2 {
        assert_eq!(sa[i] as usize, n - 2 - 2 * i);
        assert_eq!(sa[n / 2 + i] as usize, n - 1 - 2 * i);
    }
}

#[test]
fn a_long_random_text() {
    let n = 300_000usize;
    let mut seed: u64 = 99;
    let text: Vec<u8> = (0..n).map(|_| b'a' + (next_random(&mut seed) % 4) as u8).collect();
    let mut sa = vec![0i32; n];
    assert_eq!(suffix_array_u8(&text, &mut sa), Ok(()));
    let mut seen = vec![false; n];
    for p in &sa {
        assert!(!seen[*p as usize]);
        seen[*p as usize] = true;
    }
    for i in 0..n - 1 {
        assert!(text[sa[i] as usize..] < text[sa[i + 1] as usize..]);
    }
}

#[test]
fn a_long_text_of_nested_repeats() {
    // each round doubles the text and appends a fresh symbol
    let mut text: Vec<i32> = vec![0];
    let mut fresh = 1;
    while text.len() < 100_000 {
        let copy = text.clone();
        text.extend_from_slice(&copy);
        text.push(fresh);
        fresh += 1;
    }
    let n = text.len();
    let before = text.clone();
    let mut sa = vec![0i32; n];
    assert_eq!(suffix_array_i32(&mut text, &mut sa, fresh), Ok(()));
    assert_eq!(text, before);
    for i in 0..n - 1 {
        assert!(text[sa[i] as usize..] < text[sa[i + 1] as usize..]);
    }
}
