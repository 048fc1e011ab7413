use sais::error::ConstructionError;
use sais::par;

#[test]
fn default_strategy_gives_the_same_arrays() {
    let text = b"mississippi";
    let mut plain = vec![0i32; 11];
    let mut chosen = vec![0i32; 11];
    assert_eq!(sais::suffix_array_u8(text, &mut plain), Ok(()));
    assert_eq!(par::suffix_array_u8(text, &mut chosen), Ok(()));
    assert_eq!(plain, chosen);
    assert_eq!(chosen, vec![10, 7, 4, 1, 0, 9, 8, 6, 3, 5, 2]);
}

#[test]
fn default_strategy_for_every_variant() {
    let wide: Vec<u16> = vec![300, 7, 65535, 7, 65535, 7];
    let expected32 = vec![5i32, 3, 1, 0, 4, 2];
    let expected64 = vec![5i64, 3, 1, 0, 4, 2];
    let mut sa32 = vec![0i32; 6];
    let mut sa64 = vec![0i64; 6];

    assert_eq!(par::suffix_array_u16(&wide, &mut sa32), Ok(()));
    assert_eq!(sa32, expected32);
    sa32.fill(0);
    assert_eq!(par::suffix_array_i32(&mut [1, 0, 2, 0, 2, 0], &mut sa32, 3), Ok(()));
    assert_eq!(sa32, expected32);

    assert_eq!(par::long_suffix_array_u8(b"banana", &mut sa64), Ok(()));
    assert_eq!(sa64, expected64);
    sa64.fill(0);
    assert_eq!(par::long_suffix_array_u16(&wide, &mut sa64), Ok(()));
    assert_eq!(sa64, expected64);
    sa64.fill(0);
    assert_eq!(par::long_suffix_array_i64(&mut [1, 0, 2, 0, 2, 0], &mut sa64, 3), Ok(()));
    assert_eq!(sa64, expected64);
}

#[test]
fn default_strategy_reports_the_same_errors() {
    let mut short = vec![0i32; 2];
    assert_eq!(
        par::suffix_array_u8(b"abc", &mut short),
        Err(ConstructionError::InsufficientOutputSpace)
    );
    let mut sa = vec![0i32; 3];
    assert_eq!(
        par::suffix_array_i32(&mut [0, 1, 2], &mut sa, 2),
        Err(ConstructionError::InvalidAlphabetSize)
    );
    let mut long = vec![0i64; 3];
    assert_eq!(
        par::long_suffix_array_i64(&mut [0, 1, 2], &mut long, 0),
        Err(ConstructionError::InvalidAlphabetSize)
    );
}
