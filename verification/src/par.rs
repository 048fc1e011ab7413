//! The entry points under a choice of execution strategy.
//!
//! The construction has one strategy, the sequential one, and it is the
//! default: the functions here select it. Their results are therefore those
//! of the functions at the crate root, and the same from run to run.

use vstd::prelude::*;
use crate::error::ConstructionError;
use crate::order::is_suffix_array;
use crate::views::{
    is_alphabet_of, positions_i32, positions_i64, symbols_i32, symbols_i64, symbols_u16, symbols_u8,
};

verus! {

/// Builds the suffix array of a byte text in a buffer of 32-bit indices.
///
/// On success the first `text.len()` entries of `sa` are the positions of the
/// text in ascending order of their suffixes; what lies behind them in `sa` is
/// left as it was. On an error `sa` is untouched.
pub fn suffix_array_u8(text: &[u8], sa: &mut [i32]) -> (res: Result<(), ConstructionError>)
    ensures
        final(sa)@.len() == old(sa)@.len(),
        old(sa)@.len() < text@.len() ==> res == Err::<(), ConstructionError>(
            ConstructionError::InsufficientOutputSpace,
        ),
        old(sa)@.len() >= text@.len() && text@.len() > i32::MAX ==> res == Err::<
            (),
            ConstructionError,
        >(ConstructionError::LengthOverflow),
        old(sa)@.len() >= text@.len() && text@.len() <= i32::MAX ==> res is Ok,
        res is Ok ==> is_suffix_array(
            symbols_u8(text@),
            positions_i32(final(sa)@.take(text@.len() as int)),
        ),
        res is Err ==> final(sa)@ == old(sa)@,
        forall|i: int| text@.len() <= i < old(sa)@.len() ==> final(sa)@[i] == old(sa)@[i],
        res != Err::<(), ConstructionError>(ConstructionError::InternalConstructionFailure),
{
    crate::suffix_array_u8(text, sa)
}

/// Builds the suffix array of a text of 16-bit symbols in a buffer of 32-bit
/// indices.
///
/// On success the first `text.len()` entries of `sa` are the positions of the
/// text in ascending order of their suffixes; what lies behind them in `sa` is
/// left as it was. On an error `sa` is untouched.
pub fn suffix_array_u16(text: &[u16], sa: &mut [i32]) -> (res: Result<(), ConstructionError>)
    ensures
        final(sa)@.len() == old(sa)@.len(),
        old(sa)@.len() < text@.len() ==> res == Err::<(), ConstructionError>(
            ConstructionError::InsufficientOutputSpace,
        ),
        old(sa)@.len() >= text@.len() && text@.len() > i32::MAX ==> res == Err::<
            (),
            ConstructionError,
        >(ConstructionError::LengthOverflow),
        old(sa)@.len() >= text@.len() && text@.len() <= i32::MAX ==> res is Ok,
        res is Ok ==> is_suffix_array(
            symbols_u16(text@),
            positions_i32(final(sa)@.take(text@.len() as int)),
        ),
        res is Err ==> final(sa)@ == old(sa)@,
        forall|i: int| text@.len() <= i < old(sa)@.len() ==> final(sa)@[i] == old(sa)@[i],
        res != Err::<(), ConstructionError>(ConstructionError::InternalConstructionFailure),
{
    crate::suffix_array_u16(text, sa)
}

/// Builds the suffix array of a text over the integer alphabet
/// `[0, alphabet_size)` in a buffer of 32-bit indices.
///
/// On success the first `text.len()` entries of `sa` are the positions of the
/// text in ascending order of their suffixes; what lies behind them in `sa` is
/// left as it was. On an error `sa` is untouched.
/// `alphabet_size` is an upper bound on the symbols, not their number: every
/// symbol must be at least `0` and less than `alphabet_size`. The text is never
/// written to.
pub fn suffix_array_i32(
    text: &mut [i32],
    sa: &mut [i32],
    alphabet_size: i32,
) -> (res: Result<(), ConstructionError>)
    ensures
        final(text)@ == old(text)@,
        final(sa)@.len() == old(sa)@.len(),
        old(sa)@.len() < old(text)@.len() ==> res == Err::<(), ConstructionError>(
            ConstructionError::InsufficientOutputSpace,
        ),
        old(sa)@.len() >= old(text)@.len() && old(text)@.len() > i32::MAX ==> res == Err::<
            (),
            ConstructionError,
        >(ConstructionError::LengthOverflow),
        old(sa)@.len() >= old(text)@.len() && old(text)@.len() <= i32::MAX && !is_alphabet_of(
            symbols_i32(old(text)@),
            alphabet_size as int,
        ) ==> res == Err::<(), ConstructionError>(ConstructionError::InvalidAlphabetSize),
        old(sa)@.len() >= old(text)@.len() && old(text)@.len() <= i32::MAX && is_alphabet_of(
            symbols_i32(old(text)@),
            alphabet_size as int,
        ) ==> res is Ok,
        res is Ok ==> is_suffix_array(
            symbols_i32(old(text)@),
            positions_i32(final(sa)@.take(old(text)@.len() as int)),
        ),
        res is Err ==> final(sa)@ == old(sa)@,
        forall|i: int| old(text)@.len() <= i < old(sa)@.len() ==> final(sa)@[i] == old(sa)@[i],
        res != Err::<(), ConstructionError>(ConstructionError::InternalConstructionFailure),
{
    crate::suffix_array_i32(text, sa, alphabet_size)
}

/// Builds the suffix array of a byte text in a buffer of 64-bit indices.
///
/// On success the first `text.len()` entries of `sa` are the positions of the
/// text in ascending order of their suffixes; what lies behind them in `sa` is
/// left as it was. On an error `sa` is untouched.
pub fn long_suffix_array_u8(text: &[u8], sa: &mut [i64]) -> (res: Result<(), ConstructionError>)
    ensures
        final(sa)@.len() == old(sa)@.len(),
        old(sa)@.len() < text@.len() ==> res == Err::<(), ConstructionError>(
            ConstructionError::InsufficientOutputSpace,
        ),
        old(sa)@.len() >= text@.len() && text@.len() > i64::MAX ==> res == Err::<
            (),
            ConstructionError,
        >(ConstructionError::LengthOverflow),
        old(sa)@.len() >= text@.len() && text@.len() <= i64::MAX ==> res is Ok,
        res is Ok ==> is_suffix_array(
            symbols_u8(text@),
            positions_i64(final(sa)@.take(text@.len() as int)),
        ),
        res is Err ==> final(sa)@ == old(sa)@,
        forall|i: int| text@.len() <= i < old(sa)@.len() ==> final(sa)@[i] == old(sa)@[i],
        res != Err::<(), ConstructionError>(ConstructionError::InternalConstructionFailure),
{
    crate::long_suffix_array_u8(text, sa)
}

/// Builds the suffix array of a text of 16-bit symbols in a buffer of 64-bit
/// indices.
///
/// On success the first `text.len()` entries of `sa` are the positions of the
/// text in ascending order of their suffixes; what lies behind them in `sa` is
/// left as it was. On an error `sa` is untouched.
pub fn long_suffix_array_u16(text: &[u16], sa: &mut [i64]) -> (res: Result<(), ConstructionError>)
    ensures
        final(sa)@.len() == old(sa)@.len(),
        old(sa)@.len() < text@.len() ==> res == Err::<(), ConstructionError>(
            ConstructionError::InsufficientOutputSpace,
        ),
        old(sa)@.len() >= text@.len() && text@.len() > i64::MAX ==> res == Err::<
            (),
            ConstructionError,
        >(ConstructionError::LengthOverflow),
        old(sa)@.len() >= text@.len() && text@.len() <= i64::MAX ==> res is Ok,
        res is Ok ==> is_suffix_array(
            symbols_u16(text@),
            positions_i64(final(sa)@.take(text@.len() as int)),
        ),
        res is Err ==> final(sa)@ == old(sa)@,
        forall|i: int| text@.len() <= i < old(sa)@.len() ==> final(sa)@[i] == old(sa)@[i],
        res != Err::<(), ConstructionError>(ConstructionError::InternalConstructionFailure),
{
    crate::long_suffix_array_u16(text, sa)
}

/// Builds the suffix array of a text over the integer alphabet
/// `[0, alphabet_size)` in a buffer of 64-bit indices.
///
/// On success the first `text.len()` entries of `sa` are the positions of the
/// text in ascending order of their suffixes; what lies behind them in `sa` is
/// left as it was. On an error `sa` is untouched.
/// `alphabet_size` is an upper bound on the symbols, not their number: every
/// symbol must be at least `0` and less than `alphabet_size`. The text is never
/// written to.
pub fn long_suffix_array_i64(
    text: &mut [i64],
    sa: &mut [i64],
    alphabet_size: i64,
) -> (res: Result<(), ConstructionError>)
    ensures
        final(text)@ == old(text)@,
        final(sa)@.len() == old(sa)@.len(),
        old(sa)@.len() < old(text)@.len() ==> res == Err::<(), ConstructionError>(
            ConstructionError::InsufficientOutputSpace,
        ),
        old(sa)@.len() >= old(text)@.len() && old(text)@.len() > i64::MAX ==> res == Err::<
            (),
            ConstructionError,
        >(ConstructionError::LengthOverflow),
        old(sa)@.len() >= old(text)@.len() && old(text)@.len() <= i64::MAX && !is_alphabet_of(
            symbols_i64(old(text)@),
            alphabet_size as int,
        ) ==> res == Err::<(), ConstructionError>(ConstructionError::InvalidAlphabetSize),
        old(sa)@.len() >= old(text)@.len() && old(text)@.len() <= i64::MAX && is_alphabet_of(
            symbols_i64(old(text)@),
            alphabet_size as int,
        ) ==> res is Ok,
        res is Ok ==> is_suffix_array(
            symbols_i64(old(text)@),
            positions_i64(final(sa)@.take(old(text)@.len() as int)),
        ),
        res is Err ==> final(sa)@ == old(sa)@,
        forall|i: int| old(text)@.len() <= i < old(sa)@.len() ==> final(sa)@[i] == old(sa)@[i],
        res != Err::<(), ConstructionError>(ConstructionError::InternalConstructionFailure),
{
    crate::long_suffix_array_i64(text, sa, alphabet_size)
}

} // verus!
