//! Suffix array construction by induced sorting, proved correct.
//!
//! Given a text, the entry points fill a buffer with the positions of the
//! text in ascending lexicographic order of the suffixes that start there;
//! the end of the text sorts before every symbol. There is one entry point
//! for each kind of symbol (bytes, 16-bit symbols, integers below a stated
//! alphabet size) and each width of index (32 or 64 bits).
//!
//! The modules, from the statement to the stages of the construction:
//!
//! - `order`: the order of suffixes, and what the suffix array of a text is;
//! - `error`, `views`, `convert`: the errors, and how texts and buffers are read;
//! - `buckets`, `classify`, `layout`: symbol counts, types of positions, and
//!   the parts of the array that belong to each symbol and type;
//! - `seeds`, `lpass`, `spass`, `round`: one round of induced sorting;
//! - `keys`, `reduce`, `naming`: the order of the first round, the names of
//!   the LMS substrings, and why the reduced text stands for the text;
//! - `compact`: renaming the symbols of a wide alphabet;
//! - `solver`: the two rounds and the recursion between them;
//! - `validate`: deciding in linear time whether an array is the suffix array;
//! - `par`: the entry points under a choice of execution strategy.

use vstd::prelude::*;
use crate::convert::{
    lemma_symbol_bound, store_i32, store_i64, widen_i32, widen_i64, widen_u16, widen_u8,
};
use crate::error::ConstructionError;
use crate::order::is_suffix_array;
use crate::solver::suffix_sort;
use crate::views::{
    is_alphabet_of, positions, positions_i32, positions_i64, symbols, symbols_i32, symbols_i64,
    symbols_u16, symbols_u8,
};

pub mod buckets;
pub mod classify;
pub mod compact;
pub mod convert;
pub mod error;
pub mod keys;
pub mod layout;
pub mod lpass;
pub mod naming;
pub mod order;
pub mod par;
pub mod reduce;
pub mod round;
pub mod seeds;
pub mod solver;
pub mod spass;
pub mod validate;
pub mod views;


verus! {

/// Builds the suffix array of a byte text in a buffer of 32-bit indices.
///
/// On success the first `text.len()` entries of `sa` are the positions of the
/// text in ascending order of their suffixes; what lies behind them in `sa` is
/// left as it was. On an error `sa` is untouched.
pub fn suffix_array_u8(text: &[u8], sa: &mut [i32]) -> (res: Result<(), ConstructionError>)
    ensures
        final(sa)@.len() == old(sa)@.len(),
        old(sa)@.len() < text@.len() ==> res == Err::<(), ConstructionError>(
            ConstructionError::InsufficientOutputSpace,
        ),
        old(sa)@.len() >= text@.len() && text@.len() > i32::MAX ==> res == Err::<
            (),
            ConstructionError,
        >(ConstructionError::LengthOverflow),
        old(sa)@.len() >= text@.len() && text@.len() <= i32::MAX ==> res is Ok,
        res is Ok ==> is_suffix_array(
            symbols_u8(text@),
            positions_i32(final(sa)@.take(text@.len() as int)),
        ),
        res is Err ==> final(sa)@ == old(sa)@,
        forall|i: int| text@.len() <= i < old(sa)@.len() ==> final(sa)@[i] == old(sa)@[i],
        res != Err::<(), ConstructionError>(ConstructionError::InternalConstructionFailure),
{
    let n = text.len();
    if sa.len() < n {
        return Err(ConstructionError::InsufficientOutputSpace);
    }
    if n > i32::MAX as usize {
        return Err(ConstructionError::LengthOverflow);
    }
    let wide = widen_u8(text);
    proof {
        assert forall|i: int| 0 <= i < wide@.len() implies #[trigger] wide@[i] < 256 by {
            assert(symbols(wide@).len() == wide@.len());
            assert(symbols(wide@)[i] == wide@[i]);
            assert(symbols_u8(text@)[i] == text@[i]);
        }
    }
    let found = suffix_sort(wide.as_slice(), 256);
    proof {
        assert forall|i: int| 0 <= i < found@.len() implies #[trigger] found@[i] < n by {
            assert(positions(found@)[i] < n);
        }
    }
    store_i32(sa, found.as_slice());
    Ok(())
}

/// Builds the suffix array of a text of 16-bit symbols in a buffer of 32-bit
/// indices.
///
/// On success the first `text.len()` entries of `sa` are the positions of the
/// text in ascending order of their suffixes; what lies behind them in `sa` is
/// left as it was. On an error `sa` is untouched.
pub fn suffix_array_u16(text: &[u16], sa: &mut [i32]) -> (res: Result<(), ConstructionError>)
    ensures
        final(sa)@.len() == old(sa)@.len(),
        old(sa)@.len() < text@.len() ==> res == Err::<(), ConstructionError>(
            ConstructionError::InsufficientOutputSpace,
        ),
        old(sa)@.len() >= text@.len() && text@.len() > i32::MAX ==> res == Err::<
            (),
            ConstructionError,
        >(ConstructionError::LengthOverflow),
        old(sa)@.len() >= text@.len() && text@.len() <= i32::MAX ==> res is Ok,
        res is Ok ==> is_suffix_array(
            symbols_u16(text@),
            positions_i32(final(sa)@.take(text@.len() as int)),
        ),
        res is Err ==> final(sa)@ == old(sa)@,
        forall|i: int| text@.len() <= i < old(sa)@.len() ==> final(sa)@[i] == old(sa)@[i],
        res != Err::<(), ConstructionError>(ConstructionError::InternalConstructionFailure),
{
    let n = text.len();
    if sa.len() < n {
        return Err(ConstructionError::InsufficientOutputSpace);
    }
    if n > i32::MAX as usize {
        return Err(ConstructionError::LengthOverflow);
    }
    let wide = widen_u16(text);
    proof {
        assert forall|i: int| 0 <= i < wide@.len() implies #[trigger] wide@[i] < 65536 by {
            assert(symbols(wide@).len() == wide@.len());
            assert(symbols(wide@)[i] == wide@[i]);
            assert(symbols_u16(text@)[i] == text@[i]);
        }
    }
    let found = suffix_sort(wide.as_slice(), 65536);
    proof {
        assert forall|i: int| 0 <= i < found@.len() implies #[trigger] found@[i] < n by {
            assert(positions(found@)[i] < n);
        }
    }
    store_i32(sa, found.as_slice());
    Ok(())
}

/// Builds the suffix array of a text over the integer alphabet
/// `[0, alphabet_size)` in a buffer of 32-bit indices.
///
/// On success the first `text.len()` entries of `sa` are the positions of the
/// text in ascending order of their suffixes; what lies behind them in `sa` is
/// left as it was. On an error `sa` is untouched.
/// `alphabet_size` is an upper bound on the symbols, not their number: every
/// symbol must be at least `0` and less than `alphabet_size`. The text is never
/// written to.
pub fn suffix_array_i32(
    text: &mut [i32],
    sa: &mut [i32],
    alphabet_size: i32,
) -> (res: Result<(), ConstructionError>)
    ensures
        final(text)@ == old(text)@,
        final(sa)@.len() == old(sa)@.len(),
        old(sa)@.len() < old(text)@.len() ==> res == Err::<(), ConstructionError>(
            ConstructionError::InsufficientOutputSpace,
        ),
        old(sa)@.len() >= old(text)@.len() && old(text)@.len() > i32::MAX ==> res == Err::<
            (),
            ConstructionError,
        >(ConstructionError::LengthOverflow),
        old(sa)@.len() >= old(text)@.len() && old(text)@.len() <= i32::MAX && !is_alphabet_of(
            symbols_i32(old(text)@),
            alphabet_size as int,
        ) ==> res == Err::<(), ConstructionError>(ConstructionError::InvalidAlphabetSize),
        old(sa)@.len() >= old(text)@.len() && old(text)@.len() <= i32::MAX && is_alphabet_of(
            symbols_i32(old(text)@),
            alphabet_size as int,
        ) ==> res is Ok,
        res is Ok ==> is_suffix_array(
            symbols_i32(old(text)@),
            positions_i32(final(sa)@.take(old(text)@.len() as int)),
        ),
        res is Err ==> final(sa)@ == old(sa)@,
        forall|i: int| old(text)@.len() <= i < old(sa)@.len() ==> final(sa)@[i] == old(sa)@[i],
        res != Err::<(), ConstructionError>(ConstructionError::InternalConstructionFailure),
{
    let n = text.len();
    if sa.len() < n {
        return Err(ConstructionError::InsufficientOutputSpace);
    }
    if n > i32::MAX as usize {
        return Err(ConstructionError::LengthOverflow);
    }
    if alphabet_size <= 0 {
        return Err(ConstructionError::InvalidAlphabetSize);
    }
    let (wide, bound) = match widen_i32(text, alphabet_size) {
        Some(pair) => pair,
        None => {
            return Err(ConstructionError::InvalidAlphabetSize);
        },
    };
    proof {
        lemma_symbol_bound(symbols_i32(text@), n as int);
        assert forall|i: int| 0 <= i < wide@.len() implies #[trigger] wide@[i] < bound by {
            assert(symbols(wide@)[i] == symbols_i32(text@)[i]);
        }
    }
    let found = suffix_sort(wide.as_slice(), bound);
    proof {
        assert forall|i: int| 0 <= i < found@.len() implies #[trigger] found@[i] < n by {
            assert(positions(found@)[i] < n);
        }
    }
    store_i32(sa, found.as_slice());
    Ok(())
}

/// Builds the suffix array of a byte text in a buffer of 64-bit indices.
///
/// On success the first `text.len()` entries of `sa` are the positions of the
/// text in ascending order of their suffixes; what lies behind them in `sa` is
/// left as it was. On an error `sa` is untouched.
pub fn long_suffix_array_u8(text: &[u8], sa: &mut [i64]) -> (res: Result<(), ConstructionError>)
    ensures
        final(sa)@.len() == old(sa)@.len(),
        old(sa)@.len() < text@.len() ==> res == Err::<(), ConstructionError>(
            ConstructionError::InsufficientOutputSpace,
        ),
        old(sa)@.len() >= text@.len() && text@.len() > i64::MAX ==> res == Err::<
            (),
            ConstructionError,
        >(ConstructionError::LengthOverflow),
        old(sa)@.len() >= text@.len() && text@.len() <= i64::MAX ==> res is Ok,
        res is Ok ==> is_suffix_array(
            symbols_u8(text@),
            positions_i64(final(sa)@.take(text@.len() as int)),
        ),
        res is Err ==> final(sa)@ == old(sa)@,
        forall|i: int| text@.len() <= i < old(sa)@.len() ==> final(sa)@[i] == old(sa)@[i],
        res != Err::<(), ConstructionError>(ConstructionError::InternalConstructionFailure),
{
    let n = text.len();
    if sa.len() < n {
        return Err(ConstructionError::InsufficientOutputSpace);
    }
    if n as u64 > i64::MAX as u64 {
        return Err(ConstructionError::LengthOverflow);
    }
    let wide = widen_u8(text);
    proof {
        assert forall|i: int| 0 <= i < wide@.len() implies #[trigger] wide@[i] < 256 by {
            assert(symbols(wide@).len() == wide@.len());
            assert(symbols(wide@)[i] == wide@[i]);
            assert(symbols_u8(text@)[i] == text@[i]);
        }
    }
    let found = suffix_sort(wide.as_slice(), 256);
    proof {
        assert forall|i: int| 0 <= i < found@.len() implies #[trigger] found@[i] < n by {
            assert(positions(found@)[i] < n);
        }
    }
    store_i64(sa, found.as_slice());
    Ok(())
}

/// Builds the suffix array of a text of 16-bit symbols in a buffer of 64-bit
/// indices.
///
/// On success the first `text.len()` entries of `sa` are the positions of the
/// text in ascending order of their suffixes; what lies behind them in `sa` is
/// left as it was. On an error `sa` is untouched.
pub fn long_suffix_array_u16(text: &[u16], sa: &mut [i64]) -> (res: Result<(), ConstructionError>)
    ensures
        final(sa)@.len() == old(sa)@.len(),
        old(sa)@.len() < text@.len() ==> res == Err::<(), ConstructionError>(
            ConstructionError::InsufficientOutputSpace,
        ),
        old(sa)@.len() >= text@.len() && text@.len() > i64::MAX ==> res == Err::<
            (),
            ConstructionError,
        >(ConstructionError::LengthOverflow),
        old(sa)@.len() >= text@.len() && text@.len() <= i64::MAX ==> res is Ok,
        res is Ok ==> is_suffix_array(
            symbols_u16(text@),
            positions_i64(final(sa)@.take(text@.len() as int)),
        ),
        res is Err ==> final(sa)@ == old(sa)@,
        forall|i: int| text@.len() <= i < old(sa)@.len() ==> final(sa)@[i] == old(sa)@[i],
        res != Err::<(), ConstructionError>(ConstructionError::InternalConstructionFailure),
{
    let n = text.len();
    if sa.len() < n {
        return Err(ConstructionError::InsufficientOutputSpace);
    }
    if n as u64 > i64::MAX as u64 {
        return Err(ConstructionError::LengthOverflow);
    }
    let wide = widen_u16(text);
    proof {
        assert forall|i: int| 0 <= i < wide@.len() implies #[trigger] wide@[i] < 65536 by {
            assert(symbols(wide@).len() == wide@.len());
            assert(symbols(wide@)[i] == wide@[i]);
            assert(symbols_u16(text@)[i] == text@[i]);
        }
    }
    let found = suffix_sort(wide.as_slice(), 65536);
    proof {
        assert forall|i: int| 0 <= i < found@.len() implies #[trigger] found@[i] < n by {
            assert(positions(found@)[i] < n);
        }
    }
    store_i64(sa, found.as_slice());
    Ok(())
}

/// Builds the suffix array of a text over the integer alphabet
/// `[0, alphabet_size)` in a buffer of 64-bit indices.
///
/// On success the first `text.len()` entries of `sa` are the positions of the
/// text in ascending order of their suffixes; what lies behind them in `sa` is
/// left as it was. On an error `sa` is untouched.
/// `alphabet_size` is an upper bound on the symbols, not their number: every
/// symbol must be at least `0` and less than `alphabet_size`. The text is never
/// written to.
pub fn long_suffix_array_i64(
    text: &mut [i64],
    sa: &mut [i64],
    alphabet_size: i64,
) -> (res: Result<(), ConstructionError>)
    ensures
        final(text)@ == old(text)@,
        final(sa)@.len() == old(sa)@.len(),
        old(sa)@.len() < old(text)@.len() ==> res == Err::<(), ConstructionError>(
            ConstructionError::InsufficientOutputSpace,
        ),
        old(sa)@.len() >= old(text)@.len() && old(text)@.len() > i64::MAX ==> res == Err::<
            (),
            ConstructionError,
        >(ConstructionError::LengthOverflow),
        old(sa)@.len() >= old(text)@.len() && old(text)@.len() <= i64::MAX && !is_alphabet_of(
            symbols_i64(old(text)@),
            alphabet_size as int,
        ) ==> res == Err::<(), ConstructionError>(ConstructionError::InvalidAlphabetSize),
        old(sa)@.len() >= old(text)@.len() && old(text)@.len() <= i64::MAX && is_alphabet_of(
            symbols_i64(old(text)@),
            alphabet_size as int,
        ) ==> res is Ok,
        res is Ok ==> is_suffix_array(
            symbols_i64(old(text)@),
            positions_i64(final(sa)@.take(old(text)@.len() as int)),
        ),
        res is Err ==> final(sa)@ == old(sa)@,
        forall|i: int| old(text)@.len() <= i < old(sa)@.len() ==> final(sa)@[i] == old(sa)@[i],
        res != Err::<(), ConstructionError>(ConstructionError::InternalConstructionFailure),
{
    let n = text.len();
    if sa.len() < n {
        return Err(ConstructionError::InsufficientOutputSpace);
    }
    if n as u64 > i64::MAX as u64 {
        return Err(ConstructionError::LengthOverflow);
    }
    if alphabet_size <= 0 {
        return Err(ConstructionError::InvalidAlphabetSize);
    }
    let (wide, bound) = match widen_i64(text, alphabet_size) {
        Some(pair) => pair,
        None => {
            return Err(ConstructionError::InvalidAlphabetSize);
        },
    };
    proof {
        lemma_symbol_bound(symbols_i64(text@), n as int);
        assert forall|i: int| 0 <= i < wide@.len() implies #[trigger] wide@[i] < bound by {
            assert(symbols(wide@)[i] == symbols_i64(text@)[i]);
        }
    }
    let found = suffix_sort(wide.as_slice(), bound);
    proof {
        assert forall|i: int| 0 <= i < found@.len() implies #[trigger] found@[i] < n by {
            assert(positions(found@)[i] < n);
        }
    }
    store_i64(sa, found.as_slice());
    Ok(())
}

} // verus!
