//! How executable texts and index buffers are read as mathematical sequences.

use vstd::prelude::*;

verus! {

/// Every symbol of `t` lies in the alphabet `[0, k)`.
pub open spec fn is_text_over(t: Seq<int>, k: int) -> bool {
    forall|i: int| 0 <= i < t.len() ==> 0 <= #[trigger] t[i] < k
}

/// `alphabet_size` is positive and every symbol of `t` lies below it.
pub open spec fn is_alphabet_of(t: Seq<int>, alphabet_size: int) -> bool {
    alphabet_size > 0 && is_text_over(t, alphabet_size)
}

/// The symbols of a text held in 64-bit words.
pub open spec fn symbols(t: Seq<u64>) -> Seq<int> {
    t.map_values(|c: u64| c as int)
}

/// The positions held in a buffer of machine-sized indices.
pub open spec fn positions(sa: Seq<usize>) -> Seq<int> {
    sa.map_values(|p: usize| p as int)
}

/// The symbols of a byte text.
pub open spec fn symbols_u8(t: Seq<u8>) -> Seq<int> {
    t.map_values(|c: u8| c as int)
}

/// The symbols of a text of 16-bit symbols.
pub open spec fn symbols_u16(t: Seq<u16>) -> Seq<int> {
    t.map_values(|c: u16| c as int)
}

/// The symbols of a text over a 32-bit integer alphabet.
pub open spec fn symbols_i32(t: Seq<i32>) -> Seq<int> {
    t.map_values(|c: i32| c as int)
}

/// The symbols of a text over a 64-bit integer alphabet.
pub open spec fn symbols_i64(t: Seq<i64>) -> Seq<int> {
    t.map_values(|c: i64| c as int)
}

/// The positions held in a buffer of 32-bit indices.
pub open spec fn positions_i32(sa: Seq<i32>) -> Seq<int> {
    sa.map_values(|p: i32| p as int)
}

/// The positions held in a buffer of 64-bit indices.
pub open spec fn positions_i64(sa: Seq<i64>) -> Seq<int> {
    sa.map_values(|p: i64| p as int)
}

} // verus!
