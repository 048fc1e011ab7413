//! Between the texts and buffers of the entry points and the 64-bit symbols
//! and machine-sized positions that the solver works on.

use vstd::prelude::*;
use crate::views::{
    is_text_over, positions, positions_i32, positions_i64, symbols, symbols_i32, symbols_i64,
    symbols_u16, symbols_u8,
};

verus! {

/// The largest symbol of the first `upto` symbols of `t`, plus one; `0` for none.
pub open spec fn symbol_bound(t: Seq<int>, upto: int) -> int
    decreases upto,
{
    if upto <= 0 {
        0
    } else if t[upto - 1] + 1 > symbol_bound(t, upto - 1) {
        t[upto - 1] + 1
    } else {
        symbol_bound(t, upto - 1)
    }
}

/// Every one of the symbols that `symbol_bound` looked at lies below it.
pub proof fn lemma_symbol_bound(t: Seq<int>, upto: int)
    requires
        0 <= upto <= t.len(),
    ensures
        0 <= symbol_bound(t, upto),
        forall|i: int| 0 <= i < upto ==> #[trigger] t[i] < symbol_bound(t, upto),
    decreases upto,
{
    if upto > 0 {
        lemma_symbol_bound(t, upto - 1);
    }
}

/// A byte text as 64-bit symbols.
pub fn widen_u8(text: &[u8]) -> (wide: Vec<u64>)
    ensures
        symbols(wide@) == symbols_u8(text@),
{
    let n = text.len();
    let mut wide: Vec<u64> = Vec::with_capacity(n);
    let mut i: usize = 0;
    while i < n
        invariant
            n == text@.len(),
            i <= n,
            wide@.len() == i,
            forall|j: int| 0 <= j < i ==> #[trigger] wide@[j] == text@[j],
        decreases n - i,
    {
        wide.push(text[i] as u64);
        i += 1;
    }
    assert(symbols(wide@) =~= symbols_u8(text@));
    wide
}

/// A text of 16-bit symbols as 64-bit symbols.
pub fn widen_u16(text: &[u16]) -> (wide: Vec<u64>)
    ensures
        symbols(wide@) == symbols_u16(text@),
{
    let n = text.len();
    let mut wide: Vec<u64> = Vec::with_capacity(n);
    let mut i: usize = 0;
    while i < n
        invariant
            n == text@.len(),
            i <= n,
            wide@.len() == i,
            forall|j: int| 0 <= j < i ==> #[trigger] wide@[j] == text@[j],
        decreases n - i,
    {
        wide.push(text[i] as u64);
        i += 1;
    }
    assert(symbols(wide@) =~= symbols_u16(text@));
    wide
}

/// A text over the alphabet `[0, alphabet_size)` as 64-bit symbols, together
/// with its largest symbol plus one; `None` where a symbol lies outside the alphabet.
pub fn widen_i32(text: &[i32], alphabet_size: i32) -> (res: Option<(Vec<u64>, u64)>)
    ensures
        res is Some <==> is_text_over(symbols_i32(text@), alphabet_size as int),
        res is Some ==> symbols(res.unwrap().0@) == symbols_i32(text@) && res.unwrap().1
            == symbol_bound(symbols_i32(text@), text@.len() as int),
{
    let n = text.len();
    let ghost syms = symbols_i32(text@);
    let mut wide: Vec<u64> = Vec::with_capacity(n);
    let mut bound: u64 = 0;
    let mut i: usize = 0;
    while i < n
        invariant
            n == text@.len(),
            syms == symbols_i32(text@),
            i <= n,
            wide@.len() == i,
            forall|j: int| 0 <= j < i ==> 0 <= #[trigger] text@[j] < alphabet_size,
            forall|j: int| 0 <= j < i ==> #[trigger] wide@[j] == text@[j],
            bound == symbol_bound(syms, i as int),
            bound <= 0x8000_0000,
        decreases n - i,
    {
        let c = text[i];
        if c < 0 || c >= alphabet_size {
            proof {
                assert(!(0 <= syms[i as int] < alphabet_size));
            }
            return None;
        }
        wide.push(c as u64);
        if c as u64 + 1 > bound {
            bound = c as u64 + 1;
        }
        i += 1;
    }
    proof {
        assert(symbols(wide@) =~= syms);
        assert forall|j: int| 0 <= j < syms.len() implies 0 <= #[trigger] syms[j]
            < alphabet_size by {
            assert(0 <= text@[j] < alphabet_size);
        }
    }
    Some((wide, bound))
}

/// A text over the alphabet `[0, alphabet_size)` as 64-bit symbols, together
/// with its largest symbol plus one; `None` where a symbol lies outside the alphabet.
pub fn widen_i64(text: &[i64], alphabet_size: i64) -> (res: Option<(Vec<u64>, u64)>)
    ensures
        res is Some <==> is_text_over(symbols_i64(text@), alphabet_size as int),
        res is Some ==> symbols(res.unwrap().0@) == symbols_i64(text@) && res.unwrap().1
            == symbol_bound(symbols_i64(text@), text@.len() as int),
{
    let n = text.len();
    let ghost syms = symbols_i64(text@);
    let mut wide: Vec<u64> = Vec::with_capacity(n);
    let mut bound: u64 = 0;
    let mut i: usize = 0;
    while i < n
        invariant
            n == text@.len(),
            syms == symbols_i64(text@),
            i <= n,
            wide@.len() == i,
            forall|j: int| 0 <= j < i ==> 0 <= #[trigger] text@[j] < alphabet_size,
            forall|j: int| 0 <= j < i ==> #[trigger] wide@[j] == text@[j],
            bound == symbol_bound(syms, i as int),
            bound <= 0x8000_0000_0000_0000,
        decreases n - i,
    {
        let c = text[i];
        if c < 0 || c >= alphabet_size {
            proof {
                assert(!(0 <= syms[i as int] < alphabet_size));
            }
            return None;
        }
        wide.push(c as u64);
        if c as u64 + 1 > bound {
            bound = c as u64 + 1;
        }
        i += 1;
    }
    proof {
        assert(symbols(wide@) =~= syms);
        assert forall|j: int| 0 <= j < syms.len() implies 0 <= #[trigger] syms[j]
            < alphabet_size by {
            assert(0 <= text@[j] < alphabet_size);
        }
    }
    Some((wide, bound))
}

/// Writes the positions of `from` to the front of a buffer of 32-bit indices.
pub fn store_i32(sa: &mut [i32], from: &[usize])
    requires
        from@.len() <= old(sa)@.len(),
        forall|i: int| 0 <= i < from@.len() ==> #[trigger] from@[i] <= i32::MAX,
    ensures
        final(sa)@.len() == old(sa)@.len(),
        positions_i32(final(sa)@.take(from@.len() as int)) == positions(from@),
        forall|i: int| from@.len() <= i < old(sa)@.len() ==> final(sa)@[i] == old(sa)@[i],
{
    let n = from.len();
    let mut i: usize = 0;
    while i < n
        invariant
            n == from@.len(),
            n <= sa@.len(),
            sa@.len() == old(sa)@.len(),
            i <= n,
            forall|j: int| 0 <= j < from@.len() ==> #[trigger] from@[j] <= i32::MAX,
            forall|j: int| 0 <= j < i ==> #[trigger] sa@[j] == from@[j],
            forall|j: int| i <= j < sa@.len() ==> sa@[j] == old(sa)@[j],
        decreases n - i,
    {
        sa[i] = from[i] as i32;
        i += 1;
    }
    assert(positions_i32(sa@.take(n as int)) =~= positions(from@));
}

/// Writes the positions of `from` to the front of a buffer of 64-bit indices.
pub fn store_i64(sa: &mut [i64], from: &[usize])
    requires
        from@.len() <= old(sa)@.len(),
        forall|i: int| 0 <= i < from@.len() ==> #[trigger] from@[i] <= i64::MAX,
    ensures
        final(sa)@.len() == old(sa)@.len(),
        positions_i64(final(sa)@.take(from@.len() as int)) == positions(from@),
        forall|i: int| from@.len() <= i < old(sa)@.len() ==> final(sa)@[i] == old(sa)@[i],
{
    let n = from.len();
    let mut i: usize = 0;
    while i < n
        invariant
            n == from@.len(),
            n <= sa@.len(),
            sa@.len() == old(sa)@.len(),
            i <= n,
            forall|j: int| 0 <= j < from@.len() ==> #[trigger] from@[j] <= i64::MAX,
            forall|j: int| 0 <= j < i ==> #[trigger] sa@[j] == from@[j],
            forall|j: int| i <= j < sa@.len() ==> sa@[j] == old(sa)@[j],
        decreases n - i,
    {
        sa[i] = from[i] as i64;
        i += 1;
    }
    assert(positions_i64(sa@.take(n as int)) =~= positions(from@));
}

} // verus!
