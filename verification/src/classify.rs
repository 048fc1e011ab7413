//! The classifier: the type of each position, and the positions at which a
//! run of S-type positions begins.
//!
//! A position is S-type if its suffix is smaller than the suffix one position
//! later, and L-type if it is larger. The end of the sequence counts as
//! S-type, which makes the last symbol L-type. A position is a left-most
//! S-type (LMS) position if it is S-type and the position before it is L-type.

use vstd::prelude::*;
use crate::order::suffix_lt;
use crate::views::symbols;

verus! {

/// Position `i` of `t` is S-type.
pub open spec fn is_s_type(t: Seq<int>, i: int) -> bool
    recommends
        0 <= i <= t.len(),
    decreases t.len() - i,
{
    if i >= t.len() {
        true
    } else if i == t.len() - 1 {
        false
    } else if t[i] != t[i + 1] {
        t[i] < t[i + 1]
    } else {
        is_s_type(t, i + 1)
    }
}

/// `types` holds, for each position of `t`, whether it is S-type.
pub open spec fn is_type_map(t: Seq<int>, types: Seq<bool>) -> bool {
    &&& types.len() == t.len()
    &&& forall|i: int| 0 <= i < t.len() ==> #[trigger] types[i] == is_s_type(t, i)
}

/// Position `p` is an LMS position under the given types.
pub open spec fn is_lms_at(types: Seq<bool>, p: int) -> bool {
    0 < p < types.len() && types[p] && !types[p - 1]
}

/// Position `p` is S-type and follows an L-type position.
pub open spec fn is_lms(text: Seq<int>, p: int) -> bool {
    0 < p < text.len() && is_s_type(text, p) && !is_s_type(text, p - 1)
}

/// A position is S-type exactly if its suffix is smaller than the next one.
pub proof fn lemma_s_type_is_smaller(t: Seq<int>, i: int)
    requires
        0 <= i < t.len(),
    ensures
        is_s_type(t, i) == suffix_lt(t, i, i + 1),
    decreases t.len() - i,
{
    if i < t.len() - 1 && t[i] == t[i + 1] {
        lemma_s_type_is_smaller(t, i + 1);
    }
}

/// Computes the type of every position, from the last position to the first.
pub fn classify_types(t: &[u64]) -> (types: Vec<bool>)
    ensures
        is_type_map(symbols(t@), types@),
{
    let n = t.len();
    let ghost text = symbols(t@);
    let mut types: Vec<bool> = vec![false; n];
    if n == 0 {
        return types;
    }
    let mut i: usize = n - 1;
    while i > 0
        invariant
            n == t@.len(),
            text == symbols(t@),
            types@.len() == n,
            i < n,
            forall|j: int| i <= j < n ==> #[trigger] types@[j] == is_s_type(text, j),
        decreases i,
    {
        i -= 1;
        let s = if t[i] != t[i + 1] {
            t[i] < t[i + 1]
        } else {
            types[i + 1]
        };
        types[i] = s;
    }
    types
}

/// Lists the LMS positions from left to right.
///
/// No two of them are neighbours, so there are at most half as many as positions.
pub fn lms_positions(types: &[bool]) -> (lms: Vec<usize>)
    ensures
        forall|i: int| 0 <= i < lms@.len() ==> is_lms_at(types@, #[trigger] lms@[i] as int),
        forall|i: int, j: int| 0 <= i < j < lms@.len() ==> lms@[i] < lms@[j],
        forall|p: int|
            is_lms_at(types@, p) ==> exists|i: int| 0 <= i < lms@.len() && lms@[i] == p,
        2 * lms@.len() <= types@.len(),
{
    let n = types.len();
    let mut lms: Vec<usize> = Vec::new();
    if n == 0 {
        return lms;
    }
    let mut p: usize = 1;
    while p < n
        invariant
            n == types@.len(),
            1 <= p <= n,
            forall|i: int| 0 <= i < lms@.len() ==> is_lms_at(types@, #[trigger] lms@[i] as int),
            forall|i: int| 0 <= i < lms@.len() ==> #[trigger] lms@[i] < p,
            forall|i: int, j: int| 0 <= i < j < lms@.len() ==> lms@[i] < lms@[j],
            forall|q: int|
                is_lms_at(types@, q) && q < p ==> exists|i: int|
                    0 <= i < lms@.len() && lms@[i] == q,
            2 * lms@.len() <= p - 1 + (if lms@.len() > 0 && lms@[lms@.len() - 1] == p - 1 {
                1int
            } else {
                0int
            }),
        decreases n - p,
    {
        if types[p] && !types[p - 1] {
            let ghost before = lms@;
            lms.push(p);
            proof {
                assert forall|q: int| is_lms_at(types@, q) && q < p + 1 implies exists|i: int|
                    0 <= i < lms@.len() && lms@[i] == q by {
                    if q < p {
                        let i = choose|i: int| 0 <= i < before.len() && before[i] == q;
                        assert(lms@[i] == q);
                    } else {
                        assert(lms@[before.len() as int] == q);
                    }
                }
            }
        }
        p += 1;
    }
    lms
}

} // verus!
