//! The mathematical model: suffixes of a symbol sequence, their lexicographic
//! order, and what it means for a sequence of positions to be the suffix array.
//!
//! A text is a `Seq<int>` of symbols. The suffix at position `i` is the tail of
//! the text from `i` to its end; position `len` names the empty suffix, which
//! stands for the end of the sequence and sorts before every other suffix.

use vstd::prelude::*;

verus! {

/// The suffix of `t` at `i` is strictly smaller than the suffix at `j`.
///
/// Symbols are compared left to right; where one suffix ends first, the
/// shorter one is the smaller.
pub open spec fn suffix_lt(t: Seq<int>, i: int, j: int) -> bool
    recommends
        0 <= i <= t.len(),
        0 <= j <= t.len(),
    decreases t.len() - i,
{
    if j >= t.len() {
        false
    } else if i >= t.len() {
        true
    } else if t[i] != t[j] {
        t[i] < t[j]
    } else {
        suffix_lt(t, i + 1, j + 1)
    }
}

/// The suffix at `i` is smaller than or equal to the suffix at `j`.
pub open spec fn suffix_le(t: Seq<int>, i: int, j: int) -> bool {
    i == j || suffix_lt(t, i, j)
}

/// `sa` lists every position in `[0, n)` exactly once.
pub open spec fn is_permutation(sa: Seq<int>, n: nat) -> bool {
    &&& sa.len() == n
    &&& forall|i: int| 0 <= i < n ==> 0 <= #[trigger] sa[i] < n
    &&& forall|i: int, j: int| 0 <= i < j < n ==> sa[i] != sa[j]
    &&& forall|p: int| 0 <= p < n ==> occurs_in(sa, p)
}

/// Position `p` is an entry of `sa`.
pub open spec fn occurs_in(sa: Seq<int>, p: int) -> bool {
    exists|i: int| 0 <= i < sa.len() && sa[i] == p
}

/// Every entry of `sa` starts a suffix that is smaller than those of all later entries.
pub open spec fn is_suffix_sorted(t: Seq<int>, sa: Seq<int>) -> bool {
    forall|i: int, j: int| 0 <= i < j < sa.len() ==> suffix_lt(t, #[trigger] sa[i], #[trigger] sa[j])
}

/// Each entry of `sa` starts a suffix no larger than that of the next entry.
pub open spec fn is_adjacent_sorted(t: Seq<int>, sa: Seq<int>) -> bool {
    forall|i: int| 0 <= i < sa.len() - 1 ==> suffix_le(t, #[trigger] sa[i], sa[i + 1])
}

/// `sa` is the suffix array of `t`: a permutation of the positions of `t`
/// in ascending order of the suffixes that start there.
pub open spec fn is_suffix_array(t: Seq<int>, sa: Seq<int>) -> bool {
    &&& is_permutation(sa, t.len())
    &&& is_suffix_sorted(t, sa)
}

/// No suffix is smaller than itself.
pub proof fn lemma_suffix_lt_irreflexive(t: Seq<int>, i: int)
    requires
        0 <= i <= t.len(),
    ensures
        !suffix_lt(t, i, i),
    decreases t.len() - i,
{
    if i < t.len() {
        lemma_suffix_lt_irreflexive(t, i + 1);
    }
}

/// Of two suffixes at most one is smaller than the other.
pub proof fn lemma_suffix_lt_asymmetric(t: Seq<int>, i: int, j: int)
    requires
        0 <= i <= t.len(),
        0 <= j <= t.len(),
        suffix_lt(t, i, j),
    ensures
        !suffix_lt(t, j, i),
    decreases t.len() - i,
{
    if i < t.len() && j < t.len() && t[i] == t[j] {
        lemma_suffix_lt_asymmetric(t, i + 1, j + 1);
    }
}

/// The order on suffixes is transitive.
pub proof fn lemma_suffix_lt_transitive(t: Seq<int>, i: int, j: int, k: int)
    requires
        0 <= i <= t.len(),
        0 <= j <= t.len(),
        0 <= k <= t.len(),
        suffix_lt(t, i, j),
        suffix_lt(t, j, k),
    ensures
        suffix_lt(t, i, k),
    decreases t.len() - i,
{
    if i < t.len() && t[i] == t[j] && t[j] == t[k] {
        lemma_suffix_lt_transitive(t, i + 1, j + 1, k + 1);
    }
}

/// Suffixes at two different positions are never equal: one of them is the smaller.
pub proof fn lemma_suffix_lt_total(t: Seq<int>, i: int, j: int)
    requires
        0 <= i <= t.len(),
        0 <= j <= t.len(),
        i != j,
    ensures
        suffix_lt(t, i, j) || suffix_lt(t, j, i),
    decreases t.len() - i,
{
    if i < t.len() && j < t.len() && t[i] == t[j] {
        lemma_suffix_lt_total(t, i + 1, j + 1);
    }
}

/// A permutation whose neighbours are in order is in order throughout.
pub proof fn lemma_adjacent_sorted_is_sorted(t: Seq<int>, sa: Seq<int>)
    requires
        is_permutation(sa, t.len()),
        is_adjacent_sorted(t, sa),
    ensures
        is_suffix_array(t, sa),
{
    assert forall|i: int, j: int| 0 <= i < j < sa.len() implies suffix_lt(
        t,
        #[trigger] sa[i],
        #[trigger] sa[j],
    ) by {
        lemma_adjacent_chain(t, sa, i, j);
    }
}

proof fn lemma_adjacent_chain(t: Seq<int>, sa: Seq<int>, i: int, j: int)
    requires
        is_permutation(sa, t.len()),
        is_adjacent_sorted(t, sa),
        0 <= i < j < sa.len(),
    ensures
        suffix_lt(t, sa[i], sa[j]),
    decreases j - i,
{
    assert(suffix_le(t, sa[j - 1], sa[j - 1 + 1]));
    if i < j - 1 {
        lemma_adjacent_chain(t, sa, i, j - 1);
        lemma_suffix_lt_transitive(t, sa[i], sa[j - 1], sa[j]);
    }
}

/// A suffix array has its neighbours in order.
pub proof fn lemma_suffix_array_adjacent_sorted(t: Seq<int>, sa: Seq<int>)
    requires
        is_suffix_array(t, sa),
    ensures
        is_adjacent_sorted(t, sa),
{
    assert forall|i: int| 0 <= i < sa.len() - 1 implies suffix_le(t, #[trigger] sa[i], sa[i + 1]) by {
        assert(suffix_lt(t, sa[i], sa[i + 1]));
    }
}

/// A text has exactly one suffix array.
pub proof fn lemma_suffix_array_unique(t: Seq<int>, a: Seq<int>, b: Seq<int>)
    requires
        is_suffix_array(t, a),
        is_suffix_array(t, b),
    ensures
        a == b,
{
    assert forall|i: int| 0 <= i < a.len() implies a[i] == b[i] by {
        lemma_unique_prefix(t, a, b, i);
    }
    assert(a =~= b);
}

proof fn lemma_unique_prefix(t: Seq<int>, a: Seq<int>, b: Seq<int>, i: int)
    requires
        is_suffix_array(t, a),
        is_suffix_array(t, b),
        0 <= i < a.len(),
    ensures
        a[i] == b[i],
    decreases i,
{
    let p = a[i];
    let q = b[i];
    assert forall|k: int| 0 <= k < i implies a[k] == b[k] by {
        lemma_unique_prefix(t, a, b, k);
    }
    if p != q {
        lemma_suffix_lt_total(t, p, q);
        if suffix_lt(t, p, q) {
            lemma_later_is_larger(t, b, a, i, p);
            lemma_suffix_lt_asymmetric(t, p, q);
        } else {
            lemma_later_is_larger(t, a, b, i, q);
            lemma_suffix_lt_asymmetric(t, q, p);
        }
    }
}

/// A position that `other` holds at `i`, where the two arrays agree before
/// `i` and differ at `i`, stands in `sa` after `i`.
proof fn lemma_later_is_larger(t: Seq<int>, sa: Seq<int>, other: Seq<int>, i: int, p: int)
    requires
        is_suffix_array(t, sa),
        is_suffix_array(t, other),
        0 <= i < sa.len(),
        other[i] == p,
        sa[i] != p,
        forall|k: int| 0 <= k < i ==> sa[k] == other[k],
    ensures
        suffix_lt(t, sa[i], p),
{
    assert(occurs_in(sa, p));
    let j = choose|j: int| 0 <= j < sa.len() && sa[j] == p;
    if j < i {
        assert(other[j] == p);
        assert(other[j] != other[i]);
    }
    assert(suffix_lt(t, sa[i], sa[j]));
}

} // verus!
