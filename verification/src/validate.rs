//! Deciding in linear time whether a sequence of positions is the suffix array.
//!
//! A permutation is the suffix array exactly if each entry and its successor
//! are in order by their first symbols and, where those agree, by the ranks of
//! the positions that follow them. The ranks are read from the inverse of the
//! permutation, so no suffix is ever compared beyond its first symbol.

use vstd::prelude::*;
use crate::order::{
    is_permutation, is_suffix_array, lemma_suffix_lt_asymmetric, occurs_in, suffix_lt,
};
use crate::views::{positions, symbols};

verus! {

/// The rank of position `p`, with the end of the text ranked below every position.
pub open spec fn rank_or_end(rank: Seq<int>, p: int) -> int {
    if p >= rank.len() {
        -1
    } else {
        rank[p]
    }
}

/// `rank` is the inverse of `sa`: it gives, for each position, its index in `sa`.
pub open spec fn is_inverse(sa: Seq<int>, rank: Seq<int>) -> bool {
    &&& rank.len() == sa.len()
    &&& forall|i: int|
        0 <= i < sa.len() ==> 0 <= #[trigger] sa[i] < sa.len() && rank[sa[i]] == i
    &&& forall|p: int|
        0 <= p < sa.len() ==> 0 <= #[trigger] rank[p] < sa.len() && sa[rank[p]] == p
}

/// Entry `i` of `sa` and its successor are in order, judged by their first
/// symbols and then by the ranks of the positions after them.
pub open spec fn step_ordered(t: Seq<int>, sa: Seq<int>, rank: Seq<int>, i: int) -> bool {
    let a = sa[i];
    let b = sa[i + 1];
    t[a] < t[b] || (t[a] == t[b] && rank_or_end(rank, a + 1) < rank_or_end(rank, b + 1))
}

/// All neighbouring entries of `sa` before index `upto` are in order.
pub open spec fn steps_ordered(t: Seq<int>, sa: Seq<int>, rank: Seq<int>, upto: int) -> bool {
    forall|i: int| 0 <= i < upto ==> #[trigger] step_ordered(t, sa, rank, i)
}

/// A sequence with an inverse is a permutation.
pub proof fn lemma_inverse_is_permutation(sa: Seq<int>, rank: Seq<int>)
    requires
        is_inverse(sa, rank),
    ensures
        is_permutation(sa, sa.len()),
{
    assert forall|i: int, j: int| 0 <= i < j < sa.len() implies sa[i] != sa[j] by {
        assert(rank[sa[i]] == i);
        assert(rank[sa[j]] == j);
    }
    assert forall|p: int| 0 <= p < sa.len() implies occurs_in(sa, p) by {
        assert(sa[rank[p]] == p);
    }
}

/// Where all neighbours are in order, so are any two entries: by first symbol,
/// and by the ranks after them where the first symbols agree.
proof fn lemma_steps_chain(t: Seq<int>, sa: Seq<int>, rank: Seq<int>, i: int, j: int)
    requires
        sa.len() == t.len(),
        is_inverse(sa, rank),
        steps_ordered(t, sa, rank, sa.len() - 1),
        0 <= i < j < sa.len(),
    ensures
        t[sa[i]] <= t[sa[j]],
        t[sa[i]] == t[sa[j]] ==> rank_or_end(rank, sa[i] + 1) < rank_or_end(rank, sa[j] + 1),
    decreases j - i,
{
    assert(step_ordered(t, sa, rank, j - 1));
    if i < j - 1 {
        lemma_steps_chain(t, sa, rank, i, j - 1);
    }
}

/// Where all neighbours are in order, a smaller rank means a smaller suffix.
proof fn lemma_rank_decides(t: Seq<int>, sa: Seq<int>, rank: Seq<int>, p: int, q: int)
    requires
        sa.len() == t.len(),
        is_inverse(sa, rank),
        steps_ordered(t, sa, rank, sa.len() - 1),
        0 <= p <= t.len(),
        0 <= q <= t.len(),
        rank_or_end(rank, p) < rank_or_end(rank, q),
    ensures
        suffix_lt(t, p, q),
    decreases t.len() - p,
{
    if q < t.len() {
        assert(0 <= rank[q]);
    }
    if p < t.len() {
        let i = rank[p];
        let j = rank[q];
        assert(sa[i] == p);
        assert(sa[j] == q);
        lemma_steps_chain(t, sa, rank, i, j);
        if t[p] == t[q] {
            lemma_rank_decides(t, sa, rank, p + 1, q + 1);
        }
    }
}

/// An array with an inverse whose neighbours are all in order is the suffix array.
pub proof fn lemma_steps_ordered_is_suffix_array(t: Seq<int>, sa: Seq<int>, rank: Seq<int>)
    requires
        sa.len() == t.len(),
        is_inverse(sa, rank),
        steps_ordered(t, sa, rank, sa.len() - 1),
    ensures
        is_suffix_array(t, sa),
{
    lemma_inverse_is_permutation(sa, rank);
    assert forall|i: int, j: int| 0 <= i < j < sa.len() implies suffix_lt(
        t,
        #[trigger] sa[i],
        #[trigger] sa[j],
    ) by {
        assert(rank[sa[i]] == i);
        assert(rank[sa[j]] == j);
        lemma_rank_decides(t, sa, rank, sa[i], sa[j]);
    }
}

/// In the suffix array every entry and its successor are in order.
pub proof fn lemma_suffix_array_step_ordered(t: Seq<int>, sa: Seq<int>, rank: Seq<int>, i: int)
    requires
        is_suffix_array(t, sa),
        is_inverse(sa, rank),
        0 <= i < sa.len() - 1,
    ensures
        step_ordered(t, sa, rank, i),
{
    let a = sa[i];
    let b = sa[i + 1];
    assert(suffix_lt(t, a, b));
    assert(rank[a] == i);
    assert(rank[b] == i + 1);
    if t[a] == t[b] {
        assert(suffix_lt(t, a + 1, b + 1));
        if a + 1 < t.len() {
            let ia = rank[a + 1];
            let ib = rank[b + 1];
            assert(sa[ia] == a + 1);
            assert(sa[ib] == b + 1);
            if ia > ib {
                assert(suffix_lt(t, sa[ib], sa[ia]));
                lemma_suffix_lt_asymmetric(t, a + 1, b + 1);
            }
        }
    }
}

/// Whether `sa` is the suffix array of `t`.
pub fn is_suffix_array_of(t: &[u64], sa: &[usize]) -> (ok: bool)
    ensures
        ok == is_suffix_array(symbols(t@), positions(sa@)),
{
    let n = t.len();
    if sa.len() != n {
        return false;
    }
    if n == 0 {
        return true;
    }
    let ghost text = symbols(t@);
    let ghost arr = positions(sa@);
    let mut rank: Vec<usize> = vec![usize::MAX; n];
    let mut i: usize = 0;
    while i < n
        invariant
            n == t@.len(),
            sa@.len() == n,
            rank@.len() == n,
            i <= n,
            arr == positions(sa@),
            forall|k: int| 0 <= k < i ==> #[trigger] sa@[k] < n && rank@[sa@[k] as int] == k,
            forall|p: int|
                0 <= p < n ==> #[trigger] rank@[p] == usize::MAX || (rank@[p] < i
                    && sa@[rank@[p] as int] == p),
        decreases n - i,
    {
        let p = sa[i];
        if p >= n {
            proof {
                assert(arr[i as int] >= n);
            }
            return false;
        }
        if rank[p] != usize::MAX {
            proof {
                let k = rank@[p as int] as int;
                assert(arr[k] == arr[i as int]);
            }
            return false;
        }
        rank[p] = i;
        i += 1;
    }
    let mut p: usize = 0;
    while p < n
        invariant
            n == t@.len(),
            sa@.len() == n,
            rank@.len() == n,
            p <= n,
            arr == positions(sa@),
            forall|k: int| 0 <= k < n ==> #[trigger] sa@[k] < n && rank@[sa@[k] as int] == k,
            forall|q: int|
                0 <= q < n ==> #[trigger] rank@[q] == usize::MAX || (rank@[q] < n
                    && sa@[rank@[q] as int] == q),
            forall|q: int| 0 <= q < p ==> #[trigger] rank@[q] != usize::MAX,
        decreases n - p,
    {
        if rank[p] == usize::MAX {
            proof {
                if occurs_in(arr, p as int) {
                    let k = choose|k: int| 0 <= k < arr.len() && arr[k] == p;
                    assert(sa@[k] == p);
                }
            }
            return false;
        }
        p += 1;
    }
    let ghost rk = positions(rank@);
    proof {
        assert forall|k: int| 0 <= k < arr.len() implies 0 <= #[trigger] arr[k] < arr.len()
            && rk[arr[k]] == k by {
            assert(sa@[k] < n);
        }
        assert forall|q: int| 0 <= q < arr.len() implies 0 <= #[trigger] rk[q] < arr.len()
            && arr[rk[q]] == q by {
            assert(rank@[q] != usize::MAX);
        }
        assert(is_inverse(arr, rk));
    }
    let mut i: usize = 0;
    while i + 1 < n
        invariant
            n == t@.len(),
            sa@.len() == n,
            rank@.len() == n,
            i < n,
            text == symbols(t@),
            arr == positions(sa@),
            rk == positions(rank@),
            is_inverse(arr, rk),
            steps_ordered(text, arr, rk, i as int),
        decreases n - i,
    {
        let a = sa[i];
        let b = sa[i + 1];
        proof {
            assert(arr[i as int] == a);
            assert(arr[i + 1] == b);
            assert(rk[arr[i as int]] == i);
            assert(rk[arr[i + 1]] == i + 1);
            if b + 1 < n {
                assert(0 <= rk[b + 1]);
            }
        }
        let good = if t[a] != t[b] {
            t[a] < t[b]
        } else if a + 1 == n {
            true
        } else if b + 1 == n {
            false
        } else {
            rank[a + 1] < rank[b + 1]
        };
        proof {
            assert(good == step_ordered(text, arr, rk, i as int));
        }
        if !good {
            proof {
                if is_suffix_array(text, arr) {
                    lemma_suffix_array_step_ordered(text, arr, rk, i as int);
                }
            }
            return false;
        }
        i += 1;
    }
    proof {
        lemma_steps_ordered_is_suffix_array(text, arr, rk);
    }
    true
}

} // verus!
