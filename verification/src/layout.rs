//! The layout of the suffix array: which slots belong to which symbol, and
//! where in a bucket the L-type positions end and the S-type positions begin.
//!
//! The suffixes that start with one symbol fill a contiguous range of the
//! suffix array, the bucket of that symbol. Inside a bucket all L-type
//! positions come before all S-type positions.

use vstd::prelude::*;
use crate::buckets::{
    count_below, count_of, lemma_count_below_limits, lemma_count_below_step, lemma_count_bounds,
};
use crate::classify::is_s_type;
use crate::order::suffix_lt;
use crate::views::is_text_over;

verus! {

/// The mark of an array slot that holds no position yet.
pub const EMPTY: usize = usize::MAX;

/// Position `p` is an entry of `sa`.
pub open spec fn occurs(sa: Seq<usize>, p: int) -> bool {
    exists|x: int| 0 <= x < sa.len() && sa[x] == p
}

/// The filled slots of `sa` hold different positions, in the order `le`.
pub open spec fn in_order(le: spec_fn(int, int) -> bool, sa: Seq<usize>) -> bool {
    forall|a: int, b: int|
        0 <= a < b < sa.len() && sa[a] != EMPTY && sa[b] != EMPTY ==> sa[a] != sa[b] && le(
            sa[a] as int,
            sa[b] as int,
        )
}

/// How many of the values below `upto` satisfy `f`.
pub open spec fn count_where(f: spec_fn(int) -> bool, upto: int) -> int
    decreases upto,
{
    if upto <= 0 {
        0
    } else {
        count_where(f, upto - 1) + if f(upto - 1) {
            1int
        } else {
            0int
        }
    }
}

/// Position `x` holds the symbol `c` and is L-type.
pub open spec fn is_l_with(t: Seq<int>, c: int) -> spec_fn(int) -> bool {
    |x: int| t[x] == c && !is_s_type(t, x)
}

/// Position `x` holds the symbol `c` and is S-type.
pub open spec fn is_s_with(t: Seq<int>, c: int) -> spec_fn(int) -> bool {
    |x: int| t[x] == c && is_s_type(t, x)
}

/// The first slot of the bucket of `c`.
pub open spec fn bucket_start(t: Seq<int>, c: int) -> int {
    count_below(t, c, t.len() as int)
}

/// The slot behind the bucket of `c`.
pub open spec fn bucket_end(t: Seq<int>, c: int) -> int {
    count_below(t, c + 1, t.len() as int)
}

/// The slot in the bucket of `c` at which the L-type positions end and the
/// S-type positions begin.
pub open spec fn bucket_middle(t: Seq<int>, c: int) -> int {
    bucket_start(t, c) + count_where(is_l_with(t, c), t.len() as int)
}

/// Slot `x` lies in the bucket of `c`.
pub open spec fn holds_slot(t: Seq<int>, c: int, x: int) -> bool {
    bucket_start(t, c) <= x < bucket_end(t, c)
}

/// The symbol whose bucket holds slot `x`.
pub open spec fn owner_of(t: Seq<int>, x: int) -> int {
    choose|c: int| holds_slot(t, c, x)
}

/// A count is never negative and never more than the number of values looked at.
pub proof fn lemma_count_where_bounds(f: spec_fn(int) -> bool, upto: int)
    requires
        0 <= upto,
    ensures
        0 <= count_where(f, upto) <= upto,
    decreases upto,
{
    if upto > 0 {
        lemma_count_where_bounds(f, upto - 1);
    }
}

/// A sequence of different values below `n` that all satisfy `f` is no longer
/// than the number of such values.
pub proof fn lemma_distinct_members_bound(f: spec_fn(int) -> bool, s: Seq<int>, n: int)
    requires
        0 <= n,
        forall|i: int| 0 <= i < s.len() ==> 0 <= #[trigger] s[i] < n && f(s[i]),
        forall|i: int, j: int| 0 <= i < j < s.len() ==> s[i] != s[j],
    ensures
        s.len() <= count_where(f, n),
    decreases n,
{
    if n == 0 {
        if s.len() > 0 {
            assert(0 <= s[0] < n);
        }
    } else if exists|a: int| 0 <= a < s.len() && s[a] == n - 1 {
        let a = choose|a: int| 0 <= a < s.len() && s[a] == n - 1;
        let rest = s.remove(a);
        assert forall|i: int| 0 <= i < rest.len() implies 0 <= #[trigger] rest[i] < n - 1 && f(
            rest[i],
        ) by {
            let o = if i < a { i } else { i + 1 };
            assert(rest[i] == s[o]);
            assert(0 <= s[o] < n && f(s[o]));
            if o < a {
                assert(s[o] != s[a]);
            } else {
                assert(s[a] != s[o]);
            }
        }
        assert forall|i: int, j: int| 0 <= i < j < rest.len() implies rest[i] != rest[j] by {
            let oi = if i < a { i } else { i + 1 };
            let oj = if j < a { j } else { j + 1 };
            assert(rest[i] == s[oi] && rest[j] == s[oj]);
        }
        lemma_distinct_members_bound(f, rest, n - 1);
        assert(f(s[a]));
    } else {
        assert forall|i: int| 0 <= i < s.len() implies 0 <= #[trigger] s[i] < n - 1 && f(s[i]) by {
            assert(0 <= s[i] < n && f(s[i]));
        }
        lemma_distinct_members_bound(f, s, n - 1);
    }
}

/// A sequence that holds every value below `n` that satisfies `f` is at least
/// as long as the number of such values.
pub proof fn lemma_all_members_bound(f: spec_fn(int) -> bool, s: Seq<int>, n: int)
    requires
        0 <= n,
        forall|x: int| 0 <= x < n && #[trigger] f(x) ==> exists|i: int| 0 <= i < s.len() && s[i] == x,
    ensures
        count_where(f, n) <= s.len(),
    decreases n,
{
    if n > 0 {
        if f(n - 1) {
            let a = choose|a: int| 0 <= a < s.len() && s[a] == n - 1;
            let rest = s.remove(a);
            assert forall|x: int| 0 <= x < n - 1 && #[trigger] f(x) implies exists|i: int|
                0 <= i < rest.len() && rest[i] == x by {
                let i = choose|i: int| 0 <= i < s.len() && s[i] == x;
                if i < a {
                    assert(rest[i] == x);
                } else {
                    assert(rest[i - 1] == x);
                }
            }
            lemma_all_members_bound(f, rest, n - 1);
        } else {
            lemma_all_members_bound(f, s, n - 1);
        }
    }
}

/// Of two symbols the smaller has no more positions below it.
pub proof fn lemma_count_below_monotone(t: Seq<int>, c: int, d: int, upto: int)
    requires
        c <= d,
    ensures
        count_below(t, c, upto) <= count_below(t, d, upto),
    decreases upto,
{
    if upto > 0 {
        lemma_count_below_monotone(t, c, d, upto - 1);
    }
}

/// The positions that hold `c` are its L-type and its S-type positions.
pub proof fn lemma_count_by_type(t: Seq<int>, c: int, upto: int)
    ensures
        count_of(t, c, upto) == count_where(is_l_with(t, c), upto) + count_where(
            is_s_with(t, c),
            upto,
        ),
    decreases upto,
{
    if upto > 0 {
        lemma_count_by_type(t, c, upto - 1);
    }
}

/// A bucket begins before its middle, which lies before its end, and the part
/// behind the middle has one slot for each S-type position of the symbol.
pub proof fn lemma_bucket_parts(t: Seq<int>, c: int)
    ensures
        0 <= bucket_start(t, c) <= bucket_middle(t, c) <= bucket_end(t, c) <= t.len(),
        bucket_end(t, c) - bucket_middle(t, c) == count_where(is_s_with(t, c), t.len() as int),
        bucket_end(t, c) - bucket_start(t, c) == count_of(t, c, t.len() as int),
{
    let n = t.len() as int;
    lemma_count_below_step(t, c, n);
    lemma_count_by_type(t, c, n);
    lemma_count_where_bounds(is_l_with(t, c), n);
    lemma_count_where_bounds(is_s_with(t, c), n);
    lemma_count_bounds(t, c, n);
    lemma_count_bounds(t, c + 1, n);
}

/// The bucket of a smaller symbol ends before the bucket of a larger one begins.
pub proof fn lemma_buckets_in_order(t: Seq<int>, c: int, d: int)
    requires
        c < d,
    ensures
        bucket_end(t, c) <= bucket_start(t, d),
{
    lemma_count_below_monotone(t, c + 1, d, t.len() as int);
}

/// A slot inside the bucket of `c` is owned by `c`.
pub proof fn lemma_owner_is(t: Seq<int>, x: int, c: int)
    requires
        bucket_start(t, c) <= x < bucket_end(t, c),
    ensures
        owner_of(t, x) == c,
{
    assert(holds_slot(t, c, x));
    let o = owner_of(t, x);
    if o < c {
        lemma_buckets_in_order(t, o, c);
    } else if c < o {
        lemma_buckets_in_order(t, c, o);
    }
}

/// Every slot is owned by a symbol of the alphabet.
pub proof fn lemma_owner_exists(t: Seq<int>, k: int, x: int)
    requires
        is_text_over(t, k),
        0 <= x < t.len(),
    ensures
        0 <= owner_of(t, x) < k,
        bucket_start(t, owner_of(t, x)) <= x < bucket_end(t, owner_of(t, x)),
{
    lemma_count_below_limits(t, k, t.len() as int);
    lemma_owner_search(t, k, x, 0);
    let c = choose|c: int| 0 <= c < k && holds_slot(t, c, x);
    lemma_owner_is(t, x, c);
}

/// Some symbol from `from` on owns slot `x`.
proof fn lemma_owner_search(t: Seq<int>, k: int, x: int, from: int)
    requires
        0 <= from < k,
        bucket_start(t, from) <= x < bucket_start(t, k),
    ensures
        exists|c: int| 0 <= c < k && holds_slot(t, c, x),
    decreases k - from,
{
    if x < bucket_end(t, from) {
        assert(holds_slot(t, from, x));
    } else {
        lemma_owner_search(t, k, x, from + 1);
    }
}

/// An L-type position is smaller than an S-type position with the same symbol.
pub proof fn lemma_l_before_s(t: Seq<int>, p: int, q: int)
    requires
        0 <= p < t.len(),
        0 <= q < t.len(),
        t[p] == t[q],
        !is_s_type(t, p),
        is_s_type(t, q),
    ensures
        suffix_lt(t, p, q),
    decreases t.len() - p,
{
    assert(q + 1 < t.len());
    assert(suffix_lt(t, p, q) == suffix_lt(t, p + 1, q + 1));
    if p + 1 < t.len() {
        assert(t[p + 1] <= t[p]);
        assert(t[q] <= t[q + 1]);
        if t[p + 1] == t[q + 1] {
            lemma_l_before_s(t, p + 1, q + 1);
        }
    }
}

} // verus!
