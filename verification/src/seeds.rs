//! Seeding the array with the LMS positions, and taking the seeds out again.
//!
//! Before the pass from the left the LMS positions are written to the ends of
//! their buckets, in the order in which they are given. After that pass they
//! are removed, so that the pass from the right finds the back part of every
//! bucket empty.

use vstd::prelude::*;
use crate::classify::{is_lms, is_s_type};
use crate::layout::{
    bucket_end, bucket_middle, EMPTY, in_order, is_s_with, lemma_bucket_parts,
    lemma_buckets_in_order, lemma_distinct_members_bound, lemma_owner_exists, lemma_owner_is,
    occurs, owner_of,
};
use crate::lpass::{by_symbol, is_l_order, is_seeded, l_final_slot, seed_slot};
use crate::spass::{base_slot, is_l_filled, tails_at_end, tails_in_back};
use crate::views::{is_text_over, symbols};

verus! {

/// `order` lists every LMS position of `text` exactly once.
pub open spec fn lists_lms(text: Seq<int>, order: Seq<usize>) -> bool {
    &&& forall|i: int| 0 <= i < order.len() ==> is_lms(text, #[trigger] order[i] as int)
    &&& forall|i: int, j: int| 0 <= i < j < order.len() ==> order[i] != order[j]
    &&& forall|p: int| is_lms(text, p) ==> occurs(order, p)
}

/// Entries of `order` with the same symbol are in the order `le`.
pub open spec fn ordered_within_symbols(
    text: Seq<int>,
    le: spec_fn(int, int) -> bool,
    order: Seq<usize>,
) -> bool {
    forall|i: int, j: int|
        0 <= i < j < order.len() && text[order[i] as int] == text[order[j] as int] ==> le(
            #[trigger] order[i] as int,
            #[trigger] order[j] as int,
        )
}

/// A slot while the seeds are written: from the tail of its bucket on it
/// holds an LMS position with the bucket's symbol, before the tail nothing.
pub open spec fn p_slot(text: Seq<int>, tails: Seq<usize>, sa: Seq<usize>, x: int) -> bool {
    let c = owner_of(text, x);
    if x >= tails[c] {
        sa[x] != EMPTY && sa[x] < text.len() && text[sa[x] as int] == c && is_lms(
            text,
            sa[x] as int,
        )
    } else {
        sa[x] == EMPTY
    }
}

/// The seed in slot `x` is one of the entries of `order` from `r` on.
pub open spec fn p_source(
    text: Seq<int>,
    tails: Seq<usize>,
    order: Seq<usize>,
    sa: Seq<usize>,
    from: Seq<int>,
    r: int,
    x: int,
) -> bool {
    x >= tails[owner_of(text, x)] ==> r <= from[x] < order.len() && order[from[x]] == sa[x]
}

/// The array while the seeds are written, when the entries of `order` from
/// `r` on have been placed.
pub open spec fn p_state(
    text: Seq<int>,
    le: spec_fn(int, int) -> bool,
    order: Seq<usize>,
    tails: Seq<usize>,
    sa: Seq<usize>,
    from: Seq<int>,
    r: int,
) -> bool {
    &&& sa.len() == text.len()
    &&& from.len() == text.len()
    &&& 0 <= r <= order.len()
    &&& tails_in_back(text, tails)
    &&& forall|x: int| 0 <= x < text.len() ==> #[trigger] p_slot(text, tails, sa, x)
    &&& forall|x: int| 0 <= x < text.len() ==> #[trigger] p_source(text, tails, order, sa, from, r, x)
    &&& in_order(le, sa)
    &&& forall|i: int| r <= i < order.len() ==> occurs(sa, #[trigger] order[i] as int)
}

/// What the seeding is given: a text over `[0, k)` and the LMS positions in
/// an order that agrees with `le` inside each bucket.
pub open spec fn p_setting(
    text: Seq<int>,
    k: int,
    le: spec_fn(int, int) -> bool,
    order: Seq<usize>,
) -> bool {
    &&& text.len() >= 1
    &&& text.len() <= EMPTY
    &&& is_text_over(text, k)
    &&& is_l_order(text, le)
    &&& lists_lms(text, order)
    &&& ordered_within_symbols(text, le, order)
}

/// The array after entry `r - 1` of `order` has been placed.
pub proof fn lemma_p_place(
    text: Seq<int>,
    k: int,
    le: spec_fn(int, int) -> bool,
    order: Seq<usize>,
    tails: Seq<usize>,
    sa: Seq<usize>,
    from: Seq<int>,
    r: int,
)
    requires
        p_setting(text, k, le, order),
        tails.len() == k,
        p_state(text, le, order, tails, sa, from, r),
        0 < r,
    ensures
        0 < order[r - 1] < text.len(),
        0 <= text[order[r - 1] as int] < k,
        0 <= bucket_middle(text, text[order[r - 1] as int]) < tails[text[order[r - 1] as int]]
            <= text.len(),
        p_state(
            text,
            le,
            order,
            tails.update(
                text[order[r - 1] as int],
                (tails[text[order[r - 1] as int]] - 1) as usize,
            ),
            sa.update(tails[text[order[r - 1] as int]] - 1, order[r - 1]),
            from.update(tails[text[order[r - 1] as int]] - 1, r - 1),
            r - 1,
        ),
{
    let p = order[r - 1] as int;
    assert(is_lms(text, p));
    let c = text[p];
    let hi = bucket_end(text, c);
    let t0 = tails[c] as int;
    lemma_bucket_parts(text, c);
    assert(bucket_middle(text, c) <= t0 <= hi);
    assert forall|x: int| 0 <= x < text.len() implies sa[x] != p by {
        lemma_owner_exists(text, k, x);
        assert(p_slot(text, tails, sa, x));
        assert(p_source(text, tails, order, sa, from, r, x));
    }
    let members = Seq::new((hi - t0 + 1) as nat, |y: int| if y < hi - t0 { sa[t0 + y] as int } else { p });
    assert forall|y: int| 0 <= y < members.len() implies 0 <= #[trigger] members[y] < text.len()
        && is_s_with(text, c)(members[y]) by {
        if y < hi - t0 {
            lemma_owner_is(text, t0 + y, c);
            assert(p_slot(text, tails, sa, t0 + y));
        }
    }
    assert forall|y: int, z: int| 0 <= y < z < members.len() implies members[y] != members[z] by {
        lemma_owner_is(text, t0 + y, c);
        assert(p_slot(text, tails, sa, t0 + y));
        if z < hi - t0 {
            lemma_owner_is(text, t0 + z, c);
            assert(p_slot(text, tails, sa, t0 + z));
            assert(sa[t0 + y] != sa[t0 + z]);
        }
    }
    lemma_distinct_members_bound(is_s_with(text, c), members, text.len() as int);
    let s = t0 - 1;
    lemma_owner_is(text, s, c);
    assert(p_slot(text, tails, sa, s));
    let tails2 = tails.update(c, s as usize);
    let after = sa.update(s, order[r - 1]);
    let from2 = from.update(s, r - 1);
    assert forall|d: int| 0 <= d < tails2.len() implies bucket_middle(text, d)
        <= #[trigger] tails2[d] <= bucket_end(text, d) by {
        assert(bucket_middle(text, d) <= tails[d] <= bucket_end(text, d));
    }
    assert forall|x: int| 0 <= x < text.len() implies #[trigger] p_slot(text, tails2, after, x) by {
        lemma_owner_exists(text, k, x);
        assert(p_slot(text, tails, sa, x));
    }
    assert forall|x: int| 0 <= x < text.len() implies #[trigger] p_source(
        text,
        tails2,
        order,
        after,
        from2,
        r - 1,
        x,
    ) by {
        lemma_owner_exists(text, k, x);
        assert(p_source(text, tails, order, sa, from, r, x));
    }
    assert forall|a: int, b: int|
        0 <= a < b < after.len() && after[a] != EMPTY && after[b] != EMPTY implies after[a]
        != after[b] && le(after[a] as int, after[b] as int) by {
        if a == s {
            let e = sa[b] as int;
            lemma_owner_exists(text, k, b);
            assert(p_slot(text, tails, sa, b));
            assert(p_source(text, tails, order, sa, from, r, b));
            lemma_bucket_parts(text, text[e]);
            if text[e] == c {
                assert(le(order[r - 1] as int, order[from[b]] as int));
            } else {
                if text[e] < c {
                    lemma_buckets_in_order(text, text[e], c);
                }
                assert(by_symbol(text, le, p, e));
            }
        } else if b == s {
            let e = sa[a] as int;
            lemma_owner_exists(text, k, a);
            assert(p_slot(text, tails, sa, a));
            lemma_bucket_parts(text, text[e]);
            if text[e] > c {
                lemma_buckets_in_order(text, c, text[e]);
            }
            assert(by_symbol(text, le, e, p));
        } else {
            assert(after[a] == sa[a] && after[b] == sa[b]);
        }
    }
    assert forall|i: int| r - 1 <= i < order.len() implies occurs(
        after,
        #[trigger] order[i] as int,
    ) by {
        if i >= r {
            assert(occurs(sa, order[i] as int));
            let x = choose|x: int| 0 <= x < sa.len() && sa[x] == order[i];
            assert(after[x] == order[i]);
        } else {
            assert(after[s] == order[i]);
        }
    }
}

/// The array before any seed has been placed.
pub proof fn lemma_p_begin(
    text: Seq<int>,
    k: int,
    le: spec_fn(int, int) -> bool,
    order: Seq<usize>,
    tails: Seq<usize>,
    sa: Seq<usize>,
)
    requires
        p_setting(text, k, le, order),
        tails.len() == k,
        tails_at_end(text, tails),
        sa.len() == text.len(),
        forall|x: int| 0 <= x < sa.len() ==> #[trigger] sa[x] == EMPTY,
    ensures
        p_state(
            text,
            le,
            order,
            tails,
            sa,
            Seq::new(text.len(), |x: int| -1int),
            order.len() as int,
        ),
{
    let from = Seq::new(text.len(), |x: int| -1int);
    assert forall|d: int| 0 <= d < tails.len() implies bucket_middle(text, d)
        <= #[trigger] tails[d] <= bucket_end(text, d) by {
        lemma_bucket_parts(text, d);
    }
    assert forall|x: int| 0 <= x < text.len() implies #[trigger] p_slot(text, tails, sa, x) by {
        lemma_owner_exists(text, k, x);
    }
    assert forall|x: int| 0 <= x < text.len() implies #[trigger] p_source(
        text,
        tails,
        order,
        sa,
        from,
        order.len() as int,
        x,
    ) by {
        lemma_owner_exists(text, k, x);
    }
}

/// When all seeds have been placed the array is seeded.
pub proof fn lemma_p_end(
    text: Seq<int>,
    k: int,
    le: spec_fn(int, int) -> bool,
    order: Seq<usize>,
    tails: Seq<usize>,
    sa: Seq<usize>,
    from: Seq<int>,
)
    requires
        p_setting(text, k, le, order),
        tails.len() == k,
        p_state(text, le, order, tails, sa, from, 0),
    ensures
        is_seeded(text, sa),
{
    assert forall|x: int| 0 <= x < text.len() implies #[trigger] seed_slot(text, sa, x) by {
        lemma_owner_exists(text, k, x);
        assert(p_slot(text, tails, sa, x));
    }
    assert forall|p: int| is_lms(text, p) implies occurs(sa, p) by {
        assert(occurs(order, p));
        let i = choose|i: int| 0 <= i < order.len() && order[i] == p;
        assert(occurs(sa, order[i] as int));
    }
}

/// Empties the array and writes the positions of `order` to the ends of the
/// buckets of their symbols, the last entry first.
pub fn place_seeds(
    t: &[u64],
    ends: &[usize],
    sa: &mut Vec<usize>,
    order: &[usize],
    Ghost(le): Ghost<spec_fn(int, int) -> bool>,
)
    requires
        old(sa)@.len() == t@.len(),
        p_setting(symbols(t@), ends@.len() as int, le, order@),
        tails_at_end(symbols(t@), ends@),
    ensures
        is_seeded(symbols(t@), final(sa)@),
        in_order(le, final(sa)@),
{
    let n = t.len();
    let width = ends.len();
    let ghost text = symbols(t@);
    let ghost k = width as int;
    let mut i: usize = 0;
    while i < n
        invariant
            n == t@.len(),
            sa@.len() == n,
            i <= n,
            forall|j: int| 0 <= j < i ==> #[trigger] sa@[j] == EMPTY,
        decreases n - i,
    {
        sa[i] = EMPTY;
        i += 1;
    }
    let mut tails: Vec<usize> = vstd::slice::slice_to_vec(ends);
    let ghost mut from = Seq::new(text.len(), |x: int| -1int);
    proof {
        assert(text.len() == n);
        lemma_p_begin(text, k, le, order@, tails@, sa@);
    }
    let mut r: usize = order.len();
    while r > 0
        invariant
            n == t@.len(),
            text == symbols(t@),
            k == width,
            tails@.len() == k,
            p_setting(text, k, le, order@),
            p_state(text, le, order@, tails@, sa@, from, r as int),
        decreases r,
    {
        proof {
            lemma_p_place(text, k, le, order@, tails@, sa@, from, r as int);
        }
        let p = order[r - 1];
        assert(t@[p as int] as int == text[p as int]);
        let c = t[p] as usize;
        assert(c as int == text[p as int]);
        let slot = tails[c] - 1;
        tails[c] = slot;
        sa[slot] = p;
        proof {
            from = from.update(slot as int, r - 1);
        }
        r -= 1;
    }
    proof {
        lemma_p_end(text, k, le, order@, tails@, sa@, from);
    }
}

/// Removing entries from an array in order leaves it in order.
pub proof fn lemma_in_order_after_removal(
    le: spec_fn(int, int) -> bool,
    before: Seq<usize>,
    after: Seq<usize>,
)
    requires
        in_order(le, before),
        after.len() == before.len(),
        forall|x: int| 0 <= x < before.len() ==> #[trigger] after[x] == EMPTY || after[x] == before[x],
    ensures
        in_order(le, after),
{
    assert forall|a: int, b: int|
        0 <= a < b < after.len() && after[a] != EMPTY && after[b] != EMPTY implies after[a]
        != after[b] && le(after[a] as int, after[b] as int) by {
        assert(after[a] == before[a] && after[b] == before[b]);
    }
}

/// An array after the pass from the left, with the seeds taken out, holds
/// the L-type positions and nothing else.
pub proof fn lemma_seeds_removed(
    text: Seq<int>,
    k: int,
    seed: Seq<usize>,
    before: Seq<usize>,
    after: Seq<usize>,
)
    requires
        is_text_over(text, k),
        is_seeded(text, seed),
        before.len() == text.len(),
        after.len() == text.len(),
        forall|x: int| 0 <= x < text.len() ==> #[trigger] l_final_slot(text, seed, before, x),
        forall|j: int| 0 <= j < text.len() && !is_s_type(text, j) ==> occurs(before, j),
        forall|x: int|
            0 <= x < text.len() ==> #[trigger] after[x] == (if before[x] != EMPTY && is_s_type(
                text,
                before[x] as int,
            ) {
                EMPTY
            } else {
                before[x]
            }),
    ensures
        is_l_filled(text, after),
{
    assert forall|x: int| 0 <= x < text.len() implies #[trigger] base_slot(text, after, x) by {
        lemma_owner_exists(text, k, x);
        assert(l_final_slot(text, seed, before, x));
        assert(seed_slot(text, seed, x));
    }
    assert forall|j: int| 0 <= j < text.len() && !is_s_type(text, j) implies occurs(after, j) by {
        assert(occurs(before, j));
        let x = choose|x: int| 0 <= x < before.len() && before[x] == j;
        assert(after[x] == j);
    }
}

/// Takes the S-type positions out of the array.
pub fn remove_s_type(types: &[bool], sa: &mut Vec<usize>)
    requires
        forall|x: int|
            0 <= x < old(sa)@.len() ==> #[trigger] old(sa)@[x] == EMPTY || old(sa)@[x]
                < types@.len(),
    ensures
        final(sa)@.len() == old(sa)@.len(),
        forall|x: int|
            0 <= x < old(sa)@.len() ==> #[trigger] final(sa)@[x] == (if old(sa)@[x] != EMPTY
                && types@[old(sa)@[x] as int] {
                EMPTY
            } else {
                old(sa)@[x]
            }),
{
    let n = sa.len();
    let mut i: usize = 0;
    while i < n
        invariant
            n == sa@.len(),
            n == old(sa)@.len(),
            i <= n,
            forall|x: int|
                0 <= x < n ==> #[trigger] old(sa)@[x] == EMPTY || old(sa)@[x] < types@.len(),
            forall|x: int| i <= x < n ==> sa@[x] == old(sa)@[x],
            forall|x: int|
                0 <= x < i ==> #[trigger] sa@[x] == (if old(sa)@[x] != EMPTY && types@[old(
                    sa,
                )@[x] as int] {
                    EMPTY
                } else {
                    old(sa)@[x]
                }),
        decreases n - i,
    {
        let p = sa[i];
        assert(old(sa)@[i as int] == EMPTY || old(sa)@[i as int] < types@.len());
        if p != EMPTY && types[p] {
            sa[i] = EMPTY;
        }
        i += 1;
    }
}

} // verus!
