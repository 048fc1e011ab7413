//! The pass from the right, and what it is proved to do.
//!
//! The pass reads the array from its last slot to its first. Wherever a slot
//! holds a position whose predecessor is S-type, the predecessor goes to the
//! tail of its bucket. It starts from an array whose buckets hold their
//! L-type positions in front and nothing behind them, and ends with every
//! position in its place.

use vstd::prelude::*;
use crate::classify::{is_s_type, is_type_map};
use crate::layout::{
    bucket_end, bucket_middle, bucket_start, EMPTY, in_order, is_s_with, lemma_all_members_bound,
    lemma_bucket_parts, lemma_buckets_in_order, lemma_distinct_members_bound, lemma_owner_exists,
    lemma_owner_is, occurs, owner_of,
};
use crate::lpass::{by_symbol, by_type};
use crate::views::{is_text_over, symbols};

verus! {

/// Two S-type positions with the same symbol are in order if their successors are.
pub open spec fn s_step(text: Seq<int>, le: spec_fn(int, int) -> bool, a: int, b: int) -> bool {
    text[a] == text[b] && is_s_type(text, a) && is_s_type(text, b) && le(a + 1, b + 1) ==> le(
        a,
        b,
    )
}

/// `le` is an order that the pass from the right can extend from the L-type
/// positions to the S-type positions.
pub open spec fn is_s_order(text: Seq<int>, le: spec_fn(int, int) -> bool) -> bool {
    &&& forall|a: int, b: int|
        0 <= a < text.len() && 0 <= b < text.len() ==> #[trigger] by_symbol(text, le, a, b)
    &&& forall|a: int, b: int|
        0 <= a < text.len() && 0 <= b < text.len() ==> #[trigger] by_type(text, le, a, b)
    &&& forall|a: int, b: int|
        0 <= a < text.len() && 0 <= b < text.len() ==> #[trigger] s_step(text, le, a, b)
}

/// A slot of the array that the pass starts from: in the front part of its
/// bucket an L-type position with the bucket's symbol, in the back part nothing.
pub open spec fn base_slot(text: Seq<int>, base: Seq<usize>, x: int) -> bool {
    let c = owner_of(text, x);
    if x < bucket_middle(text, c) {
        base[x] != EMPTY && base[x] < text.len() && text[base[x] as int] == c && !is_s_type(
            text,
            base[x] as int,
        )
    } else {
        base[x] == EMPTY
    }
}

/// `base` holds the L-type positions, each in the front part of its bucket,
/// and nothing else.
pub open spec fn is_l_filled(text: Seq<int>, base: Seq<usize>) -> bool {
    &&& base.len() == text.len()
    &&& forall|x: int| 0 <= x < text.len() ==> #[trigger] base_slot(text, base, x)
    &&& forall|j: int| 0 <= j < text.len() && !is_s_type(text, j) ==> occurs(base, j)
}

/// A slot during the pass: from the tail of its bucket on it holds an S-type
/// position with the bucket's symbol; between the middle and the tail it is
/// empty; before the middle it is as the pass found it.
pub open spec fn s_slot(
    text: Seq<int>,
    tails: Seq<usize>,
    base: Seq<usize>,
    sa: Seq<usize>,
    x: int,
) -> bool {
    let c = owner_of(text, x);
    if x >= tails[c] {
        sa[x] != EMPTY && sa[x] < text.len() && text[sa[x] as int] == c && is_s_type(
            text,
            sa[x] as int,
        )
    } else if x >= bucket_middle(text, c) {
        sa[x] == EMPTY
    } else {
        sa[x] == base[x]
    }
}

/// The successor of an S-type position in a filled slot stands in a slot that
/// the pass has read.
pub open spec fn s_source(
    text: Seq<int>,
    tails: Seq<usize>,
    sa: Seq<usize>,
    src: Seq<int>,
    i: int,
    x: int,
) -> bool {
    x >= tails[owner_of(text, x)] ==> i <= src[x] < text.len() && sa[src[x]] == sa[x] + 1
}

/// The S-type predecessor of the position in slot `y` has been placed.
pub open spec fn s_done(text: Seq<int>, sa: Seq<usize>, y: int) -> bool {
    sa[y] != EMPTY && sa[y] > 0 && is_s_type(text, sa[y] - 1) ==> occurs(sa, sa[y] - 1)
}

/// Each tail lies between the middle and the end of its bucket.
pub open spec fn tails_in_back(text: Seq<int>, tails: Seq<usize>) -> bool {
    forall|c: int|
        0 <= c < tails.len() ==> bucket_middle(text, c) <= #[trigger] tails[c] <= bucket_end(
            text,
            c,
        )
}

/// The tails stand at the ends of their buckets.
pub open spec fn tails_at_end(text: Seq<int>, tails: Seq<usize>) -> bool {
    forall|c: int| 0 <= c < tails.len() ==> #[trigger] tails[c] == bucket_end(text, c)
}

/// The array in the middle of the pass, when the slots from `i` on have been read.
pub open spec fn s_state(
    text: Seq<int>,
    le: spec_fn(int, int) -> bool,
    base: Seq<usize>,
    tails: Seq<usize>,
    sa: Seq<usize>,
    src: Seq<int>,
    i: int,
) -> bool {
    &&& sa.len() == text.len()
    &&& src.len() == text.len()
    &&& 0 <= i <= text.len()
    &&& tails_in_back(text, tails)
    &&& forall|x: int| 0 <= x < text.len() ==> #[trigger] s_slot(text, tails, base, sa, x)
    &&& in_order(le, sa)
    &&& forall|x: int| 0 <= x < text.len() ==> #[trigger] s_source(text, tails, sa, src, i, x)
    &&& forall|y: int| i <= y < text.len() ==> #[trigger] s_done(text, sa, y)
}

/// What the pass is given: a text over `[0, k)`, an order to extend, and the
/// L-type positions in place.
pub open spec fn s_setting(
    text: Seq<int>,
    k: int,
    le: spec_fn(int, int) -> bool,
    base: Seq<usize>,
) -> bool {
    &&& text.len() >= 1
    &&& text.len() <= EMPTY
    &&& is_text_over(text, k)
    &&& is_s_order(text, le)
    &&& is_l_filled(text, base)
}

/// What a filled slot holds: a position with the symbol that owns the slot,
/// S-type from the tail of the bucket on and L-type before the middle.
pub proof fn lemma_s_entry(
    text: Seq<int>,
    k: int,
    le: spec_fn(int, int) -> bool,
    base: Seq<usize>,
    tails: Seq<usize>,
    sa: Seq<usize>,
    src: Seq<int>,
    i: int,
    x: int,
)
    requires
        s_setting(text, k, le, base),
        tails.len() == k,
        s_state(text, le, base, tails, sa, src, i),
        0 <= x < text.len(),
        sa[x] != EMPTY,
    ensures
        0 <= sa[x] < text.len(),
        0 <= text[sa[x] as int] < k,
        owner_of(text, x) == text[sa[x] as int],
        bucket_start(text, text[sa[x] as int]) <= x < bucket_end(text, text[sa[x] as int]),
        is_s_type(text, sa[x] as int) <==> x >= tails[text[sa[x] as int]],
        !is_s_type(text, sa[x] as int) ==> x < bucket_middle(text, text[sa[x] as int]),
{
    lemma_owner_exists(text, k, x);
    assert(s_slot(text, tails, base, sa, x));
    assert(base_slot(text, base, x));
}

/// A position whose successor stands in the slot being read has not been
/// placed yet.
pub proof fn lemma_s_absent(
    text: Seq<int>,
    k: int,
    le: spec_fn(int, int) -> bool,
    base: Seq<usize>,
    tails: Seq<usize>,
    sa: Seq<usize>,
    src: Seq<int>,
    i: int,
    j: int,
    x: int,
)
    requires
        s_setting(text, k, le, base),
        tails.len() == k,
        s_state(text, le, base, tails, sa, src, i),
        0 < i <= text.len(),
        sa[i - 1] != EMPTY,
        sa[i - 1] == j + 1,
        0 <= j,
        is_s_type(text, j),
        0 <= x < text.len(),
    ensures
        sa[x] != j,
{
    if sa[x] == j {
        lemma_s_entry(text, k, le, base, tails, sa, src, i, x);
        lemma_s_entry(text, k, le, base, tails, sa, src, i, i - 1);
        assert(s_source(text, tails, sa, src, i, x));
        let y = src[x];
        assert(sa[y] == sa[i - 1]);
        assert(i - 1 < y);
    }
}

/// The bucket of a position that has not been placed yet has room at its tail.
pub proof fn lemma_s_room(
    text: Seq<int>,
    k: int,
    le: spec_fn(int, int) -> bool,
    base: Seq<usize>,
    tails: Seq<usize>,
    sa: Seq<usize>,
    src: Seq<int>,
    i: int,
    j: int,
)
    requires
        s_setting(text, k, le, base),
        tails.len() == k,
        s_state(text, le, base, tails, sa, src, i),
        0 <= j < text.len(),
        is_s_type(text, j),
        forall|x: int| 0 <= x < text.len() ==> sa[x] != j,
    ensures
        tails[text[j]] > bucket_middle(text, text[j]),
        sa[tails[text[j]] - 1] == EMPTY,
        owner_of(text, tails[text[j]] - 1) == text[j],
{
    let c = text[j];
    let hi = bucket_end(text, c);
    let s = tails[c] as int;
    lemma_bucket_parts(text, c);
    assert(bucket_middle(text, c) <= s <= hi);
    let members = Seq::new((hi - s + 1) as nat, |y: int| if y < hi - s { sa[s + y] as int } else { j });
    assert forall|y: int| 0 <= y < members.len() implies 0 <= #[trigger] members[y] < text.len()
        && is_s_with(text, c)(members[y]) by {
        if y < hi - s {
            lemma_owner_is(text, s + y, c);
            assert(s_slot(text, tails, base, sa, s + y));
        }
    }
    assert forall|y: int, z: int| 0 <= y < z < members.len() implies members[y] != members[z] by {
        lemma_owner_is(text, s + y, c);
        assert(s_slot(text, tails, base, sa, s + y));
        if z < hi - s {
            lemma_owner_is(text, s + z, c);
            assert(s_slot(text, tails, base, sa, s + z));
            assert(sa[s + y] != sa[s + z]);
        }
    }
    lemma_distinct_members_bound(is_s_with(text, c), members, text.len() as int);
    lemma_owner_is(text, s - 1, c);
    assert(s_slot(text, tails, base, sa, s - 1));
}

/// The slot that receives a position lies before the slot being read.
pub proof fn lemma_s_ahead(
    text: Seq<int>,
    k: int,
    le: spec_fn(int, int) -> bool,
    base: Seq<usize>,
    tails: Seq<usize>,
    sa: Seq<usize>,
    src: Seq<int>,
    i: int,
    j: int,
)
    requires
        s_setting(text, k, le, base),
        tails.len() == k,
        s_state(text, le, base, tails, sa, src, i),
        0 < i <= text.len(),
        sa[i - 1] != EMPTY,
        sa[i - 1] == j + 1,
        0 <= j,
        is_s_type(text, j),
    ensures
        tails[text[j]] <= i - 1,
{
    let c = text[j];
    let p = j + 1;
    lemma_s_entry(text, k, le, base, tails, sa, src, i, i - 1);
    lemma_bucket_parts(text, c);
    assert(c <= text[p]);
    if c < text[p] {
        lemma_buckets_in_order(text, c, text[p]);
    }
}

/// Placing a position that is in order with the S-type positions already in
/// its bucket keeps the whole array in order.
pub proof fn lemma_s_fits(
    text: Seq<int>,
    k: int,
    le: spec_fn(int, int) -> bool,
    base: Seq<usize>,
    tails: Seq<usize>,
    sa: Seq<usize>,
    src: Seq<int>,
    i: int,
    j: int,
)
    requires
        s_setting(text, k, le, base),
        tails.len() == k,
        s_state(text, le, base, tails, sa, src, i),
        0 <= j < text.len(),
        is_s_type(text, j),
        forall|x: int| 0 <= x < text.len() ==> sa[x] != j,
        forall|a: int|
            tails[text[j]] <= a < bucket_end(text, text[j]) ==> le(j, #[trigger] sa[a] as int),
    ensures
        in_order(le, sa.update(tails[text[j]] - 1, j as usize)),
{
    let c = text[j];
    let s = tails[c] - 1;
    let after = sa.update(s, j as usize);
    lemma_s_room(text, k, le, base, tails, sa, src, i, j);
    lemma_bucket_parts(text, c);
    assert forall|a: int, b: int|
        0 <= a < b < after.len() && after[a] != EMPTY && after[b] != EMPTY implies after[a]
        != after[b] && le(after[a] as int, after[b] as int) by {
        if a == s {
            let e = sa[b] as int;
            lemma_s_entry(text, k, le, base, tails, sa, src, i, b);
            if text[e] == c {
                assert(le(j, sa[b] as int));
            } else {
                if text[e] < c {
                    lemma_buckets_in_order(text, text[e], c);
                }
                assert(by_symbol(text, le, j, e));
            }
        } else if b == s {
            let e = sa[a] as int;
            lemma_s_entry(text, k, le, base, tails, sa, src, i, a);
            if text[e] == c {
                assert(by_type(text, le, e, j));
            } else {
                if text[e] > c {
                    lemma_buckets_in_order(text, c, text[e]);
                }
                assert(by_symbol(text, le, e, j));
            }
        } else {
            assert(after[a] == sa[a] && after[b] == sa[b]);
        }
    }
}

/// The predecessor of the position in the slot being read comes before the
/// S-type positions already in its bucket.
pub proof fn lemma_s_behind(
    text: Seq<int>,
    k: int,
    le: spec_fn(int, int) -> bool,
    base: Seq<usize>,
    tails: Seq<usize>,
    sa: Seq<usize>,
    src: Seq<int>,
    i: int,
    j: int,
    a: int,
)
    requires
        s_setting(text, k, le, base),
        tails.len() == k,
        s_state(text, le, base, tails, sa, src, i),
        0 < i <= text.len(),
        sa[i - 1] != EMPTY,
        sa[i - 1] == j + 1,
        0 <= j,
        is_s_type(text, j),
        tails[text[j]] <= a < bucket_end(text, text[j]),
    ensures
        le(j, sa[a] as int),
{
    lemma_s_entry(text, k, le, base, tails, sa, src, i, i - 1);
    let c = text[j];
    let e = sa[a] as int;
    lemma_bucket_parts(text, c);
    assert(bucket_middle(text, c) <= tails[c]);
    lemma_owner_is(text, a, c);
    assert(s_slot(text, tails, base, sa, a));
    assert(s_source(text, tails, sa, src, i, a));
    let y = src[a];
    assert(sa[y] != EMPTY && sa[i - 1] != EMPTY && i - 1 < y);
    assert(le(sa[i - 1] as int, sa[y] as int));
    assert(s_step(text, le, j, e));
}

/// The slots after a position has been placed at the tail of its bucket.
pub proof fn lemma_s_slots_after(
    text: Seq<int>,
    k: int,
    le: spec_fn(int, int) -> bool,
    base: Seq<usize>,
    tails: Seq<usize>,
    sa: Seq<usize>,
    src: Seq<int>,
    i: int,
    j: int,
)
    requires
        s_setting(text, k, le, base),
        tails.len() == k,
        s_state(text, le, base, tails, sa, src, i),
        0 <= j < text.len(),
        is_s_type(text, j),
        tails[text[j]] > bucket_middle(text, text[j]),
    ensures
        tails_in_back(text, tails.update(text[j], (tails[text[j]] - 1) as usize)),
        forall|x: int|
            0 <= x < text.len() ==> #[trigger] s_slot(
                text,
                tails.update(text[j], (tails[text[j]] - 1) as usize),
                base,
                sa.update(tails[text[j]] - 1, j as usize),
                x,
            ),
{
    let c = text[j];
    let s = tails[c] - 1;
    let tails2 = tails.update(c, s as usize);
    let after = sa.update(s, j as usize);
    lemma_bucket_parts(text, c);
    lemma_owner_is(text, s, c);
    assert forall|d: int| 0 <= d < tails2.len() implies bucket_middle(text, d)
        <= #[trigger] tails2[d] <= bucket_end(text, d) by {
        assert(bucket_middle(text, d) <= tails[d] <= bucket_end(text, d));
    }
    assert forall|x: int| 0 <= x < text.len() implies #[trigger] s_slot(
        text,
        tails2,
        base,
        after,
        x,
    ) by {
        lemma_owner_exists(text, k, x);
        assert(s_slot(text, tails, base, sa, x));
    }
}

/// The array after the predecessor of the position in slot `i - 1` has been placed.
pub proof fn lemma_s_place(
    text: Seq<int>,
    k: int,
    le: spec_fn(int, int) -> bool,
    base: Seq<usize>,
    tails: Seq<usize>,
    sa: Seq<usize>,
    src: Seq<int>,
    i: int,
    j: int,
)
    requires
        s_setting(text, k, le, base),
        tails.len() == k,
        s_state(text, le, base, tails, sa, src, i),
        0 < i <= text.len(),
        sa[i - 1] != EMPTY,
        sa[i - 1] == j + 1,
        0 <= j,
        is_s_type(text, j),
    ensures
        j < text.len(),
        0 <= text[j] < k,
        0 <= bucket_middle(text, text[j]) < tails[text[j]] <= i - 1,
        sa[tails[text[j]] - 1] == EMPTY,
        s_state(
            text,
            le,
            base,
            tails.update(text[j], (tails[text[j]] - 1) as usize),
            sa.update(tails[text[j]] - 1, j as usize),
            src.update(tails[text[j]] - 1, i - 1),
            i - 1,
        ),
{
    lemma_s_entry(text, k, le, base, tails, sa, src, i, i - 1);
    let c = text[j];
    let s = tails[c] - 1;
    let tails2 = tails.update(c, s as usize);
    let after = sa.update(s, j as usize);
    let src2 = src.update(s, i - 1);
    lemma_bucket_parts(text, c);
    assert forall|x: int| 0 <= x < text.len() implies sa[x] != j by {
        lemma_s_absent(text, k, le, base, tails, sa, src, i, j, x);
    }
    lemma_s_room(text, k, le, base, tails, sa, src, i, j);
    lemma_s_ahead(text, k, le, base, tails, sa, src, i, j);
    assert forall|a: int| tails[c] <= a < bucket_end(text, c) implies le(
        j,
        #[trigger] sa[a] as int,
    ) by {
        lemma_s_behind(text, k, le, base, tails, sa, src, i, j, a);
    }
    lemma_s_fits(text, k, le, base, tails, sa, src, i, j);
    lemma_s_slots_after(text, k, le, base, tails, sa, src, i, j);
    assert forall|x: int| 0 <= x < text.len() implies #[trigger] s_source(
        text,
        tails2,
        after,
        src2,
        i - 1,
        x,
    ) by {
        lemma_owner_exists(text, k, x);
        if x != s && x >= tails2[owner_of(text, x)] {
            assert(s_source(text, tails, sa, src, i, x));
            assert(s_slot(text, tails, base, sa, x));
            assert(sa[src[x]] != EMPTY);
        }
    }
    assert forall|y: int| i - 1 <= y < text.len() implies #[trigger] s_done(text, after, y) by {
        if y >= i {
            assert(s_done(text, sa, y));
            if sa[y] != EMPTY && sa[y] > 0 && is_s_type(text, sa[y] - 1) {
                let x = choose|x: int| 0 <= x < sa.len() && sa[x] == sa[y] - 1;
                assert(after[x] == sa[y] - 1);
            }
        } else {
            assert(after[s] == j);
        }
    }
}

/// The array after a slot has been read whose position has no S-type predecessor.
pub proof fn lemma_s_skip(
    text: Seq<int>,
    k: int,
    le: spec_fn(int, int) -> bool,
    base: Seq<usize>,
    tails: Seq<usize>,
    sa: Seq<usize>,
    src: Seq<int>,
    i: int,
)
    requires
        s_setting(text, k, le, base),
        tails.len() == k,
        s_state(text, le, base, tails, sa, src, i),
        0 < i <= text.len(),
        sa[i - 1] == EMPTY || sa[i - 1] == 0 || !is_s_type(text, sa[i - 1] - 1),
    ensures
        s_state(text, le, base, tails, sa, src, i - 1),
{
    assert forall|x: int| 0 <= x < text.len() implies #[trigger] s_source(
        text,
        tails,
        sa,
        src,
        i - 1,
        x,
    ) by {
        assert(s_source(text, tails, sa, src, i, x));
    }
    assert forall|y: int| i - 1 <= y < text.len() implies #[trigger] s_done(text, sa, y) by {
        if y >= i {
            assert(s_done(text, sa, y));
        }
    }
}

/// The array at the beginning of the pass.
pub proof fn lemma_s_begin(
    text: Seq<int>,
    k: int,
    le: spec_fn(int, int) -> bool,
    base: Seq<usize>,
    tails: Seq<usize>,
)
    requires
        s_setting(text, k, le, base),
        in_order(le, base),
        tails.len() == k,
        tails_at_end(text, tails),
    ensures
        s_state(text, le, base, tails, base, Seq::new(text.len(), |x: int| -1int), text.len() as int),
{
    let src = Seq::new(text.len(), |x: int| -1int);
    assert forall|d: int| 0 <= d < tails.len() implies bucket_middle(text, d)
        <= #[trigger] tails[d] <= bucket_end(text, d) by {
        lemma_bucket_parts(text, d);
    }
    assert forall|x: int| 0 <= x < text.len() implies #[trigger] s_slot(text, tails, base, base, x) by {
        lemma_owner_exists(text, k, x);
        assert(base_slot(text, base, x));
    }
    assert forall|x: int| 0 <= x < text.len() implies #[trigger] s_source(
        text,
        tails,
        base,
        src,
        text.len() as int,
        x,
    ) by {
        lemma_owner_exists(text, k, x);
    }
}

/// At the end of the pass every S-type position has been placed.
pub proof fn lemma_s_complete(
    text: Seq<int>,
    k: int,
    le: spec_fn(int, int) -> bool,
    base: Seq<usize>,
    tails: Seq<usize>,
    sa: Seq<usize>,
    src: Seq<int>,
    j: int,
)
    requires
        s_setting(text, k, le, base),
        tails.len() == k,
        s_state(text, le, base, tails, sa, src, 0),
        0 <= j < text.len(),
        is_s_type(text, j),
    ensures
        occurs(sa, j),
    decreases text.len() - j,
{
    let p = j + 1;
    assert(p < text.len());
    if is_s_type(text, p) {
        lemma_s_complete(text, k, le, base, tails, sa, src, p);
    } else {
        lemma_l_kept(text, k, le, base, tails, sa, src, 0, p);
    }
    let y = choose|y: int| 0 <= y < sa.len() && sa[y] == p;
    assert(s_done(text, sa, y));
}

/// The L-type positions stay where the pass found them.
pub proof fn lemma_l_kept(
    text: Seq<int>,
    k: int,
    le: spec_fn(int, int) -> bool,
    base: Seq<usize>,
    tails: Seq<usize>,
    sa: Seq<usize>,
    src: Seq<int>,
    i: int,
    p: int,
)
    requires
        s_setting(text, k, le, base),
        tails.len() == k,
        s_state(text, le, base, tails, sa, src, i),
        0 <= p < text.len(),
        !is_s_type(text, p),
    ensures
        occurs(sa, p),
{
    assert(occurs(base, p));
    let x = choose|x: int| 0 <= x < base.len() && base[x] == p;
    lemma_owner_exists(text, k, x);
    assert(base_slot(text, base, x));
    assert(s_slot(text, tails, base, sa, x));
    assert(sa[x] == p);
}

/// At the end of the pass the tail of every bucket has reached the middle.
pub proof fn lemma_s_full(
    text: Seq<int>,
    k: int,
    le: spec_fn(int, int) -> bool,
    base: Seq<usize>,
    tails: Seq<usize>,
    sa: Seq<usize>,
    src: Seq<int>,
    c: int,
)
    requires
        s_setting(text, k, le, base),
        tails.len() == k,
        s_state(text, le, base, tails, sa, src, 0),
        forall|j: int| 0 <= j < text.len() && is_s_type(text, j) ==> occurs(sa, j),
        0 <= c < k,
    ensures
        tails[c] == bucket_middle(text, c),
{
    let lo = tails[c] as int;
    let hi = bucket_end(text, c);
    lemma_bucket_parts(text, c);
    assert(bucket_middle(text, c) <= lo <= hi);
    let members = Seq::new((hi - lo) as nat, |y: int| sa[lo + y] as int);
    assert forall|x: int| 0 <= x < text.len() && #[trigger] is_s_with(text, c)(x) implies exists|
        y: int,
    |
        0 <= y < members.len() && members[y] == x by {
        assert(occurs(sa, x));
        let z = choose|z: int| 0 <= z < sa.len() && sa[z] == x;
        lemma_s_entry(text, k, le, base, tails, sa, src, 0, z);
        assert(members[z - lo] == x);
    }
    lemma_all_members_bound(is_s_with(text, c), members, text.len() as int);
}

/// `sa` lists every position of a text of length `n` exactly once, in the order `le`.
pub open spec fn is_ordered_listing(le: spec_fn(int, int) -> bool, sa: Seq<usize>, n: int) -> bool {
    &&& sa.len() == n
    &&& forall|x: int| 0 <= x < n ==> #[trigger] sa[x] < n
    &&& in_order(le, sa)
    &&& forall|j: int| 0 <= j < n ==> occurs(sa, j)
}

/// The pass from the right.
///
/// Given the L-type positions in the front parts of their buckets, in the
/// order `le`, the pass fills the back part of every bucket with the S-type
/// positions of its symbol, so that the array lists all positions in the
/// order `le`.
pub fn induce_s_type(
    t: &[u64],
    types: &[bool],
    ends: &[usize],
    sa: &mut Vec<usize>,
    Ghost(le): Ghost<spec_fn(int, int) -> bool>,
)
    requires
        s_setting(symbols(t@), ends@.len() as int, le, old(sa)@),
        is_type_map(symbols(t@), types@),
        tails_at_end(symbols(t@), ends@),
        in_order(le, old(sa)@),
    ensures
        is_ordered_listing(le, final(sa)@, t@.len() as int),
{
    let n = t.len();
    let width = ends.len();
    let ghost text = symbols(t@);
    let ghost base = sa@;
    let ghost k = width as int;
    let ghost mut src = Seq::new(text.len(), |x: int| -1int);
    let mut tails: Vec<usize> = vstd::slice::slice_to_vec(ends);
    proof {
        assert(text.len() == n);
        lemma_s_begin(text, k, le, base, tails@);
    }
    let mut i: usize = n;
    while i > 0
        invariant
            n == t@.len(),
            text == symbols(t@),
            k == width,
            tails@.len() == k,
            s_setting(text, k, le, base),
            is_type_map(text, types@),
            s_state(text, le, base, tails@, sa@, src, i as int),
        decreases i,
    {
        let p = sa[i - 1];
        proof {
            if p != EMPTY {
                lemma_s_entry(text, k, le, base, tails@, sa@, src, i as int, i - 1);
            }
        }
        if p != EMPTY && p > 0 && types[p - 1] {
            let j = p - 1;
            proof {
                lemma_s_place(text, k, le, base, tails@, sa@, src, i as int, j as int);
                assert(t@[j as int] as int == text[j as int]);
            }
            let c = t[j] as usize;
            assert(c as int == text[j as int]);
            let slot = tails[c] - 1;
            tails[c] = slot;
            sa[slot] = j;
            proof {
                src = src.update(slot as int, i - 1);
            }
        } else {
            proof {
                lemma_s_skip(text, k, le, base, tails@, sa@, src, i as int);
            }
        }
        i -= 1;
    }
    proof {
        assert forall|j: int| 0 <= j < n implies occurs(sa@, j) by {
            if is_s_type(text, j) {
                lemma_s_complete(text, k, le, base, tails@, sa@, src, j);
            } else {
                lemma_l_kept(text, k, le, base, tails@, sa@, src, 0, j);
            }
        }
        assert forall|x: int| 0 <= x < n implies #[trigger] sa@[x] < n by {
            lemma_owner_exists(text, k, x);
            lemma_s_full(text, k, le, base, tails@, sa@, src, owner_of(text, x));
            assert(s_slot(text, tails@, base, sa@, x));
            assert(base_slot(text, base, x));
        }
    }
}

} // verus!
