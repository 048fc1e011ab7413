//! The pass from the left, and what it is proved to do.
//!
//! The pass reads the array slot by slot. Wherever a slot holds a position
//! whose predecessor is L-type, the predecessor goes to the head of its
//! bucket. The proof follows the array through the pass: which slots are
//! filled, that the filled slots are in order, and that every L-type position
//! is placed exactly once.

use vstd::prelude::*;
use crate::classify::{is_lms, is_s_type, is_type_map};
use crate::layout::{
    bucket_end, bucket_middle, bucket_start, EMPTY, in_order, is_l_with, lemma_all_members_bound,
    lemma_bucket_parts, lemma_buckets_in_order, lemma_distinct_members_bound, lemma_owner_exists,
    lemma_owner_is, occurs, owner_of,
};
use crate::views::{is_text_over, symbols};

verus! {

/// Two L-type positions with the same symbol are in order if their successors are.
pub open spec fn l_step(text: Seq<int>, le: spec_fn(int, int) -> bool, a: int, b: int) -> bool {
    text[a] == text[b] && !is_s_type(text, a) && !is_s_type(text, b) && le(a + 1, b + 1) ==> le(
        a,
        b,
    )
}

/// Positions with different symbols are in the order of their symbols.
pub open spec fn by_symbol(text: Seq<int>, le: spec_fn(int, int) -> bool, a: int, b: int) -> bool {
    text[a] < text[b] ==> le(a, b)
}

/// With the same symbol, an L-type position comes before an S-type position.
pub open spec fn by_type(text: Seq<int>, le: spec_fn(int, int) -> bool, a: int, b: int) -> bool {
    text[a] == text[b] && !is_s_type(text, a) && is_s_type(text, b) ==> le(a, b)
}

/// `le` is an order that the pass from the left can extend from the seeds to
/// the L-type positions.
pub open spec fn is_l_order(text: Seq<int>, le: spec_fn(int, int) -> bool) -> bool {
    &&& forall|a: int, b: int|
        0 <= a < text.len() && 0 <= b < text.len() ==> #[trigger] by_symbol(text, le, a, b)
    &&& forall|a: int, b: int|
        0 <= a < text.len() && 0 <= b < text.len() ==> #[trigger] by_type(text, le, a, b)
    &&& forall|a: int, b: int|
        0 <= a < text.len() && 0 <= b < text.len() ==> #[trigger] l_step(text, le, a, b)
    &&& forall|x: int| 0 <= x <= text.len() ==> #[trigger] le(text.len() as int, x)
}

/// A slot of the seeded array: empty in the front part of its bucket, empty
/// or an LMS position with the bucket's symbol in the back part.
pub open spec fn seed_slot(text: Seq<int>, seed: Seq<usize>, x: int) -> bool {
    let c = owner_of(text, x);
    if x < bucket_middle(text, c) {
        seed[x] == EMPTY
    } else {
        seed[x] == EMPTY || (seed[x] < text.len() && text[seed[x] as int] == c && is_lms(
            text,
            seed[x] as int,
        ))
    }
}

/// `seed` is an array with the LMS positions, each once, in the back parts of
/// their buckets, and nothing else.
pub open spec fn is_seeded(text: Seq<int>, seed: Seq<usize>) -> bool {
    &&& seed.len() == text.len()
    &&& forall|x: int| 0 <= x < text.len() ==> #[trigger] seed_slot(text, seed, x)
    &&& forall|p: int| is_lms(text, p) ==> occurs(seed, p)
}

/// A slot during the pass: before the head of its bucket it holds an L-type
/// position with the bucket's symbol; from the head to the middle it is
/// empty; behind the middle it is as it was seeded.
pub open spec fn l_slot(
    text: Seq<int>,
    heads: Seq<usize>,
    seed: Seq<usize>,
    sa: Seq<usize>,
    x: int,
) -> bool {
    let c = owner_of(text, x);
    if x < heads[c] {
        sa[x] != EMPTY && sa[x] < text.len() && text[sa[x] as int] == c && !is_s_type(
            text,
            sa[x] as int,
        )
    } else if x < bucket_middle(text, c) {
        sa[x] == EMPTY
    } else {
        sa[x] == seed[x]
    }
}

/// An L-type position in a filled slot follows the end of the text, or its
/// successor stands in a slot that the pass has read.
pub open spec fn l_source(
    text: Seq<int>,
    heads: Seq<usize>,
    sa: Seq<usize>,
    src: Seq<int>,
    i: int,
    x: int,
) -> bool {
    x < heads[owner_of(text, x)] ==> sa[x] + 1 == text.len() || (0 <= src[x] < i && sa[src[x]]
        == sa[x] + 1)
}

/// The L-type predecessor of the position in slot `y` has been placed.
pub open spec fn l_done(text: Seq<int>, sa: Seq<usize>, y: int) -> bool {
    sa[y] != EMPTY && sa[y] > 0 && !is_s_type(text, sa[y] - 1) ==> occurs(sa, sa[y] - 1)
}

/// Each head lies between the start and the middle of its bucket.
pub open spec fn heads_in_front(text: Seq<int>, heads: Seq<usize>) -> bool {
    forall|c: int|
        0 <= c < heads.len() ==> bucket_start(text, c) <= #[trigger] heads[c] <= bucket_middle(
            text,
            c,
        )
}

/// The array in the middle of the pass, when the slots before `i` have been read.
pub open spec fn l_state(
    text: Seq<int>,
    le: spec_fn(int, int) -> bool,
    seed: Seq<usize>,
    heads: Seq<usize>,
    sa: Seq<usize>,
    src: Seq<int>,
    i: int,
) -> bool {
    &&& sa.len() == text.len()
    &&& src.len() == text.len()
    &&& 0 <= i <= text.len()
    &&& heads_in_front(text, heads)
    &&& forall|x: int| 0 <= x < text.len() ==> #[trigger] l_slot(text, heads, seed, sa, x)
    &&& in_order(le, sa)
    &&& forall|x: int| 0 <= x < text.len() ==> #[trigger] l_source(text, heads, sa, src, i, x)
    &&& forall|y: int| 0 <= y < i ==> #[trigger] l_done(text, sa, y)
}

/// What the pass is given: a text over `[0, k)`, an order to extend, and the seeds.
pub open spec fn l_setting(
    text: Seq<int>,
    k: int,
    le: spec_fn(int, int) -> bool,
    seed: Seq<usize>,
) -> bool {
    &&& text.len() >= 1
    &&& text.len() <= EMPTY
    &&& is_text_over(text, k)
    &&& is_l_order(text, le)
    &&& is_seeded(text, seed)
}

/// What a filled slot holds: a position with the symbol that owns the slot,
/// L-type before the head of the bucket and an LMS seed behind the middle.
pub proof fn lemma_l_entry(
    text: Seq<int>,
    k: int,
    le: spec_fn(int, int) -> bool,
    seed: Seq<usize>,
    heads: Seq<usize>,
    sa: Seq<usize>,
    src: Seq<int>,
    i: int,
    x: int,
)
    requires
        l_setting(text, k, le, seed),
        heads.len() == k,
        l_state(text, le, seed, heads, sa, src, i),
        0 <= x < text.len(),
        sa[x] != EMPTY,
    ensures
        0 <= sa[x] < text.len(),
        0 <= text[sa[x] as int] < k,
        owner_of(text, x) == text[sa[x] as int],
        bucket_start(text, text[sa[x] as int]) <= x < bucket_end(text, text[sa[x] as int]),
        !is_s_type(text, sa[x] as int) <==> x < heads[text[sa[x] as int]],
        is_s_type(text, sa[x] as int) ==> is_lms(text, sa[x] as int) && x >= bucket_middle(
            text,
            text[sa[x] as int],
        ),
{
    lemma_owner_exists(text, k, x);
    assert(l_slot(text, heads, seed, sa, x));
    assert(seed_slot(text, seed, x));
}

/// A position whose successor stands in the slot being read has not been
/// placed yet.
pub proof fn lemma_l_absent(
    text: Seq<int>,
    k: int,
    le: spec_fn(int, int) -> bool,
    seed: Seq<usize>,
    heads: Seq<usize>,
    sa: Seq<usize>,
    src: Seq<int>,
    i: int,
    j: int,
    x: int,
)
    requires
        l_setting(text, k, le, seed),
        heads.len() == k,
        l_state(text, le, seed, heads, sa, src, i),
        0 <= i < text.len(),
        sa[i] != EMPTY,
        sa[i] == j + 1,
        0 <= j,
        !is_s_type(text, j),
        0 <= x < text.len(),
    ensures
        sa[x] != j,
{
    if sa[x] == j {
        lemma_l_entry(text, k, le, seed, heads, sa, src, i, x);
        lemma_l_entry(text, k, le, seed, heads, sa, src, i, i);
        assert(l_source(text, heads, sa, src, i, x));
        let y = src[x];
        assert(sa[y] == sa[i]);
        assert(y < i);
    }
}

/// The bucket of a position that has not been placed yet has room at its head.
pub proof fn lemma_l_room(
    text: Seq<int>,
    k: int,
    le: spec_fn(int, int) -> bool,
    seed: Seq<usize>,
    heads: Seq<usize>,
    sa: Seq<usize>,
    src: Seq<int>,
    i: int,
    j: int,
)
    requires
        l_setting(text, k, le, seed),
        heads.len() == k,
        l_state(text, le, seed, heads, sa, src, i),
        0 <= j < text.len(),
        !is_s_type(text, j),
        forall|x: int| 0 <= x < text.len() ==> sa[x] != j,
    ensures
        heads[text[j]] < bucket_middle(text, text[j]),
        sa[heads[text[j]] as int] == EMPTY,
        owner_of(text, heads[text[j]] as int) == text[j],
{
    let c = text[j];
    let lo = bucket_start(text, c);
    let s = heads[c] as int;
    lemma_bucket_parts(text, c);
    assert(lo <= s <= bucket_middle(text, c));
    let members = Seq::new((s - lo + 1) as nat, |y: int| if y < s - lo { sa[lo + y] as int } else { j });
    assert forall|y: int| 0 <= y < members.len() implies 0 <= #[trigger] members[y] < text.len()
        && is_l_with(text, c)(members[y]) by {
        if y < s - lo {
            lemma_owner_is(text, lo + y, c);
            assert(l_slot(text, heads, seed, sa, lo + y));
        }
    }
    assert forall|y: int, z: int| 0 <= y < z < members.len() implies members[y] != members[z] by {
        lemma_owner_is(text, lo + y, c);
        assert(l_slot(text, heads, seed, sa, lo + y));
        if z < s - lo {
            lemma_owner_is(text, lo + z, c);
            assert(l_slot(text, heads, seed, sa, lo + z));
            assert(sa[lo + y] != sa[lo + z]);
        }
    }
    lemma_distinct_members_bound(is_l_with(text, c), members, text.len() as int);
    lemma_owner_is(text, s, c);
    assert(l_slot(text, heads, seed, sa, s));
}

/// The slot that receives a position lies behind the slot being read.
pub proof fn lemma_l_ahead(
    text: Seq<int>,
    k: int,
    le: spec_fn(int, int) -> bool,
    seed: Seq<usize>,
    heads: Seq<usize>,
    sa: Seq<usize>,
    src: Seq<int>,
    i: int,
    j: int,
)
    requires
        l_setting(text, k, le, seed),
        heads.len() == k,
        l_state(text, le, seed, heads, sa, src, i),
        0 <= i < text.len(),
        sa[i] != EMPTY,
        sa[i] == j + 1,
        0 <= j,
        !is_s_type(text, j),
    ensures
        i < heads[text[j]],
{
    let c = text[j];
    let p = j + 1;
    lemma_l_entry(text, k, le, seed, heads, sa, src, i, i);
    lemma_bucket_parts(text, c);
    assert(text[p] <= c);
    if text[p] < c {
        lemma_buckets_in_order(text, text[p], c);
    }
}

/// Placing a position that is in order with the L-type positions already in
/// its bucket keeps the whole array in order.
pub proof fn lemma_l_fits(
    text: Seq<int>,
    k: int,
    le: spec_fn(int, int) -> bool,
    seed: Seq<usize>,
    heads: Seq<usize>,
    sa: Seq<usize>,
    src: Seq<int>,
    i: int,
    j: int,
)
    requires
        l_setting(text, k, le, seed),
        heads.len() == k,
        l_state(text, le, seed, heads, sa, src, i),
        0 <= j < text.len(),
        !is_s_type(text, j),
        forall|x: int| 0 <= x < text.len() ==> sa[x] != j,
        forall|a: int|
            bucket_start(text, text[j]) <= a < heads[text[j]] ==> le(#[trigger] sa[a] as int, j),
    ensures
        in_order(le, sa.update(heads[text[j]] as int, j as usize)),
{
    let c = text[j];
    let s = heads[c] as int;
    let after = sa.update(s, j as usize);
    lemma_l_room(text, k, le, seed, heads, sa, src, i, j);
    lemma_bucket_parts(text, c);
    assert forall|a: int, b: int|
        0 <= a < b < after.len() && after[a] != EMPTY && after[b] != EMPTY implies after[a]
        != after[b] && le(after[a] as int, after[b] as int) by {
        if a == s {
            let e = sa[b] as int;
            lemma_l_entry(text, k, le, seed, heads, sa, src, i, b);
            if text[e] == c {
                assert(by_type(text, le, j, e));
            } else {
                if text[e] < c {
                    lemma_buckets_in_order(text, text[e], c);
                }
                assert(by_symbol(text, le, j, e));
            }
        } else if b == s {
            let e = sa[a] as int;
            lemma_l_entry(text, k, le, seed, heads, sa, src, i, a);
            if text[e] == c {
                assert(le(sa[a] as int, j));
            } else {
                if text[e] > c {
                    lemma_buckets_in_order(text, c, text[e]);
                }
                assert(by_symbol(text, le, e, j));
            }
        } else {
            assert(after[a] == sa[a] && after[b] == sa[b]);
        }
    }
}

/// The L-type positions already in a bucket come before the predecessor of
/// the position in the slot being read.
pub proof fn lemma_l_behind(
    text: Seq<int>,
    k: int,
    le: spec_fn(int, int) -> bool,
    seed: Seq<usize>,
    heads: Seq<usize>,
    sa: Seq<usize>,
    src: Seq<int>,
    i: int,
    j: int,
    a: int,
)
    requires
        l_setting(text, k, le, seed),
        heads.len() == k,
        l_state(text, le, seed, heads, sa, src, i),
        0 <= i < text.len(),
        sa[i] != EMPTY,
        sa[i] == j + 1,
        0 <= j,
        !is_s_type(text, j),
        bucket_start(text, text[j]) <= a < heads[text[j]],
    ensures
        le(sa[a] as int, j),
{
    let c = text[j];
    let e = sa[a] as int;
    lemma_bucket_parts(text, c);
    lemma_owner_is(text, a, c);
    lemma_l_entry(text, k, le, seed, heads, sa, src, i, i);
    assert(l_slot(text, heads, seed, sa, a));
    assert(l_source(text, heads, sa, src, i, a));
    if e + 1 == text.len() {
        assert(le(text.len() as int, j + 1));
    } else {
        let y = src[a];
        assert(sa[y] != EMPTY && sa[i] != EMPTY && y < i);
        assert(le(sa[y] as int, sa[i] as int));
    }
    assert(l_step(text, le, e, j));
}

/// The slots after a position has been placed at the head of its bucket.
pub proof fn lemma_l_slots_after(
    text: Seq<int>,
    k: int,
    le: spec_fn(int, int) -> bool,
    seed: Seq<usize>,
    heads: Seq<usize>,
    sa: Seq<usize>,
    src: Seq<int>,
    i: int,
    j: int,
)
    requires
        l_setting(text, k, le, seed),
        heads.len() == k,
        l_state(text, le, seed, heads, sa, src, i),
        0 <= j < text.len(),
        !is_s_type(text, j),
        heads[text[j]] < bucket_middle(text, text[j]),
    ensures
        heads_in_front(text, heads.update(text[j], (heads[text[j]] + 1) as usize)),
        forall|x: int|
            0 <= x < text.len() ==> #[trigger] l_slot(
                text,
                heads.update(text[j], (heads[text[j]] + 1) as usize),
                seed,
                sa.update(heads[text[j]] as int, j as usize),
                x,
            ),
{
    let c = text[j];
    let s = heads[c] as int;
    let heads2 = heads.update(c, (s + 1) as usize);
    let after = sa.update(s, j as usize);
    lemma_bucket_parts(text, c);
    lemma_owner_is(text, s, c);
    assert forall|d: int| 0 <= d < heads2.len() implies bucket_start(text, d)
        <= #[trigger] heads2[d] <= bucket_middle(text, d) by {
        assert(bucket_start(text, d) <= heads[d] <= bucket_middle(text, d));
    }
    assert forall|x: int| 0 <= x < text.len() implies #[trigger] l_slot(
        text,
        heads2,
        seed,
        after,
        x,
    ) by {
        lemma_owner_exists(text, k, x);
        assert(l_slot(text, heads, seed, sa, x));
    }
}

/// The array after the predecessor of the position in slot `i` has been placed.
pub proof fn lemma_l_place(
    text: Seq<int>,
    k: int,
    le: spec_fn(int, int) -> bool,
    seed: Seq<usize>,
    heads: Seq<usize>,
    sa: Seq<usize>,
    src: Seq<int>,
    i: int,
    j: int,
)
    requires
        l_setting(text, k, le, seed),
        heads.len() == k,
        l_state(text, le, seed, heads, sa, src, i),
        0 <= i < text.len(),
        sa[i] != EMPTY,
        sa[i] == j + 1,
        0 <= j,
        !is_s_type(text, j),
    ensures
        j < text.len(),
        0 <= text[j] < k,
        i < heads[text[j]] < bucket_middle(text, text[j]) <= text.len(),
        sa[heads[text[j]] as int] == EMPTY,
        l_state(
            text,
            le,
            seed,
            heads.update(text[j], (heads[text[j]] + 1) as usize),
            sa.update(heads[text[j]] as int, j as usize),
            src.update(heads[text[j]] as int, i),
            i + 1,
        ),
{
    lemma_l_entry(text, k, le, seed, heads, sa, src, i, i);
    let c = text[j];
    let s = heads[c] as int;
    let heads2 = heads.update(c, (s + 1) as usize);
    let after = sa.update(s, j as usize);
    let src2 = src.update(s, i);
    lemma_bucket_parts(text, c);
    assert forall|x: int| 0 <= x < text.len() implies sa[x] != j by {
        lemma_l_absent(text, k, le, seed, heads, sa, src, i, j, x);
    }
    lemma_l_room(text, k, le, seed, heads, sa, src, i, j);
    lemma_l_ahead(text, k, le, seed, heads, sa, src, i, j);
    assert forall|a: int| bucket_start(text, c) <= a < heads[c] implies le(
        #[trigger] sa[a] as int,
        j,
    ) by {
        lemma_l_behind(text, k, le, seed, heads, sa, src, i, j, a);
    }
    lemma_l_fits(text, k, le, seed, heads, sa, src, i, j);
    lemma_l_slots_after(text, k, le, seed, heads, sa, src, i, j);
    assert forall|x: int| 0 <= x < text.len() implies #[trigger] l_source(
        text,
        heads2,
        after,
        src2,
        i + 1,
        x,
    ) by {
        lemma_owner_exists(text, k, x);
        if x != s && x < heads2[owner_of(text, x)] {
            assert(l_source(text, heads, sa, src, i, x));
            assert(l_slot(text, heads, seed, sa, x));
            if sa[x] + 1 != text.len() {
                assert(sa[src[x]] != EMPTY);
            }
        }
    }
    assert forall|y: int| 0 <= y < i + 1 implies #[trigger] l_done(text, after, y) by {
        if y < i {
            assert(l_done(text, sa, y));
            if sa[y] != EMPTY && sa[y] > 0 && !is_s_type(text, sa[y] - 1) {
                let x = choose|x: int| 0 <= x < sa.len() && sa[x] == sa[y] - 1;
                assert(after[x] == sa[y] - 1);
            }
        } else {
            assert(after[s] == j);
        }
    }
}

/// The array after a slot has been read whose position has no L-type predecessor.
pub proof fn lemma_l_skip(
    text: Seq<int>,
    k: int,
    le: spec_fn(int, int) -> bool,
    seed: Seq<usize>,
    heads: Seq<usize>,
    sa: Seq<usize>,
    src: Seq<int>,
    i: int,
)
    requires
        l_setting(text, k, le, seed),
        heads.len() == k,
        l_state(text, le, seed, heads, sa, src, i),
        0 <= i < text.len(),
        sa[i] == EMPTY || sa[i] == 0 || is_s_type(text, sa[i] - 1),
    ensures
        l_state(text, le, seed, heads, sa, src, i + 1),
{
    assert forall|x: int| 0 <= x < text.len() implies #[trigger] l_source(
        text,
        heads,
        sa,
        src,
        i + 1,
        x,
    ) by {
        assert(l_source(text, heads, sa, src, i, x));
    }
    assert forall|y: int| 0 <= y < i + 1 implies #[trigger] l_done(text, sa, y) by {
        if y < i {
            assert(l_done(text, sa, y));
        }
    }
}

/// The heads stand at the starts of their buckets.
pub open spec fn heads_at_start(text: Seq<int>, heads: Seq<usize>) -> bool {
    forall|c: int| 0 <= c < heads.len() ==> #[trigger] heads[c] == bucket_start(text, c)
}

/// The array at the beginning of the pass, when the last position of the
/// text, which precedes the end, has been placed.
pub proof fn lemma_l_begin(
    text: Seq<int>,
    k: int,
    le: spec_fn(int, int) -> bool,
    seed: Seq<usize>,
    heads: Seq<usize>,
)
    requires
        l_setting(text, k, le, seed),
        in_order(le, seed),
        heads.len() == k,
        heads_at_start(text, heads),
    ensures
        0 <= text[text.len() - 1] < k,
        heads[text[text.len() - 1]] < bucket_middle(text, text[text.len() - 1]) <= text.len(),
        l_state(
            text,
            le,
            seed,
            heads.update(text[text.len() - 1], (heads[text[text.len() - 1]] + 1) as usize),
            seed.update(heads[text[text.len() - 1]] as int, (text.len() - 1) as usize),
            Seq::new(text.len(), |x: int| -1int),
            0,
        ),
{
    let n = text.len() as int;
    let j = n - 1;
    let c = text[j];
    let s = heads[c] as int;
    let src = Seq::new(text.len(), |x: int| -1int);
    assert forall|d: int| 0 <= d < heads.len() implies bucket_start(text, d)
        <= #[trigger] heads[d] <= bucket_middle(text, d) by {
        lemma_bucket_parts(text, d);
    }
    assert forall|x: int| 0 <= x < text.len() implies #[trigger] l_slot(text, heads, seed, seed, x) by {
        lemma_owner_exists(text, k, x);
        assert(seed_slot(text, seed, x));
    }
    assert forall|x: int| 0 <= x < text.len() implies #[trigger] l_source(
        text,
        heads,
        seed,
        src,
        0,
        x,
    ) by {
        lemma_owner_exists(text, k, x);
    }
    assert(l_state(text, le, seed, heads, seed, src, 0));
    assert forall|x: int| 0 <= x < text.len() implies seed[x] != j by {
        assert(seed_slot(text, seed, x));
    }
    lemma_bucket_parts(text, c);
    lemma_l_room(text, k, le, seed, heads, seed, src, 0, j);
    lemma_l_fits(text, k, le, seed, heads, seed, src, 0, j);
    lemma_l_slots_after(text, k, le, seed, heads, seed, src, 0, j);
    let heads2 = heads.update(c, (s + 1) as usize);
    let after = seed.update(s, j as usize);
    assert forall|x: int| 0 <= x < text.len() implies #[trigger] l_source(
        text,
        heads2,
        after,
        src,
        0,
        x,
    ) by {
        lemma_owner_exists(text, k, x);
    }
}

/// At the end of the pass every L-type position has been placed.
pub proof fn lemma_l_complete(
    text: Seq<int>,
    k: int,
    le: spec_fn(int, int) -> bool,
    seed: Seq<usize>,
    heads: Seq<usize>,
    sa: Seq<usize>,
    src: Seq<int>,
    j: int,
)
    requires
        l_setting(text, k, le, seed),
        heads.len() == k,
        l_state(text, le, seed, heads, sa, src, text.len() as int),
        occurs(sa, text.len() - 1),
        0 <= j < text.len(),
        !is_s_type(text, j),
    ensures
        occurs(sa, j),
    decreases text.len() - j,
{
    if j < text.len() - 1 {
        let p = j + 1;
        if is_s_type(text, p) {
            assert(is_lms(text, p));
            assert(occurs(seed, p));
            let x = choose|x: int| 0 <= x < seed.len() && seed[x] == p;
            lemma_owner_exists(text, k, x);
            assert(seed_slot(text, seed, x));
            assert(l_slot(text, heads, seed, sa, x));
            assert(sa[x] == p);
        } else {
            lemma_l_complete(text, k, le, seed, heads, sa, src, p);
        }
        let y = choose|y: int| 0 <= y < sa.len() && sa[y] == p;
        assert(l_done(text, sa, y));
    }
}

/// At the end of the pass the head of every bucket has reached the middle.
pub proof fn lemma_l_full(
    text: Seq<int>,
    k: int,
    le: spec_fn(int, int) -> bool,
    seed: Seq<usize>,
    heads: Seq<usize>,
    sa: Seq<usize>,
    src: Seq<int>,
    c: int,
)
    requires
        l_setting(text, k, le, seed),
        heads.len() == k,
        l_state(text, le, seed, heads, sa, src, text.len() as int),
        forall|j: int| 0 <= j < text.len() && !is_s_type(text, j) ==> occurs(sa, j),
        0 <= c < k,
    ensures
        heads[c] == bucket_middle(text, c),
{
    let lo = bucket_start(text, c);
    let hi = heads[c] as int;
    lemma_bucket_parts(text, c);
    assert(lo <= hi <= bucket_middle(text, c));
    let members = Seq::new((hi - lo) as nat, |y: int| sa[lo + y] as int);
    assert forall|x: int| 0 <= x < text.len() && #[trigger] is_l_with(text, c)(x) implies exists|
        y: int,
    |
        0 <= y < members.len() && members[y] == x by {
        assert(occurs(sa, x));
        let z = choose|z: int| 0 <= z < sa.len() && sa[z] == x;
        lemma_l_entry(text, k, le, seed, heads, sa, src, text.len() as int, z);
        assert(members[z - lo] == x);
    }
    lemma_all_members_bound(is_l_with(text, c), members, text.len() as int);
}

/// A slot after the pass: in the front part of its bucket an L-type position
/// with the bucket's symbol, in the back part what was seeded.
pub open spec fn l_final_slot(text: Seq<int>, seed: Seq<usize>, sa: Seq<usize>, x: int) -> bool {
    let c = owner_of(text, x);
    if x < bucket_middle(text, c) {
        sa[x] != EMPTY && sa[x] < text.len() && text[sa[x] as int] == c && !is_s_type(
            text,
            sa[x] as int,
        )
    } else {
        sa[x] == seed[x]
    }
}

/// The pass from the left.
///
/// Given the LMS positions seeded in the back parts of their buckets, in the
/// order `le` as far as they share a symbol, the pass fills the front part of
/// every bucket with the L-type positions of its symbol, so that the whole
/// array is in the order `le`.
pub fn induce_l_type(
    t: &[u64],
    types: &[bool],
    starts: &[usize],
    sa: &mut Vec<usize>,
    Ghost(le): Ghost<spec_fn(int, int) -> bool>,
)
    requires
        l_setting(symbols(t@), starts@.len() as int, le, old(sa)@),
        is_type_map(symbols(t@), types@),
        heads_at_start(symbols(t@), starts@),
        in_order(le, old(sa)@),
    ensures
        final(sa)@.len() == t@.len(),
        forall|x: int|
            0 <= x < t@.len() ==> #[trigger] l_final_slot(symbols(t@), old(sa)@, final(sa)@, x),
        in_order(le, final(sa)@),
        forall|j: int|
            0 <= j < t@.len() && !is_s_type(symbols(t@), j) ==> occurs(final(sa)@, j),
{
    let n = t.len();
    let ghost text = symbols(t@);
    let ghost seed = sa@;
    let width = starts.len();
    let ghost k = width as int;
    let ghost mut src = Seq::new(text.len(), |x: int| -1int);
    let mut heads: Vec<usize> = vstd::slice::slice_to_vec(starts);
    proof {
        assert(text.len() == n);
        lemma_l_begin(text, k, le, seed, heads@);
    }
    let last = n - 1;
    assert(t@[last as int] as int == text[last as int]);
    let first = t[last] as usize;
    assert(first as int == text[last as int]);
    let slot = heads[first];
    heads[first] = slot + 1;
    sa[slot] = last;
    let mut i: usize = 0;
    while i < n
        invariant
            n == t@.len(),
            text == symbols(t@),
            k == width,
            heads@.len() == k,
            l_setting(text, k, le, seed),
            is_type_map(text, types@),
            l_state(text, le, seed, heads@, sa@, src, i as int),
            occurs(sa@, n - 1),
        decreases n - i,
    {
        let p = sa[i];
        proof {
            if p != EMPTY {
                lemma_l_entry(text, k, le, seed, heads@, sa@, src, i as int, i as int);
            }
        }
        if p != EMPTY && p > 0 && !types[p - 1] {
            let j = p - 1;
            proof {
                lemma_l_place(text, k, le, seed, heads@, sa@, src, i as int, j as int);
                assert(t@[j as int] as int == text[j as int]);
            }
            let c = t[j] as usize;
            assert(c as int == text[j as int]);
            let slot = heads[c];
            let ghost before = sa@;
            heads[c] = slot + 1;
            sa[slot] = j;
            proof {
                src = src.update(slot as int, i as int);
                let z = choose|z: int| 0 <= z < before.len() && before[z] == n - 1;
                assert(sa@[z] == n - 1);
            }
        } else {
            proof {
                lemma_l_skip(text, k, le, seed, heads@, sa@, src, i as int);
            }
        }
        i += 1;
    }
    proof {
        assert forall|j: int| 0 <= j < t@.len() && !is_s_type(text, j) implies occurs(sa@, j) by {
            lemma_l_complete(text, k, le, seed, heads@, sa@, src, j);
        }
        assert forall|x: int| 0 <= x < t@.len() implies #[trigger] l_final_slot(
            text,
            seed,
            sa@,
            x,
        ) by {
            lemma_owner_exists(text, k, x);
            lemma_l_full(text, k, le, seed, heads@, sa@, src, owner_of(text, x));
            assert(l_slot(text, heads@, seed, sa@, x));
        }
    }
}

} // verus!
