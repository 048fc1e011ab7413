//! One round of induced sorting: seeds, the pass from the left, the seeds
//! taken out, the pass from the right.
//!
//! A round turns an order on the LMS positions into an order on all
//! positions. It is run twice: once on the LMS positions as they stand in the
//! text, which puts the LMS substrings in order, and once on the LMS
//! positions in the order of their suffixes, which yields the suffix array.

use vstd::prelude::*;
use crate::classify::{is_s_type, is_type_map};
use crate::layout::{EMPTY, lemma_l_before_s, lemma_owner_exists, occurs};
use crate::lpass::{
    by_symbol, by_type, heads_at_start, induce_l_type, is_l_order, l_final_slot, l_step, seed_slot,
};
use crate::order::{is_suffix_array, occurs_in, suffix_le, suffix_lt};
use crate::seeds::{
    lemma_in_order_after_removal, lemma_seeds_removed, p_setting, place_seeds, remove_s_type,
};
use crate::spass::{base_slot, induce_s_type, is_ordered_listing, is_s_order, s_step, tails_at_end};
use crate::views::{positions, symbols};

verus! {

/// Where `first` puts two L-type positions in order, `second` does too.
pub open spec fn carries_over(
    text: Seq<int>,
    first: spec_fn(int, int) -> bool,
    second: spec_fn(int, int) -> bool,
    a: int,
    b: int,
) -> bool {
    !is_s_type(text, a) && !is_s_type(text, b) && first(a, b) ==> second(a, b)
}

/// The order of the pass from the right continues that of the pass from the left.
pub open spec fn continues(
    text: Seq<int>,
    first: spec_fn(int, int) -> bool,
    second: spec_fn(int, int) -> bool,
) -> bool {
    forall|a: int, b: int|
        0 <= a < text.len() && 0 <= b < text.len() ==> #[trigger] carries_over(
            text,
            first,
            second,
            a,
            b,
        )
}

/// One round: from the LMS positions in `order` to all positions in order.
///
/// `first` is the order that the pass from the left extends, `second` the one
/// that the pass from the right extends. The entries of `order` need to be in
/// the order `first` only as far as they share a symbol.
pub fn induce(
    t: &[u64],
    types: &[bool],
    starts: &[usize],
    ends: &[usize],
    sa: &mut Vec<usize>,
    order: &[usize],
    Ghost(first): Ghost<spec_fn(int, int) -> bool>,
    Ghost(second): Ghost<spec_fn(int, int) -> bool>,
)
    requires
        old(sa)@.len() == t@.len(),
        is_type_map(symbols(t@), types@),
        starts@.len() == ends@.len(),
        heads_at_start(symbols(t@), starts@),
        tails_at_end(symbols(t@), ends@),
        p_setting(symbols(t@), ends@.len() as int, first, order@),
        is_s_order(symbols(t@), second),
        continues(symbols(t@), first, second),
    ensures
        is_ordered_listing(second, final(sa)@, t@.len() as int),
{
    let ghost text = symbols(t@);
    let ghost k = ends@.len() as int;
    place_seeds(t, ends, sa, order, Ghost(first));
    let ghost seed = sa@;
    induce_l_type(t, types, starts, sa, Ghost(first));
    let ghost filled = sa@;
    proof {
        assert forall|x: int| 0 <= x < filled.len() implies #[trigger] filled[x] == EMPTY
            || filled[x] < types@.len() by {
            lemma_owner_exists(text, k, x);
            assert(l_final_slot(text, seed, filled, x));
            assert(seed_slot(text, seed, x));
        }
    }
    remove_s_type(types, sa);
    proof {
        assert forall|x: int| 0 <= x < text.len() implies #[trigger] sa@[x] == (if filled[x]
            != EMPTY && is_s_type(text, filled[x] as int) {
            EMPTY
        } else {
            filled[x]
        }) by {
            assert(filled[x] == EMPTY || filled[x] < types@.len());
        }
        lemma_seeds_removed(text, k, seed, filled, sa@);
        lemma_in_order_after_removal(first, filled, sa@);
        assert forall|a: int, b: int|
            0 <= a < b < sa@.len() && sa@[a] != EMPTY && sa@[b] != EMPTY implies sa@[a] != sa@[b]
            && second(sa@[a] as int, sa@[b] as int) by {
            lemma_owner_exists(text, k, a);
            lemma_owner_exists(text, k, b);
            assert(base_slot(text, sa@, a));
            assert(base_slot(text, sa@, b));
            assert(carries_over(text, first, second, sa@[a] as int, sa@[b] as int));
        }
    }
    induce_s_type(t, types, ends, sa, Ghost(second));
}

/// The order of the suffixes, as a relation on positions.
pub open spec fn suffix_order(text: Seq<int>) -> spec_fn(int, int) -> bool {
    |a: int, b: int| suffix_le(text, a, b)
}

/// Both passes extend the order of the suffixes.
pub proof fn lemma_suffix_order_extends(text: Seq<int>)
    ensures
        is_l_order(text, suffix_order(text)),
        is_s_order(text, suffix_order(text)),
        continues(text, suffix_order(text), suffix_order(text)),
{
    let le = suffix_order(text);
    assert forall|a: int, b: int| 0 <= a < text.len() && 0 <= b < text.len() implies #[trigger] by_symbol(
        text,
        le,
        a,
        b,
    ) by {}
    assert forall|a: int, b: int| 0 <= a < text.len() && 0 <= b < text.len() implies #[trigger] by_type(
        text,
        le,
        a,
        b,
    ) by {
        if text[a] == text[b] && !is_s_type(text, a) && is_s_type(text, b) {
            lemma_l_before_s(text, a, b);
        }
    }
    assert forall|a: int, b: int| 0 <= a < text.len() && 0 <= b < text.len() implies #[trigger] l_step(
        text,
        le,
        a,
        b,
    ) by {}
    assert forall|a: int, b: int| 0 <= a < text.len() && 0 <= b < text.len() implies #[trigger] s_step(
        text,
        le,
        a,
        b,
    ) by {}
    assert forall|x: int| 0 <= x <= text.len() implies #[trigger] le(text.len() as int, x) by {}
}

/// All positions listed in the order of their suffixes form the suffix array.
pub proof fn lemma_listing_is_suffix_array(text: Seq<int>, sa: Seq<usize>)
    requires
        is_ordered_listing(suffix_order(text), sa, text.len() as int),
        text.len() <= usize::MAX,
    ensures
        is_suffix_array(text, positions(sa)),
{
    let arr = positions(sa);
    assert forall|i: int, j: int| 0 <= i < j < arr.len() implies arr[i] != arr[j] && suffix_lt(
        text,
        #[trigger] arr[i],
        #[trigger] arr[j],
    ) by {
        assert(sa[i] < text.len() && sa[j] < text.len());
        assert(suffix_order(text)(sa[i] as int, sa[j] as int));
    }
    assert forall|p: int| 0 <= p < text.len() implies occurs_in(arr, p) by {
        assert(occurs(sa, p));
        let x = choose|x: int| 0 <= x < sa.len() && sa[x] == p;
        assert(arr[x] == p);
    }
    assert forall|i: int| 0 <= i < text.len() implies 0 <= #[trigger] arr[i] < text.len() by {
        assert(sa[i] < text.len());
    }
}

} // verus!
