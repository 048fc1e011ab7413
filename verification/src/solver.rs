//! The solver: the two rounds of induced sorting, with the recursion on the
//! reduced text between them.
//!
//! The first round puts the LMS substrings in order. They are named, and
//! the names in text order form the reduced text, whose suffixes compare as
//! the LMS suffixes of the text do. Where all names differ the order of the
//! LMS suffixes can be read off at once; otherwise it is the suffix array of
//! the reduced text. The second round extends it to all suffixes.
//!
//! The reduced text is at most half as long as the text, so a text shorter
//! than two to the power `depth` is solved within `depth` nested levels.

use vstd::prelude::*;
use vstd::arithmetic::power2::{lemma2_to64, lemma2_to64_rest, lemma_pow2_unfold, pow2};
use crate::buckets::{
    bucket_ends, bucket_starts, lemma_prefix_sum_counts_below, symbol_counts, table_allowed,
    TABLE_LIMIT,
};
use crate::classify::{classify_types, is_lms, is_lms_at, is_type_map, lms_positions};
use crate::compact::{
    distinct_symbols, holds, holds_between, lemma_renamed_suffix_array, rename_symbols,
};
use crate::keys::{code, key, key_order, lemma_key_orders_extend, lex_le, seed_order};
use crate::layout::{
    bucket_end, bucket_start, EMPTY, in_order, lemma_all_members_bound,
    lemma_distinct_members_bound, occurs,
};
use crate::naming::{
    is_key_sorted, is_lms_list, lemma_lms_by_types, lemma_reduced_order,
    lemma_smaller_name_smaller_suffix,
};
use crate::order::{is_suffix_array, occurs_in, suffix_lt};
use crate::reduce::{
    is_listed, is_naming, lemma_same_name_same_substring, name_lms_substrings, named_within,
    reduced_text,
};
use crate::round::{induce, lemma_listing_is_suffix_array, lemma_suffix_order_extends, suffix_order};
use crate::seeds::{lists_lms, ordered_within_symbols, p_setting};
use crate::views::{is_text_over, positions, symbols};

verus! {

/// The LMS positions among the first `upto` entries of `sa`, in array order.
pub open spec fn lms_entries(types: Seq<bool>, sa: Seq<usize>, upto: int) -> Seq<usize>
    decreases upto,
{
    if upto <= 0 {
        Seq::empty()
    } else if is_lms_at(types, sa[upto - 1] as int) {
        lms_entries(types, sa, upto - 1).push(sa[upto - 1])
    } else {
        lms_entries(types, sa, upto - 1)
    }
}

/// Position `x` is LMS, as a predicate.
pub open spec fn lms_in(text: Seq<int>) -> spec_fn(int) -> bool {
    |x: int| is_lms(text, x)
}

/// Picks the LMS positions out of `sa`, keeping their order.
pub fn collect_lms(types: &[bool], sa: &[usize]) -> (sorted: Vec<usize>)
    ensures
        sorted@ == lms_entries(types@, sa@, sa@.len() as int),
{
    let n = sa.len();
    let mut sorted: Vec<usize> = Vec::new();
    let mut i: usize = 0;
    while i < n
        invariant
            n == sa@.len(),
            i <= n,
            sorted@ == lms_entries(types@, sa@, i as int),
        decreases n - i,
    {
        let p = sa[i];
        if 0 < p && p < types.len() && types[p] && !types[p - 1] {
            sorted.push(p);
        }
        i += 1;
    }
    sorted
}

/// Reads the positions of `lms` in the order that `ranks` gives: entry `i`
/// of the result is `lms[ranks[i]]`.
pub fn select_positions(lms: &[usize], ranks: &[usize]) -> (order: Vec<usize>)
    requires
        forall|i: int| 0 <= i < ranks@.len() ==> #[trigger] ranks@[i] < lms@.len(),
    ensures
        order@.len() == ranks@.len(),
        forall|i: int| 0 <= i < ranks@.len() ==> #[trigger] order@[i] == lms@[ranks@[i] as int],
{
    let m = ranks.len();
    let mut order: Vec<usize> = Vec::with_capacity(m);
    let mut i: usize = 0;
    while i < m
        invariant
            m == ranks@.len(),
            i <= m,
            order@.len() == i,
            forall|j: int| 0 <= j < ranks@.len() ==> #[trigger] ranks@[j] < lms@.len(),
            forall|j: int| 0 <= j < i ==> #[trigger] order@[j] == lms@[ranks@[j] as int],
        decreases m - i,
    {
        order.push(lms[ranks[i]]);
        i += 1;
    }
    order
}

/// The LMS positions picked out of an array in order are in order, and none
/// is left out.
pub proof fn lemma_collected(
    text: Seq<int>,
    types: Seq<bool>,
    le: spec_fn(int, int) -> bool,
    sa: Seq<usize>,
    upto: int,
)
    requires
        is_type_map(text, types),
        text.len() <= usize::MAX,
        sa.len() == text.len(),
        forall|x: int| 0 <= x < sa.len() ==> #[trigger] sa[x] < text.len(),
        in_order(le, sa),
        0 <= upto <= sa.len(),
    ensures
        in_order(le, lms_entries(types, sa, upto)),
        forall|i: int|
            0 <= i < lms_entries(types, sa, upto).len() ==> is_lms(
                text,
                #[trigger] lms_entries(types, sa, upto)[i] as int,
            ) && exists|x: int| 0 <= x < upto && sa[x] == lms_entries(types, sa, upto)[i],
        forall|x: int|
            0 <= x < upto && is_lms(text, #[trigger] sa[x] as int) ==> occurs(
                lms_entries(types, sa, upto),
                sa[x] as int,
            ),
    decreases upto,
{
    if upto > 0 {
        lemma_collected(text, types, le, sa, upto - 1);
        let before = lms_entries(types, sa, upto - 1);
        let after = lms_entries(types, sa, upto);
        let p = sa[upto - 1];
        assert(p < text.len());
        if is_lms_at(types, p as int) {
            assert(after =~= before.push(p));
            assert forall|a: int, b: int|
                0 <= a < b < after.len() && after[a] != EMPTY && after[b] != EMPTY implies after[a]
                != after[b] && le(after[a] as int, after[b] as int) by {
                if b == before.len() {
                    let x = choose|x: int| 0 <= x < upto - 1 && sa[x] == before[a];
                    assert(sa[x] < text.len() && sa[upto - 1] < text.len());
                    assert(sa[x] != sa[upto - 1] && le(sa[x] as int, sa[upto - 1] as int));
                } else {
                    assert(after[a] == before[a] && after[b] == before[b]);
                }
            }
            assert forall|i: int| 0 <= i < after.len() implies is_lms(text, #[trigger] after[i] as int)
                && exists|x: int| 0 <= x < upto && sa[x] == after[i] by {
                if i < before.len() {
                    assert(after[i] == before[i]);
                    let x = choose|x: int| 0 <= x < upto - 1 && sa[x] == before[i];
                    assert(sa[x] == after[i]);
                } else {
                    assert(sa[upto - 1] == after[i]);
                }
            }
            assert forall|x: int| 0 <= x < upto && is_lms(text, #[trigger] sa[x] as int) implies occurs(
                after,
                sa[x] as int,
            ) by {
                if x < upto - 1 {
                    let z = choose|z: int| 0 <= z < before.len() && before[z] == sa[x];
                    assert(after[z] == sa[x]);
                } else {
                    assert(after[before.len() as int] == sa[x]);
                }
            }
        } else {
            assert(after == before);
            assert forall|i: int| 0 <= i < after.len() implies is_lms(text, #[trigger] after[i] as int)
                && exists|x: int| 0 <= x < upto && sa[x] == after[i] by {
                let x = choose|x: int| 0 <= x < upto - 1 && sa[x] == before[i];
                assert(sa[x] == after[i]);
            }
        }
    }
}

/// The LMS positions as they stand in the text can seed the first round.
pub proof fn lemma_first_seeds(text: Seq<int>, types: Seq<bool>, k: int, lms: Seq<usize>)
    requires
        text.len() >= 1,
        text.len() <= usize::MAX,
        is_text_over(text, k),
        is_type_map(text, types),
        is_lms_list(types, lms),
    ensures
        p_setting(text, k, seed_order(text), lms),
        lists_lms(text, lms),
{
    lemma_key_orders_extend(text, k);
    let le = seed_order(text);
    assert forall|i: int| 0 <= i < lms.len() implies is_lms(text, #[trigger] lms[i] as int) by {
        lemma_lms_by_types(text, types, lms[i] as int);
    }
    assert forall|p: int| is_lms(text, p) implies occurs(lms, p) by {
        lemma_lms_by_types(text, types, p);
        let i = choose|i: int| 0 <= i < lms.len() && lms[i] == p;
        assert(lms[i] == p);
    }
    assert forall|i: int, j: int|
        0 <= i < j < lms.len() && text[lms[i] as int] == text[lms[j] as int] implies le(
        #[trigger] lms[i] as int,
        #[trigger] lms[j] as int,
    ) by {
        let a = lms[i] as int;
        let b = lms[j] as int;
        assert(is_lms(text, a) && is_lms(text, b));
        let ka = key(text, a, true);
        let kb = key(text, b, true);
        assert(ka =~= seq![code(text, a)]);
        assert(kb =~= seq![code(text, b)]);
        assert(code(text, a) == code(text, b));
        assert(ka.drop_first().len() == 0);
        assert(lex_le(ka.drop_first(), kb.drop_first()));
        assert(lex_le(ka, kb));
    }
}

/// Two lists of the LMS positions are equally long.
pub proof fn lemma_lists_equally_long(text: Seq<int>, a: Seq<usize>, b: Seq<usize>)
    requires
        lists_lms(text, a),
        lists_lms(text, b),
    ensures
        a.len() == b.len(),
{
    let n = text.len() as int;
    let f = lms_in(text);
    let ai = Seq::new(a.len(), |i: int| a[i] as int);
    let bi = Seq::new(b.len(), |i: int| b[i] as int);
    assert forall|x: int| 0 <= x < n && #[trigger] f(x) implies (exists|i: int|
        0 <= i < ai.len() && ai[i] == x) && (exists|i: int| 0 <= i < bi.len() && bi[i] == x) by {
        assert(occurs(a, x) && occurs(b, x));
        let i = choose|i: int| 0 <= i < a.len() && a[i] == x;
        assert(ai[i] == x);
        let j = choose|j: int| 0 <= j < b.len() && b[j] == x;
        assert(bi[j] == x);
    }
    assert forall|i: int| 0 <= i < ai.len() implies 0 <= #[trigger] ai[i] < n && f(ai[i]) by {
        assert(is_lms(text, a[i] as int));
    }
    assert forall|i: int| 0 <= i < bi.len() implies 0 <= #[trigger] bi[i] < n && f(bi[i]) by {
        assert(is_lms(text, b[i] as int));
    }
    lemma_distinct_members_bound(f, ai, n);
    lemma_distinct_members_bound(f, bi, n);
    lemma_all_members_bound(f, ai, n);
    lemma_all_members_bound(f, bi, n);
}

/// Where every LMS substring has a name of its own, the order of the keys is
/// the order of the LMS suffixes.
pub proof fn lemma_distinct_names(
    text: Seq<int>,
    types: Seq<bool>,
    k: int,
    sorted: Seq<usize>,
    names: Seq<usize>,
)
    requires
        is_text_over(text, k),
        is_type_map(text, types),
        is_key_sorted(text, sorted),
        is_naming(text, types, sorted, names),
        sorted.len() > 0 ==> names[sorted.len() - 1] + 1 == sorted.len(),
    ensures
        ordered_within_symbols(text, suffix_order(text), sorted),
{
    let m = sorted.len() as int;
    assert forall|i: int, j: int| 0 <= i < j < m implies suffix_order(text)(
        #[trigger] sorted[i] as int,
        #[trigger] sorted[j] as int,
    ) by {
        lemma_same_name_same_substring(text, types, sorted, names, 0, i);
        lemma_same_name_same_substring(text, types, sorted, names, i, m - 1);
        lemma_same_name_same_substring(text, types, sorted, names, 0, j);
        lemma_same_name_same_substring(text, types, sorted, names, j, m - 1);
        lemma_smaller_name_smaller_suffix(text, types, k, sorted, names, i, j);
    }
}

/// The LMS positions read in the order of the suffix array of the reduced
/// text are in the order of their suffixes.
pub proof fn lemma_selected(
    text: Seq<int>,
    types: Seq<bool>,
    k: int,
    lms: Seq<usize>,
    sorted: Seq<usize>,
    names: Seq<usize>,
    reduced: Seq<u64>,
    ranks: Seq<usize>,
    order: Seq<usize>,
)
    requires
        is_text_over(text, k),
        is_type_map(text, types),
        is_lms_list(types, lms),
        lists_lms(text, lms),
        is_key_sorted(text, sorted),
        is_naming(text, types, sorted, names),
        reduced.len() == lms.len(),
        forall|z: int|
            0 <= z < lms.len() ==> named_within(
                sorted,
                names,
                sorted.len() as int,
                lms[z] as int,
                #[trigger] reduced[z] as int,
            ),
        is_suffix_array(symbols(reduced), positions(ranks)),
        order.len() == ranks.len(),
        forall|i: int| 0 <= i < ranks.len() ==> #[trigger] order[i] == lms[ranks[i] as int],
    ensures
        lists_lms(text, order),
        ordered_within_symbols(text, suffix_order(text), order),
{
    let m = lms.len() as int;
    let red = symbols(reduced);
    let rk = positions(ranks);
    assert(red.len() == m);
    assert forall|i: int| 0 <= i < m implies 0 <= #[trigger] ranks[i] < m by {
        assert(0 <= rk[i] < m);
    }
    assert forall|i: int, j: int| 0 <= i < j < m implies order[i] != order[j] && suffix_order(text)(
        #[trigger] order[i] as int,
        #[trigger] order[j] as int,
    ) by {
        assert(rk[i] != rk[j]);
        assert(suffix_lt(red, rk[i], rk[j]));
        lemma_reduced_order(
            text,
            types,
            k,
            lms,
            sorted,
            names,
            reduced,
            ranks[i] as int,
            ranks[j] as int,
        );
        let x = ranks[i] as int;
        let y = ranks[j] as int;
        if x < y {
            assert(lms[x] < lms[y]);
        } else {
            assert(lms[y] < lms[x]);
        }
    }
    assert forall|i: int| 0 <= i < order.len() implies is_lms(text, #[trigger] order[i] as int) by {
        assert(is_lms(text, lms[ranks[i] as int] as int));
    }
    assert forall|p: int| is_lms(text, p) implies occurs(order, p) by {
        assert(occurs(lms, p));
        let z = choose|z: int| 0 <= z < lms.len() && lms[z] == p;
        assert(occurs_in(rk, z));
        let i = choose|i: int| 0 <= i < rk.len() && rk[i] == z;
        assert(order[i] == p);
    }
}

/// The suffix array of a non-empty text over the alphabet `[0, k)`, by
/// induced sorting.
///
/// `depth` bounds the nesting: each level solves a text at most half as long
/// as the one before, and the measure of termination is `depth` itself.
pub fn induced_sort(t: &[u64], k: usize, Ghost(depth): Ghost<nat>) -> (sa: Vec<usize>)
    requires
        t@.len() >= 1,
        forall|i: int| 0 <= i < t@.len() ==> #[trigger] t@[i] < k,
        table_allowed(k as int, t@.len() as int),
        t@.len() < pow2(depth),
    ensures
        is_suffix_array(symbols(t@), positions(sa@)),
    decreases depth,
{
    let n = t.len();
    let ghost text = symbols(t@);
    let ghost width = k as int;
    proof {
        assert(text.len() == n);
        assert forall|i: int| 0 <= i < text.len() implies 0 <= #[trigger] text[i] < width by {
            assert(t@[i] < k);
        }
    }
    let types = classify_types(t);
    let lms = lms_positions(types.as_slice());
    let counts = symbol_counts(t, k);
    let starts = bucket_starts(counts.as_slice());
    let ends = bucket_ends(counts.as_slice());
    proof {
        assert forall|c: int| 0 <= c < starts@.len() implies #[trigger] starts@[c] == bucket_start(
            text,
            c,
        ) by {
            lemma_prefix_sum_counts_below(text, counts@, c);
        }
        assert forall|c: int| 0 <= c < ends@.len() implies #[trigger] ends@[c] == bucket_end(
            text,
            c,
        ) by {
            lemma_prefix_sum_counts_below(text, counts@, c + 1);
        }
        lemma_first_seeds(text, types@, width, lms@);
        lemma_key_orders_extend(text, width);
    }
    let mut sa: Vec<usize> = vec![EMPTY; n];
    induce(
        t,
        types.as_slice(),
        starts.as_slice(),
        ends.as_slice(),
        &mut sa,
        lms.as_slice(),
        Ghost(seed_order(text)),
        Ghost(key_order(text)),
    );
    let sorted = collect_lms(types.as_slice(), sa.as_slice());
    proof {
        lemma_collected(text, types@, key_order(text), sa@, n as int);
        assert forall|i: int, j: int| 0 <= i < j < sorted@.len() implies sorted@[i] != sorted@[j]
            && lex_le(
            key(text, #[trigger] sorted@[i] as int, false),
            key(text, #[trigger] sorted@[j] as int, false),
        ) by {
            assert(is_lms(text, sorted@[i] as int) && is_lms(text, sorted@[j] as int));
            assert(key_order(text)(sorted@[i] as int, sorted@[j] as int));
        }
        assert forall|i: int| 0 <= i < sorted@.len() implies #[trigger] sorted@[i] < text.len() by {
            assert(is_lms(text, sorted@[i] as int));
        }
        assert forall|p: int| is_lms(text, p) implies occurs(sorted@, p) by {
            assert(occurs(sa@, p));
            let x = choose|x: int| 0 <= x < sa@.len() && sa@[x] == p;
            assert(is_lms(text, sa@[x] as int));
        }
        assert(lists_lms(text, sorted@));
        lemma_lists_equally_long(text, sorted@, lms@);
    }
    let names = name_lms_substrings(t, types.as_slice(), sorted.as_slice());
    let m = sorted.len();
    let distinct: usize = if m == 0 {
        0
    } else {
        proof {
            lemma_same_name_same_substring(text, types@, sorted@, names@, 0, m - 1);
        }
        names[m - 1] + 1
    };
    proof {
        lemma_suffix_order_extends(text);
    }
    let order: Vec<usize> = if distinct == m {
        proof {
            lemma_distinct_names(text, types@, width, sorted@, names@);
        }
        sorted
    } else {
        proof {
            assert forall|x: int| 0 <= x < lms@.len() implies is_listed(
                sorted@,
                #[trigger] lms@[x] as int,
            ) by {
                assert(is_lms(text, lms@[x] as int));
                assert(occurs(sorted@, lms@[x] as int));
            }
        }
        let reduced = reduced_text(t, lms.as_slice(), sorted.as_slice(), names.as_slice());
        proof {
            assert forall|x: int| 0 <= x < reduced@.len() implies #[trigger] reduced@[x]
                < distinct by {
                assert(named_within(sorted@, names@, m as int, lms@[x] as int, reduced@[x] as int));
                let j = choose|j: int|
                    0 <= j < m && sorted@[j] == lms@[x] && names@[j] == reduced@[x];
                lemma_same_name_same_substring(text, types@, sorted@, names@, j, m - 1);
            }
            if depth == 0 {
                lemma2_to64();
            }
            lemma_pow2_unfold(depth);
        }
        let ranks = induced_sort(reduced.as_slice(), distinct, Ghost((depth - 1) as nat));
        proof {
            assert forall|i: int| 0 <= i < ranks@.len() implies #[trigger] ranks@[i] < lms@.len() by {
                assert(positions(ranks@)[i] < m);
            }
        }
        let order = select_positions(lms.as_slice(), ranks.as_slice());
        proof {
            lemma_selected(
                text,
                types@,
                width,
                lms@,
                sorted@,
                names@,
                reduced@,
                ranks@,
                order@,
            );
        }
        order
    };
    induce(
        t,
        types.as_slice(),
        starts.as_slice(),
        ends.as_slice(),
        &mut sa,
        order.as_slice(),
        Ghost(suffix_order(text)),
        Ghost(suffix_order(text)),
    );
    proof {
        lemma_listing_is_suffix_array(text, sa@);
    }
    sa
}

/// The suffix array of a text whose symbols lie below `bound`.
///
/// Induced sorting keeps tables with one entry for each symbol below the
/// bound. Where the bound is larger than `TABLE_LIMIT` and larger than the
/// text is long, the symbols are renamed to their ranks first.
pub fn suffix_sort(t: &[u64], bound: u64) -> (sa: Vec<usize>)
    requires
        forall|i: int| 0 <= i < t@.len() ==> #[trigger] t@[i] < bound,
    ensures
        is_suffix_array(symbols(t@), positions(sa@)),
{
    let n = t.len();
    if n == 0 {
        return Vec::new();
    }
    proof {
        lemma2_to64();
        lemma2_to64_rest();
        assert(n <= usize::MAX <= 0xffff_ffff_ffff_ffff);
    }
    if bound <= usize::MAX as u64 && (bound as usize <= TABLE_LIMIT || bound as usize <= n) {
        induced_sort(t, bound as usize, Ghost(64nat))
    } else {
        let list = distinct_symbols(t, 0, n);
        proof {
            assert forall|i: int| 0 <= i < t@.len() implies holds(list@, #[trigger] t@[i]) by {
                assert(holds_between(t@, 0, n as int, t@[i]));
            }
        }
        let renamed = rename_symbols(t, list.as_slice());
        let sa = induced_sort(renamed.as_slice(), list.len(), Ghost(64nat));
        proof {
            lemma_renamed_suffix_array(t@, list@, renamed@, positions(sa@));
        }
        sa
    }
}

} // verus!
