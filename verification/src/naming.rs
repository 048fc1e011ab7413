//! Why the names of the LMS substrings put the LMS suffixes in order.
//!
//! The first round lists the LMS positions in the order of their keys. Equal
//! keys spell equal LMS substrings, and get equal names; a smaller key means
//! a smaller suffix. So the suffixes of the reduced text, which is made of
//! the names, compare as the LMS suffixes of the text do.

use vstd::prelude::*;
use crate::classify::{is_lms, is_lms_at, is_s_type, is_type_map};
use crate::keys::{
    code, key, lemma_key_head, lemma_key_tail, lemma_lex_le_antisymmetric, lemma_lex_le_reflexive,
    lemma_lex_le_transitive, lex_le,
};
use crate::layout::lemma_l_before_s;
use crate::order::{lemma_suffix_lt_asymmetric, suffix_lt};
use crate::reduce::{
    is_naming, lemma_lms_end_bounds, lemma_same_name_same_substring, lms_end, lms_substring,
    named_within, same_lms_substring,
};
use crate::views::{is_text_over, symbols};

verus! {

/// The symbol that a code stands for; the end marker for the code of the end.
pub open spec fn symbol_of(c: int) -> int {
    if c < 0 {
        -1
    } else {
        c / 2
    }
}

/// The symbols that a key is made of.
pub open spec fn spell(w: Seq<int>) -> Seq<int> {
    Seq::new(w.len(), |i: int| symbol_of(w[i]))
}

/// The symbols from `x` up to and including the next LMS position at or
/// after `x`; where none follows, up to the end of the text and the end marker.
pub open spec fn run_to_lms(text: Seq<int>, types: Seq<bool>, x: int) -> Seq<int> {
    let e = lms_end(types, x);
    if e < text.len() {
        text.subrange(x, e + 1)
    } else {
        text.subrange(x, text.len() as int).push(-1)
    }
}

/// With a type map, the two ways of saying that a position is LMS agree.
pub proof fn lemma_lms_by_types(text: Seq<int>, types: Seq<bool>, p: int)
    requires
        is_type_map(text, types),
    ensures
        is_lms_at(types, p) == is_lms(text, p),
{
}

/// A code gives back its symbol.
pub proof fn lemma_symbol_of_code(text: Seq<int>, k: int, x: int)
    requires
        is_text_over(text, k),
        0 <= x,
    ensures
        symbol_of(code(text, x)) == (if x < text.len() {
            text[x]
        } else {
            -1
        }),
{
    if x < text.len() {
        assert(0 <= text[x]);
    }
}

/// The key that a position has once a key has started spells the run from
/// the position to the next LMS position.
pub proof fn lemma_key_spells_run(text: Seq<int>, types: Seq<bool>, k: int, x: int)
    requires
        is_text_over(text, k),
        is_type_map(text, types),
        0 <= x <= text.len(),
    ensures
        spell(key(text, x, true)) == run_to_lms(text, types, x),
    decreases text.len() - x,
{
    let w = key(text, x, true);
    let run = run_to_lms(text, types, x);
    lemma_lms_end_bounds(types, x);
    lemma_lms_by_types(text, types, x);
    lemma_symbol_of_code(text, k, x);
    if x >= text.len() {
        assert(spell(w) =~= run);
    } else if is_lms(text, x) {
        assert(spell(w) =~= run);
    } else {
        lemma_key_spells_run(text, types, k, x + 1);
        lemma_lms_end_bounds(types, x + 1);
        let rest = key(text, x + 1, true);
        let rest_run = run_to_lms(text, types, x + 1);
        assert(w =~= seq![code(text, x)] + rest);
        assert(run =~= seq![text[x]] + rest_run);
        assert forall|i: int| 0 <= i < w.len() implies spell(w)[i] == run[i] by {
            if i > 0 {
                assert(w[i] == rest[i - 1]);
                assert(spell(rest)[i - 1] == symbol_of(rest[i - 1]));
                assert(run[i] == rest_run[i - 1]);
            }
        }
        assert(spell(w) =~= run);
    }
}

/// The key of a position spells its LMS substring.
pub proof fn lemma_key_spells_substring(text: Seq<int>, types: Seq<bool>, k: int, p: int)
    requires
        is_text_over(text, k),
        is_type_map(text, types),
        0 <= p < text.len(),
    ensures
        spell(key(text, p, false)) == lms_substring(text, types, p),
{
    let w = key(text, p, false);
    let sub = lms_substring(text, types, p);
    let rest = key(text, p + 1, true);
    let rest_run = run_to_lms(text, types, p + 1);
    lemma_key_spells_run(text, types, k, p + 1);
    lemma_lms_end_bounds(types, p + 1);
    lemma_symbol_of_code(text, k, p);
    assert(w =~= seq![code(text, p)] + rest);
    assert(sub =~= seq![text[p]] + rest_run);
    assert forall|i: int| 0 <= i < w.len() implies spell(w)[i] == sub[i] by {
        if i > 0 {
            assert(w[i] == rest[i - 1]);
            assert(spell(rest)[i - 1] == symbol_of(rest[i - 1]));
            assert(sub[i] == rest_run[i - 1]);
        }
    }
    assert(spell(w) =~= sub);
}

/// Of two different keys the smaller belongs to the smaller suffix.
///
/// With `started` set, the two positions must follow positions with the same code.
pub proof fn lemma_key_decides(text: Seq<int>, k: int, a: int, b: int, started: bool)
    requires
        is_text_over(text, k),
        0 <= a <= text.len(),
        0 <= b <= text.len(),
        started ==> a >= 1 && b >= 1 && code(text, a - 1) == code(text, b - 1),
        lex_le(key(text, a, started), key(text, b, started)),
        key(text, a, started) != key(text, b, started),
    ensures
        suffix_lt(text, a, b),
    decreases text.len() - a,
{
    let n = text.len() as int;
    let ka = key(text, a, started);
    let kb = key(text, b, started);
    lemma_key_head(text, a, started);
    lemma_key_head(text, b, started);
    if a < n {
        assert(0 <= text[a]);
    }
    if b < n {
        assert(0 <= text[b]);
    }
    if code(text, a) < code(text, b) {
        if a < n && text[a] == text[b] {
            lemma_l_before_s(text, a, b);
        }
    } else {
        assert(code(text, a) == code(text, b));
        if a >= n {
            assert(b >= n);
            assert(ka =~= kb);
        } else {
            assert(b < n);
            assert(text[a] == text[b]);
            assert(is_s_type(text, a) == is_s_type(text, b));
            if started {
                assert(0 <= text[a - 1] && 0 <= text[b - 1]);
                assert(is_s_type(text, a - 1) == is_s_type(text, b - 1));
                assert(is_lms(text, a) == is_lms(text, b));
            }
            if started && is_lms(text, a) {
                assert(ka =~= kb);
            } else {
                lemma_key_tail(text, a, started);
                lemma_key_tail(text, b, started);
                let ra = key(text, a + 1, true);
                let rb = key(text, b + 1, true);
                if ra == rb {
                    assert(ka =~= seq![code(text, a)] + ra);
                    assert(kb =~= seq![code(text, b)] + rb);
                }
                lemma_key_decides(text, k, a + 1, b + 1, true);
            }
        }
    }
}

/// Two suffixes that agree on their first `d` symbols compare as the
/// suffixes `d` positions later do.
pub proof fn lemma_common_prefix(text: Seq<int>, p: int, q: int, d: int)
    requires
        0 <= p,
        0 <= q,
        0 <= d,
        p + d <= text.len(),
        q + d <= text.len(),
        forall|e: int| 0 <= e < d ==> text[p + e] == #[trigger] text[q + e],
    ensures
        suffix_lt(text, p, q) == suffix_lt(text, p + d, q + d),
    decreases d,
{
    if d > 0 {
        assert(text[p + 0] == text[q + 0]);
        assert forall|e: int| 0 <= e < d - 1 implies text[p + 1 + e] == #[trigger] text[q + 1 + e] by {
            assert(text[p + (e + 1)] == text[q + (e + 1)]);
        }
        lemma_common_prefix(text, p + 1, q + 1, d - 1);
    }
}

/// Two different positions with the same LMS substring are both followed by
/// an LMS position, at the same distance, and their suffixes compare as the
/// suffixes at those LMS positions do.
pub proof fn lemma_same_substring_step(text: Seq<int>, types: Seq<bool>, k: int, p: int, q: int)
    requires
        is_text_over(text, k),
        is_type_map(text, types),
        0 <= p < text.len(),
        0 <= q < text.len(),
        p != q,
        same_lms_substring(text, types, p, q),
    ensures
        lms_end(types, p + 1) < text.len(),
        lms_end(types, q + 1) < text.len(),
        suffix_lt(text, p, q) == suffix_lt(text, lms_end(types, p + 1), lms_end(types, q + 1)),
{
    let n = text.len() as int;
    let ep = lms_end(types, p + 1);
    let eq = lms_end(types, q + 1);
    let sp = lms_substring(text, types, p);
    let sq = lms_substring(text, types, q);
    lemma_lms_end_bounds(types, p + 1);
    lemma_lms_end_bounds(types, q + 1);
    assert(sp.len() == ep - p + 1);
    assert(sq.len() == eq - q + 1);
    let d = ep - p;
    if ep >= n {
        assert(sp[d] == -1);
        if eq < n {
            assert(sq[d] == text[q + d]);
            assert(0 <= text[q + d]);
        }
    }
    if eq >= n {
        assert(sq[d] == -1);
        if ep < n {
            assert(sp[d] == text[p + d]);
            assert(0 <= text[p + d]);
        }
    }
    assert forall|e: int| 0 <= e < d implies text[p + e] == #[trigger] text[q + e] by {
        assert(sp[e] == text[p + e]);
        assert(sq[e] == text[q + e]);
    }
    lemma_common_prefix(text, p, q, d);
}

/// `sorted` holds positions of the text, in the order of their keys.
pub open spec fn is_key_sorted(text: Seq<int>, sorted: Seq<usize>) -> bool {
    &&& forall|i: int| 0 <= i < sorted.len() ==> #[trigger] sorted[i] < text.len()
    &&& forall|i: int, j: int|
        0 <= i < j < sorted.len() ==> sorted[i] != sorted[j] && lex_le(
            key(text, #[trigger] sorted[i] as int, false),
            key(text, #[trigger] sorted[j] as int, false),
        )
}

/// Under a naming of positions sorted by key, a smaller name means a
/// smaller key.
pub proof fn lemma_smaller_name_smaller_key(
    text: Seq<int>,
    types: Seq<bool>,
    k: int,
    sorted: Seq<usize>,
    names: Seq<usize>,
    i: int,
    j: int,
)
    requires
        is_text_over(text, k),
        is_type_map(text, types),
        is_key_sorted(text, sorted),
        is_naming(text, types, sorted, names),
        0 <= i < j < sorted.len(),
        names[i] < names[j],
    ensures
        !lex_le(key(text, sorted[j] as int, false), key(text, sorted[i] as int, false)),
    decreases j - i,
{
    let ki = key(text, sorted[i] as int, false);
    let kj = key(text, sorted[j] as int, false);
    let kh = key(text, sorted[j - 1] as int, false);
    assert(names[j - 1 + 1] == names[j]);
    assert(lex_le(kh, kj));
    if names[j - 1] < names[j] {
        if lex_le(kj, ki) {
            if i < j - 1 {
                assert(lex_le(ki, kh));
            } else {
                lemma_lex_le_reflexive(ki);
            }
            lemma_lex_le_transitive(kj, ki, kh);
            lemma_lex_le_antisymmetric(kh, kj);
            lemma_key_spells_substring(text, types, k, sorted[j - 1] as int);
            lemma_key_spells_substring(text, types, k, sorted[j] as int);
            assert(same_lms_substring(text, types, sorted[j - 1] as int, sorted[j] as int));
        }
    } else {
        lemma_smaller_name_smaller_key(text, types, k, sorted, names, i, j - 1);
        if lex_le(kj, ki) {
            lemma_lex_le_transitive(kh, kj, ki);
        }
    }
}

/// Under a naming of positions sorted by key, the position with the smaller
/// name has the smaller suffix.
pub proof fn lemma_smaller_name_smaller_suffix(
    text: Seq<int>,
    types: Seq<bool>,
    k: int,
    sorted: Seq<usize>,
    names: Seq<usize>,
    i: int,
    j: int,
)
    requires
        is_text_over(text, k),
        is_type_map(text, types),
        is_key_sorted(text, sorted),
        is_naming(text, types, sorted, names),
        0 <= i < sorted.len(),
        0 <= j < sorted.len(),
        names[i] < names[j],
    ensures
        suffix_lt(text, sorted[i] as int, sorted[j] as int),
{
    if j < i {
        lemma_same_name_same_substring(text, types, sorted, names, j, i);
    }
    lemma_smaller_name_smaller_key(text, types, k, sorted, names, i, j);
    let ki = key(text, sorted[i] as int, false);
    let kj = key(text, sorted[j] as int, false);
    assert(lex_le(ki, kj));
    if ki == kj {
        lemma_lex_le_reflexive(ki);
    }
    lemma_key_decides(text, k, sorted[i] as int, sorted[j] as int, false);
}

/// `lms` lists the LMS positions from left to right.
pub open spec fn is_lms_list(types: Seq<bool>, lms: Seq<usize>) -> bool {
    &&& forall|i: int| 0 <= i < lms.len() ==> is_lms_at(types, #[trigger] lms[i] as int)
    &&& forall|i: int, j: int| 0 <= i < j < lms.len() ==> lms[i] < lms[j]
    &&& forall|p: int| is_lms_at(types, p) ==> exists|i: int| 0 <= i < lms.len() && lms[i] == p
}

/// The position at which the LMS substring of entry `x` of the list ends:
/// the next entry, or the end of the text behind the last entry.
pub open spec fn next_in_list(types: Seq<bool>, lms: Seq<usize>, x: int) -> int {
    if x + 1 < lms.len() {
        lms[x + 1] as int
    } else {
        types.len() as int
    }
}

/// Behind an entry of the list the next LMS position is the next entry.
pub proof fn lemma_next_lms(types: Seq<bool>, lms: Seq<usize>, x: int, i: int)
    requires
        is_lms_list(types, lms),
        0 <= x < lms.len(),
        lms[x] < i <= next_in_list(types, lms, x),
    ensures
        lms_end(types, i) == next_in_list(types, lms, x),
    decreases next_in_list(types, lms, x) - i,
{
    let bound = next_in_list(types, lms, x);
    if x + 1 < lms.len() {
        assert(is_lms_at(types, lms[x + 1] as int));
    }
    if i < bound {
        if is_lms_at(types, i) {
            let z = choose|z: int| 0 <= z < lms.len() && lms[z] == i;
            if z <= x {
                if z < x {
                    assert(lms[z] < lms[x]);
                }
            } else if z > x + 1 {
                assert(lms[x + 1] < lms[z]);
            }
        }
        lemma_next_lms(types, lms, x, i + 1);
    }
}

/// The suffixes of the reduced text compare as the LMS suffixes that they
/// stand for.
pub proof fn lemma_reduced_order(
    text: Seq<int>,
    types: Seq<bool>,
    k: int,
    lms: Seq<usize>,
    sorted: Seq<usize>,
    names: Seq<usize>,
    reduced: Seq<u64>,
    x: int,
    y: int,
)
    requires
        is_text_over(text, k),
        is_type_map(text, types),
        is_lms_list(types, lms),
        is_key_sorted(text, sorted),
        is_naming(text, types, sorted, names),
        reduced.len() == lms.len(),
        forall|z: int|
            0 <= z < lms.len() ==> named_within(
                sorted,
                names,
                sorted.len() as int,
                lms[z] as int,
                #[trigger] reduced[z] as int,
            ),
        0 <= x < lms.len(),
        0 <= y < lms.len(),
        x != y,
    ensures
        suffix_lt(symbols(reduced), x, y) == suffix_lt(text, lms[x] as int, lms[y] as int),
    decreases lms.len() - x,
{
    let red = symbols(reduced);
    let m = sorted.len() as int;
    assert(named_within(sorted, names, m, lms[x] as int, reduced[x] as int));
    assert(named_within(sorted, names, m, lms[y] as int, reduced[y] as int));
    let i = choose|i: int| 0 <= i < m && sorted[i] == lms[x] && names[i] == reduced[x];
    let j = choose|j: int| 0 <= j < m && sorted[j] == lms[y] && names[j] == reduced[y];
    assert(red[x] == reduced[x] && red[y] == reduced[y]);
    if x < y {
        assert(lms[x] < lms[y]);
    } else {
        assert(lms[y] < lms[x]);
    }
    assert(is_lms_at(types, lms[x] as int) && is_lms_at(types, lms[y] as int));
    if names[i] < names[j] {
        lemma_smaller_name_smaller_suffix(text, types, k, sorted, names, i, j);
    } else if names[j] < names[i] {
        lemma_smaller_name_smaller_suffix(text, types, k, sorted, names, j, i);
        lemma_suffix_lt_asymmetric(text, lms[y] as int, lms[x] as int);
    } else {
        if i < j {
            lemma_same_name_same_substring(text, types, sorted, names, i, j);
        } else {
            lemma_same_name_same_substring(text, types, sorted, names, j, i);
        }
        lemma_same_substring_step(text, types, k, lms[x] as int, lms[y] as int);
        lemma_next_lms(types, lms, x, lms[x] + 1);
        lemma_next_lms(types, lms, y, lms[y] + 1);
        lemma_reduced_order(text, types, k, lms, sorted, names, reduced, x + 1, y + 1);
    }
}

} // verus!
