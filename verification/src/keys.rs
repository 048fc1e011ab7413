//! The order in which the first round puts the positions: by their keys.
//!
//! The key of a position is the run of symbols from the position up to and
//! including the next LMS position, each symbol taken together with the type
//! of its position; behind the last LMS position the key runs to the end of
//! the text. For an LMS position the key spells its LMS substring. Keys are
//! compared as words, an L-type symbol before the same symbol of S-type.

use vstd::prelude::*;
use crate::classify::{is_lms, is_s_type};
use crate::lpass::{by_symbol, by_type, is_l_order, l_step};
use crate::round::{carries_over, continues};
use crate::spass::{is_s_order, s_step};
use crate::views::is_text_over;

verus! {

/// The symbol at `x` together with the type of `x`, as one number: twice the
/// symbol, plus one for S-type. The end of the text has the code `-1`.
pub open spec fn code(text: Seq<int>, x: int) -> int {
    if x >= text.len() {
        -1
    } else if is_s_type(text, x) {
        2 * text[x] + 1
    } else {
        2 * text[x]
    }
}

/// The key of position `a`. With `started` set, the key of an LMS position
/// is its own code alone: the position ends a key rather than beginning one.
pub open spec fn key(text: Seq<int>, a: int, started: bool) -> Seq<int>
    decreases text.len() - a,
{
    if a >= text.len() {
        seq![-1int]
    } else if started && is_lms(text, a) {
        seq![code(text, a)]
    } else {
        seq![code(text, a)] + key(text, a + 1, true)
    }
}

/// Word `u` comes before word `v`, or equals it; a word comes after its
/// proper beginnings.
pub open spec fn lex_le(u: Seq<int>, v: Seq<int>) -> bool
    decreases u.len(),
{
    if u.len() == 0 {
        true
    } else if v.len() == 0 {
        false
    } else if u[0] != v[0] {
        u[0] < v[0]
    } else {
        lex_le(u.drop_first(), v.drop_first())
    }
}

/// The order of the keys in which an LMS position counts by its code alone.
pub open spec fn seed_order(text: Seq<int>) -> spec_fn(int, int) -> bool {
    |a: int, b: int| lex_le(key(text, a, true), key(text, b, true))
}

/// The order of the keys.
pub open spec fn key_order(text: Seq<int>) -> spec_fn(int, int) -> bool {
    |a: int, b: int| lex_le(key(text, a, false), key(text, b, false))
}

/// Every word comes before or equals itself.
pub proof fn lemma_lex_le_reflexive(u: Seq<int>)
    ensures
        lex_le(u, u),
    decreases u.len(),
{
    if u.len() > 0 {
        lemma_lex_le_reflexive(u.drop_first());
    }
}

/// The order of words is transitive.
pub proof fn lemma_lex_le_transitive(u: Seq<int>, v: Seq<int>, w: Seq<int>)
    requires
        lex_le(u, v),
        lex_le(v, w),
    ensures
        lex_le(u, w),
    decreases u.len(),
{
    if u.len() > 0 && u[0] == v[0] && v[0] == w[0] {
        lemma_lex_le_transitive(u.drop_first(), v.drop_first(), w.drop_first());
    }
}

/// Two words that come before or equal each other are the same word.
pub proof fn lemma_lex_le_antisymmetric(u: Seq<int>, v: Seq<int>)
    requires
        lex_le(u, v),
        lex_le(v, u),
    ensures
        u == v,
    decreases u.len(),
{
    if u.len() > 0 {
        lemma_lex_le_antisymmetric(u.drop_first(), v.drop_first());
        assert(u =~= seq![u[0]] + u.drop_first());
        assert(v =~= seq![v[0]] + v.drop_first());
    } else {
        assert(u =~= v);
    }
}

/// A key begins with the code of its position.
pub proof fn lemma_key_head(text: Seq<int>, a: int, started: bool)
    ensures
        key(text, a, started).len() >= 1,
        key(text, a, started)[0] == code(text, a),
{
}

/// Behind its first code the key of a position that does not end a key is the
/// key of the next position.
pub proof fn lemma_key_tail(text: Seq<int>, a: int, started: bool)
    requires
        a < text.len(),
        !(started && is_lms(text, a)),
    ensures
        key(text, a, started).drop_first() == key(text, a + 1, true),
{
    assert(key(text, a, started).drop_first() =~= key(text, a + 1, true));
}

/// The first round's orders are orders that the two passes extend.
pub proof fn lemma_key_orders_extend(text: Seq<int>, k: int)
    requires
        is_text_over(text, k),
    ensures
        is_l_order(text, seed_order(text)),
        is_s_order(text, key_order(text)),
        continues(text, seed_order(text), key_order(text)),
{
    let first = seed_order(text);
    let second = key_order(text);
    let n = text.len() as int;
    assert forall|a: int, b: int| 0 <= a < n && 0 <= b < n implies #[trigger] by_symbol(
        text,
        first,
        a,
        b,
    ) && #[trigger] by_symbol(text, second, a, b) by {
        lemma_key_head(text, a, true);
        lemma_key_head(text, b, true);
        lemma_key_head(text, a, false);
        lemma_key_head(text, b, false);
    }
    assert forall|a: int, b: int| 0 <= a < n && 0 <= b < n implies #[trigger] by_type(
        text,
        first,
        a,
        b,
    ) && #[trigger] by_type(text, second, a, b) by {
        lemma_key_head(text, a, true);
        lemma_key_head(text, b, true);
        lemma_key_head(text, a, false);
        lemma_key_head(text, b, false);
    }
    assert forall|a: int, b: int| 0 <= a < n && 0 <= b < n implies #[trigger] l_step(
        text,
        first,
        a,
        b,
    ) by {
        if text[a] == text[b] && !is_s_type(text, a) && !is_s_type(text, b) {
            lemma_key_head(text, a, true);
            lemma_key_head(text, b, true);
            lemma_key_tail(text, a, true);
            lemma_key_tail(text, b, true);
        }
    }
    assert forall|x: int| 0 <= x <= n implies #[trigger] first(n, x) by {
        lemma_key_head(text, x, true);
        assert(key(text, n, true) =~= seq![-1int]);
        assert(key(text, n, true).drop_first().len() == 0);
        if x < n {
            assert(0 <= text[x]);
        } else {
            lemma_lex_le_reflexive(key(text, n, true));
        }
    }
    assert forall|a: int, b: int| 0 <= a < n && 0 <= b < n implies #[trigger] s_step(
        text,
        second,
        a,
        b,
    ) by {
        if text[a] == text[b] && is_s_type(text, a) && is_s_type(text, b) {
            lemma_key_head(text, a, false);
            lemma_key_head(text, b, false);
            lemma_key_tail(text, a, false);
            lemma_key_tail(text, b, false);
            lemma_key_started(text, a + 1);
            lemma_key_started(text, b + 1);
        }
    }
    assert forall|a: int, b: int| 0 <= a < n && 0 <= b < n implies #[trigger] carries_over(
        text,
        first,
        second,
        a,
        b,
    ) by {
        if !is_s_type(text, a) && !is_s_type(text, b) {
            lemma_key_started(text, a);
            lemma_key_started(text, b);
        }
    }
}

/// For a position that is not LMS it makes no difference to the key whether
/// it has started.
pub proof fn lemma_key_started(text: Seq<int>, a: int)
    requires
        !is_lms(text, a),
    ensures
        key(text, a, true) == key(text, a, false),
{
}

} // verus!
