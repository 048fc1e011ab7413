//! The reducer: LMS substrings are given names, equal substrings the same
//! name, and the names in text order form the reduced text.
//!
//! The LMS substring at an LMS position runs up to and including the next
//! LMS position. After the last LMS position it runs to the end of the text
//! and is closed by the end marker, which no symbol equals.

use vstd::prelude::*;
use crate::classify::is_lms_at;
use crate::views::symbols;

verus! {

/// The first LMS position at or after `i`, or the length of the text where none follows.
pub open spec fn lms_end(types: Seq<bool>, i: int) -> int
    decreases types.len() - i,
{
    if i >= types.len() {
        types.len() as int
    } else if is_lms_at(types, i) {
        i
    } else {
        lms_end(types, i + 1)
    }
}

/// The LMS substring that starts at `p`.
pub open spec fn lms_substring(t: Seq<int>, types: Seq<bool>, p: int) -> Seq<int> {
    let e = lms_end(types, p + 1);
    if e < t.len() {
        t.subrange(p, e + 1)
    } else {
        t.subrange(p, t.len() as int).push(-1)
    }
}

/// The substrings at `p` and `q` are equal, symbol for symbol and in length.
pub open spec fn same_lms_substring(t: Seq<int>, types: Seq<bool>, p: int, q: int) -> bool {
    lms_substring(t, types, p) == lms_substring(t, types, q)
}

/// `names` numbers the substrings at the positions of `sorted` from zero,
/// moving to the next number wherever a substring differs from the one before.
pub open spec fn is_naming(t: Seq<int>, types: Seq<bool>, sorted: Seq<usize>, names: Seq<usize>) -> bool {
    &&& names.len() == sorted.len()
    &&& names.len() > 0 ==> names[0] == 0
    &&& forall|i: int|
        0 <= i < names.len() - 1 ==> #[trigger] names[i + 1] == names[i] + (if same_lms_substring(
            t,
            types,
            sorted[i] as int,
            sorted[i + 1] as int,
        ) {
            0int
        } else {
            1int
        })
}

/// The suffixes at `p` and `q` hold the same symbol at offset `e`.
pub open spec fn agree_at(t: Seq<u64>, p: int, q: int, e: int) -> bool {
    t[p + e] == t[q + e]
}

/// The end of an LMS substring lies between where the search began and the end of the text.
pub proof fn lemma_lms_end_bounds(types: Seq<bool>, i: int)
    requires
        0 <= i <= types.len(),
    ensures
        i <= lms_end(types, i) <= types.len(),
    decreases types.len() - i,
{
    if i < types.len() && !is_lms_at(types, i) {
        lemma_lms_end_bounds(types, i + 1);
    }
}

/// Under a naming, entries with the same name start equal substrings.
pub proof fn lemma_same_name_same_substring(
    t: Seq<int>,
    types: Seq<bool>,
    sorted: Seq<usize>,
    names: Seq<usize>,
    i: int,
    j: int,
)
    requires
        is_naming(t, types, sorted, names),
        0 <= i <= j < names.len(),
    ensures
        names[i] <= names[j],
        names[j] <= names[i] + (j - i),
        names[i] == names[j] ==> same_lms_substring(t, types, sorted[i] as int, sorted[j] as int),
    decreases j - i,
{
    if i < j {
        lemma_same_name_same_substring(t, types, sorted, names, i, j - 1);
        assert(names[j - 1 + 1] == names[j]);
    }
}

/// Whether the LMS substrings at `p` and `q` are equal.
pub fn lms_substrings_equal(t: &[u64], types: &[bool], p: usize, q: usize) -> (same: bool)
    requires
        types@.len() == t@.len(),
        p < t@.len(),
        q < t@.len(),
    ensures
        same == same_lms_substring(symbols(t@), types@, p as int, q as int),
{
    let n = t.len();
    let ghost text = symbols(t@);
    let ghost sub_p = lms_substring(text, types@, p as int);
    let ghost sub_q = lms_substring(text, types@, q as int);
    let mut d: usize = 0;
    loop
        invariant
            n == t@.len(),
            types@.len() == n,
            text == symbols(t@),
            sub_p == lms_substring(text, types@, p as int),
            sub_q == lms_substring(text, types@, q as int),
            p + d < n,
            q + d < n,
            forall|e: int| 0 <= e < d ==> #[trigger] agree_at(t@, p as int, q as int, e),
            lms_end(types@, p + 1) == lms_end(types@, p + d + 1),
            lms_end(types@, q + 1) == lms_end(types@, q + d + 1),
        decreases n - d,
    {
        proof {
            lemma_lms_end_bounds(types@, p + d + 1);
            lemma_lms_end_bounds(types@, q + d + 1);
            assert(sub_p.len() > d && sub_p[d as int] == text[p + d]);
            assert(sub_q.len() > d && sub_q[d as int] == text[q + d]);
        }
        if t[p + d] != t[q + d] {
            return false;
        }
        assert(agree_at(t@, p as int, q as int, d as int));
        d += 1;
        let p_ends = p + d >= n;
        let q_ends = q + d >= n;
        if p_ends || q_ends {
            proof {
                if p_ends && !q_ends {
                    assert(sub_p.len() == d + 1 && sub_p[d as int] == -1);
                    lemma_lms_end_bounds(types@, q + d);
                    assert(sub_q.len() > d && sub_q[d as int] == text[q + d]);
                } else if q_ends && !p_ends {
                    assert(sub_q.len() == d + 1 && sub_q[d as int] == -1);
                    lemma_lms_end_bounds(types@, p + d);
                    assert(sub_p.len() > d && sub_p[d as int] == text[p + d]);
                }
            }
            return p_ends && q_ends;
        }
        let p_lms = types[p + d] && !types[p + d - 1];
        let q_lms = types[q + d] && !types[q + d - 1];
        if p_lms || q_lms {
            proof {
                lemma_lms_end_bounds(types@, p + d + 1);
                lemma_lms_end_bounds(types@, q + d + 1);
                if p_lms && q_lms {
                    assert(sub_p.len() == d + 1 && sub_q.len() == d + 1);
                    if t@[p + d] == t@[q + d] {
                        assert forall|e: int| 0 <= e < d + 1 implies sub_p[e] == sub_q[e] by {
                            assert(sub_p[e] == text[p + e]);
                            assert(sub_q[e] == text[q + e]);
                            if e < d {
                                assert(agree_at(t@, p as int, q as int, e));
                            }
                        }
                        assert(sub_p =~= sub_q);
                    } else {
                        assert(sub_p[d as int] == text[p + d]);
                        assert(sub_q[d as int] == text[q + d]);
                    }
                } else if p_lms {
                    assert(sub_p.len() == d + 1);
                    assert(sub_q.len() > d + 1);
                } else {
                    assert(sub_q.len() == d + 1);
                    assert(sub_p.len() > d + 1);
                }
            }
            if !(p_lms && q_lms) {
                return false;
            }
            return t[p + d] == t[q + d];
        }
    }
}

/// Names the LMS substrings at the positions of `sorted`, in that order.
pub fn name_lms_substrings(t: &[u64], types: &[bool], sorted: &[usize]) -> (names: Vec<usize>)
    requires
        types@.len() == t@.len(),
        forall|i: int| 0 <= i < sorted@.len() ==> #[trigger] sorted@[i] < t@.len(),
    ensures
        is_naming(symbols(t@), types@, sorted@, names@),
{
    let m = sorted.len();
    let ghost text = symbols(t@);
    let mut names: Vec<usize> = Vec::with_capacity(m);
    if m == 0 {
        return names;
    }
    names.push(0);
    let mut i: usize = 1;
    let mut name: usize = 0;
    while i < m
        invariant
            m == sorted@.len(),
            types@.len() == t@.len(),
            text == symbols(t@),
            forall|j: int| 0 <= j < sorted@.len() ==> #[trigger] sorted@[j] < t@.len(),
            1 <= i <= m,
            names@.len() == i,
            names@[0] == 0,
            name == names@[i - 1],
            name < i,
            forall|j: int|
                0 <= j < i - 1 ==> #[trigger] names@[j + 1] == names@[j] + (if same_lms_substring(
                    text,
                    types@,
                    sorted@[j] as int,
                    sorted@[j + 1] as int,
                ) {
                    0int
                } else {
                    1int
                }),
        decreases m - i,
    {
        if !lms_substrings_equal(t, types, sorted[i - 1], sorted[i]) {
            name += 1;
        }
        names.push(name);
        i += 1;
    }
    names
}

/// One of the first `upto` entries of `sorted` is the position `p`, and its name is `v`.
pub open spec fn named_within(sorted: Seq<usize>, names: Seq<usize>, upto: int, p: int, v: int) -> bool {
    exists|j: int| 0 <= j < upto && sorted[j] == p && names[j] == v
}

/// Position `p` is an entry of `sorted`.
pub open spec fn is_listed(sorted: Seq<usize>, p: int) -> bool {
    exists|j: int| 0 <= j < sorted.len() && sorted[j] == p
}

/// Writes the names in text order: entry `x` of the result is the name that
/// the position `lms[x]` has in `sorted`.
pub fn reduced_text(t: &[u64], lms: &[usize], sorted: &[usize], names: &[usize]) -> (reduced: Vec<u64>)
    requires
        names@.len() == sorted@.len(),
        forall|i: int| 0 <= i < sorted@.len() ==> #[trigger] sorted@[i] < t@.len(),
        forall|x: int| 0 <= x < lms@.len() ==> is_listed(sorted@, #[trigger] lms@[x] as int),
    ensures
        reduced@.len() == lms@.len(),
        forall|x: int|
            0 <= x < lms@.len() ==> named_within(
                sorted@,
                names@,
                sorted@.len() as int,
                lms@[x] as int,
                #[trigger] reduced@[x] as int,
            ),
{
    let n = t.len();
    let m = sorted.len();
    let mut name_at: Vec<usize> = vec![0usize; n];
    let mut i: usize = 0;
    while i < m
        invariant
            n == t@.len(),
            m == sorted@.len(),
            names@.len() == m,
            name_at@.len() == n,
            i <= m,
            forall|j: int| 0 <= j < sorted@.len() ==> #[trigger] sorted@[j] < n,
            forall|j: int|
                0 <= j < i ==> named_within(
                    sorted@,
                    names@,
                    m as int,
                    #[trigger] sorted@[j] as int,
                    name_at@[sorted@[j] as int] as int,
                ),
        decreases m - i,
    {
        let p = sorted[i];
        let ghost before = name_at@;
        name_at[p] = names[i];
        proof {
            assert forall|j: int| 0 <= j < i + 1 implies named_within(
                sorted@,
                names@,
                m as int,
                #[trigger] sorted@[j] as int,
                name_at@[sorted@[j] as int] as int,
            ) by {
                if sorted@[j] == p {
                    assert(sorted@[i as int] == p && names@[i as int] == name_at@[p as int]);
                } else {
                    assert(named_within(
                        sorted@,
                        names@,
                        m as int,
                        sorted@[j] as int,
                        before[sorted@[j] as int] as int,
                    ));
                }
            }
        }
        i += 1;
    }
    let mut reduced: Vec<u64> = Vec::with_capacity(lms.len());
    let mut x: usize = 0;
    while x < lms.len()
        invariant
            n == t@.len(),
            m == sorted@.len(),
            names@.len() == m,
            name_at@.len() == n,
            x <= lms@.len(),
            reduced@.len() == x,
            forall|j: int| 0 <= j < sorted@.len() ==> #[trigger] sorted@[j] < n,
            forall|y: int| 0 <= y < lms@.len() ==> is_listed(sorted@, #[trigger] lms@[y] as int),
            forall|j: int|
                0 <= j < m ==> named_within(
                    sorted@,
                    names@,
                    m as int,
                    #[trigger] sorted@[j] as int,
                    name_at@[sorted@[j] as int] as int,
                ),
            forall|y: int|
                0 <= y < x ==> named_within(
                    sorted@,
                    names@,
                    m as int,
                    lms@[y] as int,
                    #[trigger] reduced@[y] as int,
                ),
        decreases lms@.len() - x,
    {
        let p = lms[x];
        proof {
            assert(is_listed(sorted@, lms@[x as int] as int));
            let j = choose|j: int| 0 <= j < m && sorted@[j] == p;
            assert(named_within(
                sorted@,
                names@,
                m as int,
                sorted@[j] as int,
                name_at@[sorted@[j] as int] as int,
            ));
        }
        let v = name_at[p];
        reduced.push(v as u64);
        proof {
            assert(reduced@[x as int] as int == v as int);
        }
        x += 1;
    }
    reduced
}

} // verus!
