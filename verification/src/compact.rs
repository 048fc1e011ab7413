//! Renaming the symbols of a text over a wide alphabet.
//!
//! Induced sorting keeps tables with one entry for each symbol of the
//! alphabet. Where the alphabet is much larger than the text, the symbols
//! that occur are put in order and each is renamed to its rank among them.
//! The renamed text has the same suffix array, over an alphabet no larger
//! than the text is long.

use vstd::prelude::*;
use crate::order::{is_suffix_array, suffix_lt};
use crate::views::symbols;

verus! {

/// One of the first `upto` entries of `s` is `v`.
pub open spec fn holds_before(s: Seq<u64>, upto: int, v: u64) -> bool {
    exists|i: int| 0 <= i < upto && s[i] == v
}

/// `v` is an entry of `s`.
pub open spec fn holds(s: Seq<u64>, v: u64) -> bool {
    holds_before(s, s.len() as int, v)
}

/// One of the entries of `s` from `lo` up to `hi` is `v`.
pub open spec fn holds_between(s: Seq<u64>, lo: int, hi: int, v: u64) -> bool {
    exists|i: int| lo <= i < hi && s[i] == v
}

/// Each entry of `s` is smaller than the next.
pub open spec fn is_increasing(s: Seq<u64>) -> bool {
    forall|i: int, j: int| 0 <= i < j < s.len() ==> s[i] < s[j]
}

/// Merges two increasing lists into the increasing list of the values of both.
pub fn merge_distinct(a: &Vec<u64>, b: &Vec<u64>) -> (out: Vec<u64>)
    requires
        is_increasing(a@),
        is_increasing(b@),
    ensures
        is_increasing(out@),
        forall|v: u64| holds(out@, v) <==> holds(a@, v) || holds(b@, v),
        out@.len() <= a@.len() + b@.len(),
{
    let mut out: Vec<u64> = Vec::new();
    let mut i: usize = 0;
    let mut j: usize = 0;
    while i < a.len() || j < b.len()
        invariant
            i <= a@.len(),
            j <= b@.len(),
            is_increasing(a@),
            is_increasing(b@),
            is_increasing(out@),
            out@.len() <= i + j,
            forall|x: int| 0 <= x < out@.len() && i < a@.len() ==> #[trigger] out@[x] < a@[i as int],
            forall|x: int| 0 <= x < out@.len() && j < b@.len() ==> #[trigger] out@[x] < b@[j as int],
            forall|v: u64|
                holds(out@, v) <==> holds_before(a@, i as int, v) || holds_before(b@, j as int, v),
        decreases a@.len() - i + b@.len() - j,
    {
        let ghost before = out@;
        let ghost i0 = i as int;
        let ghost j0 = j as int;
        let take_a = j >= b.len() || (i < a.len() && a[i] <= b[j]);
        let take_b = i >= a.len() || (j < b.len() && b[j] <= a[i]);
        let v = if take_a {
            a[i]
        } else {
            b[j]
        };
        out.push(v);
        if take_a {
            i += 1;
        }
        if take_b {
            j += 1;
        }
        proof {
            assert forall|x: int, y: int| 0 <= x < y < out@.len() implies out@[x] < out@[y] by {
                if y == before.len() {
                    assert(out@[x] == before[x]);
                } else {
                    assert(out@[x] == before[x] && out@[y] == before[y]);
                }
            }
            assert forall|x: int| 0 <= x < out@.len() && i < a@.len() implies #[trigger] out@[x]
                < a@[i as int] by {
                if x < before.len() {
                    assert(out@[x] == before[x]);
                }
            }
            assert forall|x: int| 0 <= x < out@.len() && j < b@.len() implies #[trigger] out@[x]
                < b@[j as int] by {
                if x < before.len() {
                    assert(out@[x] == before[x]);
                }
            }
            assert forall|w: u64| holds(out@, w) <==> holds_before(a@, i as int, w) || holds_before(
                b@,
                j as int,
                w,
            ) by {
                assert(holds(before, w) <==> holds_before(a@, i0, w) || holds_before(b@, j0, w));
                if holds(out@, w) {
                    let x = choose|x: int| 0 <= x < out@.len() && out@[x] == w;
                    if x < before.len() {
                        assert(before[x] == w);
                        assert(holds(before, w));
                        if holds_before(a@, i0, w) {
                            let y = choose|y: int| 0 <= y < i0 && a@[y] == w;
                            assert(0 <= y < i && a@[y] == w);
                        } else {
                            let y = choose|y: int| 0 <= y < j0 && b@[y] == w;
                            assert(0 <= y < j && b@[y] == w);
                        }
                    } else if take_a {
                        assert(0 <= i0 < i && a@[i0] == w);
                    } else {
                        assert(0 <= j0 < j && b@[j0] == w);
                    }
                }
                if holds_before(a@, i as int, w) {
                    let y = choose|y: int| 0 <= y < i && a@[y] == w;
                    if y < i0 {
                        assert(holds_before(a@, i0, w));
                        let x = choose|x: int| 0 <= x < before.len() && before[x] == w;
                        assert(out@[x] == w);
                    } else {
                        assert(out@[before.len() as int] == w);
                    }
                }
                if holds_before(b@, j as int, w) {
                    let y = choose|y: int| 0 <= y < j && b@[y] == w;
                    if y < j0 {
                        assert(holds_before(b@, j0, w));
                        let x = choose|x: int| 0 <= x < before.len() && before[x] == w;
                        assert(out@[x] == w);
                    } else {
                        assert(out@[before.len() as int] == w);
                    }
                }
            }
        }
    }
    out
}

/// The symbols that occur in `t` from position `lo` up to `hi`, each once,
/// in increasing order.
pub fn distinct_symbols(t: &[u64], lo: usize, hi: usize) -> (out: Vec<u64>)
    requires
        lo <= hi <= t@.len(),
    ensures
        is_increasing(out@),
        forall|v: u64| holds(out@, v) <==> holds_between(t@, lo as int, hi as int, v),
        out@.len() <= hi - lo,
    decreases hi - lo,
{
    if hi - lo == 0 {
        Vec::new()
    } else if hi - lo == 1 {
        let mut out: Vec<u64> = Vec::new();
        out.push(t[lo]);
        proof {
            assert forall|v: u64| holds(out@, v) <==> holds_between(t@, lo as int, hi as int, v) by {
                if holds(out@, v) {
                    let x = choose|x: int| 0 <= x < out@.len() && out@[x] == v;
                    assert(t@[lo as int] == v);
                }
                if holds_between(t@, lo as int, hi as int, v) {
                    assert(out@[0] == v);
                }
            }
        }
        out
    } else {
        let mid = lo + (hi - lo) / 2;
        let left = distinct_symbols(t, lo, mid);
        let right = distinct_symbols(t, mid, hi);
        let out = merge_distinct(&left, &right);
        proof {
            assert forall|v: u64| holds(out@, v) <==> holds_between(t@, lo as int, hi as int, v) by {
                if holds_between(t@, lo as int, hi as int, v) {
                    let x = choose|x: int| lo <= x < hi && t@[x] == v;
                    if x < mid {
                        assert(holds_between(t@, lo as int, mid as int, v));
                    } else {
                        assert(holds_between(t@, mid as int, hi as int, v));
                    }
                }
                if holds_between(t@, lo as int, mid as int, v) {
                    let x = choose|x: int| lo <= x < mid && t@[x] == v;
                    assert(lo <= x < hi && t@[x] == v);
                }
                if holds_between(t@, mid as int, hi as int, v) {
                    let x = choose|x: int| mid <= x < hi && t@[x] == v;
                    assert(lo <= x < hi && t@[x] == v);
                }
            }
        }
        out
    }
}

/// The index of `v` in an increasing list that holds it.
pub fn rank_of(list: &[u64], v: u64) -> (r: usize)
    requires
        is_increasing(list@),
        holds(list@, v),
    ensures
        r < list@.len(),
        list@[r as int] == v,
{
    let mut lo: usize = 0;
    let mut hi: usize = list.len();
    proof {
        let at = choose|x: int| 0 <= x < list@.len() && list@[x] == v;
        assert(0 <= at < hi && list@[at] == v);
    }
    while hi - lo > 1
        invariant
            lo < hi <= list@.len(),
            is_increasing(list@),
            holds_between(list@, lo as int, hi as int, v),
        decreases hi - lo,
    {
        let mid = lo + (hi - lo) / 2;
        let ghost at = choose|x: int| lo <= x < hi && list@[x] == v;
        if list[mid] <= v {
            proof {
                if at < mid {
                    assert(list@[at] < list@[mid as int]);
                }
                assert(mid <= at < hi && list@[at] == v);
            }
            lo = mid;
        } else {
            proof {
                if at > mid {
                    assert(list@[mid as int] < list@[at]);
                }
                assert(lo <= at < mid && list@[at] == v);
            }
            hi = mid;
        }
    }
    proof {
        let at = choose|x: int| lo <= x < hi && list@[x] == v;
        assert(at == lo);
    }
    lo
}

/// The text with each symbol replaced by its index in `list`.
pub fn rename_symbols(t: &[u64], list: &[u64]) -> (renamed: Vec<u64>)
    requires
        is_increasing(list@),
        forall|i: int| 0 <= i < t@.len() ==> holds(list@, #[trigger] t@[i]),
    ensures
        renamed@.len() == t@.len(),
        forall|i: int|
            0 <= i < t@.len() ==> #[trigger] renamed@[i] < list@.len() && list@[renamed@[i] as int]
                == t@[i],
{
    let n = t.len();
    let mut renamed: Vec<u64> = Vec::with_capacity(n);
    let mut i: usize = 0;
    while i < n
        invariant
            n == t@.len(),
            i <= n,
            renamed@.len() == i,
            is_increasing(list@),
            forall|x: int| 0 <= x < t@.len() ==> holds(list@, #[trigger] t@[x]),
            forall|x: int|
                0 <= x < i ==> #[trigger] renamed@[x] < list@.len() && list@[renamed@[x] as int]
                    == t@[x],
        decreases n - i,
    {
        let r = rank_of(list, t[i]);
        renamed.push(r as u64);
        i += 1;
    }
    renamed
}

/// Two texts in which the same positions hold the smaller symbol have their
/// suffixes in the same order.
pub proof fn lemma_same_order(a: Seq<int>, b: Seq<int>, i: int, j: int)
    requires
        a.len() == b.len(),
        forall|x: int, y: int|
            0 <= x < a.len() && 0 <= y < a.len() ==> (#[trigger] a[x] < #[trigger] a[y]) == (b[x]
                < b[y]),
        0 <= i <= a.len(),
        0 <= j <= a.len(),
    ensures
        suffix_lt(a, i, j) == suffix_lt(b, i, j),
    decreases a.len() - i,
{
    if i < a.len() && j < a.len() {
        assert((a[i] < a[j]) == (b[i] < b[j]));
        assert((a[j] < a[i]) == (b[j] < b[i]));
        lemma_same_order(a, b, i + 1, j + 1);
    }
}

/// The suffix array of the renamed text is the suffix array of the text.
pub proof fn lemma_renamed_suffix_array(
    t: Seq<u64>,
    list: Seq<u64>,
    renamed: Seq<u64>,
    sa: Seq<int>,
)
    requires
        is_increasing(list),
        renamed.len() == t.len(),
        forall|i: int|
            0 <= i < t.len() ==> #[trigger] renamed[i] < list.len() && list[renamed[i] as int]
                == t[i],
        is_suffix_array(symbols(renamed), sa),
    ensures
        is_suffix_array(symbols(t), sa),
{
    let a = symbols(renamed);
    let b = symbols(t);
    assert forall|x: int, y: int| 0 <= x < a.len() && 0 <= y < a.len() implies (#[trigger] a[x]
        < #[trigger] a[y]) == (b[x] < b[y]) by {
        let rx = renamed[x] as int;
        let ry = renamed[y] as int;
        assert(list[rx] == t[x] && list[ry] == t[y]);
        if rx < ry {
            assert(list[rx] < list[ry]);
        } else if ry < rx {
            assert(list[ry] < list[rx]);
        }
    }
    assert forall|i: int, j: int| 0 <= i < j < sa.len() implies suffix_lt(
        b,
        #[trigger] sa[i],
        #[trigger] sa[j],
    ) by {
        assert(suffix_lt(a, sa[i], sa[j]));
        lemma_same_order(a, b, sa[i], sa[j]);
    }
}

} // verus!
