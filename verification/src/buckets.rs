//! The bucket counter: how often each symbol occurs, and where in the suffix
//! array the suffixes that start with it begin and end.

use vstd::prelude::*;
use crate::views::symbols;

verus! {

/// The largest alphabet for which a table is built whatever the length of the
/// text. A larger alphabet gets a table only if the text is at least as long.
pub const TABLE_LIMIT: usize = 0x1_0000;

/// A table over the alphabet `[0, k)` may be built for a text of length `n`.
pub open spec fn table_allowed(k: int, n: int) -> bool {
    k <= TABLE_LIMIT || k <= n
}

/// How many of the first `upto` positions of `t` hold the symbol `c`.
pub open spec fn count_of(t: Seq<int>, c: int, upto: int) -> int
    decreases upto,
{
    if upto <= 0 {
        0
    } else {
        count_of(t, c, upto - 1) + if t[upto - 1] == c {
            1int
        } else {
            0int
        }
    }
}

/// How many of the first `upto` positions of `t` hold a symbol smaller than `c`.
pub open spec fn count_below(t: Seq<int>, c: int, upto: int) -> int
    decreases upto,
{
    if upto <= 0 {
        0
    } else {
        count_below(t, c, upto - 1) + if t[upto - 1] < c {
            1int
        } else {
            0int
        }
    }
}

/// The sum of the first `c` entries of `counts`.
pub open spec fn prefix_sum(counts: Seq<usize>, c: int) -> int
    decreases c,
{
    if c <= 0 {
        0
    } else {
        prefix_sum(counts, c - 1) + counts[c - 1]
    }
}

/// `counts` is the histogram of `t` over the alphabet `[0, counts.len())`.
pub open spec fn is_histogram(t: Seq<int>, counts: Seq<usize>) -> bool {
    forall|c: int| 0 <= c < counts.len() ==> #[trigger] counts[c] == count_of(t, c, t.len() as int)
}

/// A count never exceeds the number of positions counted.
pub proof fn lemma_count_bounds(t: Seq<int>, c: int, upto: int)
    requires
        0 <= upto,
    ensures
        0 <= count_of(t, c, upto) <= upto,
        0 <= count_below(t, c, upto) <= upto,
    decreases upto,
{
    if upto > 0 {
        lemma_count_bounds(t, c, upto - 1);
    }
}

/// The symbols below `c + 1` are those below `c` and `c` itself.
pub proof fn lemma_count_below_step(t: Seq<int>, c: int, upto: int)
    ensures
        count_below(t, c + 1, upto) == count_below(t, c, upto) + count_of(t, c, upto),
    decreases upto,
{
    if upto > 0 {
        lemma_count_below_step(t, c, upto - 1);
    }
}

/// No symbol of a text over `[0, k)` is below `0`, and all are below `k`.
pub proof fn lemma_count_below_limits(t: Seq<int>, k: int, upto: int)
    requires
        0 <= upto <= t.len(),
        forall|i: int| 0 <= i < t.len() ==> 0 <= #[trigger] t[i] < k,
    ensures
        count_below(t, 0, upto) == 0,
        count_below(t, k, upto) == upto,
    decreases upto,
{
    if upto > 0 {
        lemma_count_below_limits(t, k, upto - 1);
    }
}

/// The prefix sums of a histogram count the symbols below each symbol.
pub proof fn lemma_prefix_sum_counts_below(t: Seq<int>, counts: Seq<usize>, c: int)
    requires
        is_histogram(t, counts),
        0 <= c <= counts.len(),
        forall|i: int| 0 <= i < t.len() ==> 0 <= #[trigger] t[i] < counts.len(),
    ensures
        prefix_sum(counts, c) == count_below(t, c, t.len() as int),
    decreases c,
{
    if c <= 0 {
        lemma_count_below_limits(t, counts.len() as int, t.len() as int);
    } else {
        lemma_prefix_sum_counts_below(t, counts, c - 1);
        lemma_count_below_step(t, c - 1, t.len() as int);
        assert(counts[c - 1] == count_of(t, c - 1, t.len() as int));
    }
}

/// The counts of a histogram add up to the length of the text.
pub proof fn lemma_histogram_total(t: Seq<int>, counts: Seq<usize>)
    requires
        is_histogram(t, counts),
        forall|i: int| 0 <= i < t.len() ==> 0 <= #[trigger] t[i] < counts.len(),
    ensures
        prefix_sum(counts, counts.len() as int) == t.len(),
{
    lemma_prefix_sum_counts_below(t, counts, counts.len() as int);
    lemma_count_below_limits(t, counts.len() as int, t.len() as int);
}

/// Prefix sums grow with the number of entries summed.
pub proof fn lemma_prefix_sum_monotone(counts: Seq<usize>, a: int, b: int)
    requires
        0 <= a <= b,
    ensures
        0 <= prefix_sum(counts, a) <= prefix_sum(counts, b),
    decreases b,
{
    if a < b {
        lemma_prefix_sum_monotone(counts, a, b - 1);
    } else if b > 0 {
        lemma_prefix_sum_monotone(counts, a - 1, b - 1);
    }
}

/// Counts the occurrences of each symbol of the alphabet `[0, k)` in `t`.
pub fn symbol_counts(t: &[u64], k: usize) -> (counts: Vec<usize>)
    requires
        forall|i: int| 0 <= i < t@.len() ==> #[trigger] t@[i] < k,
        table_allowed(k as int, t@.len() as int),
    ensures
        counts@.len() == k,
        is_histogram(symbols(t@), counts@),
        prefix_sum(counts@, k as int) == t@.len(),
{
    let n = t.len();
    let ghost text = symbols(t@);
    let mut counts: Vec<usize> = vec![0usize; k];
    let mut i: usize = 0;
    while i < n
        invariant
            n == t@.len(),
            text == symbols(t@),
            counts@.len() == k,
            i <= n,
            forall|j: int| 0 <= j < t@.len() ==> #[trigger] t@[j] < k,
            forall|c: int| 0 <= c < k ==> #[trigger] counts@[c] == count_of(text, c, i as int),
        decreases n - i,
    {
        let c = t[i] as usize;
        proof {
            lemma_count_bounds(text, c as int, i as int);
        }
        counts[c] = counts[c] + 1;
        i += 1;
    }
    proof {
        assert forall|j: int| 0 <= j < text.len() implies 0 <= #[trigger] text[j] < counts@.len() by {
            assert(t@[j] < k);
        }
        lemma_histogram_total(text, counts@);
    }
    counts
}

/// For each symbol, the number of positions that hold a smaller symbol: the
/// index at which its bucket begins.
pub fn bucket_starts(counts: &[usize]) -> (starts: Vec<usize>)
    requires
        prefix_sum(counts@, counts@.len() as int) <= usize::MAX,
    ensures
        starts@.len() == counts@.len(),
        forall|c: int| 0 <= c < counts@.len() ==> #[trigger] starts@[c] == prefix_sum(counts@, c),
{
    let k = counts.len();
    let mut starts: Vec<usize> = Vec::with_capacity(k);
    let mut sum: usize = 0;
    let mut c: usize = 0;
    while c < k
        invariant
            k == counts@.len(),
            c <= k,
            starts@.len() == c,
            sum == prefix_sum(counts@, c as int),
            prefix_sum(counts@, k as int) <= usize::MAX,
            forall|d: int| 0 <= d < c ==> #[trigger] starts@[d] == prefix_sum(counts@, d),
        decreases k - c,
    {
        starts.push(sum);
        proof {
            lemma_prefix_sum_monotone(counts@, c + 1, k as int);
        }
        sum = sum + counts[c];
        c += 1;
    }
    starts
}

/// For each symbol, the number of positions that hold it or a smaller symbol:
/// the index at which its bucket ends.
pub fn bucket_ends(counts: &[usize]) -> (ends: Vec<usize>)
    requires
        prefix_sum(counts@, counts@.len() as int) <= usize::MAX,
    ensures
        ends@.len() == counts@.len(),
        forall|c: int| 0 <= c < counts@.len() ==> #[trigger] ends@[c] == prefix_sum(counts@, c + 1),
{
    let k = counts.len();
    let mut ends: Vec<usize> = Vec::with_capacity(k);
    let mut sum: usize = 0;
    let mut c: usize = 0;
    while c < k
        invariant
            k == counts@.len(),
            c <= k,
            ends@.len() == c,
            sum == prefix_sum(counts@, c as int),
            prefix_sum(counts@, k as int) <= usize::MAX,
            forall|d: int| 0 <= d < c ==> #[trigger] ends@[d] == prefix_sum(counts@, d + 1),
        decreases k - c,
    {
        proof {
            lemma_prefix_sum_monotone(counts@, c + 1, k as int);
        }
        sum = sum + counts[c];
        ends.push(sum);
        c += 1;
    }
    ends
}

} // verus!
