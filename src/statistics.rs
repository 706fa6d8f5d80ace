//! Summary statistics of a span's duration distribution.
use vstd::arithmetic::div_mod::{
    lemma_div_is_ordered, lemma_div_multiples_vanish, lemma_multiply_divide_le,
    lemma_multiply_divide_lt,
};
use vstd::prelude::*;

use crate::distribution::{
    count_of, lemma_count_bucket, rank_value, total_of, valid_buckets, DurationFrequency,
};

verus! {

/// Fixed-point units in one percent: a percentile `p` percent is written
/// `p * PERCENTILE_SCALE`.
pub const PERCENTILE_SCALE: i64 = 1_000_000;

/// One hundred percent in fixed-point units; valid percentiles lie in
/// `0..PERCENTILE_LIMIT`.
pub const PERCENTILE_LIMIT: i64 = 100_000_000;

/// A percentile that can be answered: in `[0, 100)` percent.
pub open spec fn valid_percentile(p: i64) -> bool {
    0 <= p < PERCENTILE_LIMIT
}

/// The zero-based rank of percentile `p` among `count` observations:
/// `floor(count * p / 100)`.
pub open spec fn rank_of(count: nat, p: i64) -> nat {
    ((count * p) / (PERCENTILE_LIMIT as int)) as nat
}

/// The duration at percentile `p` of the buckets `s`.
pub open spec fn percentile_value(s: Seq<(u64, usize)>, p: i64) -> u64 {
    rank_value(s, rank_of(count_of(s), p))
}

/// `r` maps each valid requested percentile, and nothing else, to its
/// duration, in strictly increasing order of percentile.
pub open spec fn percentiles_match(
    r: Seq<(i64, u64)>,
    s: Seq<(u64, usize)>,
    requested: Seq<i64>,
) -> bool {
    &&& forall|i: int, j: int| 0 <= i < j < r.len() ==> #[trigger] r[i].0 < #[trigger] r[j].0
    &&& forall|i: int|
        0 <= i < r.len() ==> {
            &&& valid_percentile(#[trigger] r[i].0)
            &&& requested.contains(r[i].0)
            &&& r[i].1 == percentile_value(s, r[i].0)
        }
    &&& forall|j: int|
        0 <= j < requested.len() && valid_percentile(#[trigger] requested[j]) ==> exists|i: int|
            0 <= i < r.len() && #[trigger] r[i].0 == requested[j]
}

/// Execution time statistics of one span name. Durations are in
/// nanoseconds.
#[derive(Debug)]
pub struct SpanTimingsLayerStatistics {
    /// Number of observations.
    pub count: usize,
    /// Sum of all observed durations.
    pub total: u128,
    /// Smallest observed duration.
    pub min: u64,
    /// Mean duration, rounded down.
    pub avg: u64,
    /// Largest observed duration.
    pub max: u64,
    /// Duration at each requested percentile, by increasing percentile.
    pub percentiles: Vec<(i64, u64)>,
}

/// `st` gives the statistics of the non-empty buckets `s` for the
/// percentiles `requested`.
pub open spec fn describes(
    st: SpanTimingsLayerStatistics,
    s: Seq<(u64, usize)>,
    requested: Seq<i64>,
) -> bool {
    &&& st.count == count_of(s)
    &&& st.total == total_of(s)
    &&& st.min == s[0].0
    &&& st.max == s.last().0
    &&& st.avg == total_of(s) / count_of(s)
    &&& percentiles_match(st.percentiles@, s, requested)
}

/// The count of a prefix is at most the count of the whole.
proof fn lemma_count_prefix(s: Seq<(u64, usize)>, k: int)
    requires
        0 <= k <= s.len(),
    ensures
        count_of(s.take(k)) <= count_of(s),
    decreases s.len(),
{
    if k == s.len() {
        assert(s.take(k) =~= s);
    } else {
        lemma_count_prefix(s.drop_last(), k);
        assert(s.drop_last().take(k) =~= s.take(k));
    }
}

/// The buckets' durations bound the total by the count.
proof fn lemma_total_bounds(s: Seq<(u64, usize)>, lo: int, hi: int)
    requires
        forall|i: int| 0 <= i < s.len() ==> lo <= #[trigger] s[i].0 <= hi,
        0 <= lo,
    ensures
        count_of(s) * lo <= total_of(s) <= count_of(s) * hi,
    decreases s.len(),
{
    if s.len() > 0 {
        let p = s.drop_last();
        assert forall|i: int| 0 <= i < p.len() implies lo <= #[trigger] p[i].0 <= hi by {
            assert(p[i] == s[i]);
        }
        lemma_total_bounds(p, lo, hi);
        let k = s.last().0 as int;
        let c = s.last().1 as int;
        let cp = count_of(p) as int;
        assert(lo <= k <= hi);
        assert(c * lo <= k * c <= c * hi) by (nonlinear_arith)
            requires
                lo <= k <= hi,
                0 <= c,
        ;
        assert(total_of(s) == total_of(p) + k * c);
        assert(count_of(s) == cp + c);
        assert((cp + c) * lo == cp * lo + c * lo) by (nonlinear_arith);
        assert((cp + c) * hi == cp * hi + c * hi) by (nonlinear_arith);
        assert(cp * lo <= total_of(p) <= cp * hi);
    } else {
        assert(count_of(s) == 0 && total_of(s) == 0);
        assert(0 * lo == 0 && 0 * hi == 0);
    }
}

/// The rank of a bucket: where the counts before bucket `i` do not exceed
/// `idx` and those up to it do, the duration at rank `idx` is bucket `i`'s.
proof fn lemma_rank_value(s: Seq<(u64, usize)>, idx: nat, i: int)
    requires
        0 <= i < s.len(),
        count_of(s.take(i)) <= idx < count_of(s.take(i + 1)),
    ensures
        rank_value(s, idx) == s[i].0,
    decreases s.len(),
{
    let p = s.drop_last();
    if i == s.len() - 1 {
        assert(s.take(i) =~= p);
    } else {
        lemma_count_prefix(p, i + 1);
        assert(p.take(i + 1) =~= s.take(i + 1));
        assert(p.take(i) =~= s.take(i));
        lemma_rank_value(p, idx, i);
    }
}

/// Sum of all observed durations of well-formed buckets.
fn total_duration(b: &Vec<(u64, usize)>) -> (r: u128)
    requires
        valid_buckets(b@),
    ensures
        r == total_of(b@),
{
    let ghost s = b@;
    let mut total: u128 = 0;
    let mut i: usize = 0;
    while i < b.len()
        invariant
            i <= s.len(),
            b@ == s,
            valid_buckets(s),
            total == total_of(s.take(i as int)),
        decreases s.len() - i,
    {
        let (k, c) = b[i];
        proof {
            let t = s.take(i as int + 1);
            assert(t.drop_last() =~= s.take(i as int));
            lemma_count_prefix(s, i as int + 1);
            lemma_total_bounds(t, 0, 0xffff_ffff_ffff_ffff);
            let m = 0xffff_ffff_ffff_ffffint;
            let n = count_of(t) as int;
            assert(n <= usize::MAX);
            assert(usize::MAX <= m);
            assert(n * m <= m * m) by (nonlinear_arith)
                requires
                    0 <= n <= m,
            ;
            assert(total_of(t) == total_of(s.take(i as int)) + (k as int) * (c as int));
            let (ki, ci) = (k as int, c as int);
            assert(ki * ci <= 0xffff_ffff_ffff_ffff * 0xffff_ffff_ffff_ffffint) by (nonlinear_arith)
                requires
                    0 <= ki <= 0xffff_ffff_ffff_ffffint,
                    0 <= ci <= 0xffff_ffff_ffff_ffffint,
            ;
        }
        total = total + (k as u128) * (c as u128);
        i = i + 1;
    }
    proof {
        assert(s.take(s.len() as int) =~= s);
    }
    total
}

/// The duration at zero-based rank `idx` of well-formed buckets.
fn value_at_rank(b: &Vec<(u64, usize)>, idx: usize) -> (r: u64)
    requires
        valid_buckets(b@),
        idx < count_of(b@),
    ensures
        r == rank_value(b@, idx as nat),
{
    let ghost s = b@;
    let mut cum: usize = 0;
    let mut i: usize = 0;
    while i < b.len()
        invariant
            i <= s.len(),
            b@ == s,
            valid_buckets(s),
            idx < count_of(s),
            cum == count_of(s.take(i as int)),
            cum <= idx,
        decreases s.len() - i,
    {
        proof {
            assert(s.take(i as int + 1).drop_last() =~= s.take(i as int));
            lemma_count_prefix(s, i as int + 1);
        }
        cum = cum + b[i].1;
        if cum > idx {
            proof {
                lemma_rank_value(s, idx as nat, i as int);
            }
            return b[i].0;
        }
        i = i + 1;
    }
    proof {
        assert(s.take(s.len() as int) =~= s);
    }
    0
}

/// The zero-based rank of a valid percentile among `count` observations.
fn percentile_rank(count: usize, p: i64) -> (r: usize)
    requires
        valid_percentile(p),
        count > 0,
    ensures
        r == rank_of(count as nat, p),
        r < count,
{
    proof {
        assert((count as int) * (p as int) <= 0xffff_ffff_ffff_ffffint * PERCENTILE_LIMIT) by (nonlinear_arith)
            requires
                0 <= count <= 0xffff_ffff_ffff_ffffint,
                0 <= p < PERCENTILE_LIMIT,
        ;
    }
    let prod: u128 = (count as u128) * (p as u128);
    proof {
        assert((count as int) * (p as int) < (PERCENTILE_LIMIT as int) * (count as int)) by (nonlinear_arith)
            requires
                0 <= p < PERCENTILE_LIMIT,
                count > 0,
        ;
        lemma_multiply_divide_lt(count as int * p as int, PERCENTILE_LIMIT as int, count as int);
    }
    (prod / (PERCENTILE_LIMIT as u128)) as usize
}

/// `x` is among the first `j` requested percentiles.
spec fn appears_before(q: Seq<i64>, j: int, x: i64) -> bool {
    exists|jj: int| 0 <= jj < j && #[trigger] q[jj] == x
}

/// The duration at each valid requested percentile of well-formed,
/// non-empty buckets holding `count` observations, without repeats and by
/// increasing percentile.
fn percentile_durations(b: &Vec<(u64, usize)>, count: usize, requested: &Vec<i64>) -> (r: Vec<
    (i64, u64),
>)
    requires
        valid_buckets(b@),
        count == count_of(b@),
        count > 0,
    ensures
        percentiles_match(r@, b@, requested@),
{
    let ghost s = b@;
    let ghost q = requested@;
    let mut r: Vec<(i64, u64)> = Vec::new();
    let mut j: usize = 0;
    while j < requested.len()
        invariant
            j <= q.len(),
            requested@ == q,
            b@ == s,
            valid_buckets(s),
            count == count_of(s),
            count > 0,
            forall|a: int, c: int| 0 <= a < c < r@.len() ==> #[trigger] r@[a].0 < #[trigger] r@[c].0,
            forall|i: int|
                0 <= i < r@.len() ==> {
                    &&& valid_percentile(#[trigger] r@[i].0)
                    &&& appears_before(q, j as int, r@[i].0)
                    &&& r@[i].1 == percentile_value(s, r@[i].0)
                },
            forall|jj: int|
                0 <= jj < j && valid_percentile(#[trigger] q[jj]) ==> exists|i: int|
                    0 <= i < r@.len() && #[trigger] r@[i].0 == q[jj],
        decreases q.len() - j,
    {
        let p = requested[j];
        if 0 <= p && p < PERCENTILE_LIMIT {
            let mut k: usize = 0;
            while k < r.len() && r[k].0 < p
                invariant
                    k <= r@.len(),
                    forall|i: int| 0 <= i < k ==> #[trigger] r@[i].0 < p,
                decreases r@.len() - k,
            {
                k = k + 1;
            }
            if k < r.len() && r[k].0 == p {
                proof {
                    assert forall|i: int| 0 <= i < r@.len() implies appears_before(q, j + 1, #[trigger] r@[i].0) by {
                        let jj = choose|jj: int| 0 <= jj < j && q[jj] == r@[i].0;
                        assert(0 <= jj < j + 1 && q[jj] == r@[i].0);
                    }
                    assert forall|jj: int|
                        0 <= jj < j + 1 && valid_percentile(#[trigger] q[jj]) implies exists|i: int|
                        0 <= i < r@.len() && #[trigger] r@[i].0 == q[jj] by {
                        if jj == j {
                            assert(r@[k as int].0 == q[jj]);
                        }
                    }
                }
            } else {
                let v = value_at_rank(b, percentile_rank(count, p));
                let ghost old_r = r@;
                r.insert(k, (p, v));
                proof {
                    let n = r@;
                    assert forall|i: int| 0 <= i < n.len() implies #[trigger] n[i] == (if i < k {
                        old_r[i]
                    } else if i == k {
                        (p, v)
                    } else {
                        old_r[i - 1]
                    }) by {}
                    assert forall|a: int, c: int| 0 <= a < c < n.len() implies #[trigger] n[a].0
                        < #[trigger] n[c].0 by {
                        if c == k {
                        } else if a == k {
                            assert(old_r[c - 1].0 >= p);
                            assert(old_r[c - 1].0 != p) by {
                                if c - 1 > k {
                                    assert(old_r[k as int].0 < old_r[c - 1].0);
                                }
                            }
                        } else if a > k {
                            assert(old_r[a - 1].0 < old_r[c - 1].0);
                        } else if c > k {
                            assert(old_r[a].0 < old_r[c - 1].0);
                        } else {
                            assert(old_r[a].0 < old_r[c].0);
                        }
                    }
                    assert forall|i: int| 0 <= i < n.len() implies {
                        &&& valid_percentile(#[trigger] n[i].0)
                        &&& appears_before(q, j + 1, n[i].0)
                        &&& n[i].1 == percentile_value(s, n[i].0)
                    } by {
                        if i == k {
                            assert(q[j as int] == n[i].0);
                        } else {
                            let i0 = if i < k { i } else { i - 1 };
                            assert(n[i] == old_r[i0]);
                            let jj = choose|jj: int| 0 <= jj < j && q[jj] == old_r[i0].0;
                            assert(0 <= jj < j + 1 && q[jj] == n[i].0);
                        }
                    }
                    assert forall|jj: int|
                        0 <= jj < j + 1 && valid_percentile(#[trigger] q[jj]) implies exists|i: int|
                        0 <= i < n.len() && #[trigger] n[i].0 == q[jj] by {
                        if jj == j {
                            assert(n[k as int].0 == q[jj]);
                        } else {
                            let i0 = choose|i: int| 0 <= i < old_r.len() && #[trigger] old_r[i].0 == q[jj];
                            let i1 = if i0 < k { i0 } else { i0 + 1 };
                            assert(n[i1].0 == q[jj]);
                        }
                    }
                }
            }
        } else {
            proof {
                assert forall|i: int| 0 <= i < r@.len() implies appears_before(q, j + 1, #[trigger] r@[i].0) by {
                    let jj = choose|jj: int| 0 <= jj < j && q[jj] == r@[i].0;
                    assert(0 <= jj < j + 1 && q[jj] == r@[i].0);
                }
            }
        }
        j = j + 1;
    }
    proof {
        assert forall|i: int| 0 <= i < r@.len() implies q.contains(#[trigger] r@[i].0) by {
            let jj = choose|jj: int| 0 <= jj < j && q[jj] == r@[i].0;
            assert(q[jj] == r@[i].0);
        }
    }
    r
}

/// The mean of a non-empty distribution lies between its smallest and
/// its largest duration.
pub proof fn lemma_mean_between_extremes(s: Seq<(u64, usize)>)
    requires
        valid_buckets(s),
        s.len() > 0,
    ensures
        count_of(s) > 0,
        s[0].0 <= total_of(s) / count_of(s) <= s.last().0,
{
    let n = s.len() - 1;
    assert forall|i: int| 0 <= i < s.len() implies s[0].0 <= #[trigger] s[i].0 <= s.last().0 by {
        if 0 < i {
            assert(s[0].0 < s[i].0);
        }
        if i < n {
            assert(s[i].0 < s[n].0);
        }
    }
    lemma_count_bucket(s, 0);
    lemma_total_bounds(s, s[0].0 as int, s.last().0 as int);
    let c = count_of(s) as int;
    let t = total_of(s) as int;
    let lo = s[0].0 as int;
    let hi = s.last().0 as int;
    assert(c * lo == lo * c) by (nonlinear_arith);
    lemma_div_multiples_vanish(lo, c);
    lemma_div_is_ordered(c * lo, t, c);
    lemma_multiply_divide_le(t, c, hi);
}

impl DurationFrequency {
    /// The statistics of this distribution for the requested percentiles,
    /// or `None` where it holds no observation.
    ///
    /// Percentiles are in fixed point (`PERCENTILE_SCALE` units to one
    /// percent); those outside `[0, 100)` percent are left out, and each
    /// valid one is answered once, in increasing order.
    pub fn statistics(&self, percentiles: &Vec<i64>) -> (r: Option<SpanTimingsLayerStatistics>)
        ensures
            r is None <==> self@.len() == 0,
            r matches Some(st) ==> describes(st, self@, percentiles@),
            r matches Some(st) ==> st.min <= st.avg <= st.max,
    {
        let b = self.buckets();
        let count = self.count();
        if b.len() == 0 {
            return None;
        }
        proof {
            lemma_mean_between_extremes(b@);
        }
        let total = total_duration(b);
        let min = b[0].0;
        let max = b[b.len() - 1].0;
        let avg = (total / (count as u128)) as u64;
        let percentiles = percentile_durations(b, count, percentiles);
        Some(SpanTimingsLayerStatistics { count, total, min, avg, max, percentiles })
    }
}

/// The entries whose distribution holds at least one observation, in
/// their order.
pub open spec fn nonempty_entries(e: Seq<(String, DurationFrequency)>) -> Seq<
    (String, DurationFrequency),
>
    decreases e.len(),
{
    if e.len() == 0 {
        Seq::empty()
    } else if e.last().1@.len() > 0 {
        nonempty_entries(e.drop_last()).push(e.last())
    } else {
        nonempty_entries(e.drop_last())
    }
}

/// Every entry kept holds at least one observation.
pub proof fn lemma_nonempty_entries(e: Seq<(String, DurationFrequency)>)
    ensures
        forall|i: int|
            0 <= i < nonempty_entries(e).len() ==> (#[trigger] nonempty_entries(e)[i]).1@.len() > 0,
    decreases e.len(),
{
    if e.len() > 0 {
        let p = e.drop_last();
        lemma_nonempty_entries(p);
        let k = nonempty_entries(e);
        if e.last().1@.len() > 0 {
            assert forall|i: int| 0 <= i < k.len() implies (#[trigger] k[i]).1@.len() > 0 by {
                if i < k.len() - 1 {
                    assert(k[i] == nonempty_entries(p)[i]);
                }
            }
        }
    }
}

/// `r` gives, for each non-empty entry of `e` in order, its name and the
/// statistics of its distribution for the percentiles `requested`.
pub open spec fn statistics_match(
    r: Seq<(String, SpanTimingsLayerStatistics)>,
    e: Seq<(String, DurationFrequency)>,
    requested: Seq<i64>,
) -> bool {
    let k = nonempty_entries(e);
    &&& r.len() == k.len()
    &&& forall|i: int|
        0 <= i < r.len() ==> (#[trigger] r[i]).0@ == k[i].0@ && describes(r[i].1, k[i].1@, requested)
}

/// The statistics of each named distribution that holds at least one
/// observation, in the order of `entries`; empty ones are left out.
pub fn statistics_of(entries: &Vec<(String, DurationFrequency)>, percentiles: &Vec<i64>) -> (r: Vec<
    (String, SpanTimingsLayerStatistics),
>)
    ensures
        statistics_match(r@, entries@, percentiles@),
        forall|i: int| 0 <= i < r@.len() ==> #[trigger] r@[i].1.min <= r@[i].1.avg <= r@[i].1.max,
{
    let ghost e = entries@;
    let mut r: Vec<(String, SpanTimingsLayerStatistics)> = Vec::new();
    let mut i: usize = 0;
    while i < entries.len()
        invariant
            i <= e.len(),
            entries@ == e,
            statistics_match(r@, e.take(i as int), percentiles@),
            forall|a: int| 0 <= a < r@.len() ==> #[trigger] r@[a].1.min <= r@[a].1.avg <= r@[a].1.max,
        decreases e.len() - i,
    {
        let ghost t = e.take(i as int + 1);
        proof {
            assert(t.drop_last() =~= e.take(i as int));
            assert(t.last() == e[i as int]);
        }
        let entry = &entries[i];
        match entry.1.statistics(percentiles) {
            Some(st) => {
                let ghost old_r = r@;
                let ghost g = st;
                assert(g.min <= g.avg <= g.max);
                let name = entry.0.clone();
                assert(name@ == entry.0@);
                r.push((name, st));
                proof {
                    let k = nonempty_entries(t);
                    assert(e[i as int].1@.len() > 0);
                    assert(k == nonempty_entries(e.take(i as int)).push(e[i as int]));
                    assert forall|a: int| 0 <= a < r@.len() implies (#[trigger] r@[a]).0@ == k[a].0@
                        && describes(r@[a].1, k[a].1@, percentiles@) by {
                        if a < old_r.len() {
                            assert(r@[a] == old_r[a]);
                        }
                    }
                    assert forall|a: int| 0 <= a < r@.len() implies #[trigger] r@[a].1.min
                        <= r@[a].1.avg <= r@[a].1.max by {
                        if a < old_r.len() {
                            assert(r@[a] == old_r[a]);
                        } else {
                            assert(r@[a].1 == g);
                        }
                    }
                }
            },
            None => {
                proof {
                    assert(nonempty_entries(t) == nonempty_entries(e.take(i as int)));
                }
            },
        }
        i = i + 1;
    }
    proof {
        assert(e.take(e.len() as int) =~= e);
    }
    r
}

/// A key of one matching percentile list is a key of any other.
proof fn lemma_key_shared(
    a: Seq<(i64, u64)>,
    b: Seq<(i64, u64)>,
    s: Seq<(u64, usize)>,
    requested: Seq<i64>,
    i: int,
) -> (j: int)
    requires
        percentiles_match(a, s, requested),
        percentiles_match(b, s, requested),
        0 <= i < a.len(),
    ensures
        0 <= j < b.len(),
        b[j].0 == a[i].0,
{
    let jj = choose|jj: int| 0 <= jj < requested.len() && requested[jj] == a[i].0;
    assert(valid_percentile(requested[jj]));
    choose|j: int| 0 <= j < b.len() && #[trigger] b[j].0 == requested[jj]
}

/// Two matching percentile lists agree on their first `k` keys.
proof fn lemma_keys_agree(
    a: Seq<(i64, u64)>,
    b: Seq<(i64, u64)>,
    s: Seq<(u64, usize)>,
    requested: Seq<i64>,
    k: int,
)
    requires
        percentiles_match(a, s, requested),
        percentiles_match(b, s, requested),
        0 <= k <= a.len(),
        k <= b.len(),
    ensures
        forall|i: int| 0 <= i < k ==> a[i].0 == b[i].0,
    decreases k,
{
    if k > 0 {
        let c = k - 1;
        lemma_keys_agree(a, b, s, requested, c);
        let j = lemma_key_shared(a, b, s, requested, c);
        let m = lemma_key_shared(b, a, s, requested, c);
        if j < c {
            assert(a[j].0 == b[j].0);
            assert(a[j].0 < a[c].0);
        }
        if m < c {
            assert(a[m].0 == b[m].0);
            assert(b[m].0 < b[c].0);
        }
        if j > c {
            assert(b[c].0 < b[j].0);
            if m > c {
                assert(a[c].0 < a[m].0);
            }
            assert(a[m].0 < a[c].0);
        }
    }
}

/// Two percentile lists that both match the same distribution and request
/// are the same list.
proof fn lemma_percentiles_unique(
    a: Seq<(i64, u64)>,
    b: Seq<(i64, u64)>,
    s: Seq<(u64, usize)>,
    requested: Seq<i64>,
)
    requires
        percentiles_match(a, s, requested),
        percentiles_match(b, s, requested),
    ensures
        a == b,
{
    let n = if a.len() < b.len() { a.len() as int } else { b.len() as int };
    lemma_keys_agree(a, b, s, requested, n);
    if a.len() > n {
        let j = lemma_key_shared(a, b, s, requested, n);
        assert(a[j].0 == b[j].0);
        assert(a[j].0 < a[n].0);
    }
    if b.len() > n {
        let m = lemma_key_shared(b, a, s, requested, n);
        assert(a[m].0 == b[m].0);
        assert(b[m].0 < b[n].0);
    }
    assert forall|i: int| 0 <= i < a.len() implies a[i] == b[i] by {
        assert(a[i].1 == percentile_value(s, a[i].0));
        assert(b[i].1 == percentile_value(s, b[i].0));
    }
    assert(a =~= b);
}

/// The same distributions and requested percentiles give the same
/// statistics: with no recording in between, two statistics queries over
/// an unchanged store agree.
pub proof fn lemma_statistics_of_deterministic(
    r1: Seq<(String, SpanTimingsLayerStatistics)>,
    r2: Seq<(String, SpanTimingsLayerStatistics)>,
    entries: Seq<(String, DurationFrequency)>,
    requested: Seq<i64>,
)
    requires
        statistics_match(r1, entries, requested),
        statistics_match(r2, entries, requested),
    ensures
        r1.len() == r2.len(),
        forall|i: int|
            0 <= i < r1.len() ==> {
                &&& (#[trigger] r1[i]).0@ == r2[i].0@
                &&& r1[i].1.count == r2[i].1.count
                &&& r1[i].1.total == r2[i].1.total
                &&& r1[i].1.min == r2[i].1.min
                &&& r1[i].1.avg == r2[i].1.avg
                &&& r1[i].1.max == r2[i].1.max
                &&& r1[i].1.percentiles@ == r2[i].1.percentiles@
            },
{
    let k = nonempty_entries(entries);
    assert forall|i: int| 0 <= i < r1.len() implies {
        &&& (#[trigger] r1[i]).0@ == r2[i].0@
        &&& r1[i].1.count == r2[i].1.count
        &&& r1[i].1.total == r2[i].1.total
        &&& r1[i].1.min == r2[i].1.min
        &&& r1[i].1.avg == r2[i].1.avg
        &&& r1[i].1.max == r2[i].1.max
        &&& r1[i].1.percentiles@ == r2[i].1.percentiles@
    } by {
        assert(describes(r1[i].1, k[i].1@, requested));
        assert(describes(r2[i].1, k[i].1@, requested));
        lemma_percentiles_unique(r1[i].1.percentiles@, r2[i].1.percentiles@, k[i].1@, requested);
    }
}

} // verus!
