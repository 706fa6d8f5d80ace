//! Frequency distribution of the durations observed for one span name.
//!
//! A distribution is a sequence of buckets `(duration, count)`, sorted by
//! strictly increasing duration, each with a positive count.
use rand::Rng;
use vstd::prelude::*;

verus! {

/// Buckets are sorted by strictly increasing duration.
pub open spec fn sorted_buckets(s: Seq<(u64, usize)>) -> bool {
    forall|i: int, j: int| 0 <= i < j < s.len() ==> #[trigger] s[i].0 < #[trigger] s[j].0
}

/// Every bucket holds at least one observation.
pub open spec fn positive_counts(s: Seq<(u64, usize)>) -> bool {
    forall|i: int| 0 <= i < s.len() ==> #[trigger] s[i].1 > 0
}

/// Number of observations in the buckets.
pub open spec fn count_of(s: Seq<(u64, usize)>) -> nat
    decreases s.len(),
{
    if s.len() == 0 {
        0
    } else {
        count_of(s.drop_last()) + s.last().1 as nat
    }
}

/// Sum of all observed durations, each bucket weighted by its count.
pub open spec fn total_of(s: Seq<(u64, usize)>) -> nat
    decreases s.len(),
{
    if s.len() == 0 {
        0
    } else {
        total_of(s.drop_last()) + s.last().0 as nat * s.last().1 as nat
    }
}

/// A well-formed distribution: sorted, no empty bucket, and a count that
/// fits in `usize`.
pub open spec fn valid_buckets(s: Seq<(u64, usize)>) -> bool {
    &&& sorted_buckets(s)
    &&& positive_counts(s)
    &&& count_of(s) <= usize::MAX
}

/// The buckets after one more observation of `d`: its bucket's count goes
/// up by one, or a new bucket `(d, 1)` takes its place in the order.
pub open spec fn added(s: Seq<(u64, usize)>, d: u64) -> Seq<(u64, usize)>
    decreases s.len(),
{
    if s.len() == 0 {
        seq![(d, 1usize)]
    } else if s.last().0 < d {
        s.push((d, 1usize))
    } else if s.last().0 == d {
        s.drop_last().push((d, (s.last().1 + 1) as usize))
    } else {
        added(s.drop_last(), d).push(s.last())
    }
}

/// The buckets after one observation is taken out of bucket `i`; a bucket
/// left empty is removed.
pub open spec fn removed_at(s: Seq<(u64, usize)>, i: int) -> Seq<(u64, usize)> {
    if s[i].1 == 1 {
        s.remove(i)
    } else {
        s.update(i, (s[i].0, (s[i].1 - 1) as usize))
    }
}

/// The buckets that eviction may take an observation from: the interior
/// ones (neither the smallest nor the largest duration) where there are
/// more than two buckets, else the first.
pub open spec fn evictable(s: Seq<(u64, usize)>, i: int) -> bool {
    if s.len() > 2 {
        1 <= i < s.len() - 1
    } else {
        i == 0
    }
}

/// The greatest number of observations kept for a bound: `0` stands for
/// no bound, where the count is limited only by `usize`.
pub open spec fn capacity(max_datapoints: usize) -> nat {
    if max_datapoints == 0 {
        usize::MAX as nat
    } else {
        max_datapoints as nat
    }
}

/// What `record` may leave: the observation added, after one eviction
/// from an allowed bucket where the distribution was full.
pub open spec fn record_step(
    s: Seq<(u64, usize)>,
    d: u64,
    max_datapoints: usize,
    t: Seq<(u64, usize)>,
) -> bool {
    if count_of(s) >= capacity(max_datapoints) {
        exists|i: int| #[trigger] evictable(s, i) && t == added(removed_at(s, i), d)
    } else {
        t == added(s, d)
    }
}

/// The duration at zero-based rank `idx`: the first bucket whose
/// cumulative count exceeds `idx`.
pub open spec fn rank_value(s: Seq<(u64, usize)>, idx: nat) -> u64
    decreases s.len(),
{
    if s.len() == 0 {
        0
    } else if count_of(s.drop_last()) > idx {
        rank_value(s.drop_last(), idx)
    } else {
        s.last().0
    }
}

pub proof fn lemma_count_push(s: Seq<(u64, usize)>, b: (u64, usize))
    ensures
        count_of(s.push(b)) == count_of(s) + b.1,
        total_of(s.push(b)) == total_of(s) + b.0 * b.1,
{
    assert(s.push(b).drop_last() =~= s);
}

/// The count of a sequence is at least that of any bucket in it.
pub proof fn lemma_count_bucket(s: Seq<(u64, usize)>, i: int)
    requires
        0 <= i < s.len(),
    ensures
        count_of(s) >= s[i].1,
    decreases s.len(),
{
    if i < s.len() - 1 {
        lemma_count_bucket(s.drop_last(), i);
    }
}

/// Replacing one bucket changes the count and total by the difference.
pub proof fn lemma_count_update(s: Seq<(u64, usize)>, i: int, b: (u64, usize))
    requires
        0 <= i < s.len(),
    ensures
        count_of(s.update(i, b)) + s[i].1 == count_of(s) + b.1,
        total_of(s.update(i, b)) + s[i].0 * s[i].1 == total_of(s) + b.0 * b.1,
    decreases s.len(),
{
    let u = s.update(i, b);
    if i == s.len() - 1 {
        assert(u.drop_last() =~= s.drop_last());
    } else {
        lemma_count_update(s.drop_last(), i, b);
        assert(u.drop_last() =~= s.drop_last().update(i, b));
    }
}

/// Removing one bucket lowers the count and total by its share.
pub proof fn lemma_count_remove(s: Seq<(u64, usize)>, i: int)
    requires
        0 <= i < s.len(),
    ensures
        count_of(s.remove(i)) + s[i].1 == count_of(s),
        total_of(s.remove(i)) + s[i].0 * s[i].1 == total_of(s),
    decreases s.len(),
{
    let r = s.remove(i);
    if i == s.len() - 1 {
        assert(r =~= s.drop_last());
    } else {
        lemma_count_remove(s.drop_last(), i);
        assert(r.drop_last() =~= s.drop_last().remove(i));
    }
}

/// An observation added keeps the buckets well ordered, and moves the
/// count by one, the total by the duration, and the extremes to take it in.
pub proof fn lemma_added(s: Seq<(u64, usize)>, d: u64)
    requires
        sorted_buckets(s),
        positive_counts(s),
        count_of(s) < usize::MAX,
    ensures
        sorted_buckets(added(s, d)),
        positive_counts(added(s, d)),
        count_of(added(s, d)) == count_of(s) + 1,
        total_of(added(s, d)) == total_of(s) + d,
        added(s, d).len() > 0,
        added(s, d)[0].0 == (if s.len() == 0 || d < s[0].0 { d } else { s[0].0 }),
        added(s, d).last().0 == (if s.len() == 0 || d > s.last().0 { d } else { s.last().0 }),
    decreases s.len(),
{
    let a = added(s, d);
    if s.len() == 0 {
        lemma_count_push(s, (d, 1usize));
        assert(s.push((d, 1usize)) =~= seq![(d, 1usize)]);
        assert(d * 1 == d);
    } else if s.last().0 < d {
        lemma_count_push(s, (d, 1usize));
        assert(d * 1 == d);
    } else if s.last().0 == d {
        let p = s.drop_last();
        lemma_count_bucket(s, s.len() - 1);
        lemma_count_push(p, (d, (s.last().1 + 1) as usize));
        let c = s.last().1 as int;
        assert(d * (c + 1) == d * c + d) by (nonlinear_arith);
        if s.len() > 1 {
            assert(s[0] == p[0]);
        }
    } else {
        let p = s.drop_last();
        lemma_added(p, d);
        lemma_count_push(p, s.last());
        lemma_count_push(added(p, d), s.last());
        let q = added(p, d);
        assert forall|i: int, j: int| 0 <= i < j < a.len() implies #[trigger] a[i].0 < #[trigger] a[j].0 by {
            if j == a.len() - 1 {
                assert(q[i].0 <= q.last().0) by {
                    if i < q.len() - 1 {
                        assert(q[i].0 < q[q.len() - 1].0);
                    }
                }
                if p.len() > 0 {
                    assert(p.last().0 < s.last().0) by {
                        assert(p.last() == s[s.len() - 2]);
                    }
                }
            } else {
                assert(a[i] == q[i] && a[j] == q[j]);
            }
        }
        assert forall|i: int| 0 <= i < a.len() implies #[trigger] a[i].1 > 0 by {
            if i < a.len() - 1 {
                assert(a[i] == q[i]);
            }
        }
        assert(a[0] == q[0]);
        if p.len() > 0 {
            assert(p[0] == s[0]);
        }
    }
}

/// Where `p` is the first position whose duration is not below `d`,
/// adding `d` bumps that bucket or inserts a new one there.
pub proof fn lemma_added_at(s: Seq<(u64, usize)>, d: u64, p: int)
    requires
        sorted_buckets(s),
        0 <= p <= s.len(),
        forall|j: int| 0 <= j < p ==> #[trigger] s[j].0 < d,
        p < s.len() ==> s[p].0 >= d,
    ensures
        added(s, d) == (if p < s.len() && s[p].0 == d {
            s.update(p, (d, (s[p].1 + 1) as usize))
        } else {
            s.insert(p, (d, 1usize))
        }),
    decreases s.len(),
{
    if s.len() == 0 {
        assert(s.insert(p, (d, 1usize)) =~= seq![(d, 1usize)]);
    } else {
        let n = s.len() - 1;
        let l = s.last();
        if l.0 < d {
            if p < s.len() {
                assert(s[p].0 >= d);
                if p < n {
                    assert(s[p].0 < s[n].0);
                }
            }
            assert(s.insert(p, (d, 1usize)) =~= s.push((d, 1usize)));
        } else if l.0 == d {
            if p < n {
                assert(s[p].0 < s[n].0);
            }
            if p == s.len() {
                assert(s[n].0 < d);
            }
            assert(s.update(p, (d, (s[p].1 + 1) as usize)) =~= s.drop_last().push(
                (d, (l.1 + 1) as usize),
            ));
        } else {
            if p == s.len() {
                assert(s[n].0 < d);
            }
            let q = s.drop_last();
            lemma_added_at(q, d, p);
            if p < n && s[p].0 == d {
                assert(s.update(p, (d, (s[p].1 + 1) as usize)) =~= q.update(
                    p,
                    (d, (s[p].1 + 1) as usize),
                ).push(l));
            } else {
                assert(s.insert(p, (d, 1usize)) =~= q.insert(p, (d, 1usize)).push(l));
            }
        }
    }
}

/// Taking one observation out keeps the buckets well ordered, and lowers
/// the count by one.
pub proof fn lemma_removed_at(s: Seq<(u64, usize)>, i: int)
    requires
        sorted_buckets(s),
        positive_counts(s),
        0 <= i < s.len(),
    ensures
        sorted_buckets(removed_at(s, i)),
        positive_counts(removed_at(s, i)),
        count_of(removed_at(s, i)) + 1 == count_of(s),
        total_of(removed_at(s, i)) + s[i].0 == total_of(s),
{
    let r = removed_at(s, i);
    if s[i].1 == 1 {
        lemma_count_remove(s, i);
        assert forall|a: int, b: int| 0 <= a < b < r.len() implies #[trigger] r[a].0 < #[trigger] r[b].0 by {
            let a2 = if a < i { a } else { a + 1 };
            let b2 = if b < i { b } else { b + 1 };
            assert(r[a] == s[a2] && r[b] == s[b2]);
        }
        assert forall|a: int| 0 <= a < r.len() implies #[trigger] r[a].1 > 0 by {
            let a2 = if a < i { a } else { a + 1 };
            assert(r[a] == s[a2]);
        }
    } else {
        lemma_count_update(s, i, (s[i].0, (s[i].1 - 1) as usize));
        let k = s[i].0 as int;
        let c = s[i].1 as int;
        assert(k * c == k * (c - 1) + k) by (nonlinear_arith);
        assert forall|a: int, b: int| 0 <= a < b < r.len() implies #[trigger] r[a].0 < #[trigger] r[b].0 by {
            assert(s[a].0 < s[b].0);
        }
        assert forall|a: int| 0 <= a < r.len() implies #[trigger] r[a].1 > 0 by {
            assert(s[a].1 > 0);
        }
    }
}

/// Relies on rand's `thread_rng().gen_range(lo..hi)`: a value drawn from
/// the half-open range `lo..hi`, which it refuses only when empty.
#[verifier::external_body]
fn random_index(lo: usize, hi: usize) -> (r: usize)
    requires
        lo < hi,
    ensures
        lo <= r < hi,
{
    rand::thread_rng().gen_range(lo..hi)
}

/// Adds one observation of `d` to well-formed buckets.
fn add_observation(buckets: &mut Vec<(u64, usize)>, d: u64)
    requires
        sorted_buckets(old(buckets)@),
        positive_counts(old(buckets)@),
        count_of(old(buckets)@) < usize::MAX,
    ensures
        final(buckets)@ == added(old(buckets)@, d),
{
    let ghost s = buckets@;
    let mut p: usize = 0;
    while p < buckets.len() && buckets[p].0 < d
        invariant
            buckets@ == s,
            0 <= p <= s.len(),
            forall|j: int| 0 <= j < p ==> #[trigger] s[j].0 < d,
        decreases s.len() - p,
    {
        p = p + 1;
    }
    proof {
        lemma_added_at(s, d, p as int);
    }
    if p < buckets.len() && buckets[p].0 == d {
        proof {
            lemma_count_bucket(s, p as int);
        }
        let c = buckets[p].1;
        buckets.set(p, (d, c + 1));
    } else {
        buckets.insert(p, (d, 1));
    }
}

/// Takes one observation out of bucket `i`, removing the bucket if it
/// is left empty.
fn remove_observation(buckets: &mut Vec<(u64, usize)>, i: usize)
    requires
        positive_counts(old(buckets)@),
        i < old(buckets)@.len(),
    ensures
        final(buckets)@ == removed_at(old(buckets)@, i as int),
{
    let c = buckets[i].1;
    if c == 1 {
        buckets.remove(i);
    } else {
        let k = buckets[i].0;
        buckets.set(i, (k, c - 1));
    }
}

/// The durations observed for one span name, with the number of times
/// each was seen.
#[derive(Debug)]
pub struct DurationFrequency {
    buckets: Vec<(u64, usize)>,
    count: usize,
}

impl View for DurationFrequency {
    type V = Seq<(u64, usize)>;

    closed spec fn view(&self) -> Seq<(u64, usize)> {
        self.buckets@
    }
}

impl DurationFrequency {
    #[verifier::type_invariant]
    spec fn well_formed(&self) -> bool {
        &&& valid_buckets(self.buckets@)
        &&& self.count as nat == count_of(self.buckets@)
    }

    /// An empty distribution.
    pub fn new() -> (r: DurationFrequency)
        ensures
            r@ == Seq::<(u64, usize)>::empty(),
    {
        DurationFrequency { buckets: Vec::new(), count: 0 }
    }

    /// A distribution that holds one observation of `d`.
    pub fn single(d: u64) -> (r: DurationFrequency)
        ensures
            r@ == seq![(d, 1usize)],
            r@ == added(Seq::empty(), d),
    {
        let mut buckets: Vec<(u64, usize)> = Vec::new();
        buckets.push((d, 1));
        proof {
            lemma_added(Seq::empty(), d);
            assert(buckets@ =~= added(Seq::empty(), d));
        }
        DurationFrequency { buckets, count: 1 }
    }

    /// A copy of this distribution.
    pub fn copy(&self) -> (r: DurationFrequency)
        ensures
            r@ == self@,
    {
        proof {
            use_type_invariant(self);
        }
        let mut buckets: Vec<(u64, usize)> = Vec::new();
        let mut i: usize = 0;
        while i < self.buckets.len()
            invariant
                i <= self.buckets@.len(),
                buckets@ == self.buckets@.take(i as int),
            decreases self.buckets@.len() - i,
        {
            buckets.push(self.buckets[i]);
            i = i + 1;
            proof {
                assert(buckets@ =~= self.buckets@.take(i as int));
            }
        }
        proof {
            assert(buckets@ =~= self.buckets@);
        }
        DurationFrequency { buckets, count: self.count }
    }

    /// The buckets, sorted by duration.
    pub fn buckets(&self) -> (r: &Vec<(u64, usize)>)
        ensures
            r@ == self@,
            valid_buckets(r@),
    {
        proof {
            use_type_invariant(self);
        }
        &self.buckets
    }

    /// The number of observations held.
    pub fn count(&self) -> (r: usize)
        ensures
            r == count_of(self@),
    {
        proof {
            use_type_invariant(self);
        }
        self.count
    }

    /// Records one observation of `d`, keeping at most `max_datapoints`
    /// observations (`0`: no bound).
    ///
    /// Where the distribution is already full, one observation is evicted
    /// first: from a bucket drawn at random among those strictly between
    /// the smallest and the largest duration where there are more than two
    /// buckets, else from the first bucket. The extremes are kept on
    /// purpose, so that `min` and `max` stay faithful; the result is not a
    /// uniform sample.
    pub fn record(&mut self, d: u64, max_datapoints: usize)
        ensures
            record_step(old(self)@, d, max_datapoints, final(self)@),
            count_of(final(self)@) == if count_of(old(self)@) >= capacity(max_datapoints) {
                count_of(old(self)@)
            } else {
                count_of(old(self)@) + 1
            },
    {
        proof {
            use_type_invariant(&*self);
        }
        let mut cur = DurationFrequency::new();
        std::mem::swap(&mut cur, self);
        let DurationFrequency { mut buckets, mut count } = cur;
        let ghost s = buckets@;
        let full = if max_datapoints == 0 {
            count == usize::MAX
        } else {
            count >= max_datapoints
        };
        if full {
            let len = buckets.len();
            let i = if len > 2 {
                random_index(1, len - 1)
            } else {
                0
            };
            proof {
                if len == 0 {
                    assert(count_of(s) == 0);
                }
                lemma_removed_at(s, i as int);
            }
            remove_observation(&mut buckets, i);
            count = count - 1;
            let ghost r = buckets@;
            proof {
                lemma_added(r, d);
                assert(evictable(s, i as int));
            }
            add_observation(&mut buckets, d);
            count = count + 1;
        } else {
            proof {
                lemma_added(s, d);
            }
            add_observation(&mut buckets, d);
            count = count + 1;
        }
        *self = DurationFrequency { buckets, count };
    }
}

/// Sum of a sequence of durations.
pub open spec fn sum_of(ds: Seq<u64>) -> nat
    decreases ds.len(),
{
    if ds.len() == 0 {
        0
    } else {
        sum_of(ds.drop_last()) + ds.last() as nat
    }
}

/// One recording step keeps a distribution well formed, and its count
/// grows by one until the bound is reached, then stays.
pub proof fn lemma_record_step(s: Seq<(u64, usize)>, d: u64, max_datapoints: usize, t: Seq<(u64, usize)>)
    requires
        valid_buckets(s),
        record_step(s, d, max_datapoints, t),
    ensures
        valid_buckets(t),
        count_of(t) == if count_of(s) >= capacity(max_datapoints) {
            count_of(s)
        } else {
            count_of(s) + 1
        },
{
    if count_of(s) >= capacity(max_datapoints) {
        let i = choose|i: int| #[trigger] evictable(s, i) && t == added(removed_at(s, i), d);
        if s.len() == 0 {
            assert(count_of(s) == 0);
        }
        lemma_removed_at(s, i);
        lemma_added(removed_at(s, i), d);
    } else {
        lemma_added(s, d);
    }
}

/// Without a bound, a run of recordings from an empty distribution holds
/// one observation per recording, and its total is the sum of the
/// recorded durations.
pub proof fn lemma_unbounded_counts_every_record(ds: Seq<u64>, states: Seq<Seq<(u64, usize)>>)
    requires
        states.len() == ds.len() + 1,
        states[0] == Seq::<(u64, usize)>::empty(),
        ds.len() < usize::MAX,
        forall|i: int| 0 <= i < ds.len() ==> #[trigger] record_step(states[i], ds[i], 0, states[i + 1]),
    ensures
        count_of(states.last()) == ds.len(),
        total_of(states.last()) == sum_of(ds),
    decreases ds.len(),
{
    if ds.len() == 0 {
        assert(count_of(states[0]) == 0);
    } else {
        let n = ds.len() - 1;
        let p = ds.drop_last();
        let q = states.drop_last();
        assert forall|i: int| 0 <= i < p.len() implies #[trigger] record_step(q[i], p[i], 0, q[i + 1]) by {
            assert(record_step(states[i], ds[i], 0, states[i + 1]));
        }
        lemma_unbounded_counts_every_record(p, q);
        lemma_unbounded_valid(p, q);
        let s = states[n];
        assert(q.last() == s);
        assert(record_step(states[n], ds[n], 0, states[n + 1]));
        lemma_added(s, ds[n]);
    }
}

/// Every state of a run of unbounded recordings from an empty
/// distribution is well formed.
proof fn lemma_unbounded_valid(ds: Seq<u64>, states: Seq<Seq<(u64, usize)>>)
    requires
        states.len() == ds.len() + 1,
        states[0] == Seq::<(u64, usize)>::empty(),
        ds.len() < usize::MAX,
        forall|i: int| 0 <= i < ds.len() ==> #[trigger] record_step(states[i], ds[i], 0, states[i + 1]),
    ensures
        valid_buckets(states.last()),
    decreases ds.len(),
{
    if ds.len() == 0 {
        assert(count_of(states[0]) == 0);
    } else {
        let n = ds.len() - 1;
        let p = ds.drop_last();
        let q = states.drop_last();
        assert forall|i: int| 0 <= i < p.len() implies #[trigger] record_step(q[i], p[i], 0, q[i + 1]) by {
            assert(record_step(states[i], ds[i], 0, states[i + 1]));
        }
        lemma_unbounded_valid(p, q);
        lemma_unbounded_counts_every_record(p, q);
        assert(q.last() == states[n]);
        assert(record_step(states[n], ds[n], 0, states[n + 1]));
        lemma_record_step(states[n], ds[n], 0, states[n + 1]);
    }
}

/// With a bound `max_datapoints > 0`, a run of recordings from an empty
/// distribution never holds more than `max_datapoints` observations: after
/// `k` recordings it holds exactly `min(k, max_datapoints)`.
pub proof fn lemma_bounded_never_exceeds(
    max_datapoints: usize,
    ds: Seq<u64>,
    states: Seq<Seq<(u64, usize)>>,
)
    requires
        max_datapoints > 0,
        states.len() == ds.len() + 1,
        states[0] == Seq::<(u64, usize)>::empty(),
        forall|i: int|
            0 <= i < ds.len() ==> #[trigger] record_step(states[i], ds[i], max_datapoints, states[i + 1]),
    ensures
        forall|k: int| 0 <= k < states.len() ==> valid_buckets(#[trigger] states[k]),
        forall|k: int|
            0 <= k < states.len() ==> count_of(#[trigger] states[k]) == if k < max_datapoints {
                k as nat
            } else {
                max_datapoints as nat
            },
        forall|k: int| 0 <= k < states.len() ==> count_of(#[trigger] states[k]) <= max_datapoints,
    decreases ds.len(),
{
    if ds.len() == 0 {
        assert(count_of(states[0]) == 0);
    } else {
        let n = ds.len() - 1;
        let p = ds.drop_last();
        let q = states.drop_last();
        assert forall|i: int| 0 <= i < p.len() implies #[trigger] record_step(
            q[i],
            p[i],
            max_datapoints,
            q[i + 1],
        ) by {
            assert(record_step(states[i], ds[i], max_datapoints, states[i + 1]));
        }
        lemma_bounded_never_exceeds(max_datapoints, p, q);
        assert(q[n] == states[n]);
        assert(record_step(states[n], ds[n], max_datapoints, states[n + 1]));
        lemma_record_step(states[n], ds[n], max_datapoints, states[n + 1]);
        assert forall|k: int| 0 <= k < states.len() implies valid_buckets(#[trigger] states[k])
            && count_of(states[k]) == (if k < max_datapoints {
            k as nat
        } else {
            max_datapoints as nat
        }) by {
            if k < states.len() - 1 {
                assert(states[k] == q[k]);
            }
        }
    }
}

/// A recording keeps the extremes: unless it had to evict from a
/// distribution of one or two buckets, the smallest duration afterwards is
/// the smaller of the old smallest and `d`, and the largest the larger of
/// the old largest and `d`.
pub proof fn lemma_record_keeps_extremes(
    s: Seq<(u64, usize)>,
    d: u64,
    max_datapoints: usize,
    t: Seq<(u64, usize)>,
)
    requires
        valid_buckets(s),
        record_step(s, d, max_datapoints, t),
        s.len() > 2 || count_of(s) < capacity(max_datapoints),
    ensures
        t.len() > 0,
        t[0].0 == (if s.len() == 0 || d < s[0].0 { d } else { s[0].0 }),
        t.last().0 == (if s.len() == 0 || d > s.last().0 { d } else { s.last().0 }),
{
    if count_of(s) >= capacity(max_datapoints) {
        let i = choose|i: int| #[trigger] evictable(s, i) && t == added(removed_at(s, i), d);
        let r = removed_at(s, i);
        lemma_removed_at(s, i);
        assert(r.len() > 0 && r[0] == s[0] && r.last() == s.last()) by {
            if s[i].1 != 1 {
                assert(r[0] == s[0]);
            } else {
                assert(r[0] == s[0]);
                assert(r[r.len() - 1] == s[s.len() - 1]);
            }
        }
        lemma_added(r, d);
    } else {
        lemma_added(s, d);
    }
}

} // verus!
