//! A time series that never grows and never loses an extreme.
//!
//! Each slot is a bucket holding the minimum, the maximum and the most recent
//! value over the run of samples it covers. When the series fills, adjacent
//! pairs are merged (min of mins, max of maxes, last of the later), which
//! halves the count and doubles the samples each slot represents. Merging
//! that way is lossless in the extremes: however often a series has been
//! decimated, [`Series::min`] and [`Series::max`] are exactly the smallest
//! and largest values ever pushed.
//!
//! Samples are order keys: unsigned integers compared with `<`. A caller
//! plotting real-valued samples maps each finite value to a key that orders
//! the same way and maps bucket keys back when drawing.

use vstd::prelude::*;
use vstd::arithmetic::power2::{pow2, lemma_pow2_unfold, lemma_pow2_pos, lemma2_to64};

verus! {

/// One slot: the range covered and where it ended.
#[derive(Debug, Clone, Copy, PartialEq, Eq, Structural)]
pub struct Bucket {
    pub min: u32,
    pub max: u32,
    /// The most recent value in this bucket. What a line plot connects.
    pub last: u32,
}

/// The smallest value of a non-empty sequence.
pub open spec fn seq_min(s: Seq<u32>) -> u32
    decreases s.len(),
{
    if s.len() <= 1 {
        s[0]
    } else {
        let m = seq_min(s.drop_last());
        if s.last() < m { s.last() } else { m }
    }
}

/// The largest value of a non-empty sequence.
pub open spec fn seq_max(s: Seq<u32>) -> u32
    decreases s.len(),
{
    if s.len() <= 1 {
        s[0]
    } else {
        let m = seq_max(s.drop_last());
        if s.last() > m { s.last() } else { m }
    }
}

/// `bucket` is the summary of the non-empty run `run`.
pub open spec fn summarizes(bucket: Bucket, run: Seq<u32>) -> bool {
    &&& run.len() > 0
    &&& bucket.min == seq_min(run)
    &&& bucket.max == seq_max(run)
    &&& bucket.last == run.last()
}

/// The smallest value is one of the values, and no value is below it; the
/// same for the largest.
pub proof fn lemma_seq_extremes(s: Seq<u32>)
    requires
        s.len() > 0,
    ensures
        s.contains(seq_min(s)),
        s.contains(seq_max(s)),
        forall|i: int| 0 <= i < s.len() ==> seq_min(s) <= #[trigger] s[i] <= seq_max(s),
    decreases s.len(),
{
    if s.len() > 1 {
        lemma_seq_extremes(s.drop_last());
        assert(s.drop_last().contains(seq_min(s.drop_last())));
        assert(s.drop_last().contains(seq_max(s.drop_last())));
        assert forall|i: int| 0 <= i < s.len() implies seq_min(s) <= #[trigger] s[i] <= seq_max(s) by {
            if i < s.len() - 1 {
                assert(s[i] == s.drop_last()[i]);
            }
        }
        let m = seq_min(s.drop_last());
        let j = choose|j: int| 0 <= j < s.drop_last().len() && s.drop_last()[j] == m;
        assert(s[j] == m);
        let mx = seq_max(s.drop_last());
        let k = choose|k: int| 0 <= k < s.drop_last().len() && s.drop_last()[k] == mx;
        assert(s[k] == mx);
        assert(s[s.len() - 1] == s.last());
    } else {
        assert(s[0] == s[0]);
    }
}

/// Extremes of a concatenation are the extremes of the extremes.
pub proof fn lemma_extremes_concat(a: Seq<u32>, b: Seq<u32>)
    requires
        a.len() > 0,
        b.len() > 0,
    ensures
        seq_min(a + b) == if seq_min(b) < seq_min(a) { seq_min(b) } else { seq_min(a) },
        seq_max(a + b) == if seq_max(b) > seq_max(a) { seq_max(b) } else { seq_max(a) },
        (a + b).last() == b.last(),
    decreases b.len(),
{
    if b.len() == 1 {
        assert((a + b).drop_last() =~= a);
    } else {
        assert((a + b).drop_last() =~= a + b.drop_last());
        lemma_extremes_concat(a, b.drop_last());
    }
}

/// Law: the envelope survives every push. However a push is folded in or
/// merged, the smallest value afterwards is the smaller of the smallest
/// before and the new sample (the sample itself when nothing came before),
/// and the largest likewise.
pub proof fn lemma_push_keeps_the_envelope(before: Seq<u32>, value: u32)
    ensures
        seq_min(before.push(value)) == if before.len() == 0 || value < seq_min(before) {
            value
        } else {
            seq_min(before)
        },
        seq_max(before.push(value)) == if before.len() == 0 || value > seq_max(before) {
            value
        } else {
            seq_max(before)
        },
{
    assert(before.push(value).drop_last() =~= before);
}

/// Where run `i` ends, given where every run starts and the total length.
pub open spec fn run_end_of(starts: Seq<int>, total: int, i: int) -> int {
    if i + 1 < starts.len() { starts[i + 1] } else { total }
}

/// The buckets summarize consecutive non-empty runs that start at the first
/// sample and end at the last.
pub open spec fn tiles(buckets: Seq<Bucket>, starts: Seq<int>, history: Seq<u32>) -> bool {
    let len = buckets.len();
    let total = history.len() as int;
    &&& starts.len() == len
    &&& (len == 0 <==> total == 0)
    &&& len > 0 ==> starts[0] == 0
    &&& forall|i: int| 0 <= i < len ==> 0 <= #[trigger] starts[i] < run_end_of(starts, total, i) <= total
    &&& forall|i: int| 0 <= i < len ==> summarizes(#[trigger] buckets[i], history.subrange(starts[i], run_end_of(starts, total, i)))
}

/// Fold a later bucket into this one.
fn absorb(bucket: Bucket, later: Bucket) -> (merged: Bucket)
    ensures
        merged.min == if later.min < bucket.min { later.min } else { bucket.min },
        merged.max == if later.max > bucket.max { later.max } else { bucket.max },
        merged.last == later.last,
{
    Bucket {
        min: if later.min < bucket.min { later.min } else { bucket.min },
        max: if later.max > bucket.max { later.max } else { bucket.max },
        last: later.last,
    }
}

/// The runs after merging adjacent pairs: every other start is kept.
pub open spec fn paired_starts(starts: Seq<int>) -> Seq<int> {
    Seq::new(((starts.len() + 1) / 2) as nat, |k: int| starts[2 * k])
}

/// The run a merged pair covers: from the start of bucket `i` to the end of
/// bucket `i + 1`, or of bucket `i` when it is the last.
pub open spec fn pair_run(starts: Seq<int>, history: Seq<u32>, i: int) -> Seq<u32> {
    history.subrange(starts[i], if i + 2 < starts.len() { starts[i + 2] } else { history.len() as int })
}

proof fn lemma_pair_summary(buckets: Seq<Bucket>, starts: Seq<int>, history: Seq<u32>, i: int, merged: Bucket)
    requires
        tiles(buckets, starts, history),
        0 <= i < buckets.len(),
        i + 1 < buckets.len() ==> {
            &&& merged.min == if buckets[i + 1].min < buckets[i].min { buckets[i + 1].min } else { buckets[i].min }
            &&& merged.max == if buckets[i + 1].max > buckets[i].max { buckets[i + 1].max } else { buckets[i].max }
            &&& merged.last == buckets[i + 1].last
        },
        i + 1 >= buckets.len() ==> merged == buckets[i],
    ensures
        summarizes(merged, pair_run(starts, history, i)),
{
    let total = history.len() as int;
    assert(summarizes(buckets[i], history.subrange(starts[i], run_end_of(starts, total, i))));
    if i + 1 < buckets.len() {
        assert(summarizes(buckets[i + 1], history.subrange(starts[i + 1], run_end_of(starts, total, i + 1))));
        let a = history.subrange(starts[i], starts[i + 1]);
        let b = history.subrange(starts[i + 1], run_end_of(starts, total, i + 1));
        assert(0 <= starts[i + 1] < run_end_of(starts, total, i + 1) <= total);
        assert(a + b =~= pair_run(starts, history, i));
        lemma_extremes_concat(a, b);
    }
}

/// Merge adjacent pairs of buckets, oldest first; an odd bucket out at the
/// end is kept alone.
#[verifier::rlimit(40)]
fn merge_pairs(buckets: &Vec<Bucket>, Ghost(starts): Ghost<Seq<int>>, Ghost(history): Ghost<Seq<u32>>) -> (merged: Vec<Bucket>)
    requires
        tiles(buckets@, starts, history),
    ensures
        merged@.len() == (buckets@.len() + 1) / 2,
        tiles(merged@, paired_starts(starts), history),
{
    let len = buckets.len();
    let ghost total = history.len() as int;
    let mut merged: Vec<Bucket> = Vec::new();
    let mut i: usize = 0;
    while i < len
        invariant
            len == buckets@.len(),
            tiles(buckets@, starts, history),
            total == history.len(),
            i <= len,
            i < len ==> i % 2 == 0,
            merged@.len() == (i + 1) / 2,
            forall|k: int| 0 <= k < merged@.len() ==> summarizes(#[trigger] merged@[k], pair_run(starts, history, 2 * k)),
        decreases len - i,
    {
        let first = buckets[i];
        let bucket = if i + 1 < len {
            absorb(first, buckets[i + 1])
        } else {
            first
        };
        proof {
            lemma_pair_summary(buckets@, starts, history, i as int, bucket);
        }
        let ghost before = merged@;
        merged.push(bucket);
        assert(forall|k: int| 0 <= k < before.len() ==> merged@[k] == before[k]);
        if i + 1 < len {
            i = i + 2;
        } else {
            i = i + 1;
        }
    }
    proof {
        let ps = paired_starts(starts);
        assert(ps.len() == merged@.len());
        assert forall|k: int| 0 <= k < merged@.len() implies run_end_of(ps, total, k) == (if 2 * k + 2 < len { starts[2 * k + 2] } else { total }) by {
            if k + 1 < ps.len() {
                assert(ps[k + 1] == starts[2 * (k + 1)]);
                assert(2 * k + 2 < len);
            }
        }
        assert forall|k: int| 0 <= k < merged@.len() implies 0 <= #[trigger] ps[k] < run_end_of(ps, total, k) <= total by {
            assert(ps[k] == starts[2 * k]);
            if 2 * k + 2 < len {
                assert(starts[2 * k + 1] == run_end_of(starts, total, 2 * k));
                assert(starts[2 * k + 2] == run_end_of(starts, total, 2 * k + 1));
                assert(starts[2 * k] < starts[2 * k + 1]);
                assert(starts[2 * k + 1] < run_end_of(starts, total, 2 * k + 1));
            } else if 2 * k + 1 < len {
                assert(starts[2 * k + 1] == run_end_of(starts, total, 2 * k));
                assert(starts[2 * k + 1] < run_end_of(starts, total, 2 * k + 1));
            } else {
                assert(run_end_of(starts, total, 2 * k) == total);
            }
        }
        assert forall|k: int| 0 <= k < merged@.len() implies summarizes(#[trigger] merged@[k], history.subrange(ps[k], run_end_of(ps, total, k))) by {
            assert(ps[k] == starts[2 * k]);
            assert(history.subrange(ps[k], run_end_of(ps, total, k)) == pair_run(starts, history, 2 * k));
        }
    }
    merged
}

/// Appending a sample as a run of its own keeps the tiling.
proof fn lemma_tiles_new_run(buckets: Seq<Bucket>, starts: Seq<int>, history: Seq<u32>, value: u32)
    requires
        tiles(buckets, starts, history),
    ensures
        tiles(
            buckets.push(Bucket { min: value, max: value, last: value }),
            starts.push(history.len() as int),
            history.push(value),
        ),
{
    let b1 = buckets.push(Bucket { min: value, max: value, last: value });
    let s1 = starts.push(history.len() as int);
    let h1 = history.push(value);
    let t0 = history.len() as int;
    let t1 = h1.len() as int;
    assert forall|i: int| 0 <= i < b1.len() implies 0 <= #[trigger] s1[i] < run_end_of(s1, t1, i) <= t1 by {
        if i < buckets.len() {
            assert(0 <= starts[i] < run_end_of(starts, t0, i) <= t0);
        }
    }
    assert forall|i: int| 0 <= i < b1.len() implies summarizes(#[trigger] b1[i], h1.subrange(s1[i], run_end_of(s1, t1, i))) by {
        if i < buckets.len() {
            assert(0 <= starts[i] < run_end_of(starts, t0, i) <= t0);
            assert(run_end_of(s1, t1, i) == run_end_of(starts, t0, i));
            assert(h1.subrange(s1[i], run_end_of(s1, t1, i)) =~= history.subrange(starts[i], run_end_of(starts, t0, i)));
            assert(summarizes(buckets[i], history.subrange(starts[i], run_end_of(starts, t0, i))));
        } else {
            assert(h1.subrange(s1[i], run_end_of(s1, t1, i)) =~= seq![value]);
        }
    }
}

/// Folding a sample into the last run keeps the tiling.
proof fn lemma_tiles_extend_last(buckets: Seq<Bucket>, starts: Seq<int>, history: Seq<u32>, value: u32, merged: Bucket)
    requires
        tiles(buckets, starts, history),
        buckets.len() > 0,
        merged.min == if value < buckets.last().min { value } else { buckets.last().min },
        merged.max == if value > buckets.last().max { value } else { buckets.last().max },
        merged.last == value,
    ensures
        tiles(buckets.update(buckets.len() - 1, merged), starts, history.push(value)),
{
    let n = buckets.len() as int;
    let b1 = buckets.update(n - 1, merged);
    let h1 = history.push(value);
    let t0 = history.len() as int;
    let t1 = h1.len() as int;
    assert forall|i: int| 0 <= i < n implies 0 <= #[trigger] starts[i] < run_end_of(starts, t1, i) <= t1 by {
        assert(0 <= starts[i] < run_end_of(starts, t0, i) <= t0);
    }
    assert forall|i: int| 0 <= i < n implies summarizes(#[trigger] b1[i], h1.subrange(starts[i], run_end_of(starts, t1, i))) by {
        assert(0 <= starts[i] < run_end_of(starts, t0, i) <= t0);
        assert(summarizes(buckets[i], history.subrange(starts[i], run_end_of(starts, t0, i))));
        if i < n - 1 {
            assert(h1.subrange(starts[i], run_end_of(starts, t1, i)) =~= history.subrange(starts[i], run_end_of(starts, t0, i)));
        } else {
            let a = history.subrange(starts[i], t0);
            assert(h1.subrange(starts[i], t1) =~= a + seq![value]);
            lemma_extremes_concat(a, seq![value]);
        }
    }
}

/// Runs of at least `step` samples each put the `j`-th start at least
/// `j * step` into the history.
proof fn lemma_starts_grow(starts: Seq<int>, j: int, step: int)
    requires
        starts.len() > 0,
        starts[0] == 0,
        0 <= j < starts.len(),
        step >= 0,
        forall|i: int| 0 <= i < j ==> starts[i + 1] - #[trigger] starts[i] >= step,
    ensures
        starts[j] >= j * step,
    decreases j,
{
    if j > 0 {
        lemma_starts_grow(starts, j - 1, step);
        assert(starts[j] - starts[j - 1] >= step);
        assert(j * step == (j - 1) * step + step) by (nonlinear_arith);
    } else {
        assert(j * step == 0) by (nonlinear_arith)
            requires j == 0;
    }
}

/// The run lengths a series keeps before merging: every run non-empty and
/// within the history, every run but the last at least half a span.
#[verifier::opaque]
pub open spec fn runs_at_least_half(starts: Seq<int>, total: int, span: int) -> bool {
    &&& forall|i: int| 0 <= i < starts.len() ==> 0 <= #[trigger] starts[i] < run_end_of(starts, total, i) <= total
    &&& forall|i: int| 0 <= i < starts.len() - 1 ==> span / 2 <= #[trigger] run_end_of(starts, total, i) - starts[i]
}

/// Appending one sample, as a new run or onto the last, keeps every run but
/// the last at least half a span long, and the last run's length tied to the
/// fill counter.
proof fn lemma_runs_after_append(s0: Seq<int>, t0: int, s1: Seq<int>, span: int, filling0: int, filling1: int)
    requires
        span >= 1,
        0 <= filling0 < span,
        runs_at_least_half(s0, t0, span),
        s0.len() == 0 <==> t0 == 0,
        s0.len() > 0 ==> s0[0] == 0,
        filling0 > 0 ==> s0.len() > 0 && filling0 <= run_end_of(s0, t0, s0.len() - 1) - s0[s0.len() - 1],
        filling0 == 0 && s0.len() > 0 ==> span / 2 <= run_end_of(s0, t0, s0.len() - 1) - s0[s0.len() - 1],
        filling0 == 0 ==> s1 == s0.push(t0),
        filling0 > 0 ==> s1 == s0,
        filling1 == if filling0 + 1 >= span { 0 } else { filling0 + 1 },
    ensures
        runs_at_least_half(s1, t0 + 1, span),
        s1.len() > 0,
        s1[0] == 0,
        filling1 > 0 ==> filling1 <= run_end_of(s1, t0 + 1, s1.len() - 1) - s1[s1.len() - 1],
        filling1 == 0 ==> span / 2 <= run_end_of(s1, t0 + 1, s1.len() - 1) - s1[s1.len() - 1],
        filling0 == 0 ==> run_end_of(s1, t0 + 1, s1.len() - 1) - s1[s1.len() - 1] == 1,
{
    reveal(runs_at_least_half);
    let t1 = t0 + 1;
    let len1 = s1.len() as int;
    assert forall|i: int| 0 <= i < len1 implies 0 <= #[trigger] s1[i] < run_end_of(s1, t1, i) <= t1 by {
        if filling0 == 0 && i == len1 - 1 {
        } else {
            assert(0 <= s0[i] < run_end_of(s0, t0, i) <= t0);
            if i < len1 - 1 {
                assert(run_end_of(s1, t1, i) == run_end_of(s0, t0, i));
            }
        }
    }
    assert forall|i: int| 0 <= i < len1 - 1 implies span / 2 <= #[trigger] run_end_of(s1, t1, i) - s1[i] by {
        assert(s1[i] == s0[i]);
        if filling0 == 0 && i == len1 - 2 {
            assert(run_end_of(s1, t1, i) == t0);
            assert(run_end_of(s0, t0, i) == t0);
        } else {
            assert(run_end_of(s1, t1, i) == run_end_of(s0, t0, i));
            assert(span / 2 <= run_end_of(s0, t0, i) - s0[i]);
        }
    }
    if filling0 > 0 {
        assert(run_end_of(s1, t1, len1 - 1) == t1);
        assert(run_end_of(s0, t0, len1 - 1) == t0);
    } else {
        assert(run_end_of(s1, t1, len1 - 1) == t1);
        assert(s1[len1 - 1] == t0);
        if s0.len() > 0 {
            assert(s1[0] == s0[0]);
        }
    }
}

/// A series past a capacity of at least two has taken at least a span of
/// samples, so the span can double without passing twice the count.
proof fn lemma_room_to_double(starts: Seq<int>, total: int, span: int)
    requires
        starts.len() >= 3,
        starts[0] == 0,
        span >= 1,
        span == 1 || span == 2 * (span / 2),
        runs_at_least_half(starts, total, span),
    ensures
        span < total,
{
    reveal(runs_at_least_half);
    let len = starts.len() as int;
    let step = if span / 2 > 1 { span / 2 } else { 1 };
    assert forall|i: int| 0 <= i < len - 1 implies starts[i + 1] - #[trigger] starts[i] >= step by {
        assert(run_end_of(starts, total, i) == starts[i + 1]);
        assert(0 <= starts[i] < run_end_of(starts, total, i) <= total);
        assert(span / 2 <= run_end_of(starts, total, i) - starts[i]);
    }
    lemma_starts_grow(starts, len - 1, step);
    assert((len - 1) * step >= 2 * step) by (nonlinear_arith)
        requires len - 1 >= 2, step >= 1;
    assert(0 <= starts[len - 1] < run_end_of(starts, total, len - 1) <= total);
}

/// After merging pairs every run but the last holds at least a (new,
/// doubled) half span, and the last run is not empty.
proof fn lemma_merged_runs(starts: Seq<int>, total: int, span: int)
    requires
        starts.len() >= 3,
        span >= 1,
        span == 1 || span == 2 * (span / 2),
        runs_at_least_half(starts, total, span),
    ensures
        runs_at_least_half(paired_starts(starts), total, 2 * span),
{
    reveal(runs_at_least_half);
    let ps = paired_starts(starts);
    let len = starts.len() as int;
    let m = ps.len() as int;
    assert forall|k: int| 0 <= k < m implies 0 <= #[trigger] ps[k] < run_end_of(ps, total, k) <= total by {
        assert(ps[k] == starts[2 * k]);
        assert(0 <= starts[2 * k] < run_end_of(starts, total, 2 * k) <= total);
        if k + 1 < m {
            assert(ps[k + 1] == starts[2 * k + 2]);
            assert(run_end_of(starts, total, 2 * k) == starts[2 * k + 1]);
            assert(0 <= starts[2 * k + 1] < run_end_of(starts, total, 2 * k + 1) <= total);
            assert(run_end_of(starts, total, 2 * k + 1) == starts[2 * k + 2]);
        }
    }
    assert forall|k: int| 0 <= k < m - 1 implies (2 * span) / 2 <= #[trigger] run_end_of(ps, total, k) - ps[k] by {
        assert(ps[k] == starts[2 * k]);
        assert(ps[k + 1] == starts[2 * k + 2]);
        assert(run_end_of(starts, total, 2 * k) == starts[2 * k + 1]);
        assert(run_end_of(starts, total, 2 * k + 1) == starts[2 * k + 2]);
        assert(span / 2 <= run_end_of(starts, total, 2 * k) - starts[2 * k]);
        assert(span / 2 <= run_end_of(starts, total, 2 * k + 1) - starts[2 * k + 1]);
        assert(0 <= starts[2 * k] < run_end_of(starts, total, 2 * k) <= total);
        assert(0 <= starts[2 * k + 1] < run_end_of(starts, total, 2 * k + 1) <= total);
    }
}

/// The buckets of a [`Series`] and the bookkeeping that places them in
/// the history.
struct SeriesState {
    buckets: Vec<Bucket>,
    capacity: usize,
    /// Samples that go into one bucket at the current resolution.
    span: usize,
    /// Samples pushed into the bucket currently being filled.
    filling: usize,
    /// Total ever pushed.
    pushed: u64,
    /// Every sample ever pushed, in order.
    history: Ghost<Seq<u32>>,
    /// Where in the history each bucket's run starts.
    starts: Ghost<Seq<int>>,
    /// `span` is two to this power.
    level: Ghost<nat>,
}

impl View for SeriesState {
    type V = Seq<u32>;

    /// Every sample pushed since the series was created or cleared.
    closed spec fn view(&self) -> Seq<u32> {
        self.history@
    }
}

impl SeriesState {
    /// Where bucket `i`'s run of samples starts.
    spec fn run_start(&self, i: int) -> int {
        self.starts@[i]
    }

    /// Where bucket `i`'s run of samples ends (exclusive).
    spec fn run_end(&self, i: int) -> int {
        run_end_of(self.starts@, self.history@.len() as int, i)
    }

    /// The samples bucket `i` summarizes.
    spec fn run(&self, i: int) -> Seq<u32> {
        self@.subrange(self.run_start(i), self.run_end(i))
    }

    /// Bucket count, as a spec value.
    spec fn spec_len(&self) -> nat {
        self.buckets@.len()
    }

    /// The rounded-up capacity, as a spec value.
    spec fn spec_capacity(&self) -> nat {
        self.capacity as nat
    }

    /// Samples per bucket at the current resolution.
    spec fn spec_resolution(&self) -> nat {
        self.span as nat
    }

    /// The buckets, as a spec value.
    spec fn spec_buckets(&self) -> Seq<Bucket> {
        self.buckets@
    }

    /// Where each bucket's run starts in the history.
    spec fn spec_starts(&self) -> Seq<int> {
        self.starts@
    }

    /// Samples already in the bucket being filled; zero when the next sample
    /// starts a new bucket.
    spec fn spec_filling(&self) -> nat {
        self.filling as nat
    }

    /// The series is consistent: its buckets tile the history in order and
    /// summarize it, within capacity, at a power-of-two resolution.
    spec fn wf(&self) -> bool {
        let len = self.buckets@.len();
        &&& self.capacity >= 2
        &&& len <= self.capacity
        &&& self.span == pow2(self.level@)
        &&& self.filling < self.span
        &&& self.pushed == self.history@.len()
        &&& self.span <= 2 * self.pushed + 1
        &&& tiles(self.buckets@, self.starts@, self.history@)
        &&& runs_at_least_half(self.starts@, self.history@.len() as int, self.span as int)
        &&& self.filling > 0 ==> len > 0 && self.filling <= run_end_of(self.starts@, self.history@.len() as int, len - 1) - self.starts@[len - 1]
        &&& self.filling == 0 && len > 0 ==> self.span / 2 <= run_end_of(self.starts@, self.history@.len() as int, len - 1) - self.starts@[len - 1]
    }

    /// An empty series holding up to `capacity` buckets.
    fn empty(capacity: usize) -> (series: Self)
        requires
            capacity >= 2,
        ensures
            series.wf(),
            series@ == Seq::<u32>::empty(),
            series.spec_capacity() == capacity,
            series.spec_resolution() == 1,
            series.spec_filling() == 0,
            series.spec_starts() == Seq::<int>::empty(),
    {
        proof {
            lemma2_to64();
            reveal(runs_at_least_half);
        }
        SeriesState {
            buckets: Vec::new(),
            capacity,
            span: 1,
            filling: 0,
            pushed: 0,
            history: Ghost(Seq::empty()),
            starts: Ghost(Seq::empty()),
            level: Ghost(0),
        }
    }

    fn is_empty(&self) -> (empty: bool)
        requires
            self.wf(),
        ensures
            empty == (self@.len() == 0),
    {
        self.buckets.len() == 0
    }

    fn len(&self) -> (len: usize)
        requires
            self.wf(),
        ensures
            len == self.spec_len(),
            len <= self.spec_capacity(),
    {
        self.buckets.len()
    }

    /// The buckets, oldest first. Bucket `i` summarizes the samples from
    /// `run_start(i)` up to `run_end(i)`; the runs follow one another with no
    /// gap from the first sample to the last.
    fn buckets(&self) -> (buckets: &[Bucket])
        requires
            self.wf(),
        ensures
            buckets@ == self.spec_buckets(),
            buckets@.len() == self.spec_len(),
            buckets@.len() > 0 ==> self.run_start(0) == 0,
            buckets@.len() > 0 ==> self.run_end(buckets@.len() - 1) == self@.len(),
            forall|i: int| 0 <= i < buckets@.len() - 1 ==> #[trigger] self.run_end(i) == self.run_start(i + 1),
            forall|i: int| 0 <= i < buckets@.len() ==> summarizes(#[trigger] buckets@[i], self.run(i)),
    {
        self.buckets.as_slice()
    }

    /// Samples pushed since the series was created.
    fn count(&self) -> (count: u64)
        requires
            self.wf(),
        ensures
            count == self@.len(),
    {
        self.pushed
    }

    /// Samples each bucket now covers; always a power of two.
    fn resolution(&self) -> (span: usize)
        requires
            self.wf(),
        ensures
            span == self.spec_resolution(),
            exists|k: nat| span == pow2(k),
    {
        self.span
    }

    /// The smallest value ever pushed. Exact, whatever the resolution.
    fn min(&self) -> (min: Option<u32>)
        requires
            self.wf(),
        ensures
            min == if self@.len() == 0 { None } else { Some(seq_min(self@)) },
    {
        if self.buckets.len() == 0 {
            return None;
        }
        let mut best = self.buckets[0].min;
        let mut i: usize = 1;
        while i < self.buckets.len()
            invariant
                self.wf(),
                1 <= i <= self.buckets@.len(),
                best == seq_min(self@.subrange(0, self.run_end(i - 1))),
            decreases self.buckets@.len() - i,
        {
            proof {
                let prefix = self@.subrange(0, self.run_end(i - 1));
                let next = self.run(i as int);
                assert(0 <= self.starts@[i - 1] < self.run_end(i - 1));
                assert(0 <= self.starts@[i as int] < self.run_end(i as int));
                assert(self.run_start(i as int) == self.run_end(i - 1));
                assert(prefix + next =~= self@.subrange(0, self.run_end(i as int)));
                lemma_extremes_concat(prefix, next);
            }
            let candidate = self.buckets[i].min;
            if candidate < best {
                best = candidate;
            }
            i = i + 1;
        }
        assert(self@.subrange(0, self.run_end(self.buckets@.len() - 1)) =~= self@);
        Some(best)
    }

    /// The largest value ever pushed. Exact, whatever the resolution.
    fn max(&self) -> (max: Option<u32>)
        requires
            self.wf(),
        ensures
            max == if self@.len() == 0 { None } else { Some(seq_max(self@)) },
    {
        if self.buckets.len() == 0 {
            return None;
        }
        let mut best = self.buckets[0].max;
        let mut i: usize = 1;
        while i < self.buckets.len()
            invariant
                self.wf(),
                1 <= i <= self.buckets@.len(),
                best == seq_max(self@.subrange(0, self.run_end(i - 1))),
            decreases self.buckets@.len() - i,
        {
            proof {
                let prefix = self@.subrange(0, self.run_end(i - 1));
                let next = self.run(i as int);
                assert(0 <= self.starts@[i - 1] < self.run_end(i - 1));
                assert(0 <= self.starts@[i as int] < self.run_end(i as int));
                assert(self.run_start(i as int) == self.run_end(i - 1));
                assert(prefix + next =~= self@.subrange(0, self.run_end(i as int)));
                lemma_extremes_concat(prefix, next);
            }
            let candidate = self.buckets[i].max;
            if candidate > best {
                best = candidate;
            }
            i = i + 1;
        }
        assert(self@.subrange(0, self.run_end(self.buckets@.len() - 1)) =~= self@);
        Some(best)
    }

    /// The most recent value.
    fn last(&self) -> (last: Option<u32>)
        requires
            self.wf(),
        ensures
            last == if self@.len() == 0 { None } else { Some(self@.last()) },
    {
        if self.buckets.len() == 0 {
            None
        } else {
            let n = self.buckets.len();
            proof {
                assert(self.run(n - 1).last() == self@[self.run_end(n - 1) - 1]);
            }
            Some(self.buckets[n - 1].last)
        }
    }

    /// Add a sample. It starts a new bucket when the current one holds a
    /// full span (or there is none), and is folded into the last bucket
    /// otherwise; if a new bucket takes the series past its capacity,
    /// adjacent buckets are merged pairwise, the resolution doubles, and the
    /// fill count is kept modulo the new span.
    #[verifier::rlimit(60)]
    fn push(&mut self, value: u32)
        requires
            old(self).wf(),
            old(self)@.len() < usize::MAX / 2,
        ensures
            final(self).wf(),
            final(self)@ == old(self)@.push(value),
            final(self).spec_capacity() == old(self).spec_capacity(),
            ({
                let starts = if old(self).spec_filling() == 0 {
                    old(self).spec_starts().push(old(self)@.len() as int)
                } else {
                    old(self).spec_starts()
                };
                let filling = if old(self).spec_filling() + 1 >= old(self).spec_resolution() {
                    0
                } else {
                    old(self).spec_filling() + 1
                };
                if starts.len() > old(self).spec_capacity() {
                    &&& final(self).spec_starts() == paired_starts(starts)
                    &&& final(self).spec_resolution() == 2 * old(self).spec_resolution()
                    &&& final(self).spec_filling() == filling % (2 * old(self).spec_resolution())
                } else {
                    &&& final(self).spec_starts() == starts
                    &&& final(self).spec_resolution() == old(self).spec_resolution()
                    &&& final(self).spec_filling() == filling
                }
            }),
    {
        let ghost h0 = self.history@;
        let ghost s0 = self.starts@;
        let ghost b0 = self.buckets@;
        let ghost t0 = h0.len() as int;
        let ghost span = self.span as int;
        let ghost filling0 = self.filling as int;
        let point = Bucket { min: value, max: value, last: value };
        self.pushed = self.pushed + 1;
        self.history = Ghost(h0.push(value));
        if self.filling == 0 {
            self.buckets.push(point);
            self.starts = Ghost(s0.push(t0));
            proof {
                lemma_tiles_new_run(b0, s0, h0, value);
            }
        } else {
            let n = self.buckets.len();
            let merged = absorb(self.buckets[n - 1], point);
            self.buckets.set(n - 1, merged);
            proof {
                lemma_tiles_extend_last(b0, s0, h0, value, merged);
            }
        }
        self.filling = self.filling + 1;
        if self.filling >= self.span {
            self.filling = 0;
        }
        let ghost t1 = t0 + 1;
        let ghost s1 = self.starts@;
        proof {
            lemma_runs_after_append(s0, t0, s1, span, filling0, self.filling as int);
        }
        if self.buckets.len() > self.capacity {
            proof {
                lemma_pow2_pos(self.level@);
                if self.level@ > 0 {
                    lemma_pow2_unfold(self.level@);
                } else {
                    lemma2_to64();
                }
                lemma_room_to_double(s1, t1, span);
            }
            let merged = merge_pairs(&self.buckets, Ghost(self.starts@), Ghost(self.history@));
            self.buckets = merged;
            self.starts = Ghost(paired_starts(s1));
            self.span = self.span * 2;
            self.level = Ghost(self.level@ + 1);
            proof {
                lemma_pow2_unfold(self.level@);
                lemma_merged_runs(s1, t1, span);
                if span > 1 {
                    vstd::arithmetic::div_mod::lemma_small_mod(1, self.span as nat);
                }
            }
            self.filling = self.filling % self.span;
        }
    }
}

/// A bounded series of buckets covering an unbounded run of samples.
pub struct Series {
    state: SeriesState,
}

impl View for Series {
    type V = Seq<u32>;

    /// Every sample pushed since the series was created or cleared.
    closed spec fn view(&self) -> Seq<u32> {
        self.state@
    }
}

impl Series {
    /// The buckets tile the history in order and summarize it, within
    /// capacity, at a power-of-two resolution.
    #[verifier::type_invariant]
    spec fn consistent(self) -> bool {
        self.state.wf()
    }

    /// Where bucket `i`'s run of samples starts.
    pub closed spec fn run_start(&self, i: int) -> int {
        self.state.run_start(i)
    }

    /// Where bucket `i`'s run of samples ends (exclusive).
    pub closed spec fn run_end(&self, i: int) -> int {
        self.state.run_end(i)
    }

    /// The samples bucket `i` summarizes.
    pub open spec fn run(&self, i: int) -> Seq<u32> {
        self@.subrange(self.run_start(i), self.run_end(i))
    }

    /// Bucket count, as a spec value.
    pub closed spec fn spec_len(&self) -> nat {
        self.state.spec_len()
    }

    /// The rounded-up capacity, as a spec value.
    pub closed spec fn spec_capacity(&self) -> nat {
        self.state.spec_capacity()
    }

    /// Samples per bucket at the current resolution.
    pub closed spec fn spec_resolution(&self) -> nat {
        self.state.spec_resolution()
    }

    /// The buckets, as a spec value.
    pub closed spec fn spec_buckets(&self) -> Seq<Bucket> {
        self.state.spec_buckets()
    }

    /// Where each bucket's run starts in the history: one entry per bucket.
    pub closed spec fn spec_starts(&self) -> Seq<int> {
        self.state.spec_starts()
    }

    /// Samples already in the bucket being filled; zero when the next sample
    /// starts a new bucket.
    pub closed spec fn spec_filling(&self) -> nat {
        self.state.spec_filling()
    }

    /// `capacity` is rounded up to an even number, and at least two:
    /// decimation merges pairs, and an odd capacity would leave a runt
    /// bucket covering half the span of its neighbours.
    pub fn new(capacity: usize) -> (series: Self)
        requires
            capacity < usize::MAX,
        ensures
            series@ == Seq::<u32>::empty(),
            series.spec_len() == 0,
            series.spec_capacity() == if capacity < 2 { 2 } else { capacity + capacity % 2 },
            series.spec_resolution() == 1,
            series.spec_filling() == 0,
            series.spec_starts() == Seq::<int>::empty(),
    {
        let capacity = if capacity < 2 { 2 } else { capacity + capacity % 2 };
        Series { state: SeriesState::empty(capacity) }
    }

    pub fn is_empty(&self) -> (empty: bool)
        ensures
            empty == (self@.len() == 0),
    {
        proof {
            use_type_invariant(self);
        }
        self.state.is_empty()
    }

    pub fn len(&self) -> (len: usize)
        ensures
            len == self.spec_len(),
            len == self.spec_starts().len(),
            len <= self.spec_capacity(),
    {
        proof {
            use_type_invariant(self);
        }
        self.state.len()
    }

    /// The buckets, oldest first. Bucket `i` summarizes the samples from
    /// `run_start(i)` up to `run_end(i)`; the runs follow one another with no
    /// gap from the first sample to the last.
    pub fn buckets(&self) -> (buckets: &[Bucket])
        ensures
            buckets@ == self.spec_buckets(),
            buckets@.len() == self.spec_len(),
            buckets@.len() > 0 ==> self.run_start(0) == 0,
            buckets@.len() > 0 ==> self.run_end(buckets@.len() - 1) == self@.len(),
            forall|i: int| 0 <= i < buckets@.len() - 1 ==> #[trigger] self.run_end(i) == self.run_start(i + 1),
            forall|i: int| 0 <= i < buckets@.len() ==> summarizes(#[trigger] buckets@[i], self.run(i)),
            forall|i: int| 0 <= i < buckets@.len() ==> #[trigger] buckets@[i].min <= buckets@[i].last <= buckets@[i].max,
    {
        proof {
            use_type_invariant(self);
        }
        let buckets = self.state.buckets();
        proof {
            assert forall|i: int| 0 <= i < buckets@.len() implies #[trigger] buckets@[i].min <= buckets@[i].last <= buckets@[i].max by {
                let run = self.run(i);
                assert(summarizes(buckets@[i], run));
                lemma_seq_extremes(run);
                assert(run.last() == run[run.len() - 1]);
            }
        }
        buckets
    }

    /// Samples pushed since the series was created.
    pub fn count(&self) -> (count: u64)
        ensures
            count == self@.len(),
    {
        proof {
            use_type_invariant(self);
        }
        self.state.count()
    }

    /// Samples each bucket now covers; always a power of two.
    pub fn resolution(&self) -> (span: usize)
        ensures
            span == self.spec_resolution(),
            exists|k: nat| span == pow2(k),
    {
        proof {
            use_type_invariant(self);
        }
        self.state.resolution()
    }

    /// The smallest value ever pushed. Exact, whatever the resolution.
    pub fn min(&self) -> (min: Option<u32>)
        ensures
            min == if self@.len() == 0 { None } else { Some(seq_min(self@)) },
    {
        proof {
            use_type_invariant(self);
        }
        self.state.min()
    }

    /// The largest value ever pushed. Exact, whatever the resolution.
    pub fn max(&self) -> (max: Option<u32>)
        ensures
            max == if self@.len() == 0 { None } else { Some(seq_max(self@)) },
    {
        proof {
            use_type_invariant(self);
        }
        self.state.max()
    }

    /// The most recent value.
    pub fn last(&self) -> (last: Option<u32>)
        ensures
            last == if self@.len() == 0 { None } else { Some(self@.last()) },
    {
        proof {
            use_type_invariant(self);
        }
        self.state.last()
    }

    /// Add a sample. It starts a new bucket when the current one holds a
    /// full span (or there is none), and is folded into the last bucket
    /// otherwise; if a new bucket takes the series past its capacity,
    /// adjacent buckets are merged pairwise, the resolution doubles, and the
    /// fill count is kept modulo the new span.
    pub fn push(&mut self, value: u32)
        requires
            old(self)@.len() < usize::MAX / 2,
        ensures
            final(self)@ == old(self)@.push(value),
            final(self).spec_capacity() == old(self).spec_capacity(),
            final(self).spec_len() == final(self).spec_starts().len(),
            final(self).spec_len() <= final(self).spec_capacity(),
            ({
                let starts = if old(self).spec_filling() == 0 {
                    old(self).spec_starts().push(old(self)@.len() as int)
                } else {
                    old(self).spec_starts()
                };
                let filling = if old(self).spec_filling() + 1 >= old(self).spec_resolution() {
                    0
                } else {
                    old(self).spec_filling() + 1
                };
                if starts.len() > old(self).spec_capacity() {
                    &&& final(self).spec_starts() == paired_starts(starts)
                    &&& final(self).spec_resolution() == 2 * old(self).spec_resolution()
                    &&& final(self).spec_filling() == filling % (2 * old(self).spec_resolution())
                } else {
                    &&& final(self).spec_starts() == starts
                    &&& final(self).spec_resolution() == old(self).spec_resolution()
                    &&& final(self).spec_filling() == filling
                }
            }),
    {
        proof {
            use_type_invariant(&*self);
        }
        let mut state = SeriesState::empty(self.state.capacity);
        std::mem::swap(&mut state, &mut self.state);
        state.push(value);
        self.state = state;
    }

    /// Forget every sample; the capacity is kept.
    pub fn clear(&mut self)
        ensures
            final(self)@ == Seq::<u32>::empty(),
            final(self).spec_len() == 0,
            final(self).spec_capacity() == old(self).spec_capacity(),
            final(self).spec_resolution() == 1,
            final(self).spec_filling() == 0,
            final(self).spec_starts() == Seq::<int>::empty(),
    {
        proof {
            use_type_invariant(&*self);
        }
        let capacity = self.state.capacity;
        self.state = SeriesState::empty(capacity);
    }
}

} // verus!
