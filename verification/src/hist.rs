//! A log-bucketed histogram for approximate percentiles over a stream.
//!
//! Sorting every line length of a large file is out of the question, and
//! buckets of one fixed width are either too many or too coarse. [`Histogram`]
//! keeps one bucket per value below [`EXACT_MAX`] and, above that, splits each
//! doubling of the value into [`SUBDIV`] buckets, so that the relative error of
//! a percentile stays bounded whatever the range of the inputs. The count, the
//! sum, the smallest and the largest value are tracked beside the buckets and
//! are exact.

use vstd::arithmetic::power2::pow2;
use vstd::prelude::*;

verus! {

/// Values below this have a bucket of their own.
pub const EXACT_MAX: u64 = 16;

/// Buckets per doubling of the value above [`EXACT_MAX`].
pub const SUBDIV: u64 = 32;

/// How many doublings of [`EXACT_MAX`] the `u64` range holds.
pub const MAX_EXP: u32 = 60;

/// The number of buckets: one per small value, [`SUBDIV`] per doubling.
pub const BUCKET_COUNT: usize = 1936;

/// How often `value` must be halved to fall below `2 * EXACT_MAX`.
pub open spec fn octave(value: nat) -> nat
    decreases value,
{
    if value < 2 * EXACT_MAX {
        0
    } else {
        1 + octave(value / 2)
    }
}

/// The smallest value of the given octave.
pub open spec fn octave_start(e: nat) -> nat {
    EXACT_MAX as nat * pow2(e)
}

/// The bucket that covers `value`: the value itself below [`EXACT_MAX`];
/// above, the octave's span is cut into [`SUBDIV`] equal parts.
pub open spec fn bucket_of(value: nat) -> nat {
    if value < EXACT_MAX {
        value
    } else {
        let low = octave_start(octave(value));
        (EXACT_MAX + octave(value) * SUBDIV + (value - low) * SUBDIV / low as int) as nat
    }
}

/// The value that stands for a bucket: the midpoint of its span.
pub open spec fn representative(bucket: nat) -> nat {
    if bucket < EXACT_MAX {
        bucket
    } else {
        let e = (bucket - EXACT_MAX) as nat / SUBDIV as nat;
        let sub = (bucket - EXACT_MAX) as nat % SUBDIV as nat;
        let low = octave_start(e);
        low + (2 * sub + 1) * low / (2 * SUBDIV as nat)
    }
}

/// An octave spans one doubling: from `EXACT_MAX * 2^e` up to twice that.
pub proof fn lemma_octave_span(value: nat)
    requires
        value >= EXACT_MAX,
    ensures
        octave_start(octave(value)) <= value < 2 * octave_start(octave(value)),
    decreases value,
{
    broadcast use vstd::arithmetic::power2::lemma_pow2_unfold;

    if value < 2 * EXACT_MAX {
        vstd::arithmetic::power2::lemma2_to64();
    } else {
        lemma_octave_span(value / 2);
    }
}

proof fn lemma_octave_leading_zeros(value: u64)
    requires
        value >= EXACT_MAX,
    ensures
        octave(value as nat) == 59 - vstd::std_specs::bits::u64_leading_zeros(value),
        octave(value as nat) < MAX_EXP,
    decreases value,
{
    reveal_with_fuel(vstd::std_specs::bits::u64_leading_zeros, 6);
    vstd::std_specs::bits::axiom_u64_leading_zeros(value);
    if value >= 2 * EXACT_MAX {
        lemma_octave_leading_zeros(value / 2);
    }
}

proof fn lemma_octave_start_fits(e: nat)
    requires
        e < MAX_EXP,
    ensures
        EXACT_MAX <= octave_start(e) <= 0x8000_0000_0000_0000,
        (EXACT_MAX << (e as u64)) == octave_start(e),
{
    vstd::arithmetic::power2::lemma2_to64();
    vstd::arithmetic::power2::lemma2_to64_rest();
    if e < 59 {
        vstd::arithmetic::power2::lemma_pow2_strictly_increases(e, 59);
    }
    vstd::arithmetic::power2::lemma_pow2_pos(e);
    vstd::bits::lemma_u64_shl_is_mul(EXACT_MAX, e as u64);
}

/// Maps a value to the index of the bucket that covers it.
pub fn bucket_for(value: u64) -> (bucket: usize)
    ensures
        bucket == bucket_of(value as nat),
        bucket < BUCKET_COUNT,
{
    if value < EXACT_MAX {
        return value as usize;
    }
    proof {
        lemma_octave_leading_zeros(value);
        lemma_octave_span(value as nat);
        lemma_octave_start_fits(octave(value as nat));
    }
    let e: u32 = 59 - value.leading_zeros();
    let low: u64 = EXACT_MAX << (e as u64);
    let offset: u64 = value - low;
    let scaled: u128 = (offset as u128) * (SUBDIV as u128);
    let sub: u128 = scaled / (low as u128);
    assert(sub < SUBDIV) by (nonlinear_arith)
        requires
            sub == scaled / (low as u128),
            scaled == offset * 32,
            offset < low,
            SUBDIV == 32,
    ;
    assert((e as usize) * (SUBDIV as usize) <= 59 * 32) by (nonlinear_arith)
        requires
            e < 60,
            SUBDIV == 32,
    ;
    EXACT_MAX as usize + (e as usize) * (SUBDIV as usize) + sub as usize
}

proof fn lemma_representative_fits(bucket: nat)
    requires
        bucket < BUCKET_COUNT,
    ensures
        representative(bucket) <= u64::MAX,
{
    if bucket >= EXACT_MAX {
        let e = (bucket - EXACT_MAX) as nat / SUBDIV as nat;
        let sub = (bucket - EXACT_MAX) as nat % SUBDIV as nat;
        let low = octave_start(e);
        lemma_octave_start_fits(e);
        assert((2 * sub + 1) * low / 64 < low) by (nonlinear_arith)
            requires
                sub < 32,
                low > 0,
        ;
    }
}

/// Maps a bucket index back to the value that stands for it.
pub fn value_for_bucket(bucket: usize) -> (value: u64)
    requires
        bucket < BUCKET_COUNT,
    ensures
        value == representative(bucket as nat),
{
    if bucket < EXACT_MAX as usize {
        return bucket as u64;
    }
    let idx: usize = bucket - EXACT_MAX as usize;
    let e: usize = idx / (SUBDIV as usize);
    let sub: u64 = (idx % (SUBDIV as usize)) as u64;
    assert(e < MAX_EXP) by (nonlinear_arith)
        requires
            e == idx / (SUBDIV as usize),
            idx < 1920,
            SUBDIV == 32,
            MAX_EXP == 60,
    ;
    proof {
        lemma_octave_start_fits(e as nat);
        lemma_representative_fits(bucket as nat);
    }
    let low: u64 = EXACT_MAX << (e as u64);
    let steps: u128 = (2 * sub + 1) as u128;
    assert(steps * low <= 63 * 0x8000_0000_0000_0000) by (nonlinear_arith)
        requires
            steps <= 63,
            low <= 0x8000_0000_0000_0000,
    ;
    let half_steps: u128 = steps * (low as u128);
    let mid: u128 = low as u128 + half_steps / ((2 * SUBDIV) as u128);
    mid as u64
}

/// The sum of a sequence of values.
pub open spec fn sum_of(values: Seq<u64>) -> nat
    decreases values.len(),
{
    if values.len() == 0 {
        0
    } else {
        sum_of(values.drop_last()) + values.last() as nat
    }
}

/// The smallest value of a sequence; `u64::MAX` for the empty one.
pub open spec fn least(values: Seq<u64>) -> u64
    decreases values.len(),
{
    if values.len() == 0 {
        u64::MAX
    } else if values.last() < least(values.drop_last()) {
        values.last()
    } else {
        least(values.drop_last())
    }
}

/// The largest value of a sequence; 0 for the empty one.
pub open spec fn greatest(values: Seq<u64>) -> u64
    decreases values.len(),
{
    if values.len() == 0 {
        0
    } else if values.last() > greatest(values.drop_last()) {
        values.last()
    } else {
        greatest(values.drop_last())
    }
}

/// How many of the values fall into the given bucket.
pub open spec fn in_bucket(values: Seq<u64>, bucket: nat) -> nat
    decreases values.len(),
{
    if values.len() == 0 {
        0
    } else {
        in_bucket(values.drop_last(), bucket) + if bucket_of(values.last() as nat) == bucket {
            1nat
        } else {
            0
        }
    }
}

/// How many of the values are `bound` or less.
pub open spec fn at_most(values: Seq<u64>, bound: int) -> nat
    decreases values.len(),
{
    if values.len() == 0 {
        0
    } else {
        at_most(values.drop_last(), bound) + if values.last() <= bound {
            1nat
        } else {
            0
        }
    }
}

/// `value` is the `rank`-th smallest of the values, counting from 1.
pub open spec fn has_rank(values: Seq<u64>, value: u64, rank: int) -> bool {
    at_most(values, value - 1) < rank <= at_most(values, value as int)
}

/// Where in the sorted values a percentile lies: at one of the ends, or at a
/// rank counting from 1.
#[derive(Debug, Clone, Copy, PartialEq, Eq, Structural)]
pub enum At {
    /// The lower end, percentile 0.
    Least,
    /// A rank between the ends.
    Rank(u64),
    /// The upper end, percentile 100.
    Greatest,
}

/// `value` is a percentile of the values: there is none only if there are no
/// values, the ends are exact, and any other comes from the bucket of the value
/// with its rank. A rank outside `1..=count` is taken as the nearest one inside.
pub open spec fn is_percentile(value: Option<u64>, values: Seq<u64>, at: At) -> bool {
    &&& value is None <==> values.len() == 0
    &&& values.len() > 0 ==> match at {
        At::Least => value == Some(least(values)),
        At::Greatest => value == Some(greatest(values)),
        At::Rank(rank) => forall|exact: u64| #[trigger]
            has_rank(values, exact, clamp_rank(rank as int, values.len() as int)) ==> value == Some(
                representative(bucket_of(exact as nat)) as u64,
            ),
    }
}

/// A log-bucketed histogram of `u64` values, for approximate percentiles.
#[derive(Debug, Clone)]
pub struct Histogram {
    buckets: Vec<u64>,
    count: u64,
    sum: u128,
    min: u64,
    max: u64,
}

impl Histogram {
    /// The histogram holds exactly what these values leave behind when they
    /// are added to an empty one.
    pub closed spec fn describes(&self, values: Seq<u64>) -> bool {
        &&& self.count == values.len()
        &&& self.sum == sum_of(values)
        &&& self.min == least(values)
        &&& self.max == greatest(values)
        &&& self.buckets@.len() == BUCKET_COUNT
        &&& forall|b: int|
            0 <= b < BUCKET_COUNT ==> #[trigger] self.buckets@[b] == in_bucket(values, b as nat)
    }

    /// The histogram is the trace of some sequence of values.
    pub open spec fn wf(&self) -> bool {
        exists|values: Seq<u64>| self.describes(values)
    }

    /// How many values the histogram has taken in.
    pub closed spec fn recorded(&self) -> nat {
        self.count as nat
    }

    /// A histogram of some values has taken in as many as there are.
    pub proof fn lemma_recorded(&self, values: Seq<u64>)
        requires
            self.describes(values),
        ensures
            self.recorded() == values.len(),
    {
    }

    /// Histograms of the same values cannot be told apart: whatever one is a
    /// histogram of, so is the other.
    pub proof fn law_same_values_same_histogram(&self, other: &Self, values: Seq<u64>)
        requires
            self.describes(values),
            other.describes(values),
        ensures
            self.recorded() == other.recorded(),
            forall|any: Seq<u64>| #[trigger] self.describes(any) <==> other.describes(any),
    {
        assert forall|any: Seq<u64>| #[trigger] self.describes(any) <==> other.describes(any) by {
            assert(self.buckets@ =~= other.buckets@);
        }
    }

    /// Creates an empty histogram.
    pub fn new() -> (hist: Self)
        ensures
            hist.describes(Seq::empty()),
            hist.wf(),
    {
        let mut buckets: Vec<u64> = Vec::new();
        buckets.resize(BUCKET_COUNT, 0);
        let hist = Histogram { buckets, count: 0, sum: 0, min: u64::MAX, max: 0 };
        assert(hist.describes(Seq::empty()));
        hist
    }

    /// Records one observation.
    pub fn add(&mut self, value: u64)
        requires
            old(self).wf(),
            old(self).recorded() < u64::MAX,
        ensures
            final(self).wf(),
            forall|values: Seq<u64>| #[trigger]
                old(self).describes(values) ==> final(self).describes(values.push(value)),
    {
        let ghost history = choose|values: Seq<u64>| self.describes(values);
        let bucket: usize = bucket_for(value);
        proof {
            lemma_sum_bound(history);
            lemma_in_bucket_bound(history, bucket as nat);
        }
        self.count = self.count + 1;
        self.sum = self.sum + value as u128;
        if value < self.min {
            self.min = value;
        }
        if value > self.max {
            self.max = value;
        }
        let filled: u64 = self.buckets[bucket];
        self.buckets.set(bucket, filled + 1);
        proof {
            assert forall|values: Seq<u64>| #[trigger] old(self).describes(values) implies self.describes(
                values.push(value),
            ) by {
                assert(values.push(value).drop_last() =~= values);
            }
            assert(self.describes(history.push(value)));
        }
    }

    /// How many values have been recorded.
    pub fn count(&self) -> (n: u64)
        ensures
            n == self.recorded(),
            forall|values: Seq<u64>| #[trigger] self.describes(values) ==> n == values.len(),
    {
        self.count
    }

    /// The smallest value recorded, exactly. `None` if nothing has been added
    /// yet.
    pub fn min(&self) -> (smallest: Option<u64>)
        ensures
            forall|values: Seq<u64>| #[trigger]
                self.describes(values) ==> smallest == if values.len() == 0 {
                    None
                } else {
                    Some(least(values))
                },
    {
        if self.count > 0 {
            Some(self.min)
        } else {
            None
        }
    }

    /// The largest value recorded, exactly. `None` if nothing has been added
    /// yet.
    pub fn max(&self) -> (largest: Option<u64>)
        ensures
            forall|values: Seq<u64>| #[trigger]
                self.describes(values) ==> largest == if values.len() == 0 {
                    None
                } else {
                    Some(greatest(values))
                },
    {
        if self.count > 0 {
            Some(self.max)
        } else {
            None
        }
    }

    /// The exact arithmetic mean of every value recorded, as the fraction of
    /// their sum over their number. `None` if nothing has been added yet.
    pub fn mean(&self) -> (fraction: Option<(u128, u64)>)
        ensures
            forall|values: Seq<u64>| #[trigger]
                self.describes(values) ==> match fraction {
                    None => values.len() == 0,
                    Some((sum, n)) => values.len() > 0 && sum == sum_of(values) && n
                        == values.len(),
                },
    {
        if self.count > 0 {
            Some((self.sum, self.count))
        } else {
            None
        }
    }

    /// An approximate percentile by nearest rank.
    ///
    /// The two ends are the exact least and greatest value rather than a bucket
    /// midpoint. Everything else is the bucket representative of the value with
    /// the given rank: exact for values at or below 16, and off by a little
    /// under 1.6% at most above that. `None` if nothing has been added yet.
    pub fn percentile(&self, at: At) -> (value: Option<u64>)
        requires
            self.wf(),
        ensures
            value is None <==> self.recorded() == 0,
            forall|values: Seq<u64>| #[trigger]
                self.describes(values) ==> is_percentile(value, values, at),
    {
        match at {
            At::Least => self.min(),
            At::Greatest => self.max(),
            At::Rank(rank) => self.percentile_by_rank(rank),
        }
    }

    /// The bucket representative of the `rank`-th smallest value, counting from
    /// 1. A rank outside `1..=count` is taken as the nearest one inside.
    fn percentile_by_rank(&self, rank: u64) -> (value: Option<u64>)
        requires
            self.wf(),
        ensures
            value is None <==> self.recorded() == 0,
            forall|values: Seq<u64>, exact: u64|
                self.describes(values) && #[trigger] has_rank(
                    values,
                    exact,
                    clamp_rank(rank as int, values.len() as int),
                ) ==> value == Some(representative(bucket_of(exact as nat)) as u64),
    {
        if self.count == 0 {
            proof {
                assert forall|values: Seq<u64>, exact: u64|
                    self.describes(values) && #[trigger] has_rank(
                        values,
                        exact,
                        clamp_rank(rank as int, values.len() as int),
                    ) implies false by {
                    reveal_with_fuel(at_most, 1);
                }
            }
            return None;
        }
        let target: u64 = if rank < 1 {
            1
        } else if rank > self.count {
            self.count
        } else {
            rank
        };
        let ghost history = choose|values: Seq<u64>| self.describes(values);
        let mut cumulative: u64 = 0;
        let mut bucket: usize = 0;
        proof {
            lemma_up_to_bucket_zero(history);
        }
        while bucket < BUCKET_COUNT
            invariant
                self.describes(history),
                0 <= bucket <= BUCKET_COUNT,
                1 <= target <= self.count,
                target == clamp_rank(rank as int, self.count as int),
                cumulative == up_to_bucket(history, bucket as int),
                cumulative < target,
            decreases BUCKET_COUNT - bucket,
        {
            proof {
                lemma_up_to_bucket_step(history, bucket as nat);
                lemma_up_to_bucket_bound(history, bucket + 1);
            }
            cumulative = cumulative + self.buckets[bucket];
            if cumulative >= target {
                let value: u64 = value_for_bucket(bucket);
                proof {
                    assert forall|values: Seq<u64>, exact: u64|
                        self.describes(values) && #[trigger] has_rank(
                            values,
                            exact,
                            clamp_rank(rank as int, values.len() as int),
                        ) implies value == representative(bucket_of(exact as nat)) by {
                        lemma_same_buckets(history, values, self.buckets@, bucket as int);
                        lemma_same_buckets(history, values, self.buckets@, bucket + 1);
                        lemma_rank_bucket(values, exact, target as int, bucket as nat);
                    }
                }
                return Some(value);
            }
            bucket = bucket + 1;
        }
        proof {
            lemma_up_to_bucket_all(history);
        }
        None
    }
}

impl Default for Histogram {
    fn default() -> (hist: Self)
        ensures
            hist.describes(Seq::empty()),
            hist.wf(),
    {
        Self::new()
    }
}

/// A rank brought into `1..=count`.
pub open spec fn clamp_rank(rank: int, count: int) -> int {
    if rank < 1 {
        1
    } else if rank > count {
        count
    } else {
        rank
    }
}

/// How many of the values fall into a bucket below the given one.
spec fn up_to_bucket(values: Seq<u64>, bucket: int) -> nat
    decreases values.len(),
{
    if values.len() == 0 {
        0
    } else {
        up_to_bucket(values.drop_last(), bucket) + if bucket_of(values.last() as nat) < bucket {
            1nat
        } else {
            0
        }
    }
}

proof fn lemma_up_to_bucket_zero(values: Seq<u64>)
    ensures
        up_to_bucket(values, 0) == 0,
    decreases values.len(),
{
    if values.len() > 0 {
        lemma_up_to_bucket_zero(values.drop_last());
    }
}

proof fn lemma_up_to_bucket_step(values: Seq<u64>, bucket: nat)
    ensures
        up_to_bucket(values, (bucket + 1) as int) == up_to_bucket(values, bucket as int) + in_bucket(
            values,
            bucket,
        ),
    decreases values.len(),
{
    if values.len() > 0 {
        lemma_up_to_bucket_step(values.drop_last(), bucket);
    }
}

proof fn lemma_up_to_bucket_bound(values: Seq<u64>, bucket: int)
    ensures
        up_to_bucket(values, bucket) <= values.len(),
    decreases values.len(),
{
    if values.len() > 0 {
        lemma_up_to_bucket_bound(values.drop_last(), bucket);
    }
}

proof fn lemma_bucket_in_range(value: u64)
    ensures
        bucket_of(value as nat) < BUCKET_COUNT,
{
    if value >= EXACT_MAX {
        lemma_octave_leading_zeros(value);
        lemma_octave_span(value as nat);
        let e = octave(value as nat);
        let low = octave_start(e);
        assert(0 <= (value - low) * 32 / low as int <= 31) by (nonlinear_arith)
            requires
                low <= value < 2 * low,
        ;
    }
}

proof fn lemma_up_to_bucket_all(values: Seq<u64>)
    ensures
        up_to_bucket(values, BUCKET_COUNT as int) == values.len(),
    decreases values.len(),
{
    if values.len() > 0 {
        lemma_up_to_bucket_all(values.drop_last());
        lemma_bucket_in_range(values.last());
    }
}

proof fn lemma_same_buckets(a: Seq<u64>, b: Seq<u64>, buckets: Seq<u64>, bucket: int)
    requires
        0 <= bucket <= BUCKET_COUNT,
        buckets.len() == BUCKET_COUNT,
        forall|i: int|
            0 <= i < BUCKET_COUNT ==> #[trigger] buckets[i] == in_bucket(a, i as nat) && buckets[i]
                == in_bucket(b, i as nat),
    ensures
        up_to_bucket(a, bucket) == up_to_bucket(b, bucket),
    decreases bucket,
{
    if bucket == 0 {
        lemma_up_to_bucket_zero(a);
        lemma_up_to_bucket_zero(b);
    } else {
        lemma_same_buckets(a, b, buckets, bucket - 1);
        lemma_up_to_bucket_step(a, (bucket - 1) as nat);
        lemma_up_to_bucket_step(b, (bucket - 1) as nat);
        assert(buckets[bucket - 1] == in_bucket(a, (bucket - 1) as nat));
    }
}

proof fn lemma_at_most_within_buckets(values: Seq<u64>, exact: u64)
    ensures
        at_most(values, exact as int) <= up_to_bucket(values, (bucket_of(exact as nat) + 1) as int),
        up_to_bucket(values, bucket_of(exact as nat) as int) <= at_most(values, exact - 1),
    decreases values.len(),
{
    if values.len() > 0 {
        lemma_at_most_within_buckets(values.drop_last(), exact);
        if values.last() <= exact {
            law_buckets_keep_order(values.last() as nat, exact as nat);
        } else {
            law_buckets_keep_order(exact as nat, values.last() as nat);
        }
    }
}

proof fn lemma_up_to_bucket_monotonic(values: Seq<u64>, a: int, b: int)
    requires
        a <= b,
    ensures
        up_to_bucket(values, a) <= up_to_bucket(values, b),
    decreases values.len(),
{
    if values.len() > 0 {
        lemma_up_to_bucket_monotonic(values.drop_last(), a, b);
    }
}

proof fn lemma_rank_bucket(values: Seq<u64>, exact: u64, rank: int, bucket: nat)
    requires
        has_rank(values, exact, rank),
        up_to_bucket(values, bucket as int) < rank <= up_to_bucket(values, (bucket + 1) as int),
    ensures
        bucket_of(exact as nat) == bucket,
{
    lemma_at_most_within_buckets(values, exact);
    let b = bucket_of(exact as nat);
    if b < bucket {
        lemma_up_to_bucket_monotonic(values, (b + 1) as int, bucket as int);
    }
    if b > bucket {
        lemma_up_to_bucket_monotonic(values, (bucket + 1) as int, b as int);
    }
}

/// A larger value never falls into an earlier bucket.
pub proof fn law_buckets_keep_order(a: nat, b: nat)
    requires
        a <= b,
    ensures
        bucket_of(a) <= bucket_of(b),
{
    if b >= EXACT_MAX {
        lemma_octave_span(b);
        let eb = octave(b);
        let lb = octave_start(eb);
        assert(0 <= (b - lb) * 32 / lb as int) by (nonlinear_arith)
            requires
                0 < lb <= b,
        ;
        if a >= EXACT_MAX {
            lemma_octave_span(a);
            lemma_octave_monotonic(a, b);
            let ea = octave(a);
            let la = octave_start(ea);
            assert(0 <= (a - la) * 32 / la as int <= 31) by (nonlinear_arith)
                requires
                    la <= a < 2 * la,
            ;
            if ea == eb {
                assert((a - la) * 32 / la as int <= (b - la) * 32 / la as int)
                    by (nonlinear_arith)
                    requires
                        la <= a <= b,
                        la > 0,
                ;
            }
        }
    }
}

proof fn lemma_octave_monotonic(a: nat, b: nat)
    requires
        a <= b,
    ensures
        octave(a) <= octave(b),
    decreases b,
{
    if a >= 2 * EXACT_MAX {
        lemma_octave_monotonic(a / 2, b / 2);
    }
}

/// Values at or below [`EXACT_MAX`] come back exactly.
pub proof fn law_small_values_are_exact(value: u64)
    requires
        value <= EXACT_MAX,
    ensures
        representative(bucket_of(value as nat)) == value,
{
    law_relative_error_is_bounded(value);
}

/// The value that stands for a bucket is off by at most one 64th, a little
/// under 1.6%, of any value in that bucket.
pub proof fn law_relative_error_is_bounded(value: u64)
    ensures
        64 * (representative(bucket_of(value as nat)) - value) <= value,
        64 * (value - representative(bucket_of(value as nat))) <= value,
{
    if value >= EXACT_MAX {
        lemma_octave_span(value as nat);
        lemma_octave_leading_zeros(value);
        let v = value as int;
        let e = octave(value as nat);
        let low = octave_start(e) as int;
        let sub = (v - low) * 32 / low;
        assert(0 <= sub <= 31) by (nonlinear_arith)
            requires
                low <= v < 2 * low,
                sub == (v - low) * 32 / low,
        ;
        assert((e * 32 + sub) / 32 == e && (e * 32 + sub) % 32 == sub) by (nonlinear_arith)
            requires
                0 <= sub <= 31,
        ;
        let rest = (v - low) * 32 - sub * low;
        assert(0 <= rest < low) by (nonlinear_arith)
            requires
                low > 0,
                sub == (v - low) * 32 / low,
                rest == (v - low) * 32 - sub * low,
        ;
        lemma_half_step(e);
        let bucket = bucket_of(value as nat);
        assert(bucket == 16 + e * 32 + sub);
        assert((bucket - EXACT_MAX) as nat / SUBDIV as nat == e);
        assert((bucket - EXACT_MAX) as nat % SUBDIV as nat == sub);
        assert(representative(bucket) == low + (2 * sub + 1) * low / 64);
        if e < 2 {
            vstd::arithmetic::power2::lemma2_to64();
            assert(low == 16 || low == 32);
            if low == 16 {
                assert(sub == 2 * (v - low)) by (nonlinear_arith)
                    requires
                        low == 16,
                        sub == (v - low) * 32 / low,
                ;
                assert((2 * sub + 1) * low / 64 == v - low) by (nonlinear_arith)
                    requires
                        low == 16,
                        sub == 2 * (v - low),
                ;
            } else {
                assert(sub == v - low) by (nonlinear_arith)
                    requires
                        low == 32,
                        sub == (v - low) * 32 / low,
                ;
                assert((2 * sub + 1) * low / 64 == v - low) by (nonlinear_arith)
                    requires
                        low == 32,
                        sub == v - low,
                ;
            }
        } else {
            let unit = pow2((e - 2) as nat) as int;
            assert((2 * sub + 1) * low / 64 == (2 * sub + 1) * unit) by (nonlinear_arith)
                requires
                    low == 64 * unit,
            ;
            assert((2 * sub + 1) * unit == 2 * (sub * unit) + unit) by (nonlinear_arith);
            assert(sub * low == 64 * (sub * unit)) by (nonlinear_arith)
                requires
                    low == 64 * unit,
            ;
        }
    }
}

proof fn lemma_half_step(e: nat)
    ensures
        e >= 2 ==> octave_start(e) == 64 * pow2((e - 2) as nat),
{
    if e >= 2 {
        vstd::arithmetic::power2::lemma2_to64();
        vstd::arithmetic::power2::lemma_pow2_adds(2, (e - 2) as nat);
    }
}

/// Every rank from 1 up to the number of values is some value's rank.
pub proof fn law_every_rank_is_taken(values: Seq<u64>, rank: int)
    requires
        1 <= rank <= values.len(),
    ensures
        exists|value: u64| has_rank(values, value, rank) && values.contains(value),
{
    lemma_at_most_everything(values);
    lemma_rank_found_below(values, rank, u64::MAX);
}

/// There is one percentile only at a place among some values.
pub proof fn law_one_percentile(a: Option<u64>, b: Option<u64>, values: Seq<u64>, at: At)
    requires
        is_percentile(a, values, at),
        is_percentile(b, values, at),
    ensures
        a == b,
{
    if values.len() > 0 {
        match at {
            At::Rank(rank) => {
                let inside = clamp_rank(rank as int, values.len() as int);
                law_every_rank_is_taken(values, inside);
                let exact = choose|exact: u64|
                    has_rank(values, exact, inside) && values.contains(exact);
                assert(has_rank(values, exact, inside));
            },
            _ => {},
        }
    }
}

proof fn lemma_at_most_everything(values: Seq<u64>)
    ensures
        at_most(values, u64::MAX as int) == values.len(),
    decreases values.len(),
{
    if values.len() > 0 {
        lemma_at_most_everything(values.drop_last());
    }
}

proof fn lemma_at_most_nothing(values: Seq<u64>)
    ensures
        at_most(values, -1) == 0,
    decreases values.len(),
{
    if values.len() > 0 {
        lemma_at_most_nothing(values.drop_last());
    }
}

proof fn lemma_at_most_gap(values: Seq<u64>, value: u64)
    requires
        at_most(values, value - 1) < at_most(values, value as int),
    ensures
        values.contains(value),
    decreases values.len(),
{
    if values.len() > 0 {
        let rest = values.drop_last();
        if values.last() == value {
            assert(values[values.len() - 1] == value);
        } else {
            lemma_at_most_gap(rest, value);
            let i = choose|i: int| 0 <= i < rest.len() && rest[i] == value;
            assert(values[i] == value);
        }
    }
}

proof fn lemma_rank_found_below(values: Seq<u64>, rank: int, bound: u64)
    requires
        1 <= rank <= at_most(values, bound as int),
    ensures
        exists|value: u64| has_rank(values, value, rank) && values.contains(value),
    decreases bound,
{
    if at_most(values, bound - 1) < rank {
        assert(has_rank(values, bound, rank));
        lemma_at_most_gap(values, bound);
    } else if bound == 0 {
        lemma_at_most_nothing(values);
    } else {
        lemma_rank_found_below(values, rank, (bound - 1) as u64);
    }
}

/// `min` and `max` are exact: they are values that were recorded, and every
/// recorded value lies between them.
pub proof fn law_extremes_are_exact(values: Seq<u64>)
    requires
        values.len() > 0,
    ensures
        values.contains(least(values)),
        values.contains(greatest(values)),
        forall|i: int| 0 <= i < values.len() ==> least(values) <= #[trigger] values[i] <= greatest(values),
    decreases values.len(),
{
    let rest = values.drop_last();
    let n = values.len() - 1;
    assert(values[n] == values.last());
    if rest.len() > 0 {
        law_extremes_are_exact(rest);
        let i = choose|i: int| 0 <= i < rest.len() && rest[i] == least(rest);
        let j = choose|j: int| 0 <= j < rest.len() && rest[j] == greatest(rest);
        assert(values[i] == least(rest));
        assert(values[j] == greatest(rest));
        assert forall|k: int| 0 <= k < values.len() implies least(values) <= #[trigger] values[k]
            <= greatest(values) by {
            if k < n {
                assert(rest[k] == values[k]);
            }
        }
    } else {
        assert(least(rest) == u64::MAX && greatest(rest) == 0);
    }
}

proof fn lemma_sum_bound(values: Seq<u64>)
    ensures
        sum_of(values) <= values.len() * u64::MAX,
    decreases values.len(),
{
    if values.len() > 0 {
        lemma_sum_bound(values.drop_last());
    }
}

proof fn lemma_in_bucket_bound(values: Seq<u64>, bucket: nat)
    ensures
        in_bucket(values, bucket) <= values.len(),
    decreases values.len(),
{
    if values.len() > 0 {
        lemma_in_bucket_bound(values.drop_last(), bucket);
    }
}

/// The sum adds up every value.
pub proof fn law_sum_adds_every_value(values: Seq<u64>)
    ensures
        sum_of(values) == values.fold_left(0int, |total: int, value: u64| total + value),
    decreases values.len(),
{
    if values.len() > 0 {
        law_sum_adds_every_value(values.drop_last());
    }
}

/// Ranks go by how many values are no larger.
pub proof fn law_ranks_count_values(values: Seq<u64>, bound: int)
    ensures
        at_most(values, bound) == values.filter(|value: u64| value <= bound).len(),
    decreases values.len(),
{
    reveal(Seq::filter);
    if values.len() > 0 {
        law_ranks_count_values(values.drop_last(), bound);
    }
}

/// A percentile at a rank is off by at most one 64th of a recorded value that has
/// that rank: fewer values than the rank are smaller, and at least as many are no
/// larger. Ranks outside the values are taken as the nearest one inside.
pub proof fn law_percentiles_are_near_their_rank(
    value: Option<u64>,
    values: Seq<u64>,
    rank: u64,
) -> (exact: u64)
    requires
        values.len() > 0,
        is_percentile(value, values, At::Rank(rank)),
    ensures
        value is Some,
        values.contains(exact),
        ({
            let place = if rank == 0 {
                1
            } else if rank > values.len() {
                values.len() as int
            } else {
                rank as int
            };
            &&& values.filter(|v: u64| v <= exact - 1).len() < place
            &&& place <= values.filter(|v: u64| v <= exact).len()
        }),
        64 * (value->0 - exact) <= exact,
        64 * (exact - value->0) <= exact,
{
    let place = clamp_rank(rank as int, values.len() as int);
    law_every_rank_is_taken(values, place);
    let found = choose|found: u64| has_rank(values, found, place) && values.contains(found);
    assert(has_rank(values, found, clamp_rank(rank as int, values.len() as int)));
    lemma_percentile_at_rank(value, values, At::Rank(rank), found);
    law_ranks_count_values(values, found - 1);
    law_ranks_count_values(values, found as int);
    law_relative_error_is_bounded(found);
    lemma_standing_value_fits(found);
    found
}

proof fn lemma_percentile_at_rank(value: Option<u64>, values: Seq<u64>, at: At, exact: u64)
    requires
        values.len() > 0,
        is_percentile(value, values, at),
        at is Rank,
        has_rank(values, exact, clamp_rank(at->Rank_0 as int, values.len() as int)),
    ensures
        value == Some(representative(bucket_of(exact as nat)) as u64),
{
    match at {
        At::Rank(rank) => {
            assert(has_rank(values, exact, clamp_rank(rank as int, values.len() as int)));
        },
        _ => {},
    }
}

proof fn lemma_standing_value_fits(value: u64)
    ensures
        representative(bucket_of(value as nat)) <= u64::MAX,
{
    law_relative_error_is_bounded(value);
    if value >= EXACT_MAX {
        lemma_octave_leading_zeros(value);
        lemma_octave_span(value as nat);
        let low = octave_start(octave(value as nat)) as int;
        let sub = (value - low) * 32 / low;
        assert(0 <= sub <= 31) by (nonlinear_arith)
            requires
                low <= value < 2 * low,
                sub == (value - low) * 32 / low,
        ;
        lemma_representative_fits(bucket_of(value as nat));
    }
}

/// The percentiles at the two ends are the smallest and the largest value.
pub proof fn law_end_percentiles_are_exact(low: Option<u64>, high: Option<u64>, values: Seq<u64>)
    requires
        values.len() > 0,
        is_percentile(low, values, At::Least),
        is_percentile(high, values, At::Greatest),
    ensures
        low is Some && values.contains(low->0),
        high is Some && values.contains(high->0),
        forall|i: int| 0 <= i < values.len() ==> low->0 <= #[trigger] values[i] <= high->0,
{
    law_extremes_are_exact(values);
}

proof fn lemma_octave_of(value: nat, e: nat)
    requires
        16 * pow2(e) <= value < 32 * pow2(e),
    ensures
        octave(value) == e,
    decreases e,
{
    vstd::arithmetic::power2::lemma_pow2_pos(e);
    vstd::arithmetic::power2::lemma2_to64();
    if e > 0 {
        vstd::arithmetic::power2::lemma_pow2_unfold(e);
        lemma_octave_of(value / 2, (e - 1) as nat);
        let half = pow2((e - 1) as nat);
        vstd::arithmetic::power2::lemma_pow2_pos((e - 1) as nat);
        assert(value >= 32);
    }
}

/// A bucket holds a run of values, and what stands for it is the middle of that
/// run. From 32 on, a run is the 32nd part of the power of two below its values.
pub proof fn law_buckets_are_runs_around_their_middle(value: u64) -> (run: (nat, nat))
    ensures
        run.0 <= value < run.0 + run.1,
        forall|other: nat|
            bucket_of(other) == bucket_of(value as nat) <==> run.0 <= #[trigger] ident(other)
                < run.0 + run.1,
        representative(bucket_of(value as nat)) == run.0 + run.1 / 2,
        value < 32 ==> run.1 == 1,
        value >= 32 ==> exists|k: nat|
            32 * #[trigger] pow2(k) <= value < 64 * pow2(k) && run.1 == pow2(k),
{
    let v = value as nat;
    if v < 32 {
        lemma_low_buckets(v);
        (v, 1)
    } else {
        let e = octave(v);
        let k = (e - 1) as nat;
        let w = pow2(k);
        let low = octave_start(e);
        lemma_octave_span(v);
        vstd::arithmetic::power2::lemma_pow2_unfold(e);
        vstd::arithmetic::power2::lemma_pow2_pos(k);
        assert(low == 32 * w);
        let sub = ((v - low) / w as int) as nat;
        lemma_sub_of(v, low, w);
        assert(0 <= sub < 32 && low + sub * w <= v < low + sub * w + w) by (nonlinear_arith)
            requires
                low <= v < 2 * low,
                low == 32 * w,
                sub == (v - low) / w as int,
                w > 0,
        ;
        let from = low + sub * w;
        assert(bucket_of(v) == 16 + e * 32 + sub);
        assert forall|other: nat|
            bucket_of(other) == bucket_of(v) <==> from <= #[trigger] ident(other) < from + w by {
            lemma_same_bucket(other, e, low, w, sub);
        }
        assert((e * 32 + sub) / 32 == e && (e * 32 + sub) % 32 == sub) by (nonlinear_arith)
            requires
                0 <= sub < 32,
        ;
        assert((2 * sub + 1) * low / 64 == sub * w + w / 2) by (nonlinear_arith)
            requires
                low == 32 * w,
        ;
        assert(32 * pow2(k) <= v < 64 * pow2(k) && w == pow2(k));
        (from, w)
    }
}

/// A number, as itself.
pub open spec fn ident(n: nat) -> nat {
    n
}

proof fn lemma_sub_of(v: nat, low: nat, w: nat)
    requires
        low <= v,
        low == 32 * w,
        w > 0,
    ensures
        (v - low) * 32 / low as int == (v - low) / w as int,
{
    let d = v - low;
    assert(d * 32 / (32 * w as int) == d / w as int) by {
        vstd::arithmetic::div_mod::lemma_truncate_middle(d, w as int, 32);
        vstd::arithmetic::div_mod::lemma_div_denominator(d * 32, 32, w as int);
        vstd::arithmetic::div_mod::lemma_div_by_multiple(d, 32);
    }
}

proof fn lemma_same_bucket(other: nat, e: nat, low: nat, w: nat, sub: nat)
    requires
        e >= 1,
        low == octave_start(e),
        low == 32 * w,
        w > 0,
        sub < 32,
    ensures
        bucket_of(other) == 16 + e * 32 + sub <==> low + sub * w <= other < low + sub * w + w,
{
    assert(sub * w + w <= 32 * w) by (nonlinear_arith)
        requires
            sub < 32,
            w > 0,
    ;
    if low <= other < 2 * low {
        lemma_octave_of(other, e);
        lemma_sub_of(other, low, w);
        let own = (other - low) / w as int;
        assert(own == sub <==> sub * w <= other - low < sub * w + w) by (nonlinear_arith)
            requires
                own == (other - low) / w as int,
                w > 0,
                other >= low,
        ;
    } else if other >= 16 {
        lemma_octave_span(other);
        let f = octave(other);
        let start = octave_start(f);
        assert(f != e);
        let own = (other - start) * 32 / start as int;
        assert(0 <= own < 32) by (nonlinear_arith)
            requires
                start <= other < 2 * start,
                own == (other - start) * 32 / start as int,
        ;
        assert(f * 32 + own != e * 32 + sub);
    }
}

proof fn lemma_low_buckets(v: nat)
    requires
        v < 32,
    ensures
        representative(bucket_of(v)) == v,
        forall|other: nat|
            bucket_of(other) == bucket_of(v) <==> v <= #[trigger] ident(other) < v + 1,
{
    vstd::arithmetic::power2::lemma2_to64();
    law_relative_error_is_bounded(v as u64);
    assert forall|other: nat|
        bucket_of(other) == bucket_of(v) <==> v <= #[trigger] ident(other) < v + 1 by {
        if other >= 32 {
            lemma_octave_span(other);
            let f = octave(other);
            let start = octave_start(f);
            assert(0 <= (other - start) * 32 / start as int) by (nonlinear_arith)
                requires
                    0 < start <= other,
            ;
            assert(f >= 1);
        }
    }
}

} // verus!
