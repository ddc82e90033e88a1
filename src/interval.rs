//! Interval buckets: running means of price aggregates over 15 minute, one
//! hour and one day windows.
use vstd::prelude::*;
use crate::price::{
    backward_aggregate_number, backward_aggregate_value, backward_mean, clamp_i64,
    fits_i32, forward_aggregate_number, forward_aggregate_value, forward_mean,
};

verus! {

/// The window lengths of interval buckets.
#[derive(Clone, Copy, Debug, PartialEq, Eq, Structural)]
pub enum OracleIntervalSeconds {
    FifteenMinutes,
    OneHour,
    OneDay,
}

impl OracleIntervalSeconds {
    pub open spec fn spec_seconds(self) -> i64 {
        match self {
            OracleIntervalSeconds::FifteenMinutes => 900,
            OracleIntervalSeconds::OneHour => 3600,
            OracleIntervalSeconds::OneDay => 86400,
        }
    }

    pub fn seconds(&self) -> (r: i64)
        ensures
            r == self.spec_seconds(),
    {
        match self {
            OracleIntervalSeconds::FifteenMinutes => 900,
            OracleIntervalSeconds::OneHour => 3600,
            OracleIntervalSeconds::OneDay => 86400,
        }
    }
}

/// The weighted aggregate of the price feeds of one token and currency at one block.
#[derive(Clone, Copy, Debug, PartialEq, Eq, Structural)]
pub struct PriceAggregated {
    /// Weighted mean amount, in units of 10^-8.
    pub amount: i64,
    /// Sum of the weights of the oracles that took part.
    pub weightage: i32,
    /// Number of oracles that took part.
    pub active: i32,
    /// Number of oracles registered for the pair.
    pub total: i32,
}

impl PriceAggregated {
    /// The aggregated amount as canonical eight-digit decimal text.
    pub fn amount_text(&self) -> (r: String)
        ensures
            r@ == crate::price::decimal_text_of(self.amount as int),
    {
        crate::price::amount_text(self.amount)
    }
}

/// The running mean held by an interval bucket.
#[derive(Clone, Copy, Debug, PartialEq, Eq, Structural)]
pub struct IntervalAggregated {
    pub amount: i64,
    pub weightage: i32,
    /// Number of aggregates the bucket has absorbed.
    pub count: i32,
    pub active: i32,
    pub total: i32,
}

/// One interval bucket, opened at the block with the given height and median time.
#[derive(Clone, Copy, Debug, PartialEq, Eq, Structural)]
pub struct OraclePriceAggregatedInterval {
    pub height: u32,
    pub median_time: i64,
    pub aggregated: IntervalAggregated,
}

/// A bucket's running mean as opened by a single aggregate.
pub open spec fn opened(a: PriceAggregated) -> IntervalAggregated {
    IntervalAggregated {
        amount: a.amount,
        weightage: a.weightage,
        count: 1,
        active: a.active,
        total: a.total,
    }
}

/// The running mean after absorbing one more aggregate.
pub open spec fn absorbed(b: IntervalAggregated, a: PriceAggregated) -> IntervalAggregated {
    IntervalAggregated {
        amount: forward_mean(b.amount as int, a.amount as int, b.count as int) as i64,
        weightage: forward_mean(b.weightage as int, a.weightage as int, b.count as int) as i32,
        count: (b.count + 1) as i32,
        active: forward_mean(b.active as int, a.active as int, b.count as int) as i32,
        total: forward_mean(b.total as int, a.total as int, b.count as int) as i32,
    }
}

/// The backward step on a 32-bit field: 0 when the mean leaves the `i32` range.
pub open spec fn backward_number(m: i32, x: i32, n: i32) -> i32 {
    let r = backward_mean(m as int, x as int, n as int);
    if fits_i32(r) {
        r as i32
    } else {
        0
    }
}

/// The running mean after one absorbed aggregate leaves it (count at least 2).
pub open spec fn released(b: IntervalAggregated, a: PriceAggregated) -> IntervalAggregated {
    IntervalAggregated {
        amount: clamp_i64(backward_mean(b.amount as int, a.amount as int, b.count as int)) as i64,
        weightage: backward_number(b.weightage, a.weightage, b.count),
        count: (b.count - 1) as i32,
        active: backward_number(b.active, a.active, b.count),
        total: backward_number(b.total, a.total, b.count),
    }
}

/// Whether a block at `median_time` opens a new bucket after `buckets`.
pub open spec fn opens_bucket(
    buckets: Seq<OraclePriceAggregatedInterval>,
    median_time: i64,
    interval: OracleIntervalSeconds,
) -> bool {
    buckets.len() == 0 || median_time - buckets.last().median_time > interval.spec_seconds()
        || buckets.last().aggregated.count < 1 || buckets.last().aggregated.count == i32::MAX
}

/// The buckets after an aggregate of the block (`height`, `median_time`) is indexed.
pub open spec fn indexed_buckets(
    buckets: Seq<OraclePriceAggregatedInterval>,
    height: u32,
    median_time: i64,
    a: PriceAggregated,
    interval: OracleIntervalSeconds,
) -> Seq<OraclePriceAggregatedInterval> {
    if opens_bucket(buckets, median_time, interval) {
        buckets.push(
            OraclePriceAggregatedInterval { height, median_time, aggregated: opened(a) },
        )
    } else {
        buckets.update(
            buckets.len() - 1,
            OraclePriceAggregatedInterval {
                aggregated: absorbed(buckets.last().aggregated, a),
                ..buckets.last()
            },
        )
    }
}

/// The buckets after an indexed aggregate is invalidated: a bucket that holds
/// only that aggregate goes, otherwise the aggregate leaves the latest bucket.
pub open spec fn invalidated_buckets(
    buckets: Seq<OraclePriceAggregatedInterval>,
    a: PriceAggregated,
) -> Seq<OraclePriceAggregatedInterval> {
    if buckets.len() == 0 {
        buckets
    } else if buckets.last().aggregated.count <= 1 {
        buckets.drop_last()
    } else {
        buckets.update(
            buckets.len() - 1,
            OraclePriceAggregatedInterval {
                aggregated: released(buckets.last().aggregated, a),
                ..buckets.last()
            },
        )
    }
}

fn absorb(b: IntervalAggregated, a: PriceAggregated) -> (r: IntervalAggregated)
    requires
        1 <= b.count < i32::MAX,
    ensures
        r == absorbed(b, a),
{
    IntervalAggregated {
        amount: forward_aggregate_value(b.amount, a.amount, b.count),
        weightage: forward_aggregate_number(b.weightage, a.weightage, b.count),
        count: b.count + 1,
        active: forward_aggregate_number(b.active, a.active, b.count),
        total: forward_aggregate_number(b.total, a.total, b.count),
    }
}

fn release(b: IntervalAggregated, a: PriceAggregated) -> (r: IntervalAggregated)
    requires
        b.count >= 2,
    ensures
        r == released(b, a),
{
    let n = b.count as u32;
    IntervalAggregated {
        amount: backward_aggregate_value(b.amount, a.amount, n),
        weightage: backward_aggregate_number(b.weightage, a.weightage, n),
        count: b.count - 1,
        active: backward_aggregate_number(b.active, a.active, n),
        total: backward_aggregate_number(b.total, a.total, n),
    }
}

/// Folds an aggregate into the latest bucket of an interval, or opens a new
/// bucket when there is none or the window of the latest one has passed.
pub fn index_interval_mapper(
    buckets: &mut Vec<OraclePriceAggregatedInterval>,
    height: u32,
    median_time: i64,
    aggregated: PriceAggregated,
    interval: OracleIntervalSeconds,
)
    ensures
        final(buckets)@ == indexed_buckets(old(buckets)@, height, median_time, aggregated, interval),
{
    let len = buckets.len();
    if len > 0 {
        let last = buckets[len - 1];
        let elapsed = median_time as i128 - last.median_time as i128;
        if elapsed <= interval.seconds() as i128 && last.aggregated.count >= 1
            && last.aggregated.count < i32::MAX {
            let folded = OraclePriceAggregatedInterval {
                aggregated: absorb(last.aggregated, aggregated),
                ..last
            };
            buckets.set(len - 1, folded);
            return;
        }
    }
    buckets.push(
        OraclePriceAggregatedInterval {
            height,
            median_time,
            aggregated: IntervalAggregated {
                amount: aggregated.amount,
                weightage: aggregated.weightage,
                count: 1,
                active: aggregated.active,
                total: aggregated.total,
            },
        },
    );
}

/// Takes an indexed aggregate back out of the latest bucket of an interval,
/// deleting the bucket when it held that aggregate alone. Returns false when
/// the interval has no bucket.
pub fn invalidate_oracle_interval(
    buckets: &mut Vec<OraclePriceAggregatedInterval>,
    aggregated: PriceAggregated,
) -> (r: bool)
    ensures
        r == (old(buckets)@.len() > 0),
        final(buckets)@ == invalidated_buckets(old(buckets)@, aggregated),
{
    let len = buckets.len();
    if len == 0 {
        return false;
    }
    let last = buckets[len - 1];
    if last.aggregated.count <= 1 {
        buckets.pop();
        proof {
            assert(buckets@ =~= old(buckets)@.drop_last());
        }
    } else {
        let restored = OraclePriceAggregatedInterval {
            aggregated: release(last.aggregated, aggregated),
            ..last
        };
        buckets.set(len - 1, restored);
    }
    true
}

/// Absorbing an aggregate into a bucket and then invalidating it gives back
/// the bucket's count exactly and each mean to within one unit (exactly where
/// the forward division had no remainder).
pub proof fn lemma_absorb_release(b: IntervalAggregated, a: PriceAggregated)
    requires
        1 <= b.count < i32::MAX,
        i32::MIN < b.weightage < i32::MAX,
        i32::MIN < b.active < i32::MAX,
        i32::MIN < b.total < i32::MAX,
    ensures
        released(absorbed(b, a), a).count == b.count,
        b.amount - 1 <= released(absorbed(b, a), a).amount <= b.amount + 1,
        b.weightage - 1 <= released(absorbed(b, a), a).weightage <= b.weightage + 1,
        b.active - 1 <= released(absorbed(b, a), a).active <= b.active + 1,
        b.total - 1 <= released(absorbed(b, a), a).total <= b.total + 1,
        (b.amount * b.count + a.amount) % (b.count + 1) == 0 ==> released(absorbed(b, a), a).amount
            == b.amount,
{
    let n = b.count as int;
    crate::price::lemma_forward_mean_fits(b.amount as int, a.amount as int, n, i64::MIN as int, i64::MAX as int);
    crate::price::lemma_forward_mean_fits(b.weightage as int, a.weightage as int, n, i32::MIN as int, i32::MAX as int);
    crate::price::lemma_forward_mean_fits(b.active as int, a.active as int, n, i32::MIN as int, i32::MAX as int);
    crate::price::lemma_forward_mean_fits(b.total as int, a.total as int, n, i32::MIN as int, i32::MAX as int);
    crate::price::lemma_forward_backward_mean(b.amount as int, a.amount as int, n);
    crate::price::lemma_forward_backward_mean(b.weightage as int, a.weightage as int, n);
    crate::price::lemma_forward_backward_mean(b.active as int, a.active as int, n);
    crate::price::lemma_forward_backward_mean(b.total as int, a.total as int, n);
}

/// Indexing an aggregate into an interval and invalidating it again gives back
/// the bucket list: exactly when it opened a bucket, and otherwise with the
/// latest bucket's count restored and each mean within one unit.
pub proof fn lemma_index_invalidate(
    buckets: Seq<OraclePriceAggregatedInterval>,
    height: u32,
    median_time: i64,
    a: PriceAggregated,
    interval: OracleIntervalSeconds,
)
    requires
        buckets.len() > 0 ==> {
            let b = buckets.last().aggregated;
            &&& i32::MIN < b.weightage < i32::MAX
            &&& i32::MIN < b.active < i32::MAX
            &&& i32::MIN < b.total < i32::MAX
        },
    ensures
        ({
            let after = invalidated_buckets(
                indexed_buckets(buckets, height, median_time, a, interval),
                a,
            );
            &&& after.len() == buckets.len()
            &&& opens_bucket(buckets, median_time, interval) ==> after == buckets
            &&& !opens_bucket(buckets, median_time, interval) ==> {
                let (x, y) = (after.last(), buckets.last());
                &&& after.drop_last() == buckets.drop_last()
                &&& x.height == y.height && x.median_time == y.median_time
                &&& x.aggregated.count == y.aggregated.count
                &&& y.aggregated.amount - 1 <= x.aggregated.amount <= y.aggregated.amount + 1
                &&& y.aggregated.weightage - 1 <= x.aggregated.weightage <= y.aggregated.weightage + 1
                &&& y.aggregated.active - 1 <= x.aggregated.active <= y.aggregated.active + 1
                &&& y.aggregated.total - 1 <= x.aggregated.total <= y.aggregated.total + 1
            }
        }),
{
    let mid = indexed_buckets(buckets, height, median_time, a, interval);
    if opens_bucket(buckets, median_time, interval) {
        assert(mid.drop_last() =~= buckets);
    } else {
        let b = buckets.last().aggregated;
        lemma_absorb_release(b, a);
        let after = invalidated_buckets(mid, a);
        assert(after.drop_last() =~= buckets.drop_last());
    }
}

} // verus!
