//! The weighted aggregate of the price feeds registered for one token and currency.
use vstd::prelude::*;
use crate::interval::PriceAggregated;
use crate::price::{trunc_div, FEED_FRESHNESS};

verus! {

/// The time and amount of one price feed.
#[derive(Clone, Copy, Debug, PartialEq, Eq, Structural)]
pub struct FeedPoint {
    pub time: i64,
    pub amount: i64,
}

/// An oracle registered for a pair: its weight and its latest feed, if it has one.
#[derive(Clone, Copy, Debug, PartialEq, Eq, Structural)]
pub struct FeedEntry {
    pub weightage: u8,
    pub latest: Option<FeedPoint>,
}

/// Whether an oracle takes part in the aggregate at `block_time`: it has a
/// weight and a feed less than an hour away from the block time.
pub open spec fn qualifies(e: FeedEntry, block_time: i64) -> bool {
    e.weightage > 0 && match e.latest {
        Some(p) => block_time - p.time < FEED_FRESHNESS && p.time - block_time
            < FEED_FRESHNESS,
        None => false,
    }
}

pub open spec fn weight_sum(es: Seq<FeedEntry>, t: i64) -> int
    decreases es.len(),
{
    if es.len() == 0 {
        0
    } else {
        weight_sum(es.drop_last(), t) + if qualifies(es.last(), t) {
            es.last().weightage as int
        } else {
            0
        }
    }
}

pub open spec fn weighted_total(es: Seq<FeedEntry>, t: i64) -> int
    decreases es.len(),
{
    if es.len() == 0 {
        0
    } else {
        weighted_total(es.drop_last(), t) + if qualifies(es.last(), t) {
            es.last().weightage as int * es.last().latest.unwrap().amount as int
        } else {
            0
        }
    }
}

pub open spec fn active_count(es: Seq<FeedEntry>, t: i64) -> int
    decreases es.len(),
{
    if es.len() == 0 {
        0
    } else {
        active_count(es.drop_last(), t) + if qualifies(es.last(), t) {
            1int
        } else {
            0
        }
    }
}

pub open spec fn saturate_i32(x: int) -> i32 {
    if x > i32::MAX {
        i32::MAX
    } else {
        x as i32
    }
}

/// The aggregate of the entries at `block_time`: the weighted mean amount of
/// the qualifying oracles, their weight and number, and the number of
/// registered oracles. None when no oracle qualifies.
pub open spec fn aggregate_of(es: Seq<FeedEntry>, t: i64) -> Option<PriceAggregated> {
    if weight_sum(es, t) == 0 {
        None
    } else {
        Some(
            PriceAggregated {
                amount: trunc_div(weighted_total(es, t), weight_sum(es, t)) as i64,
                weightage: saturate_i32(weight_sum(es, t)),
                active: saturate_i32(active_count(es, t)),
                total: saturate_i32(es.len() as int),
            },
        )
    }
}

proof fn lemma_sums_bounded(es: Seq<FeedEntry>, t: i64)
    ensures
        0 <= active_count(es, t) <= es.len(),
        0 <= weight_sum(es, t) <= 255 * active_count(es, t),
        (active_count(es, t) == 0) == (weight_sum(es, t) == 0),
        i64::MIN * weight_sum(es, t) <= weighted_total(es, t) <= i64::MAX * weight_sum(es, t),
    decreases es.len(),
{
    if es.len() > 0 {
        lemma_sums_bounded(es.drop_last(), t);
        let e = es.last();
        if qualifies(e, t) {
            let a = e.latest.unwrap().amount as int;
            let w = e.weightage as int;
            assert(i64::MIN * w <= w * a <= i64::MAX * w) by (nonlinear_arith)
                requires
                    0 <= w,
                    i64::MIN <= a <= i64::MAX,
            ;
        }
    }
}

/// Computes the aggregate of the price feeds of the oracles registered for a pair.
pub fn aggregate_prices(entries: &Vec<FeedEntry>, block_time: i64) -> (r: Option<PriceAggregated>)
    requires
        entries.len() <= u32::MAX,
    ensures
        r == aggregate_of(entries@, block_time),
{
    let mut total: i128 = 0;
    let mut weight: u64 = 0;
    let mut count: u64 = 0;
    let mut i: usize = 0;
    while i < entries.len()
        invariant
            entries.len() <= u32::MAX,
            i <= entries.len(),
            total == weighted_total(entries@.take(i as int), block_time),
            weight == weight_sum(entries@.take(i as int), block_time),
            count == active_count(entries@.take(i as int), block_time),
        decreases entries.len() - i,
    {
        let e = entries[i];
        proof {
            assert(entries@.take(i + 1).drop_last() =~= entries@.take(i as int));
            lemma_sums_bounded(entries@.take(i as int), block_time);
        }
        match e.latest {
            Some(p) => {
                let amount = p.amount;
                let age = block_time as i128 - p.time as i128;
                if e.weightage > 0 && age < FEED_FRESHNESS as i128 && -age < FEED_FRESHNESS as i128 {
                    proof {
                        let w = e.weightage as int;
                        assert(i64::MIN * w <= w * amount <= i64::MAX * w) by (nonlinear_arith)
                            requires
                                0 <= w <= 255,
                                i64::MIN <= amount <= i64::MAX,
                        ;
                        assert(i64::MIN * weight <= total <= i64::MAX * weight);
                        assert(weight <= 255 * i) by (nonlinear_arith)
                            requires
                                weight <= 255 * count,
                                count <= i,
                        ;
                        assert(i64::MIN * weight >= i64::MIN * (255 * 0x1_0000_0000)) by (nonlinear_arith)
                            requires
                                0 <= weight <= 255 * 0x1_0000_0000,
                        ;
                        assert(i64::MAX * weight <= i64::MAX * (255 * 0x1_0000_0000)) by (nonlinear_arith)
                            requires
                                0 <= weight <= 255 * 0x1_0000_0000,
                        ;
                    }
                    total = total + (e.weightage as i128) * (amount as i128);
                    weight = weight + e.weightage as u64;
                    count = count + 1;
                }
            },
            None => {},
        }
        i = i + 1;
    }
    proof {
        assert(entries@.take(entries.len() as int) =~= entries@);
        lemma_sums_bounded(entries@, block_time);
    }
    if weight == 0 {
        return None;
    }
    proof {
        crate::price::lemma_trunc_div_fits(total as int, weight as int);
    }
    let amount: i128 = if total >= 0 {
        total / (weight as i128)
    } else {
        -((-total) / (weight as i128))
    };
    let len = entries.len() as u64;
    Some(
        PriceAggregated {
            amount: amount as i64,
            weightage: if weight > i32::MAX as u64 {
                i32::MAX
            } else {
                weight as i32
            },
            active: if count > i32::MAX as u64 {
                i32::MAX
            } else {
                count as i32
            },
            total: if len > i32::MAX as u64 {
                i32::MAX
            } else {
                len as i32
            },
        },
    )
}

} // verus!
