use ain_chain::aggregate::{aggregate_prices, FeedEntry, FeedPoint};
use ain_chain::interval::{
    index_interval_mapper, invalidate_oracle_interval, IntervalAggregated,
    OraclePriceAggregatedInterval, OracleIntervalSeconds, PriceAggregated,
};
use ain_chain::oracle::{
    AppointOracle, BlockContext, Context, IndexerError, OracleIndex, PriceFeedsItem, RemoveOracle,
    SetOracleData, TokenAmount, TokenPrice, UpdateOracle,
};
use ain_chain::price::{
    backward_aggregate_number, backward_aggregate_value, forward_aggregate_number,
    forward_aggregate_value,
};

const UNIT: i64 = 100_000_000;

fn ctx(txid: u8, height: u32, time: i64) -> Context {
    Context {
        block: BlockContext { hash: vec![height as u8; 32], height, time, median_time: time },
        txid: vec![txid; 32],
    }
}

fn pair(token: &str, currency: &str) -> PriceFeedsItem {
    PriceFeedsItem { token: token.to_string(), currency: currency.to_string() }
}

fn appoint(index: &mut OracleIndex, id: u8, weightage: u8, height: u32) {
    let ev = AppointOracle { script: vec![0x51], weightage, price_feeds: vec![pair("DFI", "USD")] };
    ev.index(index, &ctx(id, height, 0));
}

fn submit(index: &mut OracleIndex, oracle: u8, txid: u8, height: u32, time: i64, amount: i64) -> SetOracleData {
    let ev = SetOracleData {
        oracle_id: vec![oracle; 32],
        timestamp: time,
        token_prices: vec![TokenPrice {
            token: "DFI".to_string(),
            prices: vec![TokenAmount { currency: "USD".to_string(), amount }],
        }],
    };
    ev.index(index, &ctx(txid, height, time)).unwrap();
    ev
}

fn buckets(index: &OracleIndex, secs: u32) -> Vec<OraclePriceAggregatedInterval> {
    index
        .intervals
        .get(&("DFI".to_string(), "USD".to_string(), secs))
        .cloned()
        .unwrap_or_default()
}

#[test]
fn weighted_aggregate_of_two_oracles() {
    let mut index = OracleIndex::new();
    appoint(&mut index, 1, 1, 1);
    appoint(&mut index, 2, 3, 1);
    submit(&mut index, 1, 11, 5, 1000, 10 * UNIT);
    submit(&mut index, 2, 12, 5, 1000, 20 * UNIT);
    let agg = *index.aggregated.get(&("DFI".to_string(), "USD".to_string(), 5)).unwrap();
    assert_eq!(agg.amount, 1_750_000_000);
    assert_eq!(agg.active, 2);
    assert_eq!(agg.total, 2);
    assert_eq!(agg.weightage, 4);
    assert_eq!(agg.amount_text(), "17.50000000");
    let tickers = index.tickers.get(&("DFI".to_string(), "USD".to_string())).unwrap();
    assert_eq!(tickers.len(), 2);
    let ticker = tickers.last().unwrap();
    assert_eq!(ticker.total, 2);
    assert_eq!(ticker.height, 5);
}

#[test]
fn interval_rollover_and_invalidation() {
    let mut index = OracleIndex::new();
    appoint(&mut index, 1, 1, 1);
    appoint(&mut index, 2, 3, 1);
    submit(&mut index, 1, 11, 5, 1000, 10 * UNIT);
    submit(&mut index, 2, 12, 5, 1000, 20 * UNIT);
    // one aggregate per event: the block above gave the 15m bucket two
    let before = buckets(&index, 900);
    assert_eq!(before.len(), 1);
    assert_eq!(before[0].aggregated.count, 2);
    submit(&mut index, 1, 13, 6, 1600, 10 * UNIT);
    let absorbed = buckets(&index, 900);
    assert_eq!(absorbed.len(), 1);
    assert_eq!(absorbed[0].aggregated.count, 3);
    assert_eq!(absorbed[0].median_time, 1000);
    let last = submit(&mut index, 2, 14, 7, 3000, 20 * UNIT);
    let opened = buckets(&index, 900);
    assert_eq!(opened.len(), 2);
    assert_eq!(opened[1].aggregated.count, 1);
    assert_eq!(opened[1].median_time, 3000);
    let tickers_before = index.tickers.get(&("DFI".to_string(), "USD".to_string())).unwrap().len();
    last.invalidate(&mut index, &ctx(14, 7, 3000));
    let tickers_after = index.tickers.get(&("DFI".to_string(), "USD".to_string())).unwrap();
    assert_eq!(tickers_after.len(), tickers_before - 1);
    assert_eq!(tickers_after.last().unwrap().height, 6);
    let after = buckets(&index, 900);
    assert_eq!(after.len(), 1);
    assert_eq!(after[0], absorbed[0]);
    assert!(index.aggregated.get(&("DFI".to_string(), "USD".to_string(), 7)).is_none());
}

#[test]
fn stale_and_weightless_oracles_do_not_count() {
    let mut index = OracleIndex::new();
    appoint(&mut index, 1, 1, 1);
    appoint(&mut index, 2, 0, 1);
    appoint(&mut index, 3, 2, 1);
    submit(&mut index, 2, 21, 2, 5000, 50 * UNIT);
    submit(&mut index, 3, 22, 2, 1000, 40 * UNIT);
    submit(&mut index, 1, 23, 3, 5000, 30 * UNIT);
    let agg = *index.aggregated.get(&("DFI".to_string(), "USD".to_string(), 3)).unwrap();
    assert_eq!(agg.amount, 30 * UNIT);
    assert_eq!(agg.active, 1);
    assert_eq!(agg.total, 3);
}

#[test]
fn update_and_remove_oracle_rows() {
    let mut index = OracleIndex::new();
    appoint(&mut index, 1, 1, 1);
    let key = |t: &str, c: &str| (t.to_string(), c.to_string(), vec![1u8; 32]);
    assert!(index.token_currency.get(&key("DFI", "USD")).is_some());
    let up = UpdateOracle {
        oracle_id: vec![1; 32],
        script: vec![0x52],
        weightage: 5,
        price_feeds: vec![pair("BTC", "USD")],
    };
    up.index(&mut index, &ctx(9, 2, 0)).unwrap();
    assert!(index.token_currency.get(&key("DFI", "USD")).is_none());
    assert_eq!(index.token_currency.get(&key("BTC", "USD")).unwrap().weightage, 5);
    assert_eq!(index.oracles.get(&vec![1u8; 32]).unwrap().weightage, 5);
    up.invalidate(&mut index, &ctx(9, 2, 0)).unwrap();
    assert!(index.token_currency.get(&key("BTC", "USD")).is_none());
    assert_eq!(index.token_currency.get(&key("DFI", "USD")).unwrap().weightage, 1);
    assert_eq!(index.oracles.get(&vec![1u8; 32]).unwrap().weightage, 1);
    let rm = RemoveOracle { oracle_id: vec![1; 32] };
    rm.index(&mut index, &ctx(10, 3, 0)).unwrap();
    assert!(index.oracles.get(&vec![1u8; 32]).is_none());
    assert!(index.token_currency.get(&key("DFI", "USD")).is_none());
    rm.invalidate(&mut index, &ctx(10, 3, 0)).unwrap();
    assert!(index.oracles.get(&vec![1u8; 32]).is_some());
    assert!(index.token_currency.get(&key("DFI", "USD")).is_some());
}

#[test]
fn unknown_oracle_is_reported() {
    let mut index = OracleIndex::new();
    let up = UpdateOracle { oracle_id: vec![7; 32], script: vec![], weightage: 1, price_feeds: vec![] };
    assert_eq!(up.index(&mut index, &ctx(1, 1, 0)), Err(IndexerError::OracleNotFound));
    let rm = RemoveOracle { oracle_id: vec![7; 32] };
    assert_eq!(rm.index(&mut index, &ctx(1, 1, 0)), Err(IndexerError::OracleNotFound));
}

#[test]
fn appoint_invalidate_removes_everything() {
    let mut index = OracleIndex::new();
    let ev = AppointOracle { script: vec![0x51], weightage: 2, price_feeds: vec![pair("DFI", "USD"), pair("BTC", "EUR")] };
    ev.index(&mut index, &ctx(4, 1, 0));
    assert_eq!(index.token_currency.len(), 2);
    ev.invalidate(&mut index, &ctx(4, 1, 0));
    assert_eq!(index.token_currency.len(), 0);
    assert!(index.oracles.get(&vec![4u8; 32]).is_none());
}

#[test]
fn incremental_means() {
    assert_eq!(forward_aggregate_value(1000, 2000, 1), 1500);
    assert_eq!(forward_aggregate_value(-1000, -2001, 1), -1500);
    assert_eq!(backward_aggregate_value(1500, 2000, 2), 1000);
    assert_eq!(forward_aggregate_number(3, 4, 2), 3);
    assert_eq!(backward_aggregate_number(3, 4, 3), 2);
    assert_eq!(forward_aggregate_number(i32::MAX, i32::MAX, 5), i32::MAX);
    assert_eq!(backward_aggregate_number(i32::MAX, i32::MIN, 2), 0);
    assert_eq!(backward_aggregate_value(i64::MAX, i64::MIN, 2), i64::MAX);
}

#[test]
fn absorb_then_release_restores_bucket() {
    let start = OraclePriceAggregatedInterval {
        height: 1,
        median_time: 100,
        aggregated: IntervalAggregated { amount: 1000, weightage: 4, count: 2, active: 2, total: 3 },
    };
    let mut b = vec![start];
    let agg = PriceAggregated { amount: 2500, weightage: 7, active: 1, total: 3 };
    index_interval_mapper(&mut b, 2, 200, agg, OracleIntervalSeconds::FifteenMinutes);
    assert_eq!(b.len(), 1);
    assert_eq!(b[0].aggregated.count, 3);
    assert_eq!(b[0].aggregated.amount, 1500);
    assert!(invalidate_oracle_interval(&mut b, agg));
    assert_eq!(b[0].aggregated.count, 2);
    assert_eq!(b[0].aggregated.amount, 1000);
    assert_eq!(b[0].aggregated.weightage, 4);
    index_interval_mapper(&mut b, 3, 2000, agg, OracleIntervalSeconds::FifteenMinutes);
    assert_eq!(b.len(), 2);
    assert!(invalidate_oracle_interval(&mut b, agg));
    assert_eq!(b.len(), 1);
    assert_eq!(b[0].median_time, 100);
    let mut empty: Vec<OraclePriceAggregatedInterval> = vec![];
    assert!(!invalidate_oracle_interval(&mut empty, agg));
}

#[test]
fn amount_text_has_eight_digits() {
    let text = |amount: i64| PriceAggregated { amount, weightage: 1, active: 1, total: 1 }.amount_text();
    assert_eq!(text(1_750_000_000), "17.50000000");
    assert_eq!(text(0), "0.00000000");
    assert_eq!(text(-5), "-0.00000005");
}

#[test]
fn no_qualifying_oracle_writes_no_aggregate() {
    assert_eq!(aggregate_prices(&vec![], 100), None);
    let zero = FeedEntry { weightage: 0, latest: Some(FeedPoint { time: 100, amount: 5 }) };
    let none = FeedEntry { weightage: 3, latest: None };
    assert_eq!(aggregate_prices(&vec![zero, none], 100), None);
    let edge = FeedEntry { weightage: 1, latest: Some(FeedPoint { time: 100 - 3599, amount: 5 }) };
    let late = FeedEntry { weightage: 1, latest: Some(FeedPoint { time: 100 - 3600, amount: 9 }) };
    let agg = aggregate_prices(&vec![edge, late, zero], 100).unwrap();
    assert_eq!(agg.amount, 5);
    assert_eq!(agg.active, 1);
    assert_eq!(agg.total, 3);
    let big = FeedEntry { weightage: 255, latest: Some(FeedPoint { time: 0, amount: i64::MAX }) };
    assert_eq!(aggregate_prices(&vec![big, big], 0).unwrap().amount, i64::MAX);
    let mut index = OracleIndex::new();
    appoint(&mut index, 1, 0, 1);
    submit(&mut index, 1, 11, 2, 1000, UNIT);
    assert!(index.aggregated.get(&("DFI".to_string(), "USD".to_string(), 2)).is_none());
}

#[test]
fn update_and_remove_need_a_current_oracle() {
    let mut index = OracleIndex::new();
    appoint(&mut index, 1, 1, 1);
    let rm = RemoveOracle { oracle_id: vec![1; 32] };
    rm.index(&mut index, &ctx(2, 2, 0)).unwrap();
    assert_eq!(rm.index(&mut index, &ctx(3, 3, 0)), Err(IndexerError::OracleNotFound));
    let up = UpdateOracle { oracle_id: vec![1; 32], script: vec![], weightage: 2, price_feeds: vec![pair("BTC", "USD")] };
    assert_eq!(up.index(&mut index, &ctx(4, 4, 0)), Err(IndexerError::OracleNotFound));
    rm.invalidate(&mut index, &ctx(2, 2, 0)).unwrap();
    assert_eq!(index.oracles.get(&vec![1u8; 32]).unwrap().weightage, 1);
    up.index(&mut index, &ctx(4, 4, 0)).unwrap();
    assert_eq!(index.history.get(&vec![1u8; 32]).unwrap().len(), 2);
}

#[test]
fn tickers_list_by_oracle_count_then_height() {
    let mut index = OracleIndex::new();
    let ev = AppointOracle { script: vec![0x51], weightage: 1, price_feeds: vec![pair("DFI", "USD"), pair("BTC", "USD")] };
    ev.index(&mut index, &ctx(1, 1, 0));
    let ev2 = AppointOracle { script: vec![0x51], weightage: 1, price_feeds: vec![pair("BTC", "USD")] };
    ev2.index(&mut index, &ctx(2, 1, 0));
    let dfi = SetOracleData {
        oracle_id: vec![1; 32],
        timestamp: 100,
        token_prices: vec![TokenPrice { token: "DFI".to_string(), prices: vec![TokenAmount { currency: "USD".to_string(), amount: UNIT }] }],
    };
    dfi.index(&mut index, &ctx(11, 5, 100)).unwrap();
    let btc = SetOracleData {
        oracle_id: vec![2; 32],
        timestamp: 100,
        token_prices: vec![TokenPrice { token: "BTC".to_string(), prices: vec![TokenAmount { currency: "USD".to_string(), amount: 3 * UNIT }] }],
    };
    btc.index(&mut index, &ctx(12, 4, 100)).unwrap();
    let list = index.price_tickers();
    assert_eq!(list.len(), 2);
    assert_eq!(list[0].total, 2);
    assert_eq!(list[0].price.amount, 3 * UNIT);
    assert_eq!(list[1].total, 1);
    assert_eq!(list[1].height, 5);
}
