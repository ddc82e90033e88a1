//! Price submissions: raw feeds, the aggregate of each touched pair, its
//! ticker and its interval buckets, and their invalidation.
use vstd::prelude::*;
use crate::aggregate::{aggregate_of, aggregate_prices, FeedEntry, FeedPoint};
use crate::interval::{index_interval_mapper, indexed_buckets, invalidate_oracle_interval, invalidated_buckets, OracleIntervalSeconds, PriceAggregated};
use crate::oracle::{entries_for, interval_list, opt_at, popped_ticker, ticker_list, Context, IndexerError, OracleIndex, OracleKey, OracleKeyView, OraclePriceFeed, PairKey, PriceTicker, SetOracleData, TokenAmount, TokenPrice};
use crate::table::Key;

verus! {

/// The three bucket windows, in the order they are updated.
pub open spec fn all_intervals() -> Seq<OracleIntervalSeconds> {
    seq![
        OracleIntervalSeconds::FifteenMinutes,
        OracleIntervalSeconds::OneHour,
        OracleIntervalSeconds::OneDay,
    ]
}

/// The interval bucket key of a pair.
pub open spec fn interval_key(t: Seq<char>, c: Seq<char>, iv: OracleIntervalSeconds) -> (
    Seq<char>,
    Seq<char>,
    u32,
) {
    (t, c, iv.spec_seconds() as u32)
}

/// The aggregation entries of a pair in an index.
pub open spec fn pair_entries(index: &OracleIndex, t: Seq<char>, c: Seq<char>) -> Seq<FeedEntry> {
    entries_for(index.token_currency.rows(), index.feeds@, t, c)
}

/// One submitted price: (token, currency, amount).
pub type SubmittedPrice = (String, String, i64);

pub open spec fn price_view(p: SubmittedPrice) -> (Seq<char>, Seq<char>, i64) {
    (p.0@, p.1@, p.2)
}

/// The (token, currency) pairs of a list of prices, each once, in first-seen order.
pub open spec fn distinct_pairs(ps: Seq<(Seq<char>, Seq<char>, i64)>) -> Seq<(Seq<char>, Seq<char>)>
    decreases ps.len(),
{
    if ps.len() == 0 {
        Seq::empty()
    } else {
        let front = distinct_pairs(ps.drop_last());
        let p = (ps.last().0, ps.last().1);
        if front.contains(p) {
            front
        } else {
            front.push(p)
        }
    }
}

/// The feeds after each price has been appended under (token, currency, oracle).
pub open spec fn pushed_feeds(
    feeds: Map<OracleKeyView, Seq<FeedView>>,
    ps: Seq<(Seq<char>, Seq<char>, i64)>,
    oracle: Seq<u8>,
    txid: Seq<u8>,
    time: i64,
    height: u32,
) -> Map<OracleKeyView, Seq<FeedView>>
    decreases ps.len(),
{
    if ps.len() == 0 {
        feeds
    } else {
        let m = pushed_feeds(feeds, ps.drop_last(), oracle, txid, time, height);
        let k = (ps.last().0, ps.last().1, oracle);
        let before = if m.contains_key(k) {
            m[k]
        } else {
            Seq::empty()
        };
        m.insert(k, before.push((txid, time, ps.last().2, height)))
    }
}

/// The feeds after, for each price, the latest feed under its key is dropped
/// when it came from transaction `txid`.
pub open spec fn popped_feeds(
    feeds: Map<OracleKeyView, Seq<FeedView>>,
    ps: Seq<(Seq<char>, Seq<char>, i64)>,
    oracle: Seq<u8>,
    txid: Seq<u8>,
) -> Map<OracleKeyView, Seq<FeedView>>
    decreases ps.len(),
{
    if ps.len() == 0 {
        feeds
    } else {
        let m = popped_feeds(feeds, ps.drop_last(), oracle, txid);
        let k = (ps.last().0, ps.last().1, oracle);
        if m.contains_key(k) && m[k].len() > 0 && m[k].last().0 == txid {
            if m[k].len() == 1 {
                m.remove(k)
            } else {
                m.insert(k, m[k].drop_last())
            }
        } else {
            m
        }
    }
}

/// The prices of a submission, flattened to (token, currency, amount).
pub open spec fn flat_prices(tps: Seq<TokenPrice>) -> Seq<(Seq<char>, Seq<char>, i64)>
    decreases tps.len(),
{
    if tps.len() == 0 {
        Seq::empty()
    } else {
        let tp = tps.last();
        flat_prices(tps.drop_last()) + amounts_view(tp.token@, tp.prices@)
    }
}

/// The prices of one token as (token, currency, amount).
pub open spec fn amounts_view(token: Seq<char>, s: Seq<TokenAmount>) -> Seq<(Seq<char>, Seq<char>, i64)> {
    s.map_values(|a: TokenAmount| (token, a.currency@, a.amount))
}

pub open spec fn pairs_view(v: Seq<PairKey>) -> Seq<(Seq<char>, Seq<char>)> {
    v.map_values(|p: PairKey| (p.0@, p.1@))
}

pub open spec fn prices_view(v: Seq<SubmittedPrice>) -> Seq<(Seq<char>, Seq<char>, i64)> {
    v.map_values(|p: SubmittedPrice| price_view(p))
}

proof fn lemma_distinct_pairs_unique(ps: Seq<(Seq<char>, Seq<char>, i64)>)
    ensures
        distinct_pairs(ps).no_duplicates(),
    decreases ps.len(),
{
    if ps.len() > 0 {
        lemma_distinct_pairs_unique(ps.drop_last());
    }
}

fn flatten_prices(tps: &Vec<TokenPrice>) -> (r: Vec<SubmittedPrice>)
    ensures
        prices_view(r@) == flat_prices(tps@),
{
    let mut out: Vec<SubmittedPrice> = Vec::new();
    let mut i: usize = 0;
    while i < tps.len()
        invariant
            i <= tps.len(),
            prices_view(out@) == flat_prices(tps@.take(i as int)),
        decreases tps.len() - i,
    {
        let tp = &tps[i];
        let ghost base = out@;
        let mut j: usize = 0;
        while j < tp.prices.len()
            invariant
                j <= tp.prices.len(),
                i < tps.len(),
                tp == tps@[i as int],
                prices_view(out@) == prices_view(base) + amounts_view(tp.token@, tp.prices@.take(j as int)),
            decreases tp.prices.len() - j,
        {
            let a = &tp.prices[j];
            let ghost prev = out@;
            out.push((tp.token.clone(), a.currency.clone(), a.amount));
            assert(prices_view(out@) =~= prices_view(prev).push((tp.token@, a.currency@, a.amount)));
            j = j + 1;
            assert(amounts_view(tp.token@, tp.prices@.take(j as int)) =~= amounts_view(tp.token@, tp.prices@.take(j - 1)).push((tp.token@, a.currency@, a.amount)));
            assert(prices_view(out@) =~= prices_view(base) + amounts_view(tp.token@, tp.prices@.take(j as int)));
        }
        assert(tp.prices@.take(tp.prices.len() as int) =~= tp.prices@);
        assert(tps@.take(i + 1).drop_last() =~= tps@.take(i as int));
        i = i + 1;
    }
    assert(tps@.take(tps.len() as int) =~= tps@);
    out
}

fn collect_pairs(prices: &Vec<SubmittedPrice>) -> (r: Vec<PairKey>)
    ensures
        pairs_view(r@) == distinct_pairs(prices_view(prices@)),
{
    let mut out: Vec<PairKey> = Vec::new();
    let mut i: usize = 0;
    while i < prices.len()
        invariant
            i <= prices.len(),
            pairs_view(out@) == distinct_pairs(prices_view(prices@.take(i as int))),
        decreases prices.len() - i,
    {
        let p = &prices[i];
        let mut found = false;
        let mut j: usize = 0;
        while j < out.len()
            invariant
                j <= out.len(),
                found == exists|x: int| 0 <= x < j && pairs_view(out@)[x] == (p.0@, p.1@),
            decreases out.len() - j,
        {
            assert(pairs_view(out@)[j as int] == (out@[j as int].0@, out@[j as int].1@));
            if out[j].0.same(&p.0) && out[j].1.same(&p.1) {
                found = true;
            }
            j = j + 1;
        }
        proof {
            let pv = prices_view(prices@.take(i + 1));
            assert(pv.drop_last() =~= prices_view(prices@.take(i as int)));
            assert(found == pairs_view(out@).contains((p.0@, p.1@)));
        }
        if !found {
            out.push((p.0.clone(), p.1.clone()));
            assert(pairs_view(out@) =~= distinct_pairs(prices_view(prices@.take(i + 1))));
        }
        i = i + 1;
    }
    assert(prices@.take(prices.len() as int) =~= prices@);
    out
}

/// A feed as (transaction id, time, amount, height).
pub type FeedView = (Seq<u8>, i64, i64, u32);

pub open spec fn feed_view(f: OraclePriceFeed) -> FeedView {
    (f.txid@, f.time, f.amount, f.height)
}

/// The views of a feed list.
pub open spec fn points_of(s: Seq<OraclePriceFeed>) -> Seq<FeedView> {
    s.map_values(|f: OraclePriceFeed| feed_view(f))
}

/// The feed lists of the feeds table.
pub open spec fn feed_points(m: Map<OracleKeyView, Vec<OraclePriceFeed>>) -> Map<OracleKeyView, Seq<FeedView>> {
    Map::new(|k: OracleKeyView| m.contains_key(k), |k: OracleKeyView| points_of(m[k]@))
}

fn copy_key(k: &OracleKey) -> (r: OracleKey)
    ensures
        r@ == k@,
{
    k.duplicate()
}

impl OracleIndex {
    /// The aggregation entries of the oracles registered for a pair.
    fn entries_for_pair(&self, token: &String, currency: &String) -> (r: Result<Vec<FeedEntry>, IndexerError>)
        requires
            self.wf(),
        ensures
            match r {
                Ok(es) => es@ == pair_entries(self, token@, currency@) && es.len() <= u32::MAX,
                Err(e) => e == IndexerError::TooManyOracles,
            },
            r is Err <==> self.token_currency@.dom().len() > u32::MAX,
    {
        let n = self.token_currency.len();
        if n > u32::MAX as usize {
            assert(self.token_currency@.dom().len() > u32::MAX);
            return Err(IndexerError::TooManyOracles);
        }
        let mut out: Vec<FeedEntry> = Vec::new();
        let mut i: usize = 0;
        while i < n
            invariant
                self.wf(),
                n == self.token_currency.rows().len(),
                n <= u32::MAX,
                i <= n,
                out@ == entries_for(self.token_currency.rows().take(i as int), self.feeds@, token@, currency@),
                out.len() <= i,
            decreases n - i,
        {
            let (k, row) = self.token_currency.row(i);
            proof {
                assert(self.token_currency.rows().take(i + 1).drop_last() =~= self.token_currency.rows().take(i as int));
            }
            if k.0.same(token) && k.1.same(currency) {
                let latest = match self.feeds.get(k) {
                    Some(list) => {
                        if list.len() > 0 {
                            let f = &list[list.len() - 1];
                            Some(FeedPoint { time: f.time, amount: f.amount })
                        } else {
                            None
                        }
                    },
                    None => None,
                };
                out.push(FeedEntry { weightage: row.weightage, latest });
            }
            i = i + 1;
        }
        assert(self.token_currency.rows().take(n as int) =~= self.token_currency.rows());
        Ok(out)
    }

    /// Appends a feed under its key.
    fn push_feed(&mut self, k: OracleKey, f: OraclePriceFeed)
        requires
            old(self).wf(),
        ensures
            final(self).wf(),
            feed_points(final(self).feeds@) == feed_points(old(self).feeds@).insert(
                k@,
                (if old(self).feeds@.contains_key(k@) {
                    points_of(old(self).feeds@[k@]@)
                } else {
                    Seq::empty()
                }).push(feed_view(f)),
            ),
            final(self).token_currency == old(self).token_currency,
            final(self).oracles == old(self).oracles,
            final(self).history == old(self).history,
            final(self).aggregated == old(self).aggregated,
            final(self).tickers == old(self).tickers,
            final(self).intervals == old(self).intervals,
    {
        let ghost kv = k@;
        let ghost pt = feed_view(f);
        let mut list = match self.feeds.remove(&k) {
            Some(l) => l,
            None => Vec::new(),
        };
        let ghost before = list@;
        list.push(f);
        proof {
            assert(points_of(list@) =~= points_of(before).push(pt));
            assert(points_of(before) =~= (if old(self).feeds@.contains_key(kv) {
                points_of(old(self).feeds@[kv]@)
            } else {
                Seq::empty()
            }));
        }
        self.feeds.insert(k, list);
        proof {
            assert(feed_points(self.feeds@) =~= feed_points(old(self).feeds@).insert(
                kv,
                points_of(before).push(pt),
            ));
        }
    }

    /// Aggregates one pair at the block of `ctx` and, when some oracle
    /// qualifies, writes the aggregate, the ticker and the three buckets.
    pub fn index_pair(&mut self, token: &String, currency: &String, ctx: &Context) -> (r: Result<Option<PriceAggregated>, IndexerError>)
        requires
            old(self).wf(),
        ensures
            final(self).wf(),
            final(self).token_currency == old(self).token_currency,
            final(self).feeds == old(self).feeds,
            final(self).oracles == old(self).oracles,
            final(self).history == old(self).history,
            r is Err <==> old(self).token_currency@.dom().len() > u32::MAX,
            r is Err ==> *final(self) == *old(self),
            r matches Ok(res) ==> res == aggregate_of(pair_entries(old(self), token@, currency@), ctx.block.time),
            r matches Ok(None) ==> *final(self) == *old(self),
            r matches Ok(Some(a)) ==> {
                &&& final(self).aggregated@ == old(self).aggregated@.insert((token@, currency@, ctx.block.height), a)
                &&& ticker_list(final(self).tickers@, (token@, currency@)) == ticker_list(old(self).tickers@, (token@, currency@)).push(
                    PriceTicker { total: a.total, height: ctx.block.height, price: a },
                )
                &&& final(self).tickers@.remove((token@, currency@)) == old(self).tickers@.remove((token@, currency@))
                &&& forall|iv: OracleIntervalSeconds| #[trigger] final(self).intervals@.contains_key(interval_key(token@, currency@, iv))
                &&& forall|iv: OracleIntervalSeconds|
                    #[trigger] final(self).intervals@[interval_key(token@, currency@, iv)]@ == indexed_buckets(
                        interval_list(old(self).intervals@, interval_key(token@, currency@, iv)),
                        ctx.block.height,
                        ctx.block.median_time,
                        a,
                        iv,
                    )
                &&& forall|k: (Seq<char>, Seq<char>, u32)| !(k.0 == token@ && k.1 == currency@) && #[trigger] old(self).intervals@.contains_key(k) ==> final(self).intervals@.contains_key(k) && final(self).intervals@[k] == old(self).intervals@[k]
                &&& forall|k: (Seq<char>, Seq<char>, u32)| !(k.0 == token@ && k.1 == currency@) && #[trigger] final(self).intervals@.contains_key(k) ==> old(self).intervals@.contains_key(k)
            },
    {
        let entries = match self.entries_for_pair(token, currency) {
            Ok(es) => es,
            Err(e) => {
                return Err(e);
            },
        };
        let agg = aggregate_prices(&entries, ctx.block.time);
        match agg {
            None => Ok(None),
            Some(a) => {
                let height = ctx.block.height;
                self.aggregated.insert((token.clone(), currency.clone(), height), a);
                self.push_ticker(token, currency, PriceTicker { total: a.total, height, price: a });
                self.index_bucket(token, currency, ctx, a, OracleIntervalSeconds::FifteenMinutes);
                self.index_bucket(token, currency, ctx, a, OracleIntervalSeconds::OneHour);
                self.index_bucket(token, currency, ctx, a, OracleIntervalSeconds::OneDay);
                proof {
                    assert forall|iv: OracleIntervalSeconds| #[trigger] self.intervals@.contains_key(interval_key(token@, currency@, iv)) by {
                        match iv {
                            OracleIntervalSeconds::FifteenMinutes => {},
                            OracleIntervalSeconds::OneHour => {},
                            OracleIntervalSeconds::OneDay => {},
                        }
                    }
                    assert forall|iv: OracleIntervalSeconds| #[trigger] self.intervals@[interval_key(token@, currency@, iv)]@ == indexed_buckets(
                        interval_list(old(self).intervals@, interval_key(token@, currency@, iv)),
                        ctx.block.height,
                        ctx.block.median_time,
                        a,
                        iv,
                    ) by {
                        match iv {
                            OracleIntervalSeconds::FifteenMinutes => {},
                            OracleIntervalSeconds::OneHour => {},
                            OracleIntervalSeconds::OneDay => {},
                        }
                    }
                }
                Ok(Some(a))
            },
        }
    }

    fn index_bucket(&mut self, token: &String, currency: &String, ctx: &Context, a: PriceAggregated, iv: OracleIntervalSeconds)
        requires
            old(self).wf(),
        ensures
            final(self).wf(),
            final(self).intervals@ == old(self).intervals@.insert(
                interval_key(token@, currency@, iv),
                final(self).intervals@[interval_key(token@, currency@, iv)],
            ),
            final(self).intervals@[interval_key(token@, currency@, iv)]@ == indexed_buckets(
                interval_list(old(self).intervals@, interval_key(token@, currency@, iv)),
                ctx.block.height,
                ctx.block.median_time,
                a,
                iv,
            ),
            final(self).token_currency == old(self).token_currency,
            final(self).feeds == old(self).feeds,
            final(self).oracles == old(self).oracles,
            final(self).history == old(self).history,
            final(self).aggregated == old(self).aggregated,
            final(self).tickers == old(self).tickers,
    {
        let k = (token.clone(), currency.clone(), iv.seconds() as u32);
        let mut buckets = match self.intervals.remove(&k) {
            Some(b) => b,
            None => Vec::new(),
        };
        index_interval_mapper(&mut buckets, ctx.block.height, ctx.block.median_time, a, iv);
        let ghost b = buckets;
        self.intervals.insert(k, buckets);
        proof {
            assert(self.intervals@ =~= old(self).intervals@.insert(interval_key(token@, currency@, iv), b));
        }
    }

    fn invalidate_bucket(&mut self, token: &String, currency: &String, a: PriceAggregated, iv: OracleIntervalSeconds)
        requires
            old(self).wf(),
        ensures
            final(self).wf(),
            forall|k: (Seq<char>, Seq<char>, u32)| k != interval_key(token@, currency@, iv) ==> (#[trigger] final(self).intervals@.contains_key(k)
                == old(self).intervals@.contains_key(k)) && (final(self).intervals@.contains_key(k) ==> final(self).intervals@[k]
                == old(self).intervals@[k]),
            interval_list(final(self).intervals@, interval_key(token@, currency@, iv)) == invalidated_buckets(
                interval_list(old(self).intervals@, interval_key(token@, currency@, iv)),
                a,
            ),
            final(self).token_currency == old(self).token_currency,
            final(self).feeds == old(self).feeds,
            final(self).oracles == old(self).oracles,
            final(self).history == old(self).history,
            final(self).aggregated == old(self).aggregated,
            final(self).tickers == old(self).tickers,
    {
        let k = (token.clone(), currency.clone(), iv.seconds() as u32);
        match self.intervals.remove(&k) {
            Some(b) => {
                let mut buckets = b;
                let _ = invalidate_oracle_interval(&mut buckets, a);
                self.intervals.insert(k, buckets);
            },
            None => {},
        }
    }
}

impl OracleIndex {
    fn pop_feed(&mut self, k: &OracleKey, txid: &Vec<u8>)
        requires
            old(self).wf(),
        ensures
            final(self).wf(),
            feed_points(final(self).feeds@) == ({
                let m = feed_points(old(self).feeds@);
                if m.contains_key(k@) && m[k@].len() > 0 && m[k@].last().0 == txid@ {
                    if m[k@].len() == 1 {
                        m.remove(k@)
                    } else {
                        m.insert(k@, m[k@].drop_last())
                    }
                } else {
                    m
                }
            }),
            final(self).token_currency == old(self).token_currency,
            final(self).oracles == old(self).oracles,
            final(self).history == old(self).history,
            final(self).aggregated == old(self).aggregated,
            final(self).tickers == old(self).tickers,
            final(self).intervals == old(self).intervals,
    {
        let ghost m = feed_points(old(self).feeds@);
        let matches = match self.feeds.get(k) {
            Some(list) => list.len() > 0 && list[list.len() - 1].txid.same(txid),
            None => false,
        };
        if !matches {
            return;
        }
        let mut list = match self.feeds.remove(k) {
            Some(l) => l,
            None => Vec::new(),
        };
        let ghost before = list@;
        let _ = list.pop();
        proof {
            assert(points_of(list@) =~= points_of(before).drop_last());
        }
        if list.len() > 0 {
            self.feeds.insert(copy_key(k), list);
            proof {
                assert(feed_points(self.feeds@) =~= m.insert(k@, m[k@].drop_last()));
            }
        } else {
            proof {
                assert(feed_points(self.feeds@) =~= m.remove(k@));
            }
        }
    }

    /// Takes the aggregate of a pair at `height` back out of its buckets and deletes it.
    fn invalidate_pair(&mut self, token: &String, currency: &String, height: u32)
        requires
            old(self).wf(),
        ensures
            final(self).wf(),
            final(self).token_currency == old(self).token_currency,
            final(self).feeds == old(self).feeds,
            final(self).oracles == old(self).oracles,
            final(self).history == old(self).history,
            final(self).tickers@.remove((token@, currency@)) == old(self).tickers@.remove((token@, currency@)),
            ticker_list(final(self).tickers@, (token@, currency@)) == if old(self).aggregated@.contains_key((token@, currency@, height)) {
                popped_ticker(ticker_list(old(self).tickers@, (token@, currency@)), height)
            } else {
                ticker_list(old(self).tickers@, (token@, currency@))
            },
            final(self).aggregated@ == old(self).aggregated@.remove((token@, currency@, height)),
            !old(self).aggregated@.contains_key((token@, currency@, height)) ==> final(self).intervals == old(self).intervals,
            old(self).aggregated@.contains_key((token@, currency@, height)) ==> forall|iv: OracleIntervalSeconds|
                #[trigger] interval_list(final(self).intervals@, interval_key(token@, currency@, iv)) == invalidated_buckets(
                    interval_list(old(self).intervals@, interval_key(token@, currency@, iv)),
                    old(self).aggregated@[(token@, currency@, height)],
                ),
            forall|k: (Seq<char>, Seq<char>, u32)| !(k.0 == token@ && k.1 == currency@) ==> (#[trigger] final(self).intervals@.contains_key(k)
                == old(self).intervals@.contains_key(k)) && (final(self).intervals@.contains_key(k) ==> final(self).intervals@[k]
                == old(self).intervals@[k]),
    {
        let key = (token.clone(), currency.clone(), height);
        match self.aggregated.remove(&key) {
            Some(a) => {
                self.pop_ticker(token, currency, height);
                self.invalidate_bucket(token, currency, a, OracleIntervalSeconds::FifteenMinutes);
                self.invalidate_bucket(token, currency, a, OracleIntervalSeconds::OneHour);
                self.invalidate_bucket(token, currency, a, OracleIntervalSeconds::OneDay);
                proof {
                    assert forall|iv: OracleIntervalSeconds|
                        #[trigger] interval_list(self.intervals@, interval_key(token@, currency@, iv)) == invalidated_buckets(
                            interval_list(old(self).intervals@, interval_key(token@, currency@, iv)),
                            a,
                        ) by {
                        match iv {
                            OracleIntervalSeconds::FifteenMinutes => {},
                            OracleIntervalSeconds::OneHour => {},
                            OracleIntervalSeconds::OneDay => {},
                        }
                    }
                    assert forall|k: (Seq<char>, Seq<char>, u32)| !(k.0 == token@ && k.1 == currency@) implies (#[trigger] self.intervals@.contains_key(k)
                        == old(self).intervals@.contains_key(k)) && (self.intervals@.contains_key(k) ==> self.intervals@[k]
                        == old(self).intervals@[k]) by {
                        assert(k != interval_key(token@, currency@, OracleIntervalSeconds::FifteenMinutes));
                        assert(k != interval_key(token@, currency@, OracleIntervalSeconds::OneHour));
                        assert(k != interval_key(token@, currency@, OracleIntervalSeconds::OneDay));
                    }
                }
            },
            None => {
                assert(self.tickers@.remove((token@, currency@)) =~= old(self).tickers@.remove((token@, currency@)));
            },
        }
    }

    fn push_ticker(&mut self, token: &String, currency: &String, t: PriceTicker)
        requires
            old(self).wf(),
        ensures
            final(self).wf(),
            ticker_list(final(self).tickers@, (token@, currency@)) == ticker_list(old(self).tickers@, (token@, currency@)).push(t),
            final(self).tickers@.remove((token@, currency@)) == old(self).tickers@.remove((token@, currency@)),
            final(self).token_currency == old(self).token_currency,
            final(self).feeds == old(self).feeds,
            final(self).oracles == old(self).oracles,
            final(self).history == old(self).history,
            final(self).aggregated == old(self).aggregated,
            final(self).intervals == old(self).intervals,
    {
        let k = (token.clone(), currency.clone());
        let mut list = match self.tickers.remove(&k) {
            Some(l) => l,
            None => Vec::new(),
        };
        list.push(t);
        self.tickers.insert(k, list);
        assert(self.tickers@.remove((token@, currency@)) =~= old(self).tickers@.remove((token@, currency@)));
    }

    fn pop_ticker(&mut self, token: &String, currency: &String, height: u32)
        requires
            old(self).wf(),
        ensures
            final(self).wf(),
            ticker_list(final(self).tickers@, (token@, currency@)) == popped_ticker(ticker_list(old(self).tickers@, (token@, currency@)), height),
            final(self).tickers@.remove((token@, currency@)) == old(self).tickers@.remove((token@, currency@)),
            final(self).token_currency == old(self).token_currency,
            final(self).feeds == old(self).feeds,
            final(self).oracles == old(self).oracles,
            final(self).history == old(self).history,
            final(self).aggregated == old(self).aggregated,
            final(self).intervals == old(self).intervals,
    {
        let k = (token.clone(), currency.clone());
        let mut list = match self.tickers.remove(&k) {
            Some(l) => l,
            None => {
                assert(self.tickers@ =~= old(self).tickers@);
                return;
            },
        };
        let ghost before = list@;
        if list.len() > 0 && list[list.len() - 1].height == height {
            list.pop();
            assert(list@ =~= before.drop_last());
        }
        self.tickers.insert(k, list);
        proof {
            assert(self.tickers@.remove((token@, currency@)) =~= old(self).tickers@.remove((token@, currency@)));
            assert(ticker_list(self.tickers@, (token@, currency@)) =~= popped_ticker(before, height));
        }
    }
}

impl SetOracleData {
    /// The submitted prices as (token, currency, amount).
    pub open spec fn prices(&self) -> Seq<(Seq<char>, Seq<char>, i64)> {
        flat_prices(self.token_prices@)
    }

    /// Stores each submitted price as the latest feed of the oracle for its
    /// pair, then, for each pair once, writes the aggregate over all oracles
    /// registered for it, its ticker and its three buckets. Fails, changing
    /// nothing, when more oracles are registered than can be aggregated.
    pub fn index(&self, index: &mut OracleIndex, ctx: &Context) -> (r: Result<(), IndexerError>)
        requires
            old(index).wf(),
        ensures
            final(index).wf(),
            final(index).consistent() == old(index).consistent(),
            r is Err <==> old(index).token_currency@.dom().len() > u32::MAX,
            r is Err ==> *final(index) == *old(index),
            r is Ok ==> {
                &&& final(index).token_currency == old(index).token_currency
                &&& final(index).oracles == old(index).oracles
                &&& final(index).history == old(index).history
                &&& feed_points(final(index).feeds@) == pushed_feeds(
                    feed_points(old(index).feeds@),
                    self.prices(),
                    self.oracle_id@,
                    ctx.txid@,
                    self.timestamp,
                    ctx.block.height,
                )
                &&& forall|j: int| 0 <= j < distinct_pairs(self.prices()).len() ==> {
                    let p = #[trigger] distinct_pairs(self.prices())[j];
                    match aggregate_of(pair_entries(final(index), p.0, p.1), ctx.block.time) {
                        Some(a) => {
                            &&& final(index).aggregated@.contains_key((p.0, p.1, ctx.block.height))
                            &&& final(index).aggregated@[(p.0, p.1, ctx.block.height)] == a
                            &&& forall|iv: OracleIntervalSeconds| #[trigger] interval_list(final(index).intervals@, interval_key(p.0, p.1, iv))
                                == indexed_buckets(
                                interval_list(old(index).intervals@, interval_key(p.0, p.1, iv)),
                                ctx.block.height,
                                ctx.block.median_time,
                                a,
                                iv,
                            )
                        },
                        None => true,
                    }
                }
                &&& forall|j: int| 0 <= j < distinct_pairs(self.prices()).len() ==> {
                    let p = #[trigger] distinct_pairs(self.prices())[j];
                    match aggregate_of(pair_entries(final(index), p.0, p.1), ctx.block.time) {
                        Some(a) => ticker_list(final(index).tickers@, p) == ticker_list(old(index).tickers@, p).push(
                            PriceTicker { total: a.total, height: ctx.block.height, price: a },
                        ),
                        None => {
                            &&& opt_at(final(index).aggregated@, (p.0, p.1, ctx.block.height)) == opt_at(old(index).aggregated@, (p.0, p.1, ctx.block.height))
                            &&& ticker_list(final(index).tickers@, p) == ticker_list(old(index).tickers@, p)
                            &&& forall|iv: OracleIntervalSeconds| #[trigger] opt_at(final(index).intervals@, interval_key(p.0, p.1, iv))
                                == opt_at(old(index).intervals@, interval_key(p.0, p.1, iv))
                        },
                    }
                }
                &&& forall|k: (Seq<char>, Seq<char>, u32)| !(k.2 == ctx.block.height && distinct_pairs(self.prices()).contains((k.0, k.1)))
                    ==> #[trigger] opt_at(final(index).aggregated@, k) == opt_at(old(index).aggregated@, k)
                &&& forall|k: (Seq<char>, Seq<char>, u32)| !distinct_pairs(self.prices()).contains((k.0, k.1))
                    ==> #[trigger] opt_at(final(index).intervals@, k) == opt_at(old(index).intervals@, k)
                &&& forall|q: (Seq<char>, Seq<char>)| !distinct_pairs(self.prices()).contains(q)
                    ==> #[trigger] ticker_list(final(index).tickers@, q) == ticker_list(old(index).tickers@, q)
            },
    {
        if index.token_currency.len() > u32::MAX as usize {
            return Err(IndexerError::TooManyOracles);
        }
        let prices = flatten_prices(&self.token_prices);
        let ghost pv = prices_view(prices@);
        let ghost start_feeds = feed_points(index.feeds@);
        let mut i: usize = 0;
        while i < prices.len()
            invariant
                index.wf(),
                i <= prices.len(),
                pv == prices_view(prices@),
                pv == self.prices(),
                feed_points(index.feeds@) == pushed_feeds(start_feeds, pv.take(i as int), self.oracle_id@, ctx.txid@, self.timestamp, ctx.block.height),
                index.token_currency == old(index).token_currency,
                index.oracles == old(index).oracles,
                index.history == old(index).history,
                index.aggregated == old(index).aggregated,
                index.tickers == old(index).tickers,
                index.intervals == old(index).intervals,
            decreases prices.len() - i,
        {
            let p = &prices[i];
            let key = (p.0.clone(), p.1.clone(), self.oracle_id.duplicate());
            let feed = OraclePriceFeed {
                txid: ctx.txid.duplicate(),
                time: self.timestamp,
                amount: p.2,
                height: ctx.block.height,
            };
            index.push_feed(key, feed);
            proof {
                assert(pv.take(i + 1).drop_last() =~= pv.take(i as int));
            }
            i = i + 1;
        }
        assert(pv.take(prices.len() as int) =~= pv);
        let pairs = collect_pairs(&prices);
        let ghost ps = pairs_view(pairs@);
        proof {
            lemma_distinct_pairs_unique(pv);
        }
        let ghost start_iv = index.intervals@;
        let ghost start_agg = index.aggregated@;
        let ghost start_tk = index.tickers@;
        let ghost h = ctx.block.height;
        let ghost mid_rows = index.token_currency.rows();
        let ghost mid_feeds = index.feeds@;
        let mut j: usize = 0;
        while j < pairs.len()
            invariant
                index.wf(),
                j <= pairs.len(),
                ps == pairs_view(pairs@),
                ps == distinct_pairs(self.prices()),
                ps.no_duplicates(),
                index.token_currency.rows() == mid_rows,
                index.feeds@ == mid_feeds,
                index.token_currency@.dom().len() <= u32::MAX,
                index.token_currency == old(index).token_currency,
                index.oracles == old(index).oracles,
                index.history == old(index).history,
                feed_points(index.feeds@) == pushed_feeds(
                    feed_points(old(index).feeds@),
                    self.prices(),
                    self.oracle_id@,
                    ctx.txid@,
                    self.timestamp,
                    ctx.block.height,
                ),
                start_iv == old(index).intervals@,
                start_agg == old(index).aggregated@,
                start_tk == old(index).tickers@,
                h == ctx.block.height,
                forall|k: (Seq<char>, Seq<char>, u32)| !(k.2 == h && ps.take(j as int).contains((k.0, k.1)))
                    ==> #[trigger] opt_at(index.aggregated@, k) == opt_at(start_agg, k),
                forall|q: (Seq<char>, Seq<char>)| !ps.take(j as int).contains(q)
                    ==> #[trigger] ticker_list(index.tickers@, q) == ticker_list(start_tk, q),
                forall|x: int| 0 <= x < j ==> {
                    let p = #[trigger] ps[x];
                    match aggregate_of(entries_for(mid_rows, mid_feeds, p.0, p.1), ctx.block.time) {
                        Some(a) => ticker_list(index.tickers@, p) == ticker_list(start_tk, p).push(
                            PriceTicker { total: a.total, height: h, price: a },
                        ),
                        None => {
                            &&& opt_at(index.aggregated@, (p.0, p.1, h)) == opt_at(start_agg, (p.0, p.1, h))
                            &&& ticker_list(index.tickers@, p) == ticker_list(start_tk, p)
                            &&& forall|iv: OracleIntervalSeconds| #[trigger] opt_at(index.intervals@, interval_key(p.0, p.1, iv))
                                == opt_at(start_iv, interval_key(p.0, p.1, iv))
                        },
                    }
                },
                forall|k: (Seq<char>, Seq<char>, u32)| !ps.take(j as int).contains((k.0, k.1)) ==> (#[trigger] index.intervals@.contains_key(k)
                    == start_iv.contains_key(k)) && (index.intervals@.contains_key(k) ==> index.intervals@[k] == start_iv[k]),
                forall|x: int| 0 <= x < j ==> {
                    let p = #[trigger] ps[x];
                    match aggregate_of(entries_for(mid_rows, mid_feeds, p.0, p.1), ctx.block.time) {
                        Some(a) => {
                            &&& index.aggregated@.contains_key((p.0, p.1, ctx.block.height))
                            &&& index.aggregated@[(p.0, p.1, ctx.block.height)] == a
                            &&& forall|iv: OracleIntervalSeconds| #[trigger] interval_list(index.intervals@, interval_key(p.0, p.1, iv))
                                == indexed_buckets(
                                interval_list(start_iv, interval_key(p.0, p.1, iv)),
                                ctx.block.height,
                                ctx.block.median_time,
                                a,
                                iv,
                            )
                        },
                        None => true,
                    }
                },
            decreases pairs.len() - j,
        {
            let ghost before = *index;
            let pair = &pairs[j];
            let ghost pj = ps[j as int];
            assert(pj == (pair.0@, pair.1@));
            let res = index.index_pair(&pair.0, &pair.1, ctx);
            proof {
                assert forall|x: int| 0 <= x < j implies #[trigger] ps[x] != pj by {
                    assert(ps[x] != ps[j as int]);
                }
                assert forall|iv: OracleIntervalSeconds| interval_list(before.intervals@, #[trigger] interval_key(pj.0, pj.1, iv))
                    == interval_list(start_iv, interval_key(pj.0, pj.1, iv)) by {
                    assert(!ps.take(j as int).contains((pj.0, pj.1))) by {
                        if ps.take(j as int).contains((pj.0, pj.1)) {
                            let x = choose|x: int| 0 <= x < j && ps.take(j as int)[x] == (pj.0, pj.1);
                            assert(ps[x] == pj);
                        }
                    }
                    let k = interval_key(pj.0, pj.1, iv);
                    assert(!ps.take(j as int).contains((k.0, k.1)));
                }
                assert forall|k: (Seq<char>, Seq<char>, u32)| !ps.take(j + 1).contains((k.0, k.1)) implies (#[trigger] index.intervals@.contains_key(k)
                    == start_iv.contains_key(k)) && (index.intervals@.contains_key(k) ==> index.intervals@[k] == start_iv[k]) by {
                    assert(!ps.take(j as int).contains((k.0, k.1))) by {
                        if ps.take(j as int).contains((k.0, k.1)) {
                            let x = choose|x: int| 0 <= x < j && ps.take(j as int)[x] == (k.0, k.1);
                            assert(ps.take(j + 1)[x] == (k.0, k.1));
                        }
                    }
                    assert(!(k.0 == pj.0 && k.1 == pj.1)) by {
                        if k.0 == pj.0 && k.1 == pj.1 {
                            assert(ps.take(j + 1)[j as int] == (k.0, k.1));
                        }
                    }
                    assert(before.intervals@.contains_key(k) == start_iv.contains_key(k));
                    if before.intervals@.contains_key(k) {
                        assert(index.intervals@.contains_key(k));
                        assert(index.intervals@[k] == before.intervals@[k]);
                        assert(before.intervals@[k] == start_iv[k]);
                    }
                    if index.intervals@.contains_key(k) {
                        assert(before.intervals@.contains_key(k));
                    }
                }
                assert forall|x: int| 0 <= x < j + 1 implies {
                    let p = #[trigger] ps[x];
                    match aggregate_of(entries_for(mid_rows, mid_feeds, p.0, p.1), ctx.block.time) {
                        Some(a) => {
                            &&& index.aggregated@.contains_key((p.0, p.1, ctx.block.height))
                            &&& index.aggregated@[(p.0, p.1, ctx.block.height)] == a
                            &&& forall|iv: OracleIntervalSeconds| #[trigger] interval_list(index.intervals@, interval_key(p.0, p.1, iv))
                                == indexed_buckets(
                                interval_list(start_iv, interval_key(p.0, p.1, iv)),
                                ctx.block.height,
                                ctx.block.median_time,
                                a,
                                iv,
                            )
                        },
                        None => true,
                    }
                } by {
                    let p = ps[x];
                    if x < j {
                        assert(p != pj);
                        assert forall|iv: OracleIntervalSeconds| #[trigger] interval_list(index.intervals@, interval_key(p.0, p.1, iv))
                            == interval_list(before.intervals@, interval_key(p.0, p.1, iv)) by {
                            let k = interval_key(p.0, p.1, iv);
                            assert(!(k.0 == pj.0 && k.1 == pj.1));
                        }
                    }
                }
            }
            proof {
                let hh = ctx.block.height;
                assert(!ps.take(j as int).contains(pj)) by {
                    if ps.take(j as int).contains(pj) {
                        let x = choose|x: int| 0 <= x < j && ps.take(j as int)[x] == pj;
                        assert(ps[x] == ps[j as int]);
                    }
                }
                assert forall|k: (Seq<char>, Seq<char>, u32)| !(k.2 == h && ps.take(j + 1).contains((k.0, k.1)))
                    implies #[trigger] opt_at(index.aggregated@, k) == opt_at(start_agg, k) by {
                    assert(!(k.2 == h && ps.take(j as int).contains((k.0, k.1)))) by {
                        if k.2 == h && ps.take(j as int).contains((k.0, k.1)) {
                            let x = choose|x: int| 0 <= x < j && ps.take(j as int)[x] == (k.0, k.1);
                            assert(ps.take(j + 1)[x] == (k.0, k.1));
                        }
                    }
                    if k.2 == h && k.0 == pj.0 && k.1 == pj.1 {
                        assert(ps.take(j + 1)[j as int] == (k.0, k.1));
                    }
                    assert(opt_at(before.aggregated@, k) == opt_at(start_agg, k));
                }
                assert forall|q: (Seq<char>, Seq<char>)| !ps.take(j + 1).contains(q)
                    implies #[trigger] ticker_list(index.tickers@, q) == ticker_list(start_tk, q) by {
                    assert(!ps.take(j as int).contains(q)) by {
                        if ps.take(j as int).contains(q) {
                            let x = choose|x: int| 0 <= x < j && ps.take(j as int)[x] == q;
                            assert(ps.take(j + 1)[x] == q);
                        }
                    }
                    if q == pj {
                        assert(ps.take(j + 1)[j as int] == q);
                    }
                    assert(ticker_list(before.tickers@, q) == ticker_list(start_tk, q));
                    if res matches Ok(Some(a)) {
                        assert(index.tickers@.remove(pj).contains_key(q) == index.tickers@.contains_key(q));
                        assert(before.tickers@.remove(pj).contains_key(q) == before.tickers@.contains_key(q));
                        if index.tickers@.contains_key(q) {
                            assert(index.tickers@.remove(pj)[q] == index.tickers@[q]);
                            assert(before.tickers@.remove(pj)[q] == before.tickers@[q]);
                        }
                    }
                }
                assert forall|x: int| 0 <= x < j + 1 implies {
                    let p = #[trigger] ps[x];
                    match aggregate_of(entries_for(mid_rows, mid_feeds, p.0, p.1), ctx.block.time) {
                        Some(a) => ticker_list(index.tickers@, p) == ticker_list(start_tk, p).push(
                            PriceTicker { total: a.total, height: h, price: a },
                        ),
                        None => {
                            &&& opt_at(index.aggregated@, (p.0, p.1, h)) == opt_at(start_agg, (p.0, p.1, h))
                            &&& ticker_list(index.tickers@, p) == ticker_list(start_tk, p)
                            &&& forall|iv: OracleIntervalSeconds| #[trigger] opt_at(index.intervals@, interval_key(p.0, p.1, iv))
                                == opt_at(start_iv, interval_key(p.0, p.1, iv))
                        },
                    }
                } by {
                    let p = ps[x];
                    if x < j {
                        assert(p != pj);
                        if res matches Ok(Some(a)) {
                            assert(index.tickers@.remove(pj).contains_key(p) == index.tickers@.contains_key(p));
                            assert(before.tickers@.remove(pj).contains_key(p) == before.tickers@.contains_key(p));
                            if index.tickers@.contains_key(p) {
                                assert(index.tickers@.remove(pj)[p] == index.tickers@[p]);
                                assert(before.tickers@.remove(pj)[p] == before.tickers@[p]);
                            }
                        }
                        assert(ticker_list(index.tickers@, p) == ticker_list(before.tickers@, p));
                        assert(opt_at(index.aggregated@, (p.0, p.1, h)) == opt_at(before.aggregated@, (p.0, p.1, h)));
                        assert forall|iv: OracleIntervalSeconds| #[trigger] opt_at(index.intervals@, interval_key(p.0, p.1, iv))
                            == opt_at(before.intervals@, interval_key(p.0, p.1, iv)) by {
                            let k = interval_key(p.0, p.1, iv);
                            assert(!(k.0 == pj.0 && k.1 == pj.1));
                            if before.intervals@.contains_key(k) {
                                assert(index.intervals@.contains_key(k));
                            }
                            if index.intervals@.contains_key(k) {
                                assert(before.intervals@.contains_key(k));
                            }
                        }
                    } else {
                        assert(ticker_list(before.tickers@, pj) == ticker_list(start_tk, pj));
                        assert(opt_at(before.aggregated@, (pj.0, pj.1, h)) == opt_at(start_agg, (pj.0, pj.1, h)));
                        assert forall|iv: OracleIntervalSeconds| #[trigger] opt_at(before.intervals@, interval_key(pj.0, pj.1, iv))
                            == opt_at(start_iv, interval_key(pj.0, pj.1, iv)) by {
                            let k = interval_key(pj.0, pj.1, iv);
                            assert(!ps.take(j as int).contains((k.0, k.1)));
                        }
                    }
                }
            }
            j = j + 1;
        }
        proof {
            assert(ps.take(pairs.len() as int) =~= ps);
            assert forall|k: (Seq<char>, Seq<char>, u32)| !ps.contains((k.0, k.1))
                implies #[trigger] opt_at(index.intervals@, k) == opt_at(old(index).intervals@, k) by {
                assert(!ps.take(pairs.len() as int).contains((k.0, k.1)));
            }
        }
        Ok(())
    }

    /// Undoes `index`: drops the feeds this transaction added and, for each
    /// pair once, takes the block's aggregate back out of the buckets and
    /// deletes it.
    pub fn invalidate(&self, index: &mut OracleIndex, ctx: &Context)
        requires
            old(index).wf(),
        ensures
            final(index).wf(),
            final(index).consistent() == old(index).consistent(),
            final(index).token_currency == old(index).token_currency,
            final(index).oracles == old(index).oracles,
            final(index).history == old(index).history,
            feed_points(final(index).feeds@) == popped_feeds(
                feed_points(old(index).feeds@),
                self.prices(),
                self.oracle_id@,
                ctx.txid@,
            ),
            forall|j: int| 0 <= j < distinct_pairs(self.prices()).len() ==> {
                let p = #[trigger] distinct_pairs(self.prices())[j];
                &&& !final(index).aggregated@.contains_key((p.0, p.1, ctx.block.height))
                &&& old(index).aggregated@.contains_key((p.0, p.1, ctx.block.height)) ==> forall|iv: OracleIntervalSeconds|
                    #[trigger] interval_list(final(index).intervals@, interval_key(p.0, p.1, iv)) == invalidated_buckets(
                        interval_list(old(index).intervals@, interval_key(p.0, p.1, iv)),
                        old(index).aggregated@[(p.0, p.1, ctx.block.height)],
                    )
                &&& ticker_list(final(index).tickers@, p) == if old(index).aggregated@.contains_key((p.0, p.1, ctx.block.height)) {
                    popped_ticker(ticker_list(old(index).tickers@, p), ctx.block.height)
                } else {
                    ticker_list(old(index).tickers@, p)
                }
                &&& !old(index).aggregated@.contains_key((p.0, p.1, ctx.block.height)) ==> forall|iv: OracleIntervalSeconds|
                    #[trigger] opt_at(final(index).intervals@, interval_key(p.0, p.1, iv)) == opt_at(old(index).intervals@, interval_key(p.0, p.1, iv))
            },
            forall|k: (Seq<char>, Seq<char>, u32)| !(k.2 == ctx.block.height && distinct_pairs(self.prices()).contains((k.0, k.1)))
                ==> #[trigger] opt_at(final(index).aggregated@, k) == opt_at(old(index).aggregated@, k),
            forall|k: (Seq<char>, Seq<char>, u32)| !distinct_pairs(self.prices()).contains((k.0, k.1))
                ==> #[trigger] opt_at(final(index).intervals@, k) == opt_at(old(index).intervals@, k),
            forall|q: (Seq<char>, Seq<char>)| !distinct_pairs(self.prices()).contains(q)
                ==> #[trigger] ticker_list(final(index).tickers@, q) == ticker_list(old(index).tickers@, q),
    {
        let prices = flatten_prices(&self.token_prices);
        let ghost pv = prices_view(prices@);
        let ghost start_feeds = feed_points(index.feeds@);
        let mut i: usize = 0;
        while i < prices.len()
            invariant
                index.wf(),
                i <= prices.len(),
                pv == prices_view(prices@),
                pv == self.prices(),
                feed_points(index.feeds@) == popped_feeds(start_feeds, pv.take(i as int), self.oracle_id@, ctx.txid@),
                index.token_currency == old(index).token_currency,
                index.oracles == old(index).oracles,
                index.history == old(index).history,
                index.aggregated == old(index).aggregated,
                index.tickers == old(index).tickers,
                index.intervals == old(index).intervals,
            decreases prices.len() - i,
        {
            let p = &prices[i];
            let key = (p.0.clone(), p.1.clone(), self.oracle_id.duplicate());
            index.pop_feed(&key, &ctx.txid);
            proof {
                assert(pv.take(i + 1).drop_last() =~= pv.take(i as int));
            }
            i = i + 1;
        }
        assert(pv.take(prices.len() as int) =~= pv);
        let pairs = collect_pairs(&prices);
        let ghost ps = pairs_view(pairs@);
        proof {
            lemma_distinct_pairs_unique(pv);
        }
        let ghost start_iv = index.intervals@;
        let ghost start_agg = index.aggregated@;
        let ghost start_tk = index.tickers@;
        let height = ctx.block.height;
        let mut j: usize = 0;
        while j < pairs.len()
            invariant
                index.wf(),
                j <= pairs.len(),
                height == ctx.block.height,
                ps == pairs_view(pairs@),
                ps == distinct_pairs(self.prices()),
                ps.no_duplicates(),
                index.token_currency == old(index).token_currency,
                index.oracles == old(index).oracles,
                index.history == old(index).history,
                feed_points(index.feeds@) == popped_feeds(
                    feed_points(old(index).feeds@),
                    self.prices(),
                    self.oracle_id@,
                    ctx.txid@,
                ),
                start_iv == old(index).intervals@,
                start_agg == old(index).aggregated@,
                start_tk == old(index).tickers@,
                forall|k: (Seq<char>, Seq<char>, u32)| !(k.2 == height && ps.take(j as int).contains((k.0, k.1)))
                    ==> #[trigger] opt_at(index.aggregated@, k) == opt_at(start_agg, k),
                forall|q: (Seq<char>, Seq<char>)| !ps.take(j as int).contains(q)
                    ==> #[trigger] ticker_list(index.tickers@, q) == ticker_list(start_tk, q),
                forall|x: int| 0 <= x < j ==> {
                    let p = #[trigger] ps[x];
                    &&& ticker_list(index.tickers@, p) == if start_agg.contains_key((p.0, p.1, height)) {
                        popped_ticker(ticker_list(start_tk, p), height)
                    } else {
                        ticker_list(start_tk, p)
                    }
                    &&& !start_agg.contains_key((p.0, p.1, height)) ==> forall|iv: OracleIntervalSeconds|
                        #[trigger] opt_at(index.intervals@, interval_key(p.0, p.1, iv)) == opt_at(start_iv, interval_key(p.0, p.1, iv))
                },
                forall|k: (Seq<char>, Seq<char>, u32)| !ps.take(j as int).contains((k.0, k.1)) ==> (#[trigger] index.intervals@.contains_key(k)
                    == start_iv.contains_key(k)) && (index.intervals@.contains_key(k) ==> index.intervals@[k] == start_iv[k]),
                forall|k: (Seq<char>, Seq<char>, u32)| !ps.take(j as int).contains((k.0, k.1)) ==> (#[trigger] index.aggregated@.contains_key(k)
                    == start_agg.contains_key(k)) && (index.aggregated@.contains_key(k) ==> index.aggregated@[k] == start_agg[k]),
                forall|x: int| 0 <= x < j ==> {
                    let p = #[trigger] ps[x];
                    &&& !index.aggregated@.contains_key((p.0, p.1, height))
                    &&& start_agg.contains_key((p.0, p.1, height)) ==> forall|iv: OracleIntervalSeconds|
                        #[trigger] interval_list(index.intervals@, interval_key(p.0, p.1, iv)) == invalidated_buckets(
                            interval_list(start_iv, interval_key(p.0, p.1, iv)),
                            start_agg[(p.0, p.1, height)],
                        )
                },
            decreases pairs.len() - j,
        {
            let ghost before = *index;
            let pair = &pairs[j];
            let ghost pj = ps[j as int];
            assert(pj == (pair.0@, pair.1@));
            proof {
                assert(!ps.take(j as int).contains((pj.0, pj.1))) by {
                    if ps.take(j as int).contains((pj.0, pj.1)) {
                        let x = choose|x: int| 0 <= x < j && ps.take(j as int)[x] == (pj.0, pj.1);
                        assert(ps[x] == ps[j as int]);
                    }
                }
                assert forall|iv: OracleIntervalSeconds| interval_list(before.intervals@, #[trigger] interval_key(pj.0, pj.1, iv))
                    == interval_list(start_iv, interval_key(pj.0, pj.1, iv)) by {
                    let k = interval_key(pj.0, pj.1, iv);
                    assert(!ps.take(j as int).contains((k.0, k.1)));
                }
                let k = (pj.0, pj.1, height);
                assert(!ps.take(j as int).contains((k.0, k.1)));
            }
            index.invalidate_pair(&pair.0, &pair.1, height);
            proof {
                assert forall|x: int| 0 <= x < j implies #[trigger] ps[x] != pj by {
                    assert(ps[x] != ps[j as int]);
                }
                assert forall|k: (Seq<char>, Seq<char>, u32)| !ps.take(j + 1).contains((k.0, k.1)) implies (#[trigger] index.intervals@.contains_key(k)
                    == start_iv.contains_key(k)) && (index.intervals@.contains_key(k) ==> index.intervals@[k] == start_iv[k]) by {
                    assert(!ps.take(j as int).contains((k.0, k.1))) by {
                        if ps.take(j as int).contains((k.0, k.1)) {
                            let x = choose|x: int| 0 <= x < j && ps.take(j as int)[x] == (k.0, k.1);
                            assert(ps.take(j + 1)[x] == (k.0, k.1));
                        }
                    }
                    assert(!(k.0 == pj.0 && k.1 == pj.1)) by {
                        if k.0 == pj.0 && k.1 == pj.1 {
                            assert(ps.take(j + 1)[j as int] == (k.0, k.1));
                        }
                    }
                    assert(before.intervals@.contains_key(k) == start_iv.contains_key(k));
                    assert(index.intervals@.contains_key(k) == before.intervals@.contains_key(k));
                    if index.intervals@.contains_key(k) {
                        assert(index.intervals@[k] == before.intervals@[k]);
                        assert(before.intervals@[k] == start_iv[k]);
                    }
                }
                assert forall|k: (Seq<char>, Seq<char>, u32)| !ps.take(j + 1).contains((k.0, k.1)) implies (#[trigger] index.aggregated@.contains_key(k)
                    == start_agg.contains_key(k)) && (index.aggregated@.contains_key(k) ==> index.aggregated@[k] == start_agg[k]) by {
                    assert(!ps.take(j as int).contains((k.0, k.1))) by {
                        if ps.take(j as int).contains((k.0, k.1)) {
                            let x = choose|x: int| 0 <= x < j && ps.take(j as int)[x] == (k.0, k.1);
                            assert(ps.take(j + 1)[x] == (k.0, k.1));
                        }
                    }
                    assert(!(k.0 == pj.0 && k.1 == pj.1)) by {
                        if k.0 == pj.0 && k.1 == pj.1 {
                            assert(ps.take(j + 1)[j as int] == (k.0, k.1));
                        }
                    }
                }
                assert forall|x: int| 0 <= x < j + 1 implies {
                    let p = #[trigger] ps[x];
                    &&& !index.aggregated@.contains_key((p.0, p.1, height))
                    &&& start_agg.contains_key((p.0, p.1, height)) ==> forall|iv: OracleIntervalSeconds|
                        #[trigger] interval_list(index.intervals@, interval_key(p.0, p.1, iv)) == invalidated_buckets(
                            interval_list(start_iv, interval_key(p.0, p.1, iv)),
                            start_agg[(p.0, p.1, height)],
                        )
                } by {
                    let p = ps[x];
                    if x < j {
                        assert(p != pj);
                        assert forall|iv: OracleIntervalSeconds| #[trigger] interval_list(index.intervals@, interval_key(p.0, p.1, iv))
                            == interval_list(before.intervals@, interval_key(p.0, p.1, iv)) by {
                            let k = interval_key(p.0, p.1, iv);
                            assert(!(k.0 == pj.0 && k.1 == pj.1));
                        }
                    }
                }
            }
            proof {
                assert forall|k: (Seq<char>, Seq<char>, u32)| !(k.2 == height && ps.take(j + 1).contains((k.0, k.1)))
                    implies #[trigger] opt_at(index.aggregated@, k) == opt_at(start_agg, k) by {
                    assert(!(k.2 == height && ps.take(j as int).contains((k.0, k.1)))) by {
                        if k.2 == height && ps.take(j as int).contains((k.0, k.1)) {
                            let x = choose|x: int| 0 <= x < j && ps.take(j as int)[x] == (k.0, k.1);
                            assert(ps.take(j + 1)[x] == (k.0, k.1));
                        }
                    }
                    if k.2 == height && k.0 == pj.0 && k.1 == pj.1 {
                        assert(ps.take(j + 1)[j as int] == (k.0, k.1));
                    }
                    assert(opt_at(before.aggregated@, k) == opt_at(start_agg, k));
                }
                assert forall|q: (Seq<char>, Seq<char>)| !ps.take(j + 1).contains(q)
                    implies #[trigger] ticker_list(index.tickers@, q) == ticker_list(start_tk, q) by {
                    assert(!ps.take(j as int).contains(q)) by {
                        if ps.take(j as int).contains(q) {
                            let x = choose|x: int| 0 <= x < j && ps.take(j as int)[x] == q;
                            assert(ps.take(j + 1)[x] == q);
                        }
                    }
                    if q == pj {
                        assert(ps.take(j + 1)[j as int] == q);
                    }
                    assert(ticker_list(before.tickers@, q) == ticker_list(start_tk, q));
                    assert(index.tickers@.remove(pj).contains_key(q) == index.tickers@.contains_key(q));
                    assert(before.tickers@.remove(pj).contains_key(q) == before.tickers@.contains_key(q));
                    if index.tickers@.contains_key(q) {
                        assert(index.tickers@.remove(pj)[q] == index.tickers@[q]);
                        assert(before.tickers@.remove(pj)[q] == before.tickers@[q]);
                    }
                }
                assert forall|x: int| 0 <= x < j + 1 implies {
                    let p = #[trigger] ps[x];
                    &&& ticker_list(index.tickers@, p) == if start_agg.contains_key((p.0, p.1, height)) {
                        popped_ticker(ticker_list(start_tk, p), height)
                    } else {
                        ticker_list(start_tk, p)
                    }
                    &&& !start_agg.contains_key((p.0, p.1, height)) ==> forall|iv: OracleIntervalSeconds|
                        #[trigger] opt_at(index.intervals@, interval_key(p.0, p.1, iv)) == opt_at(start_iv, interval_key(p.0, p.1, iv))
                } by {
                    let p = ps[x];
                    if x < j {
                        assert(p != pj);
                        assert(index.tickers@.remove(pj).contains_key(p) == index.tickers@.contains_key(p));
                        assert(before.tickers@.remove(pj).contains_key(p) == before.tickers@.contains_key(p));
                        if index.tickers@.contains_key(p) {
                            assert(index.tickers@.remove(pj)[p] == index.tickers@[p]);
                            assert(before.tickers@.remove(pj)[p] == before.tickers@[p]);
                        }
                        assert(ticker_list(index.tickers@, p) == ticker_list(before.tickers@, p));
                        assert forall|iv: OracleIntervalSeconds| #[trigger] opt_at(index.intervals@, interval_key(p.0, p.1, iv))
                            == opt_at(before.intervals@, interval_key(p.0, p.1, iv)) by {
                            let k = interval_key(p.0, p.1, iv);
                            assert(!(k.0 == pj.0 && k.1 == pj.1));
                        }
                    } else {
                        assert(ticker_list(before.tickers@, pj) == ticker_list(start_tk, pj));
                        assert(opt_at(before.aggregated@, (pj.0, pj.1, height)) == opt_at(start_agg, (pj.0, pj.1, height)));
                        assert(before.aggregated@.contains_key((pj.0, pj.1, height)) == start_agg.contains_key((pj.0, pj.1, height)));
                        if !start_agg.contains_key((pj.0, pj.1, height)) {
                            assert forall|iv: OracleIntervalSeconds| #[trigger] opt_at(index.intervals@, interval_key(pj.0, pj.1, iv))
                                == opt_at(start_iv, interval_key(pj.0, pj.1, iv)) by {
                                let k = interval_key(pj.0, pj.1, iv);
                                assert(!ps.take(j as int).contains((k.0, k.1)));
                                assert(opt_at(before.intervals@, k) == opt_at(start_iv, k));
                            }
                        }
                    }
                }
            }
            j = j + 1;
        }
        proof {
            assert(ps.take(pairs.len() as int) =~= ps);
            assert forall|k: (Seq<char>, Seq<char>, u32)| !ps.contains((k.0, k.1))
                implies #[trigger] opt_at(index.intervals@, k) == opt_at(old(index).intervals@, k) by {
                assert(!ps.take(pairs.len() as int).contains((k.0, k.1)));
            }
        }
    }
}

/// For a pair that got an aggregate at height `h` (with no aggregate there
/// before), invalidating the submission gives back its aggregate row and its
/// tickers exactly; its buckets come back as `lemma_index_invalidate` states.
pub proof fn lemma_pair_round_trip(
    agg: Map<(Seq<char>, Seq<char>, u32), PriceAggregated>,
    tickers: Seq<PriceTicker>,
    p: (Seq<char>, Seq<char>),
    h: u32,
    a: PriceAggregated,
)
    requires
        !agg.contains_key((p.0, p.1, h)),
    ensures
        opt_at(agg.insert((p.0, p.1, h), a).remove((p.0, p.1, h)), (p.0, p.1, h)) == opt_at(agg, (p.0, p.1, h)),
        agg.insert((p.0, p.1, h), a).remove((p.0, p.1, h)) == agg,
        popped_ticker(tickers.push(PriceTicker { total: a.total, height: h, price: a }), h) == tickers,
{
    assert(agg.insert((p.0, p.1, h), a).remove((p.0, p.1, h)) =~= agg);
    assert(tickers.push(PriceTicker { total: a.total, height: h, price: a }).drop_last() =~= tickers);
}

/// Ticker order: more registered oracles first, then the later block first.
pub open spec fn ticker_before_or_tied(x: PriceTicker, y: PriceTicker) -> bool {
    x.total > y.total || (x.total == y.total && x.height >= y.height)
}

pub open spec fn tickers_sorted(s: Seq<PriceTicker>) -> bool {
    forall|a: int, b: int| 0 <= a < b < s.len() ==> ticker_before_or_tied(#[trigger] s[a], #[trigger] s[b])
}

/// The latest ticker of each pair with one, as the rows of the table list them.
pub open spec fn latest_tickers(rows: Seq<((Seq<char>, Seq<char>), Vec<PriceTicker>)>) -> Seq<PriceTicker>
    decreases rows.len(),
{
    if rows.len() == 0 {
        Seq::empty()
    } else {
        let front = latest_tickers(rows.drop_last());
        if rows.last().1@.len() > 0 {
            front.push(rows.last().1@.last())
        } else {
            front
        }
    }
}

fn insert_sorted(out: &mut Vec<PriceTicker>, t: PriceTicker)
    requires
        tickers_sorted(old(out)@),
    ensures
        tickers_sorted(final(out)@),
        final(out)@.to_multiset() == old(out)@.to_multiset().insert(t),
{
    let mut idx: usize = 0;
    while idx < out.len() && ticker_before_or_tied_exec(&out[idx], &t)
        invariant
            idx <= out.len(),
            forall|j: int| 0 <= j < idx ==> ticker_before_or_tied(#[trigger] out@[j], t),
        decreases out.len() - idx,
    {
        idx = idx + 1;
    }
    let ghost before = out@;
    proof {
        if idx < out.len() {
            assert(!ticker_before_or_tied(out@[idx as int], t));
        }
    }
    out.insert(idx, t);
    proof {
        assert(out@ == before.insert(idx as int, t));
        vstd::seq_lib::to_multiset_insert(before, idx as int, t);
        assert forall|a: int, b: int| 0 <= a < b < out@.len() implies ticker_before_or_tied(#[trigger] out@[a], #[trigger] out@[b]) by {
            if a < idx && b == idx {
            } else if a == idx && b > idx {
                assert(out@[b] == before[b - 1]);
                assert(!ticker_before_or_tied(before[idx as int], t));
                if b - 1 > idx {
                    assert(ticker_before_or_tied(before[idx as int], before[b - 1]));
                }
            } else if a < idx && b > idx {
                assert(ticker_before_or_tied(before[a], before[b - 1]));
            } else if a > idx {
                assert(ticker_before_or_tied(before[a - 1], before[b - 1]));
            } else {
                assert(ticker_before_or_tied(before[a], before[b]));
            }
        }
    }
}

fn ticker_before_or_tied_exec(x: &PriceTicker, y: &PriceTicker) -> (r: bool)
    ensures
        r == ticker_before_or_tied(*x, *y),
{
    x.total > y.total || (x.total == y.total && x.height >= y.height)
}

impl OracleIndex {
    /// The latest ticker of every pair, more registered oracles first and,
    /// among equals, the later block first.
    pub fn price_tickers(&self) -> (r: Vec<PriceTicker>)
        requires
            self.wf(),
        ensures
            tickers_sorted(r@),
            r@.to_multiset() == latest_tickers(self.tickers.rows()).to_multiset(),
    {
        let n = self.tickers.len();
        let ghost rows = self.tickers.rows();
        let mut out: Vec<PriceTicker> = Vec::new();
        let mut i: usize = 0;
        proof {
            assert(rows.take(0) =~= Seq::<((Seq<char>, Seq<char>), Vec<PriceTicker>)>::empty());
        }
        while i < n
            invariant
                self.wf(),
                n == rows.len(),
                rows == self.tickers.rows(),
                i <= n,
                tickers_sorted(out@),
                out@.to_multiset() == latest_tickers(rows.take(i as int)).to_multiset(),
            decreases n - i,
        {
            let (_, list) = self.tickers.row(i);
            proof {
                assert(rows.take(i + 1).drop_last() =~= rows.take(i as int));
                assert(rows.take(i + 1).last() == rows[i as int]);
            }
            if list.len() > 0 {
                let t = list[list.len() - 1];
                insert_sorted(&mut out, t);
                proof {
                    assert(latest_tickers(rows.take(i + 1)) == latest_tickers(rows.take(i as int)).push(t));
                    vstd::seq_lib::to_multiset_build(latest_tickers(rows.take(i as int)), t);
                }
            }
            i = i + 1;
        }
        proof {
            assert(rows.take(n as int) =~= rows);
        }
        out
    }
}

} // verus!
