//! The oracle indexer: oracle lifecycle events, raw price feeds, per-block
//! aggregates, price tickers and interval buckets, each with its inverse for
//! block invalidation.
use vstd::prelude::*;
use crate::aggregate::{FeedEntry, FeedPoint};
use crate::interval::{OraclePriceAggregatedInterval, PriceAggregated};
use crate::table::{Key, Table};

verus! {

/// The block an event was indexed in.
pub struct BlockContext {
    pub hash: Vec<u8>,
    pub height: u32,
    pub time: i64,
    pub median_time: i64,
}

/// The block and transaction of an event.
pub struct Context {
    pub block: BlockContext,
    pub txid: Vec<u8>,
}

/// A token and currency pair that an oracle advertises prices for.
pub struct PriceFeedsItem {
    pub token: String,
    pub currency: String,
}

impl PriceFeedsItem {
    pub fn duplicate(&self) -> (r: PriceFeedsItem)
        ensures
            r == *self,
    {
        PriceFeedsItem { token: self.token.clone(), currency: self.currency.clone() }
    }
}

/// An oracle as registered: owner script, weight and advertised pairs.
pub struct Oracle {
    pub id: Vec<u8>,
    pub owner_address: Vec<u8>,
    pub weightage: u8,
    pub price_feeds: Vec<PriceFeedsItem>,
    pub height: u32,
}

/// The value view of an oracle.
pub struct OracleView {
    pub id: Seq<u8>,
    pub owner_address: Seq<u8>,
    pub weightage: u8,
    pub price_feeds: Seq<PriceFeedsItem>,
    pub height: u32,
}

impl View for Oracle {
    type V = OracleView;

    open spec fn view(&self) -> OracleView {
        OracleView {
            id: self.id@,
            owner_address: self.owner_address@,
            weightage: self.weightage,
            price_feeds: self.price_feeds@,
            height: self.height,
        }
    }
}

fn copy_feeds(v: &Vec<PriceFeedsItem>) -> (r: Vec<PriceFeedsItem>)
    ensures
        r@ == v@,
{
    let mut out: Vec<PriceFeedsItem> = Vec::new();
    let mut i: usize = 0;
    while i < v.len()
        invariant
            i <= v.len(),
            out@ == v@.take(i as int),
        decreases v.len() - i,
    {
        out.push(v[i].duplicate());
        i = i + 1;
        assert(out@ =~= v@.take(i as int));
    }
    assert(v@.take(v.len() as int) =~= v@);
    out
}

impl Oracle {
    pub fn duplicate(&self) -> (r: Oracle)
        ensures
            r@ == self@,
    {
        Oracle {
            id: self.id.duplicate(),
            owner_address: self.owner_address.duplicate(),
            weightage: self.weightage,
            price_feeds: copy_feeds(&self.price_feeds),
            height: self.height,
        }
    }
}

/// An oracle's registration for one pair, keyed by (token, currency, oracle id).
#[derive(Clone, Copy, Debug, PartialEq, Eq, Structural)]
pub struct OracleTokenCurrency {
    pub weightage: u8,
    pub height: u32,
}

/// One raw price feed of an oracle for a pair.
pub struct OraclePriceFeed {
    pub txid: Vec<u8>,
    pub time: i64,
    pub amount: i64,
    pub height: u32,
}

/// The latest aggregate of a pair, with the number of oracles registered for it.
#[derive(Clone, Copy, Debug, PartialEq, Eq, Structural)]
pub struct PriceTicker {
    pub total: i32,
    pub height: u32,
    pub price: PriceAggregated,
}

/// A price of one token in one currency, in units of 10^-8.
pub struct TokenAmount {
    pub currency: String,
    pub amount: i64,
}

/// The prices of one token.
pub struct TokenPrice {
    pub token: String,
    pub prices: Vec<TokenAmount>,
}

/// Registers a new oracle; its id is the id of the transaction.
pub struct AppointOracle {
    pub script: Vec<u8>,
    pub weightage: u8,
    pub price_feeds: Vec<PriceFeedsItem>,
}

/// Replaces the owner, weight and pairs of an oracle.
pub struct UpdateOracle {
    pub oracle_id: Vec<u8>,
    pub script: Vec<u8>,
    pub weightage: u8,
    pub price_feeds: Vec<PriceFeedsItem>,
}

/// Removes an oracle.
pub struct RemoveOracle {
    pub oracle_id: Vec<u8>,
}

/// Prices submitted by an oracle.
pub struct SetOracleData {
    pub oracle_id: Vec<u8>,
    pub timestamp: i64,
    pub token_prices: Vec<TokenPrice>,
}

/// Why an event could not be indexed or invalidated. Nothing was changed.
#[derive(Clone, Copy, Debug, PartialEq, Eq, Structural)]
pub enum IndexerError {
    /// The oracle has no history to work from.
    OracleNotFound,
    /// More oracles are registered for a pair than can be aggregated.
    TooManyOracles,
}

pub type PairKey = (String, String);

pub type OracleKey = (String, String, Vec<u8>);

pub type HeightKey = (String, String, u32);

pub type OracleKeyView = (Seq<char>, Seq<char>, Seq<u8>);

/// The indexed oracle data.
pub struct OracleIndex {
    /// Current oracles by id.
    pub oracles: Table<Vec<u8>, Oracle>,
    /// Every registration state of each oracle, oldest first.
    pub history: Table<Vec<u8>, Vec<Oracle>>,
    /// Registrations by (token, currency, oracle id).
    pub token_currency: Table<OracleKey, OracleTokenCurrency>,
    /// Raw feeds by (token, currency, oracle id), oldest first.
    pub feeds: Table<OracleKey, Vec<OraclePriceFeed>>,
    /// Aggregates by (token, currency, block height).
    pub aggregated: Table<HeightKey, PriceAggregated>,
    /// Tickers by (token, currency), latest last.
    pub tickers: Table<PairKey, Vec<PriceTicker>>,
    /// Buckets by (token, currency, interval seconds), oldest first.
    pub intervals: Table<HeightKey, Vec<OraclePriceAggregatedInterval>>,
}

pub open spec fn row_key(f: PriceFeedsItem, id: Seq<u8>) -> OracleKeyView {
    (f.token@, f.currency@, id)
}

/// The registration keys of an oracle's pairs.
pub open spec fn pair_keys(feeds: Seq<PriceFeedsItem>, id: Seq<u8>) -> Set<OracleKeyView> {
    Set::new(|k: OracleKeyView| exists|i: int| 0 <= i < feeds.len() && row_key(feeds[i], id) == k)
}

/// Registrations with one row for each of an oracle's pairs.
pub open spec fn with_rows(
    m: Map<OracleKeyView, OracleTokenCurrency>,
    feeds: Seq<PriceFeedsItem>,
    id: Seq<u8>,
    row: OracleTokenCurrency,
) -> Map<OracleKeyView, OracleTokenCurrency> {
    Map::new(
        |k: OracleKeyView| m.contains_key(k) || pair_keys(feeds, id).contains(k),
        |k: OracleKeyView|
            if pair_keys(feeds, id).contains(k) {
                row
            } else {
                m[k]
            },
    )
}

/// Registrations without the rows of an oracle's pairs.
pub open spec fn without_rows(
    m: Map<OracleKeyView, OracleTokenCurrency>,
    feeds: Seq<PriceFeedsItem>,
    id: Seq<u8>,
) -> Map<OracleKeyView, OracleTokenCurrency> {
    m.remove_keys(pair_keys(feeds, id))
}

/// The registration row of an oracle state.
pub open spec fn row_of(o: OracleView) -> OracleTokenCurrency {
    OracleTokenCurrency { weightage: o.weightage, height: o.height }
}

/// The registration history of an oracle, empty when it has none.
pub open spec fn history_of(h: Map<Seq<u8>, Vec<Oracle>>, id: Seq<u8>) -> Seq<Oracle> {
    if h.contains_key(id) {
        h[id]@
    } else {
        Seq::empty()
    }
}

/// The point of a feed's latest entry, if it has one.
pub open spec fn latest_point(feeds: Map<OracleKeyView, Vec<OraclePriceFeed>>, k: OracleKeyView) -> Option<FeedPoint> {
    if feeds.contains_key(k) && feeds[k]@.len() > 0 {
        Some(FeedPoint { time: feeds[k]@.last().time, amount: feeds[k]@.last().amount })
    } else {
        None
    }
}

/// The aggregation entries of the oracles registered for a pair, in row order.
pub open spec fn entries_for(
    rows: Seq<(OracleKeyView, OracleTokenCurrency)>,
    feeds: Map<OracleKeyView, Vec<OraclePriceFeed>>,
    token: Seq<char>,
    currency: Seq<char>,
) -> Seq<FeedEntry>
    decreases rows.len(),
{
    if rows.len() == 0 {
        Seq::empty()
    } else {
        let front = entries_for(rows.drop_last(), feeds, token, currency);
        let (k, row) = rows.last();
        if k.0 == token && k.1 == currency {
            front.push(FeedEntry { weightage: row.weightage, latest: latest_point(feeds, k) })
        } else {
            front
        }
    }
}

/// The value under a key, if any.
pub open spec fn opt_at<K, V>(m: Map<K, V>, k: K) -> Option<V> {
    if m.contains_key(k) {
        Some(m[k])
    } else {
        None
    }
}

/// The tickers of a pair, oldest first; empty when it has none.
pub open spec fn ticker_list(m: Map<(Seq<char>, Seq<char>), Vec<PriceTicker>>, k: (Seq<char>, Seq<char>)) -> Seq<PriceTicker> {
    if m.contains_key(k) {
        m[k]@
    } else {
        Seq::empty()
    }
}

/// A pair's tickers without the latest one when it is from block `height`.
pub open spec fn popped_ticker(t: Seq<PriceTicker>, height: u32) -> Seq<PriceTicker> {
    if t.len() > 0 && t.last().height == height {
        t.drop_last()
    } else {
        t
    }
}

pub open spec fn interval_list(
    m: Map<(Seq<char>, Seq<char>, u32), Vec<OraclePriceAggregatedInterval>>,
    k: (Seq<char>, Seq<char>, u32),
) -> Seq<OraclePriceAggregatedInterval> {
    if m.contains_key(k) {
        m[k]@
    } else {
        Seq::empty()
    }
}

proof fn lemma_with_rows_push(
    m: Map<OracleKeyView, OracleTokenCurrency>,
    feeds: Seq<PriceFeedsItem>,
    f: PriceFeedsItem,
    id: Seq<u8>,
    row: OracleTokenCurrency,
)
    ensures
        with_rows(m, feeds.push(f), id, row) == with_rows(m, feeds, id, row).insert(
            row_key(f, id),
            row,
        ),
{
    let s = feeds.push(f);
    assert forall|k: OracleKeyView| pair_keys(s, id).contains(k) == (pair_keys(feeds, id).contains(k)
        || k == row_key(f, id)) by {
        if pair_keys(feeds, id).contains(k) {
            let i = choose|i: int| 0 <= i < feeds.len() && row_key(feeds[i], id) == k;
            assert(row_key(s[i], id) == k);
        }
        if k == row_key(f, id) {
            assert(row_key(s[feeds.len() as int], id) == k);
        }
        if pair_keys(s, id).contains(k) {
            let i = choose|i: int| 0 <= i < s.len() && row_key(s[i], id) == k;
            if i < feeds.len() {
                assert(row_key(feeds[i], id) == k);
            }
        }
    }
    assert(with_rows(m, s, id, row) =~= with_rows(m, feeds, id, row).insert(row_key(f, id), row));
}

proof fn lemma_without_rows_push(
    m: Map<OracleKeyView, OracleTokenCurrency>,
    feeds: Seq<PriceFeedsItem>,
    f: PriceFeedsItem,
    id: Seq<u8>,
)
    ensures
        without_rows(m, feeds.push(f), id) == without_rows(m, feeds, id).remove(row_key(f, id)),
{
    let s = feeds.push(f);
    assert forall|k: OracleKeyView| pair_keys(s, id).contains(k) == (pair_keys(feeds, id).contains(k)
        || k == row_key(f, id)) by {
        if pair_keys(feeds, id).contains(k) {
            let i = choose|i: int| 0 <= i < feeds.len() && row_key(feeds[i], id) == k;
            assert(row_key(s[i], id) == k);
        }
        if k == row_key(f, id) {
            assert(row_key(s[feeds.len() as int], id) == k);
        }
        if pair_keys(s, id).contains(k) {
            let i = choose|i: int| 0 <= i < s.len() && row_key(s[i], id) == k;
            if i < feeds.len() {
                assert(row_key(feeds[i], id) == k);
            }
        }
    }
    assert(without_rows(m, s, id) =~= without_rows(m, feeds, id).remove(row_key(f, id)));
}

proof fn lemma_rows_empty(m: Map<OracleKeyView, OracleTokenCurrency>, id: Seq<u8>, row: OracleTokenCurrency)
    ensures
        with_rows(m, Seq::empty(), id, row) == m,
        without_rows(m, Seq::empty(), id) == m,
{
    assert(pair_keys(Seq::empty(), id) =~= Set::empty());
    assert(with_rows(m, Seq::empty(), id, row) =~= m);
    assert(without_rows(m, Seq::empty(), id) =~= m);
}

fn row_key_of(f: &PriceFeedsItem, id: &Vec<u8>) -> (r: OracleKey)
    ensures
        r@ == row_key(*f, id@),
{
    (f.token.clone(), f.currency.clone(), id.duplicate())
}

impl OracleIndex {
    pub open spec fn wf(&self) -> bool {
        &&& self.oracles.wf()
        &&& self.history.wf()
        &&& self.token_currency.wf()
        &&& self.feeds.wf()
        &&& self.aggregated.wf()
        &&& self.tickers.wf()
        &&& self.intervals.wf()
    }

    pub fn new() -> (r: OracleIndex)
        ensures
            r.wf(),
            r.consistent(),
            r.oracles@.is_empty(),
            r.token_currency@.is_empty(),
            r.aggregated@.is_empty(),
            r.intervals@.is_empty(),
    {
        let r = OracleIndex {
            oracles: Table::new(),
            history: Table::new(),
            token_currency: Table::new(),
            feeds: Table::new(),
            aggregated: Table::new(),
            tickers: Table::new(),
            intervals: Table::new(),
        };
        proof {
            assert forall|id: Seq<u8>| #[trigger] rows_of_id(r.token_currency@, id, r.oracles@.contains_key(id), latest_feeds(r.history@, id), latest_row(r.history@, id)) by {
                assert(history_of(r.history@, id) =~= Seq::<Oracle>::empty());
            }
            assert forall|id: Seq<u8>, i: int| 0 <= i < history_of(r.history@, id).len() implies (#[trigger] history_of(r.history@, id)[i]).id@ == id by {
                assert(history_of(r.history@, id) =~= Seq::<Oracle>::empty());
            }
        }
        r
    }

    /// Writes one registration row for each of an oracle's pairs.
    fn put_rows(&mut self, feeds: &Vec<PriceFeedsItem>, id: &Vec<u8>, row: OracleTokenCurrency)
        requires
            old(self).wf(),
        ensures
            final(self).wf(),
            final(self).token_currency@ == with_rows(old(self).token_currency@, feeds@, id@, row),
            final(self).oracles == old(self).oracles,
            final(self).history == old(self).history,
            final(self).feeds == old(self).feeds,
            final(self).aggregated == old(self).aggregated,
            final(self).tickers == old(self).tickers,
            final(self).intervals == old(self).intervals,
    {
        let ghost start = self.token_currency@;
        proof {
            lemma_rows_empty(start, id@, row);
            assert(feeds@.take(0) =~= Seq::<PriceFeedsItem>::empty());
        }
        let mut i: usize = 0;
        while i < feeds.len()
            invariant
                self.wf(),
                i <= feeds.len(),
                self.token_currency@ == with_rows(start, feeds@.take(i as int), id@, row),
                self.oracles == old(self).oracles,
                self.history == old(self).history,
                self.feeds == old(self).feeds,
                self.aggregated == old(self).aggregated,
                self.tickers == old(self).tickers,
                self.intervals == old(self).intervals,
            decreases feeds.len() - i,
        {
            let k = row_key_of(&feeds[i], id);
            self.token_currency.insert(k, row);
            proof {
                assert(feeds@.take(i + 1) =~= feeds@.take(i as int).push(feeds@[i as int]));
                lemma_with_rows_push(start, feeds@.take(i as int), feeds@[i as int], id@, row);
            }
            i = i + 1;
        }
        assert(feeds@.take(feeds.len() as int) =~= feeds@);
    }

    /// Deletes the registration rows of an oracle's pairs.
    fn delete_rows(&mut self, feeds: &Vec<PriceFeedsItem>, id: &Vec<u8>)
        requires
            old(self).wf(),
        ensures
            final(self).wf(),
            final(self).token_currency@ == without_rows(old(self).token_currency@, feeds@, id@),
            final(self).oracles == old(self).oracles,
            final(self).history == old(self).history,
            final(self).feeds == old(self).feeds,
            final(self).aggregated == old(self).aggregated,
            final(self).tickers == old(self).tickers,
            final(self).intervals == old(self).intervals,
    {
        let ghost start = self.token_currency@;
        proof {
            lemma_rows_empty(start, id@, OracleTokenCurrency { weightage: 0, height: 0 });
            assert(feeds@.take(0) =~= Seq::<PriceFeedsItem>::empty());
        }
        let mut i: usize = 0;
        while i < feeds.len()
            invariant
                self.wf(),
                i <= feeds.len(),
                self.token_currency@ == without_rows(start, feeds@.take(i as int), id@),
                self.oracles == old(self).oracles,
                self.history == old(self).history,
                self.feeds == old(self).feeds,
                self.aggregated == old(self).aggregated,
                self.tickers == old(self).tickers,
                self.intervals == old(self).intervals,
            decreases feeds.len() - i,
        {
            let k = row_key_of(&feeds[i], id);
            self.token_currency.remove(&k);
            proof {
                assert(feeds@.take(i + 1) =~= feeds@.take(i as int).push(feeds@[i as int]));
                lemma_without_rows_push(start, feeds@.take(i as int), feeds@[i as int], id@);
            }
            i = i + 1;
        }
        assert(feeds@.take(feeds.len() as int) =~= feeds@);
    }

    /// Appends a registration state to an oracle's history.
    fn push_history(&mut self, o: Oracle)
        requires
            old(self).wf(),
        ensures
            final(self).wf(),
            final(self).history@.contains_key(o.id@),
            final(self).history@[o.id@]@ == history_of(old(self).history@, o.id@).push(o),
            final(self).history@.remove(o.id@) == old(self).history@.remove(o.id@),
            final(self).oracles == old(self).oracles,
            final(self).token_currency == old(self).token_currency,
            final(self).feeds == old(self).feeds,
            final(self).aggregated == old(self).aggregated,
            final(self).tickers == old(self).tickers,
            final(self).intervals == old(self).intervals,
    {
        let id = o.id.duplicate();
        let mut list = match self.history.remove(&id) {
            Some(l) => l,
            None => Vec::new(),
        };
        list.push(o);
        self.history.insert(id, list);
        proof {
            assert(self.history@.remove(id@) =~= old(self).history@.remove(id@));
        }
    }

    /// Takes the latest registration state off an oracle's history.
    fn pop_history(&mut self, id: &Vec<u8>) -> (r: Option<Oracle>)
        requires
            old(self).wf(),
        ensures
            final(self).wf(),
            history_of(old(self).history@, id@).len() == 0 ==> r is None && *final(self) == *old(self),
            history_of(old(self).history@, id@).len() > 0 ==> r == Some(
                history_of(old(self).history@, id@).last(),
            ) && history_of(final(self).history@, id@) == history_of(old(self).history@, id@).drop_last(),
            final(self).history@.remove(id@) == old(self).history@.remove(id@),
            final(self).oracles == old(self).oracles,
            final(self).token_currency == old(self).token_currency,
            final(self).feeds == old(self).feeds,
            final(self).aggregated == old(self).aggregated,
            final(self).tickers == old(self).tickers,
            final(self).intervals == old(self).intervals,
    {
        match self.history.get(id) {
            None => {
                return None;
            },
            Some(l) => {
                if l.len() == 0 {
                    return None;
                }
            },
        }
        let mut list = match self.history.remove(id) {
            Some(l) => l,
            None => Vec::new(),
        };
        let last = list.pop();
        if list.len() > 0 {
            self.history.insert(id.duplicate(), list);
        } else {
            proof {
                assert(self.history@.remove(id@) =~= self.history@);
            }
        }
        proof {
            assert(self.history@.remove(id@) =~= old(self).history@.remove(id@));
            assert(history_of(self.history@, id@) =~= history_of(old(self).history@, id@).drop_last());
        }
        last
    }

    /// The latest registration state of an oracle, if it has a history.
    fn latest_history(&self, id: &Vec<u8>) -> (r: Option<Oracle>)
        requires
            self.wf(),
        ensures
            history_of(self.history@, id@).len() == 0 ==> r is None,
            history_of(self.history@, id@).len() > 0 ==> r is Some && r.unwrap()@
                == history_of(self.history@, id@).last()@,
    {
        match self.history.get(id) {
            None => None,
            Some(l) => {
                if l.len() == 0 {
                    None
                } else {
                    Some(l[l.len() - 1].duplicate())
                }
            },
        }
    }

    fn put_oracle(&mut self, o: Oracle)
        requires
            old(self).wf(),
        ensures
            final(self).wf(),
            final(self).oracles@ == old(self).oracles@.insert(o.id@, o),
            final(self).history == old(self).history,
            final(self).token_currency == old(self).token_currency,
            final(self).feeds == old(self).feeds,
            final(self).aggregated == old(self).aggregated,
            final(self).tickers == old(self).tickers,
            final(self).intervals == old(self).intervals,
    {
        let id = o.id.duplicate();
        self.oracles.insert(id, o);
    }

    fn delete_oracle(&mut self, id: &Vec<u8>)
        requires
            old(self).wf(),
        ensures
            final(self).wf(),
            final(self).oracles@ == old(self).oracles@.remove(id@),
            final(self).history == old(self).history,
            final(self).token_currency == old(self).token_currency,
            final(self).feeds == old(self).feeds,
            final(self).aggregated == old(self).aggregated,
            final(self).tickers == old(self).tickers,
            final(self).intervals == old(self).intervals,
    {
        self.oracles.remove(id);
    }
}

/// The rows of oracle `id` in `tc` are exactly its pairs in `feeds`, each
/// holding `row`, when `present`; there are none otherwise.
pub open spec fn rows_of_id(
    tc: Map<OracleKeyView, OracleTokenCurrency>,
    id: Seq<u8>,
    present: bool,
    feeds: Seq<PriceFeedsItem>,
    row: OracleTokenCurrency,
) -> bool {
    forall|k: OracleKeyView| k.2 == id ==> (#[trigger] tc.contains_key(k) == (present && pair_keys(feeds, id).contains(k)))
        && (tc.contains_key(k) ==> tc[k] == row)
}

/// Registrations, current oracles and histories agree: every history entry
/// carries its oracle's id, a current oracle is its latest history entry, and
/// the registration rows of an oracle are those of its latest entry while it
/// is current and none otherwise.
pub open spec fn consistent_maps(
    o: Map<Seq<u8>, Oracle>,
    h: Map<Seq<u8>, Vec<Oracle>>,
    tc: Map<OracleKeyView, OracleTokenCurrency>,
) -> bool {
    &&& forall|id: Seq<u8>, i: int| 0 <= i < history_of(h, id).len() ==> (#[trigger] history_of(h, id)[i]).id@ == id
    &&& forall|id: Seq<u8>| #[trigger] o.contains_key(id) ==> history_of(h, id).len() > 0 && o[id]@ == history_of(h, id).last()@
    &&& forall|id: Seq<u8>| #[trigger] rows_of_id(tc, id, o.contains_key(id), latest_feeds(h, id), latest_row(h, id))
}

/// The pairs of an oracle's latest history entry (none without history).
pub open spec fn latest_feeds(h: Map<Seq<u8>, Vec<Oracle>>, id: Seq<u8>) -> Seq<PriceFeedsItem> {
    if history_of(h, id).len() > 0 {
        history_of(h, id).last().price_feeds@
    } else {
        Seq::empty()
    }
}

/// The registration row of an oracle's latest history entry.
pub open spec fn latest_row(h: Map<Seq<u8>, Vec<Oracle>>, id: Seq<u8>) -> OracleTokenCurrency {
    if history_of(h, id).len() > 0 {
        row_of(history_of(h, id).last()@)
    } else {
        OracleTokenCurrency { weightage: 0, height: 0 }
    }
}

proof fn lemma_consistent_rows(
    o: Map<Seq<u8>, Oracle>,
    h: Map<Seq<u8>, Vec<Oracle>>,
    tc: Map<OracleKeyView, OracleTokenCurrency>,
    id: Seq<u8>,
)
    requires
        consistent_maps(o, h, tc),
    ensures
        rows_of_id(tc, id, o.contains_key(id), latest_feeds(h, id), latest_row(h, id)),
        o.contains_key(id) ==> history_of(h, id).len() > 0 && o[id]@ == history_of(h, id).last()@,
        forall|i: int| 0 <= i < history_of(h, id).len() ==> (#[trigger] history_of(h, id)[i]).id@ == id,
{
}

proof fn lemma_pair_keys_id(feeds: Seq<PriceFeedsItem>, id: Seq<u8>)
    ensures
        forall|k: OracleKeyView| #[trigger] pair_keys(feeds, id).contains(k) ==> k.2 == id,
{
    assert forall|k: OracleKeyView| #[trigger] pair_keys(feeds, id).contains(k) implies k.2 == id by {
        let i = choose|i: int| 0 <= i < feeds.len() && row_key(feeds[i], id) == k;
    }
}

/// Changing only what concerns oracle `id`, in a way that leaves its own
/// rows, state and history in agreement, keeps the maps consistent.
proof fn lemma_consistent_step(
    o0: Map<Seq<u8>, Oracle>,
    h0: Map<Seq<u8>, Vec<Oracle>>,
    tc0: Map<OracleKeyView, OracleTokenCurrency>,
    o1: Map<Seq<u8>, Oracle>,
    h1: Map<Seq<u8>, Vec<Oracle>>,
    tc1: Map<OracleKeyView, OracleTokenCurrency>,
    id: Seq<u8>,
)
    requires
        consistent_maps(o0, h0, tc0),
        o1.remove(id) == o0.remove(id),
        h1.remove(id) == h0.remove(id),
        forall|k: OracleKeyView| k.2 != id ==> #[trigger] opt_at(tc1, k) == opt_at(tc0, k),
        forall|i: int| 0 <= i < history_of(h1, id).len() ==> (#[trigger] history_of(h1, id)[i]).id@ == id,
        o1.contains_key(id) ==> history_of(h1, id).len() > 0 && o1[id]@ == history_of(h1, id).last()@,
        rows_of_id(tc1, id, o1.contains_key(id), latest_feeds(h1, id), latest_row(h1, id)),
    ensures
        consistent_maps(o1, h1, tc1),
{
    assert forall|x: Seq<u8>| x != id implies history_of(h1, x) == history_of(h0, x) && o1.contains_key(x) == o0.contains_key(x)
        && (o1.contains_key(x) ==> o1[x] == o0[x]) by {
        assert(h1.remove(id).contains_key(x) == h1.contains_key(x));
        assert(h0.remove(id).contains_key(x) == h0.contains_key(x));
        if h1.contains_key(x) {
            assert(h1.remove(id)[x] == h1[x]);
            assert(h0.remove(id)[x] == h0[x]);
        }
        assert(o1.remove(id).contains_key(x) == o1.contains_key(x));
        assert(o0.remove(id).contains_key(x) == o0.contains_key(x));
        if o1.contains_key(x) {
            assert(o1.remove(id)[x] == o1[x]);
            assert(o0.remove(id)[x] == o0[x]);
        }
    }
    assert forall|x: Seq<u8>, i: int| 0 <= i < history_of(h1, x).len() implies (#[trigger] history_of(h1, x)[i]).id@ == x by {
        if x != id {
            assert(history_of(h0, x)[i].id@ == x);
        }
    }
    assert forall|x: Seq<u8>| #[trigger] o1.contains_key(x) implies history_of(h1, x).len() > 0 && o1[x]@ == history_of(h1, x).last()@ by {
        if x != id {
            assert(o1.remove(id).contains_key(x));
            assert(o0.remove(id).contains_key(x));
            assert(o0.contains_key(x));
            assert(o1.remove(id)[x] == o1[x]);
            assert(o0.remove(id)[x] == o0[x]);
            assert(h1.remove(id).contains_key(x) == h1.contains_key(x));
            assert(h0.remove(id).contains_key(x) == h0.contains_key(x));
            if h1.contains_key(x) {
                assert(h1.remove(id)[x] == h1[x]);
                assert(h0.remove(id)[x] == h0[x]);
            }
            assert(history_of(h1, x) == history_of(h0, x));
        }
    }
    assert forall|x: Seq<u8>| #[trigger] rows_of_id(tc1, x, o1.contains_key(x), latest_feeds(h1, x), latest_row(h1, x)) by {
        if x != id {
            assert(rows_of_id(tc0, x, o0.contains_key(x), latest_feeds(h0, x), latest_row(h0, x)));
            assert forall|k: OracleKeyView| k.2 == x implies (#[trigger] tc1.contains_key(k) == (o1.contains_key(x) && pair_keys(latest_feeds(h1, x), x).contains(k)))
                && (tc1.contains_key(k) ==> tc1[k] == latest_row(h1, x)) by {
                assert(opt_at(tc1, k) == opt_at(tc0, k));
                assert(tc0.contains_key(k) == (o0.contains_key(x) && pair_keys(latest_feeds(h0, x), x).contains(k)));
            }
        }
    }
}

/// A pair-row update of one oracle leaves the rows of every other oracle.
proof fn lemma_rows_frame(
    tc: Map<OracleKeyView, OracleTokenCurrency>,
    del: Seq<PriceFeedsItem>,
    add: Seq<PriceFeedsItem>,
    id: Seq<u8>,
    row: OracleTokenCurrency,
)
    ensures
        forall|k: OracleKeyView| k.2 != id ==> #[trigger] opt_at(with_rows(without_rows(tc, del, id), add, id, row), k) == opt_at(tc, k),
        forall|k: OracleKeyView| k.2 != id ==> #[trigger] opt_at(without_rows(tc, del, id), k) == opt_at(tc, k),
        forall|k: OracleKeyView| k.2 != id ==> #[trigger] opt_at(with_rows(tc, add, id, row), k) == opt_at(tc, k),
{
    lemma_pair_keys_id(del, id);
    lemma_pair_keys_id(add, id);
}

/// Writing the rows of `feeds` over rows of `id` that are a subset of them,
/// each holding `row`, leaves exactly those rows.
proof fn lemma_rows_written(
    tc: Map<OracleKeyView, OracleTokenCurrency>,
    id: Seq<u8>,
    feeds: Seq<PriceFeedsItem>,
    row: OracleTokenCurrency,
)
    requires
        forall|k: OracleKeyView| k.2 == id && #[trigger] tc.contains_key(k) ==> pair_keys(feeds, id).contains(k) && tc[k] == row,
    ensures
        rows_of_id(with_rows(tc, feeds, id, row), id, true, feeds, row),
{
    lemma_pair_keys_id(feeds, id);
}

/// Deleting the rows of the pairs that hold all rows of `id` leaves none.
proof fn lemma_rows_cleared(
    tc: Map<OracleKeyView, OracleTokenCurrency>,
    id: Seq<u8>,
    present: bool,
    feeds: Seq<PriceFeedsItem>,
    row: OracleTokenCurrency,
)
    requires
        rows_of_id(tc, id, present, feeds, row),
    ensures
        forall|k: OracleKeyView| k.2 == id ==> !#[trigger] without_rows(tc, feeds, id).contains_key(k),
        rows_of_id(without_rows(tc, feeds, id), id, false, feeds, row),
{
}

impl OracleIndex {
    /// The oracles, histories and registration rows agree.
    pub open spec fn consistent(&self) -> bool {
        consistent_maps(self.oracles@, self.history@, self.token_currency@)
    }
}

impl AppointOracle {
    pub open spec fn state(&self, ctx: &Context) -> OracleView {
        OracleView {
            id: ctx.txid@,
            owner_address: self.script@,
            weightage: self.weightage,
            price_feeds: self.price_feeds@,
            height: ctx.block.height,
        }
    }

    fn make(&self, ctx: &Context) -> (r: Oracle)
        ensures
            r@ == self.state(ctx),
    {
        Oracle {
            id: ctx.txid.duplicate(),
            owner_address: self.script.duplicate(),
            weightage: self.weightage,
            price_feeds: copy_feeds(&self.price_feeds),
            height: ctx.block.height,
        }
    }

    /// Registers the oracle, appends it to its history and writes a row for
    /// each advertised pair (the rows of an earlier registration under the
    /// same id give way).
    pub fn index(&self, index: &mut OracleIndex, ctx: &Context)
        requires
            old(index).wf(),
            old(index).consistent(),
        ensures
            final(index).wf(),
            final(index).consistent(),
            final(index).oracles@.contains_key(ctx.txid@),
            final(index).oracles@[ctx.txid@]@ == self.state(ctx),
            final(index).oracles@.remove(ctx.txid@) == old(index).oracles@.remove(ctx.txid@),
            history_of(final(index).history@, ctx.txid@).len() == history_of(old(index).history@, ctx.txid@).len() + 1,
            history_of(final(index).history@, ctx.txid@).drop_last() == history_of(old(index).history@, ctx.txid@),
            history_of(final(index).history@, ctx.txid@).last()@ == self.state(ctx),
            final(index).history@.remove(ctx.txid@) == old(index).history@.remove(ctx.txid@),
            final(index).token_currency@ == with_rows(
                if history_of(old(index).history@, ctx.txid@).len() == 0 {
                    old(index).token_currency@
                } else {
                    without_rows(old(index).token_currency@, latest_feeds(old(index).history@, ctx.txid@), ctx.txid@)
                },
                self.price_feeds@,
                ctx.txid@,
                row_of(self.state(ctx)),
            ),
            final(index).feeds == old(index).feeds,
            final(index).aggregated == old(index).aggregated,
            final(index).tickers == old(index).tickers,
            final(index).intervals == old(index).intervals,
    {
        let ghost o0 = index.oracles@;
        let ghost h0 = index.history@;
        let ghost tc0 = index.token_currency@;
        let ghost id = ctx.txid@;
        let ghost base = if history_of(h0, id).len() == 0 { tc0 } else { without_rows(tc0, latest_feeds(h0, id), id) };
        match index.latest_history(&ctx.txid) {
            Some(prev) => {
                index.delete_rows(&prev.price_feeds, &ctx.txid);
            },
            None => {},
        }
        assert(index.token_currency@ == base);
        let o = self.make(ctx);
        index.put_oracle(o);
        let h = self.make(ctx);
        index.push_history(h);
        let row = OracleTokenCurrency { weightage: self.weightage, height: ctx.block.height };
        index.put_rows(&self.price_feeds, &ctx.txid, row);
        proof {
            let h1 = index.history@;
            assert(history_of(h1, id).drop_last() =~= history_of(h0, id));
            lemma_consistent_rows(o0, h0, tc0, id);
            if history_of(h0, id).len() > 0 {
                lemma_rows_cleared(tc0, id, o0.contains_key(id), latest_feeds(h0, id), latest_row(h0, id));
            }
            lemma_rows_written(base, id, self.price_feeds@, row);
            lemma_rows_frame(tc0, latest_feeds(h0, id), self.price_feeds@, id, row);
            assert forall|k: OracleKeyView| k.2 != id implies #[trigger] opt_at(index.token_currency@, k) == opt_at(tc0, k) by {
                assert(opt_at(with_rows(without_rows(tc0, latest_feeds(h0, id), id), self.price_feeds@, id, row), k) == opt_at(tc0, k));
                assert(opt_at(with_rows(tc0, self.price_feeds@, id, row), k) == opt_at(tc0, k));
            }
            assert forall|i: int| 0 <= i < history_of(h1, id).len() implies (#[trigger] history_of(h1, id)[i]).id@ == id by {
                if i < history_of(h0, id).len() {
                    assert(history_of(h1, id)[i] == history_of(h0, id)[i]);
                    assert(history_of(h0, id)[i].id@ == id);
                }
            }
            assert(index.oracles@.remove(id) =~= o0.remove(id));
            lemma_consistent_step(o0, h0, tc0, index.oracles@, h1, index.token_currency@, id);
        }
    }

    /// Undoes `index`: the oracle and its latest history entry go, with the
    /// rows of that entry.
    pub fn invalidate(&self, index: &mut OracleIndex, ctx: &Context)
        requires
            old(index).wf(),
            old(index).consistent(),
        ensures
            final(index).wf(),
            final(index).consistent(),
            final(index).oracles@ == old(index).oracles@.remove(ctx.txid@),
            history_of(final(index).history@, ctx.txid@) == if history_of(old(index).history@, ctx.txid@).len() > 0 {
                history_of(old(index).history@, ctx.txid@).drop_last()
            } else {
                history_of(old(index).history@, ctx.txid@)
            },
            final(index).history@.remove(ctx.txid@) == old(index).history@.remove(ctx.txid@),
            final(index).token_currency@ == if history_of(old(index).history@, ctx.txid@).len() > 0 {
                without_rows(old(index).token_currency@, latest_feeds(old(index).history@, ctx.txid@), ctx.txid@)
            } else {
                old(index).token_currency@
            },
            final(index).feeds == old(index).feeds,
            final(index).aggregated == old(index).aggregated,
            final(index).tickers == old(index).tickers,
            final(index).intervals == old(index).intervals,
    {
        let ghost o0 = index.oracles@;
        let ghost h0 = index.history@;
        let ghost tc0 = index.token_currency@;
        let ghost id = ctx.txid@;
        index.delete_oracle(&ctx.txid);
        match index.pop_history(&ctx.txid) {
            Some(e) => {
                index.delete_rows(&e.price_feeds, &ctx.txid);
            },
            None => {},
        }
        proof {
            let h1 = index.history@;
            lemma_consistent_rows(o0, h0, tc0, id);
            lemma_rows_cleared(tc0, id, o0.contains_key(id), latest_feeds(h0, id), latest_row(h0, id));
            lemma_rows_frame(tc0, latest_feeds(h0, id), Seq::empty(), id, latest_row(h0, id));
            if history_of(h0, id).len() == 0 {
                assert(!o0.contains_key(id));
            }
            assert forall|i: int| 0 <= i < history_of(h1, id).len() implies (#[trigger] history_of(h1, id)[i]).id@ == id by {
                assert(history_of(h1, id)[i] == history_of(h0, id)[i]);
                assert(history_of(h0, id)[i].id@ == id);
            }
            assert(index.oracles@.remove(id) =~= o0.remove(id));
            assert(rows_of_id(index.token_currency@, id, false, latest_feeds(h1, id), latest_row(h1, id)));
            lemma_consistent_step(o0, h0, tc0, index.oracles@, h1, index.token_currency@, id);
        }
    }
}

impl UpdateOracle {
    pub open spec fn state(&self, ctx: &Context) -> OracleView {
        OracleView {
            id: self.oracle_id@,
            owner_address: self.script@,
            weightage: self.weightage,
            price_feeds: self.price_feeds@,
            height: ctx.block.height,
        }
    }

    fn make(&self, ctx: &Context) -> (r: Oracle)
        ensures
            r@ == self.state(ctx),
    {
        Oracle {
            id: self.oracle_id.duplicate(),
            owner_address: self.script.duplicate(),
            weightage: self.weightage,
            price_feeds: copy_feeds(&self.price_feeds),
            height: ctx.block.height,
        }
    }

    /// Replaces a current oracle: the rows of its latest history entry give
    /// way to rows for the new pairs, and the new state joins its history.
    /// Fails, changing nothing, when the oracle is not current.
    pub fn index(&self, index: &mut OracleIndex, ctx: &Context) -> (r: Result<(), IndexerError>)
        requires
            old(index).wf(),
            old(index).consistent(),
        ensures
            final(index).wf(),
            final(index).consistent(),
            r is Err <==> !old(index).oracles@.contains_key(self.oracle_id@),
            r is Err ==> r == Err::<(), _>(IndexerError::OracleNotFound) && *final(index) == *old(index),
            r is Ok ==> {
                let prev = history_of(old(index).history@, self.oracle_id@).last()@;
                &&& final(index).oracles@.contains_key(self.oracle_id@)
                &&& final(index).oracles@[self.oracle_id@]@ == self.state(ctx)
                &&& final(index).oracles@.remove(self.oracle_id@) == old(index).oracles@.remove(self.oracle_id@)
                &&& history_of(final(index).history@, self.oracle_id@).len() == history_of(old(index).history@, self.oracle_id@).len() + 1
                &&& history_of(final(index).history@, self.oracle_id@).drop_last() == history_of(old(index).history@, self.oracle_id@)
                &&& history_of(final(index).history@, self.oracle_id@).last()@ == self.state(ctx)
                &&& final(index).history@.remove(self.oracle_id@) == old(index).history@.remove(self.oracle_id@)
                &&& final(index).token_currency@ == with_rows(
                    without_rows(old(index).token_currency@, prev.price_feeds, self.oracle_id@),
                    self.price_feeds@,
                    self.oracle_id@,
                    row_of(self.state(ctx)),
                )
                &&& final(index).feeds == old(index).feeds
                &&& final(index).aggregated == old(index).aggregated
                &&& final(index).tickers == old(index).tickers
                &&& final(index).intervals == old(index).intervals
            },
    {
        if !index.oracles.contains_key(&self.oracle_id) {
            return Err(IndexerError::OracleNotFound);
        }
        let ghost o0 = index.oracles@;
        let ghost h0 = index.history@;
        let ghost tc0 = index.token_currency@;
        let ghost id = self.oracle_id@;
        let prev = match index.latest_history(&self.oracle_id) {
            Some(p) => p,
            None => {
                return Err(IndexerError::OracleNotFound);
            },
        };
        let o = self.make(ctx);
        index.put_oracle(o);
        index.delete_rows(&prev.price_feeds, &self.oracle_id);
        let row = OracleTokenCurrency { weightage: self.weightage, height: ctx.block.height };
        index.put_rows(&self.price_feeds, &self.oracle_id, row);
        let h = self.make(ctx);
        index.push_history(h);
        proof {
            let h1 = index.history@;
            assert(history_of(h1, id).drop_last() =~= history_of(h0, id));
            lemma_consistent_rows(o0, h0, tc0, id);
            lemma_rows_cleared(tc0, id, o0.contains_key(id), latest_feeds(h0, id), latest_row(h0, id));
            lemma_rows_written(without_rows(tc0, latest_feeds(h0, id), id), id, self.price_feeds@, row);
            lemma_rows_frame(tc0, latest_feeds(h0, id), self.price_feeds@, id, row);
            assert forall|i: int| 0 <= i < history_of(h1, id).len() implies (#[trigger] history_of(h1, id)[i]).id@ == id by {
                if i < history_of(h0, id).len() {
                    assert(history_of(h1, id)[i] == history_of(h0, id)[i]);
                    assert(history_of(h0, id)[i].id@ == id);
                }
            }
            assert(index.oracles@.remove(id) =~= o0.remove(id));
            lemma_consistent_step(o0, h0, tc0, index.oracles@, h1, index.token_currency@, id);
        }
        Ok(())
    }

    /// Undoes `index`: the latest history entry goes, its rows give way to the
    /// rows of the entry before it, which becomes the oracle again. Fails,
    /// changing nothing, when the history holds fewer than two entries.
    pub fn invalidate(&self, index: &mut OracleIndex, ctx: &Context) -> (r: Result<(), IndexerError>)
        requires
            old(index).wf(),
            old(index).consistent(),
        ensures
            final(index).wf(),
            final(index).consistent(),
            r is Err <==> history_of(old(index).history@, self.oracle_id@).len() < 2,
            r is Err ==> *final(index) == *old(index),
            r is Ok ==> {
                let h = history_of(old(index).history@, self.oracle_id@);
                let cur = h.last()@;
                let prev = h[h.len() - 2]@;
                &&& history_of(final(index).history@, self.oracle_id@) == h.drop_last()
                &&& final(index).history@.remove(self.oracle_id@) == old(index).history@.remove(self.oracle_id@)
                &&& final(index).oracles@.contains_key(self.oracle_id@)
                &&& final(index).oracles@[self.oracle_id@]@ == (OracleView { id: self.oracle_id@, ..prev })
                &&& final(index).oracles@.remove(self.oracle_id@) == old(index).oracles@.remove(self.oracle_id@)
                &&& final(index).token_currency@ == with_rows(
                    without_rows(old(index).token_currency@, cur.price_feeds, self.oracle_id@),
                    prev.price_feeds,
                    self.oracle_id@,
                    row_of(prev),
                )
                &&& final(index).feeds == old(index).feeds
                &&& final(index).aggregated == old(index).aggregated
                &&& final(index).tickers == old(index).tickers
                &&& final(index).intervals == old(index).intervals
            },
    {
        match index.history.get(&self.oracle_id) {
            None => {
                return Err(IndexerError::OracleNotFound);
            },
            Some(l) => {
                if l.len() < 2 {
                    return Err(IndexerError::OracleNotFound);
                }
            },
        }
        let ghost o0 = index.oracles@;
        let ghost h0 = index.history@;
        let ghost tc0 = index.token_currency@;
        let ghost id = self.oracle_id@;
        let ghost h = history_of(index.history@, self.oracle_id@);
        let cur = match index.pop_history(&self.oracle_id) {
            Some(c) => c,
            None => {
                return Err(IndexerError::OracleNotFound);
            },
        };
        let prev = match index.latest_history(&self.oracle_id) {
            Some(p) => p,
            None => {
                return Err(IndexerError::OracleNotFound);
            },
        };
        proof {
            assert(h.drop_last().last() == h[h.len() - 2]);
        }
        index.delete_rows(&cur.price_feeds, &self.oracle_id);
        let row = OracleTokenCurrency { weightage: prev.weightage, height: prev.height };
        index.put_rows(&prev.price_feeds, &self.oracle_id, row);
        let restored = Oracle { id: self.oracle_id.duplicate(), ..prev };
        index.put_oracle(restored);
        proof {
            let h1 = index.history@;
            lemma_consistent_rows(o0, h0, tc0, id);
            lemma_rows_cleared(tc0, id, o0.contains_key(id), latest_feeds(h0, id), latest_row(h0, id));
            lemma_rows_written(without_rows(tc0, latest_feeds(h0, id), id), id, prev.price_feeds@, row);
            lemma_rows_frame(tc0, latest_feeds(h0, id), prev.price_feeds@, id, row);
            assert forall|i: int| 0 <= i < history_of(h1, id).len() implies (#[trigger] history_of(h1, id)[i]).id@ == id by {
                assert(history_of(h1, id)[i] == history_of(h0, id)[i]);
                assert(history_of(h0, id)[i].id@ == id);
            }
            assert(history_of(h0, id)[history_of(h0, id).len() - 2].id@ == id);
            assert(index.oracles@[id]@ == history_of(h1, id).last()@);
            assert(index.oracles@.remove(id) =~= o0.remove(id));
            lemma_consistent_step(o0, h0, tc0, index.oracles@, h1, index.token_currency@, id);
        }
        Ok(())
    }
}

impl RemoveOracle {
    /// Deletes a current oracle and the rows of its latest history entry.
    /// Fails, changing nothing, when the oracle is not current.
    pub fn index(&self, index: &mut OracleIndex, ctx: &Context) -> (r: Result<(), IndexerError>)
        requires
            old(index).wf(),
            old(index).consistent(),
        ensures
            final(index).wf(),
            final(index).consistent(),
            r is Err <==> !old(index).oracles@.contains_key(self.oracle_id@),
            r is Err ==> *final(index) == *old(index),
            r is Ok ==> {
                let prev = history_of(old(index).history@, self.oracle_id@).last()@;
                &&& final(index).oracles@ == old(index).oracles@.remove(self.oracle_id@)
                &&& final(index).history == old(index).history
                &&& final(index).token_currency@ == without_rows(
                    old(index).token_currency@,
                    prev.price_feeds,
                    self.oracle_id@,
                )
                &&& final(index).feeds == old(index).feeds
                &&& final(index).aggregated == old(index).aggregated
                &&& final(index).tickers == old(index).tickers
                &&& final(index).intervals == old(index).intervals
            },
    {
        if !index.oracles.contains_key(&self.oracle_id) {
            return Err(IndexerError::OracleNotFound);
        }
        let ghost o0 = index.oracles@;
        let ghost h0 = index.history@;
        let ghost tc0 = index.token_currency@;
        let ghost id = self.oracle_id@;
        let prev = match index.latest_history(&self.oracle_id) {
            Some(p) => p,
            None => {
                return Err(IndexerError::OracleNotFound);
            },
        };
        index.delete_oracle(&self.oracle_id);
        index.delete_rows(&prev.price_feeds, &self.oracle_id);
        proof {
            lemma_consistent_rows(o0, h0, tc0, id);
            lemma_rows_cleared(tc0, id, o0.contains_key(id), latest_feeds(h0, id), latest_row(h0, id));
            lemma_rows_frame(tc0, latest_feeds(h0, id), Seq::empty(), id, latest_row(h0, id));
            assert(index.oracles@.remove(id) =~= o0.remove(id));
            assert(index.history@.remove(id) =~= h0.remove(id));
            lemma_consistent_step(o0, h0, tc0, index.oracles@, index.history@, index.token_currency@, id);
        }
        Ok(())
    }

    /// Undoes `index`: the oracle and its rows come back from its latest
    /// history entry. Fails, changing nothing, when it has no history.
    pub fn invalidate(&self, index: &mut OracleIndex, ctx: &Context) -> (r: Result<(), IndexerError>)
        requires
            old(index).wf(),
            old(index).consistent(),
        ensures
            final(index).wf(),
            final(index).consistent(),
            r is Err <==> history_of(old(index).history@, self.oracle_id@).len() == 0,
            r is Err ==> *final(index) == *old(index),
            r is Ok ==> {
                let prev = history_of(old(index).history@, self.oracle_id@).last()@;
                &&& final(index).oracles@.contains_key(self.oracle_id@)
                &&& final(index).oracles@[self.oracle_id@]@ == (OracleView { id: self.oracle_id@, ..prev })
                &&& final(index).oracles@.remove(self.oracle_id@) == old(index).oracles@.remove(self.oracle_id@)
                &&& final(index).history == old(index).history
                &&& final(index).token_currency@ == with_rows(
                    old(index).token_currency@,
                    prev.price_feeds,
                    self.oracle_id@,
                    row_of(prev),
                )
                &&& final(index).feeds == old(index).feeds
                &&& final(index).aggregated == old(index).aggregated
                &&& final(index).tickers == old(index).tickers
                &&& final(index).intervals == old(index).intervals
            },
    {
        let ghost o0 = index.oracles@;
        let ghost h0 = index.history@;
        let ghost tc0 = index.token_currency@;
        let ghost id = self.oracle_id@;
        let prev = match index.latest_history(&self.oracle_id) {
            Some(p) => p,
            None => {
                return Err(IndexerError::OracleNotFound);
            },
        };
        let row = OracleTokenCurrency { weightage: prev.weightage, height: prev.height };
        index.put_rows(&prev.price_feeds, &self.oracle_id, row);
        let restored = Oracle { id: self.oracle_id.duplicate(), ..prev };
        index.put_oracle(restored);
        proof {
            lemma_consistent_rows(o0, h0, tc0, id);
            lemma_rows_written(tc0, id, prev.price_feeds@, row);
            lemma_rows_frame(tc0, Seq::empty(), prev.price_feeds@, id, row);
            assert(history_of(h0, id)[history_of(h0, id).len() - 1].id@ == id);
            assert(index.oracles@.remove(id) =~= o0.remove(id));
            assert(index.history@.remove(id) =~= h0.remove(id));
            lemma_consistent_step(o0, h0, tc0, index.oracles@, index.history@, index.token_currency@, id);
        }
        Ok(())
    }
}

/// Registering a new oracle and invalidating that registration gives back
/// the registrations, the current oracles and the oracle's (empty) history.
pub proof fn lemma_appoint_round_trip(
    o0: Map<Seq<u8>, Oracle>,
    h0: Map<Seq<u8>, Vec<Oracle>>,
    tc0: Map<OracleKeyView, OracleTokenCurrency>,
    id: Seq<u8>,
    feeds: Seq<PriceFeedsItem>,
    row: OracleTokenCurrency,
    o: Oracle,
)
    requires
        consistent_maps(o0, h0, tc0),
        history_of(h0, id).len() == 0,
    ensures
        without_rows(with_rows(tc0, feeds, id, row), feeds, id) == tc0,
        o0.insert(id, o).remove(id) == o0,
{
    assert(!o0.contains_key(id));
    lemma_consistent_rows(o0, h0, tc0, id);
    lemma_pair_keys_id(feeds, id);
    assert(without_rows(with_rows(tc0, feeds, id, row), feeds, id) =~= tc0) by {
        assert forall|k: OracleKeyView| pair_keys(feeds, id).contains(k) implies !tc0.contains_key(k) by {}
    }
    assert(o0.insert(id, o).remove(id) =~= o0);
}

/// Rows of oracle `id` that are exactly the pairs of `feeds` with `row` are
/// given back by deleting the rows of `del`, which hold every row of `id`
/// in `mid`, and writing those of `feeds` again.
proof fn lemma_rows_restore(
    tc0: Map<OracleKeyView, OracleTokenCurrency>,
    mid: Map<OracleKeyView, OracleTokenCurrency>,
    id: Seq<u8>,
    del: Seq<PriceFeedsItem>,
    feeds: Seq<PriceFeedsItem>,
    row: OracleTokenCurrency,
)
    requires
        rows_of_id(tc0, id, true, feeds, row),
        forall|k: OracleKeyView| k.2 != id ==> #[trigger] opt_at(mid, k) == opt_at(tc0, k),
        forall|k: OracleKeyView| k.2 == id && #[trigger] mid.contains_key(k) ==> pair_keys(del, id).contains(k),
    ensures
        with_rows(without_rows(mid, del, id), feeds, id, row) == tc0,
{
    lemma_pair_keys_id(feeds, id);
    lemma_pair_keys_id(del, id);
    let r = with_rows(without_rows(mid, del, id), feeds, id, row);
    assert forall|k: OracleKeyView| #[trigger] r.contains_key(k) == tc0.contains_key(k) by {
        if k.2 != id {
            assert(opt_at(mid, k) == opt_at(tc0, k));
        } else {
            assert(tc0.contains_key(k) == pair_keys(feeds, id).contains(k));
        }
    }
    assert forall|k: OracleKeyView| #[trigger] r.contains_key(k) implies r[k] == tc0[k] by {
        if k.2 != id {
            assert(opt_at(mid, k) == opt_at(tc0, k));
        }
    }
    assert(r =~= tc0);
}

/// Replacing an oracle and invalidating the replacement gives back its
/// registration rows, and the restored oracle is the one that was current.
pub proof fn lemma_update_round_trip(
    o0: Map<Seq<u8>, Oracle>,
    h0: Map<Seq<u8>, Vec<Oracle>>,
    tc0: Map<OracleKeyView, OracleTokenCurrency>,
    id: Seq<u8>,
    feeds: Seq<PriceFeedsItem>,
    row: OracleTokenCurrency,
)
    requires
        consistent_maps(o0, h0, tc0),
        o0.contains_key(id),
    ensures
        ({
            let prev = history_of(h0, id).last()@;
            let mid = with_rows(without_rows(tc0, prev.price_feeds, id), feeds, id, row);
            &&& with_rows(without_rows(mid, feeds, id), prev.price_feeds, id, row_of(prev)) == tc0
            &&& o0[id]@ == (OracleView { id, ..prev })
        }),
{
    let prev = history_of(h0, id).last()@;
    lemma_consistent_rows(o0, h0, tc0, id);
    assert(history_of(h0, id)[history_of(h0, id).len() - 1].id@ == id);
    lemma_rows_frame(tc0, prev.price_feeds, feeds, id, row);
    let mid = with_rows(without_rows(tc0, prev.price_feeds, id), feeds, id, row);
    lemma_pair_keys_id(feeds, id);
    assert forall|k: OracleKeyView| k.2 != id implies #[trigger] opt_at(mid, k) == opt_at(tc0, k) by {
        assert(opt_at(with_rows(without_rows(tc0, prev.price_feeds, id), feeds, id, row), k) == opt_at(tc0, k));
    }
    assert forall|k: OracleKeyView| k.2 == id && #[trigger] mid.contains_key(k) implies pair_keys(feeds, id).contains(k) by {
        assert(tc0.contains_key(k) == pair_keys(prev.price_feeds, id).contains(k));
    }
    lemma_rows_restore(tc0, mid, id, feeds, prev.price_feeds, row_of(prev));
}

/// Removing an oracle and invalidating the removal gives back its
/// registration rows, and the restored oracle is the one that was current.
pub proof fn lemma_remove_round_trip(
    o0: Map<Seq<u8>, Oracle>,
    h0: Map<Seq<u8>, Vec<Oracle>>,
    tc0: Map<OracleKeyView, OracleTokenCurrency>,
    id: Seq<u8>,
)
    requires
        consistent_maps(o0, h0, tc0),
        o0.contains_key(id),
    ensures
        ({
            let prev = history_of(h0, id).last()@;
            &&& with_rows(without_rows(tc0, prev.price_feeds, id), prev.price_feeds, id, row_of(prev)) == tc0
            &&& o0[id]@ == (OracleView { id, ..prev })
        }),
{
    let prev = history_of(h0, id).last()@;
    lemma_consistent_rows(o0, h0, tc0, id);
    assert(history_of(h0, id)[history_of(h0, id).len() - 1].id@ == id);
    assert forall|k: OracleKeyView| k.2 == id && #[trigger] tc0.contains_key(k) implies pair_keys(prev.price_feeds, id).contains(k) by {}
    lemma_rows_restore(tc0, tc0, id, prev.price_feeds, prev.price_feeds, row_of(prev));
}

} // verus!
