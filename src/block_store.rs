//! Persistence of blocks, transactions, receipts, logs and bytecode in typed
//! columns, and the removal of the latest block on a reorganisation.
use vstd::prelude::*;
use crate::columns::{latest_key, number_key, AddressCodeMap, AddressLogsMap, BlockDeployedCodeHashes, BlockMap, Blocks, Column, LatestBlockNumber, Receipts, Transactions};
use crate::hex::{hex_text, to_hex};
use crate::table::{keys_distinct, rows_map, Key, Table};
use vstd::string::StringExecFns;

verus! {

/// A transaction envelope with its hash.
pub struct Transaction {
    pub hash: Vec<u8>,
    pub raw: Vec<u8>,
}

/// A transaction as (hash, envelope).
pub type TxView = (Seq<u8>, Seq<u8>);

impl View for Transaction {
    type V = TxView;

    open spec fn view(&self) -> TxView {
        (self.hash@, self.raw@)
    }
}

impl Transaction {
    pub fn duplicate(&self) -> (r: Transaction)
        ensures
            r@ == self@,
    {
        Transaction { hash: self.hash.duplicate(), raw: self.raw.duplicate() }
    }
}

/// The views of a column of transactions.
pub open spec fn tx_views(m: Map<Seq<u8>, Transaction>) -> Map<Seq<u8>, TxView> {
    Map::new(|k: Seq<u8>| m.contains_key(k), |k: Seq<u8>| m[k]@)
}

/// A sealed block.
pub struct Block {
    pub number: u64,
    pub hash: Vec<u8>,
    pub parent_hash: Vec<u8>,
    pub state_root: Vec<u8>,
    pub timestamp: u64,
    pub gas_used: u64,
    pub logs_bloom: Vec<u8>,
    pub transactions: Vec<Transaction>,
}

/// A log emitted during execution.
pub struct Log {
    pub address: Vec<u8>,
    pub topics: Vec<Vec<u8>>,
    pub data: Vec<u8>,
}

/// The receipt of one transaction.
pub struct Receipt {
    pub tx_hash: Vec<u8>,
    pub status: bool,
    pub used_gas: u64,
    pub logs_bloom: Vec<u8>,
    pub logs: Vec<Log>,
}

/// Where a log stands: its transaction and its position in the block.
pub struct LogIndex {
    pub tx_hash: Vec<u8>,
    pub log_index: u64,
}

/// Why a lookup failed.
#[derive(Clone, Copy, Debug, PartialEq, Eq, Structural)]
pub enum StoreError {
    NoSuchBlock,
}

/// The block, transaction, receipt, log and code columns.
pub struct BlockStore {
    blocks: Table<Vec<u8>, Block>,
    transactions: Table<Vec<u8>, Transaction>,
    receipts: Table<Vec<u8>, Receipt>,
    block_map: Table<Vec<u8>, u64>,
    latest: Table<Vec<u8>, u64>,
    logs: Table<Vec<u8>, Table<Vec<u8>, Vec<LogIndex>>>,
    code: Table<Vec<u8>, Vec<u8>>,
    block_codes: Table<Vec<u8>, Vec<Vec<u8>>>,
}

/// The contents of every column.
pub struct StoreView {
    pub blocks: Map<Seq<u8>, Block>,
    pub transactions: Map<Seq<u8>, TxView>,
    pub receipts: Map<Seq<u8>, Receipt>,
    pub block_map: Map<Seq<u8>, u64>,
    pub latest: Map<Seq<u8>, u64>,
    pub logs: Map<Seq<u8>, Table<Vec<u8>, Vec<LogIndex>>>,
    pub code: Map<Seq<u8>, Vec<u8>>,
    pub block_codes: Map<Seq<u8>, Vec<Vec<u8>>>,
}

impl View for BlockStore {
    type V = StoreView;

    closed spec fn view(&self) -> StoreView {
        StoreView {
            blocks: self.blocks@,
            transactions: tx_views(self.transactions@),
            receipts: self.receipts@,
            block_map: self.block_map@,
            latest: self.latest@,
            logs: self.logs@,
            code: self.code@,
            block_codes: self.block_codes@,
        }
    }
}

/// A map after each (key, value) pair is written in turn.
pub open spec fn put_all<V>(m: Map<Seq<u8>, V>, kvs: Seq<(Seq<u8>, V)>) -> Map<Seq<u8>, V>
    decreases kvs.len(),
{
    if kvs.len() == 0 {
        m
    } else {
        put_all(m, kvs.drop_last()).insert(kvs.last().0, kvs.last().1)
    }
}

/// A map after each (key, value) pair is written in turn where its key is
/// still absent; present keys keep their values.
pub open spec fn put_new<V>(m: Map<Seq<u8>, V>, kvs: Seq<(Seq<u8>, V)>) -> Map<Seq<u8>, V>
    decreases kvs.len(),
{
    if kvs.len() == 0 {
        m
    } else {
        let front = put_new(m, kvs.drop_last());
        if front.contains_key(kvs.last().0) {
            front
        } else {
            front.insert(kvs.last().0, kvs.last().1)
        }
    }
}

/// The keys of a list of pairs, as a set.
pub open spec fn entry_keys<V>(kvs: Seq<(Seq<u8>, V)>) -> Set<Seq<u8>> {
    Set::new(|k: Seq<u8>| exists|i: int| 0 <= i < kvs.len() && kvs[i].0 == k)
}

proof fn lemma_put_new_dom<V>(m: Map<Seq<u8>, V>, kvs: Seq<(Seq<u8>, V)>, k: Seq<u8>)
    ensures
        put_new(m, kvs).contains_key(k) == (m.contains_key(k) || entry_keys(kvs).contains(k)),
        m.contains_key(k) ==> put_new(m, kvs)[k] == m[k],
    decreases kvs.len(),
{
    if kvs.len() > 0 {
        let front = kvs.drop_last();
        lemma_put_new_dom(m, front, k);
        if entry_keys(front).contains(k) {
            let i = choose|i: int| 0 <= i < front.len() && front[i].0 == k;
            assert(kvs[i].0 == k);
        }
        if entry_keys(kvs).contains(k) {
            let i = choose|i: int| 0 <= i < kvs.len() && kvs[i].0 == k;
            if i < front.len() {
                assert(front[i].0 == k);
            }
        }
    } else {
        assert(!entry_keys(kvs).contains(k));
    }
}

/// Writing pairs where absent and then removing the keys that were absent
/// gives back the map.
proof fn lemma_put_new_remove<V>(m: Map<Seq<u8>, V>, kvs: Seq<(Seq<u8>, V)>)
    ensures
        put_new(m, kvs).remove_keys(entry_keys(kvs).difference(m.dom())) == m,
{
    let d = entry_keys(kvs).difference(m.dom());
    let w = put_new(m, kvs);
    assert forall|k: Seq<u8>| #[trigger] w.remove_keys(d).contains_key(k) == m.contains_key(k) by {
        lemma_put_new_dom(m, kvs, k);
    }
    assert forall|k: Seq<u8>| #[trigger] w.remove_keys(d).contains_key(k) implies w.remove_keys(d)[k] == m[k] by {
        lemma_put_new_dom(m, kvs, k);
    }
    assert(w.remove_keys(d) =~= m);
}

/// The byte strings of a list, as a set.
pub open spec fn keys_of(s: Seq<Vec<u8>>) -> Set<Seq<u8>> {
    Set::new(|k: Seq<u8>| exists|i: int| 0 <= i < s.len() && s[i]@ == k)
}

pub open spec fn tx_entries(txs: Seq<Transaction>) -> Seq<(Seq<u8>, TxView)> {
    txs.map_values(|t: Transaction| (t.hash@, t@))
}

pub open spec fn receipt_entries(rs: Seq<Receipt>) -> Seq<(Seq<u8>, Receipt)> {
    rs.map_values(|r: Receipt| (r.tx_hash@, r))
}

/// The hashes of a block's transactions.
pub open spec fn tx_hashes(txs: Seq<Transaction>) -> Set<Seq<u8>> {
    Set::new(|k: Seq<u8>| exists|i: int| 0 <= i < txs.len() && txs[i].hash@ == k)
}

/// The block a hash leads to through the block map, if any.
pub open spec fn block_by_hash(v: StoreView, hash: Seq<u8>) -> Option<Block> {
    if v.block_map.contains_key(hash) && v.blocks.contains_key(number_key(v.block_map[hash])) {
        Some(v.blocks[number_key(v.block_map[hash])])
    } else {
        None
    }
}

/// The latest block, if the pointer is set and its block is stored.
pub open spec fn latest_block(v: StoreView) -> Option<Block> {
    if v.latest.contains_key(latest_key()) && v.blocks.contains_key(number_key(v.latest[latest_key()])) {
        Some(v.blocks[number_key(v.latest[latest_key()])])
    } else {
        None
    }
}

/// The columns after the latest block is disconnected: its transactions,
/// receipts, logs, hash entry and the code first stored in it go, and the
/// latest pointer moves to its parent (or is cleared when the parent is unknown).
pub open spec fn disconnected(v: StoreView) -> StoreView {
    match latest_block(v) {
        None => v,
        Some(b) => {
            let k = number_key(b.number);
            let hashes = tx_hashes(b.transactions@);
            let mid = StoreView {
                blocks: v.blocks.remove(k),
                block_map: v.block_map.remove(b.hash@),
                ..v
            };
            let latest = match block_by_hash(mid, b.parent_hash@) {
                Some(p) => v.latest.insert(latest_key(), p.number),
                None => v.latest.remove(latest_key()),
            };
            let code = if v.block_codes.contains_key(k) {
                v.code.remove_keys(keys_of(v.block_codes[k]@))
            } else {
                v.code
            };
            StoreView {
                blocks: v.blocks.remove(k),
                transactions: v.transactions.remove_keys(hashes),
                receipts: v.receipts.remove_keys(hashes),
                block_map: v.block_map.remove(b.hash@),
                latest,
                logs: v.logs.remove(k),
                code,
                block_codes: v.block_codes.remove(k),
            }
        },
    }
}

proof fn lemma_put_all_dom<V>(m: Map<Seq<u8>, V>, kvs: Seq<(Seq<u8>, V)>, k: Seq<u8>)
    ensures
        put_all(m, kvs).contains_key(k) == (m.contains_key(k) || exists|i: int| 0 <= i < kvs.len() && kvs[i].0 == k),
        !(exists|i: int| 0 <= i < kvs.len() && kvs[i].0 == k) && m.contains_key(k) ==> put_all(m, kvs)[k] == m[k],
    decreases kvs.len(),
{
    if kvs.len() > 0 {
        let front = kvs.drop_last();
        lemma_put_all_dom(m, front, k);
        if exists|i: int| 0 <= i < front.len() && front[i].0 == k {
            let i = choose|i: int| 0 <= i < front.len() && front[i].0 == k;
            assert(kvs[i].0 == k);
        }
        if exists|i: int| 0 <= i < kvs.len() && kvs[i].0 == k {
            let i = choose|i: int| 0 <= i < kvs.len() && kvs[i].0 == k;
            if i < front.len() {
                assert(front[i].0 == k);
            }
        }
    }
}

/// Writing pairs whose keys are all in `ks` and then removing `ks` leaves the
/// map without `ks`.
proof fn lemma_put_all_remove<V>(m: Map<Seq<u8>, V>, kvs: Seq<(Seq<u8>, V)>, ks: Set<Seq<u8>>)
    requires
        forall|i: int| 0 <= i < kvs.len() ==> ks.contains(#[trigger] kvs[i].0),
    ensures
        put_all(m, kvs).remove_keys(ks) == m.remove_keys(ks),
{
    assert forall|k: Seq<u8>| #[trigger] put_all(m, kvs).remove_keys(ks).contains_key(k) == m.remove_keys(ks).contains_key(k) by {
        lemma_put_all_dom(m, kvs, k);
        if !ks.contains(k) && exists|i: int| 0 <= i < kvs.len() && kvs[i].0 == k {
            let i = choose|i: int| 0 <= i < kvs.len() && kvs[i].0 == k;
            assert(ks.contains(kvs[i].0));
        }
    }
    assert forall|k: Seq<u8>| #[trigger] put_all(m, kvs).remove_keys(ks).contains_key(k) implies put_all(m, kvs).remove_keys(ks)[k] == m.remove_keys(ks)[k] by {
        lemma_put_all_dom(m, kvs, k);
        if exists|i: int| 0 <= i < kvs.len() && kvs[i].0 == k {
            let i = choose|i: int| 0 <= i < kvs.len() && kvs[i].0 == k;
            assert(ks.contains(kvs[i].0));
        }
    }
    assert(put_all(m, kvs).remove_keys(ks) =~= m.remove_keys(ks));
}

proof fn lemma_keys_of_push(s: Seq<Vec<u8>>, x: Vec<u8>)
    ensures
        keys_of(s.push(x)) == keys_of(s).insert(x@),
{
    let t = s.push(x);
    assert forall|k: Seq<u8>| keys_of(t).contains(k) == keys_of(s).insert(x@).contains(k) by {
        if keys_of(s).contains(k) {
            let i = choose|i: int| 0 <= i < s.len() && s[i]@ == k;
            assert(t[i]@ == k);
        }
        if k == x@ {
            assert(t[s.len() as int]@ == k);
        }
        if keys_of(t).contains(k) {
            let i = choose|i: int| 0 <= i < t.len() && t[i]@ == k;
            if i < s.len() {
                assert(s[i]@ == k);
            }
        }
    }
    assert(keys_of(t) =~= keys_of(s).insert(x@));
}

/// Removes every key of a list from a table.
fn remove_all<V>(t: &mut Table<Vec<u8>, V>, keys: &Vec<Vec<u8>>)
    requires
        old(t).wf(),
    ensures
        final(t).wf(),
        final(t)@ == old(t)@.remove_keys(keys_of(keys@)),
{
    let mut i: usize = 0;
    assert(keys_of(keys@.take(0)) =~= Set::empty());
    assert(old(t)@.remove_keys(Set::empty()) =~= old(t)@);
    while i < keys.len()
        invariant
            t.wf(),
            i <= keys.len(),
            t@ == old(t)@.remove_keys(keys_of(keys@.take(i as int))),
        decreases keys.len() - i,
    {
        t.remove(&keys[i]);
        proof {
            assert(keys@.take(i + 1) =~= keys@.take(i as int).push(keys@[i as int]));
            lemma_keys_of_push(keys@.take(i as int), keys@[i as int]);
            assert(t@ =~= old(t)@.remove_keys(keys_of(keys@.take(i + 1))));
        }
        i = i + 1;
    }
    assert(keys@.take(keys.len() as int) =~= keys@);
}

fn hashes_of(txs: &Vec<Transaction>) -> (r: Vec<Vec<u8>>)
    ensures
        keys_of(r@) == tx_hashes(txs@),
{
    let mut out: Vec<Vec<u8>> = Vec::new();
    let mut i: usize = 0;
    while i < txs.len()
        invariant
            i <= txs.len(),
            out.len() == i,
            forall|j: int| 0 <= j < i ==> (#[trigger] out@[j])@ == txs@[j].hash@,
        decreases txs.len() - i,
    {
        out.push(txs[i].hash.duplicate());
        i = i + 1;
    }
    assert forall|k: Seq<u8>| keys_of(out@).contains(k) == tx_hashes(txs@).contains(k) by {
        if keys_of(out@).contains(k) {
            let j = choose|j: int| 0 <= j < out.len() && out@[j]@ == k;
            assert(txs@[j].hash@ == k);
        }
        if tx_hashes(txs@).contains(k) {
            let j = choose|j: int| 0 <= j < txs.len() && txs@[j].hash@ == k;
            assert(out@[j]@ == k);
        }
    }
    assert(keys_of(out@) =~= tx_hashes(txs@));
    out
}

pub open spec fn code_entries(codes: Seq<(Vec<u8>, Vec<u8>)>) -> Seq<(Seq<u8>, Vec<u8>)> {
    codes.map_values(|c: (Vec<u8>, Vec<u8>)| (c.0@, c.1))
}

pub open spec fn code_hashes(codes: Seq<(Vec<u8>, Vec<u8>)>) -> Set<Seq<u8>> {
    Set::new(|k: Seq<u8>| exists|i: int| 0 <= i < codes.len() && codes[i].0@ == k)
}

/// The code hash list of a block, empty when it has none.
pub open spec fn block_code_list(bc: Map<Seq<u8>, Vec<Vec<u8>>>, k: Seq<u8>) -> Seq<Vec<u8>> {
    if bc.contains_key(k) {
        bc[k]@
    } else {
        Seq::empty()
    }
}

pub open spec fn log_entries(logs: Seq<(Vec<u8>, Vec<LogIndex>)>) -> Seq<(Seq<u8>, Vec<LogIndex>)> {
    logs.map_values(|e: (Vec<u8>, Vec<LogIndex>)| (e.0@, e.1))
}

/// The log indices by address of a block, none when it has none.
pub open spec fn block_logs(logs: Map<Seq<u8>, Table<Vec<u8>, Vec<LogIndex>>>, k: Seq<u8>) -> Map<Seq<u8>, Vec<LogIndex>> {
    if logs.contains_key(k) {
        logs[k]@
    } else {
        Map::empty()
    }
}

/// `w` is `v` after block `b` was committed: the block, its hash entry and its
/// transactions, the receipts `rs`, logs under its number, the code writes
/// `codes` recorded under its number, and the latest pointer set to it.
pub open spec fn committed(
    v: StoreView,
    w: StoreView,
    b: Block,
    rs: Seq<Receipt>,
    codes: Seq<(Vec<u8>, Vec<u8>)>,
) -> bool {
    let k = number_key(b.number);
    &&& w.blocks == v.blocks.insert(k, b)
    &&& w.transactions == put_all(v.transactions, tx_entries(b.transactions@))
    &&& w.block_map == v.block_map.insert(b.hash@, b.number)
    &&& w.receipts == put_all(v.receipts, receipt_entries(rs))
    &&& w.logs.remove(k) == v.logs.remove(k)
    &&& w.code == put_new(v.code, code_entries(codes))
    &&& w.block_codes.remove(k) == v.block_codes.remove(k)
    &&& keys_of(block_code_list(w.block_codes, k)) == keys_of(block_code_list(v.block_codes, k)).union(
        code_hashes(codes).difference(v.code.dom()),
    )
    &&& w.latest == v.latest.insert(latest_key(), b.number)
}

/// `b` can follow the chain of `v`: it, its transactions and its hash are not
/// stored yet, its receipts belong to its transactions, and the latest pointer
/// is its parent's number (or unset, when its parent is not stored). Code may
/// already be stored.
pub open spec fn fresh_for(v: StoreView, b: Block, rs: Seq<Receipt>, codes: Seq<(Vec<u8>, Vec<u8>)>) -> bool {
    let k = number_key(b.number);
    &&& !v.blocks.contains_key(k)
    &&& !v.logs.contains_key(k)
    &&& !v.block_codes.contains_key(k)
    &&& !v.block_map.contains_key(b.hash@)
    &&& forall|h: Seq<u8>| tx_hashes(b.transactions@).contains(h) ==> !v.transactions.contains_key(h)
        && !v.receipts.contains_key(h)
    &&& forall|i: int| 0 <= i < rs.len() ==> tx_hashes(b.transactions@).contains(#[trigger] rs[i].tx_hash@)
    &&& match block_by_hash(v, b.parent_hash@) {
        Some(p) => v.latest == Map::<Seq<u8>, u64>::empty().insert(latest_key(), p.number),
        None => v.latest == Map::<Seq<u8>, u64>::empty(),
    }
}

/// A column with a value type, read from the store.
pub trait TypedColumn: Column {
    type Type;

    spec fn spec_table(store: &BlockStore) -> Table<Vec<u8>, Self::Type>;

    fn table(store: &BlockStore) -> (r: &Table<Vec<u8>, Self::Type>)
        ensures
            *r == Self::spec_table(store),
            store.wf() ==> r.wf(),
    ;
}

impl TypedColumn for Blocks {
    type Type = Block;

    open spec fn spec_table(store: &BlockStore) -> Table<Vec<u8>, Block> {
        store.blocks_table()
    }

    fn table(store: &BlockStore) -> (r: &Table<Vec<u8>, Block>) {
        &store.blocks
    }
}

impl TypedColumn for Transactions {
    type Type = Transaction;

    open spec fn spec_table(store: &BlockStore) -> Table<Vec<u8>, Transaction> {
        store.transactions_table()
    }

    fn table(store: &BlockStore) -> (r: &Table<Vec<u8>, Transaction>) {
        &store.transactions
    }
}

impl TypedColumn for Receipts {
    type Type = Receipt;

    open spec fn spec_table(store: &BlockStore) -> Table<Vec<u8>, Receipt> {
        store.receipts_table()
    }

    fn table(store: &BlockStore) -> (r: &Table<Vec<u8>, Receipt>) {
        &store.receipts
    }
}

impl TypedColumn for BlockMap {
    type Type = u64;

    open spec fn spec_table(store: &BlockStore) -> Table<Vec<u8>, u64> {
        store.block_map_table()
    }

    fn table(store: &BlockStore) -> (r: &Table<Vec<u8>, u64>) {
        &store.block_map
    }
}

impl TypedColumn for LatestBlockNumber {
    type Type = u64;

    open spec fn spec_table(store: &BlockStore) -> Table<Vec<u8>, u64> {
        store.latest_table()
    }

    fn table(store: &BlockStore) -> (r: &Table<Vec<u8>, u64>) {
        &store.latest
    }
}

impl TypedColumn for AddressLogsMap {
    type Type = Table<Vec<u8>, Vec<LogIndex>>;

    open spec fn spec_table(store: &BlockStore) -> Table<Vec<u8>, Table<Vec<u8>, Vec<LogIndex>>> {
        store.logs_table()
    }

    fn table(store: &BlockStore) -> (r: &Table<Vec<u8>, Table<Vec<u8>, Vec<LogIndex>>>) {
        &store.logs
    }
}

impl TypedColumn for AddressCodeMap {
    type Type = Vec<u8>;

    open spec fn spec_table(store: &BlockStore) -> Table<Vec<u8>, Vec<u8>> {
        store.code_table()
    }

    fn table(store: &BlockStore) -> (r: &Table<Vec<u8>, Vec<u8>>) {
        &store.code
    }
}

impl TypedColumn for BlockDeployedCodeHashes {
    type Type = Vec<Vec<u8>>;

    open spec fn spec_table(store: &BlockStore) -> Table<Vec<u8>, Vec<Vec<u8>>> {
        store.block_codes_table()
    }

    fn table(store: &BlockStore) -> (r: &Table<Vec<u8>, Vec<Vec<u8>>>) {
        &store.block_codes
    }
}

/// Which columns a dump lists.
#[derive(Clone, Copy, Debug, PartialEq, Eq, Structural)]
pub enum DumpArg {
    All,
    Blocks,
    Txs,
    Receipts,
    BlockMap,
    Logs,
    BlockCodeHashes,
}

impl BlockStore {
    pub closed spec fn blocks_table(&self) -> Table<Vec<u8>, Block> {
        self.blocks
    }

    pub closed spec fn transactions_table(&self) -> Table<Vec<u8>, Transaction> {
        self.transactions
    }

    pub closed spec fn receipts_table(&self) -> Table<Vec<u8>, Receipt> {
        self.receipts
    }

    pub closed spec fn block_map_table(&self) -> Table<Vec<u8>, u64> {
        self.block_map
    }

    pub closed spec fn latest_table(&self) -> Table<Vec<u8>, u64> {
        self.latest
    }

    pub closed spec fn logs_table(&self) -> Table<Vec<u8>, Table<Vec<u8>, Vec<LogIndex>>> {
        self.logs
    }

    pub closed spec fn code_table(&self) -> Table<Vec<u8>, Vec<u8>> {
        self.code
    }

    pub closed spec fn block_codes_table(&self) -> Table<Vec<u8>, Vec<Vec<u8>>> {
        self.block_codes
    }

    pub closed spec fn wf(&self) -> bool {
        &&& self.blocks.wf()
        &&& self.transactions.wf()
        &&& self.receipts.wf()
        &&& self.block_map.wf()
        &&& self.latest.wf()
        &&& self.logs.wf()
        &&& self.code.wf()
        &&& self.block_codes.wf()
        &&& forall|k: Seq<u8>| #[trigger] self.logs@.contains_key(k) ==> self.logs@[k].wf()
        &&& forall|k: Seq<u8>| #[trigger] self.blocks@.contains_key(k) ==> k == number_key(self.blocks@[k].number)
    }

    /// Each stored block sits under its own number.
    pub proof fn lemma_blocks_keyed(&self)
        requires
            self.wf(),
        ensures
            forall|k: Seq<u8>| #[trigger] self@.blocks.contains_key(k) ==> k == number_key(self@.blocks[k].number),
    {
    }

    /// The table of the column `C`.
    pub fn column<C: TypedColumn>(&self) -> (r: &Table<Vec<u8>, C::Type>)
        ensures
            *r == C::spec_table(self),
    {
        C::table(self)
    }

    /// The code column's rows, consuming the store.
    pub fn into_code_rows(self) -> (r: Vec<(Vec<u8>, Vec<u8>)>)
        requires
            self.wf(),
        ensures
            code_entries(r@) == self.code_table().rows(),
            keys_distinct(code_entries(r@)),
            rows_map(code_entries(r@)) == self@.code,
    {
        let ghost rows = self.code.rows();
        let r = self.code.into_rows();
        assert(code_entries(r@) =~= r@.map_values(|e: (Vec<u8>, Vec<u8>)| (e.0@, e.1)));
        r
    }

    pub fn new() -> (r: BlockStore)
        ensures
            r.wf(),
            r@.blocks.is_empty(),
            r@.transactions.is_empty(),
            r@.receipts.is_empty(),
            r@.block_map.is_empty(),
            r@.latest.is_empty(),
            r@.logs.is_empty(),
            r@.code.is_empty(),
            r@.block_codes.is_empty(),
    {
        BlockStore {
            blocks: Table::new(),
            transactions: Table::new(),
            receipts: Table::new(),
            block_map: Table::new(),
            latest: Table::new(),
            logs: Table::new(),
            code: Table::new(),
            block_codes: Table::new(),
        }
    }

    pub fn get_block_by_number(&self, number: u64) -> (r: Option<&Block>)
        requires
            self.wf(),
        ensures
            match r {
                Some(b) => self@.blocks.contains_key(number_key(number)) && *b == self@.blocks[number_key(number)],
                None => !self@.blocks.contains_key(number_key(number)),
            },
    {
        self.blocks.get(&Blocks::key(&number))
    }

    pub fn get_block_by_hash(&self, hash: &Vec<u8>) -> (r: Option<&Block>)
        requires
            self.wf(),
        ensures
            match r {
                Some(b) => block_by_hash(self@, hash@) == Some(*b),
                None => block_by_hash(self@, hash@) is None,
            },
    {
        match self.block_map.get(hash) {
            Some(n) => self.get_block_by_number(*n),
            None => None,
        }
    }

    pub fn get_latest_block(&self) -> (r: Option<&Block>)
        requires
            self.wf(),
        ensures
            match r {
                Some(b) => latest_block(self@) == Some(*b),
                None => latest_block(self@) is None,
            },
    {
        match self.latest.get(&LatestBlockNumber::key(&())) {
            Some(n) => self.get_block_by_number(*n),
            None => None,
        }
    }

    pub fn get_transaction_by_hash(&self, hash: &Vec<u8>) -> (r: Option<&Transaction>)
        requires
            self.wf(),
        ensures
            match r {
                Some(t) => self@.transactions.contains_key(hash@) && t@ == self@.transactions[hash@],
                None => !self@.transactions.contains_key(hash@),
            },
    {
        self.transactions.get(hash)
    }

    /// The transaction at `index` of the block with hash `block_hash`.
    pub fn get_transaction_by_block_hash_and_index(&self, block_hash: &Vec<u8>, index: usize) -> (r: Option<&Transaction>)
        requires
            self.wf(),
        ensures
            match block_by_hash(self@, block_hash@) {
                Some(b) => match r {
                    Some(t) => index < b.transactions@.len() && *t == b.transactions@[index as int],
                    None => index >= b.transactions@.len(),
                },
                None => r is None,
            },
    {
        match self.get_block_by_hash(block_hash) {
            Some(b) => {
                if index < b.transactions.len() {
                    Some(&b.transactions[index])
                } else {
                    None
                }
            },
            None => None,
        }
    }

    /// The transaction at `index` of the block with number `number`; an error
    /// when there is no such block.
    pub fn get_transaction_by_block_number_and_index(&self, number: u64, index: usize) -> (r: Result<Option<&Transaction>, StoreError>)
        requires
            self.wf(),
        ensures
            !self@.blocks.contains_key(number_key(number)) <==> r is Err,
            self@.blocks.contains_key(number_key(number)) ==> {
                let b = self@.blocks[number_key(number)];
                match r {
                    Ok(Some(t)) => index < b.transactions@.len() && *t == b.transactions@[index as int],
                    Ok(None) => index >= b.transactions@.len(),
                    Err(_) => false,
                }
            },
    {
        match self.get_block_by_number(number) {
            Some(b) => {
                if index < b.transactions.len() {
                    Ok(Some(&b.transactions[index]))
                } else {
                    Ok(None)
                }
            },
            None => Err(StoreError::NoSuchBlock),
        }
    }

    fn put_tx(&mut self, transaction: Transaction)
        requires
            old(self).wf(),
        ensures
            final(self).wf(),
            final(self)@ == (StoreView {
                transactions: old(self)@.transactions.insert(transaction.hash@, transaction@),
                ..old(self)@
            }),
    {
        let ghost tv = transaction@;
        let k = Transactions::key(&transaction.hash);
        self.transactions.insert(k, transaction);
        assert(tx_views(self.transactions@) =~= tx_views(old(self).transactions@).insert(tv.0, tv));
    }

    pub fn put_transaction(&mut self, transaction: &Transaction)
        requires
            old(self).wf(),
        ensures
            final(self).wf(),
            final(self)@ == (StoreView {
                transactions: old(self)@.transactions.insert(transaction.hash@, transaction@),
                ..old(self)@
            }),
    {
        self.put_tx(transaction.duplicate());
    }

    /// Writes each transaction of a block under its hash.
    pub fn extend_transactions_from_block(&mut self, block: &Block)
        requires
            old(self).wf(),
        ensures
            final(self).wf(),
            final(self)@ == (StoreView {
                transactions: put_all(old(self)@.transactions, tx_entries(block.transactions@)),
                ..old(self)@
            }),
    {
        let txs = &block.transactions;
        let mut i: usize = 0;
        while i < txs.len()
            invariant
                self.wf(),
                i <= txs.len(),
                self@ == (StoreView {
                    transactions: put_all(old(self)@.transactions, tx_entries(txs@.take(i as int))),
                    ..old(self)@
                }),
            decreases txs.len() - i,
        {
            self.put_tx(txs[i].duplicate());
            proof {
                assert(tx_entries(txs@.take(i + 1)).drop_last() =~= tx_entries(txs@.take(i as int)));
            }
            i = i + 1;
        }
        assert(txs@.take(txs.len() as int) =~= txs@);
    }

    /// Stores a block: its transactions, the block under its number and its
    /// number under its hash.
    pub fn put_block(&mut self, block: Block)
        requires
            old(self).wf(),
        ensures
            final(self).wf(),
            final(self)@ == (StoreView {
                transactions: put_all(old(self)@.transactions, tx_entries(block.transactions@)),
                blocks: old(self)@.blocks.insert(number_key(block.number), block),
                block_map: old(self)@.block_map.insert(block.hash@, block.number),
                ..old(self)@
            }),
    {
        self.extend_transactions_from_block(&block);
        let number = block.number;
        let hash_key = BlockMap::key(&block.hash);
        self.blocks.insert(Blocks::key(&number), block);
        self.block_map.insert(hash_key, number);
    }

    /// Points the latest block number at `block`, when one is given.
    pub fn put_latest_block(&mut self, block: Option<&Block>)
        requires
            old(self).wf(),
        ensures
            final(self).wf(),
            final(self)@ == match block {
                Some(b) => StoreView { latest: old(self)@.latest.insert(latest_key(), b.number), ..old(self)@ },
                None => old(self)@,
            },
    {
        match block {
            Some(b) => {
                self.latest.insert(LatestBlockNumber::key(&()), b.number);
            },
            None => {},
        }
    }

    pub fn get_receipt(&self, tx: &Vec<u8>) -> (r: Option<&Receipt>)
        requires
            self.wf(),
        ensures
            match r {
                Some(x) => self@.receipts.contains_key(tx@) && *x == self@.receipts[tx@],
                None => !self@.receipts.contains_key(tx@),
            },
    {
        self.receipts.get(tx)
    }

    /// Writes each receipt under its transaction hash.
    pub fn put_receipts(&mut self, receipts: Vec<Receipt>)
        requires
            old(self).wf(),
        ensures
            final(self).wf(),
            final(self)@ == (StoreView {
                receipts: put_all(old(self)@.receipts, receipt_entries(receipts@)),
                ..old(self)@
            }),
    {
        let ghost all = receipts@;
        let total = receipts.len();
        let mut rest = receipts;
        let mut i: usize = 0;
        while rest.len() > 0
            invariant
                self.wf(),
                i <= all.len(),
                rest@ == all.skip(i as int),
                rest.len() == all.len() - i,
                all.len() == total,
                self@ == (StoreView {
                    receipts: put_all(old(self)@.receipts, receipt_entries(all.take(i as int))),
                    ..old(self)@
                }),
            decreases rest.len(),
        {
            let r = rest.remove(0);
            proof {
                assert(all[i as int] == r);
                assert(rest@ =~= all.skip(i + 1));
                assert(receipt_entries(all.take(i + 1)).drop_last() =~= receipt_entries(all.take(i as int)));
            }
            let k = Receipts::key(&r.tx_hash);
            self.receipts.insert(k, r);
            i = i + 1;
        }
        assert(all.take(i as int) =~= all);
    }

    pub fn get_logs(&self, number: u64) -> (r: Option<&Table<Vec<u8>, Vec<LogIndex>>>)
        requires
            self.wf(),
        ensures
            match r {
                Some(x) => self@.logs.contains_key(number_key(number)) && *x == self@.logs[number_key(number)],
                None => !self@.logs.contains_key(number_key(number)),
            },
    {
        self.logs.get(&AddressLogsMap::key(&number))
    }

    /// Records the log indices of `address` in block `number`.
    pub fn put_logs(&mut self, address: Vec<u8>, logs: Vec<LogIndex>, number: u64)
        requires
            old(self).wf(),
        ensures
            final(self).wf(),
            final(self)@.logs.contains_key(number_key(number)),
            final(self)@.logs[number_key(number)].wf(),
            final(self)@.logs[number_key(number)]@ == (if old(self)@.logs.contains_key(number_key(number)) {
                old(self)@.logs[number_key(number)]@
            } else {
                Map::empty()
            }).insert(address@, logs),
            final(self)@ == (StoreView { logs: final(self)@.logs, ..old(self)@ }),
            final(self)@.logs.remove(number_key(number)) == old(self)@.logs.remove(number_key(number)),
    {
        let k = AddressLogsMap::key(&number);
        assert(self.logs@.contains_key(k@) ==> self.logs@[k@].wf());
        let mut map = match self.logs.remove(&k) {
            Some(m) => m,
            None => Table::new(),
        };
        map.insert(address, logs);
        self.logs.insert(k, map);
        proof {
            assert(self@.logs.remove(number_key(number)) =~= old(self)@.logs.remove(number_key(number)));
        }
    }

    pub fn get_code_by_hash(&self, hash: &Vec<u8>) -> (r: Option<&Vec<u8>>)
        requires
            self.wf(),
        ensures
            match r {
                Some(c) => self@.code.contains_key(hash@) && *c == self@.code[hash@],
                None => !self@.code.contains_key(hash@),
            },
    {
        self.code.get(hash)
    }

    /// Stores bytecode under its hash and records the hash as introduced at
    /// block `number`; code already stored is left as it is and not recorded.
    pub fn put_code(&mut self, number: u64, hash: &Vec<u8>, code: Vec<u8>)
        requires
            old(self).wf(),
        ensures
            final(self).wf(),
            old(self)@.code.contains_key(hash@) ==> final(self)@ == old(self)@,
            !old(self)@.code.contains_key(hash@) ==> {
                &&& final(self)@.code == old(self)@.code.insert(hash@, code)
                &&& final(self)@.block_codes.contains_key(number_key(number))
                &&& keys_of(block_code_list(final(self)@.block_codes, number_key(number))) == keys_of(
                    block_code_list(old(self)@.block_codes, number_key(number)),
                ).insert(hash@)
            },
            final(self)@.block_codes.remove(number_key(number)) == old(self)@.block_codes.remove(number_key(number)),
            final(self)@ == (StoreView {
                code: final(self)@.code,
                block_codes: final(self)@.block_codes,
                ..old(self)@
            }),
    {
        if self.code.contains_key(hash) {
            assert(self@.block_codes.remove(number_key(number)) =~= old(self)@.block_codes.remove(number_key(number)));
            return;
        }
        let k = BlockDeployedCodeHashes::key(&number);
        let mut list = match self.block_codes.remove(&k) {
            Some(l) => l,
            None => Vec::new(),
        };
        let ghost before = list@;
        let mut found = false;
        let mut i: usize = 0;
        while i < list.len()
            invariant
                i <= list.len(),
                found == exists|j: int| 0 <= j < i && list@[j]@ == hash@,
            decreases list.len() - i,
        {
            if list[i].same(hash) {
                found = true;
            }
            i = i + 1;
        }
        if !found {
            list.push(hash.duplicate());
            proof {
                lemma_keys_of_push(before, list@.last());
                assert(list@ =~= before.push(list@.last()));
            }
        } else {
            assert(keys_of(before) =~= keys_of(before).insert(hash@));
        }
        self.block_codes.insert(k, list);
        self.code.insert(AddressCodeMap::key(hash), code);
        proof {
            assert(self@.block_codes.remove(number_key(number)) =~= old(self)@.block_codes.remove(number_key(number)));
        }
    }

    /// Removes the latest block with its transactions, receipts, logs, hash
    /// entry and the code first stored in it, and points the latest block
    /// number at its parent.
    pub fn disconnect_latest_block(&mut self)
        requires
            old(self).wf(),
        ensures
            final(self).wf(),
            final(self)@ == disconnected(old(self)@),
    {
        let (number, hash, parent, hashes) = match self.get_latest_block() {
            Some(b) => (b.number, b.hash.duplicate(), b.parent_hash.duplicate(), hashes_of(&b.transactions)),
            None => {
                return;
            },
        };
        let ghost b = latest_block(old(self)@).unwrap();
        let k = Blocks::key(&number);
        remove_all(&mut self.transactions, &hashes);
        remove_all(&mut self.receipts, &hashes);
        self.blocks.remove(&k);
        self.logs.remove(&k);
        self.block_map.remove(&hash);
        let parent_number = match self.get_block_by_hash(&parent) {
            Some(p) => Some(p.number),
            None => None,
        };
        match parent_number {
            Some(n) => {
                self.latest.insert(LatestBlockNumber::key(&()), n);
            },
            None => {
                self.latest.remove(&LatestBlockNumber::key(&()));
            },
        }
        match self.block_codes.remove(&k) {
            Some(list) => {
                remove_all(&mut self.code, &list);
            },
            None => {},
        }
        proof {
            assert(tx_views(self.transactions@) =~= tx_views(old(self).transactions@).remove_keys(tx_hashes(b.transactions@)));
            assert(self@ == disconnected(old(self)@));
        }
    }
}

/// Committing a block that can follow the chain and then disconnecting the
/// latest block gives back exactly the columns from before the commit.
pub proof fn lemma_commit_disconnect(
    v: StoreView,
    w: StoreView,
    b: Block,
    rs: Seq<Receipt>,
    codes: Seq<(Vec<u8>, Vec<u8>)>,
)
    requires
        fresh_for(v, b, rs, codes),
        committed(v, w, b, rs, codes),
    ensures
        disconnected(w) == v,
{
    let k = number_key(b.number);
    let hashes = tx_hashes(b.transactions@);
    assert(latest_block(w) == Some(b));
    assert forall|i: int| 0 <= i < tx_entries(b.transactions@).len() implies hashes.contains(#[trigger] tx_entries(b.transactions@)[i].0) by {
        assert(b.transactions@[i].hash@ == tx_entries(b.transactions@)[i].0);
    }
    lemma_put_all_remove(v.transactions, tx_entries(b.transactions@), hashes);
    assert(v.transactions.remove_keys(hashes) =~= v.transactions);
    assert forall|i: int| 0 <= i < receipt_entries(rs).len() implies hashes.contains(#[trigger] receipt_entries(rs)[i].0) by {
        assert(rs[i].tx_hash@ == receipt_entries(rs)[i].0);
    }
    lemma_put_all_remove(v.receipts, receipt_entries(rs), hashes);
    assert(v.receipts.remove_keys(hashes) =~= v.receipts);
    let ch = keys_of(block_code_list(w.block_codes, k));
    assert(keys_of(block_code_list(v.block_codes, k)) =~= Set::empty());
    assert(code_hashes(codes) =~= entry_keys(code_entries(codes))) by {
        assert forall|h: Seq<u8>| code_hashes(codes).contains(h) == entry_keys(code_entries(codes)).contains(h) by {
            if code_hashes(codes).contains(h) {
                let i = choose|i: int| 0 <= i < codes.len() && codes[i].0@ == h;
                assert(code_entries(codes)[i].0 == h);
            }
            if entry_keys(code_entries(codes)).contains(h) {
                let i = choose|i: int| 0 <= i < code_entries(codes).len() && code_entries(codes)[i].0 == h;
                assert(codes[i].0@ == h);
            }
        }
    }
    assert(ch =~= code_hashes(codes).difference(v.code.dom()));
    lemma_put_new_remove(v.code, code_entries(codes));
    if !w.block_codes.contains_key(k) {
        assert(ch =~= Set::empty());
        assert(w.code.remove_keys(Set::empty()) =~= w.code);
    }
    assert(w.blocks.remove(k) =~= v.blocks);
    assert(w.block_map.remove(b.hash@) =~= v.block_map);
    assert(w.logs.remove(k) =~= v.logs);
    assert(w.block_codes.remove(k) =~= v.block_codes);
    let mid = StoreView { blocks: w.blocks.remove(k), block_map: w.block_map.remove(b.hash@), ..w };
    assert(block_by_hash(mid, b.parent_hash@) == block_by_hash(v, b.parent_hash@));
    match block_by_hash(v, b.parent_hash@) {
        Some(p) => {
            assert(w.latest.insert(latest_key(), p.number) =~= v.latest);
        },
        None => {
            assert(w.latest.remove(latest_key()) =~= v.latest);
        },
    }
}

/// The lines of a dump: the hex text of each key, one per line.
pub open spec fn key_lines(keys: Seq<Seq<u8>>) -> Seq<char>
    decreases keys.len(),
{
    if keys.len() == 0 {
        Seq::empty()
    } else {
        key_lines(keys.drop_last()) + hex_text(keys.last()) + seq!['\n']
    }
}

/// Where a dump starts: at the row with key `from`, or at the first row.
pub open spec fn dump_start<V>(rows: Seq<(Seq<u8>, V)>, from: Option<Seq<u8>>) -> int {
    match from {
        Some(k) => if exists|i: int| 0 <= i < rows.len() && rows[i].0 == k {
            choose|i: int| 0 <= i < rows.len() && rows[i].0 == k
        } else {
            0
        },
        None => 0,
    }
}

/// The keys a dump lists: at most `limit` rows from its start on.
pub open spec fn dump_keys<V>(rows: Seq<(Seq<u8>, V)>, from: Option<Seq<u8>>, limit: int) -> Seq<Seq<u8>> {
    let s = dump_start(rows, from);
    let e = if s + limit < rows.len() { s + limit } else { rows.len() as int };
    rows.subrange(s, e).map_values(|r: (Seq<u8>, V)| r.0)
}

impl BlockStore {
    /// The name of column `C` and the hex keys of at most `limit` of its rows,
    /// starting at the row with key `from` when there is one.
    pub fn dump_column<C: TypedColumn>(&self, from: Option<&C::Index>, limit: usize) -> (r: String)
        requires
            self.wf(),
        ensures
            r@ == C::spec_name() + seq!['\n'] + key_lines(dump_keys(
                C::spec_table(self).rows(),
                match from { Some(f) => Some(C::spec_key(f)), None => None },
                limit as int,
            )),
    {
        let t = C::table(self);
        let n = t.len();
        let ghost rows = t.rows();
        let ghost fk = match from { Some(f) => Some(C::spec_key(f)), None => None };
        let mut start: usize = 0;
        match from {
            Some(f) => {
                let k = C::key(f);
                let mut found = false;
                let mut i: usize = 0;
                while i < n && !found
                    invariant
                        t.wf(),
                        n == rows.len(),
                        rows == t.rows(),
                        i <= n,
                        found ==> start < n && rows[start as int].0 == k@,
                        !found ==> start == 0 && forall|j: int| 0 <= j < i ==> rows[j].0 != k@,
                    decreases n - i + (if found { 0int } else { 1int }),
                {
                    let (rk, _) = t.row(i);
                    if rk.same(&k) {
                        start = i;
                        found = true;
                    } else {
                        i = i + 1;
                    }
                }
                proof {
                    if exists|x: int| 0 <= x < rows.len() && rows[x].0 == k@ {
                        let c = choose|x: int| 0 <= x < rows.len() && rows[x].0 == k@;
                        assert(found);
                        assert(c == start) by {
                            if c != start {
                                assert(rows[c].0 == rows[start as int].0);
                            }
                        }
                    }
                }
            },
            None => {},
        }
        assert(start as int == dump_start(rows, fk));
        let end: usize = if limit < n - start { start + limit } else { n };
        let mut out = String::from_str(C::name());
        out.append("\n");
        proof {
            reveal_strlit("\n");
        }
        let ghost keys = dump_keys(rows, fk, limit as int);
        let ghost head = out@;
        let mut i: usize = start;
        while i < end
            invariant
                t.wf(),
                n == rows.len(),
                rows == t.rows(),
                start <= i <= end <= n,
                keys == rows.subrange(start as int, end as int).map_values(|r: (Seq<u8>, C::Type)| r.0),
                out@ == head + key_lines(keys.take(i - start)),
            decreases end - i,
        {
            let (rk, _) = t.row(i);
            let h = to_hex(rk);
            out.append(h.as_str());
            out.append("\n");
            proof {
                reveal_strlit("\n");
                assert(keys.take(i + 1 - start).drop_last() =~= keys.take(i - start));
                assert(keys[i - start] == rows[i as int].0);
                assert(keys.take(i + 1 - start).last() == keys[i - start]);
            }
            i = i + 1;
        }
        assert(keys.take(end - start) =~= keys);
        out
    }

    /// The dumps of every column but the latest block pointer and the code,
    /// each followed by a newline.
    pub fn dump_all(&self, limit: usize) -> (r: String)
        requires
            self.wf(),
        ensures
            r@ == self.dump_all_text(limit),
    {
        proof {
            reveal_strlit("\n");
        }
        let mut out = self.dump_column::<Blocks>(None, limit);
        out.append("\n");
        out.append(self.dump_column::<Transactions>(None, limit).as_str());
        out.append("\n");
        out.append(self.dump_column::<Receipts>(None, limit).as_str());
        out.append("\n");
        out.append(self.dump_column::<BlockMap>(None, limit).as_str());
        out.append("\n");
        out.append(self.dump_column::<AddressLogsMap>(None, limit).as_str());
        out.append("\n");
        out.append(self.dump_column::<BlockDeployedCodeHashes>(None, limit).as_str());
        out.append("\n");
        out
    }

    /// The text `dump_all` returns.
    pub open spec fn dump_all_text(&self, limit: usize) -> Seq<char> {
        self.dump_text::<Blocks>(limit) + seq!['\n'] + self.dump_text::<Transactions>(limit) + seq!['\n']
            + self.dump_text::<Receipts>(limit) + seq!['\n'] + self.dump_text::<BlockMap>(limit) + seq!['\n']
            + self.dump_text::<AddressLogsMap>(limit) + seq!['\n'] + self.dump_text::<BlockDeployedCodeHashes>(limit)
            + seq!['\n']
    }

    /// The dump of column `C` from the row with key `from`, if given.
    pub open spec fn dump_from<C: TypedColumn>(&self, from: Option<Seq<u8>>, limit: usize) -> Seq<char> {
        C::spec_name() + seq!['\n'] + key_lines(dump_keys(C::spec_table(self).rows(), from, limit as int))
    }

    /// The dump of column `C` from its first row.
    pub open spec fn dump_text<C: TypedColumn>(&self, limit: usize) -> Seq<char> {
        C::spec_name() + seq!['\n'] + key_lines(dump_keys(C::spec_table(self).rows(), None, limit as int))
    }

    /// Dumps the columns that `arg` names; a single column starts at block
    /// number `from` (number-keyed columns) or at hash `from_hash` (the others).
    pub fn dump(&self, arg: DumpArg, from: Option<u64>, from_hash: Option<&Vec<u8>>, limit: usize) -> (r: String)
        requires
            self.wf(),
        ensures
            ({
                let by_number = match from { Some(n) => Some(number_key(n)), None => None };
                let by_hash = match from_hash { Some(h) => Some(h@), None => None };
                r@ == match arg {
                    DumpArg::All => self.dump_all_text(limit),
                    DumpArg::Blocks => self.dump_from::<Blocks>(by_number, limit),
                    DumpArg::Txs => self.dump_from::<Transactions>(by_hash, limit),
                    DumpArg::Receipts => self.dump_from::<Receipts>(by_hash, limit),
                    DumpArg::BlockMap => self.dump_from::<BlockMap>(by_hash, limit),
                    DumpArg::Logs => self.dump_from::<AddressLogsMap>(by_number, limit),
                    DumpArg::BlockCodeHashes => self.dump_from::<BlockDeployedCodeHashes>(by_number, limit),
                }
            }),
    {
        match arg {
            DumpArg::All => self.dump_all(limit),
            DumpArg::Blocks => self.dump_column::<Blocks>(from.as_ref(), limit),
            DumpArg::Txs => self.dump_column::<Transactions>(from_hash, limit),
            DumpArg::Receipts => self.dump_column::<Receipts>(from_hash, limit),
            DumpArg::BlockMap => self.dump_column::<BlockMap>(from_hash, limit),
            DumpArg::Logs => self.dump_column::<AddressLogsMap>(from.as_ref(), limit),
            DumpArg::BlockCodeHashes => self.dump_column::<BlockDeployedCodeHashes>(from.as_ref(), limit),
        }
    }
}

/// The columns after the latest block is disconnected `n` times.
pub open spec fn disconnected_times(v: StoreView, n: nat) -> StoreView
    decreases n,
{
    if n == 0 {
        v
    } else {
        disconnected_times(disconnected(v), (n - 1) as nat)
    }
}

/// Committing blocks one after another, each able to follow the chain before
/// it, and then disconnecting as many times gives back the first columns.
pub proof fn lemma_commits_disconnects(
    states: Seq<StoreView>,
    blocks: Seq<Block>,
    rs: Seq<Seq<Receipt>>,
    codes: Seq<Seq<(Vec<u8>, Vec<u8>)>>,
)
    requires
        states.len() == blocks.len() + 1,
        rs.len() == blocks.len(),
        codes.len() == blocks.len(),
        forall|i: int| 0 <= i < blocks.len() ==> fresh_for(#[trigger] states[i], blocks[i], rs[i], codes[i])
            && committed(states[i], states[i + 1], blocks[i], rs[i], codes[i]),
    ensures
        disconnected_times(states.last(), blocks.len()) == states[0],
    decreases blocks.len(),
{
    let n = blocks.len() as int;
    if n > 0 {
        lemma_commit_disconnect(states[n - 1], states[n], blocks[n - 1], rs[n - 1], codes[n - 1]);
        let prev_states = states.drop_last();
        let prev_blocks = blocks.drop_last();
        let prev_receipts = rs.drop_last();
        let prev_codes = codes.drop_last();
        assert forall|i: int| 0 <= i < prev_blocks.len() implies fresh_for(#[trigger] prev_states[i], prev_blocks[i], prev_receipts[i], prev_codes[i])
            && committed(prev_states[i], prev_states[i + 1], prev_blocks[i], prev_receipts[i], prev_codes[i]) by {
            assert(fresh_for(states[i], blocks[i], rs[i], codes[i]));
        }
        lemma_commits_disconnects(prev_states, prev_blocks, prev_receipts, prev_codes);
        assert(prev_states.last() == states[n - 1]);
    }
}

proof fn lemma_code_hashes_push(codes: Seq<(Vec<u8>, Vec<u8>)>, c: (Vec<u8>, Vec<u8>))
    ensures
        code_hashes(codes.push(c)) == code_hashes(codes).insert(c.0@),
{
    let t = codes.push(c);
    assert forall|k: Seq<u8>| code_hashes(t).contains(k) == code_hashes(codes).insert(c.0@).contains(k) by {
        if code_hashes(codes).contains(k) {
            let i = choose|i: int| 0 <= i < codes.len() && codes[i].0@ == k;
            assert(t[i].0@ == k);
        }
        if k == c.0@ {
            assert(t[codes.len() as int].0@ == k);
        }
        if code_hashes(t).contains(k) {
            let i = choose|i: int| 0 <= i < t.len() && t[i].0@ == k;
            if i < codes.len() {
                assert(codes[i].0@ == k);
            }
        }
    }
    assert(code_hashes(t) =~= code_hashes(codes).insert(c.0@));
}

impl BlockStore {
    /// Persists a sealed block: the block with its transactions and hash
    /// entry, its receipts, the log indices of each address, the code it
    /// introduced, and the latest block number.
    pub fn commit_block(
        &mut self,
        block: Block,
        receipts: Vec<Receipt>,
        logs: Vec<(Vec<u8>, Vec<LogIndex>)>,
        codes: Vec<(Vec<u8>, Vec<u8>)>,
    )
        requires
            old(self).wf(),
        ensures
            final(self).wf(),
            committed(old(self)@, final(self)@, block, receipts@, codes@),
            block_logs(final(self)@.logs, number_key(block.number)) == put_all(
                block_logs(old(self)@.logs, number_key(block.number)),
                log_entries(logs@),
            ),
    {
        let number = block.number;
        let ghost b = block;
        self.put_block(block);
        self.put_receipts(receipts);
        let ghost k = number_key(number);
        let ghost mid = self@;
        let ghost all_logs = logs@;
        let total_logs = logs.len();
        let mut rest_logs = logs;
        let mut li: usize = 0;
        proof {
            assert(log_entries(all_logs.take(0)) =~= Seq::<(Seq<u8>, Vec<LogIndex>)>::empty());
        }
        while rest_logs.len() > 0
            invariant
                self.wf(),
                self@ == (StoreView { logs: self@.logs, ..mid }),
                self@.logs.remove(k) == mid.logs.remove(k),
                k == number_key(number),
                li <= all_logs.len(),
                all_logs.len() == total_logs,
                rest_logs@ == all_logs.skip(li as int),
                rest_logs.len() == all_logs.len() - li,
                block_logs(self@.logs, k) == put_all(block_logs(mid.logs, k), log_entries(all_logs.take(li as int))),
            decreases rest_logs.len(),
        {
            let e = rest_logs.remove(0);
            proof {
                assert(all_logs[li as int] == e);
                assert(rest_logs@ =~= all_logs.skip(li + 1));
                assert(log_entries(all_logs.take(li + 1)).drop_last() =~= log_entries(all_logs.take(li as int)));
            }
            let (address, list) = e;
            self.put_logs(address, list, number);
            li = li + 1;
        }
        proof {
            assert(all_logs.take(li as int) =~= all_logs);
        }
        let ghost mid2 = self@;
        let ghost all = codes@;
        let total = codes.len();
        let mut rest = codes;
        let mut i: usize = 0;
        proof {
            assert(all.take(0) =~= Seq::<(Vec<u8>, Vec<u8>)>::empty());
            assert(code_hashes(Seq::empty()) =~= Set::<Seq<u8>>::empty());
            assert(keys_of(block_code_list(mid2.block_codes, k)).union(Set::<Seq<u8>>::empty().difference(mid2.code.dom())) =~= keys_of(block_code_list(mid2.block_codes, k)));
        }
        while rest.len() > 0
            invariant
                self.wf(),
                i <= all.len(),
                all.len() == total,
                rest@ == all.skip(i as int),
                rest.len() == all.len() - i,
                k == number_key(number),
                self@ == (StoreView { code: self@.code, block_codes: self@.block_codes, ..mid2 }),
                self@.code == put_new(mid2.code, code_entries(all.take(i as int))),
                self@.block_codes.remove(k) == mid2.block_codes.remove(k),
                keys_of(block_code_list(self@.block_codes, k)) == keys_of(block_code_list(mid2.block_codes, k)).union(
                    code_hashes(all.take(i as int)).difference(mid2.code.dom()),
                ),
            decreases rest.len(),
        {
            let c = rest.remove(0);
            proof {
                assert(all[i as int] == c);
                assert(rest@ =~= all.skip(i + 1));
                assert(all.take(i + 1) =~= all.take(i as int).push(c));
                assert(code_entries(all.take(i + 1)).drop_last() =~= code_entries(all.take(i as int)));
                lemma_code_hashes_push(all.take(i as int), c);
            }
            let ghost before = self@;
            let (hash, bytes) = c;
            proof {
                lemma_put_new_dom(mid2.code, code_entries(all.take(i as int)), hash@);
                if entry_keys(code_entries(all.take(i as int))).contains(hash@) {
                    let j = choose|j: int| 0 <= j < code_entries(all.take(i as int)).len() && code_entries(all.take(i as int))[j].0 == hash@;
                    assert(all.take(i as int)[j].0@ == hash@);
                    assert(code_hashes(all.take(i as int)).contains(hash@));
                }
                if code_hashes(all.take(i as int)).contains(hash@) {
                    let j = choose|j: int| 0 <= j < all.take(i as int).len() && all.take(i as int)[j].0@ == hash@;
                    assert(code_entries(all.take(i as int))[j].0 == hash@);
                }
            }
            self.put_code(number, &hash, bytes);
            proof {
                assert(self@.block_codes.remove(k) =~= mid2.block_codes.remove(k)) by {
                    assert(self@.block_codes.remove(k) =~= before.block_codes.remove(k));
                }
                assert(keys_of(block_code_list(self@.block_codes, k)) =~= keys_of(block_code_list(mid2.block_codes, k)).union(
                    code_hashes(all.take(i + 1)).difference(mid2.code.dom()),
                ));
            }
            i = i + 1;
        }
        proof {
            assert(all.take(i as int) =~= all);
        }
        self.latest.insert(LatestBlockNumber::key(&()), number);
    }
}

} // verus!
