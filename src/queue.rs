//! The transaction queues: per context, an ordered list of signed EVM
//! transactions and bridge balance updates, admitted under nonce, balance and
//! duplicate checks.
use vstd::prelude::*;
use crate::state::{account_at, with_balance, AccountView, StateError, WorldState};
use crate::table::{Key, Table};
use crate::u256::{u256_bound, u256_of, U256};

verus! {

/// A signed EVM transaction with its recovered sender.
pub struct SignedTx {
    pub sender: Vec<u8>,
    pub nonce: U256,
    pub gas_limit: u64,
    pub gas_price: U256,
    pub value: U256,
    pub to: Option<Vec<u8>>,
    pub data: Vec<u8>,
    pub hash: Vec<u8>,
}

/// A balance change of one address.
pub struct BalanceUpdate {
    pub address: Vec<u8>,
    pub amount: U256,
}

/// A bridge transaction: a credit into or a debit out of the EVM side.
pub enum BridgeTx {
    EvmIn(BalanceUpdate),
    EvmOut(BalanceUpdate),
}

pub enum QueueTx {
    SignedTx(SignedTx),
    BridgeTx(BridgeTx),
}

/// A queued transaction with the hash of the native transaction that carried it.
pub struct QueueItem {
    pub tx: QueueTx,
    pub hash: Vec<u8>,
}

/// Why a transaction was not admitted, or a context not found. Nothing was changed.
#[derive(Clone, Copy, Debug, PartialEq, Eq, Structural)]
pub enum QueueError {
    NoSuchContext,
    DuplicateHash,
    /// The nonce is not the sender's chain nonce plus its queued transactions.
    InvalidNonce,
    /// The address's balance with its queued credits (`balance`) does not
    /// cover its queued debits with this debit or cost (`requested`).
    InsufficientBalance { balance: U256, requested: U256 },
    /// A sum of balances or costs does not fit in 256 bits.
    Overflow,
    ContextsExhausted,
}

/// The queues by context id, and the next id to hand out.
pub struct TransactionQueueMap {
    queues: Table<u64, Vec<QueueItem>>,
    next: u64,
}

/// Signed transactions of `sender` in a list.
pub open spec fn pending_count(items: Seq<QueueItem>, sender: Seq<u8>) -> nat
    decreases items.len(),
{
    if items.len() == 0 {
        0
    } else {
        pending_count(items.drop_last(), sender) + match items.last().tx {
            QueueTx::SignedTx(t) => if t.sender@ == sender { 1nat } else { 0 },
            _ => 0,
        }
    }
}

/// Sum of the bridge credits of `a` in a list.
pub open spec fn in_sum(items: Seq<QueueItem>, a: Seq<u8>) -> nat
    decreases items.len(),
{
    if items.len() == 0 {
        0
    } else {
        in_sum(items.drop_last(), a) + match items.last().tx {
            QueueTx::BridgeTx(BridgeTx::EvmIn(u)) => if u.address@ == a { u.amount@ } else { 0 },
            _ => 0,
        }
    }
}

/// Sum of the bridge debits of `a` in a list.
pub open spec fn out_sum(items: Seq<QueueItem>, a: Seq<u8>) -> nat
    decreases items.len(),
{
    if items.len() == 0 {
        0
    } else {
        out_sum(items.drop_last(), a) + match items.last().tx {
            QueueTx::BridgeTx(BridgeTx::EvmOut(u)) => if u.address@ == a { u.amount@ } else { 0 },
            _ => 0,
        }
    }
}

pub open spec fn has_hash(items: Seq<QueueItem>, h: Seq<u8>) -> bool {
    exists|i: int| 0 <= i < items.len() && items[i].hash@ == h
}

/// The up-front cost of a signed transaction: gas limit times gas price plus value.
pub open spec fn upfront_cost(t: SignedTx) -> int {
    t.gas_limit * t.gas_price@ + t.value@
}

/// Whether a debit of `amount` from `a` (with what is queued) fits its funds.
pub open spec fn funds_check(items: Seq<QueueItem>, a: Seq<u8>, amount: int, chain: Map<Seq<u8>, AccountView>) -> Result<(), QueueError> {
    if account_at(chain, a).balance + in_sum(items, a) >= u256_bound() || out_sum(items, a) + amount >= u256_bound() {
        Err(QueueError::Overflow)
    } else if out_sum(items, a) + amount > account_at(chain, a).balance + in_sum(items, a) {
        Err(
            QueueError::InsufficientBalance {
                balance: u256_of((account_at(chain, a).balance + in_sum(items, a)) as nat),
                requested: u256_of((out_sum(items, a) + amount) as nat),
            },
        )
    } else {
        Ok(())
    }
}

/// The nonce and funds checks of a signed transaction.
pub open spec fn signed_admission(items: Seq<QueueItem>, t: SignedTx, chain: Map<Seq<u8>, AccountView>) -> Result<(), QueueError> {
    let a = t.sender@;
    let expected = account_at(chain, a).nonce + pending_count(items, a);
    if expected >= u256_bound() {
        Err(QueueError::Overflow)
    } else if t.nonce@ != expected {
        Err(QueueError::InvalidNonce)
    } else {
        funds_check(items, a, upfront_cost(t), chain)
    }
}

/// Whether a transaction is admitted after `items` against `chain`, and the error otherwise.
pub open spec fn admission(items: Seq<QueueItem>, tx: QueueTx, hash: Seq<u8>, chain: Map<Seq<u8>, AccountView>) -> Result<(), QueueError> {
    if has_hash(items, hash) {
        Err(QueueError::DuplicateHash)
    } else {
        match tx {
            QueueTx::SignedTx(t) => signed_admission(items, t, chain),
            QueueTx::BridgeTx(BridgeTx::EvmOut(u)) => funds_check(items, u.address@, u.amount@ as int, chain),
            QueueTx::BridgeTx(BridgeTx::EvmIn(_)) => Ok(()),
        }
    }
}

/// Each signed transaction's nonce is its sender's chain nonce plus the
/// number of earlier queued transactions of that sender.
pub open spec fn nonces_contiguous(items: Seq<QueueItem>, chain: Map<Seq<u8>, AccountView>) -> bool {
    forall|i: int| 0 <= i < items.len() ==> match #[trigger] items[i].tx {
        QueueTx::SignedTx(t) => t.nonce@ == account_at(chain, t.sender@).nonce + pending_count(items.take(i), t.sender@),
        _ => true,
    }
}

/// Applying the bridge updates of `a` in order from its chain balance never
/// goes below zero.
pub open spec fn bridge_feasible(items: Seq<QueueItem>, chain: Map<Seq<u8>, AccountView>, a: Seq<u8>) -> bool {
    forall|k: int| 0 <= k <= items.len() ==> out_sum(#[trigger] items.take(k), a) <= account_at(chain, a).balance + in_sum(items.take(k), a)
}

proof fn lemma_pending_push(items: Seq<QueueItem>, x: QueueItem, a: Seq<u8>)
    ensures
        pending_count(items.push(x), a) == pending_count(items, a) + match x.tx {
            QueueTx::SignedTx(t) => if t.sender@ == a { 1nat } else { 0 },
            _ => 0,
        },
        in_sum(items.push(x), a) == in_sum(items, a) + match x.tx {
            QueueTx::BridgeTx(BridgeTx::EvmIn(u)) => if u.address@ == a { u.amount@ } else { 0 },
            _ => 0,
        },
        out_sum(items.push(x), a) == out_sum(items, a) + match x.tx {
            QueueTx::BridgeTx(BridgeTx::EvmOut(u)) => if u.address@ == a { u.amount@ } else { 0 },
            _ => 0,
        },
{
    assert(items.push(x).drop_last() =~= items);
}

/// Admitting a transaction keeps the nonces of every sender contiguous and
/// the bridge updates of every address feasible.
pub proof fn lemma_admission_keeps_invariants(
    items: Seq<QueueItem>,
    x: QueueItem,
    chain: Map<Seq<u8>, AccountView>,
    a: Seq<u8>,
)
    requires
        admission(items, x.tx, x.hash@, chain) is Ok,
    ensures
        nonces_contiguous(items, chain) ==> nonces_contiguous(items.push(x), chain),
        bridge_feasible(items, chain, a) ==> bridge_feasible(items.push(x), chain, a),
{
    let after = items.push(x);
    if nonces_contiguous(items, chain) {
        assert forall|i: int| 0 <= i < after.len() implies match #[trigger] after[i].tx {
            QueueTx::SignedTx(t) => t.nonce@ == account_at(chain, t.sender@).nonce + pending_count(after.take(i), t.sender@),
            _ => true,
        } by {
            if i < items.len() {
                assert(after.take(i) =~= items.take(i));
                assert(after[i] == items[i]);
            } else {
                assert(after.take(i) =~= items);
            }
        }
    }
    if bridge_feasible(items, chain, a) {
        assert forall|k: int| 0 <= k <= after.len() implies out_sum(#[trigger] after.take(k), a) <= account_at(chain, a).balance + in_sum(after.take(k), a) by {
            if k <= items.len() {
                assert(after.take(k) =~= items.take(k));
            } else {
                assert(after.take(k) =~= after);
                assert(items.take(items.len() as int) =~= items);
                lemma_pending_push(items, x, a);
            }
        }
    }
}

/// In a queue with contiguous nonces, a later transaction of the same sender
/// has a strictly greater nonce.
pub proof fn lemma_contiguous_increasing(items: Seq<QueueItem>, chain: Map<Seq<u8>, AccountView>, i: int, j: int)
    requires
        nonces_contiguous(items, chain),
        0 <= i < j < items.len(),
        items[i].tx is SignedTx,
        items[j].tx is SignedTx,
        items[i].tx->SignedTx_0.sender@ == items[j].tx->SignedTx_0.sender@,
    ensures
        items[i].tx->SignedTx_0.nonce@ < items[j].tx->SignedTx_0.nonce@,
{
    let a = items[i].tx->SignedTx_0.sender@;
    lemma_pending_monotone(items, a, i, j);
    assert(items[i].tx matches QueueTx::SignedTx(_));
    assert(items[j].tx matches QueueTx::SignedTx(_));
}

proof fn lemma_pending_monotone(items: Seq<QueueItem>, a: Seq<u8>, i: int, j: int)
    requires
        0 <= i < j <= items.len(),
        items[i].tx is SignedTx,
        items[i].tx->SignedTx_0.sender@ == a,
    ensures
        pending_count(items.take(i), a) < pending_count(items.take(j), a),
    decreases j - i,
{
    if j == i + 1 {
        assert(items.take(j).drop_last() =~= items.take(i));
    } else {
        lemma_pending_monotone(items, a, i, j - 1);
        assert(items.take(j).drop_last() =~= items.take(j - 1));
    }
}

/// Running sums over a queue for one address.
struct Sums {
    pending: usize,
    ins: Option<U256>,
    outs: Option<U256>,
}

fn add_opt(acc: Option<U256>, v: &U256) -> (r: Option<U256>)
    ensures
        match acc {
            Some(a) => match r {
                Some(x) => x@ == a@ + v@,
                None => a@ + v@ >= u256_bound(),
            },
            None => r is None,
        },
{
    match acc {
        Some(a) => a.checked_add(v),
        None => None,
    }
}

fn sums_for(items: &Vec<QueueItem>, a: &Vec<u8>) -> (r: Sums)
    ensures
        r.pending == pending_count(items@, a@),
        match r.ins {
            Some(v) => v@ == in_sum(items@, a@),
            None => in_sum(items@, a@) >= u256_bound(),
        },
        match r.outs {
            Some(v) => v@ == out_sum(items@, a@),
            None => out_sum(items@, a@) >= u256_bound(),
        },
{
    let mut pending: usize = 0;
    let mut ins: Option<U256> = Some(U256::zero());
    let mut outs: Option<U256> = Some(U256::zero());
    let mut i: usize = 0;
    while i < items.len()
        invariant
            i <= items.len(),
            pending == pending_count(items@.take(i as int), a@),
            pending <= i,
            match ins {
                Some(v) => v@ == in_sum(items@.take(i as int), a@),
                None => in_sum(items@.take(i as int), a@) >= u256_bound(),
            },
            match outs {
                Some(v) => v@ == out_sum(items@.take(i as int), a@),
                None => out_sum(items@.take(i as int), a@) >= u256_bound(),
            },
        decreases items.len() - i,
    {
        proof {
            assert(items@.take(i + 1).drop_last() =~= items@.take(i as int));
        }
        match &items[i].tx {
            QueueTx::SignedTx(t) => {
                if t.sender.same(a) {
                    pending = pending + 1;
                }
            },
            QueueTx::BridgeTx(BridgeTx::EvmIn(u)) => {
                if u.address.same(a) {
                    ins = add_opt(ins, &u.amount);
                }
            },
            QueueTx::BridgeTx(BridgeTx::EvmOut(u)) => {
                if u.address.same(a) {
                    outs = add_opt(outs, &u.amount);
                }
            },
        }
        i = i + 1;
    }
    assert(items@.take(items.len() as int) =~= items@);
    Sums { pending, ins, outs }
}

fn has_hash_exec(items: &Vec<QueueItem>, h: &Vec<u8>) -> (r: bool)
    ensures
        r == has_hash(items@, h@),
{
    let mut i: usize = 0;
    while i < items.len()
        invariant
            i <= items.len(),
            forall|j: int| 0 <= j < i ==> items@[j].hash@ != h@,
        decreases items.len() - i,
    {
        if items[i].hash.same(h) {
            return true;
        }
        i = i + 1;
    }
    false
}

/// Checks `debits + extra <= balance + credits`, failing with `Overflow` when
/// either side does not fit in 256 bits (a `None` stands for such a sum).
fn check_funds(ins: Option<U256>, balance: &U256, outs: Option<U256>, extra: Option<U256>) -> (r: Result<(), QueueError>)
    ensures
        (ins is None || outs is None || extra is None) ==> r == Err::<(), QueueError>(QueueError::Overflow),
        (ins is Some && outs is Some && extra is Some) ==> r == (if balance@ + ins->Some_0@ >= u256_bound()
            || outs->Some_0@ + extra->Some_0@ >= u256_bound() {
            Err::<(), QueueError>(QueueError::Overflow)
        } else if outs->Some_0@ + extra->Some_0@ > balance@ + ins->Some_0@ {
            Err::<(), QueueError>(QueueError::InsufficientBalance {
                balance: u256_of((balance@ + ins->Some_0@) as nat),
                requested: u256_of((outs->Some_0@ + extra->Some_0@) as nat),
            })
        } else {
            Ok(())
        }),
{
    let (i, o, e) = match (ins, outs, extra) {
        (Some(i), Some(o), Some(e)) => (i, o, e),
        _ => {
            return Err(QueueError::Overflow);
        },
    };
    let have = match balance.checked_add(&i) {
        Some(h) => h,
        None => {
            return Err(QueueError::Overflow);
        },
    };
    let need = match o.checked_add(&e) {
        Some(n) => n,
        None => {
            return Err(QueueError::Overflow);
        },
    };
    if have.lt(&need) {
        proof {
            crate::u256::lemma_u256_of_view(have);
            crate::u256::lemma_u256_of_view(need);
        }
        Err(QueueError::InsufficientBalance { balance: have, requested: need })
    } else {
        Ok(())
    }
}

impl TransactionQueueMap {
    pub closed spec fn wf(&self) -> bool {
        &&& self.queues.wf()
        &&& forall|k: u64| #[trigger] self.queues@.contains_key(k) ==> k < self.next
    }

    /// The queued items of each context.
    pub closed spec fn view(&self) -> Map<u64, Seq<QueueItem>> {
        Map::new(|k: u64| self.queues@.contains_key(k), |k: u64| self.queues@[k]@)
    }

    pub closed spec fn next_context(&self) -> u64 {
        self.next
    }

    pub fn new() -> (r: TransactionQueueMap)
        ensures
            r.wf(),
            r.view() == Map::<u64, Seq<QueueItem>>::empty(),
            r.next_context() == 0,
    {
        let r = TransactionQueueMap { queues: Table::new(), next: 0 };
        assert(r.view() =~= Map::<u64, Seq<QueueItem>>::empty());
        r
    }

    /// Opens a new, empty context under the next id; ids are handed out in
    /// increasing order.
    pub fn get_context(&mut self) -> (r: Result<u64, QueueError>)
        requires
            old(self).wf(),
        ensures
            final(self).wf(),
            r is Err <==> old(self).next_context() == u64::MAX,
            r is Err ==> r == Err::<u64, QueueError>(QueueError::ContextsExhausted) && final(self).view() == old(self).view()
                && final(self).next_context() == old(self).next_context(),
            r matches Ok(id) ==> id == old(self).next_context() && !old(self).view().contains_key(id)
                && final(self).view() == old(self).view().insert(id, Seq::empty())
                && final(self).next_context() == id + 1,
    {
        if self.next == u64::MAX {
            return Err(QueueError::ContextsExhausted);
        }
        let id = self.next;
        self.queues.insert(id, Vec::new());
        self.next = id + 1;
        assert(self.view() =~= old(self).view().insert(id, Seq::empty()));
        Ok(id)
    }

    /// Drops a context and everything queued in it.
    pub fn clear(&mut self, context: u64) -> (r: Result<(), QueueError>)
        requires
            old(self).wf(),
        ensures
            final(self).wf(),
            r is Ok <==> old(self).view().contains_key(context),
            r is Err ==> r == Err::<(), QueueError>(QueueError::NoSuchContext),
            final(self).view() == old(self).view().remove(context),
            final(self).next_context() == old(self).next_context(),
    {
        let r = match self.queues.remove(&context) {
            Some(_) => Ok(()),
            None => Err(QueueError::NoSuchContext),
        };
        assert(self.view() =~= old(self).view().remove(context));
        r
    }

    /// The number of items queued in a context.
    pub fn len(&self, context: u64) -> (r: Result<usize, QueueError>)
        requires
            self.wf(),
        ensures
            match r {
                Ok(n) => self.view().contains_key(context) && n == self.view()[context].len(),
                Err(e) => !self.view().contains_key(context) && e == QueueError::NoSuchContext,
            },
    {
        match self.queues.get(&context) {
            Some(q) => Ok(q.len()),
            None => Err(QueueError::NoSuchContext),
        }
    }

    /// Whether a native hash is queued in a context.
    pub fn contains_hash(&self, context: u64, hash: &Vec<u8>) -> (r: bool)
        requires
            self.wf(),
        ensures
            r == (self.view().contains_key(context) && has_hash(self.view()[context], hash@)),
    {
        match self.queues.get(&context) {
            Some(q) => has_hash_exec(q, hash),
            None => false,
        }
    }

    /// Takes all items of a context, in order, and leaves it empty.
    pub fn drain(&mut self, context: u64) -> (r: Result<Vec<QueueItem>, QueueError>)
        requires
            old(self).wf(),
        ensures
            final(self).wf(),
            final(self).next_context() == old(self).next_context(),
            match r {
                Ok(items) => old(self).view().contains_key(context) && items@ == old(self).view()[context]
                    && final(self).view() == old(self).view().insert(context, Seq::empty()),
                Err(e) => !old(self).view().contains_key(context) && e == QueueError::NoSuchContext
                    && final(self).view() == old(self).view(),
            },
    {
        match self.queues.remove(&context) {
            Some(items) => {
                self.queues.insert(context, Vec::new());
                assert(self.view() =~= old(self).view().insert(context, Seq::empty()));
                Ok(items)
            },
            None => {
                assert(self.view() =~= old(self).view());
                Err(QueueError::NoSuchContext)
            },
        }
    }

    /// Queues a transaction in a context when `admission` allows it against
    /// the chain state: contiguous nonces, funds for bridge debits and for the
    /// up-front cost of signed transactions, and no duplicate native hash.
    pub fn queue_tx(&mut self, context: u64, tx: QueueTx, hash: Vec<u8>, chain: &WorldState) -> (r: Result<(), QueueError>)
        requires
            old(self).wf(),
            chain.wf(),
        ensures
            final(self).wf(),
            final(self).next_context() == old(self).next_context(),
            !old(self).view().contains_key(context) ==> r == Err::<(), QueueError>(QueueError::NoSuchContext)
                && final(self).view() == old(self).view(),
            old(self).view().contains_key(context) ==> {
                &&& r == admission(old(self).view()[context], tx, hash@, chain.view())
                &&& r is Ok ==> final(self).view() == old(self).view().insert(
                    context,
                    old(self).view()[context].push(QueueItem { tx, hash }),
                )
                &&& r is Err ==> final(self).view() == old(self).view()
            },
    {
        let decision = match self.queues.get(&context) {
            None => {
                return Err(QueueError::NoSuchContext);
            },
            Some(items) => Self::check_admission(items, &tx, &hash, chain),
        };
        match decision {
            Ok(()) => {
                let mut items = match self.queues.remove(&context) {
                    Some(q) => q,
                    None => Vec::new(),
                };
                items.push(QueueItem { tx, hash });
                self.queues.insert(context, items);
                assert(self.view() =~= old(self).view().insert(
                    context,
                    old(self).view()[context].push(QueueItem { tx, hash }),
                ));
                Ok(())
            },
            Err(e) => Err(e),
        }
    }

    fn check_signed(items: &Vec<QueueItem>, t: &SignedTx, chain: &WorldState) -> (r: Result<(), QueueError>)
        requires
            chain.wf(),
        ensures
            r == signed_admission(items@, *t, chain.view()),
    {
        let sums = sums_for(items, &t.sender);
        let chain_nonce = chain.get_nonce(&t.sender);
        let pending = U256::from_u64(sums.pending as u64);
        assert(pending@ == pending_count(items@, t.sender@));
        let expected = match chain_nonce.checked_add(&pending) {
            Some(e) => e,
            None => {
                return Err(QueueError::Overflow);
            },
        };
        if !expected.eq_value(&t.nonce) {
            return Err(QueueError::InvalidNonce);
        }
        proof {
            assert(t.gas_limit * t.gas_price@ == t.gas_price@ * t.gas_limit) by (nonlinear_arith);
        }
        let cost = match t.gas_price.checked_mul_u64(t.gas_limit) {
            Some(c) => c.checked_add(&t.value),
            None => None,
        };
        proof {
            match cost {
                Some(c) => {
                    assert(c@ == upfront_cost(*t));
                },
                None => {
                    assert(upfront_cost(*t) >= u256_bound());
                },
            }
        }
        let balance = chain.get_balance(&t.sender);
        check_funds(sums.ins, &balance, sums.outs, cost)
    }

    fn check_admission(items: &Vec<QueueItem>, tx: &QueueTx, hash: &Vec<u8>, chain: &WorldState) -> (r: Result<(), QueueError>)
        requires
            chain.wf(),
        ensures
            r == admission(items@, *tx, hash@, chain.view()),
    {
        if has_hash_exec(items, hash) {
            return Err(QueueError::DuplicateHash);
        }
        match tx {
            QueueTx::SignedTx(t) => Self::check_signed(items, t, chain),
            QueueTx::BridgeTx(BridgeTx::EvmOut(u)) => {
                let sums = sums_for(items, &u.address);
                let balance = chain.get_balance(&u.address);
                check_funds(sums.ins, &balance, sums.outs, Some(u.amount))
            },
            QueueTx::BridgeTx(BridgeTx::EvmIn(_)) => Ok(()),
        }
    }

    /// Queues a bridge credit of `amount` to `address`.
    pub fn add_balance(&mut self, context: u64, address: Vec<u8>, amount: U256, hash: Vec<u8>, chain: &WorldState) -> (r: Result<(), QueueError>)
        requires
            old(self).wf(),
            chain.wf(),
        ensures
            final(self).wf(),
            r is Ok <==> old(self).view().contains_key(context) && !has_hash(old(self).view()[context], hash@),
            r is Ok ==> final(self).view() == old(self).view().insert(
                context,
                old(self).view()[context].push(QueueItem { tx: QueueTx::BridgeTx(BridgeTx::EvmIn(BalanceUpdate { address, amount })), hash }),
            ),
            r is Err ==> final(self).view() == old(self).view(),
    {
        self.queue_tx(context, QueueTx::BridgeTx(BridgeTx::EvmIn(BalanceUpdate { address, amount })), hash, chain)
    }

    /// Queues a bridge debit of `amount` from `address`; it is admitted only
    /// when the address's balance with the queued credits and debits covers it.
    pub fn sub_balance(&mut self, context: u64, address: Vec<u8>, amount: U256, hash: Vec<u8>, chain: &WorldState) -> (r: Result<(), QueueError>)
        requires
            old(self).wf(),
            chain.wf(),
        ensures
            final(self).wf(),
            !old(self).view().contains_key(context) ==> r == Err::<(), QueueError>(QueueError::NoSuchContext),
            old(self).view().contains_key(context) ==> r == admission(
                old(self).view()[context],
                QueueTx::BridgeTx(BridgeTx::EvmOut(BalanceUpdate { address, amount })),
                hash@,
                chain.view(),
            ),
            r is Ok ==> final(self).view() == old(self).view().insert(
                context,
                old(self).view()[context].push(QueueItem { tx: QueueTx::BridgeTx(BridgeTx::EvmOut(BalanceUpdate { address, amount })), hash }),
            ),
            r is Err ==> final(self).view() == old(self).view(),
    {
        self.queue_tx(context, QueueTx::BridgeTx(BridgeTx::EvmOut(BalanceUpdate { address, amount })), hash, chain)
    }
}

impl WorldState {
    /// Applies one bridge update: a credit adds to the balance, a debit takes
    /// from it (failing when the balance is lower).
    pub fn apply_bridge(&mut self, tx: &BridgeTx) -> (r: Result<(), StateError>)
        requires
            old(self).wf(),
        ensures
            final(self).wf(),
            match tx {
                BridgeTx::EvmIn(u) => {
                    &&& r is Ok <==> account_at(old(self).view(), u.address@).balance + u.amount@ < u256_bound()
                    &&& r is Ok ==> final(self).view() == with_balance(old(self).view(), u.address@, account_at(old(self).view(), u.address@).balance + u.amount@)
                },
                BridgeTx::EvmOut(u) => {
                    &&& r is Ok <==> u.amount@ <= account_at(old(self).view(), u.address@).balance
                    &&& r is Ok ==> final(self).view() == with_balance(old(self).view(), u.address@, (account_at(old(self).view(), u.address@).balance - u.amount@) as nat)
                },
            },
            r is Err ==> final(self).view() == old(self).view(),
    {
        match tx {
            BridgeTx::EvmIn(u) => self.add_balance(&u.address, &u.amount),
            BridgeTx::EvmOut(u) => self.sub_balance(&u.address, &u.amount),
        }
    }

    /// Applies the bridge updates of a drained queue in order, skipping the
    /// signed transactions (the engine executes those).
    pub fn apply_bridge_items(&mut self, items: &Vec<QueueItem>) -> (r: Result<(), StateError>)
        requires
            old(self).wf(),
        ensures
            final(self).wf(),
            (forall|a: Seq<u8>| bridge_feasible(items@, old(self).view(), a)
                && #[trigger] account_at(old(self).view(), a).balance + in_sum(items@, a) < u256_bound()) ==> {
                &&& r is Ok
                &&& forall|a: Seq<u8>| #[trigger] account_at(final(self).view(), a).balance == account_at(old(self).view(), a).balance
                    + in_sum(items@, a) - out_sum(items@, a)
            },
    {
        let ghost chain = self.view();
        let ghost ok = forall|a: Seq<u8>| bridge_feasible(items@, chain, a)
            && #[trigger] account_at(chain, a).balance + in_sum(items@, a) < u256_bound();
        let mut i: usize = 0;
        proof {
            assert(items@.take(0) =~= Seq::<QueueItem>::empty());
        }
        while i < items.len()
            invariant
                self.wf(),
                i <= items.len(),
                chain == old(self).view(),
                ok == (forall|a: Seq<u8>| bridge_feasible(items@, chain, a)
                    && #[trigger] account_at(chain, a).balance + in_sum(items@, a) < u256_bound()),
                ok ==> forall|a: Seq<u8>| #[trigger] account_at(self.view(), a).balance == account_at(chain, a).balance
                    + in_sum(items@.take(i as int), a) - out_sum(items@.take(i as int), a),
            decreases items.len() - i,
        {
            let ghost before = self.view();
            proof {
                assert(items@.take(i + 1).drop_last() =~= items@.take(i as int));
            }
            match &items[i].tx {
                QueueTx::SignedTx(_) => {},
                QueueTx::BridgeTx(b) => {
                    proof {
                        if ok {
                            match b {
                                BridgeTx::EvmIn(u) => {
                                    let a = u.address@;
                                    lemma_in_sum_prefix(items@, a, i + 1);
                                    assert(account_at(chain, a).balance + in_sum(items@, a) < u256_bound());
                                },
                                BridgeTx::EvmOut(u) => {
                                    let a = u.address@;
                                    assert(bridge_feasible(items@, chain, a));
                                    assert(out_sum(items@.take(i + 1), a) <= account_at(chain, a).balance + in_sum(items@.take(i + 1), a));
                                },
                            }
                        }
                    }
                    let res = self.apply_bridge(b);
                    if res.is_err() {
                        return res;
                    }
                },
            }
            proof {
                if ok {
                    assert forall|a: Seq<u8>| #[trigger] account_at(self.view(), a).balance == account_at(chain, a).balance
                        + in_sum(items@.take(i + 1), a) - out_sum(items@.take(i + 1), a) by {
                        assert(account_at(before, a).balance == account_at(chain, a).balance
                            + in_sum(items@.take(i as int), a) - out_sum(items@.take(i as int), a));
                    }
                }
            }
            i = i + 1;
        }
        proof {
            assert(items@.take(items.len() as int) =~= items@);
        }
        Ok(())
    }
}

/// Credits of a prefix are at most the credits of the whole list.
proof fn lemma_in_sum_prefix(items: Seq<QueueItem>, a: Seq<u8>, k: int)
    requires
        0 <= k <= items.len(),
    ensures
        in_sum(items.take(k), a) <= in_sum(items, a),
    decreases items.len() - k,
{
    if k < items.len() {
        lemma_in_sum_prefix(items, a, k + 1);
        assert(items.take(k + 1).drop_last() =~= items.take(k));
    } else {
        assert(items.take(k) =~= items);
    }
}

} // verus!
