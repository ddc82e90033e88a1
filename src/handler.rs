//! The operations the host node calls: contexts and queued transactions
//! against the latest state, reads of accounts at a block, and logs blooms.
use vstd::prelude::*;
use crate::block_store::{committed, latest_block, Block, BlockStore, Log, LogIndex, Transaction};
use crate::finalize::SealedBlock;
use crate::state::state_root_of;
use crate::queue::{admission, BalanceUpdate, BridgeTx, QueueError, QueueItem, QueueTx, TransactionQueueMap};
use crate::state::{account_at, AccountView, StateArchive, StateError, WorldState};
use crate::table::Key;
use crate::u256::U256;

verus! {

/// Why a handler operation failed.
#[derive(Clone, Copy, Debug, PartialEq, Eq, Structural)]
pub enum EVMError {
    BackendError(StateError),
    QueueError(QueueError),
    /// No state is committed under the root of the block asked for.
    NoSuchState,
}

/// The queues, the committed states and the block store.
pub struct EVMHandler {
    pub tx_queues: TransactionQueueMap,
    pub archive: StateArchive,
    pub storage: BlockStore,
}

/// The state the chain is at: the one under the latest block's root, or
/// the empty state when there is no block or no such state.
pub open spec fn latest_state(archive: Map<Seq<u8>, Map<Seq<u8>, AccountView>>, store: crate::block_store::StoreView) -> Map<Seq<u8>, AccountView> {
    match latest_block(store) {
        Some(b) => if archive.contains_key(b.state_root@) {
            archive[b.state_root@]
        } else {
            Map::empty()
        },
        None => Map::empty(),
    }
}

/// The state at block `number` (the latest block when there is no such
/// block), if one is committed under its root.
pub open spec fn state_at_block(
    archive: Map<Seq<u8>, Map<Seq<u8>, AccountView>>,
    store: crate::block_store::StoreView,
    number: u64,
) -> Option<Map<Seq<u8>, AccountView>> {
    let block = if store.blocks.contains_key(crate::columns::number_key(number)) {
        Some(store.blocks[crate::columns::number_key(number)])
    } else {
        latest_block(store)
    };
    match block {
        Some(b) => if archive.contains_key(b.state_root@) {
            Some(archive[b.state_root@])
        } else {
            None
        },
        None => Some(Map::empty()),
    }
}

/// The state the chain is at.
fn chain_state<'a>(archive: &'a StateArchive, storage: &BlockStore) -> (r: Option<&'a WorldState>)
    requires
        archive.wf(),
        storage.wf(),
    ensures
        match r {
            Some(s) => s.wf() && s.view() == latest_state(archive.view(), storage@),
            None => latest_state(archive.view(), storage@) == Map::<Seq<u8>, AccountView>::empty(),
        },
{
    match storage.get_latest_block() {
        Some(b) => archive.open(&b.state_root),
        None => None,
    }
}

impl EVMHandler {
    pub open spec fn wf(&self) -> bool {
        self.tx_queues.wf() && self.archive.wf() && self.storage.wf()
    }

    pub fn new() -> (r: EVMHandler)
        ensures
            r.wf(),
            r.tx_queues.view() == Map::<u64, Seq<QueueItem>>::empty(),
            r.tx_queues.next_context() == 0,
            r.storage@.blocks.is_empty(),
    {
        let (archive, _) = StateArchive::new();
        EVMHandler { tx_queues: TransactionQueueMap::new(), archive, storage: BlockStore::new() }
    }

    /// Opens a new queue context.
    pub fn get_context(&mut self) -> (r: Result<u64, EVMError>)
        requires
            old(self).wf(),
        ensures
            final(self).wf(),
            final(self).archive == old(self).archive,
            final(self).storage == old(self).storage,
            r is Err <==> old(self).tx_queues.next_context() == u64::MAX,
            r is Err ==> r == Err::<u64, EVMError>(EVMError::QueueError(QueueError::ContextsExhausted))
                && final(self).tx_queues.view() == old(self).tx_queues.view()
                && final(self).tx_queues.next_context() == old(self).tx_queues.next_context(),
            r matches Ok(id) ==> id == old(self).tx_queues.next_context()
                && !old(self).tx_queues.view().contains_key(id)
                && final(self).tx_queues.view() == old(self).tx_queues.view().insert(id, Seq::empty())
                && final(self).tx_queues.next_context() == id + 1,
    {
        match self.tx_queues.get_context() {
            Ok(id) => Ok(id),
            Err(e) => Err(EVMError::QueueError(e)),
        }
    }

    /// Drops a queue context.
    pub fn clear(&mut self, context: u64) -> (r: Result<(), EVMError>)
        requires
            old(self).wf(),
        ensures
            final(self).wf(),
            final(self).archive == old(self).archive,
            final(self).storage == old(self).storage,
            r is Ok <==> old(self).tx_queues.view().contains_key(context),
            r is Err ==> r == Err::<(), EVMError>(EVMError::QueueError(QueueError::NoSuchContext)),
            final(self).tx_queues.view() == old(self).tx_queues.view().remove(context),
            final(self).tx_queues.next_context() == old(self).tx_queues.next_context(),
    {
        match self.tx_queues.clear(context) {
            Ok(()) => Ok(()),
            Err(e) => Err(EVMError::QueueError(e)),
        }
    }

    /// Queues a transaction, admitted against the state at the latest block.
    pub fn queue_tx(&mut self, context: u64, tx: QueueTx, hash: Vec<u8>) -> (r: Result<(), EVMError>)
        requires
            old(self).wf(),
        ensures
            final(self).wf(),
            final(self).archive == old(self).archive,
            final(self).storage == old(self).storage,
            !old(self).tx_queues.view().contains_key(context) ==> r == Err::<(), EVMError>(EVMError::QueueError(QueueError::NoSuchContext)),
            old(self).tx_queues.view().contains_key(context) ==> {
                let a = admission(
                    old(self).tx_queues.view()[context],
                    tx,
                    hash@,
                    latest_state(old(self).archive.view(), old(self).storage@),
                );
                &&& (r is Ok <==> a is Ok)
                &&& a matches Err(e) ==> r == Err::<(), EVMError>(EVMError::QueueError(e))
                &&& r is Ok ==> final(self).tx_queues.view() == old(self).tx_queues.view().insert(
                    context,
                    old(self).tx_queues.view()[context].push(QueueItem { tx, hash }),
                )
            },
            r is Err ==> final(self).tx_queues.view() == old(self).tx_queues.view(),
            final(self).tx_queues.next_context() == old(self).tx_queues.next_context(),
    {
        let empty = WorldState::new();
        let res = match chain_state(&self.archive, &self.storage) {
            Some(s) => self.tx_queues.queue_tx(context, tx, hash, s),
            None => self.tx_queues.queue_tx(context, tx, hash, &empty),
        };
        match res {
            Ok(()) => Ok(()),
            Err(e) => Err(EVMError::QueueError(e)),
        }
    }

    /// Queues a bridge credit of `amount` to `address`.
    pub fn add_balance(&mut self, context: u64, address: Vec<u8>, amount: U256, hash: Vec<u8>) -> (r: Result<(), EVMError>)
        requires
            old(self).wf(),
        ensures
            final(self).wf(),
            final(self).archive == old(self).archive,
            final(self).storage == old(self).storage,
            final(self).tx_queues.next_context() == old(self).tx_queues.next_context(),
            !old(self).tx_queues.view().contains_key(context) ==> r == Err::<(), EVMError>(EVMError::QueueError(QueueError::NoSuchContext)),
            old(self).tx_queues.view().contains_key(context) ==> {
                let tx = QueueTx::BridgeTx(BridgeTx::EvmIn(BalanceUpdate { address, amount }));
                let a = admission(old(self).tx_queues.view()[context], tx, hash@, latest_state(old(self).archive.view(), old(self).storage@));
                &&& (r is Ok <==> a is Ok)
                &&& a matches Err(e) ==> r == Err::<(), EVMError>(EVMError::QueueError(e))
                &&& r is Ok ==> final(self).tx_queues.view() == old(self).tx_queues.view().insert(
                    context,
                    old(self).tx_queues.view()[context].push(QueueItem { tx, hash }),
                )
            },
            r is Err ==> final(self).tx_queues.view() == old(self).tx_queues.view(),
    {
        self.queue_tx(context, QueueTx::BridgeTx(BridgeTx::EvmIn(BalanceUpdate { address, amount })), hash)
    }

    /// Queues a bridge debit of `amount` from `address`; it is admitted only
    /// when the address's balance at the latest block with its queued credits
    /// and debits covers it.
    pub fn sub_balance(&mut self, context: u64, address: Vec<u8>, amount: U256, hash: Vec<u8>) -> (r: Result<(), EVMError>)
        requires
            old(self).wf(),
        ensures
            final(self).wf(),
            final(self).archive == old(self).archive,
            final(self).storage == old(self).storage,
            final(self).tx_queues.next_context() == old(self).tx_queues.next_context(),
            !old(self).tx_queues.view().contains_key(context) ==> r == Err::<(), EVMError>(EVMError::QueueError(QueueError::NoSuchContext)),
            old(self).tx_queues.view().contains_key(context) ==> {
                let tx = QueueTx::BridgeTx(BridgeTx::EvmOut(BalanceUpdate { address, amount }));
                let a = admission(old(self).tx_queues.view()[context], tx, hash@, latest_state(old(self).archive.view(), old(self).storage@));
                &&& (r is Ok <==> a is Ok)
                &&& a matches Err(e) ==> r == Err::<(), EVMError>(EVMError::QueueError(e))
                &&& r is Ok ==> final(self).tx_queues.view() == old(self).tx_queues.view().insert(
                    context,
                    old(self).tx_queues.view()[context].push(QueueItem { tx, hash }),
                )
            },
            r is Err ==> final(self).tx_queues.view() == old(self).tx_queues.view(),
    {
        self.queue_tx(context, QueueTx::BridgeTx(BridgeTx::EvmOut(BalanceUpdate { address, amount })), hash)
    }

    /// The state at block `number`, or at the latest block when there is no
    /// such block; the empty state before the first block.
    fn state_for(&self, number: u64) -> (r: Result<Option<&WorldState>, EVMError>)
        requires
            self.wf(),
        ensures
            match r {
                Ok(Some(s)) => s.wf() && state_at_block(self.archive.view(), self.storage@, number) == Some(s.view()),
                Ok(None) => state_at_block(self.archive.view(), self.storage@, number) == Some(Map::<Seq<u8>, AccountView>::empty()),
                Err(e) => e == EVMError::NoSuchState && state_at_block(self.archive.view(), self.storage@, number) is None,
            },
    {
        let block = match self.storage.get_block_by_number(number) {
            Some(b) => b,
            None => match self.storage.get_latest_block() {
                Some(b) => b,
                None => {
                    return Ok(None);
                },
            },
        };
        match self.archive.open(&block.state_root) {
            Some(s) => Ok(Some(s)),
            None => Err(EVMError::NoSuchState),
        }
    }

    /// The balance of an account at block `number` (0 for an unknown account).
    pub fn get_balance(&self, address: &Vec<u8>, number: u64) -> (r: Result<U256, EVMError>)
        requires
            self.wf(),
        ensures
            match state_at_block(self.archive.view(), self.storage@, number) {
                Some(s) => r matches Ok(b) && b@ == account_at(s, address@).balance,
                None => r == Err::<U256, EVMError>(EVMError::NoSuchState),
            },
    {
        match self.state_for(number) {
            Ok(Some(s)) => Ok(s.get_balance(address)),
            Ok(None) => Ok(U256::zero()),
            Err(e) => Err(e),
        }
    }

    /// The nonce of an account at block `number` (0 for an unknown account).
    pub fn get_nonce(&self, address: &Vec<u8>, number: u64) -> (r: Result<U256, EVMError>)
        requires
            self.wf(),
        ensures
            match state_at_block(self.archive.view(), self.storage@, number) {
                Some(s) => r matches Ok(n) && n@ == account_at(s, address@).nonce,
                None => r == Err::<U256, EVMError>(EVMError::NoSuchState),
            },
    {
        match self.state_for(number) {
            Ok(Some(s)) => Ok(s.get_nonce(address)),
            Ok(None) => Ok(U256::zero()),
            Err(e) => Err(e),
        }
    }

    /// A storage slot of an account at block `number` (0 when unset).
    pub fn get_storage_at(&self, address: &Vec<u8>, slot: &Vec<u8>, number: u64) -> (r: Result<U256, EVMError>)
        requires
            self.wf(),
        ensures
            match state_at_block(self.archive.view(), self.storage@, number) {
                Some(s) => r matches Ok(v) && v@ == (if account_at(s, address@).storage.contains_key(slot@) {
                    account_at(s, address@).storage[slot@]
                } else {
                    0
                }),
                None => r == Err::<U256, EVMError>(EVMError::NoSuchState),
            },
    {
        match self.state_for(number) {
            Ok(Some(s)) => Ok(s.get_storage_at(address, slot)),
            Ok(None) => Ok(U256::zero()),
            Err(e) => Err(e),
        }
    }

    /// The code of an account at block `number`, if it has stored code.
    pub fn get_code(&self, address: &Vec<u8>, number: u64) -> (r: Result<Option<&Vec<u8>>, EVMError>)
        requires
            self.wf(),
        ensures
            match state_at_block(self.archive.view(), self.storage@, number) {
                Some(s) => match r {
                    Ok(Some(c)) => s.contains_key(address@) && self.storage@.code.contains_key(s[address@].code_hash)
                        && *c == self.storage@.code[s[address@].code_hash],
                    Ok(None) => !s.contains_key(address@) || !self.storage@.code.contains_key(s[address@].code_hash),
                    Err(_) => false,
                },
                None => r == Err::<Option<&Vec<u8>>, EVMError>(EVMError::NoSuchState),
            },
    {
        match self.state_for(number) {
            Ok(Some(s)) => Ok(s.get_code(address, &self.storage)),
            Ok(None) => Ok(None),
            Err(e) => Err(e),
        }
    }

    /// Commits a sealed block: its state is kept under its root, and the
    /// block carrying that root is stored with its receipts, logs and new
    /// code and becomes the latest. Returns the state root.
    pub fn commit_sealed(
        &mut self,
        sealed: SealedBlock,
        number: u64,
        hash: Vec<u8>,
        parent_hash: Vec<u8>,
        timestamp: u64,
        gas_used: u64,
        transactions: Vec<Transaction>,
        logs: Vec<(Vec<u8>, Vec<LogIndex>)>,
    ) -> (root: Vec<u8>)
        requires
            old(self).wf(),
            sealed.state.wf(),
        ensures
            final(self).wf(),
            root@ == state_root_of(sealed.state.view()),
            final(self).archive.view() == old(self).archive.view().insert(root@, sealed.state.view()),
            final(self).tx_queues == old(self).tx_queues,
            final(self).storage@.blocks.contains_key(crate::columns::number_key(number)),
            final(self).storage@.blocks[crate::columns::number_key(number)].state_root@ == root@,
            committed(
                old(self).storage@,
                final(self).storage@,
                final(self).storage@.blocks[crate::columns::number_key(number)],
                sealed.receipts@,
                sealed.codes@,
            ),
            state_at_block(final(self).archive.view(), final(self).storage@, number) == Some(sealed.state.view()),
            latest_state(final(self).archive.view(), final(self).storage@) == sealed.state.view(),
    {
        let root = self.archive.commit(&sealed.state);
        let block = Block {
            number,
            hash,
            parent_hash,
            state_root: root.duplicate(),
            timestamp,
            gas_used,
            logs_bloom: sealed.logs_bloom,
            transactions,
        };
        let ghost b = block;
        self.storage.commit_block(block, sealed.receipts, logs, sealed.codes);
        proof {
            let k = crate::columns::number_key(number);
            assert(self.storage@.blocks[k] == b);
            assert(self.storage@.latest[crate::columns::latest_key()] == number);
            assert(latest_block(self.storage@) == Some(b));
        }
        root
    }

    /// Removes the latest block on a reorganisation; the latest state becomes
    /// the one under its parent's root.
    pub fn disconnect_tip(&mut self)
        requires
            old(self).wf(),
        ensures
            final(self).wf(),
            final(self).storage@ == crate::block_store::disconnected(old(self).storage@),
            final(self).archive == old(self).archive,
            final(self).tx_queues == old(self).tx_queues,
    {
        self.storage.disconnect_latest_block();
    }

    /// Adds the address and topics of each log to a bloom.
    pub fn logs_bloom(logs: &Vec<Log>, bloom: &mut Vec<u8>)
        requires
            old(bloom)@.len() == 256,
        ensures
            final(bloom)@ == crate::bloom::accrued(old(bloom)@, crate::bloom::logs_inputs(logs@)),
    {
        crate::bloom::logs_bloom(logs, bloom)
    }
}

} // verus!
