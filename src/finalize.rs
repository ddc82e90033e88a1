//! Building a block from a drained queue: bridge updates and the changes of
//! executed transactions are applied in order to a copy of the parent state,
//! and new code, receipts and the logs bloom are collected; nothing persisted
//! changes until the sealed block is committed.
use vstd::prelude::*;
use crate::block_store::{code_entries, BlockStore, Log, Receipt};
use crate::bloom::{accrued, logs_bloom, logs_inputs};
use crate::queue::BridgeTx;
use crate::state::{account_at, applied, code_written, with_balance, Apply, AccountView, StateError, WorldState};
use crate::table::{keys_distinct, rows_map};
use crate::u256::u256_bound;

verus! {

/// A block under construction.
pub struct BlockBuilder {
    state: WorldState,
    codes: BlockStore,
    receipts: Vec<Receipt>,
    bloom: Vec<u8>,
    number: u64,
}

/// What a sealed block leaves to commit.
pub struct SealedBlock {
    pub state: WorldState,
    pub codes: Vec<(Vec<u8>, Vec<u8>)>,
    pub receipts: Vec<Receipt>,
    pub logs_bloom: Vec<u8>,
}

impl BlockBuilder {
    pub closed spec fn wf(&self) -> bool {
        self.state.wf() && self.codes.wf() && self.bloom@.len() == 256
    }

    /// The accounts so far.
    pub closed spec fn state_view(&self) -> Map<Seq<u8>, AccountView> {
        self.state.view()
    }

    /// The code stored so far, by hash.
    pub closed spec fn code_view(&self) -> Map<Seq<u8>, Vec<u8>> {
        self.codes@.code
    }

    pub closed spec fn receipts_view(&self) -> Seq<Receipt> {
        self.receipts@
    }

    pub closed spec fn bloom_view(&self) -> Seq<u8> {
        self.bloom@
    }

    pub closed spec fn number(&self) -> u64 {
        self.number
    }

    /// Starts block `number` on a copy of the parent state.
    pub fn new(parent: &WorldState, number: u64) -> (r: BlockBuilder)
        requires
            parent.wf(),
        ensures
            r.wf(),
            r.state_view() == parent.view(),
            r.code_view() == Map::<Seq<u8>, Vec<u8>>::empty(),
            r.receipts_view() == Seq::<Receipt>::empty(),
            r.bloom_view() == Seq::new(256, |i: int| 0u8),
            r.number() == number,
    {
        let bloom = vec![0u8; 256];
        assert(bloom@ =~= Seq::new(256, |i: int| 0u8));
        BlockBuilder { state: parent.snapshot(), codes: BlockStore::new(), receipts: Vec::new(), bloom, number }
    }

    /// Applies a bridge update; on failure the block is to be abandoned.
    pub fn apply_bridge(&mut self, tx: &BridgeTx) -> (r: Result<(), StateError>)
        requires
            old(self).wf(),
        ensures
            final(self).wf(),
            final(self).code_view() == old(self).code_view(),
            final(self).receipts_view() == old(self).receipts_view(),
            final(self).bloom_view() == old(self).bloom_view(),
            final(self).number() == old(self).number(),
            match tx {
                BridgeTx::EvmIn(u) => {
                    &&& r is Ok <==> account_at(old(self).state_view(), u.address@).balance + u.amount@ < u256_bound()
                    &&& r is Ok ==> final(self).state_view() == with_balance(old(self).state_view(), u.address@, account_at(old(self).state_view(), u.address@).balance + u.amount@)
                },
                BridgeTx::EvmOut(u) => {
                    &&& r is Ok <==> u.amount@ <= account_at(old(self).state_view(), u.address@).balance
                    &&& r is Ok ==> final(self).state_view() == with_balance(old(self).state_view(), u.address@, (account_at(old(self).state_view(), u.address@).balance - u.amount@) as nat)
                },
            },
            r is Err ==> final(self).state_view() == old(self).state_view(),
    {
        self.state.apply_bridge(tx)
    }

    /// Records an executed transaction: applies its changes (removing empty
    /// accounts), keeps its receipt and adds its logs to the block bloom.
    pub fn apply_transaction(&mut self, changes: Vec<Apply>, receipt: Receipt)
        requires
            old(self).wf(),
        ensures
            final(self).wf(),
            final(self).state_view() == applied(old(self).state_view(), changes@, true),
            final(self).code_view() == code_written(old(self).code_view(), changes@),
            final(self).receipts_view() == old(self).receipts_view().push(receipt),
            final(self).bloom_view() == accrued(old(self).bloom_view(), logs_inputs(receipt.logs@)),
            final(self).number() == old(self).number(),
    {
        self.state.apply(changes, true, &mut self.codes, self.number);
        logs_bloom(&receipt.logs, &mut self.bloom);
        self.receipts.push(receipt);
    }

    /// Seals the block: its state, its new code (each hash once), its
    /// receipts in order and its logs bloom.
    pub fn seal(self) -> (r: SealedBlock)
        requires
            self.wf(),
        ensures
            r.state.wf(),
            r.state.view() == self.state_view(),
            keys_distinct(code_entries(r.codes@)),
            rows_map(code_entries(r.codes@)) == self.code_view(),
            r.receipts@ == self.receipts_view(),
            r.logs_bloom@ == self.bloom_view(),
    {
        let codes = self.codes.into_code_rows();
        SealedBlock { state: self.state, codes, receipts: self.receipts, logs_bloom: self.bloom }
    }
}

} // verus!
