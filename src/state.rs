//! World state: accounts with balances, nonces, code hashes and storage
//! slots, its state root, bridge balance updates and the application of the
//! changes an execution produced.
use vstd::prelude::*;
use crate::block_store::{block_code_list, keys_of, BlockStore};
use crate::columns::number_key;
use crate::digest::{
    account_rlp, account_rlp_of, keccak, keccak_of, pairs_view, rlp_u256, rlp_u256_of,
    sec_trie_root, sec_trie_root_of,
};
use crate::table::{keys_distinct, lemma_rows_map_values, rows_map, Key, Table};
use crate::u256::U256;

verus! {

/// The code hash of an account without code: Keccak-256 of no bytes.
pub open spec fn empty_code_hash() -> Seq<u8> {
    seq![
        0xc5u8, 0xd2u8, 0x46u8, 0x01u8, 0x86u8, 0xf7u8, 0x23u8, 0x3cu8, 0x92u8, 0x7eu8, 0x7du8,
        0xb2u8, 0xdcu8, 0xc7u8, 0x03u8, 0xc0u8, 0xe5u8, 0x00u8, 0xb6u8, 0x53u8, 0xcau8, 0x82u8,
        0x27u8, 0x3bu8, 0x7bu8, 0xfau8, 0xd8u8, 0x04u8, 0x5du8, 0x85u8, 0xa4u8, 0x70u8,
    ]
}

fn empty_code_hash_bytes() -> (r: Vec<u8>)
    ensures
        r@ == empty_code_hash(),
{
    let r = vec![
        0xc5u8, 0xd2u8, 0x46u8, 0x01u8, 0x86u8, 0xf7u8, 0x23u8, 0x3cu8, 0x92u8, 0x7eu8, 0x7du8,
        0xb2u8, 0xdcu8, 0xc7u8, 0x03u8, 0xc0u8, 0xe5u8, 0x00u8, 0xb6u8, 0x53u8, 0xcau8, 0x82u8,
        0x27u8, 0x3bu8, 0x7bu8, 0xfau8, 0xd8u8, 0x04u8, 0x5du8, 0x85u8, 0xa4u8, 0x70u8,
    ];
    assert(r@ =~= empty_code_hash());
    r
}

/// An account: nonce, balance, code hash and storage slots (absent slots hold 0).
pub struct Account {
    pub nonce: U256,
    pub balance: U256,
    pub code_hash: Vec<u8>,
    pub storage: Table<Vec<u8>, U256>,
}

/// The value view of an account.
pub struct AccountView {
    pub nonce: nat,
    pub balance: nat,
    pub code_hash: Seq<u8>,
    pub storage: Map<Seq<u8>, nat>,
}

impl View for Account {
    type V = AccountView;

    open spec fn view(&self) -> AccountView {
        AccountView {
            nonce: self.nonce@,
            balance: self.balance@,
            code_hash: self.code_hash@,
            storage: storage_view(self.storage),
        }
    }
}

/// The slot values of a storage table.
pub open spec fn storage_view(t: Table<Vec<u8>, U256>) -> Map<Seq<u8>, nat> {
    Map::new(|k: Seq<u8>| t@.contains_key(k), |k: Seq<u8>| t@[k]@)
}

/// A fresh account: no nonce, no balance, no code, no storage.
pub open spec fn empty_account() -> AccountView {
    AccountView { nonce: 0, balance: 0, code_hash: empty_code_hash(), storage: Map::empty() }
}

pub open spec fn is_empty_account(a: AccountView) -> bool {
    a.nonce == 0 && a.balance == 0 && a.code_hash == empty_code_hash()
}

/// The root of an account's storage trie: each slot leaf is its RLP-encoded value.
pub open spec fn storage_root_of(s: Map<Seq<u8>, nat>) -> Seq<u8> {
    sec_trie_root_of(Map::new(|k: Seq<u8>| s.contains_key(k), |k: Seq<u8>| rlp_u256_of(s[k])))
}

/// The world trie leaf of an account.
pub open spec fn account_leaf(a: AccountView) -> Seq<u8> {
    account_rlp_of(a.nonce, a.balance, storage_root_of(a.storage), a.code_hash)
}

/// The state root of a world state: the secure trie of the account leaves.
pub open spec fn state_root_of(accounts: Map<Seq<u8>, AccountView>) -> Seq<u8> {
    sec_trie_root_of(Map::new(|k: Seq<u8>| accounts.contains_key(k), |k: Seq<u8>| account_leaf(accounts[k])))
}

/// The account at an address, a fresh one when there is none.
pub open spec fn account_at(accounts: Map<Seq<u8>, AccountView>, a: Seq<u8>) -> AccountView {
    if accounts.contains_key(a) {
        accounts[a]
    } else {
        empty_account()
    }
}

/// The accounts after a balance is set.
pub open spec fn with_balance(accounts: Map<Seq<u8>, AccountView>, a: Seq<u8>, balance: nat) -> Map<Seq<u8>, AccountView> {
    accounts.insert(a, AccountView { balance, ..account_at(accounts, a) })
}

/// Why a state operation failed. Nothing was changed.
#[derive(Clone, Copy, Debug, PartialEq, Eq, Structural)]
pub enum StateError {
    /// The account's balance is below the amount to take.
    InsufficientBalance { account_balance: U256, amount: U256 },
    /// The balance would not fit in 256 bits.
    BalanceOverflow,
}

/// The accounts of the world state, by address.
pub struct WorldState {
    accounts: Table<Vec<u8>, Account>,
}

/// One account change produced by an execution.
pub enum Apply {
    /// New basic values, optional new code and storage writes (a zero value
    /// clears the slot); `reset_storage` clears all slots first.
    Modify {
        address: Vec<u8>,
        balance: U256,
        nonce: U256,
        code: Option<Vec<u8>>,
        storage: Vec<(Vec<u8>, U256)>,
        reset_storage: bool,
    },
    /// The account is deleted.
    Delete { address: Vec<u8> },
}

impl WorldState {
    pub closed spec fn wf(&self) -> bool {
        &&& self.accounts.wf()
        &&& forall|k: Seq<u8>| #[trigger] self.accounts@.contains_key(k) ==> self.accounts@[k].storage.wf()
            && self.accounts@[k].code_hash@.len() == 32
    }

    pub closed spec fn view(&self) -> Map<Seq<u8>, AccountView> {
        Map::new(|k: Seq<u8>| self.accounts@.contains_key(k), |k: Seq<u8>| self.accounts@[k]@)
    }

    pub fn new() -> (r: WorldState)
        ensures
            r.wf(),
            r.view() == Map::<Seq<u8>, AccountView>::empty(),
    {
        let r = WorldState { accounts: Table::new() };
        assert(r.view() =~= Map::<Seq<u8>, AccountView>::empty());
        r
    }

    pub fn get_balance(&self, address: &Vec<u8>) -> (r: U256)
        requires
            self.wf(),
        ensures
            r@ == account_at(self.view(), address@).balance,
    {
        match self.accounts.get(address) {
            Some(a) => a.balance,
            None => U256::zero(),
        }
    }

    pub fn get_nonce(&self, address: &Vec<u8>) -> (r: U256)
        requires
            self.wf(),
        ensures
            r@ == account_at(self.view(), address@).nonce,
    {
        match self.accounts.get(address) {
            Some(a) => a.nonce,
            None => U256::zero(),
        }
    }

    /// The value of a storage slot; 0 when it is not set.
    pub fn get_storage_at(&self, address: &Vec<u8>, slot: &Vec<u8>) -> (r: U256)
        requires
            self.wf(),
        ensures
            r@ == (if account_at(self.view(), address@).storage.contains_key(slot@) {
                account_at(self.view(), address@).storage[slot@]
            } else {
                0
            }),
    {
        match self.accounts.get(address) {
            Some(a) => match a.storage.get(slot) {
                Some(v) => *v,
                None => U256::zero(),
            },
            None => U256::zero(),
        }
    }

    pub fn get_code_hash(&self, address: &Vec<u8>) -> (r: Vec<u8>)
        requires
            self.wf(),
        ensures
            r@ == account_at(self.view(), address@).code_hash,
    {
        match self.accounts.get(address) {
            Some(a) => a.code_hash.duplicate(),
            None => empty_code_hash_bytes(),
        }
    }

    /// The code of an account, looked up in the code map by its code hash;
    /// None for an unknown account or code that is not stored.
    pub fn get_code<'a>(&self, address: &Vec<u8>, store: &'a BlockStore) -> (r: Option<&'a Vec<u8>>)
        requires
            self.wf(),
            store.wf(),
        ensures
            match r {
                Some(c) => self.view().contains_key(address@) && store@.code.contains_key(self.view()[address@].code_hash)
                    && *c == store@.code[self.view()[address@].code_hash],
                None => !self.view().contains_key(address@) || !store@.code.contains_key(self.view()[address@].code_hash),
            },
    {
        match self.accounts.get(address) {
            Some(a) => store.get_code_by_hash(&a.code_hash),
            None => None,
        }
    }

    /// Takes the account at `address` out of the table, a fresh one when absent.
    fn take_account(&mut self, address: &Vec<u8>) -> (r: Account)
        requires
            old(self).wf(),
        ensures
            final(self).wf(),
            final(self).view() == old(self).view().remove(address@),
            r@ == account_at(old(self).view(), address@),
            r.storage.wf(),
            r.code_hash@.len() == 32,
    {
        match self.accounts.remove(address) {
            Some(a) => {
                assert(self.view() =~= old(self).view().remove(address@));
                a
            },
            None => {
                let a = Account {
                    nonce: U256::zero(),
                    balance: U256::zero(),
                    code_hash: empty_code_hash_bytes(),
                    storage: Table::new(),
                };
                assert(storage_view(a.storage) =~= Map::<Seq<u8>, nat>::empty());
                assert(self.view() =~= old(self).view().remove(address@));
                a
            },
        }
    }

    fn put_account(&mut self, address: Vec<u8>, a: Account)
        requires
            old(self).wf(),
            a.storage.wf(),
            a.code_hash@.len() == 32,
        ensures
            final(self).wf(),
            final(self).view() == old(self).view().insert(address@, a@),
    {
        let ghost av = a@;
        let ghost k = address@;
        self.accounts.insert(address, a);
        assert(self.view() =~= old(self).view().insert(k, av));
    }

    /// Credits `amount` to an account; fails when the balance would overflow.
    pub fn add_balance(&mut self, address: &Vec<u8>, amount: &U256) -> (r: Result<(), StateError>)
        requires
            old(self).wf(),
        ensures
            final(self).wf(),
            r is Ok <==> account_at(old(self).view(), address@).balance + amount@ < crate::u256::u256_bound(),
            r is Ok ==> final(self).view() == with_balance(
                old(self).view(),
                address@,
                account_at(old(self).view(), address@).balance + amount@,
            ),
            r is Err ==> r == Err::<(), StateError>(StateError::BalanceOverflow) && final(self).view() == old(self).view(),
    {
        let balance = self.get_balance(address);
        match balance.checked_add(amount) {
            Some(b) => {
                let mut a = self.take_account(address);
                a.balance = b;
                self.put_account(address.duplicate(), a);
                proof {
                    assert(self.view() =~= with_balance(old(self).view(), address@, b@));
                }
                Ok(())
            },
            None => Err(StateError::BalanceOverflow),
        }
    }

    /// Debits `amount` from an account; fails, carrying the balance and the
    /// amount, when the balance is lower.
    pub fn sub_balance(&mut self, address: &Vec<u8>, amount: &U256) -> (r: Result<(), StateError>)
        requires
            old(self).wf(),
        ensures
            final(self).wf(),
            r is Ok <==> amount@ <= account_at(old(self).view(), address@).balance,
            r is Ok ==> final(self).view() == with_balance(
                old(self).view(),
                address@,
                (account_at(old(self).view(), address@).balance - amount@) as nat,
            ),
            r matches Err(e) ==> final(self).view() == old(self).view() && e == (StateError::InsufficientBalance {
                account_balance: e->account_balance,
                amount: *amount,
            }) && e->account_balance@ == account_at(old(self).view(), address@).balance,
    {
        let balance = self.get_balance(address);
        match balance.checked_sub(amount) {
            Some(b) => {
                let mut a = self.take_account(address);
                a.balance = b;
                self.put_account(address.duplicate(), a);
                proof {
                    assert(self.view() =~= with_balance(old(self).view(), address@, b@));
                }
                Ok(())
            },
            None => Err(StateError::InsufficientBalance { account_balance: balance, amount: *amount }),
        }
    }

    /// The state root: the secure trie of the account leaves, each leaf
    /// holding the root of the account's storage trie.
    pub fn state_root(&self) -> (r: Vec<u8>)
        requires
            self.wf(),
        ensures
            r@ == state_root_of(self.view()),
    {
        let n = self.accounts.len();
        let mut leaves: Vec<(Vec<u8>, Vec<u8>)> = Vec::new();
        let ghost rows = self.accounts.rows();
        let ghost f = |a: Account| leaf_of_account(a);
        let mut i: usize = 0;
        while i < n
            invariant
                self.wf(),
                n == rows.len(),
                rows == self.accounts.rows(),
                i <= n,
                leaves.len() == i,
                forall|j: int| 0 <= j < i ==> #[trigger] pairs_view(leaves@)[j] == (rows[j].0, leaf_of_account(rows[j].1)),
            decreases n - i,
        {
            let (addr, acc) = self.accounts.row(i);
            let sroot = storage_root(&acc.storage);
            let leaf = account_rlp(&acc.nonce, &acc.balance, &sroot, &acc.code_hash);
            let ghost before = leaves@;
            leaves.push((addr.duplicate(), leaf));
            proof {
                assert forall|j: int| 0 <= j < i + 1 implies #[trigger] pairs_view(leaves@)[j] == (rows[j].0, leaf_of_account(rows[j].1)) by {
                    if j < i {
                        assert(leaves@[j] == before[j]);
                        assert(pairs_view(leaves@)[j] == (leaves@[j].0@, leaves@[j].1@));
                        assert(pairs_view(before)[j] == (before[j].0@, before[j].1@));
                    } else {
                        assert(pairs_view(leaves@)[j] == (leaves@[j].0@, leaves@[j].1@));
                    }
                }
            }
            i = i + 1;
        }
        proof {
            self.accounts.lemma_rows();
            lemma_rows_map_values(rows, pairs_view(leaves@), f);
            assert(rows_map(pairs_view(leaves@)) =~= Map::new(
                |k: Seq<u8>| self.view().contains_key(k),
                |k: Seq<u8>| account_leaf(self.view()[k]),
            ));
        }
        sec_trie_root(&leaves)
    }
}

pub open spec fn leaf_of_account(a: Account) -> Seq<u8> {
    account_leaf(a@)
}

pub open spec fn leaf_of_value(v: U256) -> Seq<u8> {
    rlp_u256_of(v@)
}

/// The root of a storage table.
fn storage_root(storage: &Table<Vec<u8>, U256>) -> (r: Vec<u8>)
    requires
        storage.wf(),
    ensures
        r@ == storage_root_of(storage_view(*storage)),
        r@.len() == 32,
{
    let n = storage.len();
    let ghost rows = storage.rows();
    let ghost f = |v: U256| rlp_u256_of(v@);
    let mut leaves: Vec<(Vec<u8>, Vec<u8>)> = Vec::new();
    let mut i: usize = 0;
    while i < n
        invariant
            storage.wf(),
            n == rows.len(),
            rows == storage.rows(),
            i <= n,
            leaves.len() == i,
            forall|j: int| 0 <= j < i ==> #[trigger] pairs_view(leaves@)[j] == (rows[j].0, leaf_of_value(rows[j].1)),
        decreases n - i,
    {
        let (slot, v) = storage.row(i);
        let ghost before = leaves@;
        let enc = rlp_u256(v);
        assert(enc@ == leaf_of_value(rows[i as int].1));
        leaves.push((slot.duplicate(), enc));
        proof {
            assert forall|j: int| 0 <= j < i + 1 implies #[trigger] pairs_view(leaves@)[j] == (rows[j].0, leaf_of_value(rows[j].1)) by {
                assert(pairs_view(leaves@)[j] == (leaves@[j].0@, leaves@[j].1@));
                if j < i {
                    assert(leaves@[j] == before[j]);
                    assert(pairs_view(before)[j] == (before[j].0@, before[j].1@));
                }
            }
        }
        i = i + 1;
    }
    proof {
        lemma_rows_map_values(rows, pairs_view(leaves@), f);
        let s = storage_view(*storage);
        assert(rows_map(pairs_view(leaves@)) =~= Map::new(|k: Seq<u8>| s.contains_key(k), |k: Seq<u8>| rlp_u256_of(s[k])));
    }
    sec_trie_root(&leaves)
}

/// Two world states with the same accounts have the same state root, and
/// balance writes to different accounts give the same root in either order.
pub proof fn lemma_state_root_canonical(
    s: Map<Seq<u8>, AccountView>,
    t: Map<Seq<u8>, AccountView>,
    a: Seq<u8>,
    x: nat,
    b: Seq<u8>,
    y: nat,
)
    requires
        a != b,
    ensures
        s == t ==> state_root_of(s) == state_root_of(t),
        state_root_of(with_balance(with_balance(s, a, x), b, y)) == state_root_of(
            with_balance(with_balance(s, b, y), a, x),
        ),
{
    assert(with_balance(with_balance(s, a, x), b, y) =~= with_balance(with_balance(s, b, y), a, x));
}

/// Slot values after each write in turn; a zero value clears the slot.
pub open spec fn written(s: Map<Seq<u8>, nat>, ws: Seq<(Vec<u8>, U256)>) -> Map<Seq<u8>, nat>
    decreases ws.len(),
{
    if ws.len() == 0 {
        s
    } else {
        let m = written(s, ws.drop_last());
        let (k, v) = ws.last();
        if v@ == 0 {
            m.remove(k@)
        } else {
            m.insert(k@, v@)
        }
    }
}

/// The accounts after an account is given new basic values, an optional new
/// code hash and storage writes.
pub open spec fn modified(
    m: Map<Seq<u8>, AccountView>,
    address: Seq<u8>,
    balance: nat,
    nonce: nat,
    code_hash: Option<Seq<u8>>,
    storage: Seq<(Vec<u8>, U256)>,
    reset_storage: bool,
    delete_empty: bool,
) -> Map<Seq<u8>, AccountView> {
    let old_acc = account_at(m, address);
    let base = if reset_storage { Map::empty() } else { old_acc.storage };
    let acc = AccountView {
        nonce,
        balance,
        code_hash: match code_hash {
            Some(h) => h,
            None => old_acc.code_hash,
        },
        storage: written(base, storage),
    };
    if delete_empty && is_empty_account(acc) {
        m.remove(address)
    } else {
        m.insert(address, acc)
    }
}

/// The accounts after one change.
pub open spec fn applied_one(m: Map<Seq<u8>, AccountView>, c: Apply, delete_empty: bool) -> Map<Seq<u8>, AccountView> {
    match c {
        Apply::Modify { address, balance, nonce, code, storage, reset_storage } => modified(
            m,
            address@,
            balance@,
            nonce@,
            match code {
                Some(c) => Some(keccak_of(c@)),
                None => None,
            },
            storage@,
            reset_storage,
            delete_empty,
        ),
        Apply::Delete { address } => m.remove(address@),
    }
}

/// The code map after the code of one change is stored under its hash
/// (code already stored stays as it is).
pub open spec fn code_written_one(code: Map<Seq<u8>, Vec<u8>>, c: Apply) -> Map<Seq<u8>, Vec<u8>> {
    match c {
        Apply::Modify { code: Some(b), .. } => if code.contains_key(keccak_of(b@)) {
            code
        } else {
            code.insert(keccak_of(b@), b)
        },
        _ => code,
    }
}

/// The accounts after each change in turn.
pub open spec fn applied(m: Map<Seq<u8>, AccountView>, cs: Seq<Apply>, delete_empty: bool) -> Map<Seq<u8>, AccountView>
    decreases cs.len(),
{
    if cs.len() == 0 {
        m
    } else {
        applied_one(applied(m, cs.drop_last(), delete_empty), cs.last(), delete_empty)
    }
}

/// The code map after the code of each change is stored under its hash.
pub open spec fn code_written(code: Map<Seq<u8>, Vec<u8>>, cs: Seq<Apply>) -> Map<Seq<u8>, Vec<u8>>
    decreases cs.len(),
{
    if cs.len() == 0 {
        code
    } else {
        code_written_one(code_written(code, cs.drop_last()), cs.last())
    }
}

/// The hash of the code a change sets, if it sets code.
pub open spec fn code_hash_of(c: Apply) -> Option<Seq<u8>> {
    match c {
        Apply::Modify { code: Some(b), .. } => Some(keccak_of(b@)),
        _ => None,
    }
}

/// The hashes of the code a list of changes sets.
pub open spec fn apply_code_hashes(cs: Seq<Apply>) -> Set<Seq<u8>> {
    Set::new(|h: Seq<u8>| exists|i: int| 0 <= i < cs.len() && code_hash_of(cs[i]) == Some(h))
}

proof fn lemma_code_written_dom(m: Map<Seq<u8>, Vec<u8>>, cs: Seq<Apply>, h: Seq<u8>)
    ensures
        code_written(m, cs).contains_key(h) == (m.contains_key(h) || apply_code_hashes(cs).contains(h)),
    decreases cs.len(),
{
    if cs.len() > 0 {
        let front = cs.drop_last();
        lemma_code_written_dom(m, front, h);
        if apply_code_hashes(front).contains(h) {
            let i = choose|i: int| 0 <= i < front.len() && code_hash_of(front[i]) == Some(h);
            assert(code_hash_of(cs[i]) == Some(h));
        }
        if apply_code_hashes(cs).contains(h) {
            let i = choose|i: int| 0 <= i < cs.len() && code_hash_of(cs[i]) == Some(h);
            if i < front.len() {
                assert(front[i] == cs[i]);
            }
        }
    } else {
        assert(!apply_code_hashes(cs).contains(h));
    }
}

/// The accounts after a message call: its changes when committed, none when simulated.
pub open spec fn call_effect(m: Map<Seq<u8>, AccountView>, cs: Seq<Apply>, commit: bool, delete_empty: bool) -> Map<Seq<u8>, AccountView> {
    if commit {
        applied(m, cs, delete_empty)
    } else {
        m
    }
}

fn write_slots(storage: &mut Table<Vec<u8>, U256>, writes: Vec<(Vec<u8>, U256)>)
    requires
        old(storage).wf(),
    ensures
        final(storage).wf(),
        storage_view(*final(storage)) == written(storage_view(*old(storage)), writes@),
{
    let ghost all = writes@;
    let total = writes.len();
    let mut rest = writes;
    let mut i: usize = 0;
    while rest.len() > 0
        invariant
            storage.wf(),
            i <= all.len(),
            all.len() == total,
            rest@ == all.skip(i as int),
            rest.len() == all.len() - i,
            storage_view(*storage) == written(storage_view(*old(storage)), all.take(i as int)),
        decreases rest.len(),
    {
        let (k, v) = rest.remove(0);
        proof {
            assert(all[i as int] == (k, v));
            assert(rest@ =~= all.skip(i + 1));
            assert(all.take(i + 1).drop_last() =~= all.take(i as int));
        }
        let ghost before = storage_view(*storage);
        let ghost kv = k@;
        if v.is_zero() {
            storage.remove(&k);
            assert(storage_view(*storage) =~= before.remove(kv));
        } else {
            storage.insert(k, v);
            assert(storage_view(*storage) =~= before.insert(kv, v@));
        }
        i = i + 1;
    }
    assert(all.take(i as int) =~= all);
}

impl WorldState {
    fn modify(
        &mut self,
        address: Vec<u8>,
        balance: U256,
        nonce: U256,
        code_hash: Option<Vec<u8>>,
        storage: Vec<(Vec<u8>, U256)>,
        reset_storage: bool,
        delete_empty: bool,
    )
        requires
            old(self).wf(),
            code_hash matches Some(h) ==> h@.len() == 32,
        ensures
            final(self).wf(),
            final(self).view() == modified(
                old(self).view(),
                address@,
                balance@,
                nonce@,
                match code_hash {
                    Some(h) => Some(h@),
                    None => None,
                },
                storage@,
                reset_storage,
                delete_empty,
            ),
    {
        let ghost ch = match &code_hash {
            Some(h) => Some(h@),
            None => None,
        };
        let mut acc = self.take_account(&address);
        if reset_storage {
            acc.storage = Table::new();
            assert(storage_view(acc.storage) =~= Map::<Seq<u8>, nat>::empty());
        }
        write_slots(&mut acc.storage, storage);
        acc.nonce = nonce;
        acc.balance = balance;
        match code_hash {
            Some(h) => {
                acc.code_hash = h;
            },
            None => {},
        }
        let empty = acc.nonce.is_zero() && acc.balance.is_zero() && acc.code_hash.same(&empty_code_hash_bytes());
        if delete_empty && empty {
            assert(self.view() =~= modified(old(self).view(), address@, balance@, nonce@, ch, storage@, reset_storage, delete_empty));
        } else {
            let ghost av = acc@;
            self.put_account(address, acc);
            assert(self.view() =~= modified(old(self).view(), address@, balance@, nonce@, ch, storage@, reset_storage, delete_empty));
        }
    }

    fn apply_one(&mut self, c: Apply, delete_empty: bool, store: &mut BlockStore, number: u64)
        requires
            old(self).wf(),
            old(store).wf(),
        ensures
            final(self).wf(),
            final(store).wf(),
            final(self).view() == applied_one(old(self).view(), c, delete_empty),
            final(store)@.code == code_written_one(old(store)@.code, c),
            final(store)@ == (crate::block_store::StoreView { code: final(store)@.code, block_codes: final(store)@.block_codes, ..old(store)@ }),
            final(store)@.block_codes.remove(number_key(number)) == old(store)@.block_codes.remove(number_key(number)),
            keys_of(block_code_list(final(store)@.block_codes, number_key(number))) == match code_hash_of(c) {
                Some(h) => if old(store)@.code.contains_key(h) {
                    keys_of(block_code_list(old(store)@.block_codes, number_key(number)))
                } else {
                    keys_of(block_code_list(old(store)@.block_codes, number_key(number))).insert(h)
                },
                None => keys_of(block_code_list(old(store)@.block_codes, number_key(number))),
            },
    {
        match c {
            Apply::Modify { address, balance, nonce, code, storage, reset_storage } => {
                let code_hash = match code {
                    Some(bytes) => {
                        let hash = keccak(&bytes);
                        let kept = hash.duplicate();
                        store.put_code(number, &hash, bytes);
                        Some(kept)
                    },
                    None => None,
                };
                self.modify(address, balance, nonce, code_hash, storage, reset_storage, delete_empty);
            },
            Apply::Delete { address } => {
                let _ = self.take_account(&address);
            },
        }
    }

    /// Applies the changes of an execution in order: new balances and nonces,
    /// code stored under its hash and recorded at block `number`, storage
    /// writes (zero clears a slot), and, with `delete_empty`, empty accounts
    /// removed.
    pub fn apply(&mut self, changes: Vec<Apply>, delete_empty: bool, store: &mut BlockStore, number: u64)
        requires
            old(self).wf(),
            old(store).wf(),
        ensures
            final(self).wf(),
            final(store).wf(),
            final(self).view() == applied(old(self).view(), changes@, delete_empty),
            final(store)@.code == code_written(old(store)@.code, changes@),
            final(store)@ == (crate::block_store::StoreView { code: final(store)@.code, block_codes: final(store)@.block_codes, ..old(store)@ }),
            final(store)@.block_codes.remove(number_key(number)) == old(store)@.block_codes.remove(number_key(number)),
            keys_of(block_code_list(final(store)@.block_codes, number_key(number))) == keys_of(
                block_code_list(old(store)@.block_codes, number_key(number)),
            ).union(apply_code_hashes(changes@).difference(old(store)@.code.dom())),
    {
        let ghost all = changes@;
        let ghost k = number_key(number);
        proof {
            assert(apply_code_hashes(all.take(0)) =~= Set::empty());
            assert(keys_of(block_code_list(old(store)@.block_codes, k)).union(Set::<Seq<u8>>::empty().difference(old(store)@.code.dom()))
                =~= keys_of(block_code_list(old(store)@.block_codes, k)));
        }
        let total = changes.len();
        let mut rest = changes;
        let mut i: usize = 0;
        while rest.len() > 0
            invariant
                self.wf(),
                store.wf(),
                i <= all.len(),
                all.len() == total,
                rest@ == all.skip(i as int),
                rest.len() == all.len() - i,
                self.view() == applied(old(self).view(), all.take(i as int), delete_empty),
                store@.code == code_written(old(store)@.code, all.take(i as int)),
                store@ == (crate::block_store::StoreView { code: store@.code, block_codes: store@.block_codes, ..old(store)@ }),
                k == number_key(number),
                store@.block_codes.remove(k) == old(store)@.block_codes.remove(k),
                keys_of(block_code_list(store@.block_codes, k)) == keys_of(block_code_list(old(store)@.block_codes, k)).union(
                    apply_code_hashes(all.take(i as int)).difference(old(store)@.code.dom()),
                ),
            decreases rest.len(),
        {
            let c = rest.remove(0);
            proof {
                assert(all[i as int] == c);
                assert(rest@ =~= all.skip(i + 1));
                assert(all.take(i + 1).drop_last() =~= all.take(i as int));
            }
            let ghost before = *store;
            let ghost cv = c;
            self.apply_one(c, delete_empty, store, number);
            proof {
                let t = all.take(i as int);
                let t1 = all.take(i + 1);
                assert(t1 =~= t.push(cv));
                assert(store@.block_codes.remove(k) =~= old(store)@.block_codes.remove(k)) by {
                    assert(store@.block_codes.remove(k) =~= before@.block_codes.remove(k));
                }
                assert forall|h: Seq<u8>| apply_code_hashes(t1).contains(h) == (apply_code_hashes(t).contains(h) || code_hash_of(cv) == Some(h)) by {
                    if apply_code_hashes(t).contains(h) {
                        let j = choose|j: int| 0 <= j < t.len() && code_hash_of(t[j]) == Some(h);
                        assert(t1[j] == t[j]);
                    }
                    if code_hash_of(cv) == Some(h) {
                        assert(t1[t.len() as int] == cv);
                    }
                    if apply_code_hashes(t1).contains(h) {
                        let j = choose|j: int| 0 <= j < t1.len() && code_hash_of(t1[j]) == Some(h);
                        if j < t.len() {
                            assert(t[j] == t1[j]);
                        }
                    }
                }
                match code_hash_of(cv) {
                    Some(h) => {
                        lemma_code_written_dom(old(store)@.code, t, h);
                    },
                    None => {},
                }
                assert(keys_of(block_code_list(store@.block_codes, k)) =~= keys_of(block_code_list(old(store)@.block_codes, k)).union(
                    apply_code_hashes(t1).difference(old(store)@.code.dom()),
                ));
            }
            i = i + 1;
        }
        assert(all.take(i as int) =~= all);
    }

    /// Ends a message call: commits its changes, or, for a simulation,
    /// discards them and leaves state and store as they were.
    pub fn finish_call(&mut self, changes: Vec<Apply>, commit: bool, delete_empty: bool, store: &mut BlockStore, number: u64)
        requires
            old(self).wf(),
            old(store).wf(),
        ensures
            final(self).wf(),
            final(store).wf(),
            final(self).view() == call_effect(old(self).view(), changes@, commit, delete_empty),
            !commit ==> final(store)@ == old(store)@,
            commit ==> {
                &&& final(store)@.code == code_written(old(store)@.code, changes@)
                &&& final(store)@ == (crate::block_store::StoreView { code: final(store)@.code, block_codes: final(store)@.block_codes, ..old(store)@ })
                &&& final(store)@.block_codes.remove(number_key(number)) == old(store)@.block_codes.remove(number_key(number))
                &&& keys_of(block_code_list(final(store)@.block_codes, number_key(number))) == keys_of(
                    block_code_list(old(store)@.block_codes, number_key(number)),
                ).union(apply_code_hashes(changes@).difference(old(store)@.code.dom()))
            },
    {
        if commit {
            self.apply(changes, delete_empty, store, number);
        }
    }
}

/// A simulated call leaves every balance, nonce, code hash and storage slot
/// as it was; a committed one leaves them as its changes made them.
pub proof fn lemma_simulate_commit(m: Map<Seq<u8>, AccountView>, cs: Seq<Apply>, delete_empty: bool, a: Seq<u8>)
    ensures
        account_at(call_effect(m, cs, false, delete_empty), a) == account_at(m, a),
        account_at(call_effect(m, cs, true, delete_empty), a) == account_at(applied(m, cs, delete_empty), a),
{
}

/// The value views of a map of accounts.
pub open spec fn accounts_view(m: Map<Seq<u8>, Account>) -> Map<Seq<u8>, AccountView> {
    Map::new(|k: Seq<u8>| m.contains_key(k), |k: Seq<u8>| m[k]@)
}

fn copy_storage(t: &Table<Vec<u8>, U256>) -> (r: Table<Vec<u8>, U256>)
    requires
        t.wf(),
    ensures
        r.wf(),
        r@ == t@,
{
    let n = t.len();
    let ghost rows = t.rows();
    let mut out: Table<Vec<u8>, U256> = Table::new();
    let mut i: usize = 0;
    proof {
        assert(rows.take(0) =~= Seq::<(Seq<u8>, U256)>::empty());
        assert(rows_map(rows.take(0)) =~= Map::<Seq<u8>, U256>::empty());
    }
    while i < n
        invariant
            t.wf(),
            out.wf(),
            n == rows.len(),
            rows == t.rows(),
            keys_distinct(rows),
            i <= n,
            out@ == rows_map(rows.take(i as int)),
        decreases n - i,
    {
        let (k, v) = t.row(i);
        out.insert(k.duplicate(), *v);
        proof {
            let front = rows.take(i as int);
            assert(keys_distinct(front));
            assert(!rows_map(front).contains_key(rows[i as int].0)) by {
                if rows_map(front).contains_key(rows[i as int].0) {
                    let j = choose|j: int| 0 <= j < front.len() && front[j].0 == rows[i as int].0;
                    assert(rows[j].0 == rows[i as int].0);
                }
            }
            Table::<Vec<u8>, U256>::lemma_push(front, rows[i as int].0, rows[i as int].1);
            assert(rows.take(i + 1) =~= front.push((rows[i as int].0, rows[i as int].1)));
        }
        i = i + 1;
    }
    assert(rows.take(n as int) =~= rows);
    out
}

impl WorldState {
    /// A copy with the same accounts.
    pub fn snapshot(&self) -> (r: WorldState)
        requires
            self.wf(),
        ensures
            r.wf(),
            r.view() == self.view(),
    {
        let n = self.accounts.len();
        let ghost rows = self.accounts.rows();
        let mut out = WorldState::new();
        let mut i: usize = 0;
        proof {
            assert(rows.take(0) =~= Seq::<(Seq<u8>, Account)>::empty());
            assert(accounts_view(rows_map(rows.take(0))) =~= Map::<Seq<u8>, AccountView>::empty());
        }
        while i < n
            invariant
                self.wf(),
                out.wf(),
                n == rows.len(),
                rows == self.accounts.rows(),
                keys_distinct(rows),
                i <= n,
                out.view() == accounts_view(rows_map(rows.take(i as int))),
            decreases n - i,
        {
            let (k, a) = self.accounts.row(i);
            proof {
                self.accounts.lemma_rows();
                assert(self.accounts@.contains_key(rows[i as int].0));
            }
            let copy = Account {
                nonce: a.nonce,
                balance: a.balance,
                code_hash: a.code_hash.duplicate(),
                storage: copy_storage(&a.storage),
            };
            assert(storage_view(copy.storage) =~= storage_view(a.storage));
            out.put_account(k.duplicate(), copy);
            proof {
                let front = rows.take(i as int);
                assert(keys_distinct(front));
                assert(!rows_map(front).contains_key(rows[i as int].0)) by {
                    if rows_map(front).contains_key(rows[i as int].0) {
                        let j = choose|j: int| 0 <= j < front.len() && front[j].0 == rows[i as int].0;
                        assert(rows[j].0 == rows[i as int].0);
                    }
                }
                Table::<Vec<u8>, Account>::lemma_push(front, rows[i as int].0, rows[i as int].1);
                assert(rows.take(i + 1) =~= front.push((rows[i as int].0, rows[i as int].1)));
                assert(out.view() =~= accounts_view(rows_map(rows.take(i + 1))));
            }
            i = i + 1;
        }
        proof {
            assert(rows.take(n as int) =~= rows);
            assert(out.view() =~= self.view());
        }
        out
    }
}

/// Committed world states, each under its state root.
pub struct StateArchive {
    states: Table<Vec<u8>, WorldState>,
}

impl StateArchive {
    pub closed spec fn wf(&self) -> bool {
        &&& self.states.wf()
        &&& forall|r: Seq<u8>| #[trigger] self.states@.contains_key(r) ==> self.states@[r].wf()
            && r == state_root_of(self.states@[r].view())
    }

    /// The accounts of each committed state, by root.
    pub closed spec fn view(&self) -> Map<Seq<u8>, Map<Seq<u8>, AccountView>> {
        Map::new(|r: Seq<u8>| self.states@.contains_key(r), |r: Seq<u8>| self.states@[r].view())
    }

    /// An archive holding the empty state; returns it with the empty root.
    pub fn new() -> (r: (StateArchive, Vec<u8>))
        ensures
            r.0.wf(),
            r.1@ == state_root_of(Map::empty()),
            r.0.view() == Map::<Seq<u8>, Map<Seq<u8>, AccountView>>::empty().insert(r.1@, Map::empty()),
    {
        let mut a = StateArchive { states: Table::new() };
        let root = a.commit(&WorldState::new());
        assert(a.view() =~= Map::<Seq<u8>, Map<Seq<u8>, AccountView>>::empty().insert(root@, Map::empty()));
        (a, root)
    }

    /// Keeps a copy of a state under its root, and returns the root.
    pub fn commit(&mut self, state: &WorldState) -> (root: Vec<u8>)
        requires
            old(self).wf(),
            state.wf(),
        ensures
            final(self).wf(),
            root@ == state_root_of(state.view()),
            final(self).view() == old(self).view().insert(root@, state.view()),
    {
        let root = state.state_root();
        let copy = state.snapshot();
        self.states.insert(root.duplicate(), copy);
        assert(self.view() =~= old(self).view().insert(root@, state.view()));
        root
    }

    /// The state committed under a root.
    pub fn open(&self, root: &Vec<u8>) -> (r: Option<&WorldState>)
        requires
            self.wf(),
        ensures
            match r {
                Some(s) => s.wf() && self.view().contains_key(root@) && s.view() == self.view()[root@]
                    && state_root_of(s.view()) == root@,
                None => !self.view().contains_key(root@),
            },
    {
        self.states.get(root)
    }

    /// The state at block `number`, or at the latest block when there is no
    /// such block: the one committed under that block's state root.
    pub fn state_at(&self, store: &BlockStore, number: u64) -> (r: Option<&WorldState>)
        requires
            self.wf(),
            store.wf(),
        ensures
            ({
                let block = if store@.blocks.contains_key(crate::columns::number_key(number)) {
                    Some(store@.blocks[crate::columns::number_key(number)])
                } else {
                    crate::block_store::latest_block(store@)
                };
                match block {
                    None => r is None,
                    Some(b) => match r {
                        Some(s) => self.view().contains_key(b.state_root@) && s.view() == self.view()[b.state_root@],
                        None => !self.view().contains_key(b.state_root@),
                    },
                }
            }),
    {
        let block = match store.get_block_by_number(number) {
            Some(b) => b,
            None => match store.get_latest_block() {
                Some(b) => b,
                None => {
                    return None;
                },
            },
        };
        self.open(&block.state_root)
    }
}

/// Opening the same root twice and applying the same changes gives the same
/// state root.
pub proof fn lemma_same_root_same_result(
    archive: Map<Seq<u8>, Map<Seq<u8>, AccountView>>,
    root: Seq<u8>,
    first: Map<Seq<u8>, AccountView>,
    second: Map<Seq<u8>, AccountView>,
    cs: Seq<Apply>,
    delete_empty: bool,
)
    requires
        archive.contains_key(root),
        first == archive[root],
        second == archive[root],
    ensures
        state_root_of(applied(first, cs, delete_empty)) == state_root_of(applied(second, cs, delete_empty)),
{
}

} // verus!
