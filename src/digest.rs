//! Hashes, encodings and trie roots computed by outside crates, named by
//! what they depend on.
use vstd::prelude::*;
use crate::u256::U256;
use sha3::Digest;

verus! {

/// The Keccak-256 digest of bytes.
pub uninterp spec fn keccak_of(b: Seq<u8>) -> Seq<u8>;

/// The root of a secure Merkle-Patricia trie (keys hashed with Keccak-256)
/// holding exactly the given entries.
pub uninterp spec fn sec_trie_root_of(entries: Map<Seq<u8>, Seq<u8>>) -> Seq<u8>;

/// The RLP encoding of an unsigned 256-bit integer.
pub uninterp spec fn rlp_u256_of(v: nat) -> Seq<u8>;

/// The RLP encoding of an account leaf: nonce, balance, storage root, code hash.
pub uninterp spec fn account_rlp_of(nonce: nat, balance: nat, storage_root: Seq<u8>, code_hash: Seq<u8>) -> Seq<u8>;

/// The views of a list of byte-string pairs.
pub open spec fn pairs_view(p: Seq<(Vec<u8>, Vec<u8>)>) -> Seq<(Seq<u8>, Seq<u8>)> {
    p.map_values(|e: (Vec<u8>, Vec<u8>)| (e.0@, e.1@))
}

fn to_ethereum_u256(v: &U256) -> (r: [u64; 4])
    ensures
        r@ == seq![v.w0, v.w1, v.w2, v.w3],
{
    let r = [v.w0, v.w1, v.w2, v.w3];
    assert(r@ =~= seq![v.w0, v.w1, v.w2, v.w3]);
    r
}

/// Relies on sha3::Keccak256::digest: a 32-byte digest that depends on the
/// bytes alone.
#[verifier::external_body]
pub(crate) fn keccak(b: &Vec<u8>) -> (r: Vec<u8>)
    ensures
        r@ == keccak_of(b@),
        r@.len() == 32,
{
    sha3::Keccak256::digest(b.as_slice()).to_vec()
}

/// Relies on ethereum::util::sec_trie_root: a 32-byte root that depends on
/// the entries alone (the crate sorts them by hashed key).
#[verifier::external_body]
pub(crate) fn sec_trie_root(entries: &Vec<(Vec<u8>, Vec<u8>)>) -> (r: Vec<u8>)
    requires
        crate::table::keys_distinct(pairs_view(entries@)),
    ensures
        r@ == sec_trie_root_of(crate::table::rows_map(pairs_view(entries@))),
        r@.len() == 32,
{
    ethereum::util::sec_trie_root(entries.iter().map(|e| (e.0.as_slice(), e.1.as_slice())))
        .as_bytes()
        .to_vec()
}

/// Relies on rlp::encode of a 256-bit integer.
#[verifier::external_body]
pub(crate) fn rlp_u256(v: &U256) -> (r: Vec<u8>)
    ensures
        r@ == rlp_u256_of(v@),
{
    let words = to_ethereum_u256(v);
    rlp::encode(&ethereum_types::U256(words)).to_vec()
}

/// Relies on rlp::encode of ethereum::Account.
#[verifier::external_body]
pub(crate) fn account_rlp(nonce: &U256, balance: &U256, storage_root: &Vec<u8>, code_hash: &Vec<u8>) -> (r: Vec<u8>)
    requires
        storage_root@.len() == 32,
        code_hash@.len() == 32,
    ensures
        r@ == account_rlp_of(nonce@, balance@, storage_root@, code_hash@),
{
    let account = ethereum::Account {
        nonce: ethereum_types::U256(to_ethereum_u256(nonce)),
        balance: ethereum_types::U256(to_ethereum_u256(balance)),
        storage_root: ethereum_types::H256::from_slice(storage_root),
        code_hash: ethereum_types::H256::from_slice(code_hash),
    };
    rlp::encode(&account).to_vec()
}

} // verus!
