//! Records of the indexed chain that other indices refer to.
use vstd::prelude::*;

verus! {

/// The script of a transaction output.
pub struct TransactionVoutScript {
    pub hex: String,
    pub script_type: String,
}

/// One output of an indexed transaction.
pub struct TransactionVout {
    pub id: String,
    pub txid: String,
    pub n: i32,
    pub value: String,
    pub token_id: i32,
    pub script: TransactionVoutScript,
}

} // verus!
