//! Column families of the block store and the encodings of their keys.
use vstd::prelude::*;
use vstd::utf8::encode_utf8;

verus! {

/// A column family: its name and how an index becomes a key.
pub trait Column {
    type Index;

    spec fn spec_key(index: &Self::Index) -> Seq<u8>;

    spec fn spec_name() -> Seq<char>;

    fn name() -> (r: &'static str)
        ensures
            r@ == Self::spec_name(),
    ;

    fn key(index: &Self::Index) -> (r: Vec<u8>)
        ensures
            r@ == Self::spec_key(index),
    ;
}

/// A block number as 32 big-endian bytes.
pub open spec fn number_key(n: u64) -> Seq<u8> {
    Seq::new(32, |i: int| if i < 24 { 0u8 } else { ((n >> ((8 * (31 - i)) as u64)) & 0xff) as u8 })
}

/// The key of the single entry of the latest block number column.
pub open spec fn latest_key() -> Seq<u8> {
    seq![108u8, 97u8, 116u8, 101u8, 115u8, 116u8]
}

pub fn encode_number(n: u64) -> (r: Vec<u8>)
    ensures
        r@ == number_key(n),
{
    let mut out: Vec<u8> = Vec::new();
    let mut i: usize = 0;
    while i < 32
        invariant
            i <= 32,
            out@.len() == i,
            forall|j: int| 0 <= j < i ==> out@[j] == number_key(n)[j],
        decreases 32 - i,
    {
        if i < 24 {
            out.push(0u8);
        } else {
            let shift: u64 = (8 * (31 - i)) as u64;
            out.push(((n >> shift) & 0xff) as u8);
        }
        i = i + 1;
    }
    assert(out@ =~= number_key(n));
    out
}

fn copy_bytes(b: &Vec<u8>) -> (r: Vec<u8>)
    ensures
        r@ == b@,
{
    let mut out: Vec<u8> = Vec::new();
    let mut i: usize = 0;
    while i < b.len()
        invariant
            i <= b.len(),
            out@ == b@.take(i as int),
        decreases b.len() - i,
    {
        out.push(b[i]);
        i = i + 1;
        assert(out@ =~= b@.take(i as int));
    }
    assert(b@.take(b.len() as int) =~= b@);
    out
}

/// Blocks by number.
pub struct Blocks;

/// Transactions by hash.
pub struct Transactions;

/// Receipts by transaction hash.
pub struct Receipts;

/// Block numbers by block hash.
pub struct BlockMap;

/// The latest block number, under a single key.
pub struct LatestBlockNumber;

/// Per block number, the log indices of each address.
pub struct AddressLogsMap;

/// Bytecode by code hash.
pub struct AddressCodeMap;

/// Per block number, the code hashes first stored at that block.
pub struct BlockDeployedCodeHashes;

impl Column for Blocks {
    type Index = u64;

    open spec fn spec_key(index: &u64) -> Seq<u8> {
        number_key(*index)
    }

    open spec fn spec_name() -> Seq<char> {
        "blocks"@
    }

    fn name() -> (r: &'static str) {
        proof {
            reveal_strlit("blocks");
        }
        "blocks"
    }

    fn key(index: &u64) -> (r: Vec<u8>) {
        encode_number(*index)
    }
}

impl Column for Transactions {
    type Index = Vec<u8>;

    open spec fn spec_key(index: &Vec<u8>) -> Seq<u8> {
        index@
    }

    open spec fn spec_name() -> Seq<char> {
        "transactions"@
    }

    fn name() -> (r: &'static str) {
        proof {
            reveal_strlit("transactions");
        }
        "transactions"
    }

    fn key(index: &Vec<u8>) -> (r: Vec<u8>) {
        copy_bytes(index)
    }
}

impl Column for Receipts {
    type Index = Vec<u8>;

    open spec fn spec_key(index: &Vec<u8>) -> Seq<u8> {
        index@
    }

    open spec fn spec_name() -> Seq<char> {
        "receipts"@
    }

    fn name() -> (r: &'static str) {
        proof {
            reveal_strlit("receipts");
        }
        "receipts"
    }

    fn key(index: &Vec<u8>) -> (r: Vec<u8>) {
        copy_bytes(index)
    }
}

impl Column for BlockMap {
    type Index = Vec<u8>;

    open spec fn spec_key(index: &Vec<u8>) -> Seq<u8> {
        index@
    }

    open spec fn spec_name() -> Seq<char> {
        "block_map"@
    }

    fn name() -> (r: &'static str) {
        proof {
            reveal_strlit("block_map");
        }
        "block_map"
    }

    fn key(index: &Vec<u8>) -> (r: Vec<u8>) {
        copy_bytes(index)
    }
}

impl Column for LatestBlockNumber {
    type Index = ();

    open spec fn spec_key(index: &()) -> Seq<u8> {
        latest_key()
    }

    open spec fn spec_name() -> Seq<char> {
        "latest_block_number"@
    }

    fn name() -> (r: &'static str) {
        proof {
            reveal_strlit("latest_block_number");
        }
        "latest_block_number"
    }

    fn key(index: &()) -> (r: Vec<u8>) {
        let r = vec![108u8, 97u8, 116u8, 101u8, 115u8, 116u8];
        assert(r@ =~= latest_key());
        r
    }
}

impl Column for AddressLogsMap {
    type Index = u64;

    open spec fn spec_key(index: &u64) -> Seq<u8> {
        number_key(*index)
    }

    open spec fn spec_name() -> Seq<char> {
        "address_logs_map"@
    }

    fn name() -> (r: &'static str) {
        proof {
            reveal_strlit("address_logs_map");
        }
        "address_logs_map"
    }

    fn key(index: &u64) -> (r: Vec<u8>) {
        encode_number(*index)
    }
}

impl Column for AddressCodeMap {
    type Index = Vec<u8>;

    open spec fn spec_key(index: &Vec<u8>) -> Seq<u8> {
        index@
    }

    open spec fn spec_name() -> Seq<char> {
        "code_map"@
    }

    fn name() -> (r: &'static str) {
        proof {
            reveal_strlit("code_map");
        }
        "code_map"
    }

    fn key(index: &Vec<u8>) -> (r: Vec<u8>) {
        copy_bytes(index)
    }
}

impl Column for BlockDeployedCodeHashes {
    type Index = u64;

    open spec fn spec_key(index: &u64) -> Seq<u8> {
        number_key(*index)
    }

    open spec fn spec_name() -> Seq<char> {
        "block_code_hashes"@
    }

    fn name() -> (r: &'static str) {
        proof {
            reveal_strlit("block_code_hashes");
        }
        "block_code_hashes"
    }

    fn key(index: &u64) -> (r: Vec<u8>) {
        encode_number(*index)
    }
}

/// Oracle history entries, keyed by their sort text.
pub struct OracleHistory;

impl Column for OracleHistory {
    type Index = String;

    open spec fn spec_key(index: &String) -> Seq<u8> {
        encode_utf8(index@)
    }

    open spec fn spec_name() -> Seq<char> {
        "oracle_history"@
    }

    fn name() -> (r: &'static str) {
        proof {
            reveal_strlit("oracle_history");
        }
        "oracle_history"
    }

    fn key(index: &String) -> (r: Vec<u8>) {
        let b = index.as_str().as_bytes();
        let mut out: Vec<u8> = Vec::new();
        let mut i: usize = 0;
        while i < b.len()
            invariant
                i <= b@.len(),
                b@ == encode_utf8(index@),
                out@ == b@.take(i as int),
            decreases b@.len() - i,
        {
            out.push(b[i]);
            i = i + 1;
            assert(out@ =~= b@.take(i as int));
        }
        assert(b@.take(b@.len() as int) =~= b@);
        out
    }
}

} // verus!
