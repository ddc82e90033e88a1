//! Logs blooms: 2048-bit filters of the addresses and topics of logs.
use vstd::prelude::*;
use crate::block_store::{Log, Receipt};

verus! {

/// Size of a bloom in bytes.
pub const BLOOM_SIZE: usize = 256;

/// The bloom holding just one input (its three Keccak-derived bits).
pub uninterp spec fn bloom_of(input: Seq<u8>) -> Seq<u8>;

/// Byte `i` of a bloom, 0 past its end.
pub open spec fn byte_at(s: Seq<u8>, i: int) -> u8 {
    if 0 <= i < s.len() {
        s[i]
    } else {
        0
    }
}

/// The union of two blooms.
pub open spec fn or_bytes(a: Seq<u8>, b: Seq<u8>) -> Seq<u8> {
    Seq::new(256, |i: int| byte_at(a, i) | byte_at(b, i))
}

/// Every bit of `x` is set in `y`.
pub open spec fn bloom_subset(x: Seq<u8>, y: Seq<u8>) -> bool {
    forall|i: int| 0 <= i < 256 ==> #[trigger] byte_at(x, i) | byte_at(y, i) == byte_at(y, i)
}

/// A bloom after each input is added in turn.
pub open spec fn accrued(b: Seq<u8>, inputs: Seq<Seq<u8>>) -> Seq<u8>
    decreases inputs.len(),
{
    if inputs.len() == 0 {
        b
    } else {
        or_bytes(accrued(b, inputs.drop_last()), bloom_of(inputs.last()))
    }
}

/// The union of a list of blooms, starting from the empty bloom.
pub open spec fn or_all(blooms: Seq<Seq<u8>>) -> Seq<u8>
    decreases blooms.len(),
{
    if blooms.len() == 0 {
        Seq::new(256, |i: int| 0u8)
    } else {
        or_bytes(or_all(blooms.drop_last()), blooms.last())
    }
}

/// The bloom inputs of a log: its address, then each topic.
pub open spec fn log_inputs(l: Log) -> Seq<Seq<u8>> {
    seq![l.address@] + l.topics@.map_values(|t: Vec<u8>| t@)
}

/// The bloom inputs of a list of logs, in order.
pub open spec fn logs_inputs(logs: Seq<Log>) -> Seq<Seq<u8>>
    decreases logs.len(),
{
    if logs.len() == 0 {
        Seq::empty()
    } else {
        logs_inputs(logs.drop_last()) + log_inputs(logs.last())
    }
}

proof fn lemma_or_facts(a: u8, b: u8, c: u8)
    ensures
        a | (a | b) == a | b,
        b | (a | b) == a | b,
        (a | b == b && b | c == c) ==> a | c == c,
        (a | c == c) ==> a | (b | c) == b | c,
{
    assert(a | (a | b) == a | b) by (bit_vector);
    assert(b | (a | b) == a | b) by (bit_vector);
    assert((a | b == b && b | c == c) ==> a | c == c) by (bit_vector);
    assert((a | c == c) ==> a | (b | c) == b | c) by (bit_vector);
}

/// Each side of a union is a subset of it.
proof fn lemma_or_subset(a: Seq<u8>, b: Seq<u8>)
    ensures
        bloom_subset(a, or_bytes(a, b)),
        bloom_subset(b, or_bytes(a, b)),
{
    assert forall|i: int| 0 <= i < 256 implies #[trigger] byte_at(a, i) | byte_at(or_bytes(a, b), i) == byte_at(or_bytes(a, b), i) by {
        lemma_or_facts(byte_at(a, i), byte_at(b, i), 0);
    }
    assert forall|i: int| 0 <= i < 256 implies #[trigger] byte_at(b, i) | byte_at(or_bytes(a, b), i) == byte_at(or_bytes(a, b), i) by {
        lemma_or_facts(byte_at(a, i), byte_at(b, i), 0);
    }
}

proof fn lemma_subset_trans(x: Seq<u8>, y: Seq<u8>, z: Seq<u8>)
    requires
        bloom_subset(x, y),
        bloom_subset(y, z),
    ensures
        bloom_subset(x, z),
{
    assert forall|i: int| 0 <= i < 256 implies #[trigger] byte_at(x, i) | byte_at(z, i) == byte_at(z, i) by {
        assert(byte_at(x, i) | byte_at(y, i) == byte_at(y, i));
        assert(byte_at(y, i) | byte_at(z, i) == byte_at(z, i));
        lemma_or_facts(byte_at(x, i), byte_at(y, i), byte_at(z, i));
    }
}

/// A subset of `z` stays one after anything is added to `z`.
proof fn lemma_subset_grow(x: Seq<u8>, z: Seq<u8>, w: Seq<u8>)
    requires
        bloom_subset(x, z),
    ensures
        bloom_subset(x, or_bytes(z, w)),
{
    lemma_or_subset(z, w);
    lemma_subset_trans(x, z, or_bytes(z, w));
}

/// Every input added to a bloom tests as present in it.
pub proof fn lemma_accrued_contains(b: Seq<u8>, inputs: Seq<Seq<u8>>, k: int)
    requires
        0 <= k < inputs.len(),
    ensures
        bloom_subset(bloom_of(inputs[k]), accrued(b, inputs)),
    decreases inputs.len(),
{
    let front = inputs.drop_last();
    if k == inputs.len() - 1 {
        lemma_or_subset(accrued(b, front), bloom_of(inputs.last()));
    } else {
        lemma_accrued_contains(b, front, k);
        lemma_subset_grow(bloom_of(inputs[k]), accrued(b, front), bloom_of(inputs.last()));
    }
}

/// Every bloom of a list is a subset of their union.
pub proof fn lemma_or_all_contains(blooms: Seq<Seq<u8>>, k: int)
    requires
        0 <= k < blooms.len(),
    ensures
        bloom_subset(blooms[k], or_all(blooms)),
    decreases blooms.len(),
{
    let front = blooms.drop_last();
    if k == blooms.len() - 1 {
        lemma_or_subset(or_all(front), blooms.last());
    } else {
        lemma_or_all_contains(front, k);
        lemma_subset_grow(blooms[k], or_all(front), blooms.last());
    }
}

/// A bloom of 256 bytes that is a subset of another of 256 bytes leaves it
/// unchanged when OR-ed into it.
proof fn lemma_subset_or(x: Seq<u8>, y: Seq<u8>)
    requires
        bloom_subset(x, y),
        y.len() == 256,
    ensures
        or_bytes(x, y) == y,
{
    assert forall|i: int| 0 <= i < 256 implies #[trigger] or_bytes(x, y)[i] == y[i] by {
        assert(byte_at(x, i) | byte_at(y, i) == byte_at(y, i));
    }
    assert(or_bytes(x, y) =~= y);
}

proof fn lemma_or_all_len(blooms: Seq<Seq<u8>>)
    ensures
        or_all(blooms).len() == 256,
    decreases blooms.len(),
{
    if blooms.len() > 0 {
        lemma_or_all_len(blooms.drop_last());
    }
}

/// The block bloom is the union of the receipt blooms: each receipt bloom
/// OR-ed into it leaves it unchanged, and every address and topic of every
/// log of a receipt whose bloom was built from its logs tests as present.
pub proof fn lemma_block_bloom(blooms: Seq<Seq<u8>>, k: int, b0: Seq<u8>, logs: Seq<Log>, j: int)
    requires
        0 <= k < blooms.len(),
        blooms[k] == accrued(b0, logs_inputs(logs)),
        0 <= j < logs_inputs(logs).len(),
    ensures
        or_bytes(blooms[k], or_all(blooms)) == or_all(blooms),
        bloom_subset(bloom_of(logs_inputs(logs)[j]), or_all(blooms)),
{
    lemma_or_all_contains(blooms, k);
    lemma_or_all_len(blooms);
    lemma_subset_or(blooms[k], or_all(blooms));
    lemma_accrued_contains(b0, logs_inputs(logs), j);
    lemma_subset_trans(bloom_of(logs_inputs(logs)[j]), blooms[k], or_all(blooms));
}

/// Relies on ethereum_types::Bloom::from(BloomInput::Raw): a 256-byte bloom
/// that depends on the input bytes alone.
#[verifier::external_body]
pub(crate) fn input_bloom(input: &Vec<u8>) -> (r: Vec<u8>)
    ensures
        r@ == bloom_of(input@),
        r@.len() == 256,
{
    ethereum_types::Bloom::from(ethereum_types::BloomInput::Raw(input.as_slice())).as_bytes().to_vec()
}

/// ORs `other` into `bloom`.
pub fn accrue_bloom(bloom: &mut Vec<u8>, other: &Vec<u8>)
    requires
        old(bloom)@.len() == 256,
    ensures
        final(bloom)@ == or_bytes(old(bloom)@, other@),
{
    let mut i: usize = 0;
    while i < BLOOM_SIZE
        invariant
            bloom@.len() == 256,
            old(bloom)@.len() == 256,
            i <= 256,
            forall|j: int| 0 <= j < i ==> bloom@[j] == byte_at(old(bloom)@, j) | byte_at(other@, j),
            forall|j: int| i <= j < 256 ==> bloom@[j] == old(bloom)@[j],
        decreases 256 - i,
    {
        let o: u8 = if i < other.len() { other[i] } else { 0 };
        assert(o == byte_at(other@, i as int));
        assert(bloom@[i as int] == byte_at(old(bloom)@, i as int));
        let v = bloom[i] | o;
        bloom.set(i, v);
        i = i + 1;
    }
    assert(bloom@ =~= or_bytes(old(bloom)@, other@));
}

/// Adds one input to a bloom.
pub fn accrue(bloom: &mut Vec<u8>, input: &Vec<u8>)
    requires
        old(bloom)@.len() == 256,
    ensures
        final(bloom)@ == or_bytes(old(bloom)@, bloom_of(input@)),
        final(bloom)@.len() == 256,
{
    let b = input_bloom(input);
    accrue_bloom(bloom, &b);
}

/// Adds the address and each topic of every log to a bloom.
pub fn logs_bloom(logs: &Vec<Log>, bloom: &mut Vec<u8>)
    requires
        old(bloom)@.len() == 256,
    ensures
        final(bloom)@ == accrued(old(bloom)@, logs_inputs(logs@)),
{
    let mut i: usize = 0;
    while i < logs.len()
        invariant
            i <= logs.len(),
            bloom@.len() == 256,
            bloom@ == accrued(old(bloom)@, logs_inputs(logs@.take(i as int))),
        decreases logs.len() - i,
    {
        let log = &logs[i];
        let ghost base = logs_inputs(logs@.take(i as int));
        accrue(bloom, &log.address);
        proof {
            assert((base + seq![log.address@]).drop_last() =~= base);
        }
        let mut j: usize = 0;
        while j < log.topics.len()
            invariant
                i < logs.len(),
                log == logs@[i as int],
                j <= log.topics.len(),
                bloom@.len() == 256,
                bloom@ == accrued(old(bloom)@, base + seq![log.address@] + log.topics@.take(j as int).map_values(|t: Vec<u8>| t@)),
            decreases log.topics.len() - j,
        {
            accrue(bloom, &log.topics[j]);
            proof {
                let s = base + seq![log.address@] + log.topics@.take(j + 1).map_values(|t: Vec<u8>| t@);
                assert(s.drop_last() =~= base + seq![log.address@] + log.topics@.take(j as int).map_values(|t: Vec<u8>| t@));
                assert(s.last() == log.topics@[j as int]@);
            }
            j = j + 1;
        }
        proof {
            assert(log.topics@.take(log.topics.len() as int) =~= log.topics@);
            assert(logs@.take(i + 1).drop_last() =~= logs@.take(i as int));
            assert(base + seq![log.address@] + log.topics@.map_values(|t: Vec<u8>| t@) =~= logs_inputs(logs@.take(i + 1)));
        }
        i = i + 1;
    }
    assert(logs@.take(logs.len() as int) =~= logs@);
}

/// The union of the blooms of a block's receipts.
pub fn block_bloom(receipts: &Vec<Receipt>) -> (r: Vec<u8>)
    ensures
        r@ == or_all(receipts@.map_values(|x: Receipt| x.logs_bloom@)),
{
    let mut out: Vec<u8> = vec![0u8; 256];
    assert(out@ =~= or_all(receipts@.take(0).map_values(|x: Receipt| x.logs_bloom@)));
    let mut i: usize = 0;
    while i < receipts.len()
        invariant
            i <= receipts.len(),
            out@.len() == 256,
            out@ == or_all(receipts@.take(i as int).map_values(|x: Receipt| x.logs_bloom@)),
        decreases receipts.len() - i,
    {
        accrue_bloom(&mut out, &receipts[i].logs_bloom);
        proof {
            let s = receipts@.take(i + 1).map_values(|x: Receipt| x.logs_bloom@);
            assert(s.drop_last() =~= receipts@.take(i as int).map_values(|x: Receipt| x.logs_bloom@));
        }
        i = i + 1;
    }
    assert(receipts@.take(receipts.len() as int) =~= receipts@);
    out
}

/// Whether every bit of an input's bloom is set in `bloom`.
pub fn contains_input(bloom: &Vec<u8>, input: &Vec<u8>) -> (r: bool)
    ensures
        r == bloom_subset(bloom_of(input@), bloom@),
{
    let b = input_bloom(input);
    let mut i: usize = 0;
    while i < BLOOM_SIZE
        invariant
            b@.len() == 256,
            b@ == bloom_of(input@),
            i <= 256,
            forall|j: int| 0 <= j < i ==> #[trigger] byte_at(b@, j) | byte_at(bloom@, j) == byte_at(bloom@, j),
        decreases 256 - i,
    {
        let y: u8 = if i < bloom.len() { bloom[i] } else { 0 };
        if b[i] | y != y {
            assert(byte_at(b@, i as int) | byte_at(bloom@, i as int) != byte_at(bloom@, i as int));
            return false;
        }
        i = i + 1;
    }
    true
}

} // verus!
