//! Proof of Encounter: the signed record of two nodes meeting, the messages that
//! are signed and hashed for encounters, transactions and blocks, and the
//! integer rules of block making and reputation. Encounter weights are real
//! numbers and are computed by the caller.

use vstd::prelude::*;
use std::collections::VecDeque;
use vstd::bytes::{
    spec_u16_from_le_bytes, spec_u16_to_le_bytes, spec_u32_from_le_bytes, spec_u32_to_le_bytes,
    spec_u64_from_le_bytes, spec_u64_to_le_bytes, u16_to_le_bytes, u32_to_le_bytes, u64_to_le_bytes,
};
use crate::crypto::digest::{blake3_digest, blake3_hash};
use crate::crypto::ed25519::{ed25519_signature, ed25519_verifies, ed25519_keypair_parses, verify_signature};
use crate::crypto::keys::KeyPair;
use crate::wire::{append_bytes, bytes_equal};

verus! {

/// Encounters kept in the history.
pub const MAX_ENCOUNTER_HISTORY: usize = 1000;
/// Lifetime of an encounter, in seconds.
pub const ENCOUNTER_TTL_SECS: u64 = 86400;
/// Encounters a block needs.
pub const MIN_ENCOUNTERS_PER_BLOCK: usize = 3;
/// Bits of radio entropy that count as full.
pub const RADIO_ENTROPY_BITS: usize = 64;
/// Transactions a block takes from the pending pool.
pub const MAX_BLOCK_TRANSACTIONS: usize = 100;
/// Encounters a node needs before it can be quarantined.
pub const QUARANTINE_MIN_ENCOUNTERS: usize = 10;

/// How two nodes met.
#[derive(Debug, Clone, Copy, PartialEq, Eq, Structural)]
pub enum EncounterType {
    Direct,
    Relay,
    Star,
}

/// The integer part of an encounter: who met, when, how well they heard each
/// other, the radio and place fingerprints, and the signatures.
#[derive(Debug, Clone, Copy)]
pub struct EncounterData {
    pub id: [u8; 32],
    pub node_a: [u8; 32],
    pub node_b: [u8; 32],
    pub timestamp: u64,
    pub encounter_type: EncounterType,
    pub rssi: i16,
    pub rtt_us: u32,
    pub radio_hash: [u8; 32],
    pub geo_hash: Option<[u8; 32]>,
    pub signature_a: [u8; 64],
    pub signature_b: Option<[u8; 64]>,
}

/// The bytes signed and hashed for an encounter: both node keys, the timestamp,
/// signal strength and round-trip time (little-endian), the radio hash and, when
/// present, the place hash.
pub open spec fn spec_encounter_message(e: EncounterData) -> Seq<u8> {
    e.node_a@ + e.node_b@ + spec_u64_to_le_bytes(e.timestamp) + spec_u16_to_le_bytes(e.rssi as u16)
        + spec_u32_to_le_bytes(e.rtt_us) + e.radio_hash@ + match e.geo_hash {
        Some(g) => g@,
        None => Seq::empty(),
    }
}

/// The bytes signed for a transaction: both keys, amount and timestamp.
pub open spec fn spec_transaction_message(from: Seq<u8>, to: Seq<u8>, amount: u64, timestamp: u64) -> Seq<u8> {
    from + to + spec_u64_to_le_bytes(amount) + spec_u64_to_le_bytes(timestamp)
}

/// The hashes joined in order.
pub open spec fn concat_hashes(h: Seq<[u8; 32]>) -> Seq<u8>
    decreases h.len(),
{
    if h.len() == 0 {
        Seq::empty()
    } else {
        concat_hashes(h.drop_last()) + h.last()@
    }
}

/// The bytes signed and hashed for a block: previous hash, timestamp, producer
/// key and the transaction hashes.
pub open spec fn spec_block_message(previous_hash: Seq<u8>, timestamp: u64, producer: Seq<u8>, tx_hashes: Seq<[u8; 32]>) -> Seq<u8> {
    previous_hash + spec_u64_to_le_bytes(timestamp) + producer + concat_hashes(tx_hashes)
}

/// An encounter message reads back field by field: node A's key (bytes 0..32),
/// node B's key (32..64), the timestamp (64..72), the signal strength (72..74),
/// the round-trip time (74..78), all little-endian, the radio hash (78..110) and
/// then the place hash when there is one.
pub proof fn lemma_encounter_message_fields(e: EncounterData)
    ensures
        spec_encounter_message(e).subrange(0, 32) == e.node_a@,
        spec_encounter_message(e).subrange(32, 64) == e.node_b@,
        spec_u64_from_le_bytes(spec_encounter_message(e).subrange(64, 72)) == e.timestamp,
        spec_u16_from_le_bytes(spec_encounter_message(e).subrange(72, 74)) == e.rssi as u16,
        spec_u32_from_le_bytes(spec_encounter_message(e).subrange(74, 78)) == e.rtt_us,
        spec_encounter_message(e).subrange(78, 110) == e.radio_hash@,
        spec_encounter_message(e).len() == 110 + match e.geo_hash {
            Some(g) => 32int,
            None => 0int,
        },
        e.geo_hash matches Some(g) ==> spec_encounter_message(e).subrange(110, 142) == g@,
{
    vstd::bytes::lemma_auto_spec_u16_to_from_le_bytes();
    vstd::bytes::lemma_auto_spec_u32_to_from_le_bytes();
    vstd::bytes::lemma_auto_spec_u64_to_from_le_bytes();
    let m = spec_encounter_message(e);
    let t = spec_u64_to_le_bytes(e.timestamp);
    let r = spec_u16_to_le_bytes(e.rssi as u16);
    let q = spec_u32_to_le_bytes(e.rtt_us);
    assert(t.len() == 8 && r.len() == 2 && q.len() == 4);
    assert(m.subrange(0, 32) =~= e.node_a@);
    assert(m.subrange(32, 64) =~= e.node_b@);
    assert(m.subrange(64, 72) =~= t);
    assert(m.subrange(72, 74) =~= r);
    assert(m.subrange(74, 78) =~= q);
    assert(m.subrange(78, 110) =~= e.radio_hash@);
    if let Some(g) = e.geo_hash {
        assert(m.subrange(110, 142) =~= g@);
    }
}

/// A transaction message reads back field by field: the sender's key (bytes
/// 0..32), the receiver's key (32..64), the amount (64..72) and the timestamp
/// (72..80), little-endian.
pub proof fn lemma_transaction_message_fields(from: Seq<u8>, to: Seq<u8>, amount: u64, timestamp: u64)
    requires
        from.len() == 32,
        to.len() == 32,
    ensures
        spec_transaction_message(from, to, amount, timestamp).len() == 80,
        spec_transaction_message(from, to, amount, timestamp).subrange(0, 32) == from,
        spec_transaction_message(from, to, amount, timestamp).subrange(32, 64) == to,
        spec_u64_from_le_bytes(spec_transaction_message(from, to, amount, timestamp).subrange(64, 72)) == amount,
        spec_u64_from_le_bytes(spec_transaction_message(from, to, amount, timestamp).subrange(72, 80)) == timestamp,
{
    vstd::bytes::lemma_auto_spec_u64_to_from_le_bytes();
    let m = spec_transaction_message(from, to, amount, timestamp);
    let a = spec_u64_to_le_bytes(amount);
    let t = spec_u64_to_le_bytes(timestamp);
    assert(a.len() == 8 && t.len() == 8);
    assert(m.subrange(0, 32) =~= from);
    assert(m.subrange(32, 64) =~= to);
    assert(m.subrange(64, 72) =~= a);
    assert(m.subrange(72, 80) =~= t);
}

/// A block message reads back field by field: the previous hash (bytes 0..32),
/// the timestamp (32..40, little-endian), the producer's key (40..72), then the
/// transaction hashes, 32 bytes each, in order.
pub proof fn lemma_block_message_fields(previous_hash: Seq<u8>, timestamp: u64, producer: Seq<u8>, tx_hashes: Seq<[u8; 32]>)
    requires
        previous_hash.len() == 32,
        producer.len() == 32,
    ensures
        spec_block_message(previous_hash, timestamp, producer, tx_hashes).len() == 72 + 32 * tx_hashes.len(),
        spec_block_message(previous_hash, timestamp, producer, tx_hashes).subrange(0, 32) == previous_hash,
        spec_u64_from_le_bytes(spec_block_message(previous_hash, timestamp, producer, tx_hashes).subrange(32, 40))
            == timestamp,
        spec_block_message(previous_hash, timestamp, producer, tx_hashes).subrange(40, 72) == producer,
        forall|k: int|
            0 <= k < tx_hashes.len() ==> spec_block_message(previous_hash, timestamp, producer, tx_hashes).subrange(
                72 + 32 * k,
                72 + 32 * k + 32,
            ) == (#[trigger] tx_hashes[k])@,
{
    vstd::bytes::lemma_auto_spec_u64_to_from_le_bytes();
    let m = spec_block_message(previous_hash, timestamp, producer, tx_hashes);
    let t = spec_u64_to_le_bytes(timestamp);
    assert(t.len() == 8);
    lemma_concat_hashes(tx_hashes);
    let c = concat_hashes(tx_hashes);
    assert(m =~= previous_hash + t + producer + c);
    assert(m.subrange(0, 32) =~= previous_hash);
    assert(m.subrange(32, 40) =~= t);
    assert(m.subrange(40, 72) =~= producer);
    assert forall|k: int| 0 <= k < tx_hashes.len() implies m.subrange(72 + 32 * k, 72 + 32 * k + 32)
        == (#[trigger] tx_hashes[k])@ by {
        assert(m.subrange(72 + 32 * k, 72 + 32 * k + 32) =~= c.subrange(32 * k, 32 * k + 32));
    }
}

proof fn lemma_concat_hashes(h: Seq<[u8; 32]>)
    ensures
        concat_hashes(h).len() == 32 * h.len(),
        forall|k: int| 0 <= k < h.len() ==> concat_hashes(h).subrange(32 * k, 32 * k + 32) == (#[trigger] h[k])@,
    decreases h.len(),
{
    if h.len() > 0 {
        let t = h.drop_last();
        lemma_concat_hashes(t);
        let c = concat_hashes(h);
        assert(c =~= concat_hashes(t) + h.last()@);
        assert forall|k: int| 0 <= k < h.len() implies c.subrange(32 * k, 32 * k + 32) == (#[trigger] h[k])@ by {
            if k < h.len() - 1 {
                assert(t[k] == h[k]);
                assert(32 * k + 32 <= 32 * t.len()) by (nonlinear_arith)
                    requires k < t.len();
                assert(c.subrange(32 * k, 32 * k + 32) =~= concat_hashes(t).subrange(32 * k, 32 * k + 32));
            } else {
                assert(c.subrange(32 * k, 32 * k + 32) =~= h.last()@);
            }
        }
    }
}

/// Set bits among the lowest `k` bits of `b`.
pub open spec fn ones_below(b: u8, k: nat) -> nat
    decreases k,
{
    if k == 0 {
        0
    } else {
        ones_below(b, (k - 1) as nat) + ((b >> (k - 1) as u8) & 1) as nat
    }
}

/// Set bits in all the bytes.
pub open spec fn spec_ones(s: Seq<u8>) -> nat
    decreases s.len(),
{
    if s.len() == 0 {
        0
    } else {
        spec_ones(s.drop_last()) + ones_below(s.last(), 8)
    }
}

/// The encounter's message (see `spec_encounter_message`).
pub fn encode_encounter_message(e: &EncounterData) -> (m: Vec<u8>)
    ensures
        m@ == spec_encounter_message(*e),
{
    let mut data: Vec<u8> = Vec::new();
    append_bytes(&mut data, e.node_a.as_slice());
    append_bytes(&mut data, e.node_b.as_slice());
    let ts = u64_to_le_bytes(e.timestamp);
    append_bytes(&mut data, ts.as_slice());
    let rs = u16_to_le_bytes(e.rssi as u16);
    append_bytes(&mut data, rs.as_slice());
    let rt = u32_to_le_bytes(e.rtt_us);
    append_bytes(&mut data, rt.as_slice());
    append_bytes(&mut data, e.radio_hash.as_slice());
    match &e.geo_hash {
        Some(g) => {
            append_bytes(&mut data, g.as_slice());
        },
        None => {},
    }
    assert(data@ =~= spec_encounter_message(*e));
    data
}

/// The transaction's message (see `spec_transaction_message`).
pub fn encode_transaction_message(from: &[u8; 32], to: &[u8; 32], amount: u64, timestamp: u64) -> (m: Vec<u8>)
    ensures
        m@ == spec_transaction_message(from@, to@, amount, timestamp),
{
    let mut data: Vec<u8> = Vec::new();
    append_bytes(&mut data, from.as_slice());
    append_bytes(&mut data, to.as_slice());
    let a = u64_to_le_bytes(amount);
    append_bytes(&mut data, a.as_slice());
    let t = u64_to_le_bytes(timestamp);
    append_bytes(&mut data, t.as_slice());
    data
}

/// The block's message (see `spec_block_message`).
pub fn encode_block_message(previous_hash: &[u8; 32], timestamp: u64, producer: &[u8; 32], tx_hashes: &Vec<[u8; 32]>) -> (m: Vec<u8>)
    ensures
        m@ == spec_block_message(previous_hash@, timestamp, producer@, tx_hashes@),
{
    let mut data: Vec<u8> = Vec::new();
    append_bytes(&mut data, previous_hash.as_slice());
    let t = u64_to_le_bytes(timestamp);
    append_bytes(&mut data, t.as_slice());
    append_bytes(&mut data, producer.as_slice());
    let ghost head = data@;
    let mut i: usize = 0;
    while i < tx_hashes.len()
        invariant
            i <= tx_hashes@.len(),
            data@ == head + concat_hashes(tx_hashes@.take(i as int)),
        decreases tx_hashes@.len() - i,
    {
        append_bytes(&mut data, tx_hashes[i].as_slice());
        assert(tx_hashes@.take(i + 1).drop_last() =~= tx_hashes@.take(i as int));
        i = i + 1;
    }
    assert(tx_hashes@.take(i as int) =~= tx_hashes@);
    data
}

/// The encounter's id: the BLAKE3 hash of its message.
pub fn hash_encounter(e: &EncounterData) -> (h: [u8; 32])
    ensures
        h@ == blake3_digest(spec_encounter_message(*e)),
{
    let m = encode_encounter_message(e);
    blake3_hash(m.as_slice())
}

/// The block's hash: the BLAKE3 hash of its message.
pub fn hash_block(previous_hash: &[u8; 32], timestamp: u64, producer: &[u8; 32], tx_hashes: &Vec<[u8; 32]>) -> (h: [u8; 32])
    ensures
        h@ == blake3_digest(spec_block_message(previous_hash@, timestamp, producer@, tx_hashes@)),
{
    let m = encode_block_message(previous_hash, timestamp, producer, tx_hashes);
    blake3_hash(m.as_slice())
}

/// Set bits in the radio hash, the entropy it carries.
pub fn radio_entropy_bits(radio_hash: &[u8; 32]) -> (n: u32)
    ensures
        n == spec_ones(radio_hash@),
        n <= 256,
{
    let mut total: u32 = 0;
    let mut i: usize = 0;
    while i < 32
        invariant
            i <= 32,
            total == spec_ones(radio_hash@.take(i as int)),
            total <= 8 * i,
        decreases 32 - i,
    {
        let b = radio_hash[i];
        let mut k: u8 = 0;
        let mut c: u32 = 0;
        while k < 8
            invariant
                k <= 8,
                c == ones_below(b, k as nat),
                c <= k,
            decreases 8 - k,
        {
            let bit = (b >> k) & 1;
            assert(bit <= 1) by (bit_vector)
                requires
                    bit == (b >> k) & 1,
            ;
            c = c + bit as u32;
            k = k + 1;
        }
        assert(radio_hash@.take(i + 1).drop_last() =~= radio_hash@.take(i as int));
        total = total + c;
        i = i + 1;
    }
    assert(radio_hash@.take(32) =~= radio_hash@);
    total
}

/// The encounter's signatures and id check out: node A signed its message, node
/// B did too when its signature is present, and the id is the message's hash.
pub open spec fn spec_encounter_valid(e: EncounterData) -> bool {
    let m = spec_encounter_message(e);
    &&& ed25519_verifies(e.node_a@, m, e.signature_a@)
    &&& (e.signature_b matches Some(sb) ==> ed25519_verifies(e.node_b@, m, sb@))
    &&& blake3_digest(m) == e.id@
}

/// Checks an encounter (see `spec_encounter_valid`).
pub fn verify_encounter(e: &EncounterData) -> (ok: bool)
    ensures
        ok == spec_encounter_valid(*e),
{
    let m = encode_encounter_message(e);
    if !verify_signature(&e.node_a, m.as_slice(), &e.signature_a) {
        return false;
    }
    match &e.signature_b {
        Some(sb) => {
            if !verify_signature(&e.node_b, m.as_slice(), sb) {
                return false;
            }
        },
        None => {},
    }
    let computed = blake3_hash(m.as_slice());
    bytes_equal(computed.as_slice(), e.id.as_slice())
}

/// The transaction's sender signed it.
pub fn verify_transaction(from: &[u8; 32], to: &[u8; 32], amount: u64, timestamp: u64, signature: &[u8; 64]) -> (ok: bool)
    ensures
        ok == ed25519_verifies(from@, spec_transaction_message(from@, to@, amount, timestamp), signature@),
{
    let m = encode_transaction_message(from, to, amount, timestamp);
    verify_signature(from, m.as_slice(), signature)
}

/// The block's producer signed it.
pub fn verify_block_signature(
    previous_hash: &[u8; 32],
    timestamp: u64,
    producer: &[u8; 32],
    tx_hashes: &Vec<[u8; 32]>,
    signature: &[u8; 64],
) -> (ok: bool)
    ensures
        ok == ed25519_verifies(producer@, spec_block_message(previous_hash@, timestamp, producer@, tx_hashes@), signature@),
{
    let m = encode_block_message(previous_hash, timestamp, producer, tx_hashes);
    verify_signature(producer, m.as_slice(), signature)
}

/// A new encounter of this node (A) with `other` (B) at `timestamp`: node A signs
/// its message and the id is the message's hash. A key pair always signs, so
/// this always gives the encounter.
pub fn register_encounter(
    keypair: &KeyPair,
    other_node: [u8; 32],
    encounter_type: EncounterType,
    rssi: i16,
    rtt_us: u32,
    radio_hash: [u8; 32],
    geo_hash: Option<[u8; 32]>,
    other_signature: Option<[u8; 64]>,
    timestamp: u64,
) -> (r: Option<EncounterData>)
    ensures
        r is Some,
        r matches Some(e) ==> {
            &&& e.node_a@ == keypair.public_bytes()
            &&& e.node_b == other_node
            &&& e.timestamp == timestamp
            &&& e.encounter_type == encounter_type
            &&& e.rssi == rssi
            &&& e.rtt_us == rtt_us
            &&& e.radio_hash == radio_hash
            &&& e.geo_hash == geo_hash
            &&& e.signature_b == other_signature
            &&& e.signature_a@ == ed25519_signature(
                keypair.secret_bytes(),
                keypair.public_bytes(),
                spec_encounter_message(e),
            )
            &&& e.id@ == blake3_digest(spec_encounter_message(e))
        },
{
    let mut e = EncounterData {
        id: [0u8; 32],
        node_a: keypair.public(),
        node_b: other_node,
        timestamp,
        encounter_type,
        rssi,
        rtt_us,
        radio_hash,
        geo_hash,
        signature_a: [0u8; 64],
        signature_b: other_signature,
    };
    let message = encode_encounter_message(&e);
    match keypair.sign(message.as_slice()) {
        Some(sig) => {
            e.signature_a = sig;
            assert(spec_encounter_message(e) == message@);
            e.id = hash_encounter(&e);
            Some(e)
        },
        None => None,
    }
}

/// Indices of the encounters a block uses: the first `MIN_ENCOUNTERS_PER_BLOCK`
/// eligible ones (most recent first, as the history is kept); `None` when there
/// are fewer.
pub fn select_block_encounters(eligible: &[bool]) -> (r: Option<Vec<usize>>)
    ensures
        r is Some <==> count_true(eligible@) >= MIN_ENCOUNTERS_PER_BLOCK,
        r matches Some(ix) ==> {
            &&& ix@.len() == MIN_ENCOUNTERS_PER_BLOCK
            &&& forall|k: int| 0 <= k < ix@.len() ==> (#[trigger] ix@[k]) < eligible@.len() && eligible@[ix@[k] as int]
            &&& forall|a: int, b: int| 0 <= a < b < ix@.len() ==> #[trigger] ix@[a] < #[trigger] ix@[b]
            &&& forall|t: int| 0 <= t < ix@[ix@.len() - 1] && eligible@[t] ==> #[trigger] ix@.contains(t as usize)
        },
{
    let mut ix: Vec<usize> = Vec::new();
    let mut i: usize = 0;
    while i < eligible.len() && ix.len() < MIN_ENCOUNTERS_PER_BLOCK
        invariant
            i <= eligible@.len(),
            ix@.len() <= MIN_ENCOUNTERS_PER_BLOCK,
            ix@.len() == count_true(eligible@.take(i as int)),
            forall|k: int| 0 <= k < ix@.len() ==> (#[trigger] ix@[k]) < i && eligible@[ix@[k] as int],
            forall|a: int, b: int| 0 <= a < b < ix@.len() ==> #[trigger] ix@[a] < #[trigger] ix@[b],
            forall|t: int| 0 <= t < i && eligible@[t] ==> #[trigger] ix@.contains(t as usize),
        decreases eligible@.len() - i,
    {
        assert(eligible@.take(i + 1).drop_last() =~= eligible@.take(i as int));
        if eligible[i] {
            let ghost before = ix@;
            ix.push(i);
            assert forall|t: int| 0 <= t < i + 1 && eligible@[t] implies #[trigger] ix@.contains(t as usize) by {
                if t < i {
                    assert(before.contains(t as usize));
                    let k = choose|k: int| 0 <= k < before.len() && before[k] == t as usize;
                    assert(ix@[k] == t as usize);
                } else {
                    assert(ix@[before.len() as int] == t as usize);
                }
            }
        }
        i = i + 1;
    }
    if ix.len() < MIN_ENCOUNTERS_PER_BLOCK {
        proof {
            assert(eligible@.take(i as int) =~= eligible@);
        }
        None
    } else {
        proof {
            lemma_count_true_prefix(eligible@, i as nat);
        }
        Some(ix)
    }
}

/// Number of `true` entries.
pub open spec fn count_true(s: Seq<bool>) -> nat
    decreases s.len(),
{
    if s.len() == 0 {
        0
    } else {
        count_true(s.drop_last()) + if s.last() {
            1nat
        } else {
            0nat
        }
    }
}

proof fn lemma_count_true_prefix(s: Seq<bool>, i: nat)
    requires
        i <= s.len(),
    ensures
        count_true(s.take(i as int)) <= count_true(s),
    decreases s.len() - i,
{
    if i < s.len() {
        lemma_count_true_prefix(s, i + 1);
        assert(s.take((i + 1) as int).drop_last() =~= s.take(i as int));
    } else {
        assert(s.take(i as int) =~= s);
    }
}

/// Takes the transactions of the next block out of the pending pool: its first
/// `MAX_BLOCK_TRANSACTIONS` entries (all of them when there are fewer). The rest
/// stay pending, in their order.
pub fn take_block_transactions<T>(pending: &mut Vec<T>) -> (taken: Vec<T>)
    ensures
        old(pending)@.len() <= MAX_BLOCK_TRANSACTIONS ==> taken@ == old(pending)@ && final(pending)@.len() == 0,
        old(pending)@.len() > MAX_BLOCK_TRANSACTIONS ==> taken@ == old(pending)@.take(MAX_BLOCK_TRANSACTIONS as int)
            && final(pending)@ == old(pending)@.skip(MAX_BLOCK_TRANSACTIONS as int),
        taken@ + final(pending)@ == old(pending)@,
{
    let n = if pending.len() > MAX_BLOCK_TRANSACTIONS {
        MAX_BLOCK_TRANSACTIONS
    } else {
        pending.len()
    };
    let mut taken = pending.split_off(n);
    std::mem::swap(&mut taken, pending);
    proof {
        assert(taken@ + pending@ =~= old(pending)@);
    }
    taken
}

/// Adds an encounter at the front of the history; when the history then holds
/// more than `MAX_ENCOUNTER_HISTORY` entries, its oldest is dropped.
pub fn remember_encounter<T>(history: &mut VecDeque<T>, item: T)
    ensures
        final(history)@ == if old(history)@.len() + 1 > MAX_ENCOUNTER_HISTORY {
            (seq![item] + old(history)@).drop_last()
        } else {
            seq![item] + old(history)@
        },
{
    let ghost before = history@;
    history.push_front(item);
    assert(history@ =~= seq![item] + before);
    if history.len() > MAX_ENCOUNTER_HISTORY {
        let ghost full = history@;
        let _ = history.pop_back();
        assert(history@ =~= full.drop_last());
    }
}

/// Encounter counts of a node, and whether it is quarantined.
#[derive(Debug, Clone, Copy)]
pub struct ReputationCounts {
    pub total_encounters: usize,
    pub successful_encounters: usize,
    pub failed_encounters: usize,
    pub last_seen: u64,
    pub is_quarantined: bool,
}

impl ReputationCounts {
    /// A node never met.
    pub fn new() -> (r: Self)
        ensures
            r.total_encounters == 0,
            r.successful_encounters == 0,
            r.failed_encounters == 0,
            r.last_seen == 0,
            !r.is_quarantined,
    {
        ReputationCounts {
            total_encounters: 0,
            successful_encounters: 0,
            failed_encounters: 0,
            last_seen: 0,
            is_quarantined: false,
        }
    }

    /// Counts one more encounter at `now`. A node whose success rate falls below
    /// one in five after more than `QUARANTINE_MIN_ENCOUNTERS` encounters is
    /// quarantined (and stays so).
    pub fn record(&mut self, success: bool, now: u64)
        requires
            old(self).total_encounters < usize::MAX,
            old(self).successful_encounters < usize::MAX,
            old(self).failed_encounters < usize::MAX,
        ensures
            final(self).total_encounters == old(self).total_encounters + 1,
            final(self).successful_encounters == old(self).successful_encounters + if success {
                1int
            } else {
                0int
            },
            final(self).failed_encounters == old(self).failed_encounters + if success {
                0int
            } else {
                1int
            },
            final(self).last_seen == now,
            final(self).is_quarantined == (old(self).is_quarantined || (5 * final(self).successful_encounters
                < final(self).total_encounters && final(self).total_encounters > QUARANTINE_MIN_ENCOUNTERS)),
    {
        self.total_encounters = self.total_encounters + 1;
        if success {
            self.successful_encounters = self.successful_encounters + 1;
        } else {
            self.failed_encounters = self.failed_encounters + 1;
        }
        let s = self.successful_encounters as u128;
        let t = self.total_encounters as u128;
        if 5 * s < t && self.total_encounters > QUARANTINE_MIN_ENCOUNTERS {
            self.is_quarantined = true;
        }
        self.last_seen = now;
    }
}

} // verus!
