//! Data over near-ultrasound (19 kHz). A transmission is a preamble, then the
//! frame's bits (most significant first): the payload length, the payload and
//! an XOR checksum. This module builds and checks frames and converts between
//! bytes and bits; the sound itself is made and analysed by the caller.

use vstd::prelude::*;
use crate::wire::slice_to_vec;

verus! {

/// Carrier frequency in Hz.
pub const ULTRASOUND_FREQ: u32 = 19000;
/// Sample rate in Hz.
pub const SAMPLE_RATE: u32 = 48000;
/// Duration of one bit, in milliseconds.
pub const BIT_DURATION_MS: u64 = 50;
/// Duration of the preamble, in milliseconds.
pub const PREAMBLE_DURATION_MS: u64 = 200;
/// Largest payload of one transmission, in bytes.
pub const MAX_PAYLOAD_BYTES: usize = 32;

/// Modulation of the carrier.
#[derive(Debug, Clone, Copy, PartialEq, Eq, Structural)]
pub enum Modulation {
    Fsk,
    Ask,
    Psk,
}

impl Default for Modulation {
    fn default() -> (m: Self)
        ensures
            m == Modulation::Ask,
    {
        Modulation::Ask
    }
}

/// XOR of all bytes.
pub open spec fn spec_xor_all(s: Seq<u8>) -> u8
    decreases s.len(),
{
    if s.len() == 0 {
        0
    } else {
        spec_xor_all(s.drop_last()) ^ s.last()
    }
}

/// The payload cut to `MAX_PAYLOAD_BYTES`.
pub open spec fn spec_safe_payload(payload: Seq<u8>) -> Seq<u8> {
    if payload.len() > MAX_PAYLOAD_BYTES {
        payload.take(MAX_PAYLOAD_BYTES as int)
    } else {
        payload
    }
}

/// The frame sent for `payload`: length byte, payload (cut), checksum.
pub open spec fn spec_frame(payload: Seq<u8>) -> Seq<u8> {
    let safe = spec_safe_payload(payload);
    seq![safe.len() as u8] + safe + seq![spec_xor_all(safe)]
}

/// What a receiver keeps from a decoded header and body: the body's first
/// `header[0]` bytes, when the header was decoded, the body holds those bytes
/// and a checksum after them, the checksum matches and the data is not empty.
pub open spec fn spec_received(header: Seq<u8>, header_end: nat, body: Seq<u8>) -> Option<Seq<u8>> {
    if header.len() == 0 || header_end == 0 {
        None
    } else {
        let n = header[0] as int;
        if body.len() >= n + 1 {
            let data = body.take(n);
            if spec_xor_all(data) == body[n] && data.len() > 0 {
                Some(data)
            } else {
                None
            }
        } else {
            None
        }
    }
}

/// Bit `i` (most significant first) of the bytes.
pub open spec fn spec_bit(bytes: Seq<u8>, i: int) -> bool {
    (bytes[i / 8] >> (7 - i % 8) as u8) & 1 == 1
}

/// The bits of the bytes, most significant first.
pub open spec fn spec_bits(bytes: Seq<u8>) -> Seq<bool> {
    Seq::new(bytes.len() * 8, |i: int| spec_bit(bytes, i))
}

/// The byte eight bits spell, most significant first.
pub open spec fn spec_byte_of(bits: Seq<bool>) -> u8
    decreases bits.len(),
{
    if bits.len() == 0 {
        0
    } else {
        ((spec_byte_of(bits.drop_last()) as int * 2 + if bits.last() {
            1int
        } else {
            0int
        }) % 256) as u8
    }
}

/// The bytes whole groups of eight bits spell; bits after the last whole group
/// are left out.
pub open spec fn spec_bytes_of(bits: Seq<bool>) -> Seq<u8> {
    Seq::new(bits.len() / 8, |k: int| spec_byte_of(bits.subrange(8 * k, 8 * k + 8)))
}

/// XOR of all bytes.
pub fn xor_all(s: &[u8]) -> (c: u8)
    ensures
        c == spec_xor_all(s@),
{
    let mut c: u8 = 0;
    let mut i: usize = 0;
    while i < s.len()
        invariant
            i <= s@.len(),
            c == spec_xor_all(s@.take(i as int)),
        decreases s@.len() - i,
    {
        assert(s@.take(i + 1).drop_last() =~= s@.take(i as int));
        c = c ^ s[i];
        i = i + 1;
    }
    assert(s@.take(i as int) =~= s@);
    c
}

proof fn lemma_byte_of_bits(b: u8, k: nat)
    requires
        k <= 8,
    ensures
        spec_byte_of(Seq::new(k, |j: int| (b >> (7 - j) as u8) & 1 == 1)) == (b >> (8 - k) as u8),
    decreases k,
{
    let s = Seq::new(k, |j: int| (b >> (7 - j) as u8) & 1 == 1);
    if k == 0 {
        assert(b >> 8u8 == 0) by (bit_vector);
    } else {
        let k1 = (k - 1) as nat;
        lemma_byte_of_bits(b, k1);
        assert(s.drop_last() =~= Seq::new(k1, |j: int| (b >> (7 - j) as u8) & 1 == 1));
        let sh = (8 - k) as u8;
        let prev = b >> (sh + 1) as u8;
        assert(s.last() == ((b >> sh) & 1 == 1));
        assert(((prev as int * 2 + if (b >> sh) & 1 == 1 {
            1int
        } else {
            0int
        }) % 256) as u8 == b >> sh) by (bit_vector)
            requires
                sh < 8,
                prev == b >> (sh + 1) as u8,
        ;
    }
}

/// Reading bits back into bytes gives the bytes that were written.
pub proof fn lemma_bits_round_trip(bytes: Seq<u8>)
    ensures
        spec_bytes_of(spec_bits(bytes)) == bytes,
{
    let bits = spec_bits(bytes);
    assert(bits.len() / 8 == bytes.len()) by (nonlinear_arith)
        requires
            bits.len() == bytes.len() * 8,
    ;
    assert forall|k: int| 0 <= k < bytes.len() implies #[trigger] spec_bytes_of(bits)[k] == bytes[k] by {
        let group = bits.subrange(8 * k, 8 * k + 8);
        let b = bytes[k];
        assert forall|j: int| 0 <= j < 8 implies group[j] == ((b >> (7 - j) as u8) & 1 == 1) by {
            assert((8 * k + j) / 8 == k && (8 * k + j) % 8 == j) by (nonlinear_arith)
                requires
                    0 <= j < 8,
            ;
        }
        assert(group =~= Seq::new(8, |j: int| (b >> (7 - j) as u8) & 1 == 1));
        lemma_byte_of_bits(b, 8);
        assert(b >> 0u8 == b) by (bit_vector);
    }
    assert(spec_bytes_of(bits) =~= bytes);
}

/// The bits of the bytes, most significant first.
pub fn bytes_to_bits(bytes: &[u8]) -> (bits: Vec<bool>)
    requires
        bytes@.len() * 8 <= usize::MAX,
    ensures
        bits@ == spec_bits(bytes@),
{
    let mut bits: Vec<bool> = Vec::new();
    let mut i: usize = 0;
    while i < bytes.len()
        invariant
            i <= bytes@.len(),
            bytes@.len() * 8 <= usize::MAX,
            bits@.len() == i * 8,
            forall|t: int| 0 <= t < bits@.len() ==> bits@[t] == spec_bit(bytes@, t),
        decreases bytes@.len() - i,
    {
        let b = bytes[i];
        let mut j: u8 = 0;
        while j < 8
            invariant
                j <= 8,
                i < bytes@.len(),
                b == bytes@[i as int],
                bits@.len() == i * 8 + j,
                forall|t: int| 0 <= t < bits@.len() ==> bits@[t] == spec_bit(bytes@, t),
            decreases 8 - j,
        {
            let bit = (b >> (7 - j)) & 1 == 1;
            proof {
                let t = i * 8 + j;
                assert(t / 8 == i && t % 8 == j) by (nonlinear_arith)
                    requires
                        t == i * 8 + j,
                        j < 8,
                ;
            }
            bits.push(bit);
            j = j + 1;
        }
        i = i + 1;
    }
    assert(bits@ =~= spec_bits(bytes@));
    bits
}

/// The bytes whole groups of eight bits spell, most significant bit first.
pub fn bits_to_bytes(bits: &[bool]) -> (bytes: Vec<u8>)
    ensures
        bytes@ == spec_bytes_of(bits@),
{
    let mut bytes: Vec<u8> = Vec::new();
    let total = bits.len();
    let n = total / 8;
    let mut k: usize = 0;
    while k < n
        invariant
            k <= n,
            n == bits@.len() / 8,
            total == bits@.len(),
            bytes@.len() == k,
            forall|t: int| 0 <= t < k ==> bytes@[t] == spec_byte_of(bits@.subrange(8 * t, 8 * t + 8)),
        decreases n - k,
    {
        assert(8 * k + 8 <= bits@.len()) by (nonlinear_arith)
            requires
                k < n,
                n == bits@.len() / 8,
        ;
        let mut byte: u8 = 0;
        let mut j: usize = 0;
        while j < 8
            invariant
                j <= 8,
                8 * k + 8 <= bits@.len(),
                bits@.len() <= usize::MAX,
                byte == spec_byte_of(bits@.subrange(8 * k, 8 * k + j)),
            decreases 8 - j,
        {
            let bit = bits[8 * k + j];
            let ghost g = bits@.subrange(8 * k, 8 * k + j + 1);
            assert(g.drop_last() =~= bits@.subrange(8 * k, 8 * k + j));
            assert(g.last() == bit);
            let add: u8 = if bit {
                1
            } else {
                0
            };
            assert(((byte as int * 2 + add) % 256) as u8 == ((byte << 1u8) | add)) by (bit_vector)
                requires
                    add <= 1,
            ;
            byte = (byte << 1u8) | add;
            j = j + 1;
        }
        bytes.push(byte);
        k = k + 1;
    }
    assert(bytes@ =~= spec_bytes_of(bits@));
    bytes
}

/// Sending a frame and reading it back keeps the (cut) payload, whenever it is
/// not empty.
pub proof fn lemma_frame_round_trip(payload: Seq<u8>)
    requires
        payload.len() > 0,
    ensures
        spec_received(spec_frame(payload).take(1), 1, spec_frame(payload).skip(1)) == Some(
            spec_safe_payload(payload),
        ),
{
    let safe = spec_safe_payload(payload);
    let f = spec_frame(payload);
    assert(f.take(1) =~= seq![safe.len() as u8]);
    assert(f.skip(1) =~= safe + seq![spec_xor_all(safe)]);
    assert((f.skip(1)).take(safe.len() as int) =~= safe);
}

/// A received frame is kept exactly when it checks: what is kept is the first
/// `header[0]` bytes of the body, not empty, and the byte that follows them is
/// their XOR; a decoded header and a body that check are always kept.
pub proof fn lemma_received_checks(header: Seq<u8>, header_end: nat, body: Seq<u8>)
    ensures
        spec_received(header, header_end, body) matches Some(d) ==> {
            &&& header.len() > 0 && header_end > 0
            &&& d.len() == header[0] as int
            &&& d.len() > 0
            &&& body.len() > d.len()
            &&& forall|i: int| 0 <= i < d.len() ==> #[trigger] d[i] == body[i]
            &&& spec_xor_all(d) == body[d.len() as int]
        },
        (header.len() > 0 && header_end > 0 && 0 < header[0] && (header[0] as int) < body.len()
            && spec_xor_all(body.take(header[0] as int)) == body[header[0] as int]) ==> spec_received(
            header,
            header_end,
            body,
        ) == Some(body.take(header[0] as int)),
{
}

/// The ultrasound modem's state: its modulation, its flags and the payloads
/// received.
pub struct UltrasoundModem {
    is_transmitting: bool,
    is_receiving: bool,
    received_data: Vec<Vec<u8>>,
    modulation: Modulation,
}

/// The views of a vector of byte vectors.
pub open spec fn received_views(v: Seq<Vec<u8>>) -> Seq<Seq<u8>> {
    v.map_values(|x: Vec<u8>| x@)
}

impl UltrasoundModem {
    /// The modulation used.
    pub closed spec fn modulation_spec(&self) -> Modulation {
        self.modulation
    }

    /// The payloads received and not yet taken.
    pub closed spec fn received(&self) -> Seq<Seq<u8>> {
        received_views(self.received_data@)
    }

    /// Scanning is on.
    pub closed spec fn receiving(&self) -> bool {
        self.is_receiving
    }

    /// A modem with the default modulation (`Ask`), idle, nothing received.
    pub fn new() -> (m: Self)
        ensures
            m.modulation_spec() == Modulation::Ask,
            m.received().len() == 0,
            !m.receiving(),
    {
        UltrasoundModem {
            is_transmitting: false,
            is_receiving: false,
            received_data: Vec::new(),
            modulation: Modulation::Ask,
        }
    }

    /// A modem using `modulation`.
    pub fn with_modulation(modulation: Modulation) -> (m: Self)
        ensures
            m.modulation_spec() == modulation,
            m.received().len() == 0,
            !m.receiving(),
    {
        let mut modem = Self::new();
        modem.modulation = modulation;
        modem
    }

    /// The modulation used.
    pub fn modulation(&self) -> (m: Modulation)
        ensures
            m == self.modulation_spec(),
    {
        self.modulation
    }

    /// The frame to send for `payload` (see `spec_frame`); an empty payload is
    /// refused.
    pub fn broadcast(&self, payload: &[u8]) -> (r: Result<Vec<u8>, String>)
        ensures
            r is Err <==> payload@.len() == 0,
            r matches Err(e) ==> e@ == "Empty payload"@,
            r matches Ok(f) ==> f@ == spec_frame(payload@),
    {
        if payload.len() == 0 {
            return Err("Empty payload".to_string());
        }
        let end = if payload.len() > MAX_PAYLOAD_BYTES {
            MAX_PAYLOAD_BYTES
        } else {
            payload.len()
        };
        let safe = slice_to_vec(payload, 0, end);
        assert(safe@ =~= spec_safe_payload(payload@));
        let checksum = xor_all(safe.as_slice());
        let mut frame: Vec<u8> = Vec::new();
        frame.push(end as u8);
        let mut i: usize = 0;
        while i < safe.len()
            invariant
                i <= safe@.len(),
                frame@ == seq![end as u8] + safe@.take(i as int),
            decreases safe@.len() - i,
        {
            frame.push(safe[i]);
            assert(safe@.take(i + 1) =~= safe@.take(i as int).push(safe@[i as int]));
            i = i + 1;
        }
        assert(safe@.take(i as int) =~= safe@);
        frame.push(checksum);
        assert(frame@ =~= spec_frame(payload@));
        Ok(frame)
    }

    /// Turns scanning on.
    pub fn start_scanning(&mut self) -> (r: Result<(), String>)
        ensures
            r is Ok,
            final(self).receiving(),
            final(self).received() == old(self).received(),
            final(self).modulation_spec() == old(self).modulation_spec(),
    {
        self.is_receiving = true;
        Ok(())
    }

    /// Turns scanning off.
    pub fn stop_scanning(&mut self)
        ensures
            !final(self).receiving(),
            final(self).received() == old(self).received(),
            final(self).modulation_spec() == old(self).modulation_spec(),
    {
        self.is_receiving = false;
    }

    /// Keeps the payload of a decoded transmission when it checks out (see
    /// `spec_received`); says whether it was kept.
    pub fn receive_decoded(&mut self, header: &[u8], header_end: usize, body: &[u8]) -> (kept: bool)
        ensures
            kept == spec_received(header@, header_end as nat, body@) is Some,
            kept ==> final(self).received() == old(self).received().push(
                spec_received(header@, header_end as nat, body@).unwrap(),
            ),
            !kept ==> final(self).received() == old(self).received(),
            final(self).modulation_spec() == old(self).modulation_spec(),
            final(self).receiving() == old(self).receiving(),
    {
        if header.len() == 0 || header_end == 0 {
            return false;
        }
        let n = header[0] as usize;
        if body.len() >= n + 1 {
            let data = slice_to_vec(body, 0, n);
            assert(data@ =~= body@.take(n as int));
            let checksum = body[n];
            let calc = xor_all(data.as_slice());
            if calc == checksum && data.len() > 0 {
                let ghost before = self.received_data@;
                self.received_data.push(data);
                assert(received_views(self.received_data@) =~= received_views(before).push(
                    body@.take(n as int),
                ));
                return true;
            }
        }
        false
    }

    /// Takes every payload received, leaving none.
    pub fn get_received(&mut self) -> (r: Vec<Vec<u8>>)
        ensures
            received_views(r@) == old(self).received(),
            final(self).received().len() == 0,
            final(self).modulation_spec() == old(self).modulation_spec(),
            final(self).receiving() == old(self).receiving(),
    {
        let mut out: Vec<Vec<u8>> = Vec::new();
        std::mem::swap(&mut out, &mut self.received_data);
        assert(received_views(self.received_data@) =~= Seq::<Seq<u8>>::empty());
        out
    }
}

impl Default for UltrasoundModem {
    fn default() -> (m: Self)
        ensures
            m.modulation_spec() == Modulation::Ask,
            m.received().len() == 0,
    {
        Self::new()
    }
}

/// Bits go out most significant first: the first of a byte's eight bits is set
/// exactly when the byte is at least 128, and the last exactly when it is odd.
pub proof fn lemma_bit_order(bytes: Seq<u8>, k: int)
    requires
        0 <= k < bytes.len(),
    ensures
        spec_bits(bytes)[8 * k] <==> bytes[k] >= 128,
        spec_bits(bytes)[8 * k + 7] <==> bytes[k] % 2 == 1,
{
    let b = bytes[k];
    assert((8 * k) / 8 == k && (8 * k) % 8 == 0);
    assert((8 * k + 7) / 8 == k && (8 * k + 7) % 8 == 7);
    assert(((b >> 7u8) & 1 == 1) <==> b >= 128) by (bit_vector);
    assert(((b >> 0u8) & 1 == 1) <==> b % 2 == 1) by (bit_vector);
}

/// A frame is the payload's length, the payload (cut to `MAX_PAYLOAD_BYTES`) and
/// then the XOR of its bytes.
pub proof fn lemma_frame_fields(payload: Seq<u8>)
    ensures
        spec_frame(payload).len() == spec_safe_payload(payload).len() + 2,
        spec_frame(payload)[0] as int == spec_safe_payload(payload).len(),
        spec_frame(payload).subrange(1, spec_frame(payload).len() - 1) == spec_safe_payload(payload),
        spec_frame(payload).last() == spec_xor_all(spec_safe_payload(payload)),
        spec_safe_payload(payload).len() <= MAX_PAYLOAD_BYTES,
        spec_safe_payload(payload) == payload.take(spec_safe_payload(payload).len() as int),
{
    let safe = spec_safe_payload(payload);
    let f = spec_frame(payload);
    assert(f.subrange(1, f.len() - 1) =~= safe);
    assert(safe =~= payload.take(safe.len() as int));
}

/// The checksum of joined data is the XOR of the parts' checksums, and the
/// checksum of one byte is that byte: it is the XOR of all bytes.
pub proof fn lemma_xor_all_concat(a: Seq<u8>, b: Seq<u8>)
    ensures
        spec_xor_all(a + b) == spec_xor_all(a) ^ spec_xor_all(b),
        b.len() == 1 ==> spec_xor_all(b) == b[0],
    decreases b.len(),
{
    if b.len() == 0 {
        assert(a + b =~= a);
        let x = spec_xor_all(a);
        assert(x ^ 0u8 == x) by (bit_vector);
    } else {
        lemma_xor_all_concat(a, b.drop_last());
        assert((a + b).drop_last() =~= a + b.drop_last());
        let x = spec_xor_all(a);
        let y = spec_xor_all(b.drop_last());
        let z = b.last();
        assert((x ^ y) ^ z == x ^ (y ^ z)) by (bit_vector);
        if b.len() == 1 {
            assert(b.drop_last() =~= Seq::<u8>::empty());
            assert(0u8 ^ z == z) by (bit_vector);
        }
    }
}

/// Changing one byte of a frame's data changes its checksum, so a frame whose
/// data was hit in one byte is not kept.
pub proof fn lemma_one_byte_changed(d: Seq<u8>, i: int, v: u8)
    requires
        0 <= i < d.len(),
        v != d[i],
    ensures
        spec_xor_all(d.update(i, v)) != spec_xor_all(d),
{
    let e = d.update(i, v);
    let pre = d.take(i);
    let post = d.skip(i + 1);
    assert(d =~= pre + seq![d[i]] + post);
    assert(e =~= pre + seq![v] + post);
    lemma_xor_all_concat(pre, seq![d[i]]);
    lemma_xor_all_concat(pre + seq![d[i]], post);
    lemma_xor_all_concat(pre, seq![v]);
    lemma_xor_all_concat(pre + seq![v], post);
    let p = spec_xor_all(pre);
    let q = spec_xor_all(post);
    let a = d[i];
    assert(a != v ==> (p ^ a) ^ q != (p ^ v) ^ q) by (bit_vector);
}

} // verus!
