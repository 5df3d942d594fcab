//! LoRa transport: the packet format, the mesh routing table and the decisions
//! of the receive and retransmit loops. The serial port itself is driven by the
//! caller, which hands frames in and writes the frames this module returns.

use vstd::prelude::*;
use std::collections::VecDeque;
use vstd::bytes::{
    spec_u16_from_le_bytes, spec_u16_to_le_bytes, spec_u32_from_le_bytes, spec_u32_to_le_bytes,
    spec_u64_from_le_bytes, spec_u64_to_le_bytes, u16_from_le_bytes, u16_to_le_bytes,
    u32_from_le_bytes, u32_to_le_bytes, u64_from_le_bytes, u64_to_le_bytes,
};
use crate::wire::{append_bytes, array16_at, bytes_equal, bytes_to_vec, slice_to_vec};

verus! {

/// Carrier frequency in Hz (868 MHz, EU band).
pub const LORA_FREQUENCY: u32 = 868_000_000;
/// Bandwidth in Hz.
pub const LORA_BANDWIDTH: u32 = 125_000;
/// Spreading factor.
pub const LORA_SPREADING_FACTOR: u8 = 9;
/// Coding rate denominator (4/5).
pub const LORA_CODING_RATE: u8 = 5;
/// Transmit power in dBm.
pub const LORA_TX_POWER: i8 = 20;
/// Largest LoRa frame, in bytes.
pub const MAX_PACKET_SIZE: usize = 255;
/// Largest number of hops a packet may travel.
pub const MESH_HOPS_MAX: u8 = 7;
/// Number of routes the table keeps.
pub const ROUTING_TABLE_SIZE: usize = 100;
/// Length of an encoded header.
pub const HEADER_LEN: usize = 49;
/// Frames shorter than this are ignored by the decoder.
pub const MIN_FRAME_LEN: usize = 40;
/// Number of times a frame whose write failed is tried again.
pub const MAX_RETRIES: u8 = 3;

/// Kind of a LoRa packet.
#[derive(Debug, Clone, Copy, PartialEq, Eq, Structural)]
pub enum LoRaPacketType {
    Data,
    Beacon,
    Ack,
    RouteRequest,
    RouteReply,
    Encounter,
    Block,
}

/// The byte that encodes a packet type on the air.
pub open spec fn packet_type_byte(t: LoRaPacketType) -> u8 {
    match t {
        LoRaPacketType::Data => 0x01,
        LoRaPacketType::Beacon => 0x02,
        LoRaPacketType::Ack => 0x03,
        LoRaPacketType::RouteRequest => 0x04,
        LoRaPacketType::RouteReply => 0x05,
        LoRaPacketType::Encounter => 0x06,
        LoRaPacketType::Block => 0x07,
    }
}

/// The byte names a packet type.
pub open spec fn is_packet_type_byte(b: u8) -> bool {
    0x01 <= b <= 0x07
}

impl LoRaPacketType {
    /// The byte that encodes this type.
    pub fn to_byte(self) -> (b: u8)
        ensures
            b == packet_type_byte(self),
    {
        match self {
            LoRaPacketType::Data => 0x01,
            LoRaPacketType::Beacon => 0x02,
            LoRaPacketType::Ack => 0x03,
            LoRaPacketType::RouteRequest => 0x04,
            LoRaPacketType::RouteReply => 0x05,
            LoRaPacketType::Encounter => 0x06,
            LoRaPacketType::Block => 0x07,
        }
    }

    /// The type a byte encodes, if any.
    pub fn from_byte(b: u8) -> (t: Option<Self>)
        ensures
            t is Some <==> is_packet_type_byte(b),
            t matches Some(x) ==> packet_type_byte(x) == b,
    {
        match b {
            0x01 => Some(LoRaPacketType::Data),
            0x02 => Some(LoRaPacketType::Beacon),
            0x03 => Some(LoRaPacketType::Ack),
            0x04 => Some(LoRaPacketType::RouteRequest),
            0x05 => Some(LoRaPacketType::RouteReply),
            0x06 => Some(LoRaPacketType::Encounter),
            0x07 => Some(LoRaPacketType::Block),
            _ => None,
        }
    }
}

/// Header of a LoRa packet.
#[derive(Debug, Clone, Copy)]
pub struct LoRaHeader {
    pub packet_type: LoRaPacketType,
    pub src_id: [u8; 16],
    pub dst_id: [u8; 16],
    pub hop_count: u8,
    pub ttl: u8,
    pub packet_id: u32,
    pub timestamp: u64,
    pub payload_len: u16,
}

/// A LoRa packet.
#[derive(Debug, Clone)]
pub struct LoRaPacket {
    pub header: LoRaHeader,
    pub payload: Vec<u8>,
}

/// A route: where to send packets for `destination`.
#[derive(Debug, Clone, Copy)]
pub struct RouteEntry {
    pub destination: [u8; 16],
    pub next_hop: [u8; 16],
    pub hops: u8,
    pub last_seen: u64,
}

/// A packet waiting to be (re)transmitted.
#[derive(Debug, Clone)]
pub struct BufferedPacket {
    pub packet: LoRaPacket,
    pub retry_count: u8,
    pub next_retry: u64,
}

/// The encoded header: type byte, source and destination ids, hop count, time to
/// live, then packet id, timestamp and payload length in little-endian order.
pub open spec fn spec_encode_header(h: LoRaHeader) -> Seq<u8> {
    spec_encode_fields(
        h.packet_type,
        h.src_id@,
        h.dst_id@,
        h.hop_count,
        h.ttl,
        h.packet_id,
        h.timestamp,
        h.payload_len,
    )
}

/// The encoded header, from its fields.
pub open spec fn spec_encode_fields(
    packet_type: LoRaPacketType,
    src_id: Seq<u8>,
    dst_id: Seq<u8>,
    hop_count: u8,
    ttl: u8,
    packet_id: u32,
    timestamp: u64,
    payload_len: u16,
) -> Seq<u8> {
    seq![packet_type_byte(packet_type)] + src_id + dst_id + seq![hop_count, ttl]
        + spec_u32_to_le_bytes(packet_id) + spec_u64_to_le_bytes(timestamp)
        + spec_u16_to_le_bytes(payload_len)
}

/// The all-zero id that addresses every node.
pub open spec fn broadcast_id() -> Seq<u8> {
    Seq::new(16, |i: int| 0u8)
}

/// The encoded packet: header, then payload.
pub open spec fn spec_encode_packet(p: LoRaPacket) -> Seq<u8> {
    spec_encode_header(p.header) + p.payload@
}

/// Payload length written in a frame's header.
pub open spec fn frame_payload_len(data: Seq<u8>) -> u16 {
    spec_u16_from_le_bytes(data.subrange(47, 49))
}

/// The decoder reads past the end of `data`: the frame passes the length and type
/// checks but its header or its payload is cut short.
pub open spec fn decode_overruns(data: Seq<u8>) -> bool {
    &&& data.len() >= MIN_FRAME_LEN
    &&& is_packet_type_byte(data[0])
    &&& (data.len() < HEADER_LEN || HEADER_LEN + frame_payload_len(data) > data.len())
}

/// The decoder accepts `data`.
pub open spec fn decode_accepts(data: Seq<u8>) -> bool {
    data.len() >= MIN_FRAME_LEN && is_packet_type_byte(data[0])
}

/// `p` is what the decoder reads from `data`, field by field.
pub open spec fn decoded_from(p: LoRaPacket, data: Seq<u8>) -> bool {
    &&& packet_type_byte(p.header.packet_type) == data[0]
    &&& p.header.src_id@ == data.subrange(1, 17)
    &&& p.header.dst_id@ == data.subrange(17, 33)
    &&& p.header.hop_count == data[33]
    &&& p.header.ttl == data[34]
    &&& p.header.packet_id == spec_u32_from_le_bytes(data.subrange(35, 39))
    &&& p.header.timestamp == spec_u64_from_le_bytes(data.subrange(39, 47))
    &&& p.header.payload_len == spec_u16_from_le_bytes(data.subrange(47, 49))
    &&& p.payload@ == data.subrange(HEADER_LEN as int, HEADER_LEN + p.header.payload_len)
}

/// The two packets have equal fields.
pub open spec fn same_packet(a: LoRaPacket, b: LoRaPacket) -> bool {
    &&& a.header.packet_type == b.header.packet_type
    &&& a.header.src_id@ == b.header.src_id@
    &&& a.header.dst_id@ == b.header.dst_id@
    &&& a.header.hop_count == b.header.hop_count
    &&& a.header.ttl == b.header.ttl
    &&& a.header.packet_id == b.header.packet_id
    &&& a.header.timestamp == b.header.timestamp
    &&& a.header.payload_len == b.header.payload_len
    &&& a.payload@ == b.payload@
}

/// The header's length field matches the payload.
pub open spec fn packet_consistent(p: LoRaPacket) -> bool {
    p.header.payload_len as nat == p.payload@.len()
}

proof fn lemma_packet_type_byte_injective(a: LoRaPacketType, b: LoRaPacketType)
    requires
        packet_type_byte(a) == packet_type_byte(b),
    ensures
        a == b,
{
}

/// A packet whose length field matches its payload is read back, field for
/// field, from its own encoding, and the decoder accepts that encoding without
/// reading past its end.
pub proof fn lemma_decode_encode(p: LoRaPacket, q: LoRaPacket)
    requires
        packet_consistent(p),
        decoded_from(q, spec_encode_packet(p)),
    ensures
        decode_accepts(spec_encode_packet(p)),
        !decode_overruns(spec_encode_packet(p)),
        same_packet(q, p),
{
    let d = spec_encode_packet(p);
    let h = p.header;
    vstd::bytes::lemma_auto_spec_u16_to_from_le_bytes();
    vstd::bytes::lemma_auto_spec_u32_to_from_le_bytes();
    vstd::bytes::lemma_auto_spec_u64_to_from_le_bytes();
    assert(spec_u32_to_le_bytes(h.packet_id).len() == 4);
    assert(spec_u64_to_le_bytes(h.timestamp).len() == 8);
    assert(spec_u16_to_le_bytes(h.payload_len).len() == 2);
    assert(d.len() == HEADER_LEN + p.payload@.len());
    assert(d.subrange(1, 17) =~= h.src_id@);
    assert(d.subrange(17, 33) =~= h.dst_id@);
    assert(d.subrange(35, 39) =~= spec_u32_to_le_bytes(h.packet_id));
    assert(d.subrange(39, 47) =~= spec_u64_to_le_bytes(h.timestamp));
    assert(d.subrange(47, 49) =~= spec_u16_to_le_bytes(h.payload_len));
    assert(d.subrange(HEADER_LEN as int, HEADER_LEN + h.payload_len) =~= p.payload@);
    lemma_packet_type_byte_injective(q.header.packet_type, h.packet_type);
}

/// The route `table` holds for `dst`: the next hop of its first entry for `dst`.
pub open spec fn spec_next_hop(table: Seq<RouteEntry>, dst: Seq<u8>) -> Option<Seq<u8>>
    decreases table.len(),
{
    if table.len() == 0 {
        None
    } else if table[0].destination@ == dst {
        Some(table[0].next_hop@)
    } else {
        spec_next_hop(table.drop_first(), dst)
    }
}

/// Index of the first entry of `table` for `dst`.
pub open spec fn first_route_index(table: Seq<RouteEntry>, dst: Seq<u8>) -> int
    decreases table.len(),
{
    if table.len() == 0 {
        0
    } else if table[0].destination@ == dst {
        0
    } else {
        1 + first_route_index(table.drop_first(), dst)
    }
}

proof fn lemma_first_route(table: Seq<RouteEntry>, dst: Seq<u8>)
    ensures
        spec_next_hop(table, dst) is Some <==> exists|i: int| 0 <= i < table.len() && #[trigger] table[i].destination@ == dst,
        spec_next_hop(table, dst) is Some ==> {
            let k = first_route_index(table, dst);
            &&& 0 <= k < table.len()
            &&& table[k].destination@ == dst
            &&& spec_next_hop(table, dst) == Some(table[k].next_hop@)
            &&& forall|j: int| 0 <= j < k ==> #[trigger] table[j].destination@ != dst
        },
    decreases table.len(),
{
    if table.len() > 0 {
        lemma_first_route(table.drop_first(), dst);
        if table[0].destination@ != dst {
            assert forall|i: int| 0 <= i < table.len() && #[trigger] table[i].destination@ == dst implies
                exists|j: int| 0 <= j < table.drop_first().len() && #[trigger] table.drop_first()[j].destination@ == dst by {
                assert(table.drop_first()[i - 1] == table[i]);
            }
            if spec_next_hop(table, dst) is Some {
                let k = first_route_index(table, dst);
                assert forall|j: int| 0 <= j < k implies #[trigger] table[j].destination@ != dst by {
                    if j > 0 {
                        assert(table.drop_first()[j - 1] == table[j]);
                    }
                }
                assert(table[k] == table.drop_first()[k - 1]);
            } else {
                assert forall|i: int| 0 <= i < table.len() implies #[trigger] table[i].destination@ != dst by {
                    if i > 0 {
                        assert(table.drop_first()[i - 1] == table[i]);
                    }
                }
            }
        }
    }
}

/// The packets of `s` due at `now`, in order.
pub open spec fn due_packets(s: Seq<BufferedPacket>, now: u64) -> Seq<BufferedPacket>
    decreases s.len(),
{
    if s.len() == 0 {
        s
    } else {
        let sub = due_packets(s.drop_last(), now);
        if s.last().next_retry <= now {
            sub.push(s.last())
        } else {
            sub
        }
    }
}

/// The packets of `s` not yet due at `now`, in order.
pub open spec fn waiting_packets(s: Seq<BufferedPacket>, now: u64) -> Seq<BufferedPacket>
    decreases s.len(),
{
    if s.len() == 0 {
        s
    } else {
        let sub = waiting_packets(s.drop_last(), now);
        if s.last().next_retry <= now {
            sub
        } else {
            sub.push(s.last())
        }
    }
}

/// Seconds to wait before try number `k`.
pub open spec fn backoff_secs(k: u8) -> u64 {
    1u64 << k
}

/// Where a route seen at `key` goes in `s`, which is ordered by `last_seen`:
/// after every route seen at or before `key`.
pub open spec fn route_insert_pos(s: Seq<RouteEntry>, key: u64) -> int
    decreases s.len(),
{
    if s.len() == 0 {
        0
    } else if s.last().last_seen > key {
        route_insert_pos(s.drop_last(), key)
    } else {
        s.len() as int
    }
}

/// `s` with `x` inserted at its place by `last_seen`.
pub open spec fn route_insert(s: Seq<RouteEntry>, x: RouteEntry) -> Seq<RouteEntry> {
    let k = route_insert_pos(s, x.last_seen);
    s.take(k) + seq![x] + s.skip(k)
}

/// `s` ordered by `last_seen`, oldest first; routes seen at the same time keep
/// their order (a stable sort).
pub open spec fn sort_by_last_seen(s: Seq<RouteEntry>) -> Seq<RouteEntry>
    decreases s.len(),
{
    if s.len() == 0 {
        s
    } else {
        route_insert(sort_by_last_seen(s.drop_last()), s.last())
    }
}

/// `s` is ordered by `last_seen`, oldest first.
pub open spec fn sorted_by_last_seen(s: Seq<RouteEntry>) -> bool {
    forall|i: int, j: int| 0 <= i < j < s.len() ==> #[trigger] s[i].last_seen <= #[trigger] s[j].last_seen
}

proof fn lemma_insert_pos_sorted(s: Seq<RouteEntry>, key: u64)
    requires
        sorted_by_last_seen(s),
    ensures
        0 <= route_insert_pos(s, key) <= s.len(),
        forall|i: int| 0 <= i < route_insert_pos(s, key) ==> #[trigger] s[i].last_seen <= key,
        forall|i: int| route_insert_pos(s, key) <= i < s.len() ==> #[trigger] s[i].last_seen > key,
    decreases s.len(),
{
    if s.len() > 0 {
        let t = s.drop_last();
        assert(sorted_by_last_seen(t)) by {
            assert forall|i: int, j: int| 0 <= i < j < t.len() implies #[trigger] t[i].last_seen <= #[trigger] t[j].last_seen by {
                assert(s[i].last_seen <= s[j].last_seen);
            }
        }
        lemma_insert_pos_sorted(t, key);
        if s.last().last_seen <= key {
            assert forall|i: int| 0 <= i < s.len() implies #[trigger] s[i].last_seen <= key by {
                if i < s.len() - 1 {
                    assert(s[i].last_seen <= s[s.len() - 1].last_seen);
                }
            }
        } else {
            assert forall|i: int| 0 <= i < route_insert_pos(s, key) implies #[trigger] s[i].last_seen <= key by {
                assert(t[i] == s[i]);
            }
            assert forall|i: int| route_insert_pos(s, key) <= i < s.len() implies #[trigger] s[i].last_seen > key by {
                if i < s.len() - 1 {
                    assert(t[i] == s[i]);
                }
            }
        }
    }
}

/// Ordering routes by when they were last seen keeps every route, each as often
/// as before, and puts them oldest first; so the first is a route seen least
/// recently, and it is the one the routing table drops when it is full.
pub proof fn lemma_sort_by_last_seen(s: Seq<RouteEntry>)
    ensures
        sort_by_last_seen(s).to_multiset() == s.to_multiset(),
        sorted_by_last_seen(sort_by_last_seen(s)),
        s.len() > 0 ==> forall|i: int| 0 <= i < s.len() ==> sort_by_last_seen(s)[0].last_seen <= #[trigger] s[i].last_seen,
    decreases s.len(),
{
    if s.len() > 0 {
        let t = sort_by_last_seen(s.drop_last());
        let x = s.last();
        lemma_sort_by_last_seen(s.drop_last());
        lemma_insert_pos_sorted(t, x.last_seen);
        let k = route_insert_pos(t, x.last_seen);
        let r = sort_by_last_seen(s);
        assert(r == t.take(k) + seq![x] + t.skip(k));
        assert(r =~= t.insert(k, x));
        vstd::seq_lib::to_multiset_insert(t, k, x);
        assert(s =~= s.drop_last().push(x));
        vstd::seq_lib::to_multiset_build(s.drop_last(), x);
        assert(r.to_multiset() =~= s.to_multiset());
        assert forall|i: int, j: int| 0 <= i < j < r.len() implies #[trigger] r[i].last_seen <= #[trigger] r[j].last_seen by {
            if j < k {
                assert(r[i] == t[i] && r[j] == t[j]);
            } else if j == k {
                assert(r[i] == t[i]);
            } else if i < k {
                assert(r[i] == t[i] && r[j] == t[j - 1]);
                assert(t[i].last_seen <= x.last_seen);
            } else if i == k {
                assert(r[j] == t[j - 1]);
            } else {
                assert(r[i] == t[i - 1] && r[j] == t[j - 1]);
            }
        }
        assert forall|i: int| 0 <= i < s.len() implies r[0].last_seen <= #[trigger] s[i].last_seen by {
            vstd::seq_lib::to_multiset_contains(s, s[i]);
            vstd::seq_lib::to_multiset_contains(r, s[i]);
            assert(s.contains(s[i]));
            assert(r.contains(s[i]));
            let j = choose|j: int| 0 <= j < r.len() && r[j] == s[i];
            if j > 0 {
                assert(r[0].last_seen <= r[j].last_seen);
            }
        }
    }
}

proof fn lemma_sort_len(s: Seq<RouteEntry>)
    ensures
        sort_by_last_seen(s).len() == s.len(),
    decreases s.len(),
{
    if s.len() > 0 {
        lemma_sort_len(s.drop_last());
        let t = sort_by_last_seen(s.drop_last());
        lemma_insert_pos_bound(t, s.last().last_seen);
    }
}

proof fn lemma_insert_pos_bound(s: Seq<RouteEntry>, key: u64)
    ensures
        0 <= route_insert_pos(s, key) <= s.len(),
    decreases s.len(),
{
    if s.len() > 0 {
        lemma_insert_pos_bound(s.drop_last(), key);
    }
}

/// Inserts `x` into `l`, which is ordered by `last_seen`, after every route seen
/// at or before it.
fn insert_route(l: &mut Vec<RouteEntry>, x: RouteEntry)
    ensures
        final(l)@ == route_insert(old(l)@, x),
{
    let ghost v = l@;
    let mut j: usize = l.len();
    assert(v.take(j as int) =~= v);
    while j > 0 && l[j - 1].last_seen > x.last_seen
        invariant
            j <= l@.len(),
            v == l@,
            route_insert_pos(v, x.last_seen) == route_insert_pos(v.take(j as int), x.last_seen),
        decreases j,
    {
        let ghost t = v.take(j as int);
        assert(t.last() == v[j - 1]);
        assert(t.drop_last() =~= v.take(j - 1));
        j = j - 1;
    }
    proof {
        let t = v.take(j as int);
        if j > 0 {
            assert(t.last() == v[j - 1]);
        }
        assert(route_insert_pos(t, x.last_seen) == j);
    }
    l.insert(j, x);
    assert(l@ =~= v.take(j as int) + seq![x] + v.skip(j as int));
}

/// The routes of `table` ordered by `last_seen` (see `sort_by_last_seen`).
fn sort_routes(table: &Vec<RouteEntry>) -> (sorted: Vec<RouteEntry>)
    ensures
        sorted@ == sort_by_last_seen(table@),
{
    let mut sorted: Vec<RouteEntry> = Vec::new();
    let mut i: usize = 0;
    while i < table.len()
        invariant
            i <= table.len(),
            sorted@ == sort_by_last_seen(table@.take(i as int)),
        decreases table.len() - i,
    {
        assert(table@.take(i + 1).drop_last() =~= table@.take(i as int));
        insert_route(&mut sorted, table[i]);
        i = i + 1;
    }
    assert(table@.take(i as int) =~= table@);
    sorted
}

/// The LoRa node's state: its id, radio settings, routing table, retransmission
/// queue and the packets addressed to it.
pub struct LoraTransport {
    node_id: [u8; 16],
    routing_table: Vec<RouteEntry>,
    packet_buffer: VecDeque<BufferedPacket>,
    received_packets: Vec<LoRaPacket>,
    running: bool,
    frequency: u32,
    spreading_factor: u8,
    tx_power: i8,
    next_id: u32,
}

impl LoraTransport {
    /// This node's id.
    pub closed spec fn node_id_spec(&self) -> Seq<u8> {
        self.node_id@
    }

    /// The routing table.
    pub closed spec fn routes(&self) -> Seq<RouteEntry> {
        self.routing_table@
    }

    /// The retransmission queue.
    pub closed spec fn buffered(&self) -> Seq<BufferedPacket> {
        self.packet_buffer@
    }

    /// The packets received for this node and not yet taken.
    pub closed spec fn inbox(&self) -> Seq<LoRaPacket> {
        self.received_packets@
    }

    /// The transport is running.
    pub closed spec fn is_running_spec(&self) -> bool {
        self.running
    }

    /// Frequency, spreading factor and transmit power.
    pub closed spec fn radio(&self) -> (u32, u8, i8) {
        (self.frequency, self.spreading_factor, self.tx_power)
    }

    /// The id the next packet will carry.
    pub closed spec fn next_id_spec(&self) -> u32 {
        self.next_id
    }

    /// A stopped transport with empty tables and the default radio settings.
    pub fn new(node_id: [u8; 16]) -> (t: Self)
        ensures
            t.node_id_spec() == node_id@,
            t.routes().len() == 0,
            t.buffered().len() == 0,
            t.inbox().len() == 0,
            !t.is_running_spec(),
            t.next_id_spec() == 1,
            t.radio() == (LORA_FREQUENCY, LORA_SPREADING_FACTOR, LORA_TX_POWER),
    {
        LoraTransport {
            node_id,
            routing_table: Vec::new(),
            packet_buffer: VecDeque::new(),
            received_packets: Vec::new(),
            running: false,
            frequency: LORA_FREQUENCY,
            spreading_factor: LORA_SPREADING_FACTOR,
            tx_power: LORA_TX_POWER,
            next_id: 1,
        }
    }

    /// Carrier frequency in Hz.
    pub fn frequency(&self) -> (f: u32)
        ensures
            f == self.radio().0,
    {
        self.frequency
    }

    /// Spreading factor.
    pub fn spreading_factor(&self) -> (s: u8)
        ensures
            s == self.radio().1,
    {
        self.spreading_factor
    }

    /// Transmit power in dBm.
    pub fn tx_power(&self) -> (p: i8)
        ensures
            p == self.radio().2,
    {
        self.tx_power
    }

    /// This node's id.
    pub fn node_id(&self) -> (id: [u8; 16])
        ensures
            id@ == self.node_id_spec(),
    {
        self.node_id
    }

    /// Marks the transport as running.
    pub fn start(&mut self)
        ensures
            final(self).is_running_spec(),
            final(self).routes() == old(self).routes(),
            final(self).buffered() == old(self).buffered(),
            final(self).inbox() == old(self).inbox(),
            final(self).node_id_spec() == old(self).node_id_spec(),
            final(self).next_id_spec() == old(self).next_id_spec(),
    {
        self.running = true;
    }

    /// Marks the transport as stopped.
    pub fn stop(&mut self)
        ensures
            !final(self).is_running_spec(),
            final(self).routes() == old(self).routes(),
            final(self).buffered() == old(self).buffered(),
            final(self).inbox() == old(self).inbox(),
            final(self).node_id_spec() == old(self).node_id_spec(),
            final(self).next_id_spec() == old(self).next_id_spec(),
    {
        self.running = false;
    }

    /// The transport is running.
    pub fn is_running(&self) -> (r: bool)
        ensures
            r == self.is_running_spec(),
    {
        self.running
    }

    /// Hands out the next packet id (ids count up from 1 and wrap around).
    fn next_packet_id(&mut self) -> (id: u32)
        ensures
            id == old(self).next_id_spec(),
            final(self).next_id_spec() == old(self).next_id_spec().wrapping_add(1),
            final(self).routes() == old(self).routes(),
            final(self).buffered() == old(self).buffered(),
            final(self).inbox() == old(self).inbox(),
            final(self).node_id_spec() == old(self).node_id_spec(),
            final(self).is_running_spec() == old(self).is_running_spec(),
    {
        let id = self.next_id;
        self.next_id = self.next_id.wrapping_add(1);
        id
    }

    /// Encodes a packet: header fields in order, multi-byte ones little-endian,
    /// then the payload.
    pub fn encode_packet_static(packet: &LoRaPacket) -> (data: Vec<u8>)
        ensures
            data@ == spec_encode_packet(*packet),
    {
        let h = &packet.header;
        let mut data: Vec<u8> = Vec::new();
        data.push(h.packet_type.to_byte());
        append_bytes(&mut data, h.src_id.as_slice());
        append_bytes(&mut data, h.dst_id.as_slice());
        data.push(h.hop_count);
        data.push(h.ttl);
        let id_bytes = u32_to_le_bytes(h.packet_id);
        append_bytes(&mut data, id_bytes.as_slice());
        let ts_bytes = u64_to_le_bytes(h.timestamp);
        append_bytes(&mut data, ts_bytes.as_slice());
        let len_bytes = u16_to_le_bytes(h.payload_len);
        append_bytes(&mut data, len_bytes.as_slice());
        append_bytes(&mut data, packet.payload.as_slice());
        assert(data@ =~= spec_encode_packet(*packet));
        data
    }

    /// Encodes a packet (see `encode_packet_static`).
    pub fn encode_packet(&self, packet: &LoRaPacket) -> (data: Vec<u8>)
        ensures
            data@ == spec_encode_packet(*packet),
    {
        Self::encode_packet_static(packet)
    }

    /// The decoder reads `data` without running past its end (see `decode_overruns`).
    pub fn decode_in_bounds(data: &[u8]) -> (ok: bool)
        ensures
            ok == !decode_overruns(data@),
    {
        if data.len() < MIN_FRAME_LEN || data[0] < 0x01 || data[0] > 0x07 {
            return true;
        }
        if data.len() < HEADER_LEN {
            return false;
        }
        let len = u16_from_le_bytes(slice_to_vec(data, 47, 49).as_slice());
        (HEADER_LEN + len as usize) <= data.len()
    }

    /// Decodes a frame. Frames shorter than `MIN_FRAME_LEN` bytes and frames with
    /// an unknown type byte give `None`; any other frame gives the packet read
    /// from it field by field.
    pub fn decode_packet(data: &[u8]) -> (r: Option<LoRaPacket>)
        requires
            !decode_overruns(data@),
        ensures
            r is Some <==> decode_accepts(data@),
            r matches Some(p) ==> decoded_from(p, data@),
    {
        if data.len() < MIN_FRAME_LEN {
            return None;
        }
        let packet_type = match LoRaPacketType::from_byte(data[0]) {
            Some(t) => t,
            None => return None,
        };
        let src_id = array16_at(data, 1);
        let dst_id = array16_at(data, 17);
        let hop_count = data[33];
        let ttl = data[34];
        let packet_id = u32_from_le_bytes(slice_to_vec(data, 35, 39).as_slice());
        let timestamp = u64_from_le_bytes(slice_to_vec(data, 39, 47).as_slice());
        let payload_len = u16_from_le_bytes(slice_to_vec(data, 47, 49).as_slice());
        let payload = slice_to_vec(data, HEADER_LEN, HEADER_LEN + payload_len as usize);
        Some(
            LoRaPacket {
                header: LoRaHeader {
                    packet_type,
                    src_id,
                    dst_id,
                    hop_count,
                    ttl,
                    packet_id,
                    timestamp,
                    payload_len,
                },
                payload,
            },
        )
    }

    /// Index of the first route for `dst_id`.
    fn route_index(&self, dst_id: &[u8; 16]) -> (r: Option<usize>)
        ensures
            r is Some <==> spec_next_hop(self.routes(), dst_id@) is Some,
            r matches Some(k) ==> k == first_route_index(self.routes(), dst_id@) && k
                < self.routes().len(),
    {
        let mut i: usize = 0;
        while i < self.routing_table.len()
            invariant
                i <= self.routing_table@.len(),
                forall|j: int| 0 <= j < i ==> #[trigger] self.routing_table@[j].destination@ != dst_id@,
            decreases self.routing_table@.len() - i,
        {
            if bytes_equal(self.routing_table[i].destination.as_slice(), dst_id.as_slice()) {
                proof {
                    lemma_first_route(self.routing_table@, dst_id@);
                    let k = first_route_index(self.routing_table@, dst_id@);
                    assert(self.routing_table@[i as int].destination@ == dst_id@);
                    if k < i {
                        assert(self.routing_table@[k].destination@ != dst_id@);
                    }
                    if i < k {
                        assert(self.routing_table@[i as int].destination@ != dst_id@);
                    }
                }
                return Some(i);
            }
            i = i + 1;
        }
        proof {
            lemma_first_route(self.routing_table@, dst_id@);
        }
        None
    }

    /// The next hop of the first route for `dst_id`.
    pub fn find_next_hop(&self, dst_id: &[u8; 16]) -> (r: Option<[u8; 16]>)
        ensures
            r is Some <==> spec_next_hop(self.routes(), dst_id@) is Some,
            r matches Some(h) ==> spec_next_hop(self.routes(), dst_id@) == Some(h@),
    {
        proof {
            lemma_first_route(self.routing_table@, dst_id@);
        }
        match self.route_index(dst_id) {
            Some(k) => Some(self.routing_table[k].next_hop),
            None => None,
        }
    }

    /// Records a route to `src_id` through `next_hop`. An existing route to
    /// `src_id` (the first one) is updated in place; otherwise a route is added,
    /// and when the table then holds more than `ROUTING_TABLE_SIZE` routes it is
    /// ordered by `last_seen` and its oldest route dropped.
    pub fn update_routing_table(&mut self, src_id: [u8; 16], next_hop: [u8; 16], hops: u8, now: u64)
        ensures
            final(self).node_id_spec() == old(self).node_id_spec(),
            final(self).buffered() == old(self).buffered(),
            final(self).inbox() == old(self).inbox(),
            spec_next_hop(old(self).routes(), src_id@) is Some ==> {
                let k = first_route_index(old(self).routes(), src_id@);
                &&& final(self).routes().len() == old(self).routes().len()
                &&& forall|j: int|
                    0 <= j < old(self).routes().len() && j != k ==> #[trigger] final(self).routes()[j]
                        == old(self).routes()[j]
                &&& final(self).routes()[k].destination == old(self).routes()[k].destination
                &&& final(self).routes()[k].next_hop == next_hop
                &&& final(self).routes()[k].hops == hops
                &&& final(self).routes()[k].last_seen == now
            },
            spec_next_hop(old(self).routes(), src_id@) is None ==> {
                let pushed = old(self).routes().push(
                    RouteEntry { destination: src_id, next_hop, hops, last_seen: now },
                );
                &&& pushed.len() <= ROUTING_TABLE_SIZE ==> final(self).routes() == pushed
                &&& pushed.len() > ROUTING_TABLE_SIZE ==> final(self).routes() == sort_by_last_seen(
                    pushed,
                ).drop_first()
            },
    {
        match self.route_index(&src_id) {
            Some(k) => {
                let mut entry = self.routing_table[k];
                entry.next_hop = next_hop;
                entry.hops = hops;
                entry.last_seen = now;
                self.routing_table.set(k, entry);
            },
            None => {
                self.routing_table.push(
                    RouteEntry { destination: src_id, next_hop, hops, last_seen: now },
                );
                if self.routing_table.len() > ROUTING_TABLE_SIZE {
                    let mut sorted = sort_routes(&self.routing_table);
                    proof {
                        lemma_sort_len(self.routing_table@);
                    }
                    let ghost full = sorted@;
                    sorted.remove(0);
                    assert(sorted@ =~= full.drop_first());
                    self.routing_table = sorted;
                }
            },
        }
    }

    /// Relays a packet that is not for this node: the hop count goes up by one and
    /// the time to live down by one; a packet whose time to live reaches zero, or
    /// one addressed to this node, is dropped; any other is queued for sending at
    /// `now` with no retries yet.
    pub fn forward_packet(&mut self, packet: &LoRaPacket, now: u64)
        requires
            packet.header.hop_count < 255,
            packet.header.ttl > 0,
        ensures
            final(self).node_id_spec() == old(self).node_id_spec(),
            final(self).routes() == old(self).routes(),
            final(self).inbox() == old(self).inbox(),
            (packet.header.ttl == 1 || packet.header.dst_id@ == old(self).node_id_spec())
                ==> final(self).buffered() == old(self).buffered(),
            !(packet.header.ttl == 1 || packet.header.dst_id@ == old(self).node_id_spec()) ==> {
                let b = final(self).buffered().last();
                &&& final(self).buffered().len() == old(self).buffered().len() + 1
                &&& final(self).buffered().drop_last() == old(self).buffered()
                &&& b.retry_count == 0
                &&& b.next_retry == now
                &&& b.packet.header == (LoRaHeader {
                    hop_count: (packet.header.hop_count + 1) as u8,
                    ttl: (packet.header.ttl - 1) as u8,
                    ..packet.header
                })
                &&& b.packet.payload@ == packet.payload@
            },
    {
        let mut header = packet.header;
        header.hop_count = header.hop_count + 1;
        header.ttl = header.ttl - 1;
        if header.ttl == 0 {
            return;
        }
        if !bytes_equal(header.dst_id.as_slice(), self.node_id.as_slice()) {
            let new_packet = LoRaPacket { header, payload: bytes_to_vec(packet.payload.as_slice()) };
            let ghost before = self.packet_buffer@;
            self.packet_buffer.push_back(
                BufferedPacket { packet: new_packet, retry_count: 0, next_retry: now },
            );
            assert(self.packet_buffer@.drop_last() =~= before);
        }
    }

    /// Handles a frame read from the radio: a frame the decoder refuses changes
    /// nothing; otherwise a route to the sender (through the sender, one hop more
    /// than the packet travelled, seen at `now`) is appended, and the packet is
    /// kept for this node when addressed to it, else queued for relaying at `now`.
    pub fn handle_frame(&mut self, frame: &[u8], now: u64)
        requires
            !decode_overruns(frame@),
            decode_accepts(frame@) ==> frame@[33] < 255,
        ensures
            final(self).node_id_spec() == old(self).node_id_spec(),
            !decode_accepts(frame@) ==> {
                &&& final(self).routes() == old(self).routes()
                &&& final(self).inbox() == old(self).inbox()
                &&& final(self).buffered() == old(self).buffered()
            },
            decode_accepts(frame@) ==> {
                let r = final(self).routes().last();
                &&& final(self).routes().len() == old(self).routes().len() + 1
                &&& final(self).routes().drop_last() == old(self).routes()
                &&& r.destination@ == frame@.subrange(1, 17)
                &&& r.next_hop@ == frame@.subrange(1, 17)
                &&& r.hops == frame@[33] + 1
                &&& r.last_seen == now
            },
            decode_accepts(frame@) && frame@.subrange(17, 33) == old(self).node_id_spec() ==> {
                &&& final(self).inbox().len() == old(self).inbox().len() + 1
                &&& final(self).inbox().drop_last() == old(self).inbox()
                &&& decoded_from(final(self).inbox().last(), frame@)
                &&& final(self).buffered() == old(self).buffered()
            },
            decode_accepts(frame@) && frame@.subrange(17, 33) != old(self).node_id_spec() ==> {
                let b = final(self).buffered().last();
                &&& final(self).buffered().len() == old(self).buffered().len() + 1
                &&& final(self).buffered().drop_last() == old(self).buffered()
                &&& decoded_from(b.packet, frame@)
                &&& b.retry_count == 0
                &&& b.next_retry == now
                &&& final(self).inbox() == old(self).inbox()
            },
    {
        match Self::decode_packet(frame) {
            Some(packet) => {
                let ghost old_routes = self.routing_table@;
                self.routing_table.push(
                    RouteEntry {
                        destination: packet.header.src_id,
                        next_hop: packet.header.src_id,
                        hops: packet.header.hop_count + 1,
                        last_seen: now,
                    },
                );
                assert(self.routing_table@.drop_last() =~= old_routes);
                if bytes_equal(packet.header.dst_id.as_slice(), self.node_id.as_slice()) {
                    let ghost before = self.received_packets@;
                    self.received_packets.push(packet);
                    assert(self.received_packets@.drop_last() =~= before);
                } else {
                    let ghost before = self.packet_buffer@;
                    self.packet_buffer.push_back(
                        BufferedPacket { packet, retry_count: 0, next_retry: now },
                    );
                    assert(self.packet_buffer@.drop_last() =~= before);
                }
            },
            None => {},
        }
    }

    /// Takes out of the retransmission queue, in order, the packets due at `now`
    /// (those whose `next_retry` is not later); the others stay queued, in order,
    /// for a later round.
    pub fn take_due_packets(&mut self, now: u64) -> (due: Vec<BufferedPacket>)
        ensures
            due@ == due_packets(old(self).buffered(), now),
            final(self).buffered() == waiting_packets(old(self).buffered(), now),
            final(self).routes() == old(self).routes(),
            final(self).inbox() == old(self).inbox(),
            final(self).node_id_spec() == old(self).node_id_spec(),
    {
        let ghost all = self.packet_buffer@;
        let total = self.packet_buffer.len();
        assert(all.len() == total);
        assert(all.take(0) =~= Seq::<BufferedPacket>::empty());
        assert(all.skip(0) =~= all);
        let mut due: Vec<BufferedPacket> = Vec::new();
        let mut waiting: VecDeque<BufferedPacket> = VecDeque::new();
        let mut i: usize = 0;
        while self.packet_buffer.len() > 0
            invariant
                i <= all.len(),
                all.len() == total,
                self.packet_buffer@ == all.skip(i as int),
                due@ == due_packets(all.take(i as int), now),
                waiting@ == waiting_packets(all.take(i as int), now),
                self.routing_table@ == old(self).routing_table@,
                self.received_packets@ == old(self).received_packets@,
                self.node_id == old(self).node_id,
            decreases self.packet_buffer@.len(),
        {
            let b = self.packet_buffer.pop_front().unwrap();
            proof {
                assert(b == all[i as int]);
                assert(all.take(i + 1).drop_last() =~= all.take(i as int));
                assert(all.skip(i + 1) =~= all.skip(i as int).drop_first());
            }
            if b.next_retry <= now {
                due.push(b);
            } else {
                waiting.push_back(b);
            }
            i = i + 1;
        }
        assert(all.take(i as int) =~= all);
        self.packet_buffer = waiting;
        due
    }

    /// Puts back a packet whose write failed: with fewer than `MAX_RETRIES` tries
    /// so far it is queued again with one more try counted and its next try
    /// `2^tries` seconds after `now`; otherwise it is dropped.
    pub fn reschedule_failed(&mut self, buffered: BufferedPacket, now: u64)
        requires
            buffered.retry_count < MAX_RETRIES ==> now + backoff_secs((buffered.retry_count + 1) as u8)
                <= u64::MAX,
        ensures
            final(self).routes() == old(self).routes(),
            final(self).inbox() == old(self).inbox(),
            final(self).node_id_spec() == old(self).node_id_spec(),
            buffered.retry_count >= MAX_RETRIES ==> final(self).buffered() == old(self).buffered(),
            buffered.retry_count < MAX_RETRIES ==> {
                let b = final(self).buffered().last();
                &&& final(self).buffered().len() == old(self).buffered().len() + 1
                &&& final(self).buffered().drop_last() == old(self).buffered()
                &&& b.retry_count == buffered.retry_count + 1
                &&& b.next_retry == now + backoff_secs((buffered.retry_count + 1) as u8)
                &&& b.packet == buffered.packet
            },
    {
        if buffered.retry_count < MAX_RETRIES {
            let mut b = buffered;
            b.retry_count = b.retry_count + 1;
            let k = b.retry_count;
            assert(1u64 << k <= 8) by (bit_vector)
                requires
                    1 <= k <= 3,
            ;
            b.next_retry = now + (1u64 << k);
            let ghost before = self.packet_buffer@;
            self.packet_buffer.push_back(b);
            assert(self.packet_buffer@.drop_last() =~= before);
        }
    }

    /// Prepares a data packet to `dst_id`: payloads that would make the frame longer
    /// than `MAX_PACKET_SIZE` (over `MAX_PACKET_SIZE - HEADER_LEN` bytes) are refused; otherwise the packet (type `Data`, hop count 0, time to
    /// live `MESH_HOPS_MAX`, the next packet id, timestamp `now`) is encoded and
    /// returned with the node it goes to first: the route's next hop, or `dst_id`
    /// itself when there is no route.
    pub fn send(&mut self, dst_id: [u8; 16], data: &[u8], now: u64) -> (r: Result<
        (Vec<u8>, [u8; 16]),
        String,
    >)
        ensures
            r is Err <==> data@.len() > MAX_PACKET_SIZE - HEADER_LEN,
            r matches Err(e) ==> e@ == "Data too large for LoRa packet"@,
            r is Ok ==> final(self).next_id_spec() == old(self).next_id_spec().wrapping_add(1),
            r is Err ==> final(self).next_id_spec() == old(self).next_id_spec(),
            r matches Ok((frame, target)) ==> frame@.len() <= MAX_PACKET_SIZE,
            r matches Ok((frame, target)) ==> {
                &&& frame@ == spec_encode_fields(
                    LoRaPacketType::Data,
                    old(self).node_id_spec(),
                    dst_id@,
                    0,
                    MESH_HOPS_MAX,
                    old(self).next_id_spec(),
                    now,
                    data@.len() as u16,
                ) + data@
                &&& target@ == match spec_next_hop(old(self).routes(), dst_id@) {
                    Some(h) => h,
                    None => dst_id@,
                }
            },
            final(self).routes() == old(self).routes(),
            final(self).buffered() == old(self).buffered(),
            final(self).inbox() == old(self).inbox(),
            final(self).node_id_spec() == old(self).node_id_spec(),
            final(self).is_running_spec() == old(self).is_running_spec(),
    {
        if data.len() > MAX_PACKET_SIZE - HEADER_LEN {
            return Err("Data too large for LoRa packet".to_string());
        }
        let next_hop = self.find_next_hop(&dst_id);
        let header = LoRaHeader {
            packet_type: LoRaPacketType::Data,
            src_id: self.node_id,
            dst_id,
            hop_count: 0,
            ttl: MESH_HOPS_MAX,
            packet_id: self.next_packet_id(),
            timestamp: now,
            payload_len: data.len() as u16,
        };
        let packet = LoRaPacket { header, payload: bytes_to_vec(data) };
        let target = match next_hop {
            Some(next) => next,
            None => dst_id,
        };
        let frame = Self::encode_packet_static(&packet);
        proof {
            vstd::bytes::lemma_auto_spec_u16_to_from_le_bytes();
            vstd::bytes::lemma_auto_spec_u32_to_from_le_bytes();
            vstd::bytes::lemma_auto_spec_u64_to_from_le_bytes();
            assert(spec_u32_to_le_bytes(packet.header.packet_id).len() == 4);
            assert(spec_u64_to_le_bytes(packet.header.timestamp).len() == 8);
            assert(spec_u16_to_le_bytes(packet.header.payload_len).len() == 2);
        }
        Ok((frame, target))
    }

    /// Prepares a data packet to every node (the all-zero id).
    pub fn broadcast(&mut self, data: &[u8], now: u64) -> (r: Result<(Vec<u8>, [u8; 16]), String>)
        ensures
            r is Err <==> data@.len() > MAX_PACKET_SIZE - HEADER_LEN,
            r matches Ok((frame, target)) ==> frame@.len() <= MAX_PACKET_SIZE,
            r matches Err(e) ==> e@ == "Data too large for LoRa packet"@,
            r matches Ok((frame, target)) ==> {
                &&& frame@ == spec_encode_fields(
                    LoRaPacketType::Data,
                    old(self).node_id_spec(),
                    broadcast_id(),
                    0,
                    MESH_HOPS_MAX,
                    old(self).next_id_spec(),
                    now,
                    data@.len() as u16,
                ) + data@
                &&& target@ == match spec_next_hop(old(self).routes(), broadcast_id()) {
                    Some(h) => h,
                    None => broadcast_id(),
                }
            },
            final(self).routes() == old(self).routes(),
            final(self).inbox() == old(self).inbox(),
    {
        let zero_id = [0u8; 16];
        assert(zero_id@ =~= broadcast_id());
        self.send(zero_id, data, now)
    }

    /// Takes every packet received for this node, leaving none.
    pub fn receive_all(&mut self) -> (packets: Vec<LoRaPacket>)
        ensures
            packets@ == old(self).inbox(),
            final(self).inbox().len() == 0,
            final(self).routes() == old(self).routes(),
            final(self).buffered() == old(self).buffered(),
            final(self).node_id_spec() == old(self).node_id_spec(),
    {
        let mut out: Vec<LoRaPacket> = Vec::new();
        std::mem::swap(&mut out, &mut self.received_packets);
        out
    }
}

impl Default for LoraTransport {
    fn default() -> (t: Self)
        ensures
            t.node_id_spec() == Seq::new(16, |i: int| 0u8),
            t.routes().len() == 0,
            !t.is_running_spec(),
    {
        let t = Self::new([0u8; 16]);
        assert(t.node_id_spec() =~= Seq::new(16, |i: int| 0u8));
        t
    }
}

/// An encoded packet reads back field by field: the type byte (byte 0), the
/// source id (1..17), the destination id (17..33), the hop count (33), the time
/// to live (34), the packet id (35..39), the timestamp (39..47) and the payload
/// length (47..49), all little-endian, then the payload.
pub proof fn lemma_packet_fields(p: LoRaPacket)
    ensures
        spec_encode_packet(p).len() == HEADER_LEN + p.payload@.len(),
        spec_encode_packet(p)[0] == packet_type_byte(p.header.packet_type),
        spec_encode_packet(p).subrange(1, 17) == p.header.src_id@,
        spec_encode_packet(p).subrange(17, 33) == p.header.dst_id@,
        spec_encode_packet(p)[33] == p.header.hop_count,
        spec_encode_packet(p)[34] == p.header.ttl,
        spec_u32_from_le_bytes(spec_encode_packet(p).subrange(35, 39)) == p.header.packet_id,
        spec_u64_from_le_bytes(spec_encode_packet(p).subrange(39, 47)) == p.header.timestamp,
        spec_u16_from_le_bytes(spec_encode_packet(p).subrange(47, 49)) == p.header.payload_len,
        spec_encode_packet(p).skip(HEADER_LEN as int) == p.payload@,
{
    vstd::bytes::lemma_auto_spec_u16_to_from_le_bytes();
    vstd::bytes::lemma_auto_spec_u32_to_from_le_bytes();
    vstd::bytes::lemma_auto_spec_u64_to_from_le_bytes();
    let h = p.header;
    let d = spec_encode_packet(p);
    let a = spec_u32_to_le_bytes(h.packet_id);
    let b = spec_u64_to_le_bytes(h.timestamp);
    let c = spec_u16_to_le_bytes(h.payload_len);
    assert(a.len() == 4 && b.len() == 8 && c.len() == 2);
    assert(d.subrange(1, 17) =~= h.src_id@);
    assert(d.subrange(17, 33) =~= h.dst_id@);
    assert(d.subrange(35, 39) =~= a);
    assert(d.subrange(39, 47) =~= b);
    assert(d.subrange(47, 49) =~= c);
    assert(d.skip(HEADER_LEN as int) =~= p.payload@);
}

} // verus!
