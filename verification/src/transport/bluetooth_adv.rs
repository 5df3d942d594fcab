//! Data carried in Bluetooth LE advertisements, as manufacturer-specific data.
//! This module builds the advertised bytes, reads payloads back out of what a
//! scan reports and puts fragments together; the radio is driven by the caller.

use vstd::prelude::*;
use crate::transport::fragments::{
    assemble_parts, fragment_count, payload_views, spec_assemble, spec_fragment, split_fragments,
};
use crate::wire::slice_to_vec;

verus! {

/// Manufacturer id under which the payload is advertised.
pub const MANUFACTURER_ID: u16 = 0x094E;
/// Service UUID announced with the advertisement.
pub const SERVICE_UUID: u128 = 0x4e5f5c4b_4a494e45_52544941_00000000;
/// Largest payload of one advertisement, in bytes.
pub const MAX_ADV_PAYLOAD: usize = 31;
/// Weakest signal (dBm, exclusive) a scan accepts.
pub const MIN_RSSI: i16 = -90;

/// The advertised manufacturer data for `payload`: the manufacturer id
/// (little-endian), the payload length, the payload cut to `MAX_ADV_PAYLOAD`.
pub open spec fn spec_adv_data(payload: Seq<u8>) -> Seq<u8> {
    let safe = if payload.len() > MAX_ADV_PAYLOAD {
        payload.take(MAX_ADV_PAYLOAD as int)
    } else {
        payload
    };
    seq![0x4Eu8, 0x09u8, safe.len() as u8] + safe
}

/// The payload one data block holds: a length byte, then that many bytes;
/// `None` when the block has no byte after the length or is shorter than it says.
pub open spec fn spec_block_payload(data: Seq<u8>) -> Option<Seq<u8>> {
    if data.len() > 1 && data[0] as int <= data.len() - 1 {
        Some(data.subrange(1, 1 + data[0] as int))
    } else {
        None
    }
}

/// The payload of the first entry with id `id` whose block holds one.
pub open spec fn spec_first_payload<K>(entries: Seq<(K, Seq<u8>)>, id: K) -> Option<Seq<u8>>
    decreases entries.len(),
{
    if entries.len() == 0 {
        None
    } else if entries[0].0 == id && spec_block_payload(entries[0].1) is Some {
        spec_block_payload(entries[0].1)
    } else {
        spec_first_payload(entries.drop_first(), id)
    }
}

/// The payload read from a block has exactly the length its length byte states,
/// and is the bytes that follow that byte; a block long enough for its length
/// byte always gives a payload.
pub proof fn lemma_block_payload(data: Seq<u8>)
    ensures
        spec_block_payload(data) matches Some(p) ==> {
            &&& p.len() == data[0] as int
            &&& forall|i: int| 0 <= i < p.len() ==> #[trigger] p[i] == data[i + 1]
        },
        data.len() > 1 && (data[0] as int) < data.len() ==> spec_block_payload(data) is Some,
{
}

/// Reading back what is advertised for a payload of 1 to `MAX_ADV_PAYLOAD` bytes
/// (the data after the manufacturer id) gives the payload, also as the first
/// Inertia entry of a device's manufacturer data.
pub proof fn lemma_adv_round_trip(payload: Seq<u8>)
    requires
        0 < payload.len() <= MAX_ADV_PAYLOAD,
    ensures
        spec_block_payload(spec_adv_data(payload).skip(2)) == Some(payload),
        spec_first_payload(seq![(MANUFACTURER_ID, spec_adv_data(payload).skip(2))], MANUFACTURER_ID)
            == Some(payload),
{
    let b = spec_adv_data(payload).skip(2);
    assert(b =~= seq![payload.len() as u8] + payload);
    assert(b.subrange(1, 1 + b[0] as int) =~= payload);
}

/// The views of a list of (key, bytes) entries.
pub open spec fn entry_views<K>(v: Seq<(K, Vec<u8>)>) -> Seq<(K, Seq<u8>)> {
    v.map_values(|e: (K, Vec<u8>)| (e.0, e.1@))
}

/// The payload of one data block (see `spec_block_payload`).
fn block_payload(data: &Vec<u8>) -> (r: Option<Vec<u8>>)
    ensures
        r is Some <==> spec_block_payload(data@) is Some,
        r matches Some(v) ==> spec_block_payload(data@) == Some(v@),
{
    if data.len() > 1 {
        let len = data[0] as usize;
        if len <= data.len() - 1 {
            return Some(slice_to_vec(data.as_slice(), 1, 1 + len));
        }
    }
    None
}

/// The payload of the first manufacturer-data entry from `MANUFACTURER_ID` whose
/// block holds one.
fn first_manufacturer_payload(entries: &Vec<(u16, Vec<u8>)>) -> (r: Option<Vec<u8>>)
    ensures
        r is Some <==> spec_first_payload(entry_views(entries@), MANUFACTURER_ID) is Some,
        r matches Some(v) ==> spec_first_payload(entry_views(entries@), MANUFACTURER_ID) == Some(v@),
{
    let ghost ev = entry_views(entries@);
    let mut i: usize = 0;
    assert(ev.skip(0) =~= ev);
    while i < entries.len()
        invariant
            i <= entries@.len(),
            ev == entry_views(entries@),
            spec_first_payload(ev, MANUFACTURER_ID) == spec_first_payload(ev.skip(i as int), MANUFACTURER_ID),
        decreases entries@.len() - i,
    {
        let ghost rest = ev.skip(i as int);
        assert(rest[0] == (entries@[i as int].0, entries@[i as int].1@));
        assert(rest.drop_first() =~= ev.skip(i + 1));
        if entries[i].0 == MANUFACTURER_ID {
            let p = block_payload(&entries[i].1);
            if p.is_some() {
                return p;
            }
        }
        i = i + 1;
    }
    None
}

/// The payload of the first service-data entry for `SERVICE_UUID` whose block
/// holds one.
fn first_service_payload(entries: &Vec<(u128, Vec<u8>)>) -> (r: Option<Vec<u8>>)
    ensures
        r is Some <==> spec_first_payload(entry_views(entries@), SERVICE_UUID) is Some,
        r matches Some(v) ==> spec_first_payload(entry_views(entries@), SERVICE_UUID) == Some(v@),
{
    let ghost ev = entry_views(entries@);
    let mut i: usize = 0;
    assert(ev.skip(0) =~= ev);
    while i < entries.len()
        invariant
            i <= entries@.len(),
            ev == entry_views(entries@),
            spec_first_payload(ev, SERVICE_UUID) == spec_first_payload(ev.skip(i as int), SERVICE_UUID),
        decreases entries@.len() - i,
    {
        let ghost rest = ev.skip(i as int);
        assert(rest[0] == (entries@[i as int].0, entries@[i as int].1@));
        assert(rest.drop_first() =~= ev.skip(i + 1));
        if entries[i].0 == SERVICE_UUID {
            let p = block_payload(&entries[i].1);
            if p.is_some() {
                return p;
            }
        }
        i = i + 1;
    }
    None
}

/// The parts are safe to order by their first byte: with two or more parts,
/// every part has one.
pub open spec fn parts_orderable(parts: Seq<Seq<u8>>) -> bool {
    parts.len() >= 2 ==> forall|i: int| 0 <= i < parts.len() ==> (#[trigger] parts[i]).len() > 0
}

/// Bluetooth LE advertising transport.
pub struct BluetoothAdv;

impl BluetoothAdv {
    /// A transport with no adapter attached.
    pub fn new() -> (b: Self) {
        BluetoothAdv
    }

    /// The manufacturer data that carries `payload` (see `spec_adv_data`); an
    /// empty payload is refused.
    pub fn broadcast(&self, payload: &[u8]) -> (r: Result<Vec<u8>, String>)
        ensures
            r is Err <==> payload@.len() == 0,
            r matches Err(e) ==> e@ == "Empty payload"@,
            r matches Ok(data) ==> data@ == spec_adv_data(payload@),
    {
        if payload.len() == 0 {
            return Err("Empty payload".to_string());
        }
        let end = if payload.len() > MAX_ADV_PAYLOAD {
            MAX_ADV_PAYLOAD
        } else {
            payload.len()
        };
        let safe = slice_to_vec(payload, 0, end);
        let mut data: Vec<u8> = Vec::new();
        data.push(0x4Eu8);
        data.push(0x09u8);
        data.push(end as u8);
        let mut i: usize = 0;
        while i < safe.len()
            invariant
                i <= safe@.len(),
                data@ == seq![0x4Eu8, 0x09u8, end as u8] + safe@.take(i as int),
            decreases safe@.len() - i,
        {
            data.push(safe[i]);
            assert(safe@.take(i + 1) =~= safe@.take(i as int).push(safe@[i as int]));
            i = i + 1;
        }
        assert(safe@.take(i as int) =~= safe@);
        proof {
            if payload@.len() > MAX_ADV_PAYLOAD {
                assert(safe@ =~= payload@.take(MAX_ADV_PAYLOAD as int));
            } else {
                assert(safe@ =~= payload@);
            }
        }
        Ok(data)
    }

    /// The manufacturer data for a payload of any length: it is cut into
    /// fragments of `MAX_ADV_PAYLOAD - 1` bytes, each behind its number (mod 256).
    pub fn broadcast_fragmented(&self, payload: &[u8]) -> (r: Vec<Result<Vec<u8>, String>>)
        ensures
            r@.len() == fragment_count(payload@.len(), (MAX_ADV_PAYLOAD - 1) as nat),
            forall|i: int|
                0 <= i < r@.len() ==> ((#[trigger] r@[i]) matches Ok(data) && data@ == spec_adv_data(
                    spec_fragment(payload@, i, (MAX_ADV_PAYLOAD - 1) as nat),
                )),
    {
        let chunk_size = MAX_ADV_PAYLOAD - 1;
        let frags = split_fragments(payload, chunk_size);
        assert(frags@.len() == payload_views(frags@).len());
        let mut out: Vec<Result<Vec<u8>, String>> = Vec::new();
        let mut i: usize = 0;
        while i < frags.len()
            invariant
                i <= frags@.len(),
                chunk_size == MAX_ADV_PAYLOAD - 1,
                payload_views(frags@) == crate::transport::fragments::spec_fragments(
                    payload@,
                    chunk_size as nat,
                ),
                out@.len() == i,
                forall|t: int|
                    0 <= t < i ==> ((#[trigger] out@[t]) matches Ok(data) && data@ == spec_adv_data(
                        spec_fragment(payload@, t, chunk_size as nat),
                    )),
            decreases frags@.len() - i,
        {
            let ghost fr = crate::transport::fragments::spec_fragments(payload@, chunk_size as nat);
            assert(payload_views(frags@).len() == frags@.len());
            assert(fr[i as int] == spec_fragment(payload@, i as int, chunk_size as nat));
            assert(frags@[i as int]@ == payload_views(frags@)[i as int]);
            let r = self.broadcast(frags[i].as_slice());
            out.push(r);
            assert(out@[i as int] == r);
            i = i + 1;
        }
        out
    }

    /// The payload advertised in a device's manufacturer data: the first entry
    /// from `MANUFACTURER_ID` whose block is a length byte and at least that many
    /// bytes.
    pub fn extract_inertia_data(manufacturer_data: &Vec<(u16, Vec<u8>)>) -> (r: Option<Vec<u8>>)
        ensures
            r is Some <==> spec_first_payload(entry_views(manufacturer_data@), MANUFACTURER_ID) is Some,
            r matches Some(v) ==> spec_first_payload(entry_views(manufacturer_data@), MANUFACTURER_ID)
                == Some(v@),
    {
        first_manufacturer_payload(manufacturer_data)
    }

    /// The payload found in a peripheral's properties: in its manufacturer data
    /// first, then in its service data for `SERVICE_UUID`.
    pub fn extract_inertia_data_from_properties(
        manufacturer_data: &Vec<(u16, Vec<u8>)>,
        service_data: &Vec<(u128, Vec<u8>)>,
    ) -> (r: Option<Vec<u8>>)
        ensures
            ({
                let m = spec_first_payload(entry_views(manufacturer_data@), MANUFACTURER_ID);
                let s = spec_first_payload(entry_views(service_data@), SERVICE_UUID);
                &&& r is Some <==> (m is Some || s is Some)
                &&& m is Some ==> (r matches Some(v) && m == Some(v@))
                &&& m is None ==> (r matches Some(v) ==> s == Some(v@))
            }),
    {
        let m = first_manufacturer_payload(manufacturer_data);
        if m.is_some() {
            return m;
        }
        first_service_payload(service_data)
    }

    /// What a scan keeps of one device: the payload in its manufacturer data, if
    /// its signal is stronger than `MIN_RSSI` dBm; nothing when no signal
    /// strength is known.
    pub fn spore_from_device(rssi: Option<i16>, manufacturer_data: &Vec<(u16, Vec<u8>)>) -> (r: Option<
        Vec<u8>,
    >)
        ensures
            (rssi is None || rssi.unwrap() <= MIN_RSSI) ==> r is None,
            (rssi matches Some(x) && x > MIN_RSSI) ==> ({
                let m = spec_first_payload(entry_views(manufacturer_data@), MANUFACTURER_ID);
                &&& r is Some <==> m is Some
                &&& r matches Some(v) ==> m == Some(v@)
            }),
    {
        match rssi {
            Some(x) => {
                if x > MIN_RSSI {
                    Self::extract_inertia_data(manufacturer_data)
                } else {
                    None
                }
            },
            None => None,
        }
    }

    /// Puts fragments together: none gives nothing; otherwise one payload, the
    /// fragments ordered by their first byte (equal numbers keep their order),
    /// stripped of it and joined.
    pub fn assemble_fragments(fragments: Vec<Vec<u8>>) -> (r: Vec<Vec<u8>>)
        requires
            parts_orderable(payload_views(fragments@)),
        ensures
            fragments@.len() == 0 ==> r@.len() == 0,
            fragments@.len() > 0 ==> r@.len() == 1 && r@[0]@ == spec_assemble(
                payload_views(fragments@),
            ),
    {
        if fragments.len() == 0 {
            return Vec::new();
        }
        let result = assemble_parts(&fragments);
        let mut out: Vec<Vec<u8>> = Vec::new();
        out.push(result);
        out
    }
}

impl Default for BluetoothAdv {
    fn default() -> (b: Self) {
        BluetoothAdv::new()
    }
}

/// Advertised data starts with the manufacturer id, low byte first, then the
/// payload length, and is at most `MAX_ADV_PAYLOAD + 3` bytes; the payload is cut
/// at the end.
pub proof fn lemma_adv_data_fields(payload: Seq<u8>)
    ensures
        spec_adv_data(payload)[0] as int == MANUFACTURER_ID as int % 256,
        spec_adv_data(payload)[1] as int == MANUFACTURER_ID as int / 256,
        spec_adv_data(payload).len() <= MAX_ADV_PAYLOAD + 3,
        spec_adv_data(payload)[2] as int == spec_adv_data(payload).len() - 3,
        forall|i: int| 3 <= i < spec_adv_data(payload).len() ==> #[trigger] spec_adv_data(payload)[i] == payload[i - 3],
{
}

} // verus!
