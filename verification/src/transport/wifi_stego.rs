//! Data hidden in Wi-Fi network names: a payload travels as the base32 text of an
//! SSID that starts with `IN_`. This module computes the SSIDs to announce and
//! puts scanned payloads back together; setting and scanning SSIDs is the
//! caller's part.

use vstd::prelude::*;
use crate::encoding::{ascii_chars, base32_decode, base32_encode, base32_text, base32_parse};
use crate::transport::fragments::{
    assemble_parts, fragment_count, payload_views, spec_assemble, spec_fragment, split_fragments,
};

verus! {

/// Prefix of every SSID that carries data.
pub const SSID_PREFIX: &'static str = "IN_";
/// Longest SSID, in bytes.
pub const MAX_SSID_LEN: usize = 32;
/// Payload bytes per fragment.
pub const PAYLOAD_CHUNK_SIZE: usize = 20;

/// The ASCII bytes of the prefix.
pub open spec fn prefix_bytes() -> Seq<u8> {
    seq![73u8, 78u8, 95u8]
}

/// The prefix as characters.
pub open spec fn prefix_chars() -> Seq<char> {
    seq!['I', 'N', '_']
}

/// The SSID announced for `payload`: the prefix and the base32 text, cut to
/// `MAX_SSID_LEN` bytes.
pub open spec fn spec_ssid(payload: Seq<u8>) -> Seq<u8> {
    let full = prefix_bytes() + base32_text(payload);
    if full.len() > MAX_SSID_LEN {
        full.take(MAX_SSID_LEN as int)
    } else {
        full
    }
}

/// The payload an SSID carries: the base32 text after the prefix, decoded;
/// `None` for an SSID without the prefix or whose text does not decode.
pub open spec fn spec_ssid_payload(ssid: Seq<char>) -> Option<Seq<u8>> {
    if ssid.len() >= 3 && ssid.take(3) == prefix_chars() {
        base32_parse(ssid.skip(3))
    } else {
        None
    }
}

/// Steganographic transport over Wi-Fi network names.
pub struct WifiStego;

impl WifiStego {
    /// The SSID that carries one fragment: the prefix and the base32 text of the
    /// payload, cut to `MAX_SSID_LEN` bytes. An empty payload is refused.
    pub fn broadcast(payload: &[u8]) -> (r: Result<Vec<u8>, String>)
        ensures
            r is Err <==> payload@.len() == 0,
            r matches Err(e) ==> e@ == "Empty payload"@,
            r matches Ok(ssid) ==> ssid@ == spec_ssid(payload@),
    {
        if payload.len() == 0 {
            return Err("Empty payload".to_string());
        }
        let text = base32_encode(payload);
        let mut ssid: Vec<u8> = Vec::new();
        ssid.push(73u8);
        ssid.push(78u8);
        ssid.push(95u8);
        let mut i: usize = 0;
        while i < text.len() && ssid.len() < MAX_SSID_LEN
            invariant
                i <= text@.len(),
                text@ == base32_text(payload@),
                ssid@ == prefix_bytes() + text@.take(i as int),
                ssid@.len() == 3 + i,
                ssid@.len() <= MAX_SSID_LEN,
            decreases text@.len() - i,
        {
            ssid.push(text[i]);
            assert(text@.take(i + 1) =~= text@.take(i as int).push(text@[i as int]));
            i = i + 1;
        }
        proof {
            let full = prefix_bytes() + base32_text(payload@);
            if full.len() > MAX_SSID_LEN {
                assert(ssid@ =~= full.take(MAX_SSID_LEN as int));
            } else {
                assert(text@.take(i as int) =~= text@);
                assert(ssid@ =~= full);
            }
        }
        Ok(ssid)
    }

    /// The SSIDs for a payload of any length: it is cut into fragments of
    /// `PAYLOAD_CHUNK_SIZE` bytes, each sent behind its number (mod 256).
    pub fn broadcast_fragmented(payload: &[u8]) -> (r: Vec<Result<Vec<u8>, String>>)
        ensures
            r@.len() == fragment_count(payload@.len(), PAYLOAD_CHUNK_SIZE as nat),
            forall|i: int|
                0 <= i < r@.len() ==> ((#[trigger] r@[i]) matches Ok(ssid) && ssid@ == spec_ssid(
                    spec_fragment(payload@, i, PAYLOAD_CHUNK_SIZE as nat),
                )),
    {
        let frags = split_fragments(payload, PAYLOAD_CHUNK_SIZE);
        assert(frags@.len() == payload_views(frags@).len());
        let mut out: Vec<Result<Vec<u8>, String>> = Vec::new();
        let mut i: usize = 0;
        while i < frags.len()
            invariant
                i <= frags@.len(),
                payload_views(frags@) == crate::transport::fragments::spec_fragments(
                    payload@,
                    PAYLOAD_CHUNK_SIZE as nat,
                ),
                out@.len() == i,
                forall|t: int|
                    0 <= t < i ==> ((#[trigger] out@[t]) matches Ok(ssid) && ssid@ == spec_ssid(
                        spec_fragment(payload@, t, PAYLOAD_CHUNK_SIZE as nat),
                    )),
            decreases frags@.len() - i,
        {
            let ghost fr = crate::transport::fragments::spec_fragments(payload@, PAYLOAD_CHUNK_SIZE as nat);
            assert(payload_views(frags@).len() == frags@.len());
            assert(fr.len() == frags@.len());
            assert(fr[i as int] == spec_fragment(payload@, i as int, PAYLOAD_CHUNK_SIZE as nat));
            assert(frags@[i as int]@ == payload_views(frags@)[i as int]);
            assert(frags@[i as int]@ == spec_fragment(payload@, i as int, PAYLOAD_CHUNK_SIZE as nat));
            let r = Self::broadcast(frags[i].as_slice());
            out.push(r);
            assert(out@[i as int] == r);
            i = i + 1;
        }
        out
    }

    /// The payload an SSID carries (see `spec_ssid_payload`). An SSID announced
    /// by `broadcast` for a payload it did not cut short gives that payload back.
    pub fn ssid_payload(ssid: &str) -> (r: Option<Vec<u8>>)
        ensures
            r is Some <==> spec_ssid_payload(ssid@) is Some,
            r matches Some(v) ==> spec_ssid_payload(ssid@) == Some(v@),
            forall|x: Seq<u8>|
                ssid@ == ascii_chars(#[trigger] spec_ssid(x)) && prefix_bytes().len()
                    + base32_text(x).len() <= MAX_SSID_LEN ==> (r matches Some(v) && v@ == x),
    {
        let n = ssid.unicode_len();
        if n < 3 {
            return None;
        }
        if ssid.get_char(0) != 'I' || ssid.get_char(1) != 'N' || ssid.get_char(2) != '_' {
            proof {
                assert(ssid@.take(3) != prefix_chars()) by {
                    if ssid@.take(3) == prefix_chars() {
                        assert(ssid@.take(3)[0] == 'I');
                        assert(ssid@.take(3)[1] == 'N');
                        assert(ssid@.take(3)[2] == '_');
                    }
                }
                assert forall|x: Seq<u8>|
                    ssid@ == ascii_chars(#[trigger] spec_ssid(x)) implies prefix_bytes().len()
                        + base32_text(x).len() > MAX_SSID_LEN by {
                    if prefix_bytes().len() + base32_text(x).len() <= MAX_SSID_LEN {
                        assert(spec_ssid(x)[0] == 73u8);
                        assert(spec_ssid(x)[1] == 78u8);
                        assert(spec_ssid(x)[2] == 95u8);
                        assert(ssid@[0] == ascii_chars(spec_ssid(x))[0]);
                        assert(ssid@[1] == ascii_chars(spec_ssid(x))[1]);
                        assert(ssid@[2] == ascii_chars(spec_ssid(x))[2]);
                    }
                }
            }
            return None;
        }
        assert(ssid@.take(3) =~= prefix_chars());
        let rest = ssid.substring_char(3, n);
        let r = base32_decode(rest);
        proof {
            assert forall|x: Seq<u8>|
                ssid@ == ascii_chars(#[trigger] spec_ssid(x)) && prefix_bytes().len()
                    + base32_text(x).len() <= MAX_SSID_LEN implies (r matches Some(v) && v@ == x) by {
                let full = prefix_bytes() + base32_text(x);
                assert(spec_ssid(x) == full);
                assert(rest@ =~= ascii_chars(base32_text(x)));
            }
        }
        r
    }

    /// Puts fragments back together: empty entries are skipped, the rest are
    /// ordered by their first byte (the fragment number; entries with one number
    /// keep their order), stripped of it and joined. The result is always one
    /// payload, empty when nothing was found.
    pub fn scan(networks: Vec<Vec<u8>>) -> (r: Vec<Vec<u8>>)
        ensures
            r@.len() == 1,
            r@[0]@ == spec_assemble(payload_views(networks@)),
    {
        let result = assemble_parts(&networks);
        let mut out: Vec<Vec<u8>> = Vec::new();
        out.push(result);
        out
    }
}

/// An announced SSID starts with the prefix, is at most `MAX_SSID_LEN` bytes,
/// and otherwise is the base32 text of the payload, cut at the end.
pub proof fn lemma_ssid_shape(payload: Seq<u8>)
    ensures
        spec_ssid(payload).len() <= MAX_SSID_LEN,
        spec_ssid(payload).take(3) == prefix_bytes(),
        forall|i: int| 3 <= i < spec_ssid(payload).len() ==> #[trigger] spec_ssid(payload)[i] == base32_text(payload)[i - 3],
{
    let full = prefix_bytes() + base32_text(payload);
    assert(full.take(3) =~= prefix_bytes());
    if full.len() > MAX_SSID_LEN {
        assert(full.take(MAX_SSID_LEN as int).take(3) =~= prefix_bytes());
    }
}

} // verus!
