//! A variable-length opaque byte payload, length-prefixed on the wire.

use vstd::prelude::*;
use vstd::slice::slice_subrange;
use vstd::slice::slice_to_vec;
use crate::compact_size::CompactSize;
use crate::compact_size::lemma_compact_size_trunc;
use crate::compact_size::lemma_compact_size_wire_agree;
use crate::compact_size::lemma_compact_size_wire_len;
use crate::errors::BitcoinError;
use crate::wire::compact_size_wire;
use crate::wire::script_parse;
use crate::wire::script_wire;

verus! {

/// An ordered byte sequence, opaque to this layer. Serialized as its
/// CompactSize-encoded length followed by the raw bytes.
#[derive(Debug, PartialEq, Eq, Clone)]
pub struct Script {
    pub bytes: Vec<u8>,
}

impl View for Script {
    type V = Seq<u8>;

    open spec fn view(&self) -> Seq<u8> {
        self.bytes@
    }
}

impl Script {
    pub fn new(bytes: Vec<u8>) -> (r: Self)
        ensures
            r@ == bytes@,
    {
        Script { bytes }
    }

    /// The raw payload, as an explicit accessor.
    pub fn as_bytes(&self) -> (r: &Vec<u8>)
        ensures
            r@ == self@,
    {
        &self.bytes
    }

    /// The CompactSize-encoded payload length, then the payload verbatim.
    pub fn to_bytes(&self) -> (r: Vec<u8>)
        ensures
            r@ == script_wire(self@),
    {
        let length = CompactSize::new(self.bytes.len() as u64);
        let mut out: Vec<u8> = length.to_bytes();
        out.extend_from_slice(self.bytes.as_slice());
        proof {
            assert(out@ =~= script_wire(self@));
        }
        out
    }

    /// Decode a CompactSize length, then require that many payload bytes.
    /// Consumes the prefix's width plus the payload length.
    pub fn from_bytes(bytes: &[u8]) -> (r: Result<(Self, usize), BitcoinError>)
        ensures
            match r {
                Ok((s, n)) => script_parse(bytes@) == Some((s@, n as int)),
                Err(e) => e == BitcoinError::InsufficientBytes && script_parse(bytes@) is None,
            },
    {
        let (length, consumed) = match CompactSize::from_bytes(bytes) {
            Err(e) => {
                return Err(e);
            },
            Ok(p) => p,
        };
        assert(consumed <= bytes@.len());
        let remaining: usize = bytes.len() - consumed;
        if (remaining as u64) < length.value {
            return Err(BitcoinError::InsufficientBytes);
        }
        let payload_len: usize = length.value as usize;
        let payload: Vec<u8> = slice_to_vec(slice_subrange(bytes, consumed, consumed + payload_len));
        Ok((Script { bytes: payload }, consumed + payload_len))
    }
}

/// Parsing is determined by the encoding alone: an encoded script, whatever
/// follows it, parses back to its payload and consumes the whole encoding.
pub proof fn lemma_script_wire_agree(payload: Seq<u8>, extra: Seq<u8>)
    requires
        payload.len() <= u64::MAX,
    ensures
        script_wire(payload).len() == compact_size_wire(payload.len() as u64).len()
            + payload.len(),
        script_parse(script_wire(payload) + extra) == Some(
            (payload, script_wire(payload).len() as int),
        ),
{
    let lv = payload.len() as u64;
    let cw = compact_size_wire(lv);
    lemma_compact_size_wire_agree(lv, payload + extra);
    let s = script_wire(payload) + extra;
    assert(s =~= cw + (payload + extra));
    assert(s.subrange(cw.len() as int, cw.len() + lv as int) =~= payload);
}

/// Round trip: decoding an encoded script yields the payload back and
/// consumes the whole encoding.
pub proof fn lemma_script_round_trip(payload: Seq<u8>)
    requires
        payload.len() <= u64::MAX,
    ensures
        script_parse(script_wire(payload)) == Some(
            (payload, script_wire(payload).len() as int),
        ),
{
    lemma_script_wire_agree(payload, Seq::<u8>::empty());
    assert(script_wire(payload) + Seq::<u8>::empty() =~= script_wire(payload));
}

/// Truncation detection: any strict prefix of an encoded script fails to
/// parse, whether it cuts the length prefix or the payload.
pub proof fn lemma_script_trunc(payload: Seq<u8>, k: int)
    requires
        payload.len() <= u64::MAX,
        0 <= k < script_wire(payload).len(),
    ensures
        script_parse(script_wire(payload).subrange(0, k)) is None,
{
    let lv = payload.len() as u64;
    let cw = compact_size_wire(lv);
    lemma_compact_size_wire_len(lv);
    let p = script_wire(payload).subrange(0, k);
    if k < cw.len() {
        assert(p =~= cw.subrange(0, k));
        lemma_compact_size_trunc(lv, k);
    } else {
        assert(p =~= cw + payload.subrange(0, k - cw.len()));
        lemma_compact_size_wire_agree(lv, payload.subrange(0, k - cw.len()));
    }
}

/// A zero-length script is valid and encodes to the single byte `0x00`,
/// which parses back to the empty payload.
pub proof fn lemma_empty_script_wire()
    ensures
        script_wire(Seq::<u8>::empty()) == seq![0u8],
        script_parse(seq![0u8]) == Some((Seq::<u8>::empty(), 1int)),
{
    assert(script_wire(Seq::<u8>::empty()) =~= seq![0u8]);
    lemma_script_round_trip(Seq::<u8>::empty());
}

} // verus!
