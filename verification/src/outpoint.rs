//! A fixed-size reference to one output of a prior transaction.

use vstd::prelude::*;
use vstd::bytes::lemma_auto_spec_u32_to_from_le_bytes;
use vstd::bytes::spec_u32_to_le_bytes;
use vstd::bytes::u32_from_le_bytes;
use vstd::bytes::u32_to_le_bytes;
use vstd::slice::slice_subrange;
use crate::errors::BitcoinError;
use crate::txid::Txid;
use crate::wire::OutPointView;
use crate::wire::outpoint_parse;
use crate::wire::outpoint_view_wf;
use crate::wire::outpoint_wire;

verus! {

/// A reference to a specific output of a specific prior transaction:
/// the transaction's identifier and the output's index. Encodes to a fixed
/// 36 bytes.
#[derive(Debug, PartialEq, Eq, Clone)]
pub struct OutPoint {
    pub txid: Txid,
    pub vout: u32,
}

impl View for OutPoint {
    type V = OutPointView;

    open spec fn view(&self) -> OutPointView {
        OutPointView { txid: self.txid.0@, vout: self.vout }
    }
}

impl OutPoint {
    pub fn new(txid: [u8; 32], vout: u32) -> (r: Self)
        ensures
            r@ == (OutPointView { txid: txid@, vout }),
    {
        OutPoint { txid: Txid(txid), vout }
    }

    /// The identifier's 32 raw bytes, then the 4-byte little-endian index.
    pub fn to_bytes(&self) -> (r: Vec<u8>)
        ensures
            r@ == outpoint_wire(self@),
    {
        proof {
            lemma_auto_spec_u32_to_from_le_bytes();
        }
        let mut out: Vec<u8> = Vec::with_capacity(36);
        out.extend_from_slice(self.txid.0.as_slice());
        let mut tail: Vec<u8> = u32_to_le_bytes(self.vout);
        out.append(&mut tail);
        proof {
            assert(out@ =~= outpoint_wire(self@));
        }
        out
    }

    /// Requires at least 36 bytes; splits deterministically at byte 32 and
    /// consumes exactly 36 bytes regardless of content.
    pub fn from_bytes(bytes: &[u8]) -> (r: Result<(Self, usize), BitcoinError>)
        ensures
            match r {
                Ok((o, n)) => outpoint_parse(bytes@) == Some((o@, n as int)),
                Err(e) => e == BitcoinError::InsufficientBytes && outpoint_parse(
                    bytes@,
                ) is None,
            },
    {
        if bytes.len() < 36 {
            return Err(BitcoinError::InsufficientBytes);
        }
        let mut raw: [u8; 32] = [0u8; 32];
        let mut i: usize = 0;
        while i < 32
            invariant
                i <= 32,
                bytes@.len() >= 36,
                forall|j: int| 0 <= j < i ==> raw@[j] == bytes@[j],
            decreases 32 - i,
        {
            raw[i] = bytes[i];
            i += 1;
        }
        let vout: u32 = u32_from_le_bytes(slice_subrange(bytes, 32, 36));
        proof {
            assert(raw@ =~= bytes@.subrange(0, 32));
        }
        Ok((OutPoint { txid: Txid(raw), vout }, 36))
    }
}

/// Parsing is determined by the encoding alone: an encoded out-point,
/// whatever follows it, parses back to its value and consumes its fixed 36
/// bytes.
pub proof fn lemma_outpoint_wire_agree(o: OutPointView, extra: Seq<u8>)
    requires
        outpoint_view_wf(o),
    ensures
        outpoint_wire(o).len() == 36,
        outpoint_parse(outpoint_wire(o) + extra) == Some((o, 36int)),
{
    lemma_auto_spec_u32_to_from_le_bytes();
    let s = outpoint_wire(o) + extra;
    assert(s.subrange(0, 32) =~= o.txid);
    assert(s.subrange(32, 36) =~= spec_u32_to_le_bytes(o.vout));
}

/// Round trip: decoding an encoded out-point yields the value back and
/// consumes the whole encoding.
pub proof fn lemma_outpoint_round_trip(o: OutPointView)
    requires
        outpoint_view_wf(o),
    ensures
        outpoint_parse(outpoint_wire(o)) == Some((o, outpoint_wire(o).len() as int)),
{
    lemma_outpoint_wire_agree(o, Seq::<u8>::empty());
    assert(outpoint_wire(o) + Seq::<u8>::empty() =~= outpoint_wire(o));
}

/// Truncation detection: any strict prefix of an encoded out-point fails to
/// parse.
pub proof fn lemma_outpoint_trunc(o: OutPointView, k: int)
    requires
        outpoint_view_wf(o),
        0 <= k < outpoint_wire(o).len(),
    ensures
        outpoint_parse(outpoint_wire(o).subrange(0, k)) is None,
{
    lemma_auto_spec_u32_to_from_le_bytes();
}

} // verus!
