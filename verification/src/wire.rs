//! Mathematical model of the wire format.
//!
//! Each entity has an abstract value (a view), a total spec function giving
//! its exact encoded byte sequence, and a total spec function parsing it
//! from the front of a byte sequence. A parse returns the decoded value and
//! the number of bytes consumed, or `None` when the buffer ends before the
//! declared shape could be read in full — which is the only way a wire parse
//! can fail.

use vstd::prelude::*;
use vstd::bytes::spec_u16_to_le_bytes;
use vstd::bytes::spec_u16_from_le_bytes;
use vstd::bytes::spec_u32_to_le_bytes;
use vstd::bytes::spec_u32_from_le_bytes;
use vstd::bytes::spec_u64_to_le_bytes;
use vstd::bytes::spec_u64_from_le_bytes;

verus! {

/// Abstract value of an `OutPoint`: a 32-byte identifier and an output index.
pub struct OutPointView {
    pub txid: Seq<u8>,
    pub vout: u32,
}

/// Abstract value of a `TransactionInput`.
pub struct InputView {
    pub previous_output: OutPointView,
    pub script_sig: Seq<u8>,
    pub sequence: u32,
}

/// Abstract value of a `BitcoinTransaction`.
pub struct TxView {
    pub version: u32,
    pub inputs: Seq<InputView>,
    pub lock_time: u32,
}

/// The identifier of an out-point is exactly 32 bytes.
pub open spec fn outpoint_view_wf(o: OutPointView) -> bool {
    o.txid.len() == 32
}

/// Well-formed input: well-formed out-point, and a script whose length has a
/// CompactSize encoding.
pub open spec fn input_view_wf(i: InputView) -> bool {
    &&& outpoint_view_wf(i.previous_output)
    &&& i.script_sig.len() <= u64::MAX
}

/// Well-formed transaction: a countable number of inputs, each well-formed.
pub open spec fn tx_view_wf(t: TxView) -> bool {
    &&& t.inputs.len() <= u64::MAX
    &&& forall|j: int| 0 <= j < t.inputs.len() ==> input_view_wf(#[trigger] t.inputs[j])
}

/// Minimal self-describing encoding of an unsigned 64-bit count: the
/// narrowest of the four prefix variants whose range holds the value.
pub open spec fn compact_size_wire(v: u64) -> Seq<u8> {
    if v <= 0xFC {
        seq![v as u8]
    } else if v <= 0xFFFF {
        seq![0xFDu8] + spec_u16_to_le_bytes(v as u16)
    } else if v <= 0xFFFF_FFFF {
        seq![0xFEu8] + spec_u32_to_le_bytes(v as u32)
    } else {
        seq![0xFFu8] + spec_u64_to_le_bytes(v)
    }
}

/// Parse a CompactSize: the first byte selects the width, and `1 + width`
/// bytes must be present. Wider-than-necessary encodings are accepted.
pub open spec fn compact_size_parse(s: Seq<u8>) -> Option<(u64, int)> {
    if s.len() == 0 {
        None
    } else if s[0] <= 0xFC {
        Some((s[0] as u64, 1))
    } else if s[0] == 0xFD {
        if s.len() < 3 {
            None
        } else {
            Some((spec_u16_from_le_bytes(s.subrange(1, 3)) as u64, 3))
        }
    } else if s[0] == 0xFE {
        if s.len() < 5 {
            None
        } else {
            Some((spec_u32_from_le_bytes(s.subrange(1, 5)) as u64, 5))
        }
    } else {
        if s.len() < 9 {
            None
        } else {
            Some((spec_u64_from_le_bytes(s.subrange(1, 9)), 9))
        }
    }
}

/// An out-point is its 32 identifier bytes followed by the index, little-endian.
pub open spec fn outpoint_wire(o: OutPointView) -> Seq<u8> {
    o.txid + spec_u32_to_le_bytes(o.vout)
}

/// Parse an out-point: 36 bytes, split at byte 32, regardless of content.
pub open spec fn outpoint_parse(s: Seq<u8>) -> Option<(OutPointView, int)> {
    if s.len() < 36 {
        None
    } else {
        Some(
            (
                OutPointView {
                    txid: s.subrange(0, 32),
                    vout: spec_u32_from_le_bytes(s.subrange(32, 36)),
                },
                36,
            ),
        )
    }
}

/// A script is its CompactSize-encoded length followed by the payload verbatim.
pub open spec fn script_wire(payload: Seq<u8>) -> Seq<u8> {
    compact_size_wire(payload.len() as u64) + payload
}

/// Parse a script: a CompactSize length, then that many payload bytes.
pub open spec fn script_parse(s: Seq<u8>) -> Option<(Seq<u8>, int)> {
    match compact_size_parse(s) {
        None => None,
        Some((v, k)) => {
            if s.len() < k + v as int {
                None
            } else {
                Some((s.subrange(k, k + v as int), k + v as int))
            }
        },
    }
}

/// An input is its out-point, its script, then the sequence number.
pub open spec fn input_wire(i: InputView) -> Seq<u8> {
    outpoint_wire(i.previous_output) + script_wire(i.script_sig)
        + spec_u32_to_le_bytes(i.sequence)
}

/// Parse an input: the three fields in order, threading the offset.
pub open spec fn input_parse(s: Seq<u8>) -> Option<(InputView, int)> {
    match outpoint_parse(s) {
        None => None,
        Some((op, a)) => match script_parse(s.skip(a)) {
            None => None,
            Some((sc, b)) => {
                if s.len() < a + b + 4 {
                    None
                } else {
                    Some(
                        (
                            InputView {
                                previous_output: op,
                                script_sig: sc,
                                sequence: spec_u32_from_le_bytes(s.subrange(a + b, a + b + 4)),
                            },
                            a + b + 4,
                        ),
                    )
                }
            },
        },
    }
}

/// The inputs of a transaction, concatenated in order.
pub open spec fn inputs_wire(ins: Seq<InputView>) -> Seq<u8>
    decreases ins.len(),
{
    if ins.len() == 0 {
        Seq::<u8>::empty()
    } else {
        input_wire(ins[0]) + inputs_wire(ins.skip(1))
    }
}

/// Parse exactly `n` inputs one after the other, accumulating the offset.
pub open spec fn inputs_parse(s: Seq<u8>, n: nat) -> Option<(Seq<InputView>, int)>
    decreases n,
{
    if n == 0 {
        Some((Seq::<InputView>::empty(), 0))
    } else {
        match input_parse(s) {
            None => None,
            Some((i, k)) => match inputs_parse(s.skip(k), (n - 1) as nat) {
                None => None,
                Some((rest, m)) => Some((seq![i] + rest, k + m)),
            },
        }
    }
}

/// A transaction is its version, the CompactSize input count, the inputs in
/// order, then the lock time.
pub open spec fn tx_wire(t: TxView) -> Seq<u8> {
    spec_u32_to_le_bytes(t.version) + compact_size_wire(t.inputs.len() as u64)
        + inputs_wire(t.inputs) + spec_u32_to_le_bytes(t.lock_time)
}

/// Parse a transaction. The leading `>= 8` bytes test is a coarse floor, not
/// a full length check: the per-input parses and the final lock-time test
/// catch any remaining shortfall.
pub open spec fn tx_parse(s: Seq<u8>) -> Option<(TxView, int)> {
    if s.len() < 8 {
        None
    } else {
        match compact_size_parse(s.skip(4)) {
            None => None,
            Some((count, k)) => match inputs_parse(s.skip(4 + k), count as nat) {
                None => None,
                Some((ins, m)) => {
                    if s.len() < 4 + k + m + 4 {
                        None
                    } else {
                        Some(
                            (
                                TxView {
                                    version: spec_u32_from_le_bytes(s.subrange(0, 4)),
                                    inputs: ins,
                                    lock_time: spec_u32_from_le_bytes(
                                        s.subrange(4 + k + m, 4 + k + m + 4),
                                    ),
                                },
                                4 + k + m + 4,
                            ),
                        )
                    }
                },
            },
        }
    }
}

} // verus!
