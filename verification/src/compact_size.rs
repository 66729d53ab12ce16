//! The CompactSize variable-width integer codec.

use vstd::prelude::*;
use vstd::bytes::lemma_auto_spec_u16_to_from_le_bytes;
use vstd::bytes::lemma_auto_spec_u32_to_from_le_bytes;
use vstd::bytes::lemma_auto_spec_u64_to_from_le_bytes;
use vstd::bytes::spec_u16_to_le_bytes;
use vstd::bytes::spec_u32_to_le_bytes;
use vstd::bytes::spec_u64_to_le_bytes;
use vstd::bytes::u16_from_le_bytes;
use vstd::bytes::u16_to_le_bytes;
use vstd::bytes::u32_from_le_bytes;
use vstd::bytes::u32_to_le_bytes;
use vstd::bytes::u64_from_le_bytes;
use vstd::bytes::u64_to_le_bytes;
use vstd::slice::slice_subrange;
use crate::errors::BitcoinError;
use crate::wire::compact_size_parse;
use crate::wire::compact_size_wire;

verus! {

/// An unsigned 64-bit count, carried on the wire in the self-describing
/// variable-width CompactSize form.
#[derive(Debug, PartialEq, Eq, Clone)]
pub struct CompactSize {
    pub value: u64,
}

impl CompactSize {
    pub fn new(value: u64) -> (r: Self)
        ensures
            r.value == value,
    {
        CompactSize { value }
    }

    /// Encode in the minimal prefix variant for the value's magnitude.
    pub fn to_bytes(&self) -> (r: Vec<u8>)
        ensures
            r@ == compact_size_wire(self.value),
    {
        proof {
            lemma_auto_spec_u16_to_from_le_bytes();
            lemma_auto_spec_u32_to_from_le_bytes();
            lemma_auto_spec_u64_to_from_le_bytes();
        }
        if self.value <= 0xFC {
            let mut out: Vec<u8> = Vec::new();
            out.push(self.value as u8);
            proof {
                assert(out@ =~= compact_size_wire(self.value));
            }
            out
        } else if self.value <= 0xFFFF {
            let mut out: Vec<u8> = Vec::new();
            out.push(0xFD);
            let mut tail: Vec<u8> = u16_to_le_bytes(self.value as u16);
            out.append(&mut tail);
            proof {
                assert(out@ =~= compact_size_wire(self.value));
            }
            out
        } else if self.value <= 0xFFFF_FFFF {
            let mut out: Vec<u8> = Vec::new();
            out.push(0xFE);
            let mut tail: Vec<u8> = u32_to_le_bytes(self.value as u32);
            out.append(&mut tail);
            proof {
                assert(out@ =~= compact_size_wire(self.value));
            }
            out
        } else {
            let mut out: Vec<u8> = Vec::new();
            out.push(0xFF);
            let mut tail: Vec<u8> = u64_to_le_bytes(self.value);
            out.append(&mut tail);
            proof {
                assert(out@ =~= compact_size_wire(self.value));
            }
            out
        }
    }

    /// Decode a CompactSize from the front of `bytes`, returning the value
    /// and how many bytes were consumed. Accepts wider-than-necessary
    /// encodings; fails exactly when fewer than `1 + width` bytes are there.
    pub fn from_bytes(bytes: &[u8]) -> (r: Result<(Self, usize), BitcoinError>)
        ensures
            match r {
                Ok((c, n)) => compact_size_parse(bytes@) == Some((c.value, n as int)),
                Err(e) => e == BitcoinError::InsufficientBytes && compact_size_parse(
                    bytes@,
                ) is None,
            },
    {
        if bytes.len() == 0 {
            return Err(BitcoinError::InsufficientBytes);
        }
        let b0: u8 = bytes[0];
        if b0 <= 0xFC {
            Ok((CompactSize { value: b0 as u64 }, 1))
        } else if b0 == 0xFD {
            if bytes.len() < 3 {
                return Err(BitcoinError::InsufficientBytes);
            }
            let w: u16 = u16_from_le_bytes(slice_subrange(bytes, 1, 3));
            Ok((CompactSize { value: w as u64 }, 3))
        } else if b0 == 0xFE {
            if bytes.len() < 5 {
                return Err(BitcoinError::InsufficientBytes);
            }
            let w: u32 = u32_from_le_bytes(slice_subrange(bytes, 1, 5));
            Ok((CompactSize { value: w as u64 }, 5))
        } else {
            if bytes.len() < 9 {
                return Err(BitcoinError::InsufficientBytes);
            }
            let w: u64 = u64_from_le_bytes(slice_subrange(bytes, 1, 9));
            Ok((CompactSize { value: w }, 9))
        }
    }
}

/// The encoded width is a function of the value's magnitude alone.
pub proof fn lemma_compact_size_wire_len(v: u64)
    ensures
        compact_size_wire(v).len() == (if v <= 0xFC {
            1int
        } else if v <= 0xFFFF {
            3int
        } else if v <= 0xFFFF_FFFF {
            5int
        } else {
            9int
        }),
{
    lemma_auto_spec_u16_to_from_le_bytes();
    lemma_auto_spec_u32_to_from_le_bytes();
    lemma_auto_spec_u64_to_from_le_bytes();
}

/// Parsing is determined by the encoding alone: with any bytes following it,
/// a CompactSize encoding parses back to its value, consuming exactly the
/// encoding's width.
pub proof fn lemma_compact_size_wire_agree(v: u64, extra: Seq<u8>)
    ensures
        compact_size_parse(compact_size_wire(v) + extra) == Some(
            (v, compact_size_wire(v).len() as int),
        ),
{
    lemma_auto_spec_u16_to_from_le_bytes();
    lemma_auto_spec_u32_to_from_le_bytes();
    lemma_auto_spec_u64_to_from_le_bytes();
    lemma_compact_size_wire_len(v);
    let s = compact_size_wire(v) + extra;
    if v <= 0xFC {
        assert(s[0] == v as u8);
    } else if v <= 0xFFFF {
        assert(s[0] == 0xFD);
        assert(s.subrange(1, 3) =~= spec_u16_to_le_bytes(v as u16));
    } else if v <= 0xFFFF_FFFF {
        assert(s[0] == 0xFE);
        assert(s.subrange(1, 5) =~= spec_u32_to_le_bytes(v as u32));
    } else {
        assert(s[0] == 0xFF);
        assert(s.subrange(1, 9) =~= spec_u64_to_le_bytes(v));
    }
}

/// Round trip: decoding an encoded CompactSize yields the value back and
/// consumes the whole encoding.
pub proof fn lemma_compact_size_round_trip(v: u64)
    ensures
        compact_size_parse(compact_size_wire(v)) == Some(
            (v, compact_size_wire(v).len() as int),
        ),
{
    lemma_compact_size_wire_agree(v, Seq::<u8>::empty());
    assert(compact_size_wire(v) + Seq::<u8>::empty() =~= compact_size_wire(v));
}

/// Truncation detection: any strict prefix of an encoded CompactSize fails
/// to parse.
pub proof fn lemma_compact_size_trunc(v: u64, k: int)
    requires
        0 <= k < compact_size_wire(v).len(),
    ensures
        compact_size_parse(compact_size_wire(v).subrange(0, k)) is None,
{
    lemma_auto_spec_u16_to_from_le_bytes();
    lemma_auto_spec_u32_to_from_le_bytes();
    lemma_auto_spec_u64_to_from_le_bytes();
    lemma_compact_size_wire_len(v);
    let p = compact_size_wire(v).subrange(0, k);
    if k > 0 {
        assert(p[0] == compact_size_wire(v)[0]);
        assert(p.len() < compact_size_wire(v).len());
    }
}

/// Minimal encoding: no byte sequence decodes to `v` while consuming fewer
/// bytes than the encoding of `v` is wide.
pub proof fn lemma_compact_size_minimal(s: Seq<u8>, v: u64, n: int)
    requires
        compact_size_parse(s) == Some((v, n)),
    ensures
        compact_size_wire(v).len() <= n,
{
    lemma_compact_size_wire_len(v);
}

/// Decode permissiveness: a value carried in a wider prefix variant than its
/// magnitude needs still parses to that value, consuming `1 + width` bytes.
pub proof fn lemma_compact_size_wide_prefix_decodes(v: u64, extra: Seq<u8>)
    ensures
        v <= 0xFFFF ==> compact_size_parse(seq![0xFDu8] + spec_u16_to_le_bytes(v as u16) + extra)
            == Some((v, 3int)),
        v <= 0xFFFF_FFFF ==> compact_size_parse(
            seq![0xFEu8] + spec_u32_to_le_bytes(v as u32) + extra,
        ) == Some((v, 5int)),
        compact_size_parse(seq![0xFFu8] + spec_u64_to_le_bytes(v) + extra) == Some((v, 9int)),
{
    lemma_auto_spec_u16_to_from_le_bytes();
    lemma_auto_spec_u32_to_from_le_bytes();
    lemma_auto_spec_u64_to_from_le_bytes();
    if v <= 0xFFFF {
        let s = seq![0xFDu8] + spec_u16_to_le_bytes(v as u16) + extra;
        assert(s[0] == 0xFD);
        assert(s.subrange(1, 3) =~= spec_u16_to_le_bytes(v as u16));
    }
    if v <= 0xFFFF_FFFF {
        let s = seq![0xFEu8] + spec_u32_to_le_bytes(v as u32) + extra;
        assert(s[0] == 0xFE);
        assert(s.subrange(1, 5) =~= spec_u32_to_le_bytes(v as u32));
    }
    let s = seq![0xFFu8] + spec_u64_to_le_bytes(v) + extra;
    assert(s[0] == 0xFF);
    assert(s.subrange(1, 9) =~= spec_u64_to_le_bytes(v));
}

} // verus!
