//! The fixed 32-byte transaction identifier and its hexadecimal
//! interchange form.
//!
//! On the wire a `Txid` is its 32 raw bytes verbatim, with no length
//! prefix; the out-point codec handles that. The hexadecimal text form is
//! used only for interchange outside the binary format.

use vstd::prelude::*;
use vstd::arithmetic::div_mod::lemma_fundamental_div_mod;
use crate::errors::BitcoinError;

verus! {

/// The lowercase hexadecimal digit for a nibble.
pub open spec fn hex_digit_char(n: u8) -> char
    recommends
        n < 16,
{
    if n < 10 {
        (48 + n) as char
    } else {
        (87 + n) as char
    }
}

/// Lowercase hexadecimal rendering of a byte sequence: two digits per byte,
/// high nibble first.
pub open spec fn hex_of(s: Seq<u8>) -> Seq<char>
    decreases s.len(),
{
    if s.len() == 0 {
        Seq::<char>::empty()
    } else {
        seq![hex_digit_char(s[0] / 16), hex_digit_char(s[0] % 16)] + hex_of(s.skip(1))
    }
}

/// A hexadecimal digit of either case.
pub open spec fn is_hex_digit(c: char) -> bool {
    ||| (48 <= c as u32 && c as u32 <= 57)
    ||| (97 <= c as u32 && c as u32 <= 102)
    ||| (65 <= c as u32 && c as u32 <= 70)
}

/// The nibble a hexadecimal digit stands for.
pub open spec fn hex_val(c: char) -> u8
    recommends
        is_hex_digit(c),
{
    if 48 <= c as u32 && c as u32 <= 57 {
        (c as u32 - 48) as u8
    } else if 97 <= c as u32 && c as u32 <= 102 {
        (c as u32 - 87) as u8
    } else {
        (c as u32 - 55) as u8
    }
}

/// A text that hexadecimal decoding accepts: an even number of digits of
/// either case.
pub open spec fn is_hex_str(s: Seq<char>) -> bool {
    &&& s.len() % 2 == 0
    &&& forall|i: int| 0 <= i < s.len() ==> is_hex_digit(#[trigger] s[i])
}

/// The bytes a hexadecimal text stands for, pairing digits high nibble
/// first.
pub open spec fn hex_bytes_of(s: Seq<char>) -> Seq<u8>
    recommends
        s.len() % 2 == 0,
    decreases s.len(),
{
    if s.len() < 2 {
        Seq::<u8>::empty()
    } else {
        seq![(16 * hex_val(s[0]) + hex_val(s[1])) as u8] + hex_bytes_of(s.skip(2))
    }
}

/// Relies on `hex::encode`: renders bytes as lowercase hexadecimal, two
/// digits per byte, high nibble first.
#[verifier::external_body]
fn hex_encode(data: &[u8]) -> (r: String)
    ensures
        r@ == hex_of(data@),
{
    hex::encode(data)
}

#[verifier::external_type_specification]
#[verifier::external_body]
pub struct ExFromHexError(hex::FromHexError);

/// Relies on `hex::decode`: succeeds exactly on an even number of
/// hexadecimal digits of either case, pairing them high nibble first; fails
/// on an odd length or any other character.
#[verifier::external_body]
fn hex_decode(text: &str) -> (r: Result<Vec<u8>, hex::FromHexError>)
    ensures
        match r {
            Ok(v) => is_hex_str(text@) && v@ == hex_bytes_of(text@),
            Err(_) => !is_hex_str(text@),
        },
{
    hex::decode(text)
}

/// An opaque 32-byte transaction identifier. Never validated as a hash;
/// equality is byte-wise.
#[derive(Debug, PartialEq, Eq, Clone)]
pub struct Txid(pub [u8; 32]);

impl Txid {
    /// Render as the 64-character lowercase hexadecimal interchange form.
    pub fn to_hex(&self) -> (r: String)
        ensures
            r@ == hex_of(self.0@),
    {
        hex_encode(self.0.as_slice())
    }

    /// Parse the hexadecimal interchange form. Succeeds exactly on a text
    /// of 64 hexadecimal digits, that is when the decoded length is 32
    /// bytes; anything else is structurally malformed.
    pub fn from_hex(text: &str) -> (r: Result<Self, BitcoinError>)
        ensures
            match r {
                Ok(t) => is_hex_str(text@) && text@.len() == 64 && t.0@ == hex_bytes_of(text@),
                Err(e) => e == BitcoinError::InvalidFormat && !(is_hex_str(text@)
                    && text@.len() == 64),
            },
    {
        match hex_decode(text) {
            Err(_) => Err(BitcoinError::InvalidFormat),
            Ok(decoded) => {
                proof {
                    lemma_hex_bytes_of_len(text@);
                }
                if decoded.len() != 32 {
                    Err(BitcoinError::InvalidFormat)
                } else {
                    let mut raw: [u8; 32] = [0u8; 32];
                    let mut i: usize = 0;
                    while i < 32
                        invariant
                            i <= 32,
                            decoded@.len() == 32,
                            forall|j: int| 0 <= j < i ==> raw@[j] == decoded@[j],
                        decreases 32 - i,
                    {
                        raw[i] = decoded[i];
                        i += 1;
                    }
                    proof {
                        assert(raw@ =~= decoded@);
                    }
                    Ok(Txid(raw))
                }
            },
        }
    }
}

/// A valid hexadecimal text stands for half as many bytes as it has digits.
pub proof fn lemma_hex_bytes_of_len(s: Seq<char>)
    requires
        s.len() % 2 == 0,
    ensures
        hex_bytes_of(s).len() == s.len() / 2,
    decreases s.len(),
{
    if s.len() >= 2 {
        lemma_hex_bytes_of_len(s.skip(2));
    }
}

/// Round trip through the interchange form: the hexadecimal rendering of
/// any byte sequence is a valid hexadecimal text of twice the length, and
/// decodes back to the same bytes.
pub proof fn lemma_hex_round_trip(s: Seq<u8>)
    ensures
        is_hex_str(hex_of(s)),
        hex_of(s).len() == 2 * s.len(),
        hex_bytes_of(hex_of(s)) == s,
    decreases s.len(),
{
    if s.len() == 0 {
        assert(hex_bytes_of(hex_of(s)) =~= s);
    } else {
        lemma_hex_round_trip(s.skip(1));
        let h = hex_of(s);
        let hi = s[0] / 16;
        let lo = s[0] % 16;
        assert(hi < 16 && lo < 16);
        assert(h[0] == hex_digit_char(hi) && h[1] == hex_digit_char(lo));
        lemma_hex_digit_char_val(hi);
        lemma_hex_digit_char_val(lo);
        assert(h.skip(2) =~= hex_of(s.skip(1)));
        assert forall|i: int| 0 <= i < h.len() implies is_hex_digit(#[trigger] h[i]) by {
            if i >= 2 {
                assert(h[i] == hex_of(s.skip(1))[i - 2]);
            }
        }
        lemma_fundamental_div_mod(s[0] as int, 16);
        assert(16 * hex_val(h[0]) + hex_val(h[1]) == s[0]);
        assert(hex_bytes_of(h) =~= s);
    }
}

/// Each nibble's digit is a hexadecimal digit standing for that nibble.
proof fn lemma_hex_digit_char_val(n: u8)
    requires
        n < 16,
    ensures
        is_hex_digit(hex_digit_char(n)),
        hex_val(hex_digit_char(n)) == n,
{
    if n < 10 {
        assert(hex_digit_char(n) as u32 == 48 + n);
    } else {
        assert(hex_digit_char(n) as u32 == 87 + n);
    }
}

} // verus!
