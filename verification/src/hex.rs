use vstd::prelude::*;
use vstd::string::StringSliceAdditionalSpecFns;

verus! {

/// Why a line of text is no ciphertext.
#[derive(Clone, Copy, Debug)]
pub enum HexError {
    /// The line has an odd number of bytes, or a pair of them is no
    /// hexadecimal number.
    InvalidHexadecimal,
}

impl HexError {
    /// The error in words.
    pub fn message(&self) -> (text: String)
        ensures
            text@ == "Invalid hexadecimal string"@,
    {
        "Invalid hexadecimal string".to_owned()
    }
}

/// The value of a hexadecimal digit, in either case.
pub open spec fn digit_value(b: u8) -> Option<u8> {
    if 0x30 <= b <= 0x39 {
        Some((b - 0x30) as u8)
    } else if 0x61 <= b <= 0x66 {
        Some((b - 0x61 + 10) as u8)
    } else if 0x41 <= b <= 0x46 {
        Some((b - 0x41 + 10) as u8)
    } else {
        None
    }
}

/// The byte that two characters spell: two hexadecimal digits, or a plus
/// sign and one digit.
pub open spec fn pair_value(high: u8, low: u8) -> Option<u8> {
    match digit_value(low) {
        Some(l) => if high == 0x2b {
            Some(l)
        } else {
            match digit_value(high) {
                Some(h) => Some((h * 16 + l) as u8),
                None => None,
            }
        },
        None => None,
    }
}

/// A line spells bytes: its length is even and each pair spells one.
pub open spec fn is_hex(text: Seq<u8>) -> bool {
    text.len() % 2 == 0 && forall|i: int|
        0 <= i < text.len() / 2 ==> (#[trigger] pair_value(text[2 * i], text[2 * i + 1])).is_some()
}

/// The bytes that a line spells.
pub open spec fn hex_bytes(text: Seq<u8>) -> Seq<u8> {
    Seq::new(text.len() / 2, |i: int| pair_value(text[2 * i], text[2 * i + 1]).unwrap())
}

/// Reads one hexadecimal digit.
fn hex_digit(b: u8) -> (r: Option<u8>)
    ensures
        r == digit_value(b),
{
    if b >= 0x30 && b <= 0x39 {
        Some(b - 0x30)
    } else if b >= 0x61 && b <= 0x66 {
        Some(b - 0x61 + 10)
    } else if b >= 0x41 && b <= 0x46 {
        Some(b - 0x41 + 10)
    } else {
        None
    }
}

/// Reads the byte that two characters spell.
fn hex_pair(high: u8, low: u8) -> (r: Option<u8>)
    ensures
        r == pair_value(high, low),
{
    match hex_digit(low) {
        Some(l) => {
            if high == 0x2b {
                Some(l)
            } else {
                match hex_digit(high) {
                    Some(h) => Some(h * 16 + l),
                    None => None,
                }
            }
        },
        None => None,
    }
}

/// Reads a line of hexadecimal text as bytes, two characters to the byte.
/// A pair is read as a number in the usual way, so a plus sign may stand in
/// place of its first digit. Any other line is refused, whatever it holds.
pub fn hex_string_to_bytes(hex_str: &str) -> (r: Result<Vec<u8>, HexError>)
    ensures
        match r {
            Ok(bytes) => is_hex(hex_str.spec_bytes()) && bytes@ == hex_bytes(
                hex_str.spec_bytes(),
            ),
            Err(_) => !is_hex(hex_str.spec_bytes()),
        },
{
    let text = hex_str.as_bytes();
    let ghost seq = hex_str.spec_bytes();
    let n: usize = text.len();
    if n % 2 != 0 {
        return Err(HexError::InvalidHexadecimal);
    }
    let mut bytes: Vec<u8> = Vec::new();
    let mut i: usize = 0;
    while i < n
        invariant
            i <= n,
            i % 2 == 0,
            n % 2 == 0,
            n == seq.len(),
            seq == hex_str.spec_bytes(),
            text@ == seq,
            bytes.len() == i / 2,
            forall|j: int|
                0 <= j < i / 2 ==> (#[trigger] pair_value(seq[2 * j], seq[2 * j + 1])) == Some(
                    bytes@[j],
                ),
        decreases n - i,
    {
        match hex_pair(text[i], text[i + 1]) {
            Some(byte) => {
                bytes.push(byte);
            },
            None => {
                proof {
                    let j = i as int / 2;
                    assert(2 * j == i);
                    assert(pair_value(seq[2 * j], seq[2 * j + 1]).is_none());
                }
                return Err(HexError::InvalidHexadecimal);
            },
        }
        proof {
            let j = i as int / 2;
            assert(2 * j == i);
            assert(pair_value(seq[2 * j], seq[2 * j + 1]) == Some(bytes@[j]));
        }
        i += 2;
    }
    assert(bytes@ =~= hex_bytes(seq));
    Ok(bytes)
}

} // verus!
