//! Color parsing: hex color strings to integer channels.
//!
//! A hex color names its red, green and blue channels as one or two hex
//! digits each, optionally preceded by `#` signs and optionally followed by
//! an alpha channel, which must parse but is dropped. Scaling the channels
//! to floating-point components is the caller's affair.

use vstd::prelude::*;
use vstd::string::StringSliceAdditionalSpecFns;

verus! {

/// The value of one ASCII hex digit (both cases), or `None`.
pub open spec fn hex_digit(b: u8) -> Option<u8> {
    if 0x30 <= b <= 0x39 {
        Some((b - 0x30) as u8)
    } else if 0x61 <= b <= 0x66 {
        Some((b - 0x61 + 10) as u8)
    } else if 0x41 <= b <= 0x46 {
        Some((b - 0x41 + 10) as u8)
    } else {
        None
    }
}

/// The bytes with every leading `#` removed.
pub open spec fn strip_hash(s: Seq<u8>) -> Seq<u8>
    decreases s.len(),
{
    if s.len() > 0 && s[0] == 0x23 {
        strip_hash(s.drop_first())
    } else {
        s
    }
}

/// The channel a pair of hex digits at `i` encodes, or `None`.
pub open spec fn pair_val(s: Seq<u8>, i: int) -> Option<u8> {
    match (hex_digit(s[i]), hex_digit(s[i + 1])) {
        (Some(hi), Some(lo)) => Some((16 * hi + lo) as u8),
        _ => None,
    }
}

/// The channel a single hex digit at `i` encodes, scaled so that `f`
/// becomes 255, or `None`.
pub open spec fn single_val(s: Seq<u8>, i: int) -> Option<u8> {
    match hex_digit(s[i]) {
        Some(v) => Some((17 * v) as u8),
        None => None,
    }
}

/// The red, green and blue channels of a hex color string, by its length
/// once the leading `#` signs are stripped: three or four single digits
/// (the fourth, an alpha, must parse but is dropped), or six or eight
/// digits in pairs.
pub open spec fn parse_channels(s: Seq<u8>) -> Option<(u8, u8, u8)> {
    let t = strip_hash(s);
    if t.len() == 3 {
        match (single_val(t, 0), single_val(t, 1), single_val(t, 2)) {
            (Some(r), Some(g), Some(b)) => Some((r, g, b)),
            _ => None,
        }
    } else if t.len() == 4 {
        match (single_val(t, 0), single_val(t, 1), single_val(t, 2), single_val(t, 3)) {
            (Some(r), Some(g), Some(b), Some(a)) => Some((r, g, b)),
            _ => None,
        }
    } else if t.len() == 6 {
        match (pair_val(t, 0), pair_val(t, 2), pair_val(t, 4)) {
            (Some(r), Some(g), Some(b)) => Some((r, g, b)),
            _ => None,
        }
    } else if t.len() == 8 {
        match (pair_val(t, 0), pair_val(t, 2), pair_val(t, 4), pair_val(t, 6)) {
            (Some(r), Some(g), Some(b), Some(a)) => Some((r, g, b)),
            _ => None,
        }
    } else {
        None
    }
}

proof fn lemma_strip_hash_skip(s: Seq<u8>, i: int)
    requires
        0 <= i <= s.len(),
        forall|j: int| 0 <= j < i ==> s[j] == 0x23,
    ensures
        strip_hash(s) == strip_hash(s.skip(i)),
    decreases i,
{
    if i > 0 {
        assert(s.drop_first() =~= s.skip(1));
        lemma_strip_hash_skip(s.skip(1), i - 1);
        assert(s.skip(1).skip(i - 1) =~= s.skip(i));
    } else {
        assert(s.skip(0) =~= s);
    }
}

/// The value of one ASCII hex digit, accepting both letter cases.
fn hex_digit_of(b: u8) -> (r: Option<u8>)
    ensures
        r == hex_digit(b),
{
    if 0x30 <= b && b <= 0x39 {
        Some(b - 0x30)
    } else if 0x61 <= b && b <= 0x66 {
        Some(b - 0x61 + 10)
    } else if 0x41 <= b && b <= 0x46 {
        Some(b - 0x41 + 10)
    } else {
        None
    }
}

/// Parses a hex color string such as `"#f0f"`, `"#ff00ff"` or `"#ff00ff80"`
/// into its red, green and blue channels, each scaled to the 0-255 range.
pub fn from_hex_str(hex: &str) -> (r: Option<(u8, u8, u8)>)
    ensures
        r == parse_channels(hex.spec_bytes()),
{
    let b = hex.as_bytes();
    let blen = b.len();
    let mut k: usize = 0;
    while k < blen && b[k] == 0x23
        invariant
            k <= blen,
            blen == b@.len(),
            b@ == hex.spec_bytes(),
            forall|j: int| 0 <= j < k ==> b@[j] == 0x23,
        decreases blen - k,
    {
        k = k + 1;
    }
    proof {
        lemma_strip_hash_skip(b@, k as int);
        assert(strip_hash(b@.skip(k as int)) == b@.skip(k as int));
    }
    let ghost t = strip_hash(hex.spec_bytes());
    let n = blen - k;
    if n == 3 {
        match (hex_digit_of(b[k]), hex_digit_of(b[k + 1]), hex_digit_of(b[k + 2])) {
            (Some(r), Some(g), Some(bl)) => Some((17 * r, 17 * g, 17 * bl)),
            _ => None,
        }
    } else if n == 4 {
        match (
            hex_digit_of(b[k]),
            hex_digit_of(b[k + 1]),
            hex_digit_of(b[k + 2]),
            hex_digit_of(b[k + 3]),
        ) {
            (Some(r), Some(g), Some(bl), Some(a)) => Some((17 * r, 17 * g, 17 * bl)),
            _ => None,
        }
    } else if n == 6 {
        match (pair_of(b, k), pair_of(b, k + 2), pair_of(b, k + 4)) {
            (Some(r), Some(g), Some(bl)) => Some((r, g, bl)),
            _ => None,
        }
    } else if n == 8 {
        match (pair_of(b, k), pair_of(b, k + 2), pair_of(b, k + 4), pair_of(b, k + 6)) {
            (Some(r), Some(g), Some(bl), Some(a)) => Some((r, g, bl)),
            _ => None,
        }
    } else {
        None
    }
}

/// The channel the two hex digits at `i` encode.
fn pair_of(b: &[u8], i: usize) -> (r: Option<u8>)
    requires
        i + 2 <= b@.len(),
    ensures
        r == pair_val(b@, i as int),
{
    match (hex_digit_of(b[i]), hex_digit_of(b[i + 1])) {
        (Some(hi), Some(lo)) => Some(16 * hi + lo),
        _ => None,
    }
}

} // verus!
