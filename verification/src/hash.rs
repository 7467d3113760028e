//! Keccak-256 digests and hexadecimal rendering.
//!
//! The digest itself comes from an outside implementation; everything the
//! library claims about it goes through the name `keccak_of`, so that all
//! callers speak of one and the same function of the input bytes.

use sha3::Digest;
use vstd::prelude::*;

verus! {

/// What Keccak-256 returns on a byte sequence.
pub uninterp spec fn keccak_of(data: Seq<u8>) -> Seq<u8>;

/// Relies on sha3's Keccak256 through Digest::digest: a pure function of
/// the input bytes alone, returning a 32-byte digest.
#[verifier::external_body]
pub(crate) fn keccak256(data: &[u8]) -> (r: Vec<u8>)
    ensures
        r@ == keccak_of(data@),
        r@.len() == 32,
{
    sha3::Keccak256::digest(data).to_vec()
}

/// Relies on String's FromIterator impl: the string holds exactly the
/// given characters, in order.
#[verifier::external_body]
pub(crate) fn chars_to_string(cs: &Vec<char>) -> (r: String)
    ensures
        r@ == cs@,
{
    cs.iter().collect()
}

/// The lowercase hexadecimal digit for d < 16.
pub open spec fn hex_char(d: nat) -> char {
    if d == 0 {
        '0'
    } else if d == 1 {
        '1'
    } else if d == 2 {
        '2'
    } else if d == 3 {
        '3'
    } else if d == 4 {
        '4'
    } else if d == 5 {
        '5'
    } else if d == 6 {
        '6'
    } else if d == 7 {
        '7'
    } else if d == 8 {
        '8'
    } else if d == 9 {
        '9'
    } else if d == 10 {
        'a'
    } else if d == 11 {
        'b'
    } else if d == 12 {
        'c'
    } else if d == 13 {
        'd'
    } else if d == 14 {
        'e'
    } else {
        'f'
    }
}

/// Lowercase hexadecimal of a byte sequence, two digits per byte.
pub open spec fn hex_of(s: Seq<u8>) -> Seq<char>
    decreases s.len(),
{
    if s.len() == 0 {
        Seq::<char>::empty()
    } else {
        hex_of(s.drop_last()).push(hex_char((s.last() / 16) as nat)).push(
            hex_char((s.last() % 16) as nat),
        )
    }
}

/// Lowercase hexadecimal with the usual `0x` prefix.
pub open spec fn hex_prefixed(s: Seq<u8>) -> Seq<char> {
    seq!['0', 'x'] + hex_of(s)
}

/// The hexadecimal digit, computed.
pub fn hex_char_of(d: u8) -> (c: char)
    requires
        d < 16,
    ensures
        c == hex_char(d as nat),
{
    if d == 0 {
        '0'
    } else if d == 1 {
        '1'
    } else if d == 2 {
        '2'
    } else if d == 3 {
        '3'
    } else if d == 4 {
        '4'
    } else if d == 5 {
        '5'
    } else if d == 6 {
        '6'
    } else if d == 7 {
        '7'
    } else if d == 8 {
        '8'
    } else if d == 9 {
        '9'
    } else if d == 10 {
        'a'
    } else if d == 11 {
        'b'
    } else if d == 12 {
        'c'
    } else if d == 13 {
        'd'
    } else if d == 14 {
        'e'
    } else {
        'f'
    }
}

/// Renders bytes as lowercase hexadecimal characters.
pub fn to_hex_chars(bytes: &[u8]) -> (r: Vec<char>)
    ensures
        r@ == hex_of(bytes@),
{
    let n: usize = bytes.len();
    let mut out: Vec<char> = Vec::new();
    let mut i: usize = 0;
    while i < n
        invariant
            n == bytes@.len(),
            0 <= i <= n,
            out@ == hex_of(bytes@.take(i as int)),
        decreases n - i,
    {
        let b = bytes[i];
        out.push(hex_char_of(b / 16));
        out.push(hex_char_of(b % 16));
        proof {
            assert(bytes@.take(i + 1).drop_last() =~= bytes@.take(i as int));
            assert(bytes@.take(i + 1).last() == bytes@[i as int]);
        }
        i = i + 1;
    }
    proof {
        assert(bytes@.take(n as int) =~= bytes@);
    }
    out
}

/// Renders bytes as a `0x`-prefixed lowercase hexadecimal string.
pub fn to_hex_string(bytes: &[u8]) -> (r: String)
    ensures
        r@ == hex_prefixed(bytes@),
{
    let mut cs: Vec<char> = Vec::new();
    cs.push('0');
    cs.push('x');
    let mut rest = to_hex_chars(bytes);
    cs.append(&mut rest);
    proof {
        assert(cs@ =~= seq!['0', 'x'] + hex_of(bytes@));
    }
    chars_to_string(&cs)
}

} // verus!
