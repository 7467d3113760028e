//! Content identifiers and the upload payload.
//!
//! The storage service returns a content reference string in one of two
//! encodings: the legacy form, 46 characters beginning `Qm` and encoded
//! in base-58, or the self-describing multibase form. Both decode to one
//! canonical structure — version, content codec, and the multihash's code
//! and digest — parsed here from the decoded bytes. The base decodings
//! themselves come from outside implementations, named below.

use crate::RewardsError;
use vstd::prelude::*;
use vstd::string::StrSliceExecFns;

verus! {

/// What base-58 decoding (the Bitcoin alphabet) returns on a valid
/// string.
pub uninterp spec fn base58_decoded(s: Seq<char>) -> Seq<u8>;

/// What multibase decoding returns on a valid string.
pub uninterp spec fn multibase_decoded(s: Seq<char>) -> Seq<u8>;

/// Whether multibase decoding accepts the string: a known base prefix
/// followed by text that is valid in that base.
pub uninterp spec fn multibase_ok(s: Seq<char>) -> bool;

/// Whether a character belongs to the base-58 alphabet: the digits and
/// letters without 0, O, I and l.
pub open spec fn is_base58_char(c: char) -> bool {
    ('1' <= c && c <= '9') || ('A' <= c && c <= 'H') || ('J' <= c && c <= 'N') || ('P' <= c && c
        <= 'Z') || ('a' <= c && c <= 'k') || ('m' <= c && c <= 'z')
}

/// Relies on bs58's decode (with its default, Bitcoin alphabet): it
/// succeeds exactly when every character is in the alphabet, and its
/// result is a function of the input string alone.
#[verifier::external_body]
fn bs58_decode(s: &str) -> (r: Result<Vec<u8>, RewardsError>)
    ensures
        r is Ok <==> forall|i: int| 0 <= i < s@.len() ==> is_base58_char(#[trigger] s@[i]),
        match r {
            Ok(v) => v@ == base58_decoded(s@),
            Err(e) => e == RewardsError::PublishError,
        },
{
    match bs58::decode(s).into_vec() {
        Ok(v) => Ok(v),
        Err(_) => Err(RewardsError::PublishError),
    }
}

/// Relies on multibase's decode: it dispatches on the first character
/// and each base decoder is a deterministic function of the string, so
/// both its acceptance and its result depend on the input alone.
#[verifier::external_body]
fn multibase_decode(s: &str) -> (r: Result<Vec<u8>, RewardsError>)
    ensures
        r is Ok <==> multibase_ok(s@),
        match r {
            Ok(v) => v@ == multibase_decoded(s@),
            Err(e) => e == RewardsError::PublishError,
        },
{
    match multibase::decode(s) {
        Ok((_, v)) => Ok(v),
        Err(_) => Err(RewardsError::PublishError),
    }
}

/// Where the varint starting at `pos` ends (exclusive), or -1 when the
/// bytes run out first.
pub open spec fn varint_end(s: Seq<u8>, pos: int) -> int
    recommends
        0 <= pos <= s.len(),
    decreases s.len() - pos,
        when 0 <= pos <= s.len()
{
    if pos >= s.len() {
        -1
    } else if s[pos] < 128 {
        pos + 1
    } else {
        varint_end(s, pos + 1)
    }
}

/// The value of the varint in s[pos..end]: seven bits per byte, least
/// significant group first.
pub open spec fn varint_val(s: Seq<u8>, pos: int, end: int) -> nat
    decreases end - pos,
        when pos <= end
{
    if pos >= end {
        0
    } else {
        ((s[pos] % 128) as nat) + 128 * varint_val(s, pos + 1, end)
    }
}

/// Whether a varint of at most nine bytes starts at `pos`.
pub open spec fn valid_varint(s: Seq<u8>, pos: int) -> bool {
    varint_end(s, pos) != -1 && varint_end(s, pos) - pos <= 9
}

/// 128^n: the weight of the n-th varint group.
pub open spec fn pow128(n: nat) -> nat
    decreases n,
{
    if n == 0 {
        1
    } else {
        128 * pow128((n - 1) as nat)
    }
}

/// A varint's end, when it exists, lies past its start and within the
/// bytes.
proof fn lemma_varint_end_bounds(s: Seq<u8>, pos: int)
    requires
        0 <= pos <= s.len(),
    ensures
        varint_end(s, pos) == -1 || (pos < varint_end(s, pos) <= s.len()),
    decreases s.len() - pos,
{
    if pos >= s.len() {
    } else if s[pos] < 128 {
    } else {
        lemma_varint_end_bounds(s, pos + 1);
    }
}

/// One more group on the end of a varint value.
proof fn lemma_varint_val_snoc(s: Seq<u8>, pos: int, end: int)
    requires
        pos <= end < s.len(),
    ensures
        varint_val(s, pos, end + 1) == varint_val(s, pos, end) + ((s[end] % 128) as nat) * pow128(
            (end - pos) as nat,
        ),
    decreases end - pos,
{
    reveal_with_fuel(varint_val, 3);
    reveal_with_fuel(pow128, 2);
    if pos >= end {
        assert(varint_val(s, pos, pos + 1) == ((s[pos] % 128) as nat) + 128 * varint_val(
            s,
            pos + 1,
            pos + 1,
        ));
        assert(pow128(0) == 1);
        assert(((s[pos] % 128) as nat) * 1 == (s[pos] % 128) as nat);
    } else {
        lemma_varint_val_snoc(s, pos + 1, end);
        assert(pow128((end - pos) as nat) == 128 * pow128((end - pos - 1) as nat));
        assert(128 * (varint_val(s, pos + 1, end) + ((s[end] % 128) as nat) * pow128(
            (end - pos - 1) as nat,
        )) == 128 * varint_val(s, pos + 1, end) + ((s[end] % 128) as nat) * (128 * pow128(
            (end - pos - 1) as nat,
        ))) by (nonlinear_arith);
    }
}

/// Parses the varint at `pos`: its value and end on success, nothing
/// exactly when no varint of at most nine bytes starts there.
pub fn parse_varint(bytes: &Vec<u8>, pos: usize) -> (r: Option<(u64, usize)>)
    requires
        pos <= bytes@.len(),
    ensures
        match r {
            Some(p) => {
                &&& valid_varint(bytes@, pos as int)
                &&& p.1 as int == varint_end(bytes@, pos as int)
                &&& p.0 as nat == varint_val(bytes@, pos as int, p.1 as int)
                &&& pos < p.1 <= bytes@.len()
            },
            None => !valid_varint(bytes@, pos as int),
        },
{
    let n = bytes.len();
    let mut i: usize = pos;
    let mut value: u64 = 0;
    let mut mult: u64 = 1;
    let mut k: usize = 0;
    proof {
        reveal_with_fuel(pow128, 1);
    }
    while k < 9
        invariant
            n == bytes@.len(),
            pos <= i <= n,
            i == pos + k,
            0 <= k <= 8,
            mult as nat == pow128(k as nat),
            mult as nat <= 0x100_0000_0000_0000,
            value as nat == varint_val(bytes@, pos as int, i as int),
            (value as nat) < pow128(k as nat),
            varint_end(bytes@, pos as int) == varint_end(bytes@, i as int),
        decreases 9 - k,
    {
        if i >= n {
            return None;
        }
        let b = bytes[i];
        proof {
            lemma_varint_val_snoc(bytes@, pos as int, i as int);
            assert(pow128((k + 1) as nat) == 128 * pow128(k as nat));
            assert(((b % 128) as nat) * (mult as nat) <= 127 * pow128(k as nat))
                by (nonlinear_arith)
                requires
                    ((b % 128) as nat) <= 127,
                    mult as nat == pow128(k as nat),
            ;
            assert(pow128(8) == 0x100_0000_0000_0000) by {
                reveal_with_fuel(pow128, 9);
            }
            assert(pow128(k as nat) <= pow128(8)) by {
                lemma_pow128_le(k as nat, 8);
            }
        }
        value = value + ((b % 128) as u64) * mult;
        if b < 128 {
            proof {
                assert(varint_end(bytes@, i as int) == i + 1);
                lemma_varint_end_bounds(bytes@, pos as int);
            }
            return Some((value, i + 1));
        }
        if k == 8 {
            proof {
                assert(varint_end(bytes@, i as int) == varint_end(bytes@, i as int + 1));
                lemma_varint_end_bounds(bytes@, i as int + 1);
                if varint_end(bytes@, pos as int) != -1 {
                    assert(varint_end(bytes@, pos as int) - pos > 9);
                }
            }
            return None;
        }
        proof {
            assert(varint_end(bytes@, i as int) == varint_end(bytes@, i as int + 1));
        }
        mult = mult * 128;
        i = i + 1;
        k = k + 1;
    }
    proof {
        assert(false);
    }
    None
}

/// Weights of earlier groups never exceed weights of later ones.
proof fn lemma_pow128_le(a: nat, b: nat)
    requires
        a <= b,
    ensures
        pow128(a) <= pow128(b),
    decreases b,
{
    reveal_with_fuel(pow128, 2);
    if a < b {
        lemma_pow128_le(a, (b - 1) as nat);
        assert(pow128(b) == 128 * pow128((b - 1) as nat));
    }
}

/// One canonical content identifier: version, content codec, and the
/// multihash's code and digest.
#[derive(Debug)]
pub struct CidData {
    pub version: u64,
    pub codec: u64,
    pub mh_code: u64,
    pub digest: Vec<u8>,
}

/// What CID bytes parse to, if anything: (version, codec, multihash
/// code, digest). The legacy form is a bare SHA2-256 multihash of 34
/// bytes, read as version 0 with the dag-pb codec; otherwise a version
/// varint that must read 1, a codec varint, and a multihash of code,
/// size and exactly that many digest bytes.
pub open spec fn parse_cid_spec(s: Seq<u8>) -> Option<(nat, nat, nat, Seq<u8>)> {
    if s.len() == 34 && s[0] == 0x12 && s[1] == 0x20 {
        Some((0nat, 0x70nat, 0x12nat, s.skip(2)))
    } else if !valid_varint(s, 0) {
        None
    } else {
        let e1 = varint_end(s, 0);
        if varint_val(s, 0, e1) != 1 || !valid_varint(s, e1) {
            None
        } else {
            let e2 = varint_end(s, e1);
            if !valid_varint(s, e2) {
                None
            } else {
                let e3 = varint_end(s, e2);
                if !valid_varint(s, e3) {
                    None
                } else {
                    let e4 = varint_end(s, e3);
                    if s.len() - e4 != varint_val(s, e3, e4) {
                        None
                    } else {
                        Some(
                            (
                                1nat,
                                varint_val(s, e1, e2),
                                varint_val(s, e2, e3),
                                s.skip(e4),
                            ),
                        )
                    }
                }
            }
        }
    }
}

/// Whether a parsed identifier matches the parse of the given bytes.
pub open spec fn cid_matches(c: CidData, f: Option<(nat, nat, nat, Seq<u8>)>) -> bool {
    &&& f is Some
    &&& c.version as nat == f.unwrap().0
    &&& c.codec as nat == f.unwrap().1
    &&& c.mh_code as nat == f.unwrap().2
    &&& c.digest@ == f.unwrap().3
}

/// Parses CID bytes into the canonical structure. Succeeds exactly when
/// the bytes parse.
pub fn parse_cid_bytes(bytes: &Vec<u8>) -> (r: Result<CidData, RewardsError>)
    ensures
        match r {
            Ok(c) => cid_matches(c, parse_cid_spec(bytes@)),
            Err(e) => parse_cid_spec(bytes@) is None && e == RewardsError::PublishError,
        },
{
    let n = bytes.len();
    if n == 34 && bytes[0] == 0x12 && bytes[1] == 0x20 {
        let mut digest: Vec<u8> = Vec::new();
        let mut i: usize = 2;
        while i < 34
            invariant
                n == bytes@.len(),
                n == 34,
                2 <= i <= 34,
                digest@ =~= bytes@.subrange(2, i as int),
            decreases 34 - i,
        {
            digest.push(bytes[i]);
            proof {
                assert(bytes@.subrange(2, i as int + 1) =~= bytes@.subrange(2, i as int).push(
                    bytes@[i as int],
                ));
            }
            i = i + 1;
        }
        proof {
            assert(bytes@.subrange(2, 34) =~= bytes@.skip(2));
        }
        return Ok(CidData { version: 0, codec: 0x70, mh_code: 0x12, digest });
    }
    let (version, e1) = match parse_varint(bytes, 0) {
        Some(p) => p,
        None => {
            return Err(RewardsError::PublishError);
        },
    };
    if version != 1 {
        return Err(RewardsError::PublishError);
    }
    let (codec, e2) = match parse_varint(bytes, e1) {
        Some(p) => p,
        None => {
            return Err(RewardsError::PublishError);
        },
    };
    let (mh_code, e3) = match parse_varint(bytes, e2) {
        Some(p) => p,
        None => {
            return Err(RewardsError::PublishError);
        },
    };
    let (size, e4) = match parse_varint(bytes, e3) {
        Some(p) => p,
        None => {
            return Err(RewardsError::PublishError);
        },
    };
    let remaining: usize = n - e4;
    if (remaining as u64) != size {
        return Err(RewardsError::PublishError);
    }
    let mut digest: Vec<u8> = Vec::new();
    let mut i: usize = e4;
    while i < n
        invariant
            n == bytes@.len(),
            e4 <= i <= n,
            digest@ =~= bytes@.subrange(e4 as int, i as int),
        decreases n - i,
    {
        digest.push(bytes[i]);
        proof {
            assert(bytes@.subrange(e4 as int, i as int + 1) =~= bytes@.subrange(
                e4 as int,
                i as int,
            ).push(bytes@[i as int]));
        }
        i = i + 1;
    }
    proof {
        assert(bytes@.subrange(e4 as int, n as int) =~= bytes@.skip(e4 as int));
    }
    Ok(CidData { version: 1, codec, mh_code, digest })
}

/// Whether the string has the legacy shape: 46 characters starting `Qm`.
pub open spec fn is_qm_form(s: Seq<char>) -> bool {
    s.len() == 46 && s[0] == 'Q' && s[1] == 'm'
}

/// Decodes a content reference string into the canonical identifier,
/// recognizing the legacy base-58 form by its shape and reading anything
/// else as multibase. Either way, success is exactly a string that its
/// base accepts and whose decoded bytes parse.
pub fn decode_ipfs_cid(cid_str: &str) -> (r: Result<CidData, RewardsError>)
    ensures
        match r {
            Ok(c) => {
                if is_qm_form(cid_str@) {
                    cid_matches(c, parse_cid_spec(base58_decoded(cid_str@)))
                } else {
                    multibase_ok(cid_str@) && cid_matches(
                        c,
                        parse_cid_spec(multibase_decoded(cid_str@)),
                    )
                }
            },
            Err(e) => {
                &&& e == RewardsError::PublishError
                &&& is_qm_form(cid_str@) ==> ((exists|i: int|
                    0 <= i < cid_str@.len() && !is_base58_char(#[trigger] cid_str@[i]))
                    || parse_cid_spec(base58_decoded(cid_str@)) is None)
                &&& !is_qm_form(cid_str@) ==> (!multibase_ok(cid_str@) || parse_cid_spec(
                    multibase_decoded(cid_str@),
                ) is None)
            },
        },
{
    let n = cid_str.unicode_len();
    let qm = n == 46 && cid_str.get_char(0) == 'Q' && cid_str.get_char(1) == 'm';
    if qm {
        let decoded = bs58_decode(cid_str)?;
        parse_cid_bytes(&decoded)
    } else {
        let decoded = multibase_decode(cid_str)?;
        parse_cid_bytes(&decoded)
    }
}

/// The opening of the upload's multipart body, through the blank line
/// before the content.
pub open spec fn multipart_prefix() -> Seq<u8> {
    "------RustBoundary\r\nContent-Disposition: form-data; name=\"file\"\r\nContent-Type: application/octet-stream\r\n\r\n"@.map_values(
        |c: char| c as u8,
    )
}

/// The closing delimiter of the upload's multipart body.
pub open spec fn multipart_suffix() -> Seq<u8> {
    "\r\n------RustBoundary--\r\n"@.map_values(|c: char| c as u8)
}

/// The whole multipart body: the opening, the content, the closing.
pub open spec fn multipart_body_of(content: Seq<u8>) -> Seq<u8> {
    multipart_prefix() + content + multipart_suffix()
}

/// Builds the multipart request body that carries the document bytes to
/// the storage service.
pub fn build_multipart_body(content: &Vec<u8>) -> (r: Vec<u8>)
    ensures
        r@ == multipart_body_of(content@),
{
    let head =
        "------RustBoundary\r\nContent-Disposition: form-data; name=\"file\"\r\nContent-Type: application/octet-stream\r\n\r\n";
    let tail = "\r\n------RustBoundary--\r\n";
    proof {
        reveal_strlit(
            "------RustBoundary\r\nContent-Disposition: form-data; name=\"file\"\r\nContent-Type: application/octet-stream\r\n\r\n",
        );
        reveal_strlit("\r\n------RustBoundary--\r\n");
    }
    let mut out = ascii_bytes_vec(head);
    crate::merkle::push_bytes(&mut out, content);
    let mut t = ascii_bytes_vec(tail);
    out.append(&mut t);
    proof {
        assert(out@ =~= multipart_body_of(content@));
    }
    out
}

/// The bytes of an ASCII string.
fn ascii_bytes_vec(s: &str) -> (r: Vec<u8>)
    requires
        vstd::string::is_ascii(s),
    ensures
        r@ == s@.map_values(|c: char| c as u8),
{
    broadcast use vstd::string::is_ascii_spec_bytes;

    let r = s.as_bytes_vec();
    proof {
        assert(r@ =~= s@.map_values(|c: char| c as u8));
    }
    r
}

} // verus!
