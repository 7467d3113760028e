use rewards::hash::to_hex_string;
use rewards::ipfs::{build_multipart_body, decode_ipfs_cid, parse_cid_bytes, parse_varint};
use rewards::RewardsError;

#[test]
fn legacy_cid_decodes_through_base58() {
    // A well-known 46-character legacy identifier.
    let cid = decode_ipfs_cid("QmYwAPJzv5CZsnA625s3Xf2nemtYgPpHdWEz79ojWnPbdG").unwrap();
    assert_eq!(cid.version, 0);
    assert_eq!(cid.codec, 0x70);
    assert_eq!(cid.mh_code, 0x12);
    assert_eq!(cid.digest.len(), 32);
}

#[test]
fn multibase_cid_decodes_to_the_same_structure() {
    // The base-32 form of a version-1, dag-pb, SHA2-256 identifier.
    let cid =
        decode_ipfs_cid("bafybeigdyrzt5sfp7udm7hu76uh7y26nf3efuylqabf3oclgtqy55fbzdi").unwrap();
    assert_eq!(cid.version, 1);
    assert_eq!(cid.codec, 0x70);
    assert_eq!(cid.mh_code, 0x12);
    assert_eq!(cid.digest.len(), 32);
}

#[test]
fn invalid_base58_characters_are_rejected() {
    // 46 characters starting Qm, but 0 and l are not base-58 digits.
    let good = "QmYwAPJzv5CZsnA625s3Xf2nemtYgPpHdWEz79ojWnPbdG";
    let bad: String = format!("Qm0l{}", &good[4..]);
    let bad = bad.as_str();
    assert_eq!(bad.len(), 46);
    assert_eq!(decode_ipfs_cid(bad).unwrap_err(), RewardsError::PublishError);
}

#[test]
fn undecodable_reference_is_a_publish_error() {
    assert_eq!(decode_ipfs_cid("").unwrap_err(), RewardsError::PublishError);
    assert_eq!(decode_ipfs_cid("??").unwrap_err(), RewardsError::PublishError);
}

#[test]
fn varints_parse_by_the_seven_bit_rule() {
    let bytes = vec![0x7fu8, 0x80, 0x01, 0xff, 0xff, 0x03];
    assert_eq!(parse_varint(&bytes, 0), Some((0x7f, 1)));
    assert_eq!(parse_varint(&bytes, 1), Some((128, 3)));
    assert_eq!(parse_varint(&bytes, 3), Some((0xffff, 6)));
    // A varint that runs off the end.
    assert_eq!(parse_varint(&vec![0x80u8], 0), None);
}

#[test]
fn raw_cid_bytes_parse_in_both_versions() {
    // Version 0: a bare SHA2-256 multihash.
    let mut v0 = vec![0x12u8, 0x20];
    v0.extend_from_slice(&[7u8; 32]);
    let c0 = parse_cid_bytes(&v0).unwrap();
    assert_eq!(c0.version, 0);
    assert_eq!(c0.digest, vec![7u8; 32]);

    // Version 1: version, codec, multihash code, size, digest.
    let mut v1 = vec![0x01u8, 0x70, 0x12, 0x03];
    v1.extend_from_slice(&[9u8, 8, 7]);
    let c1 = parse_cid_bytes(&v1).unwrap();
    assert_eq!(c1.version, 1);
    assert_eq!(c1.codec, 0x70);
    assert_eq!(c1.mh_code, 0x12);
    assert_eq!(c1.digest, vec![9, 8, 7]);

    // A digest shorter than its size word claims.
    let bad = vec![0x01u8, 0x70, 0x12, 0x05, 1, 2];
    assert_eq!(parse_cid_bytes(&bad).unwrap_err(), RewardsError::PublishError);
}

#[test]
fn multipart_body_wraps_the_content_exactly() {
    let body = build_multipart_body(&b"hello".to_vec());
    let expected = b"------RustBoundary\r\nContent-Disposition: form-data; name=\"file\"\r\nContent-Type: application/octet-stream\r\n\r\nhello\r\n------RustBoundary--\r\n";
    assert_eq!(body, expected.to_vec());
}

#[test]
fn hex_rendering_is_lowercase_and_prefixed() {
    assert_eq!(to_hex_string(&[0x00, 0xff, 0x1a]), "0x00ff1a");
    assert_eq!(to_hex_string(&[]), "0x");
}
