use rewards::trigger::{decode_trigger_event, encode_trigger_output, AvsOutput, TriggerData};
use rewards::RewardsError;

#[test]
fn cron_tick_yields_its_nonce() {
    let t = TriggerData::Cron { trigger_time_nanos: 123_456_789 };
    assert_eq!(decode_trigger_event(&t), Ok(123_456_789));
}

#[test]
fn contract_event_yields_the_embedded_id() {
    let mut log = vec![0u8; 32];
    log[31] = 7;
    let t = TriggerData::EvmContractEvent { log_data: log };
    assert_eq!(decode_trigger_event(&t), Ok(7));

    let mut log2 = vec![0u8; 32];
    log2[24] = 0x01;
    log2[31] = 0x02;
    let t2 = TriggerData::EvmContractEvent { log_data: log2 };
    assert_eq!(decode_trigger_event(&t2), Ok(0x0100_0000_0000_0002));
}

#[test]
fn malformed_event_log_is_a_decode_error() {
    let t = TriggerData::EvmContractEvent { log_data: vec![0u8; 31] };
    assert_eq!(decode_trigger_event(&t), Err(RewardsError::DecodeError));

    let mut log = vec![0u8; 32];
    log[0] = 1;
    let t2 = TriggerData::EvmContractEvent { log_data: log };
    assert_eq!(decode_trigger_event(&t2), Err(RewardsError::DecodeError));
}

#[test]
fn unknown_trigger_kind_is_rejected() {
    let t = TriggerData::Raw { payload: vec![1, 2, 3] };
    assert_eq!(decode_trigger_event(&t), Err(RewardsError::UnsupportedTrigger));
    let empty = TriggerData::Raw { payload: vec![] };
    assert_eq!(decode_trigger_event(&empty), Err(RewardsError::UnsupportedTrigger));
}

#[test]
fn output_encoding_is_byte_exact() {
    let root = vec![0xaau8; 32];
    let output = AvsOutput {
        root: root.clone(),
        ipfs_hash_data: vec![0x01, 0x02, 0x03],
        ipfs_hash: "Qm".to_string(),
    };
    let encoded = encode_trigger_output(5, &output);

    // Envelope: id word, offset word, length word, then the inner tuple.
    assert_eq!(encoded[0..24], [0u8; 24]);
    assert_eq!(encoded[24..32], [0, 0, 0, 0, 0, 0, 0, 5]);
    assert_eq!(encoded[32..63], [0u8; 31]);
    assert_eq!(encoded[63], 0x40);

    // Inner tuple: root, two offsets, bytes tail, string tail.
    let inner_len =
        u64::from_be_bytes(encoded[88..96].try_into().unwrap()) as usize;
    let inner = &encoded[96..96 + inner_len];
    assert_eq!(encoded.len(), 96 + inner_len);
    assert_eq!(&inner[0..32], &root[..]);
    assert_eq!(inner[63], 0x60);
    // The bytes tail is 32 (length word) + 32 (3 bytes padded), so the
    // string offset is 0x60 + 0x40.
    assert_eq!(inner[95], 0xa0);
    assert_eq!(inner[96..128], {
        let mut w = [0u8; 32];
        w[31] = 3;
        w
    });
    assert_eq!(&inner[128..131], &[1, 2, 3]);
    assert_eq!(&inner[131..160], &[0u8; 29]);
    assert_eq!(inner[160..192], {
        let mut w = [0u8; 32];
        w[31] = 2;
        w
    });
    assert_eq!(&inner[192..194], b"Qm");
    assert_eq!(&inner[194..224], &[0u8; 30]);
    assert_eq!(inner.len(), 224);
}
