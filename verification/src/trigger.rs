//! Trigger decoding and output encoding.
//!
//! A trigger is either a scheduled tick, whose nanosecond timestamp
//! serves as the correlation id, or a contract event whose log data holds
//! the id as one ABI-encoded 64-bit word. Unknown kinds are rejected.
//! The result of a run is returned as an ABI-encoded record: the
//! correlation id beside the encoded (root, content digest, content
//! identifier) tuple.

use crate::uint256::limb_be8;
use crate::uint256::be_bytes_val;
use crate::RewardsError;
use vstd::prelude::*;

verus! {

/// One trigger payload, tagged by kind.
pub enum TriggerData {
    /// A scheduled tick with its timestamp-derived nonce.
    Cron { trigger_time_nanos: u64 },
    /// A contract event's log data.
    EvmContractEvent { log_data: Vec<u8> },
    /// Any payload of an unrecognized kind.
    Raw { payload: Vec<u8> },
}

/// Whether event log data matches the expected schema: a single 32-byte
/// word holding a 64-bit correlation id.
pub open spec fn is_trigger_log(s: Seq<u8>) -> bool {
    s.len() == 32 && forall|i: int| 0 <= i < 24 ==> s[i] == 0
}

/// Decodes a trigger payload into its correlation id. Total over the
/// declared kinds: a tick yields its nonce, a well-formed contract event
/// yields the embedded id, a malformed event is a decode failure, and an
/// unrecognized kind is always rejected, with nothing partially decoded.
#[verifier::loop_isolation(false)]
pub fn decode_trigger_event(trigger_data: &TriggerData) -> (r: Result<u64, RewardsError>)
    ensures
        match trigger_data {
            TriggerData::Cron { trigger_time_nanos } => r == Ok::<u64, RewardsError>(
                *trigger_time_nanos,
            ),
            TriggerData::EvmContractEvent { log_data } => {
                if is_trigger_log(log_data@) {
                    r is Ok && r.unwrap() as nat == be_bytes_val(log_data@)
                } else {
                    r == Err::<u64, RewardsError>(RewardsError::DecodeError)
                }
            },
            TriggerData::Raw { .. } => r == Err::<u64, RewardsError>(
                RewardsError::UnsupportedTrigger,
            ),
        },
{
    match trigger_data {
        TriggerData::Cron { trigger_time_nanos } => Ok(*trigger_time_nanos),
        TriggerData::EvmContractEvent { log_data } => {
            if log_data.len() != 32 {
                return Err(RewardsError::DecodeError);
            }
            let mut i: usize = 0;
            while i < 24
                invariant
                    log_data@.len() == 32,
                    0 <= i <= 24,
                    forall|j: int| 0 <= j < i ==> log_data@[j] == 0,
                decreases 24 - i,
            {
                if log_data[i] != 0 {
                    return Err(RewardsError::DecodeError);
                }
                i = i + 1;
            }
            let id = crate::uint256::limb_from_be(log_data.as_slice(), 24);
            proof {
                let s = log_data@;
                crate::uint256::lemma_be_split(s, 24);
                crate::uint256::lemma_pow256_vals();
                assert(forall|j: int| 0 <= j < s.take(24).len() ==> s.take(24)[j] == 0);
                lemma_be_zero_prefix(s.take(24));
                assert(s.skip(24) =~= s.subrange(24, 32));
                assert(0 * crate::uint256::pow256(8) == 0) by (nonlinear_arith);
            }
            Ok(id)
        },
        TriggerData::Raw { .. } => Err(RewardsError::UnsupportedTrigger),
    }
}

/// All-zero big-endian bytes have value zero.
proof fn lemma_be_zero_prefix(s: Seq<u8>)
    requires
        forall|i: int| 0 <= i < s.len() ==> s[i] == 0,
    ensures
        be_bytes_val(s) == 0,
    decreases s.len(),
{
    reveal_with_fuel(be_bytes_val, 2);
    if s.len() > 0 {
        assert(forall|i: int| 0 <= i < s.drop_last().len() ==> s.drop_last()[i] == 0);
        lemma_be_zero_prefix(s.drop_last());
    }
}

/// The result of one run, before encoding: the Merkle root, the digest of
/// the published document's content identifier, and that identifier's
/// string form.
pub struct AvsOutput {
    pub root: Vec<u8>,
    pub ipfs_hash_data: Vec<u8>,
    pub ipfs_hash: String,
}

impl AvsOutput {
    /// The root is one 32-byte digest; the identifier string is ASCII.
    pub open spec fn wf(&self) -> bool {
        &&& self.root@.len() == 32
        &&& vstd::utf8::is_ascii_chars(self.ipfs_hash@)
        &&& self.ipfs_hash_data@.len() <= 0xffff_ffff
        &&& self.ipfs_hash@.len() <= 0xffff_ffff
    }
}

/// One 32-byte word holding a 64-bit value.
pub open spec fn abi_word_u64(x: u64) -> Seq<u8> {
    Seq::new(24, |i: int| 0u8) + limb_be8(x)
}

/// Zero bytes padding a length up to a multiple of 32.
pub open spec fn abi_padding(n: nat) -> Seq<u8> {
    Seq::new(((32 - (n % 32)) % 32) as nat, |i: int| 0u8)
}

/// The tail encoding of dynamic bytes: a length word, the bytes, zero
/// padding to a word boundary.
pub open spec fn abi_bytes_tail(b: Seq<u8>) -> Seq<u8> {
    abi_word_u64(b.len() as u64) + b + abi_padding(b.len())
}

/// The ASCII bytes of a string.
pub open spec fn ascii_bytes_of(s: Seq<char>) -> Seq<u8> {
    s.map_values(|c: char| c as u8)
}

/// The ABI encoding of the output tuple (bytes32, bytes, string): the
/// root word, two tail offsets, then each dynamic tail in order.
pub open spec fn abi_avs_output(o: AvsOutput) -> Seq<u8> {
    let tail1 = abi_bytes_tail(o.ipfs_hash_data@);
    o.root@ + abi_word_u64(0x60) + abi_word_u64((0x60 + tail1.len()) as u64) + tail1
        + abi_bytes_tail(ascii_bytes_of(o.ipfs_hash@))
}

/// The ABI encoding of the correlation-tagged envelope (uint64, bytes):
/// the id word, the offset word, then the wrapped payload as a tail.
pub open spec fn abi_data_with_id(trigger_id: u64, data: Seq<u8>) -> Seq<u8> {
    abi_word_u64(trigger_id) + abi_word_u64(0x40) + abi_bytes_tail(data)
}

/// Appends one 32-byte word holding a 64-bit value.
fn push_abi_word_u64(out: &mut Vec<u8>, x: u64)
    ensures
        final(out)@ == old(out)@ + abi_word_u64(x),
{
    let ghost pre = out@;
    let mut i: usize = 0;
    while i < 24
        invariant
            0 <= i <= 24,
            out@ =~= pre + Seq::new(i as nat, |k: int| 0u8),
        decreases 24 - i,
    {
        out.push(0);
        proof {
            assert((pre + Seq::new(i as nat, |k: int| 0u8)).push(0u8) =~= pre + Seq::new(
                (i + 1) as nat,
                |k: int| 0u8,
            ));
        }
        i = i + 1;
    }
    let mut limb = crate::uint256::limb_be_bytes(x);
    let ghost mid = out@;
    out.append(&mut limb);
    proof {
        assert(out@ =~= pre + abi_word_u64(x));
    }
}

/// Appends the tail encoding of dynamic bytes.
fn push_abi_bytes_tail(out: &mut Vec<u8>, b: &Vec<u8>)
    requires
        b@.len() <= 0xffff_ffff,
    ensures
        final(out)@ == old(out)@ + abi_bytes_tail(b@),
{
    let ghost pre = out@;
    push_abi_word_u64(out, b.len() as u64);
    let ghost mid = out@;
    let n = b.len();
    let mut i: usize = 0;
    while i < n
        invariant
            n == b@.len(),
            0 <= i <= n,
            out@ =~= mid + b@.take(i as int),
        decreases n - i,
    {
        out.push(b[i]);
        proof {
            assert(mid + b@.take(i as int + 1) =~= (mid + b@.take(i as int)).push(b@[i as int]));
        }
        i = i + 1;
    }
    proof {
        assert(b@.take(n as int) =~= b@);
    }
    let pad: usize = (32 - (n % 32)) % 32;
    let ghost mid2 = out@;
    let mut j: usize = 0;
    while j < pad
        invariant
            0 <= j <= pad,
            out@ =~= mid2 + Seq::new(j as nat, |k: int| 0u8),
        decreases pad - j,
    {
        out.push(0);
        proof {
            assert((mid2 + Seq::new(j as nat, |k: int| 0u8)).push(0u8) =~= mid2 + Seq::new(
                (j + 1) as nat,
                |k: int| 0u8,
            ));
        }
        j = j + 1;
    }
    proof {
        assert(pad as nat == ((32 - (b@.len() % 32)) % 32) as nat);
        assert(out@ =~= pre + abi_bytes_tail(b@));
    }
}

/// Encodes the output tuple of one run.
pub fn encode_avs_output(output: &AvsOutput) -> (r: Vec<u8>)
    requires
        output.wf(),
    ensures
        r@ == abi_avs_output(*output),
{
    broadcast use vstd::string::is_ascii_spec_bytes;

    let mut out: Vec<u8> = Vec::new();
    let mut root = crate::merkle::dup_bytes(&output.root);
    out.append(&mut root);
    proof {
        assert(out@ =~= output.root@);
    }
    push_abi_word_u64(&mut out, 0x60);
    let data_len = output.ipfs_hash_data.len();
    let tail1_len: u64 = 32 + (data_len as u64) + (((32 - ((data_len as u64) % 32)) % 32));
    proof {
        assert(abi_bytes_tail(output.ipfs_hash_data@).len() == 32 + output.ipfs_hash_data@.len()
            + ((32 - (output.ipfs_hash_data@.len() % 32)) % 32));
    }
    push_abi_word_u64(&mut out, 0x60 + tail1_len);
    push_abi_bytes_tail(&mut out, &output.ipfs_hash_data);
    let s: &str = output.ipfs_hash.as_str();
    let sb = s.as_bytes_vec();
    proof {
        assert(vstd::string::is_ascii(s));
        assert(sb@ =~= ascii_bytes_of(output.ipfs_hash@));
    }
    push_abi_bytes_tail(&mut out, &sb);
    proof {
        assert(out@ =~= abi_avs_output(*output));
    }
    out
}

/// Encodes the correlation-tagged envelope handed back to the host: the
/// trigger id beside the ABI-encoded output record.
pub fn encode_trigger_output(trigger_id: u64, output: &AvsOutput) -> (r: Vec<u8>)
    requires
        output.wf(),
        abi_avs_output(*output).len() <= 0xffff_ffff,
    ensures
        r@ == abi_data_with_id(trigger_id, abi_avs_output(*output)),
{
    let inner = encode_avs_output(output);
    let mut out: Vec<u8> = Vec::new();
    push_abi_word_u64(&mut out, trigger_id);
    push_abi_word_u64(&mut out, 0x40);
    push_abi_bytes_tail(&mut out, &inner);
    proof {
        assert(Seq::<u8>::empty() + abi_word_u64(trigger_id) =~= abi_word_u64(trigger_id));
        assert(out@ =~= abi_data_with_id(trigger_id, abi_avs_output(*output)));
    }
    out
}

} // verus!
