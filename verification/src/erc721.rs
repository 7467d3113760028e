//! A reward source backed by holders of one ERC-721 contract.
//!
//! The chain is reached through a capability: a state-reading call that
//! takes a contract address and ABI-encoded call data and returns raw
//! bytes. The source encodes its queries, hands them to the reader, and
//! decodes the returned bytes; each account's reward is the per-token
//! rate times its token balance, overflow-checked.

use crate::claim::{addr_bytes_of, is_hex_address, Address};
use crate::hash::{hex_prefixed, keccak256, keccak_of};
use crate::sources::{MetaEntry, Source};
use crate::uint256::{be_bytes_val, dec_string_of, lemma_be_split, lemma_pow256_vals, pow256, pow2_256, Uint256};
use crate::RewardsError;
use vstd::prelude::*;
use vstd::string::StringExecFns;

verus! {

/// A state-reading call against one contract: ABI-encoded call data in,
/// raw return bytes out. What comes back depends on the chain, so nothing
/// is promised of it; the decoding functions say what is done with every
/// possible answer.
pub trait ChainReader {
    fn call_contract(&self, to: &Address, input: &Vec<u8>) -> (r: Result<Vec<u8>, RewardsError>);
}

/// The ASCII bytes of the balance query's signature.
pub open spec fn balance_of_sig() -> Seq<u8> {
    "balanceOf(address)"@.map_values(|c: char| c as u8)
}

/// The ASCII bytes of the holder-enumeration query's signature.
pub open spec fn all_holders_sig() -> Seq<u8> {
    "getAllHolders()"@.map_values(|c: char| c as u8)
}

/// The four-byte selector of a call signature.
pub open spec fn selector_of(sig: Seq<u8>) -> Seq<u8> {
    keccak_of(sig).take(4)
}

/// The call data of a balance query: selector, then the owner address as
/// one 32-byte word.
pub open spec fn balance_of_call_data(owner: Seq<u8>) -> Seq<u8> {
    selector_of(balance_of_sig()) + Seq::new(12, |i: int| 0u8) + owner
}

/// The call data of a holder-enumeration query: the selector alone.
pub open spec fn all_holders_call_data() -> Seq<u8> {
    selector_of(all_holders_sig())
}

/// The signature bytes, computed.
fn balance_of_sig_exec() -> (r: Vec<u8>)
    ensures
        r@ == balance_of_sig(),
{
    let s = "balanceOf(address)";
    proof {
        reveal_strlit("balanceOf(address)");
    }
    ascii_bytes(s)
}

/// The signature bytes, computed.
fn all_holders_sig_exec() -> (r: Vec<u8>)
    ensures
        r@ == all_holders_sig(),
{
    let s = "getAllHolders()";
    proof {
        reveal_strlit("getAllHolders()");
    }
    ascii_bytes(s)
}

/// The bytes of an ASCII string.
fn ascii_bytes(s: &str) -> (r: Vec<u8>)
    requires
        vstd::string::is_ascii(s),
    ensures
        r@ == s@.map_values(|c: char| c as u8),
{
    broadcast use vstd::string::is_ascii_spec_bytes;

    let r = s.as_bytes_vec();
    proof {
        assert(r@ =~= s@.map_values(|c: char| c as u8));
    }
    r
}

/// Encodes a balance query for one owner.
pub fn encode_balance_of_call(owner: &Address) -> (r: Vec<u8>)
    requires
        owner.wf(),
    ensures
        r@ == balance_of_call_data(owner.bytes@),
{
    let sig = balance_of_sig_exec();
    let digest = keccak256(sig.as_slice());
    let mut out: Vec<u8> = Vec::new();
    out.push(digest[0]);
    out.push(digest[1]);
    out.push(digest[2]);
    out.push(digest[3]);
    let mut i: usize = 0;
    while i < 12
        invariant
            0 <= i <= 12,
            out@ =~= keccak_of(balance_of_sig()).take(4) + Seq::new(i as nat, |k: int| 0u8),
        decreases 12 - i,
    {
        out.push(0);
        proof {
            assert((keccak_of(balance_of_sig()).take(4) + Seq::new(i as nat, |k: int| 0u8)).push(
                0u8,
            ) =~= keccak_of(balance_of_sig()).take(4) + Seq::new((i + 1) as nat, |k: int| 0u8));
        }
        i = i + 1;
    }
    let mut j: usize = 0;
    let ghost mid = out@;
    while j < 20
        invariant
            owner.wf(),
            0 <= j <= 20,
            out@ =~= mid + owner.bytes@.take(j as int),
        decreases 20 - j,
    {
        out.push(owner.bytes[j]);
        proof {
            assert(mid + owner.bytes@.take(j as int + 1) =~= (mid + owner.bytes@.take(
                j as int,
            )).push(owner.bytes@[j as int]));
        }
        j = j + 1;
    }
    proof {
        assert(out@ =~= balance_of_call_data(owner.bytes@));
    }
    out
}

/// Encodes a holder-enumeration query.
pub fn encode_all_holders_call() -> (r: Vec<u8>)
    ensures
        r@ == all_holders_call_data(),
{
    let sig = all_holders_sig_exec();
    let digest = keccak256(sig.as_slice());
    let mut out: Vec<u8> = Vec::new();
    out.push(digest[0]);
    out.push(digest[1]);
    out.push(digest[2]);
    out.push(digest[3]);
    proof {
        assert(out@ =~= keccak_of(all_holders_sig()).take(4));
    }
    out
}

/// Decodes a returned 256-bit word. The return data must be exactly one
/// 32-byte word; anything else is an undecodable source answer.
pub fn decode_uint_word(bytes: &Vec<u8>) -> (r: Result<Uint256, RewardsError>)
    ensures
        match r {
            Ok(v) => bytes@.len() == 32 && v.wf() && v.val() == be_bytes_val(bytes@),
            Err(e) => bytes@.len() != 32 && e == RewardsError::SourceQueryFailure,
        },
{
    if bytes.len() != 32 {
        return Err(RewardsError::SourceQueryFailure);
    }
    Ok(Uint256::from_be_bytes(bytes.as_slice()))
}

/// Whether the bytes are a returned ABI `address[]`: an offset word of
/// 32, a count word, then one word per address, each left-padded with
/// twelve zero bytes.
pub open spec fn is_abi_address_array(s: Seq<u8>) -> bool {
    &&& s.len() >= 64
    &&& be_bytes_val(s.subrange(0, 32)) == 32
    &&& s.len() == 64 + 32 * be_bytes_val(s.subrange(32, 64))
    &&& forall|k: int|
        0 <= k < be_bytes_val(s.subrange(32, 64)) ==> #[trigger] abi_addr_word_ok(s, k)
}

/// Whether address word k is left-padded with twelve zero bytes.
pub open spec fn abi_addr_word_ok(s: Seq<u8>, k: int) -> bool {
    forall|m: int| 0 <= m < 12 ==> #[trigger] s[64 + 32 * k + m] == 0
}

/// The address bytes in word k.
pub open spec fn abi_addr_at(s: Seq<u8>, k: int) -> Seq<u8> {
    s.subrange(64 + 32 * k + 12, 64 + 32 * k + 32)
}

/// All-zero big-endian bytes have value zero, and a nonzero byte makes
/// the value positive.
proof fn lemma_be_zeros(s: Seq<u8>)
    ensures
        (forall|i: int| 0 <= i < s.len() ==> s[i] == 0) <==> be_bytes_val(s) == 0,
    decreases s.len(),
{
    reveal_with_fuel(be_bytes_val, 2);
    if s.len() == 0 {
    } else {
        lemma_be_zeros(s.drop_last());
        if forall|i: int| 0 <= i < s.len() ==> s[i] == 0 {
            assert(forall|i: int| 0 <= i < s.drop_last().len() ==> s.drop_last()[i] == 0);
            assert(s.last() == 0);
        }
        if be_bytes_val(s) == 0 {
            assert(be_bytes_val(s.drop_last()) == 0);
            assert forall|i: int| 0 <= i < s.len() implies s[i] == 0 by {
                if i < s.len() - 1 {
                    assert(s.drop_last()[i] == 0);
                }
            }
        }
    }
}

/// Decodes a returned ABI `address[]`. Succeeds exactly on well-formed
/// return data, yielding the addresses in order; anything else is an
/// undecodable source answer.
pub fn decode_address_array(bytes: &Vec<u8>) -> (r: Result<Vec<Address>, RewardsError>)
    ensures
        match r {
            Ok(v) => {
                &&& is_abi_address_array(bytes@)
                &&& v@.len() == be_bytes_val(bytes@.subrange(32, 64))
                &&& forall|k: int|
                    0 <= k < v@.len() ==> (#[trigger] v@[k]).wf() && v@[k].bytes@ == abi_addr_at(
                        bytes@,
                        k,
                    )
            },
            Err(e) => !is_abi_address_array(bytes@) && e == RewardsError::SourceQueryFailure,
        },
{
    let n = bytes.len();
    if n < 64 || n % 32 != 0 {
        proof {
            if n >= 64 {
                assert(bytes@.len() != 64 + 32 * be_bytes_val(bytes@.subrange(32, 64)));
            }
        }
        return Err(RewardsError::SourceQueryFailure);
    }
    let mut i: usize = 0;
    while i < 31
        invariant
            n == bytes@.len(),
            n >= 64,
            0 <= i <= 31,
            forall|j: int| 0 <= j < i ==> bytes@[j] == 0,
        decreases 31 - i,
    {
        if bytes[i] != 0 {
            proof {
                lemma_offset_not_32(bytes@, i as int);
            }
            return Err(RewardsError::SourceQueryFailure);
        }
        i = i + 1;
    }
    if bytes[31] != 32 {
        proof {
            lemma_offset_byte(bytes@);
            assert(be_bytes_val(bytes@.subrange(0, 32)) != 32);
        }
        return Err(RewardsError::SourceQueryFailure);
    }
    proof {
        lemma_offset_byte(bytes@);
        assert(be_bytes_val(bytes@.subrange(0, 32)) == 32);
    }
    let mut j: usize = 32;
    while j < 56
        invariant
            n == bytes@.len(),
            n >= 64,
            32 <= j <= 56,
            forall|m: int| 32 <= m < j ==> bytes@[m] == 0,
        decreases 56 - j,
    {
        if bytes[j] != 0 {
            proof {
                lemma_count_huge(bytes@, j as int);
            }
            return Err(RewardsError::SourceQueryFailure);
        }
        j = j + 1;
    }
    let count64: u64 = crate::uint256::limb_from_be(bytes.as_slice(), 56);
    proof {
        lemma_count_value(bytes@, count64);
    }
    let need: u128 = 64 + 32 * (count64 as u128);
    if (n as u128) != need {
        return Err(RewardsError::SourceQueryFailure);
    }
    let count: usize = count64 as usize;
    let mut out: Vec<Address> = Vec::new();
    let mut k: usize = 0;
    while k < count
        invariant
            n == bytes@.len(),
            n as int == 64 + 32 * (count as int),
            count64 as int == count as int,
            be_bytes_val(bytes@.subrange(32, 64)) == count64 as nat,
            be_bytes_val(bytes@.subrange(0, 32)) == 32,
            0 <= k <= count,
            out@.len() == k,
            forall|m: int| 0 <= m < k ==> #[trigger] abi_addr_word_ok(bytes@, m),
            forall|m: int|
                0 <= m < k ==> (#[trigger] out@[m]).wf() && out@[m].bytes@ == abi_addr_at(
                    bytes@,
                    m,
                ),
        decreases count - k,
    {
        let base: usize = 64 + 32 * k;
        let mut m: usize = 0;
        while m < 12
            invariant
                n == bytes@.len(),
                n as int == 64 + 32 * (count as int),
                0 <= k < count,
                base as int == 64 + 32 * (k as int),
                0 <= m <= 12,
                forall|t: int| 0 <= t < m ==> #[trigger] bytes@[base + t] == 0,
            decreases 12 - m,
        {
            if bytes[base + m] != 0 {
                proof {
                    assert(bytes@[64 + 32 * (k as int) + m] != 0);
                    assert(!abi_addr_word_ok(bytes@, k as int));
                }
                return Err(RewardsError::SourceQueryFailure);
            }
            m = m + 1;
        }
        let mut ab: Vec<u8> = Vec::new();
        let mut t: usize = 0;
        while t < 20
            invariant
                n == bytes@.len(),
                n as int == 64 + 32 * (count as int),
                0 <= k < count,
                base as int == 64 + 32 * (k as int),
                0 <= t <= 20,
                ab@ =~= bytes@.subrange(base + 12, base + 12 + t),
            decreases 20 - t,
        {
            ab.push(bytes[base + 12 + t]);
            proof {
                assert(bytes@.subrange(base as int + 12, base as int + 12 + t + 1)
                    =~= bytes@.subrange(base as int + 12, base as int + 12 + t).push(
                    bytes@[base as int + 12 + t],
                ));
            }
            t = t + 1;
        }
        proof {
            assert(abi_addr_word_ok(bytes@, k as int));
            assert(ab@ =~= abi_addr_at(bytes@, k as int));
        }
        out.push(Address { bytes: ab });
        k = k + 1;
    }
    proof {
        assert(is_abi_address_array(bytes@));
    }
    Ok(out)
}

/// A nonzero byte among the first 31 makes the offset word exceed 32.
proof fn lemma_offset_not_32(s: Seq<u8>, i: int)
    requires
        s.len() >= 64,
        0 <= i < 31,
        s[i] != 0,
    ensures
        be_bytes_val(s.subrange(0, 32)) != 32,
{
    let w = s.subrange(0, 32);
    lemma_be_split(w, 31);
    lemma_pow256_vals();
    lemma_be_zeros(w.take(31));
    assert(w.take(31)[i] == s[i]);
    assert(be_bytes_val(w.take(31)) != 0);
    assert(be_bytes_val(w) >= 256) by {
        assert(be_bytes_val(w.take(31)) >= 1);
        assert(be_bytes_val(w.take(31)) * pow256(1) >= 256) by (nonlinear_arith)
            requires
                be_bytes_val(w.take(31)) >= 1,
                pow256(1) == 256,
        ;
    }
}

/// With the first 31 bytes zero, the offset word equals its last byte.
proof fn lemma_offset_byte(s: Seq<u8>)
    requires
        s.len() >= 64,
        forall|j: int| 0 <= j < 31 ==> s[j] == 0,
    ensures
        be_bytes_val(s.subrange(0, 32)) == s[31] as nat,
{
    let w = s.subrange(0, 32);
    lemma_be_split(w, 31);
    lemma_pow256_vals();
    lemma_be_zeros(w.take(31));
    assert(forall|j: int| 0 <= j < 31 ==> w.take(31)[j] == s[j]);
    assert(be_bytes_val(w.take(31)) == 0);
    assert(w.skip(31) =~= seq![s[31]]);
    assert(be_bytes_val(seq![s[31]]) == s[31] as nat) by {
        reveal_with_fuel(be_bytes_val, 2);
        assert(seq![s[31]].drop_last() =~= Seq::<u8>::empty());
    }
    assert(0 * pow256(1) == 0) by (nonlinear_arith);
}

/// A nonzero byte among the first 24 of the count word makes the claimed
/// array longer than any return data.
proof fn lemma_count_huge(s: Seq<u8>, j: int)
    requires
        s.len() >= 64,
        s.len() <= usize::MAX,
        32 <= j < 56,
        s[j] != 0,
    ensures
        s.len() != 64 + 32 * be_bytes_val(s.subrange(32, 64)),
{
    let w = s.subrange(32, 64);
    lemma_be_split(w, 24);
    lemma_pow256_vals();
    lemma_be_zeros(w.take(24));
    assert(w.take(24)[j - 32] == s[j]);
    assert(be_bytes_val(w.take(24)) >= 1);
    assert(be_bytes_val(w) >= pow256(8)) by {
        assert(be_bytes_val(w.take(24)) * pow256(8) >= pow256(8))
            by (nonlinear_arith)
            requires
                be_bytes_val(w.take(24)) >= 1,
                pow256(8) >= 1,
        ;
    }
    assert(be_bytes_val(w) >= 0x1_0000_0000_0000_0000);
    assert(32 * be_bytes_val(w) >= 32 * 0x1_0000_0000_0000_0000nat) by (nonlinear_arith)
        requires
            be_bytes_val(w) >= 0x1_0000_0000_0000_0000,
    ;
    assert(usize::MAX <= 0xffff_ffff_ffff_ffff);
}

/// With the first 24 count bytes zero, the count is its last eight bytes.
proof fn lemma_count_value(s: Seq<u8>, v: u64)
    requires
        s.len() >= 64,
        forall|m: int| 32 <= m < 56 ==> s[m] == 0,
        v as nat == be_bytes_val(s.subrange(56, 64)),
    ensures
        be_bytes_val(s.subrange(32, 64)) == v as nat,
{
    let w = s.subrange(32, 64);
    lemma_be_split(w, 24);
    lemma_pow256_vals();
    lemma_be_zeros(w.take(24));
    assert(forall|j: int| 0 <= j < 24 ==> w.take(24)[j] == s[j + 32]);
    assert(be_bytes_val(w.take(24)) == 0);
    assert(w.skip(24) =~= s.subrange(56, 64));
    assert(0 * pow256(8) == 0) by (nonlinear_arith);
}

/// The reward owed for one balance: the per-token rate times the balance,
/// or the overflow error exactly when the product exceeds the 256-bit
/// range.
pub fn reward_for_balance(rate: &Uint256, balance: &Uint256) -> (r: Result<Uint256, RewardsError>)
    requires
        rate.wf(),
        balance.wf(),
    ensures
        match r {
            Ok(v) => v.wf() && v.val() == rate.val() * balance.val() && rate.val() * balance.val()
                < pow2_256(),
            Err(e) => e == RewardsError::Overflow && rate.val() * balance.val() >= pow2_256(),
        },
{
    match rate.checked_mul(balance) {
        Some(v) => {
            proof {
                v.lemma_val_lt_pow2_256();
            }
            Ok(v)
        },
        None => Err(RewardsError::Overflow),
    }
}

/// Rewards computed from holdings of one ERC-721 contract.
pub struct Erc721Source<R: ChainReader> {
    /// The contract address.
    pub address: Address,
    /// The reward granted per token held.
    pub rewards_per_token: Uint256,
    /// The state-reading capability.
    pub reader: R,
}

impl<R: ChainReader> Erc721Source<R> {
    /// Builds the source from the contract's address string. Malformed
    /// addresses are rejected at construction.
    pub fn new(address: &str, rewards_per_token: Uint256, reader: R) -> (r: Result<
        Erc721Source<R>,
        RewardsError,
    >)
        requires
            rewards_per_token.wf(),
        ensures
            match r {
                Ok(s) => {
                    &&& is_hex_address(address@)
                    &&& s.address.wf()
                    &&& s.address.bytes@ == addr_bytes_of(address@)
                    &&& s.rewards_per_token == rewards_per_token
                },
                Err(e) => !is_hex_address(address@) && e == RewardsError::SourceQueryFailure,
            },
    {
        match Address::parse(address) {
            Some(a) => Ok(Erc721Source { address: a, rewards_per_token, reader }),
            None => Err(RewardsError::SourceQueryFailure),
        }
    }

    /// The token balance of one owner, read from the contract.
    fn query_nft_ownership(&self, owner: &Address) -> (r: Result<Uint256, RewardsError>)
        requires
            owner.wf(),
            self.address.wf(),
        ensures
            match r {
                Ok(v) => v.wf(),
                Err(_) => true,
            },
    {
        let input = encode_balance_of_call(owner);
        let ret = self.reader.call_contract(&self.address, &input)?;
        decode_uint_word(&ret)
    }

    /// The full holder set, read from the contract.
    fn query_holders(&self) -> (r: Result<Vec<Address>, RewardsError>)
        requires
            self.address.wf(),
        ensures
            match r {
                Ok(v) => forall|i: int| 0 <= i < v@.len() ==> (#[trigger] v@[i]).wf(),
                Err(_) => true,
            },
    {
        let input = encode_all_holders_call();
        let ret = self.reader.call_contract(&self.address, &input)?;
        decode_address_array(&ret)
    }
}

impl<R: ChainReader> Source for Erc721Source<R> {
    open spec fn name_spec(&self) -> Seq<char> {
        "ERC721"@
    }

    fn get_name(&self) -> (r: String) {
        String::from_str("ERC721")
    }

    fn get_accounts(&self) -> (r: Result<Vec<Address>, RewardsError>) {
        if self.address.bytes.len() != 20 {
            return Err(RewardsError::SourceQueryFailure);
        }
        self.query_holders()
    }

    fn get_rewards(&self, account: &Address) -> (r: Result<Uint256, RewardsError>) {
        if self.address.bytes.len() != 20 || account.bytes.len() != 20
            || self.rewards_per_token.limbs.len() != 4 {
            return Err(RewardsError::SourceQueryFailure);
        }
        let balance = self.query_nft_ownership(account)?;
        reward_for_balance(&self.rewards_per_token, &balance)
    }

    fn get_metadata(&self) -> (r: Result<Vec<MetaEntry>, RewardsError>)
        ensures
            match r {
                Ok(v) => {
                    &&& v@.len() == 2
                    &&& v@[0].key@ == "address"@
                    &&& v@[0].value@ == hex_prefixed(self.address.bytes@)
                    &&& v@[1].key@ == "rewards_per_token"@
                    &&& v@[1].value@ == dec_string_of(self.rewards_per_token.val())
                },
                Err(_) => !(self.address.wf() && self.rewards_per_token.wf()),
            },
    {
        if self.address.bytes.len() != 20 || self.rewards_per_token.limbs.len() != 4 {
            return Err(RewardsError::SourceQueryFailure);
        }
        let mut entries: Vec<MetaEntry> = Vec::new();
        entries.push(
            MetaEntry { key: String::from_str("address"), value: self.address.to_hex() },
        );
        let digits = self.rewards_per_token.to_decimal();
        entries.push(
            MetaEntry {
                key: String::from_str("rewards_per_token"),
                value: crate::hash::chars_to_string(&digits),
            },
        );
        Ok(entries)
    }
}

} // verus!
