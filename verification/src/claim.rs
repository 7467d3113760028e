//! Accounts, reward tokens and claims.
//!
//! An address is twenty bytes. A claim says that one account may redeem a
//! given amount of one reward token; its fixed ABI encoding, an
//! (address, address, uint256) tuple, is the Merkle leaf payload.

use crate::hash::{hex_prefixed, to_hex_string};
use crate::uint256::{limb_be8, u256_be, Uint256};
use vstd::prelude::*;
use vstd::string::StrSliceExecFns;

verus! {

/// A twenty-byte account or contract address.
#[derive(Debug)]
pub struct Address {
    pub bytes: Vec<u8>,
}

/// Whether a character is a hexadecimal digit.
pub open spec fn is_hex_digit(c: char) -> bool {
    ('0' <= c && c <= '9') || ('a' <= c && c <= 'f') || ('A' <= c && c <= 'F')
}

/// The value of a hexadecimal digit.
pub open spec fn hex_digit_val(c: char) -> nat {
    if '0' <= c && c <= '9' {
        ((c as int) - ('0' as int)) as nat
    } else if 'a' <= c && c <= 'f' {
        ((c as int) - ('a' as int) + 10) as nat
    } else {
        ((c as int) - ('A' as int) + 10) as nat
    }
}

/// Whether a string spells an address: `0x` and forty hexadecimal digits.
pub open spec fn is_hex_address(s: Seq<char>) -> bool {
    &&& s.len() == 42
    &&& s[0] == '0'
    &&& s[1] == 'x'
    &&& forall|i: int| 2 <= i < 42 ==> is_hex_digit(#[trigger] s[i])
}

/// The twenty bytes that an address string spells.
pub open spec fn addr_bytes_of(s: Seq<char>) -> Seq<u8> {
    Seq::new(20, |i: int| (hex_digit_val(s[2 + 2 * i]) * 16 + hex_digit_val(s[2 + 2 * i + 1])) as u8)
}

impl Address {
    /// The representation always holds exactly twenty bytes.
    pub open spec fn wf(&self) -> bool {
        self.bytes@.len() == 20
    }

    /// Structural equality of addresses.
    pub fn eq_addr(&self, other: &Address) -> (r: bool)
        ensures
            r == (self.bytes@ == other.bytes@),
    {
        let mut i: usize = 0;
        let n: usize = self.bytes.len();
        let m: usize = other.bytes.len();
        if n != m {
            proof {
                assert(self.bytes@ != other.bytes@);
            }
            return false;
        }
        while i < n
            invariant
                n == self.bytes@.len(),
                n == other.bytes@.len(),
                0 <= i <= n,
                forall|j: int| 0 <= j < i ==> self.bytes@[j] == other.bytes@[j],
            decreases n - i,
        {
            if self.bytes[i] != other.bytes[i] {
                proof {
                    assert(self.bytes@[i as int] != other.bytes@[i as int]);
                }
                return false;
            }
            i = i + 1;
        }
        proof {
            assert(self.bytes@ =~= other.bytes@);
        }
        true
    }

    /// An identical copy.
    pub fn dup(&self) -> (r: Address)
        ensures
            r.bytes@ == self.bytes@,
    {
        let mut bytes: Vec<u8> = Vec::new();
        let mut i: usize = 0;
        let n: usize = self.bytes.len();
        while i < n
            invariant
                n == self.bytes@.len(),
                0 <= i <= n,
                bytes@ =~= self.bytes@.take(i as int),
            decreases n - i,
        {
            bytes.push(self.bytes[i]);
            proof {
                assert(self.bytes@.take(i as int).push(self.bytes@[i as int]) =~= self.bytes@.take(
                    i + 1,
                ));
            }
            i = i + 1;
        }
        proof {
            assert(self.bytes@.take(n as int) =~= self.bytes@);
        }
        Address { bytes }
    }

    /// Parses a `0x`-prefixed, forty-digit hexadecimal address string.
    /// Returns `None` exactly on malformed input.
    pub fn parse(s: &str) -> (r: Option<Address>)
        ensures
            match r {
                Some(a) => is_hex_address(s@) && a.wf() && a.bytes@ == addr_bytes_of(s@),
                None => !is_hex_address(s@),
            },
    {
        let n: usize = s.unicode_len();
        if n != 42 {
            return None;
        }
        if s.get_char(0) != '0' || s.get_char(1) != 'x' {
            return None;
        }
        let mut bytes: Vec<u8> = Vec::new();
        let mut i: usize = 0;
        while i < 20
            invariant
                s@.len() == 42,
                0 <= i <= 20,
                bytes@.len() == i,
                forall|j: int| 2 <= j < 2 + 2 * i ==> is_hex_digit(#[trigger] s@[j]),
                forall|j: int|
                    0 <= j < i ==> (#[trigger] bytes@[j]) as nat == hex_digit_val(s@[2 + 2 * j])
                        * 16 + hex_digit_val(s@[2 + 2 * j + 1]),
            decreases 20 - i,
        {
            let hi = s.get_char(2 + 2 * i);
            let lo = s.get_char(2 + 2 * i + 1);
            let hv = match hex_val_exec(hi) {
                Some(v) => v,
                None => {
                    proof {
                        assert(!is_hex_digit(s@[2 + 2 * (i as int)]));
                    }
                    return None;
                },
            };
            let lv = match hex_val_exec(lo) {
                Some(v) => v,
                None => {
                    proof {
                        assert(!is_hex_digit(s@[2 + 2 * (i as int) + 1]));
                    }
                    return None;
                },
            };
            bytes.push(hv * 16 + lv);
            i = i + 1;
        }
        let a = Address { bytes };
        proof {
            assert forall|j: int| 2 <= j < 42 implies is_hex_digit(#[trigger] s@[j]) by {
                if (j - 2) % 2 == 0 {
                    let m = (j - 2) / 2;
                    assert(j == 2 + 2 * m);
                    assert(is_hex_digit(s@[2 + 2 * m]));
                } else {
                    let m = (j - 2) / 2;
                    assert(j == 2 + 2 * m + 1);
                    assert(is_hex_digit(s@[2 + 2 * m + 1]));
                }
            }
            assert(is_hex_address(s@));
            assert(a.bytes@ =~= addr_bytes_of(s@));
        }
        Some(a)
    }

    /// Renders the address as `0x` and forty lowercase hexadecimal digits.
    pub fn to_hex(&self) -> (r: String)
        requires
            self.wf(),
        ensures
            r@ == hex_prefixed(self.bytes@),
    {
        to_hex_string(self.bytes.as_slice())
    }
}

/// The numeric value of a hexadecimal digit character, or `None`.
fn hex_val_exec(c: char) -> (r: Option<u8>)
    ensures
        match r {
            Some(v) => is_hex_digit(c) && v as nat == hex_digit_val(c) && v < 16,
            None => !is_hex_digit(c),
        },
{
    if '0' <= c && c <= '9' {
        Some(((c as u32) - ('0' as u32)) as u8)
    } else if 'a' <= c && c <= 'f' {
        Some((((c as u32) - ('a' as u32)) as u8) + 10)
    } else if 'A' <= c && c <= 'F' {
        Some((((c as u32) - ('A' as u32)) as u8) + 10)
    } else {
        None
    }
}

/// One redeemable entitlement: account, reward token, amount.
#[derive(Debug)]
pub struct Claim {
    pub account: Address,
    pub reward_token: Address,
    pub amount: Uint256,
}

/// The ABI encoding of a claim: the (address, address, uint256) tuple as
/// three 32-byte words, addresses left-padded with zeros.
pub open spec fn claim_abi_bytes(c: Claim) -> Seq<u8> {
    Seq::new(12, |i: int| 0u8) + c.account.bytes@ + Seq::new(12, |i: int| 0u8)
        + c.reward_token.bytes@ + u256_be(c.amount)
}

impl Claim {
    /// Every field is well formed.
    pub open spec fn wf(&self) -> bool {
        self.account.wf() && self.reward_token.wf() && self.amount.wf()
    }

    /// An identical copy.
    pub fn dup(&self) -> (r: Claim)
        requires
            self.wf(),
        ensures
            r.wf(),
            r.account.bytes@ == self.account.bytes@,
            r.reward_token.bytes@ == self.reward_token.bytes@,
            r.amount.limbs@ == self.amount.limbs@,
            claim_abi_bytes(r) == claim_abi_bytes(*self),
    {
        let r = Claim {
            account: self.account.dup(),
            reward_token: self.reward_token.dup(),
            amount: self.amount.dup(),
        };
        proof {
            assert(claim_abi_bytes(r) =~= claim_abi_bytes(*self));
        }
        r
    }
}

} // verus!
