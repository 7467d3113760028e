//! Unsigned 256-bit integers as four little-endian 64-bit limbs.
//!
//! Reward amounts are 256-bit unsigned integers. This module gives them a
//! transparent representation with checked arithmetic: sums and products
//! either return the exact mathematical result or report that it exceeds
//! the representable range, never silently wrapping.

use vstd::prelude::*;

verus! {

/// One limb holds 64 bits.
pub const LIMB_BASE: u128 = 0x1_0000_0000_0000_0000;

/// 2^256, the first value a `Uint256` cannot hold.
pub open spec fn pow2_256() -> nat {
    0x1_0000_0000_0000_0000_0000_0000_0000_0000_0000_0000_0000_0000_0000_0000_0000_0000nat
}

/// Value of a little-endian limb sequence.
pub open spec fn limbs_val(s: Seq<u64>) -> nat
    decreases s.len(),
{
    if s.len() == 0 {
        0
    } else {
        (s[0] as nat) + 0x1_0000_0000_0000_0000 * limbs_val(s.drop_first())
    }
}

/// 2^(64*n): the weight of limb n.
pub open spec fn pow_b(n: nat) -> nat
    decreases n,
{
    if n == 0 {
        1
    } else {
        0x1_0000_0000_0000_0000 * pow_b((n - 1) as nat)
    }
}

pub proof fn lemma_pow_b_adds(m: nat, n: nat)
    ensures
        pow_b(m + n) == pow_b(m) * pow_b(n),
    decreases m,
{
    reveal_with_fuel(pow_b, 3);
    if m == 0 {
        assert(pow_b(0) == 1);
        assert(m + n == n);
        assert(pow_b(m + n) == pow_b(n));
        assert(pow_b(m) * pow_b(n) == pow_b(n));
    } else {
        lemma_pow_b_adds((m - 1) as nat, n);
        assert(pow_b(m + n) == 0x1_0000_0000_0000_0000 * pow_b((m + n - 1) as nat));
        assert(pow_b(m) == 0x1_0000_0000_0000_0000 * pow_b((m - 1) as nat));
        assert(0x1_0000_0000_0000_0000 * (pow_b((m - 1) as nat) * pow_b(n)) == (
        0x1_0000_0000_0000_0000 * pow_b((m - 1) as nat)) * pow_b(n)) by (nonlinear_arith);
    }
}

/// Appending a limb adds its weighted value.
pub proof fn lemma_val_snoc(s: Seq<u64>, x: u64)
    ensures
        limbs_val(s.push(x)) == limbs_val(s) + (x as nat) * pow_b(s.len()),
    decreases s.len(),
{
    reveal_with_fuel(limbs_val, 3);
    reveal_with_fuel(pow_b, 2);
    if s.len() == 0 {
        assert(s.push(x).drop_first() =~= Seq::<u64>::empty());
        assert(limbs_val(s.push(x)) == x as nat);
        assert(limbs_val(s) == 0);
        assert(pow_b(0) == 1);
        assert((x as nat) * 1 == x as nat);
    } else {
        assert(s.push(x).drop_first() =~= s.drop_first().push(x));
        lemma_val_snoc(s.drop_first(), x);
        assert(limbs_val(s.push(x)) == (s[0] as nat) + 0x1_0000_0000_0000_0000 * (limbs_val(
            s.drop_first(),
        ) + (x as nat) * pow_b((s.len() - 1) as nat)));
        assert(0x1_0000_0000_0000_0000 * (limbs_val(s.drop_first()) + (x as nat) * pow_b(
            (s.len() - 1) as nat,
        )) == 0x1_0000_0000_0000_0000 * limbs_val(s.drop_first()) + (x as nat) * (
        0x1_0000_0000_0000_0000 * pow_b((s.len() - 1) as nat))) by (nonlinear_arith);
    }
}

/// The first n limbs plus one more.
pub proof fn lemma_val_take_step(s: Seq<u64>, n: int)
    requires
        0 <= n < s.len(),
    ensures
        limbs_val(s.take(n + 1)) == limbs_val(s.take(n)) + (s[n] as nat) * pow_b(n as nat),
{
    assert(s.take(n + 1) =~= s.take(n).push(s[n]));
    lemma_val_snoc(s.take(n), s[n]);
}

/// A limb sequence is bounded by the weight just past its end.
pub proof fn lemma_val_bound(s: Seq<u64>)
    ensures
        limbs_val(s) < pow_b(s.len()),
    decreases s.len(),
{
    if s.len() == 0 {
    } else {
        lemma_val_bound(s.drop_first());
        assert((s[0] as nat) < 0x1_0000_0000_0000_0000);
        assert(limbs_val(s.drop_first()) + 1 <= pow_b((s.len() - 1) as nat));
        assert(0x1_0000_0000_0000_0000 * (limbs_val(s.drop_first()) + 1) <= 0x1_0000_0000_0000_0000
            * pow_b((s.len() - 1) as nat)) by (nonlinear_arith)
            requires
                limbs_val(s.drop_first()) + 1 <= pow_b((s.len() - 1) as nat),
        ;
    }
}

/// Changing one limb changes the value by the weighted difference.
pub proof fn lemma_val_update(s: Seq<u64>, k: int, x: u64)
    requires
        0 <= k < s.len(),
    ensures
        limbs_val(s.update(k, x)) + (s[k] as nat) * pow_b(k as nat) == limbs_val(s) + (x as nat)
            * pow_b(k as nat),
    decreases k,
{
    reveal_with_fuel(limbs_val, 2);
    reveal_with_fuel(pow_b, 2);
    if k == 0 {
        assert(s.update(0, x).drop_first() =~= s.drop_first());
        assert(s.update(0, x)[0] == x);
        assert(pow_b(0) == 1);
        assert(limbs_val(s.update(0, x)) == (x as nat) + 0x1_0000_0000_0000_0000 * limbs_val(
            s.drop_first()));
        assert(limbs_val(s) == (s[0] as nat) + 0x1_0000_0000_0000_0000 * limbs_val(
            s.drop_first()));
        assert((s[0] as nat) * 1 == s[0] as nat);
        assert((x as nat) * 1 == x as nat);
    } else {
        assert(s.update(k, x).drop_first() =~= s.drop_first().update(k - 1, x));
        lemma_val_update(s.drop_first(), k - 1, x);
        let d = s.drop_first();
        assert(0x1_0000_0000_0000_0000 * limbs_val(d.update(k - 1, x)) + (s[k] as nat) * (
        0x1_0000_0000_0000_0000 * pow_b((k - 1) as nat)) == 0x1_0000_0000_0000_0000 * limbs_val(d)
            + (x as nat) * (0x1_0000_0000_0000_0000 * pow_b((k - 1) as nat))) by (nonlinear_arith)
            requires
                limbs_val(d.update(k - 1, x)) + (d[k - 1] as nat) * pow_b((k - 1) as nat)
                    == limbs_val(d) + (x as nat) * pow_b((k - 1) as nat),
                s[k] == d[k - 1],
        ;
    }
}

/// A sequence splits into a low part and a weighted high part.
pub proof fn lemma_val_split(s: Seq<u64>, k: int)
    requires
        0 <= k <= s.len(),
    ensures
        limbs_val(s) == limbs_val(s.take(k)) + limbs_val(s.skip(k)) * pow_b(k as nat),
    decreases k,
{
    reveal_with_fuel(limbs_val, 2);
    reveal_with_fuel(pow_b, 2);
    if k == 0 {
        assert(s.take(0) =~= Seq::<u64>::empty());
        assert(s.skip(0) =~= s);
    } else {
        assert(s.take(k).drop_first() =~= s.drop_first().take(k - 1));
        assert(s.skip(k) =~= s.drop_first().skip(k - 1));
        lemma_val_split(s.drop_first(), k - 1);
        let d = s.drop_first();
        assert(0x1_0000_0000_0000_0000 * (limbs_val(d.take(k - 1)) + limbs_val(d.skip(k - 1))
            * pow_b((k - 1) as nat)) == 0x1_0000_0000_0000_0000 * limbs_val(d.take(k - 1)) + limbs_val(
            d.skip(k - 1),
        ) * (0x1_0000_0000_0000_0000 * pow_b((k - 1) as nat))) by (nonlinear_arith);
    }
}

/// The weight past the last limb is 2^256.
pub proof fn lemma_pow_b_4()
    ensures
        pow_b(4) == pow2_256(),
{
    assert(pow_b(0) == 1);
    assert(pow_b(1) == 0x1_0000_0000_0000_0000 * pow_b(0));
    assert(pow_b(2) == 0x1_0000_0000_0000_0000 * pow_b(1));
    assert(pow_b(3) == 0x1_0000_0000_0000_0000 * pow_b(2));
    assert(pow_b(4) == 0x1_0000_0000_0000_0000 * pow_b(3));
}

/// A four-limb value, written out.
pub proof fn lemma_val4(s: Seq<u64>)
    requires
        s.len() == 4,
    ensures
        limbs_val(s) == (s[0] as nat) + 0x1_0000_0000_0000_0000 * (s[1] as nat)
            + 0x1_0000_0000_0000_0000_0000_0000_0000_0000nat * (s[2] as nat)
            + 0x1_0000_0000_0000_0000_0000_0000_0000_0000_0000_0000_0000_0000nat * (s[3] as nat),
{
    reveal_with_fuel(limbs_val, 6);
    let d1 = s.drop_first();
    let d2 = d1.drop_first();
    let d3 = d2.drop_first();
    let d4 = d3.drop_first();
    assert(d4 =~= Seq::<u64>::empty());
    assert(limbs_val(d4) == 0);
    assert(limbs_val(d3) == (d3[0] as nat));
    assert(limbs_val(d2) == (d2[0] as nat) + 0x1_0000_0000_0000_0000 * limbs_val(d3));
    assert(limbs_val(d1) == (d1[0] as nat) + 0x1_0000_0000_0000_0000 * limbs_val(d2));
    assert(limbs_val(s) == (s[0] as nat) + 0x1_0000_0000_0000_0000 * limbs_val(d1));
    assert(0x1_0000_0000_0000_0000 * ((d1[0] as nat) + 0x1_0000_0000_0000_0000 * ((d2[0] as nat)
        + 0x1_0000_0000_0000_0000 * (d3[0] as nat))) == 0x1_0000_0000_0000_0000 * (d1[0] as nat)
        + 0x1_0000_0000_0000_0000_0000_0000_0000_0000nat * (d2[0] as nat)
        + 0x1_0000_0000_0000_0000_0000_0000_0000_0000_0000_0000_0000_0000nat * (d3[0] as nat))
        by (nonlinear_arith);
}

/// An unsigned 256-bit integer: four 64-bit limbs, least significant first.
#[derive(Clone, Debug)]
pub struct Uint256 {
    pub limbs: Vec<u64>,
}

impl Uint256 {
    /// The representation always holds exactly four limbs.
    pub open spec fn wf(&self) -> bool {
        self.limbs@.len() == 4
    }

    /// The mathematical value.
    pub open spec fn val(&self) -> nat {
        limbs_val(self.limbs@)
    }

    pub proof fn lemma_val_lt_pow2_256(&self)
        requires
            self.wf(),
        ensures
            self.val() < pow2_256(),
    {
        lemma_val_bound(self.limbs@);
        lemma_pow_b_4();
    }

    /// The zero value.
    pub fn zero() -> (r: Uint256)
        ensures
            r.wf(),
            r.val() == 0,
    {
        let mut limbs: Vec<u64> = Vec::new();
        limbs.push(0);
        limbs.push(0);
        limbs.push(0);
        limbs.push(0);
        let r = Uint256 { limbs };
        proof {
            lemma_val4(r.limbs@);
        }
        r
    }

    /// Embeds a 64-bit value.
    pub fn from_u64(x: u64) -> (r: Uint256)
        ensures
            r.wf(),
            r.val() == x as nat,
    {
        let mut limbs: Vec<u64> = Vec::new();
        limbs.push(x);
        limbs.push(0);
        limbs.push(0);
        limbs.push(0);
        let r = Uint256 { limbs };
        proof {
            lemma_val4(r.limbs@);
        }
        r
    }

    /// Structural equality of values.
    pub fn eq_value(&self, other: &Uint256) -> (r: bool)
        requires
            self.wf(),
            other.wf(),
        ensures
            r == (self.val() == other.val()),
    {
        let mut i: usize = 0;
        let mut same: bool = true;
        while i < 4
            invariant
                self.wf(),
                other.wf(),
                0 <= i <= 4,
                same == (self.limbs@.take(i as int) =~= other.limbs@.take(i as int)),
            decreases 4 - i,
        {
            if self.limbs[i] != other.limbs[i] {
                same = false;
            }
            proof {
                if self.limbs@[i as int] == other.limbs@[i as int] {
                    if self.limbs@.take(i as int) =~= other.limbs@.take(i as int) {
                        assert(self.limbs@.take(i + 1) =~= other.limbs@.take(i + 1));
                    } else {
                        let j = choose|j: int|
                            0 <= j < i && self.limbs@.take(i as int)[j] != other.limbs@.take(
                                i as int,
                            )[j];
                        assert(self.limbs@.take(i + 1)[j] != other.limbs@.take(i + 1)[j]);
                    }
                } else {
                    assert(self.limbs@.take(i + 1)[i as int] != other.limbs@.take(i + 1)[i as int]);
                }
            }
            i = i + 1;
        }
        proof {
            assert(self.limbs@.take(4) =~= self.limbs@);
            assert(other.limbs@.take(4) =~= other.limbs@);
            if self.limbs@ =~= other.limbs@ {
            } else {
                lemma_limbs_val_injective(self.limbs@, other.limbs@);
            }
        }
        same
    }

    /// Checked addition: the exact sum, or `None` when it would not fit.
    pub fn checked_add(&self, other: &Uint256) -> (r: Option<Uint256>)
        requires
            self.wf(),
            other.wf(),
        ensures
            match r {
                Some(c) => c.wf() && c.val() == self.val() + other.val(),
                None => self.val() + other.val() >= pow2_256(),
            },
    {
        let mut limbs: Vec<u64> = Vec::new();
        let mut carry: u64 = 0;
        let mut i: usize = 0;
        while i < 4
            invariant
                self.wf(),
                other.wf(),
                0 <= i <= 4,
                limbs@.len() == i,
                carry <= 1,
                limbs_val(limbs@) + (carry as nat) * pow_b(i as nat) == limbs_val(
                    self.limbs@.take(i as int),
                ) + limbs_val(other.limbs@.take(i as int)),
            decreases 4 - i,
        {
            let ghost pre = limbs@;
            let t: u128 = self.limbs[i] as u128 + other.limbs[i] as u128 + carry as u128;
            let lo: u64 = (t % LIMB_BASE) as u64;
            let hi: u64 = (t / LIMB_BASE) as u64;
            limbs.push(lo);
            proof {
                lemma_val_snoc(pre, lo);
                lemma_val_take_step(self.limbs@, i as int);
                lemma_val_take_step(other.limbs@, i as int);
                assert(t as nat == (lo as nat) + 0x1_0000_0000_0000_0000 * (hi as nat));
                assert(((lo as nat) + 0x1_0000_0000_0000_0000 * (hi as nat)) * pow_b(i as nat) == (
                lo as nat) * pow_b(i as nat) + (hi as nat) * (0x1_0000_0000_0000_0000 * pow_b(
                    i as nat,
                ))) by (nonlinear_arith);
                assert(((self.limbs@[i as int] as nat) + (other.limbs@[i as int] as nat) + (
                carry as nat)) * pow_b(i as nat) == (self.limbs@[i as int] as nat) * pow_b(i as nat)
                    + (other.limbs@[i as int] as nat) * pow_b(i as nat) + (carry as nat) * pow_b(
                    i as nat,
                )) by (nonlinear_arith);
            }
            carry = hi;
            i = i + 1;
        }
        proof {
            assert(self.limbs@.take(4) =~= self.limbs@);
            assert(other.limbs@.take(4) =~= other.limbs@);
            lemma_pow_b_4();
        }
        if carry == 0 {
            let r = Uint256 { limbs };
            Some(r)
        } else {
            proof {
                assert((carry as nat) * pow_b(4) >= pow_b(4)) by (nonlinear_arith)
                    requires
                        carry >= 1,
                ;
            }
            None
        }
    }
}

/// All-zero limbs have value zero.
pub proof fn lemma_val_zeros(s: Seq<u64>)
    requires
        forall|k: int| 0 <= k < s.len() ==> s[k] == 0,
    ensures
        limbs_val(s) == 0,
    decreases s.len(),
{
    reveal_with_fuel(limbs_val, 2);
    if s.len() == 0 {
    } else {
        lemma_val_zeros(s.drop_first());
    }
}

/// The weight one step further out.
pub proof fn lemma_pow_b_succ(n: nat)
    ensures
        pow_b(n + 1) == 0x1_0000_0000_0000_0000 * pow_b(n),
{
    assert(pow_b(n + 1) == 0x1_0000_0000_0000_0000 * pow_b((n + 1 - 1) as nat));
}

impl Uint256 {
    /// Checked multiplication: the exact product, or `None` when it would
    /// not fit.
    pub fn checked_mul(&self, other: &Uint256) -> (r: Option<Uint256>)
        requires
            self.wf(),
            other.wf(),
        ensures
            match r {
                Some(c) => c.wf() && c.val() == self.val() * other.val(),
                None => self.val() * other.val() >= pow2_256(),
            },
    {
        let ghost a = self.limbs@;
        let ghost b = other.limbs@;
        let mut prod: Vec<u64> = Vec::new();
        let mut z: usize = 0;
        while z < 8
            invariant
                0 <= z <= 8,
                prod@.len() == z,
                forall|k: int| 0 <= k < z ==> prod@[k] == 0,
            decreases 8 - z,
        {
            prod.push(0);
            z = z + 1;
        }
        proof {
            lemma_val_zeros(prod@);
            assert(b.take(0) =~= Seq::<u64>::empty());
            assert(limbs_val(a) * 0 == 0) by (nonlinear_arith);
        }
        let mut i: usize = 0;
        while i < 4
            invariant
                self.wf(),
                other.wf(),
                a == self.limbs@,
                b == other.limbs@,
                0 <= i <= 4,
                prod@.len() == 8,
                limbs_val(prod@) == limbs_val(a) * limbs_val(b.take(i as int)),
                forall|k: int| i + 4 <= k < 8 ==> prod@[k] == 0,
            decreases 4 - i,
        {
            let ghost base_val = limbs_val(a) * limbs_val(b.take(i as int));
            let bi: u64 = other.limbs[i];
            proof {
                assert(a.take(0) =~= Seq::<u64>::empty());
                assert(limbs_val(Seq::<u64>::empty()) == 0);
                assert((0 as nat) * pow_b((i + 0) as nat) == 0) by (nonlinear_arith);
                assert((0 as nat) * (bi as nat) * pow_b(i as nat) == 0) by (nonlinear_arith);
            }
            let mut carry: u64 = 0;
            let mut j: usize = 0;
            while j < 4
                invariant
                    self.wf(),
                    other.wf(),
                    a == self.limbs@,
                    b == other.limbs@,
                    0 <= i < 4,
                    0 <= j <= 4,
                    bi == b[i as int],
                    prod@.len() == 8,
                    base_val == limbs_val(a) * limbs_val(b.take(i as int)),
                    limbs_val(prod@) + (carry as nat) * pow_b((i + j) as nat) == base_val
                        + limbs_val(a.take(j as int)) * (bi as nat) * pow_b(i as nat),
                    forall|k: int| i + 4 <= k < 8 ==> prod@[k] == 0,
                decreases 4 - j,
            {
                let ghost p = prod@;
                let idx: usize = i + j;
                proof {
                    assert((self.limbs@[j as int] as nat) * (bi as nat) <= 0xffff_ffff_ffff_ffff
                        * 0xffff_ffff_ffff_ffff) by (nonlinear_arith)
                        requires
                            (self.limbs@[j as int] as nat) <= 0xffff_ffff_ffff_ffff,
                            (bi as nat) <= 0xffff_ffff_ffff_ffff,
                    ;
                }
                let t: u128 = prod[idx] as u128 + (self.limbs[j] as u128) * (bi as u128)
                    + carry as u128;
                let lo: u64 = (t % LIMB_BASE) as u64;
                let hi: u64 = (t / LIMB_BASE) as u64;
                prod[idx] = lo;
                proof {
                    let vp = limbs_val(p);
                    let vp2 = limbs_val(prod@);
                    let w = pow_b((i + j) as nat);
                    let pj = pow_b(j as nat);
                    let pi = pow_b(i as nat);
                    let aj = a[j as int] as nat;
                    let nbi = bi as nat;
                    let tj = limbs_val(a.take(j as int));
                    let pij = p[idx as int] as nat;
                    lemma_val_update(p, idx as int, lo);
                    lemma_pow_b_adds(j as nat, i as nat);
                    lemma_pow_b_succ((i + j) as nat);
                    lemma_val_take_step(a, j as int);
                    assert(limbs_val(a.take(j + 1)) == tj + aj * pj);
                    assert(t as nat == pij + aj * nbi + (carry as nat));
                    assert(t as nat == (lo as nat) + 0x1_0000_0000_0000_0000 * (hi as nat));
                    assert(vp2 + (hi as nat) * (0x1_0000_0000_0000_0000 * w) == vp + (aj * nbi + (
                    carry as nat)) * w) by (nonlinear_arith)
                        requires
                            vp2 + pij * w == vp + (lo as nat) * w,
                            (lo as nat) + 0x1_0000_0000_0000_0000 * (hi as nat) == pij + aj * nbi
                                + (carry as nat),
                    ;
                    assert((aj * nbi + (carry as nat)) * w == aj * nbi * w + (carry as nat) * w)
                        by (nonlinear_arith);
                    assert(aj * nbi * w == (aj * pj) * nbi * pi) by (nonlinear_arith)
                        requires
                            w == pj * pi,
                    ;
                    assert((tj + aj * pj) * nbi * pi == tj * nbi * pi + (aj * pj) * nbi * pi)
                        by (nonlinear_arith);
                    assert(vp2 + (hi as nat) * (0x1_0000_0000_0000_0000 * w) == base_val + (tj + aj
                        * pj) * nbi * pi);
                    assert(pow_b((i + j + 1) as nat) == 0x1_0000_0000_0000_0000 * w);
                }
                carry = hi;
                j = j + 1;
            }
            let ghost p = prod@;
            let hidx: usize = i + 4;
            prod[hidx] = carry;
            proof {
                let vp = limbs_val(p);
                let vp2 = limbs_val(prod@);
                let pi = pow_b(i as nat);
                let nbi = bi as nat;
                lemma_val_update(p, hidx as int, carry);
                assert(p[hidx as int] == 0);
                assert(a.take(4) =~= a);
                lemma_val_take_step(b, i as int);
                assert(limbs_val(b.take(i + 1)) == limbs_val(b.take(i as int)) + nbi * pi);
                lemma_pow_b_adds(4, i as nat);
                assert(vp2 == limbs_val(a) * limbs_val(b.take(i + 1))) by (nonlinear_arith)
                    requires
                        vp2 == vp + (carry as nat) * pow_b((i + 4) as nat),
                        vp + (carry as nat) * pow_b((i + 4) as nat) == limbs_val(a) * limbs_val(
                            b.take(i as int),
                        ) + limbs_val(a) * nbi * pi,
                        limbs_val(b.take(i + 1)) == limbs_val(b.take(i as int)) + nbi * pi,
                ;
            }
            i = i + 1;
        }
        proof {
            assert(b.take(4) =~= b);
        }
        if prod[4] == 0 && prod[5] == 0 && prod[6] == 0 && prod[7] == 0 {
            let mut limbs: Vec<u64> = Vec::new();
            limbs.push(prod[0]);
            limbs.push(prod[1]);
            limbs.push(prod[2]);
            limbs.push(prod[3]);
            let r = Uint256 { limbs };
            proof {
                lemma_val_split(prod@, 4);
                assert(prod@.take(4) =~= r.limbs@);
                lemma_val_zeros(prod@.skip(4));
                lemma_pow_b_4();
                assert(limbs_val(prod@.skip(4)) * pow_b(4) == 0) by (nonlinear_arith)
                    requires
                        limbs_val(prod@.skip(4)) == 0,
                ;
            }
            Some(r)
        } else {
            proof {
                lemma_val_split(prod@, 4);
                lemma_val4(prod@.skip(4));
                lemma_pow_b_4();
                let h = limbs_val(prod@.skip(4));
                assert(h >= 1);
                assert(h * pow_b(4) >= pow_b(4)) by (nonlinear_arith)
                    requires
                        h >= 1,
                ;
            }
            None
        }
    }
}

/// Value of a big-endian byte sequence.
pub open spec fn be_bytes_val(s: Seq<u8>) -> nat
    decreases s.len(),
{
    if s.len() == 0 {
        0
    } else {
        256 * be_bytes_val(s.drop_last()) + (s.last() as nat)
    }
}

/// 256^n: the weight of a byte n places from the end.
pub open spec fn pow256(n: nat) -> nat
    decreases n,
{
    if n == 0 {
        1
    } else {
        256 * pow256((n - 1) as nat)
    }
}

/// The byte weights that 64-bit limbs use, written out.
pub proof fn lemma_pow256_vals()
    ensures
        pow256(0) == 1,
        pow256(1) == 0x100,
        pow256(2) == 0x1_0000,
        pow256(3) == 0x100_0000,
        pow256(4) == 0x1_0000_0000,
        pow256(5) == 0x100_0000_0000,
        pow256(6) == 0x1_0000_0000_0000,
        pow256(7) == 0x100_0000_0000_0000,
        pow256(8) == 0x1_0000_0000_0000_0000,
        pow256(16) == 0x1_0000_0000_0000_0000_0000_0000_0000_0000nat,
        pow256(24) == 0x1_0000_0000_0000_0000_0000_0000_0000_0000_0000_0000_0000_0000nat,
{
    reveal_with_fuel(pow256, 25);
    assert(pow256(0) == 1);
}

/// Big-endian bytes of one 64-bit limb.
pub open spec fn limb_be8(l: u64) -> Seq<u8> {
    Seq::new(8, |i: int| (((l as nat) / pow256((7 - i) as nat)) % 256) as u8)
}

/// The 32 big-endian bytes of a 256-bit value, from its limbs.
pub open spec fn u256_be(x: Uint256) -> Seq<u8> {
    limb_be8(x.limbs@[3]) + limb_be8(x.limbs@[2]) + limb_be8(x.limbs@[1]) + limb_be8(x.limbs@[0])
}

/// Appending a byte multiplies by the base and adds it.
pub proof fn lemma_be_snoc(s: Seq<u8>, x: u8)
    ensures
        be_bytes_val(s.push(x)) == 256 * be_bytes_val(s) + (x as nat),
{
    assert(s.push(x).drop_last() =~= s);
    assert(s.push(x).last() == x);
}

/// A big-endian sequence splits into a weighted prefix plus a suffix.
pub proof fn lemma_be_split(s: Seq<u8>, k: int)
    requires
        0 <= k <= s.len(),
    ensures
        be_bytes_val(s) == be_bytes_val(s.take(k)) * pow256((s.len() - k) as nat) + be_bytes_val(
            s.skip(k),
        ),
    decreases s.len() - k,
{
    reveal_with_fuel(be_bytes_val, 2);
    reveal_with_fuel(pow256, 2);
    if k == s.len() {
        assert(s.take(k) =~= s);
        assert(s.skip(k) =~= Seq::<u8>::empty());
        assert(be_bytes_val(Seq::<u8>::empty()) == 0);
        assert(pow256(0) == 1);
        assert(be_bytes_val(s) * 1 == be_bytes_val(s));
    } else {
        assert(s.drop_last().take(k) =~= s.take(k));
        assert(s.drop_last().skip(k) =~= s.skip(k).drop_last());
        lemma_be_split(s.drop_last(), k);
        assert(s.skip(k).last() == s.last());
        assert(be_bytes_val(s.skip(k)) == 256 * be_bytes_val(s.skip(k).drop_last()) + (
        s.last() as nat));
        let p = be_bytes_val(s.take(k));
        let w = pow256((s.len() - 1 - k) as nat);
        assert(pow256((s.len() - k) as nat) == 256 * w);
        assert(256 * (p * w + be_bytes_val(s.skip(k).drop_last())) + (s.last() as nat) == p * (256
            * w) + (256 * be_bytes_val(s.skip(k).drop_last()) + (s.last() as nat)))
            by (nonlinear_arith);
    }
}

impl Uint256 {
    /// An identical copy.
    pub fn dup(&self) -> (r: Uint256)
        requires
            self.wf(),
        ensures
            r.wf(),
            r.limbs@ == self.limbs@,
            r.val() == self.val(),
    {
        let mut limbs: Vec<u64> = Vec::new();
        let mut i: usize = 0;
        while i < 4
            invariant
                self.wf(),
                0 <= i <= 4,
                limbs@ =~= self.limbs@.take(i as int),
            decreases 4 - i,
        {
            limbs.push(self.limbs[i]);
            proof {
                assert(self.limbs@.take(i as int).push(self.limbs@[i as int]) =~= self.limbs@.take(
                    i + 1,
                ));
            }
            i = i + 1;
        }
        proof {
            assert(self.limbs@.take(4) =~= self.limbs@);
        }
        Uint256 { limbs }
    }

    /// Whether the value is zero.
    pub fn is_zero(&self) -> (r: bool)
        requires
            self.wf(),
        ensures
            r == (self.val() == 0),
    {
        let r = self.limbs[0] == 0 && self.limbs[1] == 0 && self.limbs[2] == 0 && self.limbs[3]
            == 0;
        proof {
            lemma_val4(self.limbs@);
        }
        r
    }

    /// Reads a 256-bit value from 32 big-endian bytes.
    pub fn from_be_bytes(bytes: &[u8]) -> (r: Uint256)
        requires
            bytes@.len() == 32,
        ensures
            r.wf(),
            r.val() == be_bytes_val(bytes@),
    {
        let mut limbs: Vec<u64> = Vec::new();
        let mut k: usize = 0;
        while k < 4
            invariant
                bytes@.len() == 32,
                0 <= k <= 4,
                limbs@.len() == k,
                forall|m: int|
                    0 <= m < k ==> ((#[trigger] limbs@[m]) as nat) == be_bytes_val(
                        bytes@.subrange(24 - 8 * m, 32 - 8 * m),
                    ),
            decreases 4 - k,
        {
            let start: usize = 24 - 8 * k;
            let limb: u64 = limb_from_be(bytes, start);
            limbs.push(limb);
            k = k + 1;
        }
        let r = Uint256 { limbs };
        proof {
            let s = bytes@;
            lemma_val4(r.limbs@);
            lemma_pow256_vals();
            lemma_be_split(s, 8);
            lemma_be_split(s.skip(8), 8);
            lemma_be_split(s.skip(16), 8);
            assert(s.skip(8).skip(8) =~= s.skip(16));
            assert(s.skip(16).skip(8) =~= s.skip(24));
            assert(s.take(8) =~= s.subrange(24 - 8 * 3, 32 - 8 * 3));
            assert(s.skip(8).take(8) =~= s.subrange(24 - 8 * 2, 32 - 8 * 2));
            assert(s.skip(16).take(8) =~= s.subrange(24 - 8 * 1, 32 - 8 * 1));
            assert(s.skip(24) =~= s.subrange(24 - 8 * 0, 32 - 8 * 0));
            let c3 = be_bytes_val(s.subrange(0, 8));
            let c2 = be_bytes_val(s.subrange(8, 16));
            let c1 = be_bytes_val(s.subrange(16, 24));
            let c0 = be_bytes_val(s.subrange(24, 32));
            assert((r.limbs@[3] as nat) == be_bytes_val(s.subrange(24 - 8 * 3, 32 - 8 * 3)));
            assert((r.limbs@[2] as nat) == be_bytes_val(s.subrange(24 - 8 * 2, 32 - 8 * 2)));
            assert((r.limbs@[1] as nat) == be_bytes_val(s.subrange(24 - 8 * 1, 32 - 8 * 1)));
            assert((r.limbs@[0] as nat) == be_bytes_val(s.subrange(24 - 8 * 0, 32 - 8 * 0)));
            assert(s.subrange(24 - 8 * 3, 32 - 8 * 3) =~= s.subrange(0, 8));
            assert(s.subrange(24 - 8 * 2, 32 - 8 * 2) =~= s.subrange(8, 16));
            assert(s.subrange(24 - 8 * 1, 32 - 8 * 1) =~= s.subrange(16, 24));
            assert(s.subrange(24 - 8 * 0, 32 - 8 * 0) =~= s.subrange(24, 32));
            assert(be_bytes_val(s.skip(16)) == c1 * pow256(8) + c0);
            assert(be_bytes_val(s.skip(8)) == c2 * pow256(16) + be_bytes_val(s.skip(16)));
            assert(be_bytes_val(s) == c3 * pow256(24) + be_bytes_val(s.skip(8)));
            assert(c1 * pow256(8) == c1 * 0x1_0000_0000_0000_0000) by (nonlinear_arith)
                requires
                    pow256(8) == 0x1_0000_0000_0000_0000,
            ;
            assert(c2 * pow256(16) == c2 * 0x1_0000_0000_0000_0000_0000_0000_0000_0000nat)
                by (nonlinear_arith)
                requires
                    pow256(16) == 0x1_0000_0000_0000_0000_0000_0000_0000_0000nat,
            ;
            assert(c3 * pow256(24)
                == c3 * 0x1_0000_0000_0000_0000_0000_0000_0000_0000_0000_0000_0000_0000nat)
                by (nonlinear_arith)
                requires
                    pow256(24)
                        == 0x1_0000_0000_0000_0000_0000_0000_0000_0000_0000_0000_0000_0000nat,
            ;
            assert(be_bytes_val(s) == c3
                * 0x1_0000_0000_0000_0000_0000_0000_0000_0000_0000_0000_0000_0000nat + c2
                * 0x1_0000_0000_0000_0000_0000_0000_0000_0000nat + c1 * 0x1_0000_0000_0000_0000
                + c0);
            assert(r.wf());
            assert(r.val() == limbs_val(r.limbs@));
            assert(limbs_val(r.limbs@) == c0 + 0x1_0000_0000_0000_0000 * c1
                + 0x1_0000_0000_0000_0000_0000_0000_0000_0000nat * c2
                + 0x1_0000_0000_0000_0000_0000_0000_0000_0000_0000_0000_0000_0000nat * c3);
            assert(r.val() == c0 + 0x1_0000_0000_0000_0000 * c1
                + 0x1_0000_0000_0000_0000_0000_0000_0000_0000nat * c2
                + 0x1_0000_0000_0000_0000_0000_0000_0000_0000_0000_0000_0000_0000nat * c3);
            assert(be_bytes_val(bytes@) == c0 + 0x1_0000_0000_0000_0000 * c1
                + 0x1_0000_0000_0000_0000_0000_0000_0000_0000nat * c2
                + 0x1_0000_0000_0000_0000_0000_0000_0000_0000_0000_0000_0000_0000nat * c3)
                by (nonlinear_arith)
                requires
                    be_bytes_val(bytes@) == c3
                        * 0x1_0000_0000_0000_0000_0000_0000_0000_0000_0000_0000_0000_0000nat + c2
                        * 0x1_0000_0000_0000_0000_0000_0000_0000_0000nat + c1
                        * 0x1_0000_0000_0000_0000 + c0,
            ;
            assert(r.val() == be_bytes_val(bytes@));
        }
        r
    }

    /// Writes the value as 32 big-endian bytes.
    pub fn to_be_bytes(&self) -> (r: Vec<u8>)
        requires
            self.wf(),
        ensures
            r@.len() == 32,
            be_bytes_val(r@) == self.val(),
            r@ == u256_be(*self),
    {
        let mut out: Vec<u8> = limb_be_bytes(self.limbs[3]);
        let ghost s3 = out@;
        let mut p2: Vec<u8> = limb_be_bytes(self.limbs[2]);
        let ghost v2 = p2@;
        out.append(&mut p2);
        let ghost s2 = out@;
        let mut p1: Vec<u8> = limb_be_bytes(self.limbs[1]);
        let ghost v1 = p1@;
        out.append(&mut p1);
        let ghost s1 = out@;
        let mut p0: Vec<u8> = limb_be_bytes(self.limbs[0]);
        let ghost v0 = p0@;
        out.append(&mut p0);
        proof {
            lemma_pow256_vals();
            lemma_be_split(s2, 8);
            assert(s2.take(8) =~= s3);
            assert(s2.skip(8) =~= v2);
            lemma_be_split(s1, 16);
            assert(s1.take(16) =~= s2);
            assert(s1.skip(16) =~= v1);
            lemma_be_split(out@, 24);
            assert(out@.take(24) =~= s1);
            assert(out@.skip(24) =~= v0);
            lemma_val4(self.limbs@);
            let l3 = self.limbs@[3] as nat;
            let l2 = self.limbs@[2] as nat;
            let l1 = self.limbs@[1] as nat;
            let l0 = self.limbs@[0] as nat;
            assert(be_bytes_val(s2) == l3 * 0x1_0000_0000_0000_0000 + l2);
            assert(be_bytes_val(s1) == (l3 * 0x1_0000_0000_0000_0000 + l2)
                * 0x1_0000_0000_0000_0000 + l1);
            assert((l3 * 0x1_0000_0000_0000_0000 + l2) * 0x1_0000_0000_0000_0000 == l3
                * 0x1_0000_0000_0000_0000_0000_0000_0000_0000nat + l2 * 0x1_0000_0000_0000_0000)
                by (nonlinear_arith);
            assert(be_bytes_val(out@) == (l3 * 0x1_0000_0000_0000_0000_0000_0000_0000_0000nat + l2
                * 0x1_0000_0000_0000_0000 + l1) * 0x1_0000_0000_0000_0000 + l0);
            assert((l3 * 0x1_0000_0000_0000_0000_0000_0000_0000_0000nat + l2
                * 0x1_0000_0000_0000_0000 + l1) * 0x1_0000_0000_0000_0000 == l3
                * 0x1_0000_0000_0000_0000_0000_0000_0000_0000_0000_0000_0000_0000nat + l2
                * 0x1_0000_0000_0000_0000_0000_0000_0000_0000nat + l1 * 0x1_0000_0000_0000_0000)
                by (nonlinear_arith);
            assert(out@ =~= u256_be(*self));
        }
        out
    }
}

/// Reads one 64-bit limb from 8 big-endian bytes at `start`.
pub fn limb_from_be(bytes: &[u8], start: usize) -> (r: u64)
    requires
        start + 8 <= bytes@.len(),
    ensures
        (r as nat) == be_bytes_val(bytes@.subrange(start as int, start as int + 8)),
{
    let n: usize = bytes.len();
    let mut limb: u64 = 0;
    let mut t: usize = 0;
    while t < 8
        invariant
            n == bytes@.len(),
            start + 8 <= bytes@.len(),
            0 <= t <= 8,
            (limb as nat) == be_bytes_val(bytes@.subrange(start as int, start as int + t)),
            (limb as nat) < pow256(t as nat),
        decreases 8 - t,
    {
        proof {
            lemma_pow256_vals();
            reveal_with_fuel(pow256, 10);
            assert(pow256((t + 1) as nat) == 256 * pow256(t as nat));
            lemma_be_snoc(
                bytes@.subrange(start as int, start as int + t),
                bytes@[start as int + t],
            );
            assert(bytes@.subrange(start as int, start as int + t).push(
                bytes@[start as int + t],
            ) =~= bytes@.subrange(start as int, start as int + t + 1));
        }
        limb = limb * 256 + (bytes[start + t] as u64);
        t = t + 1;
    }
    proof {
        assert(bytes@.subrange(start as int, start as int + 8) =~= bytes@.subrange(
            start as int,
            start as int + 8,
        ));
    }
    limb
}

/// Writes one 64-bit limb as 8 big-endian bytes.
pub fn limb_be_bytes(limb: u64) -> (r: Vec<u8>)
    ensures
        r@.len() == 8,
        be_bytes_val(r@) == limb as nat,
        r@ == limb_be8(limb),
{
    let q7: u64 = limb / 0x100_0000_0000_0000;
    let q6: u64 = limb / 0x1_0000_0000_0000;
    let q5: u64 = limb / 0x100_0000_0000;
    let q4: u64 = limb / 0x1_0000_0000;
    let q3: u64 = limb / 0x100_0000;
    let q2: u64 = limb / 0x1_0000;
    let q1: u64 = limb / 0x100;
    let mut r: Vec<u8> = Vec::new();
    r.push((q7 % 256) as u8);
    r.push((q6 % 256) as u8);
    r.push((q5 % 256) as u8);
    r.push((q4 % 256) as u8);
    r.push((q3 % 256) as u8);
    r.push((q2 % 256) as u8);
    r.push((q1 % 256) as u8);
    r.push((limb % 256) as u8);
    proof {
        vstd::arithmetic::div_mod::lemma_div_denominator(limb as int, 0x100, 0x100);
        vstd::arithmetic::div_mod::lemma_div_denominator(limb as int, 0x1_0000, 0x100);
        vstd::arithmetic::div_mod::lemma_div_denominator(limb as int, 0x100_0000, 0x100);
        vstd::arithmetic::div_mod::lemma_div_denominator(limb as int, 0x1_0000_0000, 0x100);
        vstd::arithmetic::div_mod::lemma_div_denominator(limb as int, 0x100_0000_0000, 0x100);
        vstd::arithmetic::div_mod::lemma_div_denominator(limb as int, 0x1_0000_0000_0000, 0x100);
        assert(q1 == limb / 0x100);
        assert(q2 == q1 / 0x100);
        assert(q3 == q2 / 0x100);
        assert(q4 == q3 / 0x100);
        assert(q5 == q4 / 0x100);
        assert(q6 == q5 / 0x100);
        assert(q7 == q6 / 0x100);
        assert(q7 < 256);
        let s = r@;
        assert(s.len() == 8);
        assert(s.take(1) =~= s.take(0).push(s[0]));
        assert(s.take(2) =~= s.take(1).push(s[1]));
        assert(s.take(3) =~= s.take(2).push(s[2]));
        assert(s.take(4) =~= s.take(3).push(s[3]));
        assert(s.take(5) =~= s.take(4).push(s[4]));
        assert(s.take(6) =~= s.take(5).push(s[5]));
        assert(s.take(7) =~= s.take(6).push(s[6]));
        assert(s.take(8) =~= s.take(7).push(s[7]));
        assert(s.take(0) =~= Seq::<u8>::empty());
        assert(be_bytes_val(Seq::<u8>::empty()) == 0);
        lemma_be_snoc(s.take(0), s[0]);
        lemma_be_snoc(s.take(1), s[1]);
        lemma_be_snoc(s.take(2), s[2]);
        lemma_be_snoc(s.take(3), s[3]);
        lemma_be_snoc(s.take(4), s[4]);
        lemma_be_snoc(s.take(5), s[5]);
        lemma_be_snoc(s.take(6), s[6]);
        lemma_be_snoc(s.take(7), s[7]);
        assert(be_bytes_val(s.take(1)) == q7 as nat);
        assert(be_bytes_val(s.take(2)) == q6 as nat);
        assert(be_bytes_val(s.take(3)) == q5 as nat);
        assert(be_bytes_val(s.take(4)) == q4 as nat);
        assert(be_bytes_val(s.take(5)) == q3 as nat);
        assert(be_bytes_val(s.take(6)) == q2 as nat);
        assert(be_bytes_val(s.take(7)) == q1 as nat);
        assert(be_bytes_val(s.take(8)) == limb as nat);
        assert(s.take(8) =~= s);
        lemma_pow256_vals();
        assert(s =~= limb_be8(limb)) by {
            assert forall|i: int| 0 <= i < 8 implies s[i] == limb_be8(limb)[i] by {
                assert(limb_be8(limb)[i] == (((limb as nat) / pow256((7 - i) as nat)) % 256) as u8);
                if i == 0 {
                    assert((limb as nat) / pow256(7) == q7 as nat);
                } else if i == 1 {
                    assert((limb as nat) / pow256(6) == q6 as nat);
                } else if i == 2 {
                    assert((limb as nat) / pow256(5) == q5 as nat);
                } else if i == 3 {
                    assert((limb as nat) / pow256(4) == q4 as nat);
                } else if i == 4 {
                    assert((limb as nat) / pow256(3) == q3 as nat);
                } else if i == 5 {
                    assert((limb as nat) / pow256(2) == q2 as nat);
                } else if i == 6 {
                    assert((limb as nat) / pow256(1) == q1 as nat);
                } else {
                    assert((limb as nat) / pow256(0) == limb as nat);
                }
            }
        }
    }
    r
}

/// The decimal digit character for d < 10.
pub open spec fn digit_char(d: nat) -> char {
    if d == 0 {
        '0'
    } else if d == 1 {
        '1'
    } else if d == 2 {
        '2'
    } else if d == 3 {
        '3'
    } else if d == 4 {
        '4'
    } else if d == 5 {
        '5'
    } else if d == 6 {
        '6'
    } else if d == 7 {
        '7'
    } else if d == 8 {
        '8'
    } else {
        '9'
    }
}

/// The decimal representation of n, without leading zeros.
pub open spec fn dec_string_of(n: nat) -> Seq<char>
    decreases n,
{
    if n < 10 {
        seq![digit_char(n)]
    } else {
        dec_string_of(n / 10).push(digit_char(n % 10))
    }
}

impl Uint256 {
    /// Quotient and remainder of division by ten.
    pub fn divmod10(&self) -> (r: (Uint256, u64))
        requires
            self.wf(),
        ensures
            r.0.wf(),
            r.1 < 10,
            r.0.val() * 10 + (r.1 as nat) == self.val(),
            self.val() > 0 ==> r.0.val() < self.val(),
    {
        let s = &self.limbs;
        let mut q: Vec<u64> = Vec::new();
        q.push(0);
        q.push(0);
        q.push(0);
        q.push(0);
        let mut rem: u64 = 0;
        let mut k: usize = 4;
        proof {
            assert(self.limbs@.skip(4) =~= Seq::<u64>::empty());
            assert(q@.skip(4) =~= Seq::<u64>::empty());
        }
        while k > 0
            invariant
                self.wf(),
                s == &self.limbs,
                0 <= k <= 4,
                q@.len() == 4,
                rem < 10,
                limbs_val(self.limbs@.skip(k as int)) == limbs_val(q@.skip(k as int)) * 10 + (
                rem as nat),
            decreases k,
        {
            k = k - 1;
            let ghost qpre = q@;
            let cur: u128 = (rem as u128) * LIMB_BASE + (s[k] as u128);
            let qk: u64 = (cur / 10) as u64;
            let newrem: u64 = (cur % 10) as u64;
            q[k] = qk;
            proof {
                let sk = self.limbs@.skip(k as int);
                let qs = q@.skip(k as int);
                assert(sk.drop_first() =~= self.limbs@.skip(k as int + 1));
                assert(qs.drop_first() =~= qpre.skip(k as int + 1)) by {
                    assert(q@ == qpre.update(k as int, qk));
                    assert forall|m: int| 0 <= m < qs.drop_first().len() implies qs.drop_first()[m]
                        == qpre.skip(k as int + 1)[m] by {}
                }
                assert(sk[0] == self.limbs@[k as int]);
                assert(qs[0] == qk);
                assert(limbs_val(sk) == (self.limbs@[k as int] as nat) + 0x1_0000_0000_0000_0000
                    * limbs_val(sk.drop_first()));
                assert(limbs_val(qs) == (qk as nat) + 0x1_0000_0000_0000_0000 * limbs_val(
                    qs.drop_first(),
                ));
                assert(cur as nat == (qk as nat) * 10 + (newrem as nat));
                let vq1 = limbs_val(qpre.skip(k as int + 1));
                assert(((qk as nat) + 0x1_0000_0000_0000_0000 * vq1) * 10 == (qk as nat) * 10
                    + 0x1_0000_0000_0000_0000 * (vq1 * 10)) by (nonlinear_arith);
                assert(0x1_0000_0000_0000_0000 * (vq1 * 10 + (rem as nat)) == 0x1_0000_0000_0000_0000
                    * (vq1 * 10) + (rem as nat) * 0x1_0000_0000_0000_0000) by (nonlinear_arith);
            }
            rem = newrem;
        }
        proof {
            assert(self.limbs@.skip(0) =~= self.limbs@);
            assert(q@.skip(0) =~= q@);
            let vq = limbs_val(q@);
            if self.val() > 0 && vq >= self.val() {
                assert(vq * 10 >= self.val() * 10) by (nonlinear_arith)
                    requires
                        vq >= self.val(),
                ;
            }
        }
        (Uint256 { limbs: q }, rem)
    }

    /// The value written in decimal, without leading zeros.
    pub fn to_decimal(&self) -> (r: Vec<char>)
        requires
            self.wf(),
        ensures
            r@ == dec_string_of(self.val()),
    {
        let mut digits: Vec<u64> = Vec::new();
        let mut cur: Uint256 = self.dup();
        let mut zero: bool = cur.is_zero();
        proof {
            assert(pow10(0) == 1);
            assert(cur.val() * 1 == cur.val());
        }
        while !zero
            invariant
                cur.wf(),
                zero == (cur.val() == 0),
                forall|m: int| 0 <= m < digits@.len() ==> #[trigger] digits@[m] < 10,
                digits_val(digits@) + cur.val() * pow10(digits@.len()) == self.val(),
                (cur.val() == 0 && digits@.len() > 0) ==> digits@.last() > 0,
            decreases cur.val(),
        {
            let (q, d) = cur.divmod10();
            let ghost pre = digits@;
            let ghost curval = cur.val();
            digits.push(d);
            proof {
                lemma_digits_snoc(pre, d);
                assert(pow10(pre.len() + 1) == 10 * pow10(pre.len()));
                assert(curval * pow10(pre.len()) == q.val() * (10 * pow10(pre.len())) + (d as nat)
                    * pow10(pre.len())) by (nonlinear_arith)
                    requires
                        curval == q.val() * 10 + (d as nat),
                ;
                assert(q.val() * (10 * pow10(pre.len())) == q.val() * pow10(pre.len() + 1));
                assert(digits@.last() == d);
                if q.val() == 0 {
                    assert(d as nat == curval);
                }
            }
            cur = q;
            zero = cur.is_zero();
        }
        proof {
            if digits@.len() > 0 && self.val() == 0 {
                lemma_digits_val_pos(digits@);
                assert(false);
            }
        }
        if digits.len() == 0 {
            digits.push(0);
            proof {
                assert(self.val() == 0);
                assert(digits@ =~= seq![0u64]);
            }
        }
        let digits = digits;
        let mut out: Vec<char> = Vec::new();
        let mut k: usize = digits.len();
        while k > 0
            invariant
                forall|m: int| 0 <= m < digits@.len() ==> #[trigger] digits@[m] < 10,
                0 <= k <= digits@.len(),
                out@ =~= digits@.skip(k as int).reverse().map_values(|d: u64| digit_char(d as nat)),
            decreases k,
        {
            k = k - 1;
            let d = digits[k];
            out.push(digit_char_exec(d));
            proof {
                let sk = digits@.skip(k as int);
                let sk1 = digits@.skip(k as int + 1);
                assert(sk.reverse() =~= sk1.reverse().push(digits@[k as int]));
                assert(sk.reverse().map_values(|d: u64| digit_char(d as nat)) =~= sk1.reverse(
                ).map_values(|d: u64| digit_char(d as nat)).push(
                    digit_char(digits@[k as int] as nat),
                ));
            }
        }
        proof {
            assert(digits@.skip(0) =~= digits@);
            if self.val() == 0 {
                assert(digits@ =~= seq![0u64]);
                assert(digits@.reverse() =~= seq![0u64]);
                assert(digits@.reverse().map_values(|d: u64| digit_char(d as nat)) =~= seq![
                    digit_char(0),
                ]);
                assert(dec_string_of(0) == seq![digit_char(0)]);
            } else {
                assert(digits@.len() > 0);
                assert(digits_val(digits@) == self.val());
                lemma_digits_to_string(digits@);
            }
        }
        out
    }
}

/// 10^n: the weight of the digit n places up.
pub open spec fn pow10(n: nat) -> nat
    decreases n,
{
    if n == 0 {
        1
    } else {
        10 * pow10((n - 1) as nat)
    }
}

/// Value of a least-significant-first digit sequence.
pub open spec fn digits_val(ds: Seq<u64>) -> nat
    decreases ds.len(),
{
    if ds.len() == 0 {
        0
    } else {
        (ds[0] as nat) + 10 * digits_val(ds.drop_first())
    }
}

/// Appending a digit adds its weighted value.
proof fn lemma_digits_snoc(ds: Seq<u64>, x: u64)
    ensures
        digits_val(ds.push(x)) == digits_val(ds) + (x as nat) * pow10(ds.len()),
    decreases ds.len(),
{
    reveal_with_fuel(digits_val, 3);
    reveal_with_fuel(pow10, 2);
    if ds.len() == 0 {
        assert(ds.push(x).drop_first() =~= Seq::<u64>::empty());
        assert(digits_val(ds) == 0);
        assert(pow10(0) == 1);
        assert((x as nat) * 1 == x as nat);
    } else {
        assert(ds.push(x).drop_first() =~= ds.drop_first().push(x));
        lemma_digits_snoc(ds.drop_first(), x);
        assert(pow10(ds.len()) == 10 * pow10((ds.len() - 1) as nat));
        assert(10 * (digits_val(ds.drop_first()) + (x as nat) * pow10((ds.len() - 1) as nat)) == 10
            * digits_val(ds.drop_first()) + (x as nat) * (10 * pow10((ds.len() - 1) as nat)))
            by (nonlinear_arith);
    }
}

/// A digit stack whose top digit is positive has a positive value.
proof fn lemma_digits_val_pos(ds: Seq<u64>)
    requires
        ds.len() > 0,
        ds.last() > 0,
    ensures
        digits_val(ds) >= 1,
    decreases ds.len(),
{
    reveal_with_fuel(digits_val, 2);
    if ds.len() == 1 {
    } else {
        assert(ds.drop_first().last() == ds.last());
        lemma_digits_val_pos(ds.drop_first());
    }
}

/// Reversing a digit stack and naming each digit spells the value in
/// decimal, provided there is no leading zero.
proof fn lemma_digits_to_string(ds: Seq<u64>)
    requires
        ds.len() > 0,
        forall|m: int| 0 <= m < ds.len() ==> #[trigger] ds[m] < 10,
        ds.last() > 0 || ds.len() == 1,
    ensures
        ds.reverse().map_values(|d: u64| digit_char(d as nat)) == dec_string_of(digits_val(ds)),
    decreases ds.len(),
{
    reveal_with_fuel(digits_val, 2);
    let n = digits_val(ds);
    let dc = |d: u64| digit_char(d as nat);
    if ds.len() == 1 {
        assert(ds.drop_first() =~= Seq::<u64>::empty());
        assert(digits_val(ds.drop_first()) == 0);
        assert(n == ds[0] as nat);
        assert(n < 10);
        assert(dec_string_of(n) == seq![digit_char(n)]);
        assert(ds.reverse() =~= ds);
        assert(ds.map_values(dc) =~= seq![digit_char(n)]);
    } else {
        let tail = ds.drop_first();
        let m = digits_val(tail);
        assert(tail.last() == ds.last());
        lemma_digits_val_pos(tail);
        assert(n == (ds[0] as nat) + 10 * m);
        assert(n >= 10);
        assert(n / 10 == m && n % 10 == ds[0] as nat) by (nonlinear_arith)
            requires
                n == (ds[0] as nat) + 10 * m,
                0 <= (ds[0] as nat) < 10,
        ;
        assert(dec_string_of(n) == dec_string_of(m).push(digit_char(ds[0] as nat)));
        lemma_digits_to_string(tail);
        assert(ds.reverse() =~= tail.reverse().push(ds[0]));
        assert(ds.reverse().map_values(dc) =~= tail.reverse().map_values(dc).push(
            digit_char(ds[0] as nat),
        ));
    }
}

/// The digit character, computed.
fn digit_char_exec(d: u64) -> (c: char)
    requires
        d < 10,
    ensures
        c == digit_char(d as nat),
{
    if d == 0 {
        '0'
    } else if d == 1 {
        '1'
    } else if d == 2 {
        '2'
    } else if d == 3 {
        '3'
    } else if d == 4 {
        '4'
    } else if d == 5 {
        '5'
    } else if d == 6 {
        '6'
    } else if d == 7 {
        '7'
    } else if d == 8 {
        '8'
    } else {
        '9'
    }
}

/// Equal values have equal limb sequences (of equal length).
pub proof fn lemma_limbs_val_injective(a: Seq<u64>, b: Seq<u64>)
    requires
        a.len() == b.len(),
        a != b,
    ensures
        limbs_val(a) != limbs_val(b),
    decreases a.len(),
{
    if a.len() == 0 {
        assert(a =~= b);
    } else {
        lemma_val_bound(a.drop_first());
        lemma_val_bound(b.drop_first());
        if a[0] != b[0] {
            assert(limbs_val(a) % 0x1_0000_0000_0000_0000 == a[0] as nat) by {
                lemma_head_mod(a);
            }
            assert(limbs_val(b) % 0x1_0000_0000_0000_0000 == b[0] as nat) by {
                lemma_head_mod(b);
            }
        } else {
            assert(a.drop_first() != b.drop_first()) by {
                if a.drop_first() == b.drop_first() {
                    assert forall|i: int| 0 <= i < a.len() implies a[i] == b[i] by {
                        if i > 0 {
                            assert(a[i] == a.drop_first()[i - 1]);
                            assert(b[i] == b.drop_first()[i - 1]);
                        }
                    }
                    assert(a =~= b);
                }
            }
            lemma_limbs_val_injective(a.drop_first(), b.drop_first());
        }
    }
}

/// The head limb is the value's remainder modulo the base.
proof fn lemma_head_mod(s: Seq<u64>)
    requires
        s.len() > 0,
    ensures
        limbs_val(s) % 0x1_0000_0000_0000_0000 == s[0] as nat,
{
    let rest = limbs_val(s.drop_first());
    assert(limbs_val(s) == (s[0] as nat) + 0x1_0000_0000_0000_0000 * rest);
    assert(((s[0] as nat) + 0x1_0000_0000_0000_0000 * rest) % 0x1_0000_0000_0000_0000 == (
    s[0] as nat)) by (nonlinear_arith)
        requires
            (s[0] as nat) < 0x1_0000_0000_0000_0000,
    ;
}

/// Quotient and remainder of a limb sequence divided by ten.
pub fn limbs_divmod10(limbs: &Vec<u64>) -> (r: (Vec<u64>, u64))
    ensures
        r.0@.len() == limbs@.len(),
        r.1 < 10,
        limbs_val(r.0@) * 10 + (r.1 as nat) == limbs_val(limbs@),
        limbs_val(limbs@) > 0 ==> limbs_val(r.0@) < limbs_val(limbs@),
{
    let n = limbs.len();
    let mut q: Vec<u64> = Vec::new();
    let mut z: usize = 0;
    while z < n
        invariant
            n == limbs@.len(),
            0 <= z <= n,
            q@.len() == z,
        decreases n - z,
    {
        q.push(0);
        z = z + 1;
    }
    let mut rem: u64 = 0;
    let mut k: usize = n;
    proof {
        assert(limbs@.skip(n as int) =~= Seq::<u64>::empty());
        assert(q@.skip(n as int) =~= Seq::<u64>::empty());
    }
    while k > 0
        invariant
            n == limbs@.len(),
            q@.len() == n,
            0 <= k <= n,
            rem < 10,
            limbs_val(limbs@.skip(k as int)) == limbs_val(q@.skip(k as int)) * 10 + (rem as nat),
        decreases k,
    {
        k = k - 1;
        let ghost qpre = q@;
        let cur: u128 = (rem as u128) * LIMB_BASE + (limbs[k] as u128);
        let qk: u64 = (cur / 10) as u64;
        let newrem: u64 = (cur % 10) as u64;
        q[k] = qk;
        proof {
            let sk = limbs@.skip(k as int);
            let qs = q@.skip(k as int);
            assert(sk.drop_first() =~= limbs@.skip(k as int + 1));
            assert(qs.drop_first() =~= qpre.skip(k as int + 1)) by {
                assert(q@ == qpre.update(k as int, qk));
                assert forall|m: int| 0 <= m < qs.drop_first().len() implies qs.drop_first()[m]
                    == qpre.skip(k as int + 1)[m] by {}
            }
            assert(sk[0] == limbs@[k as int]);
            assert(qs[0] == qk);
            assert(limbs_val(sk) == (limbs@[k as int] as nat) + 0x1_0000_0000_0000_0000
                * limbs_val(sk.drop_first()));
            assert(limbs_val(qs) == (qk as nat) + 0x1_0000_0000_0000_0000 * limbs_val(
                qs.drop_first(),
            ));
            assert(cur as nat == (qk as nat) * 10 + (newrem as nat));
            let vq1 = limbs_val(qpre.skip(k as int + 1));
            assert(((qk as nat) + 0x1_0000_0000_0000_0000 * vq1) * 10 == (qk as nat) * 10
                + 0x1_0000_0000_0000_0000 * (vq1 * 10)) by (nonlinear_arith);
            assert(0x1_0000_0000_0000_0000 * (vq1 * 10 + (rem as nat)) == 0x1_0000_0000_0000_0000
                * (vq1 * 10) + (rem as nat) * 0x1_0000_0000_0000_0000) by (nonlinear_arith);
        }
        rem = newrem;
    }
    proof {
        assert(limbs@.skip(0) =~= limbs@);
        assert(q@.skip(0) =~= q@);
        let vq = limbs_val(q@);
        if limbs_val(limbs@) > 0 && vq >= limbs_val(limbs@) {
            assert(vq * 10 >= limbs_val(limbs@) * 10) by (nonlinear_arith)
                requires
                    vq >= limbs_val(limbs@),
            ;
        }
    }
    (q, rem)
}

/// The value of a limb sequence written in decimal, without leading
/// zeros.
pub fn limbs_to_decimal(limbs: &Vec<u64>) -> (r: Vec<char>)
    ensures
        r@ == dec_string_of(limbs_val(limbs@)),
{
    let mut digits: Vec<u64> = Vec::new();
    let mut cur: Vec<u64> = Vec::new();
    let n = limbs.len();
    let mut z: usize = 0;
    while z < n
        invariant
            n == limbs@.len(),
            0 <= z <= n,
            cur@ =~= limbs@.take(z as int),
        decreases n - z,
    {
        cur.push(limbs[z]);
        proof {
            assert(limbs@.take(z as int).push(limbs@[z as int]) =~= limbs@.take(z + 1));
        }
        z = z + 1;
    }
    proof {
        assert(limbs@.take(n as int) =~= limbs@);
    }
    let mut zero: bool = limbs_all_zero(&cur);
    proof {
        assert(pow10(0) == 1);
        assert(limbs_val(cur@) * 1 == limbs_val(cur@));
    }
    while !zero
        invariant
            zero == (limbs_val(cur@) == 0),
            forall|m: int| 0 <= m < digits@.len() ==> #[trigger] digits@[m] < 10,
            digits_val(digits@) + limbs_val(cur@) * pow10(digits@.len()) == limbs_val(limbs@),
            (limbs_val(cur@) == 0 && digits@.len() > 0) ==> digits@.last() > 0,
        decreases limbs_val(cur@),
    {
        let (q, d) = limbs_divmod10(&cur);
        let ghost pre = digits@;
        let ghost curval = limbs_val(cur@);
        digits.push(d);
        proof {
            lemma_digits_snoc(pre, d);
            assert(pow10(pre.len() + 1) == 10 * pow10(pre.len()));
            assert(curval * pow10(pre.len()) == limbs_val(q@) * (10 * pow10(pre.len())) + (
            d as nat) * pow10(pre.len())) by (nonlinear_arith)
                requires
                    curval == limbs_val(q@) * 10 + (d as nat),
            ;
            assert(limbs_val(q@) * (10 * pow10(pre.len())) == limbs_val(q@) * pow10(
                pre.len() + 1,
            ));
            assert(digits@.last() == d);
            if limbs_val(q@) == 0 {
                assert(d as nat == curval);
            }
        }
        cur = q;
        zero = limbs_all_zero(&cur);
    }
    proof {
        if digits@.len() > 0 && limbs_val(limbs@) == 0 {
            lemma_digits_val_pos(digits@);
            assert(false);
        }
    }
    if digits.len() == 0 {
        digits.push(0);
        proof {
            assert(limbs_val(limbs@) == 0);
            assert(digits@ =~= seq![0u64]);
        }
    }
    let digits = digits;
    let mut out: Vec<char> = Vec::new();
    let mut k: usize = digits.len();
    while k > 0
        invariant
            forall|m: int| 0 <= m < digits@.len() ==> #[trigger] digits@[m] < 10,
            0 <= k <= digits@.len(),
            out@ =~= digits@.skip(k as int).reverse().map_values(|d: u64| digit_char(d as nat)),
        decreases k,
    {
        k = k - 1;
        let d = digits[k];
        out.push(digit_char_exec(d));
        proof {
            let sk = digits@.skip(k as int);
            let sk1 = digits@.skip(k as int + 1);
            assert(sk.reverse() =~= sk1.reverse().push(digits@[k as int]));
            assert(sk.reverse().map_values(|d: u64| digit_char(d as nat)) =~= sk1.reverse(
            ).map_values(|d: u64| digit_char(d as nat)).push(digit_char(digits@[k as int] as nat)));
        }
    }
    proof {
        assert(digits@.skip(0) =~= digits@);
        if limbs_val(limbs@) == 0 {
            assert(digits@ =~= seq![0u64]);
            assert(digits@.reverse() =~= seq![0u64]);
            assert(digits@.reverse().map_values(|d: u64| digit_char(d as nat)) =~= seq![
                digit_char(0),
            ]);
            assert(dec_string_of(0) == seq![digit_char(0)]);
        } else {
            assert(digits@.len() > 0);
            assert(digits_val(digits@) == limbs_val(limbs@));
            lemma_digits_to_string(digits@);
        }
    }
    out
}

/// A single limb's value is itself.
pub proof fn lemma_val_single(s: Seq<u64>)
    requires
        s.len() == 1,
    ensures
        limbs_val(s) == s[0] as nat,
{
    reveal_with_fuel(limbs_val, 2);
    assert(s.drop_first() =~= Seq::<u64>::empty());
}

/// Whether every limb is zero.
fn limbs_all_zero(limbs: &Vec<u64>) -> (r: bool)
    ensures
        r == (limbs_val(limbs@) == 0),
{
    let n = limbs.len();
    let mut i: usize = 0;
    while i < n
        invariant
            n == limbs@.len(),
            0 <= i <= n,
            forall|j: int| 0 <= j < i ==> limbs@[j] == 0,
        decreases n - i,
    {
        if limbs[i] != 0 {
            proof {
                lemma_val_nonzero_limb(limbs@, i as int);
            }
            return false;
        }
        i = i + 1;
    }
    proof {
        lemma_val_zeros(limbs@);
    }
    true
}

/// A nonzero limb makes the value positive.
proof fn lemma_val_nonzero_limb(s: Seq<u64>, i: int)
    requires
        0 <= i < s.len(),
        s[i] != 0,
    ensures
        limbs_val(s) > 0,
    decreases i,
{
    reveal_with_fuel(limbs_val, 2);
    if i == 0 {
    } else {
        lemma_val_nonzero_limb(s.drop_first(), i - 1);
        assert(0x1_0000_0000_0000_0000 * limbs_val(s.drop_first()) >= limbs_val(s.drop_first()))
            by (nonlinear_arith);
    }
}

/// The sum of the amounts as five limbs, which always suffice.
pub fn wide_sum(amounts: &Vec<Uint256>) -> (r: Vec<u64>)
    requires
        forall|i: int| 0 <= i < amounts@.len() ==> (#[trigger] amounts@[i]).wf(),
    ensures
        r@.len() == 5,
        limbs_val(r@) == crate::sources::sum_vals(amounts@),
{
    let mut acc: Vec<u64> = Vec::new();
    acc.push(0);
    acc.push(0);
    acc.push(0);
    acc.push(0);
    acc.push(0);
    proof {
        lemma_val_zeros(acc@);
        assert(crate::sources::sum_vals(amounts@.take(0)) == 0) by {
            assert(amounts@.take(0) =~= Seq::<Uint256>::empty());
        }
        lemma_pow_b_4();
        assert(pow_b(5) == 0x1_0000_0000_0000_0000 * pow_b(4));
    }
    let n = amounts.len();
    let mut i: usize = 0;
    while i < n
        invariant
            n == amounts@.len(),
            forall|j: int| 0 <= j < amounts@.len() ==> (#[trigger] amounts@[j]).wf(),
            0 <= i <= n,
            acc@.len() == 5,
            limbs_val(acc@) == crate::sources::sum_vals(amounts@.take(i as int)),
            limbs_val(acc@) <= (i as nat) * (pow2_256() - 1),
            (i as nat) * (pow2_256() - 1) + pow2_256() <= pow_b(5),
        decreases n - i,
    {
        proof {
            assert(amounts@.take(i as int + 1) =~= amounts@.take(i as int).push(
                amounts@[i as int],
            ));
            crate::sources::lemma_sum_snoc_pub(amounts@.take(i as int), amounts@[i as int]);
            amounts@[i as int].lemma_val_lt_pow2_256();
        }
        let x = &amounts[i];
        let mut carry: u64 = 0;
        let mut j: usize = 0;
        let ghost pre = acc@;
        let ghost xval = x.val();
        while j < 5
            invariant
                x.wf(),
                xval == x.val(),
                acc@.len() == 5,
                pre.len() == 5,
                0 <= j <= 5,
                carry <= 1,
                forall|m: int| j <= m < 5 ==> acc@[m] == pre[m],
                limbs_val(acc@.take(j as int)) + (carry as nat) * pow_b(j as nat) == limbs_val(
                    pre.take(j as int),
                ) + limbs_val(x.limbs@.take(if j < 4 { j as int } else { 4 })),
            decreases 5 - j,
        {
            let ghost accpre = acc@;
            let xj: u64 = if j < 4 {
                x.limbs[j]
            } else {
                0
            };
            let t: u128 = acc[j] as u128 + xj as u128 + carry as u128;
            let lo: u64 = (t % LIMB_BASE) as u64;
            let hi: u64 = (t / LIMB_BASE) as u64;
            acc[j] = lo;
            proof {
                assert(acc@.take(j as int) =~= accpre.take(j as int));
                assert(acc@.take(j as int + 1) =~= accpre.take(j as int).push(lo));
                assert(pre.take(j as int + 1) =~= pre.take(j as int).push(pre[j as int]));
                lemma_val_snoc(accpre.take(j as int), lo);
                lemma_val_snoc(pre.take(j as int), pre[j as int]);
                assert(accpre[j as int] == pre[j as int]);
                assert(t as nat == (lo as nat) + 0x1_0000_0000_0000_0000 * (hi as nat));
                assert(pow_b((j + 1) as nat) == 0x1_0000_0000_0000_0000 * pow_b(j as nat));
                if j < 4 {
                    lemma_val_take_step(x.limbs@, j as int);
                }
                let w = pow_b(j as nat);
                assert(((lo as nat) + 0x1_0000_0000_0000_0000 * (hi as nat)) * w == (lo as nat) * w
                    + (hi as nat) * (0x1_0000_0000_0000_0000 * w)) by (nonlinear_arith);
                assert(((pre[j as int] as nat) + (xj as nat) + (carry as nat)) * w == (
                pre[j as int] as nat) * w + (xj as nat) * w + (carry as nat) * w)
                    by (nonlinear_arith);
            }
            carry = hi;
            j = j + 1;
        }
        proof {
            assert(acc@.take(5) =~= acc@);
            assert(pre.take(5) =~= pre);
            assert(x.limbs@.take(4) =~= x.limbs@);
            assert(limbs_val(acc@) + (carry as nat) * pow_b(5) == limbs_val(pre) + xval);
            assert(limbs_val(pre) + xval <= (i as nat) * (pow2_256() - 1) + pow2_256() - 1);
            if carry > 0 {
                assert((carry as nat) * pow_b(5) >= pow_b(5)) by (nonlinear_arith)
                    requires
                        carry >= 1,
                ;
                assert(false);
            }
            assert(((i + 1) as nat) * (pow2_256() - 1) == (i as nat) * (pow2_256() - 1) + (
            pow2_256() - 1)) by (nonlinear_arith);
            assert(n as nat <= 0xffff_ffff_ffff_ffffnat);
            assert(((i + 1) as nat) * (pow2_256() - 1) + pow2_256() <= pow_b(5)) by {
                assert(pow_b(5) == 0x1_0000_0000_0000_0000 * pow_b(4));
                lemma_pow_b_4();
                assert(((i + 1) as nat) <= 0xffff_ffff_ffff_ffffnat);
                assert(((i + 1) as nat) * (pow2_256() - 1) <= 0xffff_ffff_ffff_ffffnat * (
                pow2_256() - 1)) by (nonlinear_arith)
                    requires
                        ((i + 1) as nat) <= 0xffff_ffff_ffff_ffffnat,
                ;
            }
        }
        i = i + 1;
    }
    proof {
        assert(amounts@.take(n as int) =~= amounts@);
    }
    acc
}

} // verus!
