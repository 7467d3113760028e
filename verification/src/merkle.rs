//! The canonical Merkle tree over claims.
//!
//! Each leaf is the double Keccak-256 digest of one claim's ABI tuple. The
//! leaf digests are sorted by byte value, then repeatedly combined in
//! pairs — each pair itself sorted before hashing, an odd trailing digest
//! carried up unchanged — until one digest, the root, remains. Sorting the
//! leaves makes the root a function of the multiset of claims alone;
//! sorting each pair lets a verifier recompute upward without knowing
//! left from right.

use crate::claim::{claim_abi_bytes, Claim};
use crate::hash::{keccak256, keccak_of};
use crate::RewardsError;
use vstd::prelude::*;
use vstd::multiset::Multiset;
use vstd::relations::{sorted_by, total_ordering};
use vstd::seq_lib::lemma_sorted_unique;

verus! {

/// Byte-wise lexicographic order on hash values.
pub open spec fn lex_leq(a: Seq<u8>, b: Seq<u8>) -> bool
    decreases a.len(),
{
    if a.len() == 0 {
        true
    } else if b.len() == 0 {
        false
    } else if a[0] < b[0] {
        true
    } else if a[0] > b[0] {
        false
    } else {
        lex_leq(a.drop_first(), b.drop_first())
    }
}

/// The order as a relation value, for sorting.
pub open spec fn lex_leq_rel() -> spec_fn(Seq<u8>, Seq<u8>) -> bool {
    |a: Seq<u8>, b: Seq<u8>| lex_leq(a, b)
}

proof fn lemma_lex_refl(a: Seq<u8>)
    ensures
        lex_leq(a, a),
    decreases a.len(),
{
    if a.len() > 0 {
        lemma_lex_refl(a.drop_first());
    }
}

proof fn lemma_lex_antisym(a: Seq<u8>, b: Seq<u8>)
    requires
        lex_leq(a, b),
        lex_leq(b, a),
    ensures
        a == b,
    decreases a.len(),
{
    if a.len() == 0 {
        assert(b.len() == 0);
        assert(a =~= b);
    } else {
        assert(b.len() > 0);
        lemma_lex_antisym(a.drop_first(), b.drop_first());
        assert(a[0] == b[0]);
        assert(a.drop_first().len() == b.drop_first().len());
        assert(a.len() == b.len());
        assert(a =~= b) by {
            assert forall|i: int| 0 <= i < a.len() implies a[i] == b[i] by {
                if i > 0 {
                    assert(a[i] == a.drop_first()[i - 1]);
                    assert(b[i] == b.drop_first()[i - 1]);
                }
            }
        }
    }
}

proof fn lemma_lex_trans(a: Seq<u8>, b: Seq<u8>, c: Seq<u8>)
    requires
        lex_leq(a, b),
        lex_leq(b, c),
    ensures
        lex_leq(a, c),
    decreases a.len(),
{
    if a.len() == 0 {
    } else if b.len() == 0 {
    } else if c.len() == 0 {
    } else {
        if a[0] == b[0] && b[0] == c[0] {
            lemma_lex_trans(a.drop_first(), b.drop_first(), c.drop_first());
        }
    }
}

proof fn lemma_lex_connected(a: Seq<u8>, b: Seq<u8>)
    ensures
        lex_leq(a, b) || lex_leq(b, a),
    decreases a.len(),
{
    if a.len() == 0 {
    } else if b.len() == 0 {
    } else if a[0] == b[0] {
        lemma_lex_connected(a.drop_first(), b.drop_first());
    }
}

/// The lexicographic order is total.
pub proof fn lemma_lex_total_ordering()
    ensures
        total_ordering(lex_leq_rel()),
{
    let r = lex_leq_rel();
    assert forall|a: Seq<u8>| #[trigger] r(a, a) by {
        lemma_lex_refl(a);
    }
    assert forall|a: Seq<u8>, b: Seq<u8>| #[trigger] r(a, b) && #[trigger] r(b, a) implies a == b by {
        lemma_lex_antisym(a, b);
    }
    assert forall|a: Seq<u8>, b: Seq<u8>, c: Seq<u8>|
        #[trigger] r(a, b) && #[trigger] r(b, c) implies r(a, c) by {
        lemma_lex_trans(a, b, c);
    }
    assert forall|a: Seq<u8>, b: Seq<u8>| #[trigger] r(a, b) || #[trigger] r(b, a) by {
        lemma_lex_connected(a, b);
    }
}

/// The digest of one claim's ABI tuple: Keccak-256 applied twice.
pub open spec fn leaf_hash_of(c: Claim) -> Seq<u8> {
    keccak_of(keccak_of(claim_abi_bytes(c)))
}

/// The leaf digests of a claim list, in list order.
pub open spec fn leaf_hashes(claims: Seq<Claim>) -> Seq<Seq<u8>> {
    claims.map_values(|c: Claim| leaf_hash_of(c))
}

/// The leaf digests sorted by byte value.
pub open spec fn sorted_leaves(claims: Seq<Claim>) -> Seq<Seq<u8>> {
    leaf_hashes(claims).sort_by(lex_leq_rel())
}

/// Two digests combined: concatenated in byte order, then hashed.
pub open spec fn combine(a: Seq<u8>, b: Seq<u8>) -> Seq<u8> {
    if lex_leq(a, b) {
        keccak_of(a + b)
    } else {
        keccak_of(b + a)
    }
}

/// Combining does not depend on the order of its arguments.
pub proof fn lemma_combine_comm(a: Seq<u8>, b: Seq<u8>)
    ensures
        combine(a, b) == combine(b, a),
{
    lemma_lex_connected(a, b);
    if lex_leq(a, b) && lex_leq(b, a) {
        lemma_lex_antisym(a, b);
    }
}

/// One layer combined into the next: pairs hashed, an odd digest carried.
pub open spec fn layer_up(s: Seq<Seq<u8>>) -> Seq<Seq<u8>> {
    Seq::new((s.len() + 1) / 2, |j: int|
        if 2 * j + 1 < s.len() {
            combine(s[2 * j], s[2 * j + 1])
        } else {
            s[2 * j]
        },
    )
}

/// The root of a nonempty layer: combine layers until one digest remains.
pub open spec fn root_of(s: Seq<Seq<u8>>) -> Seq<u8>
    recommends
        s.len() >= 1,
    decreases s.len(),
{
    if s.len() <= 1 {
        s[0]
    } else {
        root_of(layer_up(s))
    }
}

/// The canonical root of a claim list: the root over its sorted leaves.
pub open spec fn merkle_root(claims: Seq<Claim>) -> Seq<u8>
    recommends
        claims.len() >= 1,
{
    root_of(sorted_leaves(claims))
}

/// The index a digest is paired with.
pub open spec fn sibling_index(i: int) -> int {
    if i % 2 == 0 {
        i + 1
    } else {
        i - 1
    }
}

/// The inclusion proof for position i of a layer: the sibling at each
/// level, bottom up; a carried digest contributes nothing.
pub open spec fn proof_of(s: Seq<Seq<u8>>, i: int) -> Seq<Seq<u8>>
    recommends
        0 <= i < s.len(),
    decreases s.len(),
{
    if s.len() <= 1 {
        Seq::<Seq<u8>>::empty()
    } else {
        let rest = proof_of(layer_up(s), i / 2);
        if sibling_index(i) < s.len() {
            seq![s[sibling_index(i)]] + rest
        } else {
            rest
        }
    }
}

/// A digest folded with each proof element in turn.
pub open spec fn fold_proof(h: Seq<u8>, p: Seq<Seq<u8>>) -> Seq<u8>
    decreases p.len(),
{
    if p.len() == 0 {
        h
    } else {
        fold_proof(combine(h, p[0]), p.drop_first())
    }
}

/// Folding a leaf with its inclusion proof reconstructs the root.
pub proof fn lemma_proof_reconstructs_root(s: Seq<Seq<u8>>, i: int)
    requires
        s.len() >= 1,
        0 <= i < s.len(),
    ensures
        fold_proof(s[i], proof_of(s, i)) == root_of(s),
    decreases s.len(),
{
    if s.len() <= 1 {
    } else {
        let l = layer_up(s);
        assert(l.len() == (s.len() + 1) / 2);
        assert(0 <= i / 2 < l.len());
        lemma_proof_reconstructs_root(l, i / 2);
        let rest = proof_of(l, i / 2);
        if sibling_index(i) < s.len() {
            let p = seq![s[sibling_index(i)]] + rest;
            assert(p[0] == s[sibling_index(i)]);
            assert(p.drop_first() =~= rest);
            assert(combine(s[i], s[sibling_index(i)]) == l[i / 2]) by {
                if i % 2 == 0 {
                    assert(2 * (i / 2) == i);
                    assert(l[i / 2] == combine(s[i], s[i + 1]));
                } else {
                    assert(2 * (i / 2) == i - 1);
                    assert(l[i / 2] == combine(s[i - 1], s[i]));
                    lemma_combine_comm(s[i], s[i - 1]);
                }
            }
            assert(fold_proof(s[i], p) == fold_proof(l[i / 2], rest));
        } else {
            assert(i % 2 == 0);
            assert(2 * (i / 2) == i);
            assert(2 * (i / 2) + 1 >= s.len());
            assert(l[i / 2] == s[i]);
        }
    }
}

/// Multiset-equal claim lists have multiset-equal leaf digests.
proof fn lemma_leaf_hashes_multiset(c1: Seq<Claim>, c2: Seq<Claim>)
    requires
        c1.to_multiset() == c2.to_multiset(),
    ensures
        leaf_hashes(c1).to_multiset() == leaf_hashes(c2).to_multiset(),
    decreases c1.len(),
{
    broadcast use vstd::seq_lib::group_to_multiset_ensures;

    if c1.len() == 0 {
        assert(c1.to_multiset().len() == 0);
        assert(c2.to_multiset().len() == 0);
        assert(c2.len() == 0);
        assert(leaf_hashes(c1) =~= leaf_hashes(c2));
    } else {
        let x = c1[0];
        assert(c1.to_multiset().contains(x)) by {
            assert(c1.contains(x));
        }
        assert(c2.to_multiset().contains(x));
        assert(c2.contains(x));
        let j = choose|j: int| 0 <= j < c2.len() && c2[j] == x;
        let c1r = c1.remove(0);
        let c2r = c2.remove(j);
        assert(c1r.to_multiset() =~= c1.to_multiset().remove(x));
        assert(c2r.to_multiset() =~= c2.to_multiset().remove(x));
        lemma_leaf_hashes_multiset(c1r, c2r);
        let f = |c: Claim| leaf_hash_of(c);
        assert(leaf_hashes(c1r) =~= leaf_hashes(c1).remove(0));
        assert(leaf_hashes(c2r) =~= leaf_hashes(c2).remove(j));
        assert(leaf_hashes(c1).remove(0).to_multiset() =~= leaf_hashes(c1).to_multiset().remove(
            leaf_hash_of(x),
        ));
        assert(leaf_hashes(c2).remove(j).to_multiset() =~= leaf_hashes(c2).to_multiset().remove(
            leaf_hash_of(x),
        ));
        assert(leaf_hashes(c1).to_multiset().contains(leaf_hash_of(x))) by {
            assert(leaf_hashes(c1)[0] == leaf_hash_of(x));
            assert(leaf_hashes(c1).contains(leaf_hash_of(x)));
        }
        assert(leaf_hashes(c2).to_multiset().contains(leaf_hash_of(x))) by {
            assert(leaf_hashes(c2)[j] == leaf_hash_of(x));
            assert(leaf_hashes(c2).contains(leaf_hash_of(x)));
        }
        assert(leaf_hashes(c1).to_multiset() =~= leaf_hashes(c1).to_multiset().remove(
            leaf_hash_of(x),
        ).insert(leaf_hash_of(x)));
        assert(leaf_hashes(c2).to_multiset() =~= leaf_hashes(c2).to_multiset().remove(
            leaf_hash_of(x),
        ).insert(leaf_hash_of(x)));
    }
}

/// The root is a function of the multiset of claims alone: any two claim
/// lists holding the same claims, however ordered, share one root.
pub proof fn lemma_root_order_independent(c1: Seq<Claim>, c2: Seq<Claim>)
    requires
        c1.to_multiset() == c2.to_multiset(),
    ensures
        merkle_root(c1) == merkle_root(c2),
{
    lemma_leaf_hashes_multiset(c1, c2);
    lemma_lex_total_ordering();
    leaf_hashes(c1).lemma_sort_by_ensures(lex_leq_rel());
    leaf_hashes(c2).lemma_sort_by_ensures(lex_leq_rel());
    assert(sorted_leaves(c1).to_multiset() == sorted_leaves(c2).to_multiset());
    lemma_sorted_unique(sorted_leaves(c1), sorted_leaves(c2), lex_leq_rel());
    assert(sorted_leaves(c1) == sorted_leaves(c2));
}

/// A single claim's root is that claim's leaf digest, and its proof is
/// empty.
pub proof fn lemma_single_claim_root(claims: Seq<Claim>)
    requires
        claims.len() == 1,
    ensures
        merkle_root(claims) == leaf_hash_of(claims[0]),
        proof_of(sorted_leaves(claims), 0) == Seq::<Seq<u8>>::empty(),
{
    broadcast use vstd::seq_lib::group_to_multiset_ensures;

    lemma_lex_total_ordering();
    leaf_hashes(claims).lemma_sort_by_ensures(lex_leq_rel());
    let sl = sorted_leaves(claims);
    let single = leaf_hashes(claims);
    assert(single.len() == 1);
    assert(sl.to_multiset() == single.to_multiset());
    assert(sl.len() == sl.to_multiset().len());
    assert(single.len() == single.to_multiset().len());
    assert(sl.len() == 1);
    assert(sorted_by(single, lex_leq_rel())) by {
        lemma_lex_refl(single[0]);
    }
    lemma_sorted_unique(sl, single, lex_leq_rel());
    assert(sl == single);
    assert(single[0] == leaf_hash_of(claims[0]));
}

/// The views of a sequence of byte vectors.
pub open spec fn views(l: Seq<Vec<u8>>) -> Seq<Seq<u8>> {
    Seq::new(l.len(), |i: int| l[i]@)
}

/// Appends all bytes of `src` to `out`.
pub fn push_bytes(out: &mut Vec<u8>, src: &Vec<u8>)
    ensures
        final(out)@ == old(out)@ + src@,
{
    let n: usize = src.len();
    let mut i: usize = 0;
    while i < n
        invariant
            n == src@.len(),
            0 <= i <= n,
            out@ =~= old(out)@ + src@.take(i as int),
        decreases n - i,
    {
        out.push(src[i]);
        proof {
            assert(old(out)@ + src@.take(i as int + 1) =~= (old(out)@ + src@.take(i as int)).push(
                src@[i as int],
            ));
        }
        i = i + 1;
    }
    proof {
        assert(src@.take(n as int) =~= src@);
        assert(out@ =~= old(out)@ + src@);
    }
}

/// An identical copy of a byte vector.
pub fn dup_bytes(src: &Vec<u8>) -> (r: Vec<u8>)
    ensures
        r@ == src@,
{
    let mut out: Vec<u8> = Vec::new();
    push_bytes(&mut out, src);
    proof {
        assert(Seq::<u8>::empty() + src@ =~= src@);
    }
    out
}

/// The ABI encoding of one claim: three 32-byte words.
pub fn encode_claim_leaf(c: &Claim) -> (r: Vec<u8>)
    requires
        c.wf(),
    ensures
        r@ == claim_abi_bytes(*c),
        r@.len() == 96,
{
    let mut out: Vec<u8> = Vec::new();
    let mut i: usize = 0;
    while i < 12
        invariant
            0 <= i <= 12,
            out@ =~= Seq::new(i as nat, |k: int| 0u8),
        decreases 12 - i,
    {
        out.push(0);
        proof {
            assert(Seq::new(i as nat, |k: int| 0u8).push(0u8) =~= Seq::new(
                (i + 1) as nat,
                |k: int| 0u8,
            ));
        }
        i = i + 1;
    }
    push_bytes(&mut out, &c.account.bytes);
    let mut j: usize = 0;
    let ghost mid = out@;
    while j < 12
        invariant
            0 <= j <= 12,
            out@ =~= mid + Seq::new(j as nat, |k: int| 0u8),
        decreases 12 - j,
    {
        out.push(0);
        proof {
            assert((mid + Seq::new(j as nat, |k: int| 0u8)).push(0u8) =~= mid + Seq::new(
                (j + 1) as nat,
                |k: int| 0u8,
            ));
        }
        j = j + 1;
    }
    push_bytes(&mut out, &c.reward_token.bytes);
    let amt = c.amount.to_be_bytes();
    push_bytes(&mut out, &amt);
    proof {
        assert(out@ =~= claim_abi_bytes(*c));
    }
    out
}

/// The leaf digest of one claim.
pub fn leaf_digest(c: &Claim) -> (r: Vec<u8>)
    requires
        c.wf(),
    ensures
        r@ == leaf_hash_of(*c),
        r@.len() == 32,
{
    let encoded = encode_claim_leaf(c);
    let inner = keccak256(encoded.as_slice());
    keccak256(inner.as_slice())
}

/// Whether `a` comes no later than `b` in byte order.
fn hash_leq(a: &Vec<u8>, b: &Vec<u8>) -> (r: bool)
    ensures
        r == lex_leq(a@, b@),
{
    let na: usize = a.len();
    let nb: usize = b.len();
    let mut i: usize = 0;
    proof {
        assert(a@.skip(0) =~= a@);
        assert(b@.skip(0) =~= b@);
    }
    while i < na && i < nb
        invariant
            na == a@.len(),
            nb == b@.len(),
            0 <= i,
            i <= na || i <= nb,
            lex_leq(a@, b@) == lex_leq(a@.skip(i as int), b@.skip(i as int)),
            forall|j: int| 0 <= j < i ==> a@[j] == b@[j],
            i <= na && i <= nb,
        decreases na - i,
    {
        if a[i] < b[i] {
            proof {
                assert(a@.skip(i as int)[0] == a@[i as int]);
                assert(b@.skip(i as int)[0] == b@[i as int]);
            }
            return true;
        }
        if a[i] > b[i] {
            proof {
                assert(a@.skip(i as int)[0] == a@[i as int]);
                assert(b@.skip(i as int)[0] == b@[i as int]);
            }
            return false;
        }
        proof {
            assert(a@.skip(i as int)[0] == a@[i as int]);
            assert(b@.skip(i as int)[0] == b@[i as int]);
            assert(a@.skip(i as int).drop_first() =~= a@.skip(i as int + 1));
            assert(b@.skip(i as int).drop_first() =~= b@.skip(i as int + 1));
        }
        i = i + 1;
    }
    proof {
        if i >= na {
            assert(a@.skip(i as int).len() == 0);
        } else {
            assert(b@.skip(i as int).len() == 0);
            assert(a@.skip(i as int).len() > 0);
        }
    }
    i >= na
}

/// Two digests combined: concatenated in byte order, then hashed.
fn hash_pair(a: &Vec<u8>, b: &Vec<u8>) -> (r: Vec<u8>)
    ensures
        r@ == combine(a@, b@),
        r@.len() == 32,
{
    let mut cat: Vec<u8> = Vec::new();
    if hash_leq(a, b) {
        push_bytes(&mut cat, a);
        push_bytes(&mut cat, b);
        proof {
            assert(Seq::<u8>::empty() + a@ + b@ =~= a@ + b@);
        }
    } else {
        push_bytes(&mut cat, b);
        push_bytes(&mut cat, a);
        proof {
            assert(Seq::<u8>::empty() + b@ + a@ =~= b@ + a@);
        }
    }
    keccak256(cat.as_slice())
}

/// Sorts digests by byte value: the result is ordered and holds the same
/// digests, as a multiset, as the input.
fn sort_hashes(input: Vec<Vec<u8>>) -> (r: Vec<Vec<u8>>)
    ensures
        sorted_by(views(r@), lex_leq_rel()),
        views(r@).to_multiset() == views(input@).to_multiset(),
{
    broadcast use vstd::seq_lib::group_to_multiset_ensures;

    let mut rest = input;
    let ghost orig = views(rest@);
    let mut out: Vec<Vec<u8>> = Vec::new();
    proof {
        assert(views(out@) =~= Seq::<Seq<u8>>::empty());
        assert(views(out@).to_multiset().add(views(rest@).to_multiset()) =~= views(
            rest@,
        ).to_multiset());
    }
    while rest.len() > 0
        invariant
            sorted_by(views(out@), lex_leq_rel()),
            views(out@).to_multiset().add(views(rest@).to_multiset()) == orig.to_multiset(),
            forall|i: int, j: int|
                0 <= i < views(out@).len() && 0 <= j < views(rest@).len() ==> lex_leq(
                    #[trigger] views(out@)[i],
                    #[trigger] views(rest@)[j],
                ),
        decreases rest.len(),
    {
        let mut min: usize = 0;
        let mut k: usize = 1;
        proof {
            lemma_lex_refl(views(rest@)[0]);
        }
        while k < rest.len()
            invariant
                0 <= min < k <= rest@.len(),
                rest@.len() > 0,
                forall|j: int| 0 <= j < k ==> lex_leq(views(rest@)[min as int], #[trigger] views(
                    rest@,
                )[j]),
            decreases rest@.len() - k,
        {
            proof {
                lemma_lex_connected(rest@[k as int]@, rest@[min as int]@);
            }
            if hash_leq(&rest[k], &rest[min]) {
                proof {
                    let old_min = min;
                    assert forall|j: int| 0 <= j < k + 1 implies lex_leq(
                        views(rest@)[k as int],
                        #[trigger] views(rest@)[j],
                    ) by {
                        if j < k {
                            lemma_lex_trans(
                                views(rest@)[k as int],
                                views(rest@)[old_min as int],
                                views(rest@)[j],
                            );
                        } else {
                            lemma_lex_refl(views(rest@)[k as int]);
                        }
                    }
                }
                min = k;
            } else {
                proof {
                    lemma_lex_refl(views(rest@)[min as int]);
                }
            }
            k = k + 1;
        }
        let ghost pre_rest = rest@;
        let ghost pre_out = out@;
        let chosen = rest.remove(min);
        out.push(chosen);
        proof {
            views(pre_rest).to_multiset_ensures();
            views(pre_out).to_multiset_ensures();
            assert(views(rest@) =~= views(pre_rest).remove(min as int));
            assert(views(out@) =~= views(pre_out).push(chosen@));
            assert(views(pre_rest).remove(min as int).to_multiset() =~= views(
                pre_rest,
            ).to_multiset().remove(views(pre_rest)[min as int]));
            assert(views(pre_out).push(chosen@).to_multiset() =~= views(
                pre_out,
            ).to_multiset().insert(chosen@));
            assert(views(pre_rest).to_multiset().contains(views(pre_rest)[min as int])) by {
                assert(views(pre_rest).contains(views(pre_rest)[min as int]));
            }
            assert(views(out@).to_multiset().add(views(rest@).to_multiset()) =~= views(
                pre_out,
            ).to_multiset().add(views(pre_rest).to_multiset()));
            assert(sorted_by(views(out@), lex_leq_rel())) by {
                assert forall|i: int, j: int| 0 <= i < j < views(out@).len() implies lex_leq_rel()(
                    views(out@)[i],
                    views(out@)[j],
                ) by {
                    if j < views(out@).len() - 1 {
                        assert(views(out@)[i] == views(pre_out)[i]);
                        assert(views(out@)[j] == views(pre_out)[j]);
                    } else {
                        assert(views(out@)[j] == views(pre_rest)[min as int]);
                        if i < views(pre_out).len() {
                            assert(lex_leq(views(pre_out)[i], views(pre_rest)[min as int]));
                        }
                    }
                }
            }
            assert forall|i: int, j: int|
                0 <= i < views(out@).len() && 0 <= j < views(rest@).len() implies lex_leq(
                #[trigger] views(out@)[i],
                #[trigger] views(rest@)[j],
            ) by {
                let jj = if j < min { j } else { j + 1 };
                assert(views(rest@)[j] == views(pre_rest)[jj]);
                if i < views(pre_out).len() {
                    assert(lex_leq(views(pre_out)[i], views(pre_rest)[jj]));
                } else {
                    assert(views(out@)[i] == views(pre_rest)[min as int]);
                    assert(lex_leq(views(pre_rest)[min as int], views(pre_rest)[jj]));
                }
            }
        }
    }
    proof {
        assert(views(rest@).len() == 0);
        assert(views(rest@) =~= Seq::<Seq<u8>>::empty());
        assert(views(rest@).to_multiset() =~= Multiset::<Seq<u8>>::empty());
        assert(views(out@).to_multiset().add(Multiset::<Seq<u8>>::empty()) =~= views(
            out@,
        ).to_multiset());
    }
    out
}

/// The tree: every layer of digests, leaves first, root layer last.
pub struct MerkleTree {
    pub layers: Vec<Vec<Vec<u8>>>,
    pub claims_g: Ghost<Seq<Claim>>,
}

impl MerkleTree {
    /// Layer zero holds the sorted leaf digests of the claims; each later
    /// layer combines the one before it; the last layer is a single root.
    pub open spec fn wf(&self) -> bool {
        &&& self.layers@.len() >= 1
        &&& self.claims_g@.len() >= 1
        &&& views(self.layers@[0]@) == sorted_leaves(self.claims_g@)
        &&& forall|k: int|
            0 <= k < self.layers@.len() - 1 ==> views(#[trigger] self.layers@[k + 1]@) == layer_up(
                views(self.layers@[k]@),
            )
        &&& forall|k: int| 0 <= k < self.layers@.len() ==> views(#[trigger] self.layers@[k]@).len() >= 1
        &&& views(self.layers@[self.layers@.len() - 1]@).len() == 1
    }

    /// Every layer's root equals the root of layer zero.
    proof fn lemma_layer_root(&self, k: int)
        requires
            self.wf(),
            0 <= k < self.layers@.len(),
        ensures
            root_of(views(self.layers@[k]@)) == root_of(views(self.layers@[0]@)),
        decreases k,
    {
        if k > 0 {
            self.lemma_layer_root(k - 1);
            assert(views(self.layers@[(k - 1) + 1]@) == layer_up(views(self.layers@[k - 1]@)));
            assert(views(self.layers@[k]@) == layer_up(views(self.layers@[k - 1]@)));
            if views(self.layers@[k - 1]@).len() == 1 {
                let prev = views(self.layers@[k - 1]@);
                assert(layer_up(prev).len() == 1);
                assert(layer_up(prev)[0] == prev[0]);
                assert(views(self.layers@[k]@) =~= prev);
            }
        }
    }

    /// The root digest.
    pub fn root(&self) -> (r: Vec<u8>)
        requires
            self.wf(),
        ensures
            r@ == merkle_root(self.claims_g@),
    {
        let last = self.layers.len() - 1;
        let r = dup_bytes(&self.layers[last][0]);
        proof {
            self.lemma_layer_root(last as int);
            assert(views(self.layers@[last as int]@).len() == 1);
            assert(root_of(views(self.layers@[last as int]@)) == views(
                self.layers@[last as int]@,
            )[0]);
            assert(r@ == views(self.layers@[last as int]@)[0]);
        }
        r
    }

    /// The inclusion proof for the leaf at `pos` of the sorted leaf layer.
    pub fn proof_at(&self, pos: usize) -> (r: Vec<Vec<u8>>)
        requires
            self.wf(),
            pos < sorted_leaves(self.claims_g@).len(),
        ensures
            views(r@) == proof_of(sorted_leaves(self.claims_g@), pos as int),
    {
        let mut acc: Vec<Vec<u8>> = Vec::new();
        let mut idx: usize = pos;
        let mut k: usize = 0;
        let ghost l0 = views(self.layers@[0]@);
        proof {
            assert(views(acc@) =~= Seq::<Seq<u8>>::empty());
            assert(Seq::<Seq<u8>>::empty() + proof_of(l0, pos as int) =~= proof_of(
                l0,
                pos as int,
            ));
        }
        while k < self.layers.len() - 1
            invariant
                self.wf(),
                0 <= k < self.layers@.len(),
                idx < views(self.layers@[k as int]@).len(),
                l0 == views(self.layers@[0]@),
                proof_of(l0, pos as int) == views(acc@) + proof_of(
                    views(self.layers@[k as int]@),
                    idx as int,
                ),
            decreases self.layers@.len() - k,
        {
            let layer = &self.layers[k];
            let n = layer.len();
            let ghost lv = views(self.layers@[k as int]@);
            let sib: usize = if idx % 2 == 0 {
                idx + 1
            } else {
                idx - 1
            };
            let ghost pre_acc = acc@;
            if sib < n {
                let h = dup_bytes(&layer[sib]);
                acc.push(h);
                proof {
                    assert(views(acc@) =~= views(pre_acc).push(lv[sib as int]));
                    assert(proof_of(lv, idx as int) == seq![lv[sibling_index(idx as int)]]
                        + proof_of(layer_up(lv), idx as int / 2));
                    assert(views(acc@) + proof_of(layer_up(lv), idx as int / 2) =~= views(pre_acc)
                        + proof_of(lv, idx as int));
                }
            } else {
                proof {
                    assert(proof_of(lv, idx as int) == proof_of(layer_up(lv), idx as int / 2));
                }
            }
            proof {
                assert(views(self.layers@[k as int + 1]@) == layer_up(lv));
                assert(layer_up(lv).len() == (lv.len() + 1) / 2);
                assert(idx as int / 2 < layer_up(lv).len());
            }
            idx = idx / 2;
            k = k + 1;
        }
        proof {
            let lastv = views(self.layers@[k as int]@);
            assert(k == self.layers@.len() - 1);
            assert(lastv.len() == 1);
            assert(proof_of(lastv, idx as int) == Seq::<Seq<u8>>::empty());
            assert(views(acc@) + Seq::<Seq<u8>>::empty() =~= views(acc@));
        }
        acc
    }
}

/// Recomputes a root candidate from a leaf digest and an inclusion proof
/// by repeated sorted-pair hashing.
pub fn verify_proof(leaf: &Vec<u8>, proof: &Vec<Vec<u8>>) -> (r: Vec<u8>)
    ensures
        r@ == fold_proof(leaf@, views(proof@)),
{
    let mut h = dup_bytes(leaf);
    let n = proof.len();
    let mut i: usize = 0;
    proof {
        assert(views(proof@).skip(0) =~= views(proof@));
    }
    while i < n
        invariant
            n == proof@.len(),
            0 <= i <= n,
            fold_proof(leaf@, views(proof@)) == fold_proof(h@, views(proof@).skip(i as int)),
        decreases n - i,
    {
        proof {
            let p = views(proof@).skip(i as int);
            assert(p[0] == proof@[i as int]@);
            assert(p.drop_first() =~= views(proof@).skip(i as int + 1));
        }
        h = hash_pair(&h, &proof[i]);
        i = i + 1;
    }
    proof {
        assert(views(proof@).skip(n as int).len() == 0);
    }
    h
}

/// Builds the canonical Merkle tree over a claim list. The claim list must
/// hold at least one claim: an empty distribution has no tree, and the
/// pipeline skips publication instead.
pub fn get_merkle_tree(values: &Vec<Claim>) -> (r: Result<MerkleTree, RewardsError>)
    requires
        forall|i: int| 0 <= i < values@.len() ==> (#[trigger] values@[i]).wf(),
    ensures
        match r {
            Ok(t) => values@.len() >= 1 && t.wf() && t.claims_g@ == values@,
            Err(e) => values@.len() == 0 && e == RewardsError::EmptyDistribution,
        },
{
    broadcast use vstd::seq_lib::group_to_multiset_ensures;

    if values.len() == 0 {
        return Err(RewardsError::EmptyDistribution);
    }
    let mut hashes: Vec<Vec<u8>> = Vec::new();
    let n = values.len();
    let mut i: usize = 0;
    while i < n
        invariant
            n == values@.len(),
            forall|j: int| 0 <= j < values@.len() ==> (#[trigger] values@[j]).wf(),
            0 <= i <= n,
            views(hashes@) =~= leaf_hashes(values@.take(i as int)),
        decreases n - i,
    {
        let h = leaf_digest(&values[i]);
        hashes.push(h);
        proof {
            assert(values@.take(i as int + 1) =~= values@.take(i as int).push(values@[i as int]));
            assert(leaf_hashes(values@.take(i as int + 1)) =~= leaf_hashes(
                values@.take(i as int),
            ).push(leaf_hash_of(values@[i as int])));
            assert(views(hashes@) =~= leaf_hashes(values@.take(i as int + 1)));
        }
        i = i + 1;
    }
    proof {
        assert(values@.take(n as int) =~= values@);
    }
    let sorted = sort_hashes(hashes);
    proof {
        lemma_lex_total_ordering();
        leaf_hashes(values@).lemma_sort_by_ensures(lex_leq_rel());
        lemma_sorted_unique(views(sorted@), sorted_leaves(values@), lex_leq_rel());
        assert(views(sorted@) == sorted_leaves(values@));
        assert(sorted_leaves(values@).len() == sorted_leaves(values@).to_multiset().len());
        assert(leaf_hashes(values@).len() == leaf_hashes(values@).to_multiset().len());
    }
    let mut layers: Vec<Vec<Vec<u8>>> = Vec::new();
    let mut cur_len = sorted.len();
    layers.push(sorted);
    while cur_len > 1
        invariant
            layers@.len() >= 1,
            cur_len == views(layers@[layers@.len() - 1]@).len(),
            views(layers@[0]@) == sorted_leaves(values@),
            forall|k: int|
                0 <= k < layers@.len() - 1 ==> views(#[trigger] layers@[k + 1]@) == layer_up(
                    views(layers@[k]@),
                ),
            forall|k: int| 0 <= k < layers@.len() ==> views(#[trigger] layers@[k]@).len() >= 1,
        decreases cur_len,
    {
        let ghost pre_layers = layers@;
        let top_idx = layers.len() - 1;
        let mut next: Vec<Vec<u8>> = Vec::new();
        let mut j: usize = 0;
        let half = cur_len / 2 + cur_len % 2;
        while j < half
            invariant
                layers@.len() >= 1,
                top_idx == layers@.len() - 1,
                cur_len == views(layers@[top_idx as int]@).len(),
                cur_len >= 2,
                half as int == (cur_len as int + 1) / 2,
                0 <= j <= half,
                views(next@).len() == j,
                forall|m: int|
                    0 <= m < j ==> views(next@)[m] == layer_up(
                        views(layers@[top_idx as int]@),
                    )[m],
            decreases half - j,
        {
            let layer = &layers[top_idx];
            let h = if 2 * j + 1 < cur_len {
                hash_pair(&layer[2 * j], &layer[2 * j + 1])
            } else {
                dup_bytes(&layer[2 * j])
            };
            let ghost pre_next = next@;
            next.push(h);
            proof {
                assert(views(next@) =~= views(pre_next).push(h@));
            }
            j = j + 1;
        }
        proof {
            assert(views(next@) =~= layer_up(views(layers@[top_idx as int]@)));
        }
        cur_len = next.len();
        layers.push(next);
        proof {
            assert(layers@.len() == pre_layers.len() + 1);
            assert forall|k: int| 0 <= k < layers@.len() - 1 implies views(
                #[trigger] layers@[k + 1]@,
            ) == layer_up(views(layers@[k]@)) by {
                if k < pre_layers.len() - 1 {
                    assert(layers@[k + 1] == pre_layers[k + 1]);
                    assert(layers@[k] == pre_layers[k]);
                }
            }
        }
    }
    let t = MerkleTree { layers, claims_g: Ghost(values@) };
    proof {
        assert(t.wf());
    }
    Ok(t)
}

/// Whether two byte vectors hold the same bytes.
pub fn eq_bytes(a: &Vec<u8>, b: &Vec<u8>) -> (r: bool)
    ensures
        r == (a@ == b@),
{
    let na = a.len();
    let nb = b.len();
    if na != nb {
        proof {
            assert(a@ != b@);
        }
        return false;
    }
    let mut i: usize = 0;
    while i < na
        invariant
            na == a@.len(),
            na == b@.len(),
            0 <= i <= na,
            forall|j: int| 0 <= j < i ==> a@[j] == b@[j],
        decreases na - i,
    {
        if a[i] != b[i] {
            proof {
                assert(a@[i as int] != b@[i as int]);
            }
            return false;
        }
        i = i + 1;
    }
    proof {
        assert(a@ =~= b@);
    }
    true
}

impl MerkleTree {
    /// Where a leaf digest stands in the sorted leaf layer: its first
    /// position, or nothing when it is not a leaf of this tree.
    pub fn find_leaf_pos(&self, leaf: &Vec<u8>) -> (r: Option<usize>)
        requires
            self.wf(),
        ensures
            match r {
                Some(p) => (p as int) < sorted_leaves(self.claims_g@).len() && sorted_leaves(
                    self.claims_g@,
                )[p as int] == leaf@,
                None => !sorted_leaves(self.claims_g@).contains(leaf@),
            },
    {
        let layer = &self.layers[0];
        let n = layer.len();
        let mut i: usize = 0;
        while i < n
            invariant
                self.wf(),
                layer == &self.layers@[0],
                n == layer@.len(),
                0 <= i <= n,
                forall|j: int| 0 <= j < i ==> views(layer@)[j] != leaf@,
            decreases n - i,
        {
            if eq_bytes(&layer[i], leaf) {
                proof {
                    assert(views(layer@)[i as int] == leaf@);
                }
                return Some(i);
            }
            i = i + 1;
        }
        proof {
            assert forall|j: int|
                0 <= j < sorted_leaves(self.claims_g@).len() implies sorted_leaves(
                self.claims_g@,
            )[j] != leaf@ by {
                assert(views(layer@)[j] != leaf@);
            }
        }
        None
    }
}

/// A claim's inclusion proof, folded from its leaf digest, reconstructs
/// exactly the canonical root of the claim list.
pub proof fn lemma_claim_proof_validates(claims: Seq<Claim>, pos: int)
    requires
        claims.len() >= 1,
        0 <= pos < sorted_leaves(claims).len(),
    ensures
        fold_proof(sorted_leaves(claims)[pos], proof_of(sorted_leaves(claims), pos))
            == merkle_root(claims),
{
    lemma_proof_reconstructs_root(sorted_leaves(claims), pos);
}

} // verus!
