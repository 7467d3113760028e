//! The published document and the pipeline's pure stages.
//!
//! One invocation turns claims into a canonical document — the root, the
//! claim list with one inclusion proof per claim, and descriptive
//! metadata — serialized to one stable JSON byte encoding, uploaded by
//! the caller, and acknowledged with a content reference that the last
//! stage folds into the final binary record. An empty claim list is the
//! one early exit: nothing is published and nothing is encoded.

use crate::claim::Claim;
use crate::hash::{chars_to_string, hex_prefixed, to_hex_string};
use crate::ipfs::{build_multipart_body, decode_ipfs_cid, multipart_body_of};
use crate::merkle::{get_merkle_tree, leaf_digest, merkle_root, proof_of, sorted_leaves, MerkleTree};
use crate::sources::{MetaEntry, SourceMeta};
use crate::trigger::{abi_avs_output, abi_data_with_id, encode_trigger_output, AvsOutput};
use crate::uint256::{dec_string_of, limbs_to_decimal, wide_sum};
use crate::RewardsError;
use vstd::prelude::*;
use vstd::string::{StrSliceExecFns, StringExecFns};

verus! {

/// One claim in the published document: account, reward token and amount
/// as strings, and the inclusion proof as hexadecimal digests.
pub struct MerkleTreeEntry {
    pub account: String,
    pub reward: String,
    pub claimable: String,
    pub proof: Vec<String>,
}

/// The document pushed to content-addressed storage.
pub struct PublishDocument {
    pub id: String,
    pub num_accounts: u64,
    pub reward_token_address: String,
    pub total_rewards: String,
    pub sources: Vec<SourceMeta>,
    pub root: String,
    pub tree: Vec<MerkleTreeEntry>,
}

/// A JSON string body: every quote and backslash escaped, control
/// characters written as a four-digit escape.
pub open spec fn json_escaped_char(c: char) -> Seq<char> {
    if c == '"' {
        seq!['\\', '"']
    } else if c == '\\' {
        seq!['\\', '\\']
    } else if (c as nat) < 32 {
        seq!['\\', 'u', '0', '0', crate::hash::hex_char((c as nat) / 16), crate::hash::hex_char(
            (c as nat) % 16,
        )]
    } else {
        seq![c]
    }
}

/// The escaped body of a string.
pub open spec fn json_escaped(s: Seq<char>) -> Seq<char>
    decreases s.len(),
{
    if s.len() == 0 {
        Seq::<char>::empty()
    } else {
        json_escaped(s.drop_last()) + json_escaped_char(s.last())
    }
}

/// A JSON string: the escaped body in quotes.
pub open spec fn json_string(s: Seq<char>) -> Seq<char> {
    seq!['"'] + json_escaped(s) + seq!['"']
}

/// Parts joined by commas.
pub open spec fn join_comma(parts: Seq<Seq<char>>) -> Seq<char>
    decreases parts.len(),
{
    if parts.len() == 0 {
        Seq::<char>::empty()
    } else if parts.len() == 1 {
        parts[0]
    } else {
        parts[0] + seq![','] + join_comma(parts.drop_first())
    }
}

/// One more part on the end of a joined list.
proof fn lemma_join_comma_snoc(parts: Seq<Seq<char>>, x: Seq<char>)
    ensures
        join_comma(parts.push(x)) == if parts.len() == 0 {
            x
        } else {
            join_comma(parts) + seq![','] + x
        },
    decreases parts.len(),
{
    reveal_with_fuel(join_comma, 3);
    if parts.len() == 0 {
        assert(parts.push(x) =~= seq![x]);
        assert(join_comma(seq![x]) == x);
    } else {
        assert(parts.push(x).drop_first() =~= parts.drop_first().push(x));
        lemma_join_comma_snoc(parts.drop_first(), x);
        if parts.len() == 1 {
            assert(parts.drop_first() =~= Seq::<Seq<char>>::empty());
        }
    }
}

/// One source in the document's metadata.
pub open spec fn json_of_source(s: SourceMeta) -> Seq<char> {
    "{\"metadata\":{"@ + join_comma(
        s.entries@.map_values(|e: MetaEntry| json_string(e.key@) + seq![':'] + json_string(e.value@)),
    ) + "},\"name\":"@ + json_string(s.name@) + "}"@
}

/// One claim entry in the document's tree.
pub open spec fn json_of_entry(t: MerkleTreeEntry) -> Seq<char> {
    "{\"account\":"@ + json_string(t.account@) + ",\"reward\":"@ + json_string(t.reward@)
        + ",\"claimable\":"@ + json_string(t.claimable@) + ",\"proof\":["@ + join_comma(
        t.proof@.map_values(|p: String| json_string(p@)),
    ) + "]}"@
}

/// The whole document as one canonical JSON text.
pub open spec fn json_of_document(d: PublishDocument) -> Seq<char> {
    "{\"id\":"@ + json_string(d.id@) + ",\"metadata\":{\"num_accounts\":"@ + dec_string_of(
        d.num_accounts as nat,
    ) + ",\"reward_token_address\":"@ + json_string(d.reward_token_address@)
        + ",\"total_rewards\":"@ + json_string(d.total_rewards@) + ",\"sources\":["@ + join_comma(
        d.sources@.map_values(|s: SourceMeta| json_of_source(s)),
    ) + "]},\"root\":"@ + json_string(d.root@) + ",\"tree\":["@ + join_comma(
        d.tree@.map_values(|t: MerkleTreeEntry| json_of_entry(t)),
    ) + "]}"@
}

/// Appends a literal.
fn push_lit(out: &mut Vec<char>, s: &str)
    ensures
        final(out)@ == old(out)@ + s@,
{
    let n = s.unicode_len();
    let mut i: usize = 0;
    while i < n
        invariant
            n == s@.len(),
            0 <= i <= n,
            out@ =~= old(out)@ + s@.take(i as int),
        decreases n - i,
    {
        out.push(s.get_char(i));
        proof {
            assert(old(out)@ + s@.take(i as int + 1) =~= (old(out)@ + s@.take(i as int)).push(
                s@[i as int],
            ));
        }
        i = i + 1;
    }
    proof {
        assert(s@.take(n as int) =~= s@);
        assert(out@ =~= old(out)@ + s@);
    }
}

/// Appends one escaped character.
fn push_escaped_char(out: &mut Vec<char>, c: char)
    ensures
        final(out)@ == old(out)@ + json_escaped_char(c),
{
    if c == '"' {
        out.push('\\');
        out.push('"');
        proof {
            assert(out@ =~= old(out)@ + json_escaped_char(c));
        }
    } else if c == '\\' {
        out.push('\\');
        out.push('\\');
        proof {
            assert(out@ =~= old(out)@ + json_escaped_char(c));
        }
    } else if (c as u32) < 32 {
        out.push('\\');
        out.push('u');
        out.push('0');
        out.push('0');
        let code = (c as u32) as u8;
        out.push(crate::hash::hex_char_of(code / 16));
        out.push(crate::hash::hex_char_of(code % 16));
        proof {
            assert(out@ =~= old(out)@ + json_escaped_char(c));
        }
    } else {
        out.push(c);
        proof {
            assert(out@ =~= old(out)@ + json_escaped_char(c));
        }
    }
}

/// Appends a JSON string.
fn push_json_string(out: &mut Vec<char>, s: &str)
    ensures
        final(out)@ == old(out)@ + json_string(s@),
{
    out.push('"');
    let n = s.unicode_len();
    let mut i: usize = 0;
    while i < n
        invariant
            n == s@.len(),
            0 <= i <= n,
            out@ =~= old(out)@ + seq!['"'] + json_escaped(s@.take(i as int)),
        decreases n - i,
    {
        let c = s.get_char(i);
        push_escaped_char(out, c);
        proof {
            assert(s@.take(i as int + 1).drop_last() =~= s@.take(i as int));
            assert(s@.take(i as int + 1).last() == s@[i as int]);
            assert(json_escaped(s@.take(i as int + 1)) == json_escaped(s@.take(i as int))
                + json_escaped_char(s@[i as int]));
            assert(out@ =~= old(out)@ + seq!['"'] + json_escaped(s@.take(i as int + 1)));
        }
        i = i + 1;
    }
    out.push('"');
    proof {
        assert(s@.take(n as int) =~= s@);
        assert(out@ =~= old(out)@ + json_string(s@));
    }
}

/// Serializes the document to its canonical JSON text.
#[verifier::rlimit(100)]
pub fn document_to_json(d: &PublishDocument) -> (r: Vec<char>)
    ensures
        r@ == json_of_document(*d),
{
    let mut out: Vec<char> = Vec::new();
    push_lit(&mut out, "{\"id\":");
    push_json_string(&mut out, d.id.as_str());
    push_lit(&mut out, ",\"metadata\":{\"num_accounts\":");
    let mut numl: Vec<u64> = Vec::new();
    numl.push(d.num_accounts);
    proof {
        crate::uint256::lemma_val_single(numl@);
    }
    let mut num = limbs_to_decimal(&numl);
    out.append(&mut num);
    push_lit(&mut out, ",\"reward_token_address\":");
    push_json_string(&mut out, d.reward_token_address.as_str());
    push_lit(&mut out, ",\"total_rewards\":");
    push_json_string(&mut out, d.total_rewards.as_str());
    push_lit(&mut out, ",\"sources\":[");
    let ghost mark1 = out@;
    let ns = d.sources.len();
    let mut i: usize = 0;
    proof {
        assert(d.sources@.take(0).map_values(|s: SourceMeta| json_of_source(s))
            =~= Seq::<Seq<char>>::empty());
    }
    while i < ns
        invariant
            ns == d.sources@.len(),
            0 <= i <= ns,
            out@ =~= mark1 + join_comma(
                d.sources@.take(i as int).map_values(|s: SourceMeta| json_of_source(s)),
            ),
        decreases ns - i,
    {
        if i > 0 {
            out.push(',');
        }
        let src = &d.sources[i];
        push_lit(&mut out, "{\"metadata\":{");
        let ghost mark2 = out@;
        let ne = src.entries.len();
        let mut j: usize = 0;
        proof {
            assert(src.entries@.take(0).map_values(
                |e: MetaEntry| json_string(e.key@) + seq![':'] + json_string(e.value@),
            ) =~= Seq::<Seq<char>>::empty());
        }
        while j < ne
            invariant
                ns == d.sources@.len(),
                0 <= i < ns,
                src == &d.sources@[i as int],
                ne == src.entries@.len(),
                0 <= j <= ne,
                out@ =~= mark2 + join_comma(
                    src.entries@.take(j as int).map_values(
                        |e: MetaEntry| json_string(e.key@) + seq![':'] + json_string(e.value@),
                    ),
                ),
            decreases ne - j,
        {
            if j > 0 {
                out.push(',');
            }
            push_json_string(&mut out, src.entries[j].key.as_str());
            out.push(':');
            push_json_string(&mut out, src.entries[j].value.as_str());
            proof {
                let f = |e: MetaEntry| json_string(e.key@) + seq![':'] + json_string(e.value@);
                assert(src.entries@.take(j as int + 1) =~= src.entries@.take(j as int).push(
                    src.entries@[j as int],
                ));
                assert(src.entries@.take(j as int + 1).map_values(f) =~= src.entries@.take(
                    j as int,
                ).map_values(f).push(f(src.entries@[j as int])));
                lemma_join_comma_snoc(
                    src.entries@.take(j as int).map_values(f),
                    f(src.entries@[j as int]),
                );
                assert(out@ =~= mark2 + join_comma(
                    src.entries@.take(j as int + 1).map_values(f),
                ));
            }
            j = j + 1;
        }
        push_lit(&mut out, "},\"name\":");
        push_json_string(&mut out, src.name.as_str());
        push_lit(&mut out, "}");
        proof {
            let f = |e: MetaEntry| json_string(e.key@) + seq![':'] + json_string(e.value@);
            assert(src.entries@.take(ne as int) =~= src.entries@);
            let g = |s: SourceMeta| json_of_source(s);
            assert(d.sources@.take(i as int + 1) =~= d.sources@.take(i as int).push(
                d.sources@[i as int],
            ));
            assert(d.sources@.take(i as int + 1).map_values(g) =~= d.sources@.take(
                i as int,
            ).map_values(g).push(g(d.sources@[i as int])));
            lemma_join_comma_snoc(
                d.sources@.take(i as int).map_values(g),
                g(d.sources@[i as int]),
            );
            assert(out@ =~= mark1 + join_comma(
                d.sources@.take(i as int + 1).map_values(g),
            ));
        }
        i = i + 1;
    }
    proof {
        assert(d.sources@.take(ns as int) =~= d.sources@);
    }
    push_lit(&mut out, "]},\"root\":");
    push_json_string(&mut out, d.root.as_str());
    push_lit(&mut out, ",\"tree\":[");
    let ghost mark3 = out@;
    let nt = d.tree.len();
    let mut k: usize = 0;
    proof {
        assert(d.tree@.take(0).map_values(|t: MerkleTreeEntry| json_of_entry(t))
            =~= Seq::<Seq<char>>::empty());
    }
    while k < nt
        invariant
            nt == d.tree@.len(),
            0 <= k <= nt,
            out@ =~= mark3 + join_comma(
                d.tree@.take(k as int).map_values(|t: MerkleTreeEntry| json_of_entry(t)),
            ),
        decreases nt - k,
    {
        if k > 0 {
            out.push(',');
        }
        let entry = &d.tree[k];
        push_lit(&mut out, "{\"account\":");
        push_json_string(&mut out, entry.account.as_str());
        push_lit(&mut out, ",\"reward\":");
        push_json_string(&mut out, entry.reward.as_str());
        push_lit(&mut out, ",\"claimable\":");
        push_json_string(&mut out, entry.claimable.as_str());
        push_lit(&mut out, ",\"proof\":[");
        let ghost mark4 = out@;
        let np = entry.proof.len();
        let mut m: usize = 0;
        proof {
            assert(entry.proof@.take(0).map_values(|p: String| json_string(p@))
                =~= Seq::<Seq<char>>::empty());
        }
        while m < np
            invariant
                nt == d.tree@.len(),
                0 <= k < nt,
                entry == &d.tree@[k as int],
                np == entry.proof@.len(),
                0 <= m <= np,
                out@ =~= mark4 + join_comma(
                    entry.proof@.take(m as int).map_values(|p: String| json_string(p@)),
                ),
            decreases np - m,
        {
            if m > 0 {
                out.push(',');
            }
            push_json_string(&mut out, entry.proof[m].as_str());
            proof {
                let f = |p: String| json_string(p@);
                assert(entry.proof@.take(m as int + 1) =~= entry.proof@.take(m as int).push(
                    entry.proof@[m as int],
                ));
                assert(entry.proof@.take(m as int + 1).map_values(f) =~= entry.proof@.take(
                    m as int,
                ).map_values(f).push(f(entry.proof@[m as int])));
                lemma_join_comma_snoc(
                    entry.proof@.take(m as int).map_values(f),
                    f(entry.proof@[m as int]),
                );
            }
            m = m + 1;
        }
        push_lit(&mut out, "]}");
        proof {
            assert(entry.proof@.take(np as int) =~= entry.proof@);
            let g = |t: MerkleTreeEntry| json_of_entry(t);
            assert(d.tree@.take(k as int + 1) =~= d.tree@.take(k as int).push(
                d.tree@[k as int],
            ));
            assert(d.tree@.take(k as int + 1).map_values(g) =~= d.tree@.take(k as int).map_values(
                g,
            ).push(g(d.tree@[k as int])));
            lemma_join_comma_snoc(d.tree@.take(k as int).map_values(g), g(d.tree@[k as int]));
            assert(out@ =~= mark3 + join_comma(d.tree@.take(k as int + 1).map_values(g)));
        }
        k = k + 1;
    }
    proof {
        assert(d.tree@.take(nt as int) =~= d.tree@);
    }
    push_lit(&mut out, "]}");
    proof {
        assert(out@ =~= json_of_document(*d));
    }
    out
}

/// Whether the values of two amount sequences agree pointwise.
proof fn lemma_sum_vals_pointwise(s1: Seq<crate::uint256::Uint256>, s2: Seq<crate::uint256::Uint256>)
    requires
        s1.len() == s2.len(),
        forall|i: int| 0 <= i < s1.len() ==> (#[trigger] s1[i]).val() == s2[i].val(),
    ensures
        crate::sources::sum_vals(s1) == crate::sources::sum_vals(s2),
    decreases s1.len(),
{
    if s1.len() > 0 {
        assert(s1[0].val() == s2[0].val());
        assert forall|i: int| 0 <= i < s1.drop_first().len() implies (#[trigger] s1.drop_first()[i]).val()
            == s2.drop_first()[i].val() by {
            assert(s1.drop_first()[i] == s1[i + 1]);
            assert(s2.drop_first()[i] == s2[i + 1]);
        }
        lemma_sum_vals_pointwise(s1.drop_first(), s2.drop_first());
    }
}

/// The total reward committed to by a claim list.
pub open spec fn claims_total(claims: Seq<Claim>) -> nat {
    crate::sources::sum_vals(claims.map_values(|c: Claim| c.amount))
}

/// Builds one claim per account: the account, the one reward token, and
/// the account's aggregated amount, in account order.
pub fn build_claims(
    accounts: Vec<crate::claim::Address>,
    reward_token: &crate::claim::Address,
    amounts: Vec<crate::uint256::Uint256>,
) -> (r: Vec<Claim>)
    requires
        accounts@.len() == amounts@.len(),
        reward_token.wf(),
        forall|i: int| 0 <= i < accounts@.len() ==> (#[trigger] accounts@[i]).wf(),
        forall|i: int| 0 <= i < amounts@.len() ==> (#[trigger] amounts@[i]).wf(),
    ensures
        r@.len() == accounts@.len(),
        forall|i: int|
            0 <= i < r@.len() ==> {
                &&& (#[trigger] r@[i]).wf()
                &&& r@[i].account.bytes@ == accounts@[i].bytes@
                &&& r@[i].reward_token.bytes@ == reward_token.bytes@
                &&& r@[i].amount.limbs@ == amounts@[i].limbs@
            },
{
    let n = accounts.len();
    let mut out: Vec<Claim> = Vec::new();
    let mut i: usize = 0;
    while i < n
        invariant
            n == accounts@.len(),
            n == amounts@.len(),
            reward_token.wf(),
            forall|j: int| 0 <= j < accounts@.len() ==> (#[trigger] accounts@[j]).wf(),
            forall|j: int| 0 <= j < amounts@.len() ==> (#[trigger] amounts@[j]).wf(),
            0 <= i <= n,
            out@.len() == i,
            forall|j: int|
                0 <= j < i ==> {
                    &&& (#[trigger] out@[j]).wf()
                    &&& out@[j].account.bytes@ == accounts@[j].bytes@
                    &&& out@[j].reward_token.bytes@ == reward_token.bytes@
                    &&& out@[j].amount.limbs@ == amounts@[j].limbs@
                },
        decreases n - i,
    {
        out.push(
            Claim {
                account: accounts[i].dup(),
                reward_token: reward_token.dup(),
                amount: amounts[i].dup(),
            },
        );
        i = i + 1;
    }
    out
}

/// Whether one document entry renders one claim, with a proof taken at
/// that claim's leaf position.
pub open spec fn entry_matches(e: MerkleTreeEntry, c: Claim, claims: Seq<Claim>) -> bool {
    &&& e.account@ == hex_prefixed(c.account.bytes@)
    &&& e.reward@ == hex_prefixed(c.reward_token.bytes@)
    &&& e.claimable@ == dec_string_of(c.amount.val())
    &&& exists|pos: int|
        {
            &&& 0 <= pos < sorted_leaves(claims).len()
            &&& #[trigger] sorted_leaves(claims)[pos] == crate::merkle::leaf_hash_of(c)
            &&& e.proof@.map_values(|p: String| p@) == proof_of(
                sorted_leaves(claims),
                pos,
            ).map_values(|h: Seq<u8>| hex_prefixed(h))
        }
}

/// Everything one invocation publishes: the tree, the document, and the
/// multipart body that uploads the document's canonical JSON bytes.
pub struct Publication {
    pub tree: MerkleTree,
    pub document: PublishDocument,
    pub upload_body: Vec<u8>,
}

/// Builds the tree, the document and the upload body from the final claim
/// list. An empty claim list yields nothing — the one non-failing early
/// exit, after which neither publisher nor encoder run.
pub fn build_publication(
    claims: &Vec<Claim>,
    reward_token: &crate::claim::Address,
    sources: Vec<SourceMeta>,
) -> (r: Option<Publication>)
    requires
        forall|i: int| 0 <= i < claims@.len() ==> (#[trigger] claims@[i]).wf(),
        reward_token.wf(),
    ensures
        match r {
            Some(p) => {
                &&& claims@.len() >= 1
                &&& p.tree.wf()
                &&& p.tree.claims_g@ == claims@
                &&& p.document.root@ == hex_prefixed(merkle_root(claims@))
                &&& p.document.id@ == p.document.root@
                &&& p.document.num_accounts as nat == claims@.len()
                &&& p.document.reward_token_address@ == hex_prefixed(reward_token.bytes@)
                &&& p.document.total_rewards@ == dec_string_of(claims_total(claims@))
                &&& p.document.tree@.len() == claims@.len()
                &&& forall|i: int|
                    0 <= i < claims@.len() ==> entry_matches(
                        #[trigger] p.document.tree@[i],
                        claims@[i],
                        claims@,
                    )
                &&& p.document.sources@ == sources@
                &&& p.upload_body@ == multipart_body_of(
                    vstd::utf8::encode_utf8(json_of_document(p.document)),
                )
            },
            None => claims@.len() == 0,
        },
{
    broadcast use vstd::seq_lib::group_to_multiset_ensures;

    let tree = match get_merkle_tree(claims) {
        Ok(t) => t,
        Err(_) => {
            return None;
        },
    };
    let root_bytes = tree.root();
    let root_hex = to_hex_string(root_bytes.as_slice());
    let id = root_hex.clone();
    let mut amounts: Vec<crate::uint256::Uint256> = Vec::new();
    let n = claims.len();
    let mut i: usize = 0;
    while i < n
        invariant
            n == claims@.len(),
            forall|j: int| 0 <= j < claims@.len() ==> (#[trigger] claims@[j]).wf(),
            0 <= i <= n,
            amounts@.len() == i,
            forall|j: int|
                0 <= j < i ==> (#[trigger] amounts@[j]).wf() && amounts@[j].val()
                    == claims@[j].amount.val(),
        decreases n - i,
    {
        amounts.push(claims[i].amount.dup());
        i = i + 1;
    }
    let total_limbs = wide_sum(&amounts);
    proof {
        lemma_sum_vals_pointwise(amounts@, claims@.map_values(|c: Claim| c.amount));
    }
    let total_chars = limbs_to_decimal(&total_limbs);
    let total_rewards = chars_to_string(&total_chars);
    let mut entries: Vec<MerkleTreeEntry> = Vec::new();
    let mut k: usize = 0;
    while k < n
        invariant
            n == claims@.len(),
            n >= 1,
            forall|j: int| 0 <= j < claims@.len() ==> (#[trigger] claims@[j]).wf(),
            tree.wf(),
            tree.claims_g@ == claims@,
            0 <= k <= n,
            entries@.len() == k,
            forall|j: int|
                0 <= j < k ==> entry_matches(#[trigger] entries@[j], claims@[j], claims@),
        decreases n - k,
    {
        let c = &claims[k];
        let leaf = leaf_digest(c);
        proof {
            let lh = crate::merkle::leaf_hashes(claims@);
            let h = crate::merkle::leaf_hash_of(claims@[k as int]);
            assert(lh[k as int] == h);
            assert(lh.contains(h));
            crate::merkle::lemma_lex_total_ordering();
            lh.lemma_sort_by_ensures(crate::merkle::lex_leq_rel());
            lh.to_multiset_ensures();
            sorted_leaves(claims@).to_multiset_ensures();
            assert(lh.to_multiset().count(h) > 0);
            assert(sorted_leaves(claims@).to_multiset() =~= lh.to_multiset());
            assert(sorted_leaves(claims@).to_multiset().count(h) > 0);
            assert(sorted_leaves(claims@).contains(h));
        }
        let pos = match tree.find_leaf_pos(&leaf) {
            Some(p) => p,
            None => {
                proof {
                    assert(false);
                }
                return None;
            },
        };
        let proof_hashes = tree.proof_at(pos);
        let mut proof_strings: Vec<String> = Vec::new();
        let np = proof_hashes.len();
        let mut m: usize = 0;
        while m < np
            invariant
                np == proof_hashes@.len(),
                0 <= m <= np,
                proof_strings@.len() == m,
                forall|j: int|
                    0 <= j < m ==> (#[trigger] proof_strings@[j])@ == hex_prefixed(
                        crate::merkle::views(proof_hashes@)[j],
                    ),
            decreases np - m,
        {
            proof_strings.push(to_hex_string(proof_hashes[m].as_slice()));
            m = m + 1;
        }
        let entry = MerkleTreeEntry {
            account: c.account.to_hex(),
            reward: c.reward_token.to_hex(),
            claimable: chars_to_string(&c.amount.to_decimal()),
            proof: proof_strings,
        };
        proof {
            assert(entry.proof@.map_values(|p: String| p@) =~= proof_of(
                sorted_leaves(claims@),
                pos as int,
            ).map_values(|h: Seq<u8>| hex_prefixed(h)));
            assert(entry_matches(entry, claims@[k as int], claims@));
        }
        entries.push(entry);
        k = k + 1;
    }
    let document = PublishDocument {
        id,
        num_accounts: n as u64,
        reward_token_address: reward_token.to_hex(),
        total_rewards,
        sources,
        root: root_hex,
        tree: entries,
    };
    let json_chars = document_to_json(&document);
    let json_string = chars_to_string(&json_chars);
    let json_bytes = json_string.as_str().as_bytes_vec();
    let upload_body = build_multipart_body(&json_bytes);
    Some(Publication { tree, document, upload_body })
}

/// Folds the storage service's content reference into the final binary
/// record: the identifier is decoded, its digest and string form stand
/// beside the root, and the whole is wrapped in the correlation-tagged
/// envelope.
pub fn finalize_output(trigger_id: u64, root: &Vec<u8>, cid_str: &str) -> (r: Result<
    Vec<u8>,
    RewardsError,
>)
    requires
        root@.len() == 32,
    ensures
        match r {
            Ok(b) => exists|o: AvsOutput|
                #![auto]
                {
                    &&& o.wf()
                    &&& o.root@ == root@
                    &&& o.ipfs_hash@ == cid_str@
                    &&& crate::ipfs::parse_cid_spec(
                        if crate::ipfs::is_qm_form(cid_str@) {
                            crate::ipfs::base58_decoded(cid_str@)
                        } else {
                            crate::ipfs::multibase_decoded(cid_str@)
                        },
                    ) is Some
                    &&& o.ipfs_hash_data@ == crate::ipfs::parse_cid_spec(
                        if crate::ipfs::is_qm_form(cid_str@) {
                            crate::ipfs::base58_decoded(cid_str@)
                        } else {
                            crate::ipfs::multibase_decoded(cid_str@)
                        },
                    ).unwrap().3
                    &&& b@ == abi_data_with_id(trigger_id, abi_avs_output(o))
                },
            Err(_) => true,
        },
        ({
            &&& crate::ipfs::is_qm_form(cid_str@)
            &&& forall|i: int|
                0 <= i < cid_str@.len() ==> crate::ipfs::is_base58_char(#[trigger] cid_str@[i])
            &&& crate::ipfs::parse_cid_spec(crate::ipfs::base58_decoded(cid_str@)) is Some
            &&& crate::ipfs::parse_cid_spec(
                crate::ipfs::base58_decoded(cid_str@),
            ).unwrap().3.len() <= 0xff_ffff
            &&& cid_str@.len() <= 0xff_ffff
        }) ==> r is Ok,
        ({
            &&& !crate::ipfs::is_qm_form(cid_str@)
            &&& crate::ipfs::multibase_ok(cid_str@)
            &&& crate::ipfs::parse_cid_spec(crate::ipfs::multibase_decoded(cid_str@)) is Some
            &&& crate::ipfs::parse_cid_spec(
                crate::ipfs::multibase_decoded(cid_str@),
            ).unwrap().3.len() <= 0xff_ffff
            &&& vstd::utf8::is_ascii_chars(cid_str@)
            &&& cid_str@.len() <= 0xff_ffff
        }) ==> r is Ok,
{
    let cid = decode_ipfs_cid(cid_str)?;
    if !cid_str.is_ascii() {
        proof {
            if crate::ipfs::is_qm_form(cid_str@) && (forall|i: int|
                0 <= i < cid_str@.len() ==> crate::ipfs::is_base58_char(
                    #[trigger] cid_str@[i],
                )) {
                lemma_base58_is_ascii(cid_str@);
                assert(false);
            }
        }
        return Err(RewardsError::EncodeError);
    }
    if cid.digest.len() > 0xff_ffff {
        return Err(RewardsError::EncodeError);
    }
    let n = cid_str.unicode_len();
    if n > 0xff_ffff {
        return Err(RewardsError::EncodeError);
    }
    let output = AvsOutput {
        root: crate::merkle::dup_bytes(root),
        ipfs_hash_data: cid.digest,
        ipfs_hash: String::from_str(cid_str),
    };
    proof {
        assert(output.wf());
    }
    proof {
        assert(abi_avs_output(output).len() <= 0xffff_ffff);
    }
    let encoded = encode_trigger_output(trigger_id, &output);
    proof {
        assert(output.wf());
        assert(output.root@ == root@);
        assert(output.ipfs_hash@ == cid_str@);
        assert(encoded@ == abi_data_with_id(trigger_id, abi_avs_output(output)));
    }
    Ok(encoded)
}

/// Base-58 text is ASCII.
proof fn lemma_base58_is_ascii(s: Seq<char>)
    requires
        forall|i: int| 0 <= i < s.len() ==> crate::ipfs::is_base58_char(#[trigger] s[i]),
    ensures
        vstd::utf8::is_ascii_chars(s),
{
    assert forall|i: int| 0 <= i < s.len() implies '\0' <= #[trigger] s[i] <= '\u{7f}' by {
        assert(crate::ipfs::is_base58_char(s[i]));
    }
}

} // verus!
