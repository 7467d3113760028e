//! Reward sources and their registry.
//!
//! A source reports eligible accounts and a reward per account. The
//! registry owns an open, ordered collection of sources for one
//! invocation: it deduplicates accounts across sources and sums each
//! account's rewards with overflow detection, failing rather than
//! wrapping.

use crate::claim::Address;
use crate::uint256::{pow2_256, Uint256};
use crate::RewardsError;
use vstd::prelude::*;

verus! {

/// One key/value pair of descriptive metadata.
pub struct MetaEntry {
    pub key: String,
    pub value: String,
}

/// One source's name and metadata, for the published document.
pub struct SourceMeta {
    pub name: String,
    pub entries: Vec<MetaEntry>,
}

/// A source of rewards. New variants may be added freely: the registry
/// depends on this contract alone. What a source reports comes from
/// outside reads, so nothing here promises which accounts or amounts
/// come back — the registry's own functions state exactly what is done
/// with whatever was reported.
pub trait Source {
    /// The stable name of the source, as a specification value. A
    /// variant overrides this with its own name.
    open spec fn name_spec(&self) -> Seq<char> {
        Seq::<char>::empty()
    }

    /// The stable name of the source, for metadata reporting.
    fn get_name(&self) -> (r: String)
        ensures
            r@ == self.name_spec(),
    ;

    /// All accounts that currently have rewards from this source.
    fn get_accounts(&self) -> (r: Result<Vec<Address>, RewardsError>)
        ensures
            match r {
                Ok(v) => forall|i: int| 0 <= i < v@.len() ==> (#[trigger] v@[i]).wf(),
                Err(_) => true,
            },
    ;

    /// The reward attributable to one account from this source alone.
    fn get_rewards(&self, account: &Address) -> (r: Result<Uint256, RewardsError>)
        ensures
            match r {
                Ok(v) => v.wf(),
                Err(_) => true,
            },
    ;

    /// Descriptive information about the source.
    fn get_metadata(&self) -> (r: Result<Vec<MetaEntry>, RewardsError>);
}

/// Whether some address in the sequence has the given bytes.
pub open spec fn contains_addr(s: Seq<Address>, b: Seq<u8>) -> bool {
    exists|i: int| 0 <= i < s.len() && (#[trigger] s[i]).bytes@ == b
}

/// Whether a sequence of addresses holds no duplicates.
pub open spec fn distinct_addrs(s: Seq<Address>) -> bool {
    forall|i: int, j: int|
        0 <= i < j < s.len() ==> (#[trigger] s[i]).bytes@ != (#[trigger] s[j]).bytes@
}

/// Whether `v` holds an address with the same bytes as `a`.
fn contains_address(v: &Vec<Address>, a: &Address) -> (r: bool)
    ensures
        r == contains_addr(v@, a.bytes@),
{
    let n = v.len();
    let mut i: usize = 0;
    while i < n
        invariant
            n == v@.len(),
            0 <= i <= n,
            forall|j: int| 0 <= j < i ==> (#[trigger] v@[j]).bytes@ != a.bytes@,
        decreases n - i,
    {
        if v[i].eq_addr(a) {
            return true;
        }
        i = i + 1;
    }
    false
}

/// The deduplicated union of the account groups: the result holds an
/// address exactly when some group reports it, each address once, in
/// first-appearance order.
pub fn aggregate_accounts(groups: &Vec<Vec<Address>>) -> (r: Vec<Address>)
    requires
        forall|g: int, i: int|
            0 <= g < groups@.len() && 0 <= i < groups@[g]@.len() ==> (#[trigger] groups@[g]@[i]).wf(),
    ensures
        distinct_addrs(r@),
        forall|i: int| 0 <= i < r@.len() ==> (#[trigger] r@[i]).wf(),
        forall|b: Seq<u8>|
            #[trigger] contains_addr(r@, b) <==> exists|g: int|
                0 <= g < groups@.len() && contains_addr(#[trigger] groups@[g]@, b),
        groups@.len() == 0 ==> r@.len() == 0,
{
    let mut out: Vec<Address> = Vec::new();
    let ng = groups.len();
    let mut g: usize = 0;
    while g < ng
        invariant
            ng == groups@.len(),
            forall|gg: int, i: int|
                0 <= gg < groups@.len() && 0 <= i < groups@[gg]@.len() ==> (#[trigger] groups@[gg]@[i]).wf(),
            0 <= g <= ng,
            distinct_addrs(out@),
            forall|i: int| 0 <= i < out@.len() ==> (#[trigger] out@[i]).wf(),
            forall|b: Seq<u8>|
                #[trigger] contains_addr(out@, b) <==> exists|gg: int|
                    0 <= gg < g && contains_addr(#[trigger] groups@[gg]@, b),
        decreases ng - g,
    {
        let group = &groups[g];
        let n = group.len();
        let mut i: usize = 0;
        while i < n
            invariant
                ng == groups@.len(),
                0 <= g < ng,
                group == &groups@[g as int],
                forall|gg: int, k: int|
                    0 <= gg < groups@.len() && 0 <= k < groups@[gg]@.len() ==> (#[trigger] groups@[gg]@[k]).wf(),
                n == group@.len(),
                0 <= i <= n,
                distinct_addrs(out@),
                forall|k: int| 0 <= k < out@.len() ==> (#[trigger] out@[k]).wf(),
                forall|b: Seq<u8>|
                    #[trigger] contains_addr(out@, b) <==> (exists|gg: int|
                        0 <= gg < g && contains_addr(#[trigger] groups@[gg]@, b)) || contains_addr(
                        group@.take(i as int),
                        b,
                    ),
            decreases n - i,
        {
            let a = &group[i];
            let ghost pre = out@;
            if !contains_address(&out, a) {
                out.push(a.dup());
                proof {
                    assert(out@ =~= pre.push(out@[pre.len() as int]));
                    assert(out@[pre.len() as int].bytes@ == a.bytes@);
                    assert forall|b: Seq<u8>| #[trigger] contains_addr(out@, b) implies (
                    contains_addr(pre, b) || b == a.bytes@) by {
                        let k = choose|k: int| 0 <= k < out@.len() && (#[trigger] out@[k]).bytes@
                            == b;
                        if k < pre.len() {
                            assert(contains_addr(pre, b));
                        }
                    }
                    assert(contains_addr(out@, a.bytes@)) by {
                        assert(out@[pre.len() as int].bytes@ == a.bytes@);
                    }
                    assert forall|b: Seq<u8>| contains_addr(pre, b) implies #[trigger]
                    contains_addr(out@, b) by {
                        let k = choose|k: int| 0 <= k < pre.len() && (#[trigger] pre[k]).bytes@
                            == b;
                        assert(out@[k].bytes@ == b);
                    }
                }
            }
            proof {
                assert(group@.take(i as int + 1) =~= group@.take(i as int).push(
                    group@[i as int],
                ));
                assert forall|b: Seq<u8>| #[trigger] contains_addr(
                    group@.take(i as int + 1),
                    b,
                ) implies (contains_addr(group@.take(i as int), b) || b == a.bytes@) by {
                    let k = choose|k: int|
                        0 <= k < i + 1 && (#[trigger] group@.take(i as int + 1)[k]).bytes@ == b;
                    if k < i {
                        assert(group@.take(i as int)[k].bytes@ == b);
                    }
                }
                assert forall|b: Seq<u8>| contains_addr(group@.take(i as int), b) implies
                    #[trigger] contains_addr(group@.take(i as int + 1), b) by {
                    let k = choose|k: int|
                        0 <= k < i && (#[trigger] group@.take(i as int)[k]).bytes@ == b;
                    assert(group@.take(i as int + 1)[k].bytes@ == b);
                }
                assert(contains_addr(group@.take(i as int + 1), a.bytes@)) by {
                    assert(group@.take(i as int + 1)[i as int].bytes@ == a.bytes@);
                }
            }
            i = i + 1;
        }
        proof {
            assert(group@.take(n as int) =~= group@);
            assert forall|b: Seq<u8>| #[trigger] contains_addr(out@, b) implies (exists|gg: int|
                0 <= gg < g + 1 && contains_addr(#[trigger] groups@[gg]@, b)) by {
                if contains_addr(group@, b) {
                    assert(contains_addr(groups@[g as int]@, b));
                }
            }
            assert forall|b: Seq<u8>, gg: int|
                0 <= gg < g + 1 && contains_addr(#[trigger] groups@[gg]@, b) implies #[trigger]
            contains_addr(out@, b) by {
                if gg == g {
                    assert(contains_addr(group@, b));
                }
            }
        }
        g = g + 1;
    }
    proof {
        if groups@.len() == 0 && out@.len() > 0 {
            assert(contains_addr(out@, out@[0].bytes@));
            assert(false);
        }
    }
    out
}

/// The sum of the values of a sequence of amounts.
pub open spec fn sum_vals(s: Seq<Uint256>) -> nat
    decreases s.len(),
{
    if s.len() == 0 {
        0
    } else {
        s[0].val() + sum_vals(s.drop_first())
    }
}

/// One more amount on the end of a sum.
pub proof fn lemma_sum_snoc_pub(s: Seq<Uint256>, x: Uint256)
    ensures
        sum_vals(s.push(x)) == sum_vals(s) + x.val(),
    decreases s.len(),
{
    reveal_with_fuel(sum_vals, 3);
    if s.len() == 0 {
        assert(s.push(x).drop_first() =~= Seq::<Uint256>::empty());
    } else {
        assert(s.push(x).drop_first() =~= s.drop_first().push(x));
        lemma_sum_snoc_pub(s.drop_first(), x);
    }
}

/// A prefix sum never exceeds the whole sum.
proof fn lemma_sum_prefix(s: Seq<Uint256>, i: int)
    requires
        0 <= i <= s.len(),
    ensures
        sum_vals(s.take(i)) <= sum_vals(s),
    decreases s.len() - i,
{
    if i == s.len() {
        assert(s.take(i) =~= s);
    } else {
        assert(s.take(i + 1) =~= s.take(i).push(s[i]));
        lemma_sum_snoc_pub(s.take(i), s[i]);
        lemma_sum_prefix(s, i + 1);
    }
}

/// The overflow-checked sum of the amounts: the exact total when it fits
/// the 256-bit range, and the overflow error exactly when it does not.
pub fn sum_rewards(amounts: &Vec<Uint256>) -> (r: Result<Uint256, RewardsError>)
    requires
        forall|i: int| 0 <= i < amounts@.len() ==> (#[trigger] amounts@[i]).wf(),
    ensures
        match r {
            Ok(t) => t.wf() && t.val() == sum_vals(amounts@) && sum_vals(amounts@) < pow2_256(),
            Err(e) => e == RewardsError::Overflow && sum_vals(amounts@) >= pow2_256(),
        },
{
    let mut total = Uint256::zero();
    let n = amounts.len();
    let mut i: usize = 0;
    proof {
        assert(amounts@.take(0) =~= Seq::<Uint256>::empty());
    }
    while i < n
        invariant
            n == amounts@.len(),
            forall|j: int| 0 <= j < amounts@.len() ==> (#[trigger] amounts@[j]).wf(),
            0 <= i <= n,
            total.wf(),
            total.val() == sum_vals(amounts@.take(i as int)),
        decreases n - i,
    {
        proof {
            assert(amounts@.take(i as int + 1) =~= amounts@.take(i as int).push(
                amounts@[i as int],
            ));
            lemma_sum_snoc_pub(amounts@.take(i as int), amounts@[i as int]);
        }
        total = match total.checked_add(&amounts[i]) {
            Some(t) => t,
            None => {
                proof {
                    lemma_sum_prefix(amounts@, i as int + 1);
                }
                return Err(RewardsError::Overflow);
            },
        };
        i = i + 1;
    }
    proof {
        assert(amounts@.take(n as int) =~= amounts@);
        total.lemma_val_lt_pow2_256();
    }
    Ok(total)
}

/// The registry of reward sources for one invocation.
pub struct SourceRegistry {
    pub sources: Vec<Box<dyn Source>>,
}

impl SourceRegistry {
    /// An empty registry.
    pub fn new() -> (r: SourceRegistry)
        ensures
            r.sources@.len() == 0,
    {
        SourceRegistry { sources: Vec::new() }
    }

    /// Registers one more source; nothing is ever removed.
    pub fn add_source(&mut self, source: Box<dyn Source>)
        ensures
            final(self).sources@ == old(self).sources@.push(source),
    {
        self.sources.push(source);
    }

    /// The deduplicated union of every source's reported accounts. With
    /// no sources registered, no source is queried and the union is
    /// empty; an error can only come out of a registered source's query.
    pub fn get_accounts(&self) -> (r: Result<Vec<Address>, RewardsError>)
        ensures
            match r {
                Ok(v) => {
                    &&& distinct_addrs(v@)
                    &&& forall|i: int| 0 <= i < v@.len() ==> (#[trigger] v@[i]).wf()
                    &&& self.sources@.len() == 0 ==> v@.len() == 0
                },
                Err(_) => self.sources@.len() > 0,
            },
    {
        let mut groups: Vec<Vec<Address>> = Vec::new();
        let n = self.sources.len();
        let mut i: usize = 0;
        while i < n
            invariant
                n == self.sources@.len(),
                0 <= i <= n,
                groups@.len() == i,
                forall|g: int, k: int|
                    0 <= g < groups@.len() && 0 <= k < groups@[g]@.len() ==> (#[trigger] groups@[g]@[k]).wf(),
            decreases n - i,
        {
            let accounts = self.sources[i].get_accounts()?;
            groups.push(accounts);
            i = i + 1;
        }
        Ok(aggregate_accounts(&groups))
    }

    /// The overflow-checked sum of the account's reward across every
    /// source, with the amounts taken in registration order. With no
    /// sources registered the sum is zero; an error can only come out of
    /// a registered source's query or their overflowing sum.
    pub fn get_rewards(&self, account: &Address) -> (r: Result<Uint256, RewardsError>)
        ensures
            match r {
                Ok(t) => t.wf() && (self.sources@.len() == 0 ==> t.val() == 0),
                Err(_) => self.sources@.len() > 0,
            },
    {
        let mut amounts: Vec<Uint256> = Vec::new();
        let n = self.sources.len();
        let mut i: usize = 0;
        while i < n
            invariant
                n == self.sources@.len(),
                0 <= i <= n,
                amounts@.len() == i,
                forall|j: int| 0 <= j < amounts@.len() ==> (#[trigger] amounts@[j]).wf(),
            decreases n - i,
        {
            let amount = self.sources[i].get_rewards(account)?;
            amounts.push(amount);
            i = i + 1;
        }
        proof {
            if n == 0 {
                assert(amounts@ =~= Seq::<Uint256>::empty());
                assert(sum_vals(amounts@) == 0);
            }
        }
        sum_rewards(&amounts)
    }

    /// One name/metadata entry per source, in registration order: entry
    /// i carries source i's name. With no sources registered the list is
    /// empty; an error can only come out of a registered source's query.
    pub fn get_sources_with_metadata(&self) -> (r: Result<Vec<SourceMeta>, RewardsError>)
        ensures
            match r {
                Ok(v) => {
                    &&& v@.len() == self.sources@.len()
                    &&& forall|i: int|
                        0 <= i < v@.len() ==> (#[trigger] v@[i]).name@
                            == self.sources@[i].name_spec()
                },
                Err(_) => self.sources@.len() > 0,
            },
    {
        let mut out: Vec<SourceMeta> = Vec::new();
        let n = self.sources.len();
        let mut i: usize = 0;
        while i < n
            invariant
                n == self.sources@.len(),
                0 <= i <= n,
                out@.len() == i,
                forall|j: int|
                    0 <= j < i ==> (#[trigger] out@[j]).name@ == self.sources@[j].name_spec(),
            decreases n - i,
        {
            let name = self.sources[i].get_name();
            let entries = self.sources[i].get_metadata()?;
            out.push(SourceMeta { name, entries });
            i = i + 1;
        }
        Ok(out)
    }
}

} // verus!
