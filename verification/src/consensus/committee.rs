//! The committee and its stake.

use vstd::prelude::*;

use super::block::{AuthorityIndex, Stake};

verus! {

/// The stake of those authorities of a committee that `voters` holds.
pub open spec fn stake_of(stakes: Seq<Stake>, voters: Set<AuthorityIndex>) -> nat
    decreases stakes.len(),
{
    if stakes.len() == 0 {
        0
    } else {
        stake_of(stakes.drop_last(), voters) + (if voters.contains(
            AuthorityIndex((stakes.len() - 1) as u32),
        ) {
            stakes.last() as nat
        } else {
            0
        })
    }
}

/// The stake of the whole committee.
pub open spec fn total_stake(stakes: Seq<Stake>) -> nat
    decreases stakes.len(),
{
    if stakes.len() == 0 {
        0
    } else {
        total_stake(stakes.drop_last()) + stakes.last() as nat
    }
}

/// The authorities of an epoch, by index, and the stakes at which they decide.
pub struct Committee {
    pub stakes: Vec<Stake>,
    pub quorum_threshold: Stake,
    pub certification_threshold: Stake,
}

impl Committee {
    /// The indices fit their type, and the stake of the whole committee fits its.
    pub open spec fn wf(self) -> bool {
        &&& self.stakes@.len() <= u32::MAX
        &&& total_stake(self.stakes@) <= u64::MAX
    }

    /// The authority is a member.
    pub open spec fn has(self, authority: AuthorityIndex) -> bool {
        authority.0 < self.stakes@.len()
    }

    pub open spec fn stake_of(self, voters: Set<AuthorityIndex>) -> nat {
        stake_of(self.stakes@, voters)
    }

    /// The committee, unless its indices or the sum of its stakes do not fit their types.
    pub fn new(
        stakes: Vec<Stake>,
        quorum_threshold: Stake,
        certification_threshold: Stake,
    ) -> (res: Option<Self>)
        ensures
            ({
                let committee = Committee { stakes, quorum_threshold, certification_threshold };
                res == if committee.wf() {
                    Some(committee)
                } else {
                    None
                }
            }),
    {
        if stakes.len() > u32::MAX as usize {
            return None;
        }
        let mut total: u64 = 0;
        let mut i: usize = 0;
        while i < stakes.len()
            invariant
                i <= stakes@.len(),
                total == total_stake(stakes@.take(i as int)),
            decreases stakes.len() - i,
        {
            proof {
                assert(stakes@.take(i + 1).drop_last() =~= stakes@.take(i as int));
                lemma_total_grows(stakes@, i + 1);
            }
            match total.checked_add(stakes[i]) {
                Some(sum) => {
                    total = sum;
                },
                None => {
                    return None;
                },
            }
            i += 1;
        }
        assert(stakes@.take(i as int) =~= stakes@);
        Some(Committee { stakes, quorum_threshold, certification_threshold })
    }

    /// Whether the authority is a member.
    pub fn is_member(&self, authority: AuthorityIndex) -> (res: bool)
        ensures
            res == self.has(authority),
    {
        (authority.0 as usize) < self.stakes.len()
    }

    /// The stake that commits or skips a leader directly.
    pub fn quorum_threshold(&self) -> (res: Stake)
        ensures
            res == self.quorum_threshold,
    {
        self.quorum_threshold
    }

    /// The stake in the history of an anchor that commits a leader indirectly.
    pub fn certification_threshold(&self) -> (res: Stake)
        ensures
            res == self.certification_threshold,
    {
        self.certification_threshold
    }

    /// The stake of a member.
    pub fn stake(&self, authority: AuthorityIndex) -> (res: Stake)
        requires
            self.has(authority),
        ensures
            res == self.stakes@[authority.0 as int],
    {
        self.stakes[authority.0 as usize]
    }
}

/// The first members have no more stake than all.
proof fn lemma_total_grows(stakes: Seq<Stake>, n: int)
    requires
        0 <= n <= stakes.len(),
    ensures
        total_stake(stakes.take(n)) <= total_stake(stakes),
    decreases stakes.len() - n,
{
    if n == stakes.len() {
        assert(stakes.take(n) =~= stakes);
    } else {
        assert(stakes.take(n + 1).drop_last() =~= stakes.take(n));
        lemma_total_grows(stakes, n + 1);
    }
}

/// No set of voters has more than the stake of the whole committee.
pub proof fn lemma_stake_within_total(stakes: Seq<Stake>, voters: Set<AuthorityIndex>)
    ensures
        stake_of(stakes, voters) <= total_stake(stakes),
    decreases stakes.len(),
{
    if stakes.len() > 0 {
        lemma_stake_within_total(stakes.drop_last(), voters);
    }
}

/// Two sets that hold the same members have the same stake.
pub proof fn lemma_stake_same(stakes: Seq<Stake>, a: Set<AuthorityIndex>, b: Set<AuthorityIndex>)
    requires
        forall|i: u32|
            i < stakes.len() ==> (#[trigger] a.contains(AuthorityIndex(i)) <==> b.contains(
                AuthorityIndex(i),
            )),
        stakes.len() <= u32::MAX,
    ensures
        stake_of(stakes, a) == stake_of(stakes, b),
    decreases stakes.len(),
{
    if stakes.len() > 0 {
        lemma_stake_same(stakes.drop_last(), a, b);
        let last = (stakes.len() - 1) as u32;
        assert(a.contains(AuthorityIndex(last)) <==> b.contains(AuthorityIndex(last)));
    }
}

/// A member that joins the voters brings its stake.
pub proof fn lemma_stake_insert(
    stakes: Seq<Stake>,
    voters: Set<AuthorityIndex>,
    authority: AuthorityIndex,
)
    requires
        stakes.len() <= u32::MAX,
        authority.0 < stakes.len(),
        !voters.contains(authority),
    ensures
        stake_of(stakes, voters.insert(authority)) == stake_of(stakes, voters)
            + stakes[authority.0 as int],
    decreases stakes.len(),
{
    let last = (stakes.len() - 1) as u32;
    if authority.0 == last {
        assert forall|i: u32| i < stakes.drop_last().len() implies (#[trigger] voters.insert(
            authority,
        ).contains(AuthorityIndex(i)) <==> voters.contains(AuthorityIndex(i))) by {
            assert(AuthorityIndex(i) != authority);
        }
        lemma_stake_same(stakes.drop_last(), voters.insert(authority), voters);
        assert(AuthorityIndex(last) == authority);
    } else {
        lemma_stake_insert(stakes.drop_last(), voters, authority);
        assert(AuthorityIndex(last) != authority);
    }
}

/// No voters, no stake.
pub proof fn lemma_stake_empty(stakes: Seq<Stake>)
    ensures
        stake_of(stakes, Set::empty()) == 0,
    decreases stakes.len(),
{
    if stakes.len() > 0 {
        lemma_stake_empty(stakes.drop_last());
    }
}

/// More voters have no less stake.
pub proof fn lemma_stake_subset(stakes: Seq<Stake>, a: Set<AuthorityIndex>, b: Set<AuthorityIndex>)
    requires
        a.subset_of(b),
    ensures
        stake_of(stakes, a) <= stake_of(stakes, b),
    decreases stakes.len(),
{
    if stakes.len() > 0 {
        lemma_stake_subset(stakes.drop_last(), a, b);
    }
}

/// What two sets of voters share is counted once in their union.
pub proof fn lemma_stake_union(stakes: Seq<Stake>, a: Set<AuthorityIndex>, b: Set<AuthorityIndex>)
    ensures
        stake_of(stakes, a.union(b)) + stake_of(stakes, a.intersect(b)) == stake_of(stakes, a)
            + stake_of(stakes, b),
    decreases stakes.len(),
{
    if stakes.len() > 0 {
        lemma_stake_union(stakes.drop_last(), a, b);
    }
}

/// The stake of the whole committee is the sum of its members' stakes, one by one.
pub proof fn law_total_stake(stakes: Seq<Stake>, stake: Stake)
    ensures
        total_stake(Seq::empty()) == 0,
        total_stake(stakes.push(stake)) == total_stake(stakes) + stake,
{
    assert(stakes.push(stake).drop_last() =~= stakes);
}

/// The stake of voters is the sum of the stakes of those that are members, one by one.
pub proof fn law_stake_of(
    stakes: Seq<Stake>,
    voters: Set<AuthorityIndex>,
    authority: AuthorityIndex,
)
    requires
        stakes.len() <= u32::MAX,
    ensures
        stake_of(stakes, Set::empty()) == 0,
        !voters.contains(authority) ==> stake_of(stakes, voters.insert(authority)) == stake_of(
            stakes,
            voters,
        ) + (if authority.0 < stakes.len() {
            stakes[authority.0 as int] as nat
        } else {
            0
        }),
{
    lemma_stake_empty(stakes);
    if !voters.contains(authority) {
        if authority.0 < stakes.len() {
            lemma_stake_insert(stakes, voters, authority);
        } else {
            lemma_stake_same(stakes, voters.insert(authority), voters);
        }
    }
}

/// A committee is well formed where its members can be indexed and their stakes add up to no
/// more than a stake can hold; its members are those within its stakes.
pub proof fn law_committee(committee: Committee, authority: AuthorityIndex)
    ensures
        committee.wf() <==> committee.stakes@.len() <= 0xffff_ffff && total_stake(
            committee.stakes@,
        ) <= 0xffff_ffff_ffff_ffff,
        committee.has(authority) <==> authority.0 < committee.stakes@.len(),
{
}

} // verus!
