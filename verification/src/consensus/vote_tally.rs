//! The votes for leader blocks, counted by authority.

use vstd::prelude::*;

use super::block::{AuthorityIndex, BlockRef, Stake};
use super::committee::{
    lemma_stake_empty, lemma_stake_insert, lemma_stake_within_total, stake_of, Committee,
};

verus! {

/// The votes for one leader block.
pub(crate) struct Tally {
    pub(crate) leader: BlockRef,
    /// By authority: whether it has voted.
    pub(crate) voted: Vec<bool>,
    pub(crate) stake: Stake,
}

pub(crate) open spec fn voters_of(voted: Seq<bool>) -> Set<AuthorityIndex> {
    Set::new(|a: AuthorityIndex| a.0 < voted.len() && voted[a.0 as int])
}

/// Each leader has one tally, with at least one voter and the stake of its voters.
pub(crate) open spec fn tallies_wf(tallies: Seq<Tally>, committee: Committee) -> bool {
    &&& forall|i: int| 0 <= i < tallies.len() ==> {
        let t = #[trigger] tallies[i];
        &&& t.voted@.len() == committee.stakes@.len()
        &&& t.stake == committee.stake_of(voters_of(t.voted@))
        &&& exists|a: AuthorityIndex| #[trigger] voters_of(t.voted@).contains(a)
    }
    &&& forall|i: int, j: int|
        0 <= i < j < tallies.len() ==> (#[trigger] tallies[i]).leader != (
        #[trigger] tallies[j]).leader
}

pub(crate) open spec fn has_entry(tallies: Seq<Tally>, leader: BlockRef) -> bool {
    exists|i: int| 0 <= i < tallies.len() && (#[trigger] tallies[i]).leader == leader
}

pub(crate) open spec fn entry(tallies: Seq<Tally>, leader: BlockRef) -> int {
    choose|i: int| 0 <= i < tallies.len() && (#[trigger] tallies[i]).leader == leader
}

/// The authorities whose votes for `leader` have been counted.
pub(crate) open spec fn tallied(tallies: Seq<Tally>, leader: BlockRef) -> Set<AuthorityIndex> {
    if has_entry(tallies, leader) {
        voters_of(tallies[entry(tallies, leader)].voted@)
    } else {
        Set::empty()
    }
}

pub(crate) proof fn lemma_tallied(tallies: Seq<Tally>, committee: Committee, i: int)
    requires
        tallies_wf(tallies, committee),
        0 <= i < tallies.len(),
    ensures
        entry(tallies, tallies[i].leader) == i,
        has_entry(tallies, tallies[i].leader),
        tallied(tallies, tallies[i].leader) == voters_of(tallies[i].voted@),
{
    let k = entry(tallies, tallies[i].leader);
    assert(tallies[i].leader == tallies[i].leader);
    if k < i {
        assert(tallies[k].leader != tallies[i].leader);
    } else if i < k {
        assert(tallies[i].leader != tallies[k].leader);
    }
}

/// The votes that have been counted.
pub(crate) open spec fn ballots(tallies: Seq<Tally>) -> Set<(BlockRef, AuthorityIndex)> {
    Set::new(|vote: (BlockRef, AuthorityIndex)| tallied(tallies, vote.0).contains(vote.1))
}

/// Counts the vote of an authority for a leader, once.
pub(crate) fn record_vote(
    tallies: &mut Vec<Tally>,
    committee: &Committee,
    leader: BlockRef,
    author: AuthorityIndex,
)
    requires
        committee.wf(),
        committee.has(author),
        tallies_wf(old(tallies)@, *committee),
    ensures
        tallies_wf(final(tallies)@, *committee),
        ballots(final(tallies)@) == ballots(old(tallies)@).insert((leader, author)),
{
    let ghost before = tallies@;
    let mut i: usize = 0;
    while i < tallies.len() && tallies[i].leader != leader
        invariant
            i <= tallies@.len(),
            tallies@ == before,
            forall|k: int| 0 <= k < i ==> (#[trigger] tallies@[k]).leader != leader,
        decreases tallies.len() - i,
    {
        i += 1;
    }
    if i == tallies.len() {
        let mut voted: Vec<bool> = Vec::new();
        while voted.len() < committee.stakes.len()
            invariant
                voted@.len() <= committee.stakes@.len(),
                forall|k: int| 0 <= k < voted@.len() ==> !(#[trigger] voted@[k]),
            decreases committee.stakes.len() - voted.len(),
        {
            voted.push(false);
        }
        proof {
            lemma_stake_empty(committee.stakes@);
            assert(voters_of(voted@) =~= Set::empty());
            assert(!has_entry(before, leader));
        }
        let ghost blank = voted@;
        let stake = committee.stake(author);
        voted.set(author.0 as usize, true);
        proof {
            lemma_mark(committee.stakes@, blank, author);
            assert(voters_of(voted@).contains(author));
        }
        tallies.push(Tally { leader, voted, stake });
        proof {
            lemma_ballots_after(before, tallies@, *committee, i as int, author);
        }
    } else if !tallies[i].voted[author.0 as usize] {
        let ghost marks = before[i as int].voted@;
        proof {
            lemma_mark(committee.stakes@, marks, author);
            lemma_stake_within_total(
                committee.stakes@,
                voters_of(marks.update(author.0 as int, true)),
            );
        }
        let stake = tallies[i].stake + committee.stake(author);
        let tally = &mut tallies[i];
        tally.voted.set(author.0 as usize, true);
        tally.stake = stake;
        proof {
            assert(voters_of(tallies@[i as int].voted@).contains(author));
            lemma_ballots_after(before, tallies@, *committee, i as int, author);
        }
    } else {
        proof {
            lemma_tallied(before, *committee, i as int);
            assert(ballots(before).contains((leader, author)));
            assert(ballots(before) =~= ballots(before).insert((leader, author)));
        }
    }
}

/// A mark that is set adds one voter and its stake.
proof fn lemma_mark(stakes: Seq<Stake>, voted: Seq<bool>, author: AuthorityIndex)
    requires
        stakes.len() <= u32::MAX,
        voted.len() == stakes.len(),
        author.0 < stakes.len(),
        !voted[author.0 as int],
    ensures
        voters_of(voted.update(author.0 as int, true)) == voters_of(voted).insert(author),
        stake_of(stakes, voters_of(voted.update(author.0 as int, true))) == stake_of(
            stakes,
            voters_of(voted),
        ) + stakes[author.0 as int],
{
    assert forall|a: AuthorityIndex| #[trigger]
        voters_of(voted.update(author.0 as int, true)).contains(a) <==> voters_of(voted).insert(
            author,
        ).contains(a) by {
        assert(a.0 == author.0 ==> a == author);
    }
    assert(voters_of(voted.update(author.0 as int, true)) =~= voters_of(voted).insert(author));
    lemma_stake_insert(stakes, voters_of(voted), author);
}

/// A vote that is added to one tally, or that opens one, is the only change of the ballots.
proof fn lemma_ballots_after(
    before: Seq<Tally>,
    after: Seq<Tally>,
    committee: Committee,
    at: int,
    author: AuthorityIndex,
)
    requires
        tallies_wf(before, committee),
        tallies_wf(after, committee),
        0 <= at < after.len(),
        before.len() == after.len() || (at == before.len() && after.len() == before.len() + 1),
        forall|k: int| 0 <= k < before.len() && k != at ==> #[trigger] after[k] == before[k],
        at < before.len() ==> {
            &&& before[at].leader == after[at].leader
            &&& voters_of(after[at].voted@) == voters_of(before[at].voted@).insert(author)
        },
        at == before.len() ==> {
            &&& !has_entry(before, after[at].leader)
            &&& voters_of(after[at].voted@) == Set::<AuthorityIndex>::empty().insert(author)
        },
    ensures
        ballots(after) == ballots(before).insert((after[at].leader, author)),
{
    let leader = after[at].leader;
    assert forall|vote: (BlockRef, AuthorityIndex)| #[trigger]
        ballots(after).contains(vote) <==> ballots(before).insert((leader, author)).contains(
            vote,
        ) by {
        lemma_tallied(after, committee, at);
        if at < before.len() {
            lemma_tallied(before, committee, at);
        }
        if vote.0 == leader {
            assert(vote == (leader, vote.1));
        } else {
            if has_entry(after, vote.0) {
                let k = entry(after, vote.0);
                assert(k != at);
                lemma_tallied(after, committee, k);
                lemma_tallied(before, committee, k);
            }
            if has_entry(before, vote.0) {
                let k = entry(before, vote.0);
                assert(after[k] == before[k]);
                lemma_tallied(after, committee, k);
                lemma_tallied(before, committee, k);
            }
        }
    }
    assert(ballots(after) =~= ballots(before).insert((leader, author)));
}

} // verus!
