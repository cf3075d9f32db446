//! What the decisions on leader slots owe each other.

use vstd::prelude::*;

use super::block::{AuthorityIndex, BlockRef, LeaderStatus, Slot, VerifiedBlock};
use super::committee::{
    lemma_stake_empty, lemma_stake_subset, lemma_stake_union, lemma_stake_within_total,
    total_stake, Committee,
};
use super::dag_state::DagState;
use super::history::{history, is_vote, History};
use super::leader_slot_decider::{
    blamed, commits, decidable, direct_status, directly_sound, fills, next_round_stake, one_commit,
    votes_within_round,
};

verus! {

/// An accepted block votes for `leader`.
pub open spec fn votes_in(dag: DagState, r: BlockRef, leader: BlockRef) -> bool {
    dag.blocks().contains_key(r) && is_vote(dag.blocks()[r].block, leader.round, leader)
}

/// The authorities with an accepted block that votes for `leader`.
pub open spec fn children(dag: DagState, leader: BlockRef) -> Set<AuthorityIndex> {
    Set::new(
        |a: AuthorityIndex| exists|r: BlockRef| #[trigger] votes_in(dag, r, leader) && r.author == a,
    )
}

/// An accepted block of a round.
pub open spec fn stands_in(dag: DagState, r: BlockRef, round: int) -> bool {
    dag.blocks().contains_key(r) && r.round == round
}

/// The authorities with an accepted block in a round.
pub open spec fn authors(dag: DagState, round: int) -> Set<AuthorityIndex> {
    Set::new(
        |a: AuthorityIndex| exists|r: BlockRef| #[trigger] stands_in(dag, r, round) && r.author == a,
    )
}

/// The stakes that the state keeps of a slot and of the next round are those of the accepted
/// blocks.
pub open spec fn accounted(committee: Committee, dag: DagState, slot: Slot) -> bool {
    &&& next_round_stake(dag, slot) is Some <==> exists|r: BlockRef| #[trigger]
        stands_in(dag, r, slot.round + 1)
    &&& next_round_stake(dag, slot) matches Some(total) ==> total == committee.stake_of(
        authors(dag, slot.round + 1),
    )
    &&& forall|r: BlockRef| #[trigger]
        fills(dag, slot, r) ==> dag.blocks()[r].total_children_stake == committee.stake_of(
            children(dag, r),
        )
}

/// A block is accepted after the leaders that it votes for.
pub open spec fn causal(dag: DagState, slot: Slot) -> bool {
    forall|r: BlockRef, leader: BlockRef| #[trigger]
        votes_in(dag, r, leader) && leader.at(slot) ==> dag.blocks().contains_key(leader)
}

/// Outside `faulty`, an authority has at most one block in the round after a slot.
pub open spec fn honest(dag: DagState, slot: Slot, faulty: Set<AuthorityIndex>) -> bool {
    forall|a: BlockRef, b: BlockRef| #[trigger]
        stands_in(dag, a, slot.round + 1) && #[trigger] stands_in(dag, b, slot.round + 1)
            && a.author == b.author && !faulty.contains(a.author) ==> a == b
}

/// A block votes for at most one block of a slot.
pub open spec fn votes_once(dag: DagState, slot: Slot) -> bool {
    forall|r: BlockRef, a: BlockRef, b: BlockRef| #[trigger]
        votes_in(dag, r, a) && #[trigger] votes_in(dag, r, b) && a.at(slot) && b.at(slot) ==> a == b
}

/// A state of the DAG as the protocol keeps it.
pub open spec fn valid(
    committee: Committee,
    dag: DagState,
    slot: Slot,
    faulty: Set<AuthorityIndex>,
) -> bool {
    &&& accounted(committee, dag, slot)
    &&& causal(dag, slot)
    &&& honest(dag, slot, faulty)
    &&& votes_once(dag, slot)
}

/// The faulty stake leaves two quorums an honest authority in common.
pub open spec fn quorums_meet(committee: Committee, faulty: Set<AuthorityIndex>) -> bool {
    2 * committee.quorum_threshold > total_stake(committee.stakes@) + committee.stake_of(faulty)
}

/// The faulty stake leaves a quorum and a certificate an honest authority in common.
pub open spec fn certificates_meet(committee: Committee, faulty: Set<AuthorityIndex>) -> bool {
    committee.quorum_threshold + committee.certification_threshold > total_stake(committee.stakes@)
        + committee.stake_of(faulty)
}

/// What two quorums share without the faulty stake is a certificate.
pub open spec fn quorums_certify(committee: Committee, faulty: Set<AuthorityIndex>) -> bool {
    2 * committee.quorum_threshold >= total_stake(committee.stakes@) + committee.stake_of(faulty)
        + committee.certification_threshold
}

/// What has been accepted stays.
pub open spec fn grows(earlier: DagState, later: DagState) -> bool {
    forall|r: BlockRef| #[trigger]
        earlier.blocks().contains_key(r) ==> later.blocks().contains_key(r)
            && later.blocks()[r].block == earlier.blocks()[r].block
}

/// The anchor has been accepted, and so has all of its history.
pub open spec fn anchored(dag: DagState, anchor: VerifiedBlock, slot: Slot) -> bool {
    &&& dag.blocks().contains_key(anchor.spec_reference())
    &&& dag.blocks()[anchor.spec_reference()].block == anchor
    &&& history(dag, anchor, slot.round).is_complete()
}

/// A block of the round after a history's is part of the history.
pub open spec fn reaches_next(h: History, r: BlockRef) -> bool {
    h.reaches(r) && r.round == h.round + 1
}

/// The authorities that a history holds a block of in the round after its own.
pub open spec fn witnesses(h: History) -> Set<AuthorityIndex> {
    Set::new(
        |a: AuthorityIndex| exists|r: BlockRef| #[trigger] reaches_next(h, r) && r.author == a,
    )
}

/// The votes for two blocks of a slot have only faulty authorities in common.
proof fn lemma_rivals(
    committee: Committee,
    dag: DagState,
    slot: Slot,
    faulty: Set<AuthorityIndex>,
    a: BlockRef,
    b: BlockRef,
)
    requires
        honest(dag, slot, faulty),
        votes_once(dag, slot),
        a.at(slot),
        b.at(slot),
        a != b,
    ensures
        committee.stake_of(children(dag, a)) + committee.stake_of(children(dag, b))
            <= total_stake(committee.stakes@) + committee.stake_of(faulty),
{
    dag.lemma_references();
    let left = children(dag, a);
    let right = children(dag, b);
    assert forall|x: AuthorityIndex| #[trigger] left.intersect(right).contains(
        x,
    ) implies faulty.contains(x) by {
        let p = choose|r: BlockRef| #[trigger] votes_in(dag, r, a) && r.author == x;
        let q = choose|r: BlockRef| #[trigger] votes_in(dag, r, b) && r.author == x;
        assert(stands_in(dag, p, slot.round + 1) && stands_in(dag, q, slot.round + 1));
        if !faulty.contains(x) {
            assert(votes_in(dag, p, a) && votes_in(dag, p, b));
        }
    }
    let stakes = committee.stakes@;
    lemma_stake_union(stakes, left, right);
    lemma_stake_within_total(stakes, left.union(right));
    lemma_stake_subset(stakes, left.intersect(right), faulty);
}

/// In a valid state whose faulty stake is bounded the direct decision is defined: the votes for
/// a block are within the next round, and no two blocks of a slot have a quorum.
pub proof fn law_at_most_one_commit(
    committee: Committee,
    dag: DagState,
    slot: Slot,
    faulty: Set<AuthorityIndex>,
)
    requires
        valid(committee, dag, slot, faulty),
        quorums_meet(committee, faulty),
    ensures
        votes_within_round(dag, slot),
        one_commit(committee, dag, slot),
{
    assert forall|a: BlockRef, b: BlockRef|
        #![trigger commits(committee, dag, slot, a), commits(committee, dag, slot, b)]
        commits(committee, dag, slot, a) && commits(committee, dag, slot, b) implies a == b by {
        if a != b {
            assert(fills(dag, slot, a) && fills(dag, slot, b));
            lemma_rivals(committee, dag, slot, faulty, a, b);
        }
    }
    assert forall|r: BlockRef| #[trigger] fills(dag, slot, r) implies (next_round_stake(
        dag,
        slot,
    ) matches Some(total) ==> dag.blocks()[r].total_children_stake <= total) by {
        dag.lemma_references();
        assert forall|x: AuthorityIndex| #[trigger] children(dag, r).contains(x) implies authors(
            dag,
            slot.round + 1,
        ).contains(x) by {
            let p = choose|p: BlockRef| #[trigger] votes_in(dag, p, r) && p.author == x;
            assert(stands_in(dag, p, slot.round + 1));
        }
        lemma_stake_subset(committee.stakes@, children(dag, r), authors(dag, slot.round + 1));
    }
}

/// Votes that come in later are cast by authorities that had no block in the next round, or by
/// faulty ones.
proof fn lemma_later_votes(
    committee: Committee,
    earlier: DagState,
    later: DagState,
    slot: Slot,
    faulty: Set<AuthorityIndex>,
    r: BlockRef,
)
    requires
        grows(earlier, later),
        honest(later, slot, faulty),
        r.at(slot),
    ensures
        committee.stake_of(children(later, r)) + committee.stake_of(
            authors(earlier, slot.round + 1),
        ) <= committee.stake_of(children(earlier, r)) + total_stake(committee.stakes@)
            + committee.stake_of(faulty),
{
    earlier.lemma_references();
    later.lemma_references();
    let before = children(earlier, r);
    let there = authors(earlier, slot.round + 1);
    let fresh = there.complement();
    let after = children(later, r);
    assert forall|x: AuthorityIndex| #[trigger] after.contains(x) implies before.union(fresh).union(
        faulty,
    ).contains(x) by {
        let p = choose|p: BlockRef| #[trigger] votes_in(later, p, r) && p.author == x;
        assert(stands_in(later, p, slot.round + 1));
        if earlier.blocks().contains_key(p) {
            assert(votes_in(earlier, p, r));
        } else if there.contains(x) {
            let q = choose|q: BlockRef| #[trigger]
                stands_in(earlier, q, slot.round + 1) && q.author == x;
            assert(stands_in(later, q, slot.round + 1));
        }
    }
    let stakes = committee.stakes@;
    lemma_stake_subset(stakes, after, before.union(fresh).union(faulty));
    lemma_stake_union(stakes, before.union(fresh), faulty);
    lemma_stake_union(stakes, before, fresh);
    lemma_stake_union(stakes, there, fresh);
    assert(there.intersect(fresh) =~= Set::empty());
    lemma_stake_within_total(stakes, there.union(fresh));
    lemma_stake_empty(stakes);
}

/// Of a slot that has been skipped directly, no block ever gets the stake that is left.
proof fn lemma_skipped(
    committee: Committee,
    earlier: DagState,
    later: DagState,
    slot: Slot,
    faulty: Set<AuthorityIndex>,
    r: BlockRef,
)
    requires
        valid(committee, earlier, slot, faulty),
        honest(later, slot, faulty),
        grows(earlier, later),
        direct_status(committee, earlier, slot) == LeaderStatus::Skip(slot),
        r.at(slot),
    ensures
        committee.stake_of(children(later, r)) + committee.quorum_threshold <= total_stake(
            committee.stakes@,
        ) + committee.stake_of(faulty),
{
    lemma_later_votes(committee, earlier, later, slot, faulty, r);
    if earlier.blocks().contains_key(r) {
        assert(fills(earlier, slot, r));
    } else {
        assert forall|x: AuthorityIndex| !(#[trigger] children(earlier, r).contains(x)) by {
            if children(earlier, r).contains(x) {
                let p = choose|p: BlockRef| #[trigger] votes_in(earlier, p, r) && p.author == x;
                assert(votes_in(earlier, p, r));
            }
        }
        assert(children(earlier, r) =~= Set::empty());
        lemma_stake_empty(committee.stakes@);
    }
}

/// A slot that has been skipped directly is never committed directly, whatever blocks arrive at
/// it later.
pub proof fn law_skip_is_final(
    committee: Committee,
    earlier: DagState,
    later: DagState,
    slot: Slot,
    faulty: Set<AuthorityIndex>,
)
    requires
        valid(committee, earlier, slot, faulty),
        valid(committee, later, slot, faulty),
        quorums_meet(committee, faulty),
        grows(earlier, later),
        direct_status(committee, earlier, slot) == LeaderStatus::Skip(slot),
    ensures
        direct_status(committee, later, slot) !is Commit,
{
    assert forall|r: BlockRef| !commits(committee, later, slot, r) by {
        if commits(committee, later, slot, r) {
            assert(fills(later, slot, r));
            lemma_skipped(committee, earlier, later, slot, faulty, r);
        }
    }
}

/// The votes in a history are votes of accepted blocks.
proof fn lemma_votes_are_accepted(
    committee: Committee,
    dag: DagState,
    anchor: VerifiedBlock,
    slot: Slot,
    leader: BlockRef,
)
    requires
        anchored(dag, anchor, slot),
        leader.at(slot),
    ensures
        committee.stake_of(history(dag, anchor, slot.round).voters(leader)) <= committee.stake_of(
            children(dag, leader),
        ),
{
    dag.lemma_references();
    let h = history(dag, anchor, slot.round);
    assert forall|x: AuthorityIndex| #[trigger] h.voters(leader).contains(x) implies children(
        dag,
        leader,
    ).contains(x) by {
        let r = choose|r: BlockRef| #[trigger]
            h.votes(r, leader) && h.block(r).spec_reference().author == x;
        assert(votes_in(dag, r, leader));
    }
    lemma_stake_subset(committee.stakes@, h.voters(leader), children(dag, leader));
}

/// A slot that has been skipped directly is skipped by every anchor, whatever blocks arrive at
/// it later.
pub proof fn law_indirect_follows_skip(
    committee: Committee,
    earlier: DagState,
    later: DagState,
    slot: Slot,
    faulty: Set<AuthorityIndex>,
    anchor: VerifiedBlock,
)
    requires
        valid(committee, earlier, slot, faulty),
        valid(committee, later, slot, faulty),
        certificates_meet(committee, faulty),
        grows(earlier, later),
        direct_status(committee, earlier, slot) == LeaderStatus::Skip(slot),
        anchored(later, anchor, slot),
    ensures
        history(later, anchor, slot.round).indirect_status(committee, slot) == LeaderStatus::Skip(
            slot,
        ),
{
    let h = history(later, anchor, slot.round);
    assert forall|r: BlockRef| !h.picks(committee, slot, r) by {
        if h.picks(committee, slot, r) {
            lemma_votes_are_accepted(committee, later, anchor, slot, r);
            lemma_skipped(committee, earlier, later, slot, faulty, r);
        }
    }
}

/// A block that has been committed directly stays committed: its slot is never decided
/// otherwise.
pub proof fn law_commit_is_final(
    committee: Committee,
    earlier: DagState,
    later: DagState,
    slot: Slot,
    faulty: Set<AuthorityIndex>,
)
    requires
        valid(committee, earlier, slot, faulty),
        valid(committee, later, slot, faulty),
        quorums_meet(committee, faulty),
        grows(earlier, later),
        direct_status(committee, earlier, slot) is Commit,
    ensures
        direct_status(committee, later, slot) == direct_status(committee, earlier, slot),
{
    let leader = choose|r: BlockRef| commits(committee, earlier, slot, r);
    lemma_kept_votes(committee, earlier, later, leader);
    assert(fills(earlier, slot, leader) && fills(later, slot, leader));
    assert(commits(committee, later, slot, leader));
    law_at_most_one_commit(committee, later, slot, faulty);
    earlier.lemma_references();
    later.lemma_references();
    assert forall|x: AuthorityIndex| #[trigger] authors(earlier, slot.round + 1).contains(
        x,
    ) implies authors(later, slot.round + 1).contains(x) by {
        let q = choose|q: BlockRef| #[trigger]
            stands_in(earlier, q, slot.round + 1) && q.author == x;
        assert(stands_in(later, q, slot.round + 1));
    }
    lemma_stake_subset(
        committee.stakes@,
        authors(earlier, slot.round + 1),
        authors(later, slot.round + 1),
    );
    let q = choose|q: BlockRef| #[trigger] stands_in(earlier, q, slot.round + 1);
    assert(stands_in(later, q, slot.round + 1));
    assert(decidable(committee, later, slot));
    let chosen = choose|r: BlockRef| commits(committee, later, slot, r);
    assert(commits(committee, later, slot, chosen));
    assert(chosen == leader);
}

/// Votes that have been accepted stay.
proof fn lemma_kept_votes(
    committee: Committee,
    earlier: DagState,
    later: DagState,
    leader: BlockRef,
)
    requires
        grows(earlier, later),
    ensures
        committee.stake_of(children(earlier, leader)) <= committee.stake_of(
            children(later, leader),
        ),
{
    assert forall|x: AuthorityIndex| #[trigger] children(earlier, leader).contains(
        x,
    ) implies children(later, leader).contains(x) by {
        let p = choose|p: BlockRef| #[trigger] votes_in(earlier, p, leader) && p.author == x;
        assert(votes_in(later, p, leader));
    }
    lemma_stake_subset(committee.stakes@, children(earlier, leader), children(later, leader));
}

/// A block that has been committed directly is committed by every anchor whose history holds a
/// quorum of the next round.
pub proof fn law_indirect_follows_commit(
    committee: Committee,
    earlier: DagState,
    later: DagState,
    slot: Slot,
    faulty: Set<AuthorityIndex>,
    anchor: VerifiedBlock,
)
    requires
        valid(committee, earlier, slot, faulty),
        valid(committee, later, slot, faulty),
        quorums_meet(committee, faulty),
        certificates_meet(committee, faulty),
        quorums_certify(committee, faulty),
        grows(earlier, later),
        direct_status(committee, earlier, slot) is Commit,
        anchored(later, anchor, slot),
        committee.stake_of(witnesses(history(later, anchor, slot.round)))
            >= committee.quorum_threshold,
    ensures
        history(later, anchor, slot.round).indirect_status(committee, slot) == direct_status(
            committee,
            earlier,
            slot,
        ),
{
    let h = history(later, anchor, slot.round);
    let stakes = committee.stakes@;
    let leader = choose|r: BlockRef| commits(committee, earlier, slot, r);
    assert(fills(earlier, slot, leader));
    earlier.lemma_references();
    later.lemma_references();
    let supporters = children(earlier, leader);
    let seen = witnesses(h);
    let shared = supporters.intersect(seen);
    assert forall|x: AuthorityIndex| #[trigger] shared.contains(x) implies h.voters(leader).union(
        faulty,
    ).contains(x) by {
        let p = choose|p: BlockRef| #[trigger] votes_in(earlier, p, leader) && p.author == x;
        let q = choose|q: BlockRef| #[trigger] reaches_next(h, q) && q.author == x;
        assert(stands_in(later, p, slot.round + 1) && stands_in(later, q, slot.round + 1));
        if !faulty.contains(x) {
            assert(p == q);
            assert(h.votes(q, leader));
        }
    }
    lemma_stake_union(stakes, supporters, seen);
    lemma_stake_within_total(stakes, supporters.union(seen));
    lemma_stake_subset(stakes, shared, h.voters(leader).union(faulty));
    lemma_stake_union(stakes, h.voters(leader), faulty);
    assert(exists|a: AuthorityIndex| #[trigger] h.voters(leader).contains(a)) by {
        if forall|a: AuthorityIndex| !(#[trigger] h.voters(leader).contains(a)) {
            assert(h.voters(leader) =~= Set::empty());
            lemma_stake_empty(stakes);
        }
    }
    assert(h.certifies(committee, leader));
    assert forall|other: BlockRef|
        other.at(slot) && #[trigger] h.certifies(committee, other) implies other == leader by {
        if other != leader {
            lemma_votes_are_accepted(committee, later, anchor, slot, other);
            lemma_rivals(committee, later, slot, faulty, other, leader);
            lemma_kept_votes(committee, earlier, later, leader);
        }
    }
    assert(h.picks(committee, slot, leader));
    let picked = choose|r: BlockRef| h.picks(committee, slot, r);
    assert(picked == leader);
}

/// A block with reference `r` has been accepted at the place of the slot.
pub open spec fn accepted_at(dag: DagState, slot: Slot, r: BlockRef) -> bool {
    dag.blocks().contains_key(r) && r.round == slot.round && r.author == slot.authority
}

/// The direct decision on a slot, by the stakes and the quorum alone. It is made whenever it is
/// due: with a next round of at least the quorum, a block with a quorum of children is
/// committed, and a slot whose blocks all lack a quorum of the next round's stake is skipped.
/// Without such a next round, or with a block that is neither, nothing is decided.
pub proof fn law_direct_decision_is_due(committee: Committee, dag: DagState, slot: Slot)
    requires
        slot.round < u32::MAX,
    ensures
        ({
            let next = (slot.round + 1) as u32;
            let quorum = committee.quorum_threshold;
            let total = dag.rounds()[next].total_stake;
            let status = direct_status(committee, dag, slot);
            &&& !dag.rounds().contains_key(next) ==> status == LeaderStatus::Undecided(slot)
            &&& dag.rounds().contains_key(next) && total < quorum ==> status
                == LeaderStatus::Undecided(slot)
            &&& dag.rounds().contains_key(next) && total >= quorum ==> {
                &&& forall|r: BlockRef| #[trigger]
                    accepted_at(dag, slot, r) && dag.blocks()[r].total_children_stake >= quorum
                        ==> status is Commit
                &&& forall|r: BlockRef| #[trigger]
                    accepted_at(dag, slot, r) && dag.blocks()[r].total_children_stake >= quorum && (
                    forall|other: BlockRef| #[trigger]
                        accepted_at(dag, slot, other) && dag.blocks()[other].total_children_stake
                            >= quorum ==> other == r) ==> status == LeaderStatus::Commit(
                        dag.blocks()[r].block,
                    )
                &&& (forall|r: BlockRef| #[trigger]
                    accepted_at(dag, slot, r) ==> dag.blocks()[r].total_children_stake < quorum
                        && total - dag.blocks()[r].total_children_stake >= quorum) ==> status
                    == LeaderStatus::Skip(slot)
                &&& forall|r: BlockRef| #[trigger]
                    accepted_at(dag, slot, r) && total - dag.blocks()[r].total_children_stake
                        < quorum && (forall|other: BlockRef| #[trigger]
                        accepted_at(dag, slot, other)
                            ==> dag.blocks()[other].total_children_stake < quorum) ==> status
                        == LeaderStatus::Undecided(slot)
            }
        }),
{
    let next = (slot.round + 1) as u32;
    let quorum = committee.quorum_threshold;
    let total = dag.rounds()[next].total_stake;
    let status = direct_status(committee, dag, slot);
    if dag.rounds().contains_key(next) && total >= quorum {
        assert(decidable(committee, dag, slot));
        assert forall|r: BlockRef| #[trigger]
            accepted_at(dag, slot, r) && dag.blocks()[r].total_children_stake >= quorum implies
            commits(committee, dag, slot, r) && status is Commit by {
            assert(fills(dag, slot, r));
        }
        assert forall|r: BlockRef| #[trigger]
            accepted_at(dag, slot, r) && dag.blocks()[r].total_children_stake >= quorum && (forall|
                other: BlockRef,
            | #[trigger]
                accepted_at(dag, slot, other) && dag.blocks()[other].total_children_stake >= quorum
                    ==> other == r) implies status == LeaderStatus::Commit(
            dag.blocks()[r].block,
        ) by {
            assert(commits(committee, dag, slot, r));
            let chosen = choose|c: BlockRef| commits(committee, dag, slot, c);
            assert(commits(committee, dag, slot, chosen));
            assert(accepted_at(dag, slot, chosen));
        }
        if forall|r: BlockRef| #[trigger]
            accepted_at(dag, slot, r) ==> dag.blocks()[r].total_children_stake < quorum {
            assert forall|r: BlockRef| !commits(committee, dag, slot, r) by {
                if commits(committee, dag, slot, r) {
                    assert(accepted_at(dag, slot, r));
                }
            }
            if forall|r: BlockRef| #[trigger]
                accepted_at(dag, slot, r) ==> total - dag.blocks()[r].total_children_stake
                    >= quorum {
                assert forall|r: BlockRef| #[trigger] fills(dag, slot, r) implies blamed(
                    committee,
                    dag,
                    slot,
                    r,
                ) by {
                    assert(accepted_at(dag, slot, r));
                }
            }
            assert forall|r: BlockRef| #[trigger]
                accepted_at(dag, slot, r) && total - dag.blocks()[r].total_children_stake
                    < quorum implies status == LeaderStatus::Undecided(slot) by {
                assert(fills(dag, slot, r) && !blamed(committee, dag, slot, r));
            }
        }
    }
}

/// With a quorum of more than half of the next round, a slot is skipped as soon as all of its
/// blocks lack a quorum of the next round's stake.
pub proof fn law_direct_skip_is_due(committee: Committee, dag: DagState, slot: Slot)
    requires
        slot.round < u32::MAX,
        dag.rounds().contains_key((slot.round + 1) as u32),
        dag.rounds()[(slot.round + 1) as u32].total_stake >= committee.quorum_threshold,
        dag.rounds()[(slot.round + 1) as u32].total_stake < 2 * committee.quorum_threshold,
        forall|r: BlockRef| #[trigger]
            accepted_at(dag, slot, r) ==> dag.rounds()[(slot.round + 1) as u32].total_stake
                - dag.blocks()[r].total_children_stake >= committee.quorum_threshold,
    ensures
        direct_status(committee, dag, slot) == LeaderStatus::Skip(slot),
{
    law_direct_decision_is_due(committee, dag, slot);
}

/// When a direct decision is defined, by the stakes and the quorum alone; in the last round,
/// which no other follows, it is not.
pub proof fn law_directly_sound_by_stakes(committee: Committee, dag: DagState, slot: Slot)
    ensures
        slot.round == u32::MAX ==> !directly_sound(committee, dag, slot),
        slot.round < u32::MAX ==> ({
            let next = (slot.round + 1) as u32;
            let quorum = committee.quorum_threshold;
            let total = dag.rounds()[next].total_stake;
            directly_sound(committee, dag, slot) <==> (!dag.rounds().contains_key(next) || total
                < quorum || {
                &&& forall|r: BlockRef| #[trigger]
                    accepted_at(dag, slot, r) ==> dag.blocks()[r].total_children_stake <= total
                &&& forall|a: BlockRef, b: BlockRef| #[trigger]
                    accepted_at(dag, slot, a) && #[trigger] accepted_at(dag, slot, b)
                        && dag.blocks()[a].total_children_stake >= quorum
                        && dag.blocks()[b].total_children_stake >= quorum ==> a == b
            })
        }),
{
    let next = (slot.round + 1) as u32;
    let quorum = committee.quorum_threshold;
    let total = dag.rounds()[next].total_stake;
    if dag.rounds().contains_key(next) && total >= quorum {
        assert(decidable(committee, dag, slot));
        if directly_sound(committee, dag, slot) {
            assert forall|r: BlockRef| #[trigger] accepted_at(dag, slot, r) implies
                dag.blocks()[r].total_children_stake <= total by {
                assert(fills(dag, slot, r));
            }
            assert forall|a: BlockRef, b: BlockRef| #[trigger]
                accepted_at(dag, slot, a) && #[trigger] accepted_at(dag, slot, b)
                    && dag.blocks()[a].total_children_stake >= quorum
                    && dag.blocks()[b].total_children_stake >= quorum implies a == b by {
                assert(commits(committee, dag, slot, a) && commits(committee, dag, slot, b));
            }
        }
        if (forall|r: BlockRef| #[trigger]
            accepted_at(dag, slot, r) ==> dag.blocks()[r].total_children_stake <= total) && (forall|
            a: BlockRef,
            b: BlockRef,
        | #[trigger]
            accepted_at(dag, slot, a) && #[trigger] accepted_at(dag, slot, b)
                && dag.blocks()[a].total_children_stake >= quorum
                && dag.blocks()[b].total_children_stake >= quorum ==> a == b) {
            assert forall|r: BlockRef| #[trigger] fills(dag, slot, r) implies (next_round_stake(
                dag,
                slot,
            ) matches Some(t) ==> dag.blocks()[r].total_children_stake <= t) by {
                assert(accepted_at(dag, slot, r));
            }
            assert forall|a: BlockRef, b: BlockRef|
                #![trigger commits(committee, dag, slot, a), commits(committee, dag, slot, b)]
                commits(committee, dag, slot, a) && commits(committee, dag, slot, b) implies a
                == b by {
                assert(accepted_at(dag, slot, a) && accepted_at(dag, slot, b));
            }
        }
    }
}

} // verus!
