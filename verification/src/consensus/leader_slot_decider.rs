//! Decisions on leader slots.

use vstd::prelude::*;

use super::block::{AuthorityIndex, BlockRef, LeaderStatus, Round, Slot, Stake, VerifiedBlock};
use super::committee::Committee;
use super::dag_state::{holds, ref_at, DagState};
use super::history::{history, History};
use super::history_search::collect_votes;
use super::vote_tally::{entry, lemma_tallied, tallied, tallies_wf, Tally};

verus! {

/// The block with reference `r` has been accepted in `slot`.
pub open spec fn fills(dag: DagState, slot: Slot, r: BlockRef) -> bool {
    dag.blocks().contains_key(r) && r.at(slot)
}

/// The stake of the round after a slot, once blocks have been accepted there.
pub open spec fn next_round_stake(dag: DagState, slot: Slot) -> Option<Stake> {
    let next = (slot.round + 1) as Round;
    if dag.rounds().contains_key(next) {
        Some(dag.rounds()[next].total_stake)
    } else {
        None
    }
}

/// Enough of the next round has been accepted to decide a slot.
pub open spec fn decidable(committee: Committee, dag: DagState, slot: Slot) -> bool {
    next_round_stake(dag, slot) matches Some(total) && total >= committee.quorum_threshold
}

/// A block of the slot has a quorum of commit votes.
pub open spec fn commits(committee: Committee, dag: DagState, slot: Slot, r: BlockRef) -> bool {
    fills(dag, slot, r) && dag.blocks()[r].total_children_stake >= committee.quorum_threshold
}

/// A block has a quorum of skip votes: the stake of the next round that does not hold it as an
/// ancestor.
pub open spec fn blamed(committee: Committee, dag: DagState, slot: Slot, r: BlockRef) -> bool {
    next_round_stake(dag, slot) matches Some(total) && total - dag.blocks()[r].total_children_stake
        >= committee.quorum_threshold
}

/// The direct decision on a slot.
pub open spec fn direct_status(committee: Committee, dag: DagState, slot: Slot) -> LeaderStatus {
    if !decidable(committee, dag, slot) {
        LeaderStatus::Undecided(slot)
    } else if exists|r: BlockRef| commits(committee, dag, slot, r) {
        LeaderStatus::Commit(
            dag.blocks()[choose|r: BlockRef| commits(committee, dag, slot, r)].block,
        )
    } else if forall|r: BlockRef| #[trigger]
        fills(dag, slot, r) ==> blamed(committee, dag, slot, r) {
        LeaderStatus::Skip(slot)
    } else {
        LeaderStatus::Undecided(slot)
    }
}

/// The votes for each block of the slot are cast by blocks of the next round.
pub open spec fn votes_within_round(dag: DagState, slot: Slot) -> bool {
    forall|r: BlockRef| #[trigger]
        fills(dag, slot, r) ==> (next_round_stake(dag, slot) matches Some(total) ==> dag.blocks()[r].total_children_stake
            <= total)
}

/// At most one block of the slot has a quorum of commit votes.
pub open spec fn one_commit(committee: Committee, dag: DagState, slot: Slot) -> bool {
    forall|a: BlockRef, b: BlockRef|
        #![trigger commits(committee, dag, slot, a), commits(committee, dag, slot, b)]
        commits(committee, dag, slot, a) && commits(committee, dag, slot, b) ==> a == b
}

/// A state meets what a direct decision on a slot rests on: the slot has a next round, and once
/// enough of that is there to decide, the votes are part of it and commit at most one block.
pub open spec fn directly_sound(committee: Committee, dag: DagState, slot: Slot) -> bool {
    &&& slot.round < Round::MAX
    &&& decidable(committee, dag, slot) ==> {
        &&& votes_within_round(dag, slot)
        &&& one_commit(committee, dag, slot)
    }
}

/// The blocks of a slot that a history certifies have been accepted.
pub open spec fn certified_are_stored(committee: Committee, h: History, slot: Slot) -> bool {
    forall|leader: BlockRef|
        leader.at(slot) && #[trigger] h.certifies(committee, leader) ==> h.blocks.contains_key(
            leader,
        )
}

/// The slots and the state meet what an indirect decision rests on: there is a slot, all are of
/// one round, and all that the history of the anchor leads to has been accepted and comes from
/// the committee.
pub open spec fn indirectly_sound(
    committee: Committee,
    dag: DagState,
    anchor: VerifiedBlock,
    slots: Seq<Slot>,
) -> bool {
    let h = history(dag, anchor, slots[0].round);
    &&& slots.len() > 0
    &&& h.is_complete()
    &&& h.has_members(committee)
    &&& forall|i: int|
        0 <= i < slots.len() ==> (#[trigger] slots[i]).round == slots[0].round
            && certified_are_stored(committee, h, slots[i])
}

/// Stateless decision logic for leader slots over the committee and one state of the DAG.
pub struct LeaderSlotDecider<'a> {
    pub committee: &'a Committee,
    pub dag_state: &'a DagState,
}

impl<'a> LeaderSlotDecider<'a> {
    pub fn new(committee: &'a Committee, dag_state: &'a DagState) -> (res: Self)
        ensures
            res.committee == committee,
            res.dag_state == dag_state,
    {
        LeaderSlotDecider { committee, dag_state }
    }

    /// Direct-commit evaluation for `slot`, by the votes of the next round.
    ///
    /// Where enough of the next round is there to decide, the votes for a block are part of
    /// it, and the network meets its fault tolerance assumption: no two blocks of the slot have
    /// a quorum.
    pub fn try_direct_decide(&self, slot: Slot) -> (res: LeaderStatus)
        requires
            self.dag_state.wf(),
            directly_sound(*self.committee, *self.dag_state, slot),
        ensures
            res == direct_status(*self.committee, *self.dag_state, slot),
    {
        match self.checked_direct_decide(slot) {
            Some(status) => status,
            None => LeaderStatus::Undecided(slot),
        }
    }

    /// Direct-commit evaluation for `slot`, or `None` where the state breaks what
    /// [`LeaderSlotDecider::try_direct_decide`] asks of it.
    pub fn checked_direct_decide(&self, slot: Slot) -> (res: Option<LeaderStatus>)
        requires
            self.dag_state.wf(),
        ensures
            res is Some <==> directly_sound(*self.committee, *self.dag_state, slot),
            res matches Some(status) ==> status == direct_status(
                *self.committee,
                *self.dag_state,
                slot,
            ),
    {
        let ghost committee = *self.committee;
        let ghost dag = *self.dag_state;
        if slot.round == u32::MAX {
            return None;
        }
        let next_round_info = match self.dag_state.get_round_info(slot.round + 1) {
            Some(info) => info,
            None => {
                // No block has been accepted in the next round: there are no votes.
                return Some(LeaderStatus::Undecided(slot));
            },
        };
        let quorum = self.committee.quorum_threshold();
        if next_round_info.total_stake < quorum {
            return Some(LeaderStatus::Undecided(slot));
        }
        let block_infos = self.dag_state.get_block_info_at_slot(slot);
        let mut committed: Option<VerifiedBlock> = None;
        let mut num_skipped: usize = 0;
        let mut i: usize = 0;
        while i < block_infos.len()
            invariant
                committee == *self.committee,
                dag == *self.dag_state,
                quorum == committee.quorum_threshold,
                decidable(committee, dag, slot),
                next_round_stake(dag, slot) == Some(next_round_info.total_stake),
                i <= block_infos@.len(),
                num_skipped <= i,
                forall|k: int| 0 <= k < block_infos@.len() ==> {
                    let r = ref_at(block_infos@, k);
                    &&& r.at(slot)
                    &&& dag.blocks().contains_key(r)
                    &&& dag.blocks()[r] == #[trigger] block_infos@[k]
                },
                forall|a: int, b: int|
                    0 <= a < b < block_infos@.len() ==> (#[trigger] ref_at(block_infos@, a)).less(
                        #[trigger] ref_at(block_infos@, b),
                    ),
                forall|k: int|
                    0 <= k < i ==> (#[trigger] block_infos@[k]).total_children_stake
                        <= next_round_info.total_stake,
                match committed {
                    Some(block) => exists|k: int|
                        0 <= k < i && commits(
                            committee,
                            dag,
                            slot,
                            #[trigger] ref_at(block_infos@, k),
                        ) && block == block_infos@[k].block && forall|j: int|
                            0 <= j < i && commits(
                                committee,
                                dag,
                                slot,
                                #[trigger] ref_at(block_infos@, j),
                            ) ==> j == k,
                    None => forall|k: int|
                        0 <= k < i ==> !commits(
                            committee,
                            dag,
                            slot,
                            #[trigger] ref_at(block_infos@, k),
                        ),
                },
                num_skipped == i <==> forall|k: int|
                    0 <= k < i ==> blamed(committee, dag, slot, #[trigger] ref_at(block_infos@, k)),
            decreases block_infos.len() - i,
        {
            let info = &block_infos[i];
            let ghost r = ref_at(block_infos@, i as int);
            assert(dag.blocks()[r] == block_infos@[i as int]);
            assert(fills(dag, slot, r));
            if info.total_children_stake > next_round_info.total_stake {
                assert(!votes_within_round(dag, slot));
                return None;
            }
            if info.total_children_stake >= quorum {
                assert(commits(committee, dag, slot, r));
                if committed.is_some() {
                    proof {
                        let k = choose|k: int|
                            0 <= k < i && commits(
                                committee,
                                dag,
                                slot,
                                #[trigger] ref_at(block_infos@, k),
                            );
                        assert(ref_at(block_infos@, k).less(r));
                        assert(!one_commit(committee, dag, slot));
                    }
                    return None;
                }
                committed = Some(info.block.clone());
            }
            if next_round_info.total_stake - info.total_children_stake >= quorum {
                num_skipped += 1;
            }
            i += 1;
        }
        proof {
            assert forall|r: BlockRef| #[trigger] fills(dag, slot, r) implies exists|k: int|
                0 <= k < block_infos@.len() && #[trigger] ref_at(block_infos@, k) == r by {
                assert(dag.blocks().contains_key(r) && r.at(slot));
                assert(holds(block_infos@, r));
            }
            assert forall|r: BlockRef| #[trigger] fills(dag, slot, r) implies (next_round_stake(
                dag,
                slot,
            ) matches Some(total) ==> dag.blocks()[r].total_children_stake <= total) by {
                let k = choose|k: int|
                    0 <= k < block_infos@.len() && #[trigger] ref_at(block_infos@, k) == r;
                assert(dag.blocks()[r] == block_infos@[k]);
            }
            assert forall|a: BlockRef, b: BlockRef|
                #![trigger commits(committee, dag, slot, a), commits(committee, dag, slot, b)]
                commits(committee, dag, slot, a) && commits(committee, dag, slot, b) implies a
                == b by {
                assert(fills(dag, slot, a) && fills(dag, slot, b));
                let j = choose|k: int|
                    0 <= k < block_infos@.len() && #[trigger] ref_at(block_infos@, k) == a;
                let k = choose|k: int|
                    0 <= k < block_infos@.len() && #[trigger] ref_at(block_infos@, k) == b;
                assert(commits(committee, dag, slot, ref_at(block_infos@, j)));
                assert(commits(committee, dag, slot, ref_at(block_infos@, k)));
            }
        }
        if let Some(block) = committed {
            proof {
                let k = choose|k: int|
                    0 <= k < block_infos@.len() && commits(
                        committee,
                        dag,
                        slot,
                        #[trigger] ref_at(block_infos@, k),
                    ) && block == block_infos@[k].block;
                let r = ref_at(block_infos@, k);
                assert(commits(committee, dag, slot, r));
                assert(dag.blocks()[r] == block_infos@[k]);
            }
            return Some(LeaderStatus::Commit(block));
        }
        proof {
            assert forall|r: BlockRef| !commits(committee, dag, slot, r) by {
                if commits(committee, dag, slot, r) {
                    assert(fills(dag, slot, r));
                }
            }
        }
        if num_skipped == block_infos.len() {
            proof {
                assert forall|r: BlockRef| #[trigger] fills(dag, slot, r) implies blamed(
                    committee,
                    dag,
                    slot,
                    r,
                ) by {
                    let k = choose|k: int|
                        0 <= k < block_infos@.len() && #[trigger] ref_at(block_infos@, k) == r;
                    assert(blamed(committee, dag, slot, ref_at(block_infos@, k)));
                }
            }
            return Some(LeaderStatus::Skip(slot));
        }
        proof {
            let k = choose|k: int|
                0 <= k < block_infos@.len() && !blamed(
                    committee,
                    dag,
                    slot,
                    #[trigger] ref_at(block_infos@, k),
                );
            let r = ref_at(block_infos@, k);
            assert(dag.blocks()[r] == block_infos@[k]);
            assert(fills(dag, slot, r) && !blamed(committee, dag, slot, r));
        }
        Some(LeaderStatus::Undecided(slot))
    }

    /// Indirect-commit evaluation for every slot of `decision_round_slots`, which all belong to
    /// one round. The history of `anchor_block` is walked once and gives the votes for each
    /// block of the round; a slot is committed with the first block, by digest, whose votes
    /// reach the certification threshold, and skipped where there is none. The statuses come in
    /// the order of the slots, and none is undecided.
    ///
    /// Every block that the walk meets has been accepted, and those that vote were made by
    /// members of the committee.
    pub fn try_indirect_decide(
        &self,
        anchor_block: &VerifiedBlock,
        decision_round_slots: &[Slot],
    ) -> (res: Vec<LeaderStatus>)
        requires
            self.committee.wf(),
            self.dag_state.wf(),
            indirectly_sound(
                *self.committee,
                *self.dag_state,
                *anchor_block,
                decision_round_slots@,
            ),
        ensures
            res@.len() == decision_round_slots@.len(),
            forall|i: int|
                0 <= i < decision_round_slots@.len() ==> #[trigger] res@[i] == history(
                    *self.dag_state,
                    *anchor_block,
                    decision_round_slots@[0].round,
                ).indirect_status(*self.committee, decision_round_slots@[i]),
            forall|i: int| 0 <= i < res@.len() ==> #[trigger] res@[i] !is Undecided,
    {
        match self.checked_indirect_decide(anchor_block, decision_round_slots) {
            Some(statuses) => statuses,
            None => Vec::new(),
        }
    }

    /// Indirect-commit evaluation for every slot of `decision_round_slots`, or `None` where the
    /// slots or the state break what [`LeaderSlotDecider::try_indirect_decide`] asks of them.
    pub fn checked_indirect_decide(
        &self,
        anchor_block: &VerifiedBlock,
        decision_round_slots: &[Slot],
    ) -> (res: Option<Vec<LeaderStatus>>)
        requires
            self.committee.wf(),
            self.dag_state.wf(),
        ensures
            res is Some <==> indirectly_sound(
                *self.committee,
                *self.dag_state,
                *anchor_block,
                decision_round_slots@,
            ),
            res matches Some(statuses) ==> {
                &&& statuses@.len() == decision_round_slots@.len()
                &&& forall|i: int|
                    0 <= i < decision_round_slots@.len() ==> #[trigger] statuses@[i] == history(
                        *self.dag_state,
                        *anchor_block,
                        decision_round_slots@[0].round,
                    ).indirect_status(*self.committee, decision_round_slots@[i])
            },
    {
        if decision_round_slots.len() == 0 {
            return None;
        }
        let decision_round = decision_round_slots[0].round;
        let ghost h = history(*self.dag_state, *anchor_block, decision_round);
        let tallies = match collect_votes(
            self.committee,
            self.dag_state,
            anchor_block,
            decision_round,
        ) {
            Some(tallies) => tallies,
            None => {
                return None;
            },
        };
        let mut statuses: Vec<LeaderStatus> = Vec::new();
        let mut i: usize = 0;
        while i < decision_round_slots.len()
            invariant
                self.dag_state.wf(),
                h == history(*self.dag_state, *anchor_block, decision_round),
                i <= decision_round_slots@.len(),
                statuses@.len() == i,
                decision_round_slots@.len() > 0,
                decision_round == decision_round_slots@[0].round,
                tallies_wf(tallies@, *self.committee),
                forall|leader: BlockRef| #[trigger]
                    tallied(tallies@, leader) == h.voters(leader),
                forall|k: int|
                    0 <= k < i ==> (#[trigger] decision_round_slots@[k]).round == decision_round
                        && certified_are_stored(*self.committee, h, decision_round_slots@[k]),
                forall|k: int|
                    0 <= k < i ==> #[trigger] statuses@[k] == h.indirect_status(
                        *self.committee,
                        decision_round_slots@[k],
                    ),
            decreases decision_round_slots.len() - i,
        {
            let slot = decision_round_slots[i];
            assert(slot == decision_round_slots@[i as int]);
            if slot.round != decision_round {
                return None;
            }
            match self.decide_by_votes(&tallies, slot, Ghost(h)) {
                Some(status) => {
                    statuses.push(status);
                },
                None => {
                    return None;
                },
            }
            i += 1;
        }
        Some(statuses)
    }

    /// The decision on a slot by the votes that have been collected, unless a certified block
    /// of the slot has not been accepted.
    fn decide_by_votes(&self, tallies: &Vec<Tally>, slot: Slot, h: Ghost<History>) -> (res: Option<
        LeaderStatus,
    >)
        requires
            self.dag_state.wf(),
            h@.blocks == self.dag_state.blocks(),
            tallies_wf(tallies@, *self.committee),
            forall|leader: BlockRef| #[trigger] tallied(tallies@, leader) == h@.voters(leader),
        ensures
            res is Some <==> certified_are_stored(*self.committee, h@, slot),
            res matches Some(status) ==> status == h@.indirect_status(*self.committee, slot),
    {
        let threshold = self.committee.certification_threshold();
        let mut best: Option<VerifiedBlock> = None;
        let mut i: usize = 0;
        while i < tallies.len()
            invariant
                self.dag_state.wf(),
                h@.blocks == self.dag_state.blocks(),
                i <= tallies@.len(),
                threshold == self.committee.certification_threshold,
                tallies_wf(tallies@, *self.committee),
                forall|leader: BlockRef| #[trigger] tallied(tallies@, leader) == h@.voters(leader),
                match best {
                    Some(b) => {
                        &&& b.spec_reference().at(slot)
                        &&& h@.certifies(*self.committee, b.spec_reference())
                        &&& b == h@.blocks[b.spec_reference()].block
                    },
                    None => true,
                },
                forall|k: int|
                    0 <= k < i && (#[trigger] tallies@[k]).leader.at(slot) && h@.certifies(
                        *self.committee,
                        tallies@[k].leader,
                    ) ==> {
                        &&& h@.blocks.contains_key(tallies@[k].leader)
                        &&& best matches Some(b) && !tallies@[k].leader.digest.less(
                            b.spec_reference().digest,
                        )
                    },
            decreases tallies.len() - i,
        {
            let tally = &tallies[i];
            proof {
                lemma_tallied(tallies@, *self.committee, i as int);
                assert(tallied(tallies@, tally.leader) == h@.voters(tally.leader));
                self.dag_state.lemma_references();
            }
            if tally.leader.round == slot.round && tally.leader.author == slot.authority
                && tally.stake >= threshold {
                assert(h@.certifies(*self.committee, tally.leader));
                let block = match self.dag_state.get_block(&tally.leader) {
                    Some(block) => block,
                    None => {
                        return None;
                    },
                };
                let better: bool = match &best {
                    Some(b) => tally.leader.digest.is_less(&b.reference().digest),
                    None => true,
                };
                if better {
                    best = Some(block);
                }
            }
            i += 1;
        }
        proof {
            assert forall|leader: BlockRef|
                leader.at(slot) && #[trigger] h@.certifies(*self.committee, leader) implies
                h@.blocks.contains_key(leader) && (best matches Some(b) && !leader.digest.less(
                b.spec_reference().digest,
            )) by {
                assert(tallied(tallies@, leader) == h@.voters(leader));
                let a = choose|a: AuthorityIndex| #[trigger] h@.voters(leader).contains(a);
                assert(tallied(tallies@, leader).contains(a));
                let k = entry(tallies@, leader);
                assert(tallies@[k].leader == leader);
            }
        }
        match best {
            Some(block) => {
                proof {
                    let leader = block.spec_reference();
                    assert(h@.picks(*self.committee, slot, leader));
                    let chosen = choose|l: BlockRef| h@.picks(*self.committee, slot, l);
                    assert(h@.certifies(*self.committee, chosen));
                    assert(chosen == leader);
                }
                Some(LeaderStatus::Commit(block))
            },
            None => {
                proof {
                    assert forall|l: BlockRef| !h@.picks(*self.committee, slot, l) by {
                        if h@.picks(*self.committee, slot, l) {
                            assert(h@.certifies(*self.committee, l));
                        }
                    }
                }
                Some(LeaderStatus::Skip(slot))
            },
        }
    }
}

} // verus!
