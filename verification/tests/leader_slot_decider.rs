use sui_logic::consensus::block::{
    AuthorityIndex, BlockDigest, BlockRef, LeaderStatus, Slot, VerifiedBlock,
};
use sui_logic::consensus::committee::Committee;
use sui_logic::consensus::dag_state::{BlockInfo, DagState, RoundInfo};
use sui_logic::consensus::leader_slot_decider::LeaderSlotDecider;

fn committee(num_authorities: usize) -> Committee {
    Committee {
        stakes: vec![1; num_authorities],
        quorum_threshold: 3,
        certification_threshold: 2,
    }
}

fn slot(round: u32, authority: u32) -> Slot {
    Slot { round, authority: AuthorityIndex(authority) }
}

fn block_ref(round: u32, author: u32, digest: u128) -> BlockRef {
    BlockRef {
        round,
        author: AuthorityIndex(author),
        digest: BlockDigest { high: 0, low: digest },
    }
}

fn slot_of(r: &BlockRef) -> Slot {
    Slot { round: r.round, authority: r.author }
}

/// Accepts a block of one unit of stake, and counts it with its ancestors and in its round.
fn accept(dag_state: &mut DagState, reference: BlockRef, ancestors: &[BlockRef]) {
    for ancestor in ancestors {
        for info in dag_state.get_block_info_at_slot(slot_of(ancestor)) {
            if info.block.reference() == *ancestor && ancestor.round + 1 == reference.round {
                dag_state.set_block_info(BlockInfo {
                    block: info.block.clone(),
                    total_children_stake: info.total_children_stake + 1,
                });
            }
        }
    }
    dag_state.set_block_info(BlockInfo {
        block: VerifiedBlock::new(reference, ancestors.to_vec()),
        total_children_stake: 0,
    });
    let total_stake = match dag_state.get_round_info(reference.round) {
        Some(info) => info.total_stake + 1,
        None => 1,
    };
    dag_state.set_round_info(reference.round, RoundInfo { total_stake });
}

/// Accepts full rounds, each connected to all of the one before, up to `stop`.
fn build_dag(
    committee: &Committee,
    dag_state: &mut DagState,
    start: Option<Vec<BlockRef>>,
    stop: u32,
) -> Vec<BlockRef> {
    let mut ancestors = start.unwrap_or_default();
    let first = ancestors.first().map_or(1, |r| r.round + 1);
    for round in first..=stop {
        let mut layer = vec![];
        for author in 0..committee.stakes.len() as u32 {
            let reference = block_ref(round, author, 7);
            accept(dag_state, reference, &ancestors);
            layer.push(reference);
        }
        ancestors = layer;
    }
    ancestors
}

fn without_leader(refs: &[BlockRef], leader: u32) -> Vec<BlockRef> {
    refs.iter().copied().filter(|r| r.author != AuthorityIndex(leader)).collect()
}

/// A fully connected round 2 commits the round-1 leader directly.
#[test]
fn try_direct_decide_commit() {
    let committee = committee(4);
    let mut dag_state = DagState::new();
    build_dag(&committee, &mut dag_state, None, 2);

    let slot = slot(1, 0);
    let status = LeaderSlotDecider::new(&committee, &dag_state).try_direct_decide(slot);

    match status {
        LeaderStatus::Commit(block) => {
            assert_eq!(block.author(), slot.authority);
            assert_eq!(block.round(), slot.round);
        }
        other => panic!("Expected Commit, got {other:?}"),
    }
}

/// When every round-2 block omits the round-1 leader, it is directly skipped.
#[test]
fn try_direct_decide_skip() {
    let committee = committee(4);
    let mut dag_state = DagState::new();
    let refs_round_1 = build_dag(&committee, &mut dag_state, None, 1);
    let refs_without_leader = without_leader(&refs_round_1, 0);
    build_dag(&committee, &mut dag_state, Some(refs_without_leader), 2);

    let slot = slot(1, 0);
    let status = LeaderSlotDecider::new(&committee, &dag_state).try_direct_decide(slot);

    match status {
        LeaderStatus::Skip(s) => assert_eq!(s, slot),
        other => panic!("Expected Skip, got {other:?}"),
    }
}

/// Without a next round of blocks, no decision is possible.
#[test]
fn try_direct_decide_undecided_no_next_round() {
    let committee = committee(4);
    let mut dag_state = DagState::new();
    build_dag(&committee, &mut dag_state, None, 1);

    let slot = slot(1, 0);
    let status = LeaderSlotDecider::new(&committee, &dag_state).try_direct_decide(slot);

    match status {
        LeaderStatus::Undecided(s) => assert_eq!(s, slot),
        other => panic!("Expected Undecided, got {other:?}"),
    }
}

/// Round 2 has neither quorum-many votes for nor quorum-many blames against the leader.
#[test]
fn try_direct_decide_undecided_split() {
    let committee = committee(4);
    let mut dag_state = DagState::new();
    let refs_round_1 = build_dag(&committee, &mut dag_state, None, 1);
    let refs_without_leader = without_leader(&refs_round_1, 0);
    // Two blocks of round 2 vote for the leader, two omit it: neither side has a quorum.
    for author in 0..2 {
        accept(&mut dag_state, block_ref(2, author, 7), &refs_round_1);
    }
    for author in 2..4 {
        accept(&mut dag_state, block_ref(2, author, 7), &refs_without_leader);
    }

    let slot = slot(1, 0);
    let status = LeaderSlotDecider::new(&committee, &dag_state).try_direct_decide(slot);

    match status {
        LeaderStatus::Undecided(s) => assert_eq!(s, slot),
        other => panic!("Expected Undecided, got {other:?}"),
    }
}

/// An anchor whose causal history includes the round-1 leader certifies it indirectly.
#[test]
fn try_indirect_decide_commit() {
    let committee = committee(4);
    let mut dag_state = DagState::new();
    let refs_round_4 = build_dag(&committee, &mut dag_state, None, 4);
    let anchor = dag_state.get_block(&refs_round_4[0]).unwrap();

    let slot = slot(1, 0);
    let statuses =
        LeaderSlotDecider::new(&committee, &dag_state).try_indirect_decide(&anchor, &[slot]);

    assert_eq!(statuses.len(), 1);
    match statuses.into_iter().next().unwrap() {
        LeaderStatus::Commit(block) => {
            assert_eq!(block.author(), slot.authority);
            assert_eq!(block.round(), slot.round);
        }
        other => panic!("Expected Commit, got {other:?}"),
    }
}

/// No round-2 block references the round-1 leader, so the anchor's history does not certify it.
#[test]
fn try_indirect_decide_skip() {
    let committee = committee(4);
    let mut dag_state = DagState::new();
    let refs_round_1 = build_dag(&committee, &mut dag_state, None, 1);
    let refs_without_leader = without_leader(&refs_round_1, 0);
    let refs_round_2 = build_dag(&committee, &mut dag_state, Some(refs_without_leader), 2);
    let refs_round_3 = build_dag(&committee, &mut dag_state, Some(refs_round_2), 3);
    let anchor = dag_state.get_block(&refs_round_3[0]).unwrap();

    let slot = slot(1, 0);
    let statuses =
        LeaderSlotDecider::new(&committee, &dag_state).try_indirect_decide(&anchor, &[slot]);

    assert_eq!(statuses.len(), 1);
    match statuses.into_iter().next().unwrap() {
        LeaderStatus::Skip(s) => assert_eq!(s, slot),
        other => panic!("Expected Skip, got {other:?}"),
    }
}

/// One call covers multiple slots at the same decision round; each slot is decided
/// independently against the same votes.
#[test]
fn try_indirect_decide_multi_slot() {
    let committee = committee(4);
    let mut dag_state = DagState::new();
    let refs_round_1 = build_dag(&committee, &mut dag_state, None, 1);
    let refs_without_leader_0 = without_leader(&refs_round_1, 0);
    let refs_round_2 = build_dag(&committee, &mut dag_state, Some(refs_without_leader_0), 2);
    let refs_round_3 = build_dag(&committee, &mut dag_state, Some(refs_round_2), 3);
    let anchor = dag_state.get_block(&refs_round_3[0]).unwrap();

    let slots = vec![slot(1, 0), slot(1, 1)];
    let statuses =
        LeaderSlotDecider::new(&committee, &dag_state).try_indirect_decide(&anchor, &slots);

    assert_eq!(statuses.len(), 2);
    let mut iter = statuses.into_iter();
    // (1, 0) is never referenced.
    match iter.next().unwrap() {
        LeaderStatus::Skip(s) => assert_eq!(s, slots[0]),
        other => panic!("Expected Skip(1,0), got {other:?}"),
    }
    // (1, 1) is referenced by all 4 round-2 blocks.
    match iter.next().unwrap() {
        LeaderStatus::Commit(block) => {
            assert_eq!(block.author(), slots[1].authority);
            assert_eq!(block.round(), slots[1].round);
        }
        other => panic!("Expected Commit(1,1), got {other:?}"),
    }
}

/// A next round below the quorum decides nothing, even where all of it votes.
#[test]
fn direct_decision_waits_for_a_quorum() {
    let committee = committee(4);
    let mut dag_state = DagState::new();
    let refs_round_1 = build_dag(&committee, &mut dag_state, None, 1);
    accept(&mut dag_state, block_ref(2, 0, 7), &refs_round_1);
    accept(&mut dag_state, block_ref(2, 1, 7), &refs_round_1);
    let decider = LeaderSlotDecider::new(&committee, &dag_state);
    assert_eq!(decider.try_direct_decide(slot(1, 0)), LeaderStatus::Undecided(slot(1, 0)));
}

/// A slot without blocks is skipped once the next round has a quorum, and stays skipped when a
/// block arrives late.
#[test]
fn empty_slot_is_skipped_for_good() {
    let committee = committee(4);
    let mut dag_state = DagState::new();
    let refs_round_1: Vec<BlockRef> = (1..4).map(|a| block_ref(1, a, 7)).collect();
    for r in &refs_round_1 {
        accept(&mut dag_state, *r, &[]);
    }
    for author in 0..3 {
        accept(&mut dag_state, block_ref(2, author, 7), &refs_round_1);
    }
    let skip = LeaderStatus::Skip(slot(1, 0));
    assert_eq!(LeaderSlotDecider::new(&committee, &dag_state).try_direct_decide(slot(1, 0)), skip);

    let late = block_ref(1, 0, 7);
    accept(&mut dag_state, late, &[]);
    let mut all = refs_round_1.clone();
    all.push(late);
    accept(&mut dag_state, block_ref(2, 3, 7), &all);
    let refs_round_2: Vec<BlockRef> = (0..4).map(|a| block_ref(2, a, 7)).collect();
    accept(&mut dag_state, block_ref(3, 0, 7), &refs_round_2);
    let anchor = dag_state.get_block(&block_ref(3, 0, 7)).unwrap();
    let decider = LeaderSlotDecider::new(&committee, &dag_state);
    assert_eq!(decider.try_direct_decide(slot(1, 0)), LeaderStatus::Skip(slot(1, 0)));
    assert_eq!(
        decider.try_indirect_decide(&anchor, &[slot(1, 0)]),
        vec![LeaderStatus::Skip(slot(1, 0))]
    );
}

/// A direct commit stays when more of the next round arrives, and every anchor agrees with it.
#[test]
fn direct_commit_stays_and_anchors_agree() {
    let committee = committee(4);
    let mut dag_state = DagState::new();
    let refs_round_1 = build_dag(&committee, &mut dag_state, None, 1);
    for author in 0..3 {
        accept(&mut dag_state, block_ref(2, author, 7), &refs_round_1);
    }
    let leader = dag_state.get_block(&block_ref(1, 0, 7)).unwrap();
    assert_eq!(
        LeaderSlotDecider::new(&committee, &dag_state).try_direct_decide(slot(1, 0)),
        LeaderStatus::Commit(leader.clone())
    );
    accept(&mut dag_state, block_ref(2, 3, 7), &without_leader(&refs_round_1, 0));
    let seen: Vec<BlockRef> = (1..4).map(|a| block_ref(2, a, 7)).collect();
    accept(&mut dag_state, block_ref(3, 2, 7), &seen);
    let anchor = dag_state.get_block(&block_ref(3, 2, 7)).unwrap();
    let decider = LeaderSlotDecider::new(&committee, &dag_state);
    assert_eq!(decider.try_direct_decide(slot(1, 0)), LeaderStatus::Commit(leader.clone()));
    assert_eq!(
        decider.try_indirect_decide(&anchor, &[slot(1, 0)]),
        vec![LeaderStatus::Commit(leader)]
    );
}

/// Two votes of one authority count once.
#[test]
fn equivocating_voter_counts_once() {
    let committee = committee(4);
    let mut dag_state = DagState::new();
    let leader = block_ref(1, 0, 7);
    accept(&mut dag_state, leader, &[]);
    accept(&mut dag_state, block_ref(2, 1, 1), &[leader]);
    accept(&mut dag_state, block_ref(2, 1, 2), &[leader]);
    let anchor = VerifiedBlock::new(
        block_ref(3, 0, 7),
        vec![block_ref(2, 1, 1), block_ref(2, 1, 2)],
    );
    let statuses = LeaderSlotDecider::new(&committee, &dag_state)
        .try_indirect_decide(&anchor, &[slot(1, 0)]);
    assert_eq!(statuses, vec![LeaderStatus::Skip(slot(1, 0))]);
}

/// Of two certified blocks of a slot the one with the smaller digest is committed.
#[test]
fn first_certified_block_is_picked() {
    let committee = committee(4);
    let mut dag_state = DagState::new();
    let high = block_ref(1, 0, 9);
    let low = block_ref(1, 0, 3);
    accept(&mut dag_state, high, &[]);
    accept(&mut dag_state, low, &[]);
    for author in 0..2 {
        accept(&mut dag_state, block_ref(2, author, 7), &[high]);
    }
    for author in 2..4 {
        accept(&mut dag_state, block_ref(2, author, 7), &[low]);
    }
    let votes: Vec<BlockRef> = (0..4).map(|a| block_ref(2, a, 7)).collect();
    let anchor = VerifiedBlock::new(block_ref(3, 0, 7), votes);
    let statuses = LeaderSlotDecider::new(&committee, &dag_state)
        .try_indirect_decide(&anchor, &[slot(1, 0)]);
    assert_eq!(
        statuses,
        vec![LeaderStatus::Commit(dag_state.get_block(&low).unwrap())]
    );
}

/// Votes outside the history of the anchor do not count, and a leader that is reached through
/// blocks of later rounds only has no votes.
#[test]
fn only_votes_of_the_next_round_in_the_history_count() {
    let committee = committee(4);
    let mut dag_state = DagState::new();
    let leader = block_ref(1, 0, 7);
    accept(&mut dag_state, leader, &[]);
    for author in 0..4 {
        accept(&mut dag_state, block_ref(2, author, 7), &[leader]);
    }
    let anchor = VerifiedBlock::new(block_ref(3, 0, 7), vec![block_ref(2, 0, 7), leader]);
    let statuses = LeaderSlotDecider::new(&committee, &dag_state)
        .try_indirect_decide(&anchor, &[slot(1, 0)]);
    assert_eq!(statuses, vec![LeaderStatus::Skip(slot(1, 0))]);
}

/// An anchor of the next round votes itself.
#[test]
fn anchor_itself_votes() {
    let committee = Committee {
        stakes: vec![1, 2, 1, 1],
        quorum_threshold: 4,
        certification_threshold: 2,
    };
    let mut dag_state = DagState::new();
    let leader = block_ref(1, 0, 7);
    accept(&mut dag_state, leader, &[]);
    let anchor = VerifiedBlock::new(block_ref(2, 1, 7), vec![leader]);
    let statuses = LeaderSlotDecider::new(&committee, &dag_state)
        .try_indirect_decide(&anchor, &[slot(1, 0), slot(1, 2)]);
    assert_eq!(
        statuses,
        vec![
            LeaderStatus::Commit(dag_state.get_block(&leader).unwrap()),
            LeaderStatus::Skip(slot(1, 2)),
        ]
    );
}

/// Blocks are found by reference and by slot, in the order of their digests.
#[test]
fn dag_state_finds_blocks() {
    let mut dag_state = DagState::new();
    accept(&mut dag_state, block_ref(2, 1, 5), &[]);
    accept(&mut dag_state, block_ref(2, 1, 4), &[]);
    accept(&mut dag_state, block_ref(2, 0, 9), &[]);
    accept(&mut dag_state, block_ref(1, 1, 1), &[]);
    assert_eq!(dag_state.len(), 4);
    let digests: Vec<u128> = dag_state
        .get_block_info_at_slot(slot(2, 1))
        .iter()
        .map(|info| info.block.reference().digest.low)
        .collect();
    assert_eq!(digests, vec![4, 5]);
    assert!(dag_state.get_block(&block_ref(2, 1, 6)).is_none());
    assert_eq!(
        dag_state.get_block(&block_ref(2, 0, 9)).unwrap().reference(),
        block_ref(2, 0, 9)
    );
    assert_eq!(dag_state.get_round_info(2), Some(RoundInfo { total_stake: 3 }));
    assert_eq!(dag_state.get_round_info(3), None);
}

/// States and slots that a decision cannot rest on are told apart.
#[test]
fn unsound_direct_decisions_are_refused() {
    let committee = committee(4);
    let mut dag_state = DagState::new();
    let first = block_ref(1, 0, 1);
    let second = block_ref(1, 0, 2);
    for (reference, total_children_stake) in [(first, 3), (second, 3)] {
        dag_state.set_block_info(BlockInfo {
            block: VerifiedBlock::new(reference, vec![]),
            total_children_stake,
        });
    }
    dag_state.set_round_info(2, RoundInfo { total_stake: 2 });
    assert_eq!(
        LeaderSlotDecider::new(&committee, &dag_state).checked_direct_decide(slot(1, 0)),
        Some(LeaderStatus::Undecided(slot(1, 0)))
    );
    // Two blocks with a quorum.
    dag_state.set_round_info(2, RoundInfo { total_stake: 4 });
    let decider = LeaderSlotDecider::new(&committee, &dag_state);
    assert_eq!(decider.checked_direct_decide(slot(1, 0)), None);
    assert_eq!(decider.checked_direct_decide(slot(u32::MAX, 0)), None);
    // More votes than the next round has stake.
    dag_state.set_block_info(BlockInfo {
        block: VerifiedBlock::new(first, vec![]),
        total_children_stake: 5,
    });
    dag_state.set_block_info(BlockInfo {
        block: VerifiedBlock::new(second, vec![]),
        total_children_stake: 0,
    });
    assert_eq!(
        LeaderSlotDecider::new(&committee, &dag_state).checked_direct_decide(slot(1, 0)),
        None
    );
}

#[test]
fn unsound_indirect_decisions_are_refused() {
    let committee = committee(4);
    let mut dag_state = DagState::new();
    let refs = build_dag(&committee, &mut dag_state, None, 3);
    let anchor = dag_state.get_block(&refs[0]).unwrap();
    let decider = LeaderSlotDecider::new(&committee, &dag_state);
    assert_eq!(decider.checked_indirect_decide(&anchor, &[]), None);
    assert_eq!(decider.checked_indirect_decide(&anchor, &[slot(1, 0), slot(2, 0)]), None);
    assert!(decider.checked_indirect_decide(&anchor, &[slot(1, 0)]).is_some());
    // A block that has not been accepted.
    let stray = VerifiedBlock::new(block_ref(4, 0, 7), vec![block_ref(3, 0, 8)]);
    assert_eq!(decider.checked_indirect_decide(&stray, &[slot(1, 0)]), None);
    // Below the round it does not matter.
    assert_eq!(
        decider.checked_indirect_decide(&stray, &[slot(4, 0)]),
        Some(vec![LeaderStatus::Skip(slot(4, 0))])
    );
    // A vote from outside the committee.
    let outsider = VerifiedBlock::new(block_ref(2, 9, 7), vec![block_ref(1, 0, 7)]);
    assert_eq!(decider.checked_indirect_decide(&outsider, &[slot(1, 0)]), None);
}

#[test]
fn committee_that_does_not_fit_is_refused() {
    assert!(Committee::new(vec![u64::MAX, 1], 1, 1).is_none());
    let committee = Committee::new(vec![u64::MAX - 1, 1], 2, 1).unwrap();
    assert_eq!(committee.stake(AuthorityIndex(1)), 1);
    assert_eq!(committee.quorum_threshold(), 2);
    assert_eq!(committee.certification_threshold(), 1);
    assert!(committee.is_member(AuthorityIndex(1)));
    assert!(!committee.is_member(AuthorityIndex(2)));
}
