//! The causal history of an anchor block.

use vstd::prelude::*;

use super::block::{AuthorityIndex, BlockRef, LeaderStatus, Round, Slot, VerifiedBlock};
use super::committee::Committee;
use super::dag_state::{BlockInfo, DagState};

verus! {

/// The causal history of an anchor down to a round.
pub struct History {
    pub blocks: Map<BlockRef, BlockInfo>,
    pub anchor: VerifiedBlock,
    pub round: Round,
}

impl History {
    /// The block with reference `r`.
    pub open spec fn block(self, r: BlockRef) -> VerifiedBlock {
        if r == self.anchor.spec_reference() {
            self.anchor
        } else {
            self.blocks[r].block
        }
    }

    /// The block `from` holds `to` as an ancestor, and `to` is not below the round.
    pub open spec fn edge(self, from: BlockRef, to: BlockRef) -> bool {
        self.block(from).spec_ancestors().contains(to) && to.round >= self.round
    }

    /// A walk from the anchor along ancestors.
    pub open spec fn is_path(self, path: Seq<BlockRef>) -> bool {
        &&& path.len() > 0
        &&& path[0] == self.anchor.spec_reference()
        &&& forall|i: int| 0 <= i < path.len() - 1 ==> self.edge(#[trigger] path[i], path[i + 1])
    }

    /// The block with reference `r` is the anchor or belongs to its causal history.
    pub open spec fn reaches(self, r: BlockRef) -> bool {
        exists|path: Seq<BlockRef>| #[trigger] self.is_path(path) && path.last() == r
    }

    /// A block of the history votes for a leader of the round: it is of the next round and
    /// holds the leader as an ancestor.
    pub open spec fn votes(self, r: BlockRef, leader: BlockRef) -> bool {
        self.reaches(r) && is_vote(self.block(r), self.round, leader)
    }

    /// The authorities that vote for a leader in the history.
    pub open spec fn voters(self, leader: BlockRef) -> Set<AuthorityIndex> {
        Set::new(
            |a: AuthorityIndex|
                exists|r: BlockRef| #[trigger]
                    self.votes(r, leader) && self.block(r).spec_reference().author == a,
        )
    }

    /// A leader has enough votes in the history to be committed.
    pub open spec fn certifies(self, committee: Committee, leader: BlockRef) -> bool {
        &&& exists|a: AuthorityIndex| #[trigger] self.voters(leader).contains(a)
        &&& committee.stake_of(self.voters(leader)) >= committee.certification_threshold
    }

    /// A leader of a slot is certified, and no certified one of the slot has a smaller digest.
    pub open spec fn picks(self, committee: Committee, slot: Slot, leader: BlockRef) -> bool {
        &&& leader.at(slot)
        &&& self.certifies(committee, leader)
        &&& forall|other: BlockRef|
            other.at(slot) && #[trigger] self.certifies(committee, other) ==> !other.digest.less(
                leader.digest,
            )
    }

    /// The indirect decision on a slot of the round.
    pub open spec fn indirect_status(self, committee: Committee, slot: Slot) -> LeaderStatus {
        if exists|leader: BlockRef| self.picks(committee, slot, leader) {
            LeaderStatus::Commit(
                self.blocks[choose|leader: BlockRef| self.picks(committee, slot, leader)].block,
            )
        } else {
            LeaderStatus::Skip(slot)
        }
    }

    /// Every block of the history but the anchor has been accepted.
    pub open spec fn is_complete(self) -> bool {
        forall|r: BlockRef| #[trigger]
            self.reaches(r) && r != self.anchor.spec_reference() ==> self.blocks.contains_key(r)
    }

    /// Those who vote in the history are members of the committee.
    pub open spec fn has_members(self, committee: Committee) -> bool {
        forall|r: BlockRef, leader: BlockRef| #[trigger]
            self.votes(r, leader) ==> committee.has(self.block(r).spec_reference().author)
    }
}

/// A block of the round after `round` holds a leader of `round` as an ancestor.
pub open spec fn is_vote(block: VerifiedBlock, round: Round, leader: BlockRef) -> bool {
    &&& block.spec_reference().round == round + 1
    &&& leader.round == round
    &&& block.spec_ancestors().contains(leader)
}

/// The causal history of `anchor` in a state of the DAG, down to `round`.
pub open spec fn history(dag: DagState, anchor: VerifiedBlock, round: Round) -> History {
    History { blocks: dag.blocks(), anchor, round }
}

} // verus!
