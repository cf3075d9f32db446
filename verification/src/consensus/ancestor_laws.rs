//! Indirect decisions told by the ancestor lists of the blocks alone.

use vstd::prelude::*;

use super::block::{AuthorityIndex, BlockRef, LeaderStatus, Round, Slot, VerifiedBlock};
use super::committee::{lemma_stake_empty, lemma_stake_subset, stake_of, Committee};
use super::dag_state::DagState;
use super::history::{history, History};
use super::leader_slot_decider::{certified_are_stored, indirectly_sound};

verus! {

/// The block with reference `r`: the anchor itself, or an accepted one.
pub open spec fn found(dag: DagState, anchor: VerifiedBlock, r: BlockRef) -> VerifiedBlock {
    if r == anchor.0.reference {
        anchor
    } else {
        dag.blocks()[r].block
    }
}

/// The references lead from the anchor along ancestor lists, and none of those behind the
/// anchor is below the round.
pub open spec fn leads(
    dag: DagState,
    anchor: VerifiedBlock,
    round: Round,
    refs: Seq<BlockRef>,
) -> bool {
    &&& refs.len() > 0
    &&& refs[0] == anchor.0.reference
    &&& forall|i: int|
        0 <= i < refs.len() - 1 ==> {
            &&& found(dag, anchor, #[trigger] refs[i]).0.ancestors@.contains(refs[i + 1])
            &&& refs[i + 1].round >= round
        }
}

/// The references lead from the anchor to a block of the round after the slot's that lists the
/// leader among its ancestors.
pub open spec fn backs(
    dag: DagState,
    anchor: VerifiedBlock,
    slot: Slot,
    leader: BlockRef,
    refs: Seq<BlockRef>,
) -> bool {
    &&& leads(dag, anchor, slot.round, refs)
    &&& found(dag, anchor, refs.last()).0.reference.round == slot.round + 1
    &&& found(dag, anchor, refs.last()).0.ancestors@.contains(leader)
}

/// The authors of the blocks that back a leader.
pub open spec fn supporters(
    dag: DagState,
    anchor: VerifiedBlock,
    slot: Slot,
    leader: BlockRef,
) -> Set<AuthorityIndex> {
    Set::new(
        |a: AuthorityIndex|
            exists|refs: Seq<BlockRef>| #[trigger]
                backs(dag, anchor, slot, leader, refs) && found(
                    dag,
                    anchor,
                    refs.last(),
                ).0.reference.author == a,
    )
}

/// A leader of the slot has a supporter, and its supporters have the stake of a certificate.
pub open spec fn has_certificate(
    committee: Committee,
    dag: DagState,
    anchor: VerifiedBlock,
    slot: Slot,
    leader: BlockRef,
) -> bool {
    &&& leader.round == slot.round
    &&& leader.author == slot.authority
    &&& exists|a: AuthorityIndex| #[trigger]
        supporters(dag, anchor, slot, leader).contains(a)
    &&& stake_of(committee.stakes@, supporters(dag, anchor, slot, leader))
        >= committee.certification_threshold
}

/// What the ancestor lists lead to is what the history reaches.
proof fn lemma_leads(dag: DagState, anchor: VerifiedBlock, round: Round, refs: Seq<BlockRef>)
    ensures
        leads(dag, anchor, round, refs) <==> history(dag, anchor, round).is_path(refs),
{
    let h = history(dag, anchor, round);
    if leads(dag, anchor, round, refs) {
        assert forall|i: int| 0 <= i < refs.len() - 1 implies h.edge(
            #[trigger] refs[i],
            refs[i + 1],
        ) by {
            assert(found(dag, anchor, refs[i]).0.ancestors@.contains(refs[i + 1]));
        }
    }
    if h.is_path(refs) {
        assert forall|i: int| 0 <= i < refs.len() - 1 implies {
            &&& found(dag, anchor, #[trigger] refs[i]).0.ancestors@.contains(refs[i + 1])
            &&& refs[i + 1].round >= round
        } by {
            assert(h.edge(refs[i], refs[i + 1]));
        }
    }
}

/// The history holds every block that the ancestor lists lead to, however many rounds lie
/// between, and no other.
pub proof fn law_history_follows_ancestors(
    dag: DagState,
    anchor: VerifiedBlock,
    round: Round,
    r: BlockRef,
)
    ensures
        history(dag, anchor, round).reaches(r) <==> exists|refs: Seq<BlockRef>| #[trigger]
            leads(dag, anchor, round, refs) && refs.last() == r,
{
    let h = history(dag, anchor, round);
    if h.reaches(r) {
        let refs = choose|refs: Seq<BlockRef>| #[trigger] h.is_path(refs) && refs.last() == r;
        lemma_leads(dag, anchor, round, refs);
        assert(leads(dag, anchor, round, refs) && refs.last() == r);
    }
    if exists|refs: Seq<BlockRef>| #[trigger] leads(dag, anchor, round, refs) && refs.last() == r {
        let refs = choose|refs: Seq<BlockRef>| #[trigger]
            leads(dag, anchor, round, refs) && refs.last() == r;
        lemma_leads(dag, anchor, round, refs);
        assert(h.is_path(refs) && refs.last() == r);
    }
}

/// The voters for a leader are the authors of the blocks that back it.
pub proof fn law_voters_back_the_leader(
    dag: DagState,
    anchor: VerifiedBlock,
    slot: Slot,
    leader: BlockRef,
)
    requires
        leader.round == slot.round,
    ensures
        history(dag, anchor, slot.round).voters(leader) == supporters(dag, anchor, slot, leader),
{
    let h = history(dag, anchor, slot.round);
    let s = supporters(dag, anchor, slot, leader);
    assert forall|a: AuthorityIndex| #[trigger] h.voters(leader).contains(a) <==> s.contains(a) by {
        if h.voters(leader).contains(a) {
            let r = choose|r: BlockRef| #[trigger]
                h.votes(r, leader) && h.block(r).spec_reference().author == a;
            law_history_follows_ancestors(dag, anchor, slot.round, r);
            let refs = choose|refs: Seq<BlockRef>| #[trigger]
                leads(dag, anchor, slot.round, refs) && refs.last() == r;
            assert(backs(dag, anchor, slot, leader, refs));
        }
        if s.contains(a) {
            let refs = choose|refs: Seq<BlockRef>| #[trigger]
                backs(dag, anchor, slot, leader, refs) && found(
                    dag,
                    anchor,
                    refs.last(),
                ).0.reference.author == a;
            law_history_follows_ancestors(dag, anchor, slot.round, refs.last());
            assert(leads(dag, anchor, slot.round, refs));
            assert(h.votes(refs.last(), leader));
        }
    }
    assert(h.voters(leader) =~= s);
}

/// A history certifies the leaders of a slot that have a certificate.
proof fn lemma_certificates(
    committee: Committee,
    dag: DagState,
    anchor: VerifiedBlock,
    slot: Slot,
    leader: BlockRef,
)
    requires
        leader.round == slot.round,
        leader.author == slot.authority,
    ensures
        history(dag, anchor, slot.round).certifies(committee, leader) <==> has_certificate(
            committee,
            dag,
            anchor,
            slot,
            leader,
        ),
{
    law_voters_back_the_leader(dag, anchor, slot, leader);
}

/// Where a leader is certified, one of the smallest digest is.
proof fn lemma_least(h: History, committee: Committee, slot: Slot, leader: BlockRef) -> (least:
    BlockRef)
    requires
        leader.at(slot),
        h.certifies(committee, leader),
    ensures
        h.picks(committee, slot, least),
    decreases leader.digest.high, leader.digest.low,
{
    if h.picks(committee, slot, leader) {
        leader
    } else {
        let other = choose|other: BlockRef|
            other.at(slot) && #[trigger] h.certifies(committee, other) && other.digest.less(
                leader.digest,
            );
        lemma_least(h, committee, slot, other)
    }
}

/// The digest of `a` is smaller than that of `b`, as a number of two halves.
pub open spec fn smaller_digest(a: BlockRef, b: BlockRef) -> bool {
    a.digest.high < b.digest.high || (a.digest.high == b.digest.high && a.digest.low
        < b.digest.low)
}

/// The indirect decision on a slot: it is committed as soon as one of its leaders has a
/// certificate, with the accepted block of the leader of smallest digest among those that have
/// one, and skipped where none has.
pub proof fn law_indirect_status_by_ancestors(
    committee: Committee,
    dag: DagState,
    anchor: VerifiedBlock,
    slot: Slot,
)
    ensures
        ({
            let status = history(dag, anchor, slot.round).indirect_status(committee, slot);
            &&& (forall|leader: BlockRef|
                !(#[trigger] has_certificate(committee, dag, anchor, slot, leader)))
                ==> status == LeaderStatus::Skip(slot)
            &&& forall|leader: BlockRef| #[trigger]
                has_certificate(committee, dag, anchor, slot, leader) && (forall|other: BlockRef|
                    #[trigger] has_certificate(committee, dag, anchor, slot, other)
                        ==> !smaller_digest(other, leader)) ==> status == LeaderStatus::Commit(
                    dag.blocks()[leader].block,
                )
            &&& (exists|leader: BlockRef| #[trigger]
                has_certificate(committee, dag, anchor, slot, leader)) ==> status is Commit
        }),
{
    let h = history(dag, anchor, slot.round);
    let status = h.indirect_status(committee, slot);
    assert forall|leader: BlockRef|
        leader.at(slot) && #[trigger] h.certifies(committee, leader) implies has_certificate(
        committee,
        dag,
        anchor,
        slot,
        leader,
    ) by {
        lemma_certificates(committee, dag, anchor, slot, leader);
    }
    assert forall|leader: BlockRef| #[trigger]
        has_certificate(committee, dag, anchor, slot, leader) implies leader.at(slot)
        && h.certifies(committee, leader) by {
        lemma_certificates(committee, dag, anchor, slot, leader);
    }
    if forall|leader: BlockRef|
        !(#[trigger] has_certificate(committee, dag, anchor, slot, leader)) {
        assert forall|leader: BlockRef| !h.picks(committee, slot, leader) by {
            if h.picks(committee, slot, leader) {
                assert(h.certifies(committee, leader));
            }
        }
    }
    assert forall|leader: BlockRef| #[trigger]
        has_certificate(committee, dag, anchor, slot, leader) && (forall|other: BlockRef|
            #[trigger] has_certificate(committee, dag, anchor, slot, other) ==> !smaller_digest(
                other,
                leader,
            )) implies status == LeaderStatus::Commit(dag.blocks()[leader].block) by {
        assert(h.picks(committee, slot, leader)) by {
            assert forall|other: BlockRef|
                other.at(slot) && #[trigger] h.certifies(committee, other) implies
                !other.digest.less(leader.digest) by {
                assert(has_certificate(committee, dag, anchor, slot, other));
            }
        }
        let picked = choose|l: BlockRef| h.picks(committee, slot, l);
        assert(h.picks(committee, slot, picked));
        assert(h.certifies(committee, picked));
        assert(has_certificate(committee, dag, anchor, slot, picked));
        assert(picked == leader);
    }
    if exists|leader: BlockRef| #[trigger] has_certificate(committee, dag, anchor, slot, leader) {
        let leader = choose|leader: BlockRef| #[trigger]
            has_certificate(committee, dag, anchor, slot, leader);
        let least = lemma_least(h, committee, slot, leader);
        assert(h.picks(committee, slot, least));
    }
}

/// Where the ancestor lists of the anchor lead to blocks of the next round that hold a leader
/// as an ancestor, and whose authors have the stake of a certificate, the slot of the leader is
/// committed.
pub proof fn law_indirect_commit_is_due(
    committee: Committee,
    dag: DagState,
    anchor: VerifiedBlock,
    slot: Slot,
    leader: BlockRef,
    voters: Set<AuthorityIndex>,
    lead: spec_fn(AuthorityIndex) -> Seq<BlockRef>,
)
    requires
        leader.round == slot.round,
        leader.author == slot.authority,
        committee.certification_threshold > 0,
        stake_of(committee.stakes@, voters) >= committee.certification_threshold,
        forall|a: AuthorityIndex| #[trigger]
            voters.contains(a) ==> backs(dag, anchor, slot, leader, lead(a)) && found(
                dag,
                anchor,
                lead(a).last(),
            ).0.reference.author == a,
    ensures
        history(dag, anchor, slot.round).indirect_status(committee, slot) is Commit,
{
    let all = supporters(dag, anchor, slot, leader);
    assert forall|a: AuthorityIndex| #[trigger] voters.contains(a) implies all.contains(a) by {
        assert(backs(dag, anchor, slot, leader, lead(a)));
    }
    lemma_stake_subset(committee.stakes@, voters, all);
    assert(exists|a: AuthorityIndex| #[trigger] all.contains(a)) by {
        if forall|a: AuthorityIndex| !(#[trigger] all.contains(a)) {
            assert(all =~= Set::empty());
            lemma_stake_empty(committee.stakes@);
        }
    }
    assert(has_certificate(committee, dag, anchor, slot, leader));
    law_indirect_status_by_ancestors(committee, dag, anchor, slot);
}

/// When an indirect decision is defined: there is a slot, all slots are of one round, every
/// block that the ancestor lists lead to has been accepted, those that back a leader were made
/// by members of the committee, and so have the leaders with a certificate been accepted.
pub proof fn law_indirectly_sound_by_ancestors(
    committee: Committee,
    dag: DagState,
    anchor: VerifiedBlock,
    slots: Seq<Slot>,
)
    requires
        slots.len() > 0,
        forall|i: int| 0 <= i < slots.len() ==> (#[trigger] slots[i]).round == slots[0].round,
    ensures
        indirectly_sound(committee, dag, anchor, slots) <==> {
            &&& forall|refs: Seq<BlockRef>| #[trigger]
                leads(dag, anchor, slots[0].round, refs) && refs.last() != anchor.0.reference
                    ==> dag.blocks().contains_key(refs.last())
            &&& forall|leader: BlockRef, refs: Seq<BlockRef>|
                leader.round == slots[0].round && #[trigger] backs(
                    dag,
                    anchor,
                    slots[0],
                    leader,
                    refs,
                ) ==> found(dag, anchor, refs.last()).0.reference.author.0
                    < committee.stakes@.len()
            &&& forall|i: int, leader: BlockRef|
                0 <= i < slots.len() && #[trigger] has_certificate(
                    committee,
                    dag,
                    anchor,
                    slots[i],
                    leader,
                ) ==> dag.blocks().contains_key(leader)
        },
{
    let round = slots[0].round;
    let h = history(dag, anchor, round);
    assert(h.is_complete() <==> forall|refs: Seq<BlockRef>| #[trigger]
        leads(dag, anchor, round, refs) && refs.last() != anchor.0.reference
            ==> dag.blocks().contains_key(refs.last())) by {
        lemma_complete(dag, anchor, round);
    }
    assert(h.has_members(committee) <==> forall|leader: BlockRef, refs: Seq<BlockRef>|
        leader.round == round && #[trigger] backs(dag, anchor, slots[0], leader, refs) ==> found(
            dag,
            anchor,
            refs.last(),
        ).0.reference.author.0 < committee.stakes@.len()) by {
        lemma_members(committee, dag, anchor, slots[0]);
    }
    assert forall|i: int| 0 <= i < slots.len() implies (certified_are_stored(
        committee,
        h,
        #[trigger] slots[i],
    ) <==> forall|leader: BlockRef| #[trigger]
        has_certificate(committee, dag, anchor, slots[i], leader) ==> dag.blocks().contains_key(
            leader,
        )) by {
        lemma_stored(committee, dag, anchor, slots[i]);
    }
}

/// An indirect decision is defined for one or more slots of one round only.
pub proof fn law_indirect_slots_are_of_one_round(
    committee: Committee,
    dag: DagState,
    anchor: VerifiedBlock,
    slots: Seq<Slot>,
)
    requires
        indirectly_sound(committee, dag, anchor, slots),
    ensures
        slots.len() > 0,
        forall|i: int, j: int|
            0 <= i < slots.len() && 0 <= j < slots.len() ==> (#[trigger] slots[i]).round == (
            #[trigger] slots[j]).round,
{
}

proof fn lemma_complete(dag: DagState, anchor: VerifiedBlock, round: Round)
    ensures
        history(dag, anchor, round).is_complete() <==> forall|refs: Seq<BlockRef>| #[trigger]
            leads(dag, anchor, round, refs) && refs.last() != anchor.0.reference
                ==> dag.blocks().contains_key(refs.last()),
{
    let h = history(dag, anchor, round);
    if h.is_complete() {
        assert forall|refs: Seq<BlockRef>| #[trigger]
            leads(dag, anchor, round, refs) && refs.last() != anchor.0.reference implies
            dag.blocks().contains_key(refs.last()) by {
            law_history_follows_ancestors(dag, anchor, round, refs.last());
            assert(h.reaches(refs.last()));
        }
    }
    if forall|refs: Seq<BlockRef>| #[trigger]
        leads(dag, anchor, round, refs) && refs.last() != anchor.0.reference
            ==> dag.blocks().contains_key(refs.last()) {
        assert forall|r: BlockRef| #[trigger]
            h.reaches(r) && r != h.anchor.spec_reference() implies h.blocks.contains_key(r) by {
            law_history_follows_ancestors(dag, anchor, round, r);
        }
    }
}

proof fn lemma_members(committee: Committee, dag: DagState, anchor: VerifiedBlock, slot: Slot)
    ensures
        history(dag, anchor, slot.round).has_members(committee) <==> forall|
            leader: BlockRef,
            refs: Seq<BlockRef>,
        |
            leader.round == slot.round && #[trigger] backs(dag, anchor, slot, leader, refs)
                ==> found(dag, anchor, refs.last()).0.reference.author.0 < committee.stakes@.len(),
{
    let h = history(dag, anchor, slot.round);
    if h.has_members(committee) {
        assert forall|leader: BlockRef, refs: Seq<BlockRef>|
            leader.round == slot.round && #[trigger] backs(dag, anchor, slot, leader, refs) implies
            found(dag, anchor, refs.last()).0.reference.author.0 < committee.stakes@.len() by {
            assert(leads(dag, anchor, slot.round, refs));
            law_history_follows_ancestors(dag, anchor, slot.round, refs.last());
            assert(h.votes(refs.last(), leader));
        }
    }
    if forall|leader: BlockRef, refs: Seq<BlockRef>|
        leader.round == slot.round && #[trigger] backs(dag, anchor, slot, leader, refs) ==> found(
            dag,
            anchor,
            refs.last(),
        ).0.reference.author.0 < committee.stakes@.len() {
        assert forall|r: BlockRef, leader: BlockRef| #[trigger]
            h.votes(r, leader) implies committee.has(h.block(r).spec_reference().author) by {
            law_history_follows_ancestors(dag, anchor, slot.round, r);
            let refs = choose|refs: Seq<BlockRef>| #[trigger]
                leads(dag, anchor, slot.round, refs) && refs.last() == r;
            assert(backs(dag, anchor, slot, leader, refs));
        }
    }
}

proof fn lemma_stored(committee: Committee, dag: DagState, anchor: VerifiedBlock, slot: Slot)
    ensures
        certified_are_stored(committee, history(dag, anchor, slot.round), slot) <==> forall|
            leader: BlockRef,
        | #[trigger]
            has_certificate(committee, dag, anchor, slot, leader) ==> dag.blocks().contains_key(
                leader,
            ),
{
    let h = history(dag, anchor, slot.round);
    assert forall|leader: BlockRef|
        leader.at(slot) && #[trigger] h.certifies(committee, leader) implies has_certificate(
        committee,
        dag,
        anchor,
        slot,
        leader,
    ) by {
        lemma_certificates(committee, dag, anchor, slot, leader);
    }
    assert forall|leader: BlockRef| #[trigger]
        has_certificate(committee, dag, anchor, slot, leader) implies leader.at(slot)
        && h.certifies(committee, leader) by {
        lemma_certificates(committee, dag, anchor, slot, leader);
    }
}

} // verus!
