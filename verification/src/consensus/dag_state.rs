//! What the node has accepted of the DAG.

use vstd::prelude::*;

use super::block::{BlockDigest, BlockRef, Round, Slot, Stake, VerifiedBlock};

verus! {

/// A block, and the stake of the authorities whose blocks of the next round hold it as an
/// ancestor.
#[derive(Debug, PartialEq, Eq)]
pub struct BlockInfo {
    pub block: VerifiedBlock,
    pub total_children_stake: Stake,
}

impl Clone for BlockInfo {
    fn clone(&self) -> (res: Self)
        ensures
            res == *self,
    {
        BlockInfo { block: self.block.clone(), total_children_stake: self.total_children_stake }
    }
}

/// The stake of the authorities that have a block in a round.
#[derive(Clone, Copy, Debug, PartialEq, Eq, Structural)]
pub struct RoundInfo {
    pub total_stake: Stake,
}

/// The accepted blocks, found by reference, and what is known of the rounds.
pub struct DagState {
    blocks: Vec<BlockInfo>,
    rounds: Vec<(Round, RoundInfo)>,
}

impl DagState {
    /// The blocks stand in ascending order of their references, the rounds in ascending order.
    pub closed spec fn wf(self) -> bool {
        &&& forall|i: int, j: int|
            0 <= i < j < self.blocks@.len() ==> (#[trigger] ref_at(self.blocks@, i)).less(
                #[trigger] ref_at(self.blocks@, j),
            )
        &&& forall|i: int, j: int|
            0 <= i < j < self.rounds@.len() ==> (#[trigger] self.rounds@[i]).0 < (
            #[trigger] self.rounds@[j]).0
    }

    /// The accepted blocks.
    pub closed spec fn blocks(self) -> Map<BlockRef, BlockInfo> {
        Map::new(
            |r: BlockRef| holds(self.blocks@, r),
            |r: BlockRef| self.blocks@[position(self.blocks@, r)],
        )
    }

    /// The rounds in which blocks have been accepted.
    pub closed spec fn rounds(self) -> Map<Round, RoundInfo> {
        Map::new(
            |r: Round| exists|i: int| 0 <= i < self.rounds@.len() && (#[trigger] self.rounds@[i]).0 == r,
            |r: Round|
                self.rounds@[choose|i: int|
                    0 <= i < self.rounds@.len() && (#[trigger] self.rounds@[i]).0 == r].1,
        )
    }

    pub fn new() -> (res: Self)
        ensures
            res.wf(),
            res.blocks() == Map::<BlockRef, BlockInfo>::empty(),
            res.rounds() == Map::<Round, RoundInfo>::empty(),
    {
        let res = DagState { blocks: Vec::new(), rounds: Vec::new() };
        assert(res.blocks() =~= Map::<BlockRef, BlockInfo>::empty());
        assert(res.rounds() =~= Map::<Round, RoundInfo>::empty());
        res
    }

    /// The number of blocks.
    pub closed spec fn spec_len(self) -> nat {
        self.blocks@.len()
    }

    /// The reference of the block at a position.
    pub closed spec fn reference_at(self, i: int) -> BlockRef {
        ref_at(self.blocks@, i)
    }

    /// The positions run over exactly the accepted blocks.
    pub proof fn lemma_positions(self)
        requires
            self.wf(),
        ensures
            forall|i: int|
                0 <= i < self.spec_len() ==> self.blocks().contains_key(
                    #[trigger] self.reference_at(i),
                ),
            forall|i: int, j: int|
                0 <= i < j < self.spec_len() ==> #[trigger] self.reference_at(i)
                    != #[trigger] self.reference_at(j),
    {
        assert forall|i: int, j: int| 0 <= i < j < self.spec_len() implies #[trigger] self.reference_at(
            i,
        ) != #[trigger] self.reference_at(j) by {
            assert(ref_at(self.blocks@, i).less(ref_at(self.blocks@, j)));
        }
    }

    /// A block is found by its own reference.
    pub proof fn lemma_references(self)
        ensures
            forall|r: BlockRef| #[trigger]
                self.blocks().contains_key(r) ==> self.blocks()[r].block.spec_reference() == r,
    {
    }

    proof fn lemma_position(self, i: int)
        requires
            self.wf(),
            0 <= i < self.blocks@.len(),
        ensures
            self.blocks().contains_key(ref_at(self.blocks@, i)),
            position(self.blocks@, ref_at(self.blocks@, i)) == i,
            self.blocks()[ref_at(self.blocks@, i)] == self.blocks@[i],
    {
        let r = ref_at(self.blocks@, i);
        assert(holds(self.blocks@, r));
        let p = position(self.blocks@, r);
        if p < i {
            assert(ref_at(self.blocks@, p).less(ref_at(self.blocks@, i)));
        } else if i < p {
            assert(ref_at(self.blocks@, i).less(ref_at(self.blocks@, p)));
        }
    }

    /// The first position whose reference is not below `r`.
    fn lower_bound(&self, r: &BlockRef) -> (res: usize)
        requires
            self.wf(),
        ensures
            res <= self.blocks@.len(),
            forall|i: int| 0 <= i < res ==> (#[trigger] ref_at(self.blocks@, i)).less(*r),
            forall|i: int|
                res <= i < self.blocks@.len() ==> !((#[trigger] ref_at(self.blocks@, i)).less(*r)),
    {
        let mut lo: usize = 0;
        let mut hi: usize = self.blocks.len();
        while lo < hi
            invariant
                self.wf(),
                lo <= hi <= self.blocks@.len(),
                forall|i: int| 0 <= i < lo ==> (#[trigger] ref_at(self.blocks@, i)).less(*r),
                forall|i: int|
                    hi <= i < self.blocks@.len() ==> !((#[trigger] ref_at(self.blocks@, i)).less(
                        *r,
                    )),
            decreases hi - lo,
        {
            let mid = lo + (hi - lo) / 2;
            let at = self.blocks[mid].block.reference();
            assert(at == ref_at(self.blocks@, mid as int));
            if at.is_less(r) {
                lo = mid + 1;
            } else {
                hi = mid;
            }
        }
        lo
    }

    /// The position of the block with reference `r`.
    pub fn find(&self, r: &BlockRef) -> (res: Option<usize>)
        requires
            self.wf(),
        ensures
            match res {
                Some(i) => i < self.spec_len() && self.reference_at(i as int) == *r
                    && self.blocks().contains_key(*r),
                None => !self.blocks().contains_key(*r),
            },
    {
        let i = self.lower_bound(r);
        if i < self.blocks.len() && self.blocks[i].block.reference() == *r {
            assert(ref_at(self.blocks@, i as int) == *r);
            Some(i)
        } else {
            proof {
                if holds(self.blocks@, *r) {
                    let p = position(self.blocks@, *r);
                    assert(!ref_at(self.blocks@, p).less(*r));
                    assert(p > i);
                    assert(ref_at(self.blocks@, i as int).less(ref_at(self.blocks@, p)));
                }
            }
            None
        }
    }

    /// Records what is known of a block, in place of what was known of it before.
    pub fn set_block_info(&mut self, info: BlockInfo)
        requires
            old(self).wf(),
        ensures
            final(self).wf(),
            final(self).blocks() == old(self).blocks().insert(info.block.spec_reference(), info),
            final(self).rounds() == old(self).rounds(),
    {
        let r = info.block.reference();
        let i = self.lower_bound(&r);
        let ghost before = self.blocks@;
        if i < self.blocks.len() && self.blocks[i].block.reference() == r {
            self.blocks.set(i, info);
            proof {
                assert(ref_at(before, i as int) == r);
                assert forall|k: int| 0 <= k < before.len() implies #[trigger] ref_at(
                    self.blocks@,
                    k,
                ) == ref_at(before, k) by {}
            }
        } else {
            self.blocks.insert(i, info);
            proof {
                assert forall|k: int| i <= k < before.len() implies r.less(
                    #[trigger] ref_at(before, k),
                ) by {
                    assert(!ref_at(before, k).less(r));
                    if k > i {
                        assert(ref_at(before, i as int).less(ref_at(before, k)));
                        assert(!ref_at(before, i as int).less(r));
                    }
                }
                assert forall|a: int, b: int| 0 <= a < b < self.blocks@.len() implies (
                #[trigger] ref_at(self.blocks@, a)).less(#[trigger] ref_at(self.blocks@, b)) by {
                    let old_a = if a < i {
                        a
                    } else {
                        a - 1
                    };
                    let old_b = if b < i {
                        b
                    } else {
                        b - 1
                    };
                    if a != i {
                        assert(ref_at(self.blocks@, a) == ref_at(before, old_a));
                    }
                    if b != i {
                        assert(ref_at(self.blocks@, b) == ref_at(before, old_b));
                    }
                }
            }
        }
        proof {
            let after = self.blocks@;
            assert(ref_at(after, i as int) == r);
            assert forall|q: BlockRef| #[trigger] self.blocks().contains_key(q) <==> (q == r || old(
                self,
            ).blocks().contains_key(q)) by {
                if holds(after, q) && q != r {
                    let p = position(after, q);
                    let old_p = if p < i || after.len() == before.len() {
                        p
                    } else {
                        p - 1
                    };
                    assert(ref_at(before, old_p) == q);
                }
                if holds(before, q) {
                    let p = position(before, q);
                    let new_p = if p < i || after.len() == before.len() {
                        p
                    } else {
                        p + 1
                    };
                    assert(ref_at(after, new_p) == q);
                }
            }
            assert forall|q: BlockRef| #[trigger] self.blocks().contains_key(q) implies self.blocks()[q]
                == old(self).blocks().insert(r, info)[q] by {
                let p = position(after, q);
                self.lemma_position(p);
                if q == r {
                    self.lemma_position(i as int);
                } else {
                    let old_p = if p < i || after.len() == before.len() {
                        p
                    } else {
                        p - 1
                    };
                    assert(before[old_p] == after[p]);
                    old(self).lemma_position(old_p);
                }
            }
            assert(self.blocks() =~= old(self).blocks().insert(r, info));
        }
    }

    /// Records what is known of a round, in place of what was known of it before.
    pub fn set_round_info(&mut self, round: Round, info: RoundInfo)
        requires
            old(self).wf(),
        ensures
            final(self).wf(),
            final(self).rounds() == old(self).rounds().insert(round, info),
            final(self).blocks() == old(self).blocks(),
    {
        let i = self.round_lower_bound(round);
        let ghost before = self.rounds@;
        if i < self.rounds.len() && self.rounds[i].0 == round {
            self.rounds.set(i, (round, info));
        } else {
            self.rounds.insert(i, (round, info));
        }
        proof {
            let after = self.rounds@;
            let grown = after.len() != before.len();
            assert(after[i as int].0 == round);
            assert forall|a: int, b: int| 0 <= a < b < after.len() implies (#[trigger] after[a]).0
                < (#[trigger] after[b]).0 by {
                if grown {
                    if a != i && b != i {
                        let old_a = if a < i {
                            a
                        } else {
                            a - 1
                        };
                        let old_b = if b < i {
                            b
                        } else {
                            b - 1
                        };
                        assert(before[old_a].0 < before[old_b].0);
                    } else if a == i {
                        assert(before[b - 1].0 >= round);
                        if b - 1 > i {
                            assert(before[i as int].0 < before[b - 1].0);
                            assert(before[i as int].0 >= round);
                        }
                    } else {
                        assert(before[a].0 < round);
                    }
                } else {
                    assert(before[a].0 < before[b].0);
                }
            }
            assert forall|q: Round| #[trigger] self.rounds().contains_key(q) <==> (q == round || old(
                self,
            ).rounds().contains_key(q)) by {
                if self.rounds().contains_key(q) && q != round {
                    let p = choose|k: int| 0 <= k < after.len() && (#[trigger] after[k]).0 == q;
                    let old_p = if p < i || !grown {
                        p
                    } else {
                        p - 1
                    };
                    assert(before[old_p].0 == q);
                }
                if old(self).rounds().contains_key(q) {
                    let p = choose|k: int| 0 <= k < before.len() && (#[trigger] before[k]).0 == q;
                    let new_p = if p < i || !grown {
                        p
                    } else {
                        p + 1
                    };
                    assert(after[new_p].0 == q);
                }
            }
            assert forall|q: Round| #[trigger] self.rounds().contains_key(q) implies self.rounds()[q]
                == old(self).rounds().insert(round, info)[q] by {
                let p = choose|k: int| 0 <= k < after.len() && (#[trigger] after[k]).0 == q;
                self.lemma_round_position(p);
                if q == round {
                    self.lemma_round_position(i as int);
                } else {
                    let old_p = if p < i || !grown {
                        p
                    } else {
                        p - 1
                    };
                    assert(before[old_p] == after[p]);
                    old(self).lemma_round_position(old_p);
                }
            }
            assert(self.rounds() =~= old(self).rounds().insert(round, info));
        }
    }

    /// The number of accepted blocks.
    pub fn len(&self) -> (res: usize)
        ensures
            res == self.spec_len(),
    {
        self.blocks.len()
    }

    /// The block at a position.
    pub fn block_at(&self, i: usize) -> (res: &VerifiedBlock)
        requires
            self.wf(),
            i < self.spec_len(),
        ensures
            res.spec_reference() == self.reference_at(i as int),
            *res == self.blocks()[self.reference_at(i as int)].block,
    {
        proof {
            self.lemma_position(i as int);
        }
        &self.blocks[i].block
    }

    /// The block with reference `r`, if it has been accepted.
    pub fn get_block(&self, r: &BlockRef) -> (res: Option<VerifiedBlock>)
        requires
            self.wf(),
        ensures
            res == if self.blocks().contains_key(*r) {
                Some(self.blocks()[*r].block)
            } else {
                None
            },
    {
        match self.find(r) {
            Some(i) => {
                proof {
                    self.lemma_position(i as int);
                }
                Some(self.blocks[i].block.clone())
            },
            None => None,
        }
    }

    /// The accepted blocks of a slot, in ascending order of their digests.
    pub fn get_block_info_at_slot(&self, slot: Slot) -> (res: Vec<BlockInfo>)
        requires
            self.wf(),
        ensures
            forall|i: int| 0 <= i < res@.len() ==> {
                let r = ref_at(res@, i);
                &&& r.at(slot)
                &&& self.blocks().contains_key(r)
                &&& self.blocks()[r] == #[trigger] res@[i]
            },
            forall|r: BlockRef| #[trigger]
                self.blocks().contains_key(r) && r.at(slot) ==> holds(res@, r),
            forall|r: BlockRef| #[trigger]
                self.blocks().contains_key(r) && r.round == slot.round && r.author
                    == slot.authority ==> res@.contains(self.blocks()[r]),
            forall|i: int, j: int|
                0 <= i < j < res@.len() ==> (#[trigger] ref_at(res@, i)).less(
                    #[trigger] ref_at(res@, j),
                ),
    {
        let first = BlockRef {
            round: slot.round,
            author: slot.authority,
            digest: BlockDigest { high: 0, low: 0 },
        };
        let mut infos: Vec<BlockInfo> = Vec::new();
        let start = self.lower_bound(&first);
        let mut i: usize = start;
        while i < self.blocks.len() && self.blocks[i].block.round() == slot.round
            && self.blocks[i].block.author() == slot.authority
            invariant
                self.wf(),
                start <= i <= self.blocks@.len(),
                infos@ == self.blocks@.subrange(start as int, i as int),
                forall|k: int| start <= k < i ==> (#[trigger] ref_at(self.blocks@, k)).at(slot),
            decreases self.blocks.len() - i,
        {
            infos.push(self.blocks[i].clone());
            assert(infos@ =~= self.blocks@.subrange(start as int, i + 1));
            assert(ref_at(self.blocks@, i as int).at(slot));
            i += 1;
        }
        proof {
            assert forall|k: int| 0 <= k < infos@.len() implies {
                let r = ref_at(infos@, k);
                &&& r.at(slot)
                &&& self.blocks().contains_key(r)
                &&& self.blocks()[r] == #[trigger] infos@[k]
            } by {
                assert(ref_at(self.blocks@, start + k).at(slot));
                self.lemma_position(start + k);
            }
            assert forall|r: BlockRef| #[trigger]
                self.blocks().contains_key(r) && r.at(slot) implies holds(infos@, r) by {
                let p = position(self.blocks@, r);
                assert(!r.less(first));
                assert(p >= start) by {
                    if p < start {
                        assert(ref_at(self.blocks@, p).less(first));
                    }
                }
                if p >= i {
                    let stop = ref_at(self.blocks@, i as int);
                    assert(!stop.at(slot));
                    assert(!stop.less(first));
                    if p > i {
                        assert(stop.less(ref_at(self.blocks@, p)));
                    }
                }
                assert(ref_at(infos@, p - start) == r);
                self.lemma_position(p);
                assert(infos@[p - start] == self.blocks()[r]);
            }
            assert forall|r: BlockRef| #[trigger]
                self.blocks().contains_key(r) && r.round == slot.round && r.author
                    == slot.authority implies infos@.contains(self.blocks()[r]) by {
                assert(r.at(slot));
                let k = position(infos@, r);
                assert(holds(infos@, r));
                assert(ref_at(infos@, k) == r);
                assert(self.blocks()[ref_at(infos@, k)] == infos@[k]);
            }
            assert forall|a: int, b: int| 0 <= a < b < infos@.len() implies (#[trigger] ref_at(
                infos@,
                a,
            )).less(#[trigger] ref_at(infos@, b)) by {
                assert(ref_at(self.blocks@, start + a).less(ref_at(self.blocks@, start + b)));
            }
        }
        infos
    }

    /// What is known of a round.
    pub fn get_round_info(&self, round: Round) -> (res: Option<RoundInfo>)
        requires
            self.wf(),
        ensures
            res == if self.rounds().contains_key(round) {
                Some(self.rounds()[round])
            } else {
                None
            },
    {
        let i = self.round_lower_bound(round);
        if i < self.rounds.len() && self.rounds[i].0 == round {
            proof {
                self.lemma_round_position(i as int);
            }
            Some(self.rounds[i].1)
        } else {
            None
        }
    }

    proof fn lemma_round_position(self, i: int)
        requires
            self.wf(),
            0 <= i < self.rounds@.len(),
        ensures
            self.rounds().contains_key(self.rounds@[i].0),
            self.rounds()[self.rounds@[i].0] == self.rounds@[i].1,
    {
        let r = self.rounds@[i].0;
        let p = choose|k: int| 0 <= k < self.rounds@.len() && (#[trigger] self.rounds@[k]).0 == r;
        assert(p == i) by {
            if p < i {
                assert(self.rounds@[p].0 < self.rounds@[i].0);
            } else if i < p {
                assert(self.rounds@[i].0 < self.rounds@[p].0);
            }
        }
    }

    fn round_lower_bound(&self, round: Round) -> (res: usize)
        requires
            self.wf(),
        ensures
            res <= self.rounds@.len(),
            forall|i: int| 0 <= i < res ==> (#[trigger] self.rounds@[i]).0 < round,
            forall|i: int|
                res <= i < self.rounds@.len() ==> (#[trigger] self.rounds@[i]).0 >= round,
    {
        let mut lo: usize = 0;
        let mut hi: usize = self.rounds.len();
        while lo < hi
            invariant
                self.wf(),
                lo <= hi <= self.rounds@.len(),
                forall|i: int| 0 <= i < lo ==> (#[trigger] self.rounds@[i]).0 < round,
                forall|i: int|
                    hi <= i < self.rounds@.len() ==> (#[trigger] self.rounds@[i]).0 >= round,
            decreases hi - lo,
        {
            let mid = lo + (hi - lo) / 2;
            if self.rounds[mid].0 < round {
                lo = mid + 1;
            } else {
                hi = mid;
            }
        }
        lo
    }
}

/// The reference of the block at a position of a list.
pub open spec fn ref_at(infos: Seq<BlockInfo>, i: int) -> BlockRef {
    infos[i].block.spec_reference()
}

/// A list holds a block with reference `r`.
pub open spec fn holds(infos: Seq<BlockInfo>, r: BlockRef) -> bool {
    exists|i: int| 0 <= i < infos.len() && #[trigger] ref_at(infos, i) == r
}

/// A position at which a list holds the block with reference `r`.
pub open spec fn position(infos: Seq<BlockInfo>, r: BlockRef) -> int {
    choose|i: int| 0 <= i < infos.len() && #[trigger] ref_at(infos, i) == r
}

} // verus!
