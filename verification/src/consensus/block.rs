//! Blocks, references to them, and the slots that they fill.

use std::sync::Arc;

use vstd::prelude::*;

verus! {

/// A round of the DAG.
pub type Round = u32;

/// The voting power of an authority.
pub type Stake = u64;

/// The position of an authority in the committee.
#[derive(Clone, Copy, Debug, PartialEq, Eq, Structural)]
pub struct AuthorityIndex(pub u32);

/// The digest of a block: 32 bytes as two big-endian halves.
#[derive(Clone, Copy, Debug, PartialEq, Eq, Structural)]
pub struct BlockDigest {
    pub high: u128,
    pub low: u128,
}

impl BlockDigest {
    /// Digests are ordered as byte strings.
    pub open spec fn less(self, other: BlockDigest) -> bool {
        self.high < other.high || (self.high == other.high && self.low < other.low)
    }

    pub fn is_less(&self, other: &BlockDigest) -> (res: bool)
        ensures
            res == self.less(*other),
    {
        self.high < other.high || (self.high == other.high && self.low < other.low)
    }
}

/// The place of a block in the DAG, and its digest.
#[derive(Clone, Copy, Debug, PartialEq, Eq, Structural)]
pub struct BlockRef {
    pub round: Round,
    pub author: AuthorityIndex,
    pub digest: BlockDigest,
}

impl BlockRef {
    /// References are ordered by round, then by author, then by digest.
    pub open spec fn less(self, other: BlockRef) -> bool {
        ||| self.round < other.round
        ||| self.round == other.round && self.author.0 < other.author.0
        ||| self.round == other.round && self.author.0 == other.author.0 && self.digest.less(
            other.digest,
        )
    }

    pub fn is_less(&self, other: &BlockRef) -> (res: bool)
        ensures
            res == self.less(*other),
    {
        if self.round != other.round {
            self.round < other.round
        } else if self.author.0 != other.author.0 {
            self.author.0 < other.author.0
        } else {
            self.digest.is_less(&other.digest)
        }
    }

    /// The slot that the block stands in.
    pub open spec fn at(self, slot: Slot) -> bool {
        self.round == slot.round && self.author == slot.authority
    }
}

/// The place that one authority has in one round.
#[derive(Clone, Copy, Debug, PartialEq, Eq, Structural)]
pub struct Slot {
    pub round: Round,
    pub authority: AuthorityIndex,
}

/// The contents of a block that decisions read.
#[derive(Debug, PartialEq, Eq)]
pub struct Block {
    pub reference: BlockRef,
    pub ancestors: Vec<BlockRef>,
}

/// A shared block whose signature and contents have been checked.
#[derive(Debug, PartialEq, Eq)]
pub struct VerifiedBlock(pub Arc<Block>);

impl Clone for VerifiedBlock {
    fn clone(&self) -> (res: Self)
        ensures
            res == *self,
    {
        VerifiedBlock(self.0.clone())
    }
}

impl VerifiedBlock {
    pub open spec fn spec_reference(self) -> BlockRef {
        self.0.reference
    }

    pub open spec fn spec_ancestors(self) -> Seq<BlockRef> {
        self.0.ancestors@
    }

    pub fn new(reference: BlockRef, ancestors: Vec<BlockRef>) -> (res: Self)
        ensures
            res.spec_reference() == reference,
            res.spec_ancestors() == ancestors@,
            res.0.reference == reference,
            res.0.ancestors@ == ancestors@,
    {
        VerifiedBlock(Arc::new(Block { reference, ancestors }))
    }

    pub fn reference(&self) -> (res: BlockRef)
        ensures
            res == self.spec_reference(),
            res == self.0.reference,
    {
        self.0.reference
    }

    pub fn round(&self) -> (res: Round)
        ensures
            res == self.spec_reference().round,
            res == self.0.reference.round,
    {
        self.0.reference.round
    }

    pub fn author(&self) -> (res: AuthorityIndex)
        ensures
            res == self.spec_reference().author,
            res == self.0.reference.author,
    {
        self.0.reference.author
    }

    pub fn ancestors(&self) -> (res: &Vec<BlockRef>)
        ensures
            res@ == self.spec_ancestors(),
            res@ == self.0.ancestors@,
    {
        &self.0.ancestors
    }
}

/// The decision on a leader slot.
#[derive(Debug, PartialEq, Eq)]
pub enum LeaderStatus {
    Commit(VerifiedBlock),
    Skip(Slot),
    Undecided(Slot),
}

/// Digests are ordered by their first half, then by their second.
pub proof fn law_digest_order(a: BlockDigest, b: BlockDigest)
    ensures
        a.high < b.high ==> a.less(b) && !b.less(a),
        a.high == b.high && a.low < b.low ==> a.less(b) && !b.less(a),
        a == b ==> !a.less(b),
{
}

/// References are ordered by round, then by author, then by digest: of two that differ one is
/// the smaller, and the order is transitive.
pub proof fn law_reference_order(a: BlockRef, b: BlockRef, c: BlockRef)
    ensures
        a.round < b.round ==> a.less(b) && !b.less(a),
        a.round == b.round && a.author.0 < b.author.0 ==> a.less(b) && !b.less(a),
        a.round == b.round && a.author == b.author ==> (a.less(b) <==> a.digest.less(b.digest)),
        a != b ==> a.less(b) || b.less(a),
        !a.less(a),
        a.less(b) && b.less(c) ==> a.less(c),
{
}

/// A reference stands in the slot of its round and author, and in no other.
pub proof fn law_reference_slot(r: BlockRef, slot: Slot)
    ensures
        r.at(slot) <==> slot == (Slot { round: r.round, authority: r.author }),
{
}

} // verus!
