//! A walk over the history of an anchor that counts the votes in it.

use std::collections::VecDeque;

use vstd::prelude::*;

use super::block::{AuthorityIndex, BlockRef, Round, VerifiedBlock};
use super::committee::Committee;
use super::dag_state::DagState;
use super::history::{history, is_vote, History};
use super::vote_tally::{ballots, record_vote, tallied, tallies_wf, Tally};

verus! {

/// A walk over the history of an anchor.
struct Search {
    anchor: BlockRef,
    round: Round,
    /// By position in the DAG: whether the block has been put into the queue.
    seen: Vec<bool>,
    /// The positions of the blocks that are still to be visited.
    queue: VecDeque<usize>,
    /// The positions of all blocks that have been put into the queue.
    met: Ghost<Seq<usize>>,
    tallies: Vec<Tally>,
}

/// How many marks are not set.
spec fn unseen(seen: Seq<bool>) -> nat
    decreases seen.len(),
{
    if seen.len() == 0 {
        0
    } else {
        unseen(seen.drop_last()) + (if seen.last() {
            0nat
        } else {
            1nat
        })
    }
}

proof fn lemma_unseen(seen: Seq<bool>, i: int)
    requires
        0 <= i < seen.len(),
        !seen[i],
    ensures
        unseen(seen.update(i, true)) + 1 == unseen(seen),
    decreases seen.len(),
{
    if i == seen.len() - 1 {
        assert(seen.update(i, true).drop_last() =~= seen.drop_last());
    } else {
        lemma_unseen(seen.drop_last(), i);
        assert(seen.update(i, true).drop_last() =~= seen.drop_last().update(i, true));
    }
}

/// The votes of the first `n` blocks of a list of references.
spec fn cast(h: History, order: Seq<BlockRef>, n: int) -> Set<(BlockRef, AuthorityIndex)> {
    Set::new(
        |vote: (BlockRef, AuthorityIndex)|
            exists|k: int|
                0 <= k < n && is_vote(h.block(#[trigger] order[k]), h.round, vote.0) && h.block(
                    order[k],
                ).spec_reference().author == vote.1,
    )
}

/// The votes of a block for its first `n` ancestors.
spec fn cast_by(h: History, block: VerifiedBlock, n: int) -> Set<(BlockRef, AuthorityIndex)> {
    Set::new(
        |vote: (BlockRef, AuthorityIndex)|
            {
                &&& block.spec_reference().round == h.round + 1
                &&& block.spec_reference().author == vote.1
                &&& vote.0.round == h.round
                &&& exists|i: int| 0 <= i < n && #[trigger] block.spec_ancestors()[i] == vote.0
            },
    )
}

/// A longer list has the same votes among its first blocks.
proof fn lemma_cast_prefix(h: History, order: Seq<BlockRef>, r: BlockRef, n: int)
    requires
        n <= order.len(),
    ensures
        cast(h, order.push(r), n) == cast(h, order, n),
{
    assert forall|vote: (BlockRef, AuthorityIndex)| #[trigger]
        cast(h, order.push(r), n).contains(vote) <==> cast(h, order, n).contains(vote) by {
        assert forall|k: int| 0 <= k < n implies #[trigger] order.push(r)[k] == order[k] by {}
        if cast(h, order, n).contains(vote) {
            let k = choose|k: int|
                0 <= k < n && is_vote(h.block(#[trigger] order[k]), h.round, vote.0) && h.block(
                    order[k],
                ).spec_reference().author == vote.1;
            assert(order.push(r)[k] == order[k]);
        }
    }
    assert(cast(h, order.push(r), n) =~= cast(h, order, n));
}

/// The votes of one block more.
proof fn lemma_cast_next(h: History, order: Seq<BlockRef>, n: int)
    requires
        0 <= n < order.len(),
    ensures
        cast(h, order, n + 1) == cast(h, order, n).union(
            cast_by(
                h,
                h.block(order[n]),
                h.block(order[n]).spec_ancestors().len() as int,
            ),
        ),
{
    let block = h.block(order[n]);
    let len = block.spec_ancestors().len() as int;
    assert forall|vote: (BlockRef, AuthorityIndex)| #[trigger]
        cast(h, order, n + 1).contains(vote) <==> cast(h, order, n).union(
            cast_by(h, block, len),
        ).contains(vote) by {
        if cast_by(h, block, len).contains(vote) {
            assert(is_vote(h.block(order[n]), h.round, vote.0));
        }
        if cast(h, order, n).contains(vote) {
            let k = choose|k: int|
                0 <= k < n && is_vote(h.block(#[trigger] order[k]), h.round, vote.0) && h.block(
                    order[k],
                ).spec_reference().author == vote.1;
            assert(0 <= k < n + 1);
        }
    }
    assert(cast(h, order, n + 1) =~= cast(h, order, n).union(cast_by(h, block, len)));
}

/// The votes for one ancestor more.
proof fn lemma_cast_by_next(h: History, block: VerifiedBlock, i: int)
    requires
        0 <= i < block.spec_ancestors().len(),
    ensures
        cast_by(h, block, i + 1) == if block.spec_reference().round == h.round + 1
            && block.spec_ancestors()[i].round == h.round {
            cast_by(h, block, i).insert(
                (block.spec_ancestors()[i], block.spec_reference().author),
            )
        } else {
            cast_by(h, block, i)
        },
{
    let ancestor = block.spec_ancestors()[i];
    let author = block.spec_reference().author;
    assert forall|vote: (BlockRef, AuthorityIndex)| #[trigger]
        cast_by(h, block, i + 1).contains(vote) <==> (if block.spec_reference().round == h.round
            + 1 && ancestor.round == h.round {
            cast_by(h, block, i).insert((ancestor, author))
        } else {
            cast_by(h, block, i)
        }).contains(vote) by {
        if cast_by(h, block, i).contains(vote) {
            let k = choose|k: int| 0 <= k < i && #[trigger] block.spec_ancestors()[k] == vote.0;
            assert(0 <= k < i + 1);
        }
    }
    assert(cast_by(h, block, i + 1) =~= (if block.spec_reference().round == h.round + 1
        && ancestor.round == h.round {
        cast_by(h, block, i).insert((ancestor, author))
    } else {
        cast_by(h, block, i)
    }));
}

/// What the blocks that are listed first hold as ancestors is listed.
spec fn is_closed(h: History, order: Seq<BlockRef>, n: int) -> bool {
    forall|k: int, to: BlockRef|
        0 <= k < n && #[trigger] h.edge(#[trigger] order[k], to) ==> order.contains(to)
}

/// Those of the first `n` listed blocks that vote were made by members of the committee.
spec fn votes_of_members(committee: Committee, h: History, order: Seq<BlockRef>, n: int) -> bool {
    forall|k: int, leader: BlockRef|
        0 <= k < n && #[trigger] is_vote(h.block(#[trigger] order[k]), h.round, leader)
            ==> committee.has(h.block(order[k]).spec_reference().author)
}

/// One more step along ancestors.
proof fn lemma_step(h: History, from: BlockRef, to: BlockRef)
    requires
        h.reaches(from),
        h.edge(from, to),
    ensures
        h.reaches(to),
{
    let path = choose|path: Seq<BlockRef>| #[trigger] h.is_path(path) && path.last() == from;
    let longer = path.push(to);
    assert forall|i: int| 0 <= i < longer.len() - 1 implies h.edge(
        #[trigger] longer[i],
        longer[i + 1],
    ) by {
        assert(longer[i] == path[i]);
        if i < path.len() - 1 {
            assert(longer[i + 1] == path[i + 1]);
        }
    }
    assert(h.is_path(longer) && longer.last() == to);
}

/// A list that starts at the anchor and is closed holds the end of every path.
proof fn lemma_path_in_order(h: History, order: Seq<BlockRef>, path: Seq<BlockRef>)
    requires
        order.len() > 0,
        order[0] == h.anchor.spec_reference(),
        is_closed(h, order, order.len() as int),
        h.is_path(path),
    ensures
        order.contains(path.last()),
    decreases path.len(),
{
    if path.len() == 1 {
        assert(order[0] == path.last());
    } else {
        let shorter = path.drop_last();
        assert forall|i: int| 0 <= i < shorter.len() - 1 implies h.edge(
            #[trigger] shorter[i],
            shorter[i + 1],
        ) by {
            assert(h.edge(path[i], path[i + 1]));
        }
        lemma_path_in_order(h, order, shorter);
        let k = choose|k: int| 0 <= k < order.len() && order[k] == shorter.last();
        assert(h.edge(path[path.len() - 2], path[path.len() - 1]));
        assert(h.edge(order[k], path.last()));
    }
}

/// Once a list holds all that is reached and nothing else, its votes are those of the history.
proof fn lemma_cast_is_all(h: History, order: Seq<BlockRef>, leader: BlockRef)
    requires
        order.len() > 0,
        order[0] == h.anchor.spec_reference(),
        is_closed(h, order, order.len() as int),
        forall|k: int| 0 <= k < order.len() ==> h.reaches(#[trigger] order[k]),
    ensures
        forall|a: AuthorityIndex|
            cast(h, order, order.len() as int).contains((leader, a)) <==> #[trigger] h.voters(
                leader,
            ).contains(a),
{
    assert forall|a: AuthorityIndex|
        cast(h, order, order.len() as int).contains((leader, a)) <==> #[trigger] h.voters(
            leader,
        ).contains(a) by {
        if cast(h, order, order.len() as int).contains((leader, a)) {
            let k = choose|k: int|
                0 <= k < order.len() && is_vote(h.block(#[trigger] order[k]), h.round, leader)
                    && h.block(order[k]).spec_reference().author == a;
            assert(h.votes(order[k], leader));
        }
        if h.voters(leader).contains(a) {
            let r = choose|r: BlockRef| #[trigger]
                h.votes(r, leader) && h.block(r).spec_reference().author == a;
            let path = choose|path: Seq<BlockRef>| #[trigger] h.is_path(path) && path.last() == r;
            lemma_path_in_order(h, order, path);
            let k = choose|k: int| 0 <= k < order.len() && order[k] == r;
            assert(is_vote(h.block(order[k]), h.round, leader));
        }
    }
}

impl Search {
    /// The references that the walk has met, the anchor first.
    spec fn order(self, dag: DagState, h: History) -> Seq<BlockRef> {
        Seq::new(
            1 + self.met@.len(),
            |k: int|
                if k == 0 {
                    h.anchor.spec_reference()
                } else {
                    dag.reference_at(self.met@[k - 1] as int)
                },
        )
    }

    /// Of the blocks that have been put into the queue, all but the first `n` are still there.
    spec fn waits(self, n: int) -> bool {
        self.queue@ == self.met@.skip(n)
    }

    /// What the walk has met is of the history, and is marked as seen.
    spec fn wf_met(self, committee: Committee, dag: DagState, h: History) -> bool {
        let order = self.order(dag, h);
        &&& self.anchor == h.anchor.spec_reference()
        &&& self.round == h.round
        &&& tallies_wf(self.tallies@, committee)
        &&& self.seen@.len() == dag.spec_len()
        &&& forall|k: int|
            0 <= k < self.met@.len() ==> (#[trigger] self.met@[k]) < dag.spec_len()
                && dag.reference_at(self.met@[k] as int) != h.anchor.spec_reference()
        &&& forall|k: int| 0 <= k < order.len() ==> h.reaches(#[trigger] order[k])
        &&& forall|i: int|
            0 <= i < dag.spec_len() && self.seen@[i] ==> order.contains(
                #[trigger] dag.reference_at(i),
            )
    }

    /// The first `n` blocks have been visited.
    spec fn wf(self, committee: Committee, dag: DagState, h: History, n: int) -> bool {
        &&& self.wf_met(committee, dag, h)
        &&& 0 <= n <= 1 + self.met@.len()
        &&& is_closed(h, self.order(dag, h), n)
        &&& votes_of_members(committee, h, self.order(dag, h), n)
        &&& ballots(self.tallies@) == cast(h, self.order(dag, h), n)
    }

    fn start(
        committee: &Committee,
        dag: &DagState,
        anchor: &VerifiedBlock,
        round: Round,
        Ghost(h): Ghost<History>,
    ) -> (res: Self)
        requires
            dag.wf(),
            h.anchor == *anchor,
            h.round == round,
        ensures
            res.wf(*committee, *dag, h, 0),
            res.waits(0),
    {
        let mut seen: Vec<bool> = Vec::new();
        while seen.len() < dag.len()
            invariant
                seen@.len() <= dag.spec_len(),
                forall|i: int| 0 <= i < seen@.len() ==> !(#[trigger] seen@[i]),
            decreases dag.spec_len() - seen@.len(),
        {
            seen.push(false);
        }
        let res = Search {
            anchor: anchor.reference(),
            round,
            seen,
            queue: VecDeque::new(),
            met: Ghost(Seq::empty()),
            tallies: Vec::new(),
        };
        proof {
            assert(res.queue@ =~= res.met@.skip(0));
            let order = res.order(*dag, h);
            let path = seq![anchor.spec_reference()];
            assert(h.is_path(path) && path.last() == anchor.spec_reference());
            assert(ballots(res.tallies@) =~= cast(h, order, 0));
        }
        res
    }

    /// Counts the votes of a block that the walk has met, and queues those of its ancestors
    /// that the walk has not met before. Fails where one of these has not been accepted, or
    /// where the block votes and its author is not a member of the committee.
    fn visit(
        &mut self,
        committee: &Committee,
        dag: &DagState,
        block: &VerifiedBlock,
        Ghost(h): Ghost<History>,
        Ghost(n): Ghost<int>,
    ) -> (res: bool)
        requires
            committee.wf(),
            dag.wf(),
            h.blocks == dag.blocks(),
            old(self).wf(*committee, *dag, h, n),
            n < 1 + old(self).met@.len(),
            old(self).waits(n),
            *block == h.block(old(self).order(*dag, h)[n]),
        ensures
            !res ==> !(h.is_complete() && h.has_members(*committee)),
            res ==> final(self).wf(*committee, *dag, h, n + 1),
            final(self).waits(n),
            final(self).met@.len() >= old(self).met@.len(),
            final(self).met@.len() + unseen(final(self).seen@) == old(self).met@.len() + unseen(
                old(self).seen@,
            ),
    {
        let ghost from = self.order(*dag, h)[n];
        let votes: bool = self.round < u32::MAX && block.round() == self.round + 1;
        let ancestors = block.ancestors();
        let mut i: usize = 0;
        proof {
            assert(ballots(self.tallies@) =~= cast(h, self.order(*dag, h), n).union(
                cast_by(h, *block, 0),
            ));
        }
        while i < ancestors.len()
            invariant
                committee.wf(),
                dag.wf(),
                h.blocks == dag.blocks(),
                n >= 0,
                n < 1 + old(self).met@.len(),
                old(self).met@.len() <= self.met@.len(),
                from == self.order(*dag, h)[n],
                *block == h.block(from),
                votes == (block.spec_reference().round == h.round + 1),
                ancestors@ == block.spec_ancestors(),
                i <= ancestors@.len(),
                self.wf_met(*committee, *dag, h),
                self.waits(n),
                is_closed(h, self.order(*dag, h), n),
                votes_of_members(*committee, h, self.order(*dag, h), n),
                forall|k: int|
                    0 <= k < i && votes && (#[trigger] ancestors@[k]).round == h.round
                        ==> committee.has(block.spec_reference().author),
                forall|k: int|
                    0 <= k < i && (#[trigger] ancestors@[k]).round >= h.round ==> self.order(
                        *dag,
                        h,
                    ).contains(ancestors@[k]),
                ballots(self.tallies@) == cast(h, self.order(*dag, h), n).union(
                    cast_by(h, *block, i as int),
                ),
                self.met@.len() + unseen(self.seen@) == old(self).met@.len() + unseen(
                    old(self).seen@,
                ),
            decreases ancestors.len() - i,
        {
            let ancestor = ancestors[i];
            proof {
                assert(ancestors@.contains(ancestors@[i as int]));
                lemma_cast_by_next(h, *block, i as int);
            }
            if ancestor.round >= self.round {
                assert(h.edge(from, ancestor));
                if votes && ancestor.round == self.round {
                    assert(h.votes(from, ancestor));
                    if !committee.is_member(block.author()) {
                        return false;
                    }
                    record_vote(&mut self.tallies, committee, ancestor, block.author());
                }
                proof {
                    lemma_step(h, from, ancestor);
                }
                assert(ballots(self.tallies@) =~= cast(h, self.order(*dag, h), n).union(
                    cast_by(h, *block, i + 1),
                ));
                if !self.meet(dag, &ancestor, Ghost(h), Ghost(n), Ghost(*committee)) {
                    return false;
                }
            } else {
                assert(ballots(self.tallies@) =~= cast(h, self.order(*dag, h), n).union(
                    cast_by(h, *block, i + 1),
                ));
            }
            i += 1;
        }
        proof {
            let order = self.order(*dag, h);
            assert forall|k: int, to: BlockRef|
                0 <= k < n + 1 && #[trigger] h.edge(#[trigger] order[k], to) implies order.contains(
                to,
            ) by {
                if k == n {
                    let at = choose|at: int| 0 <= at < ancestors@.len() && ancestors@[at] == to;
                    assert(ancestors@[at].round >= h.round);
                }
            }
            assert forall|k: int, leader: BlockRef|
                0 <= k < n + 1 && #[trigger] is_vote(
                    h.block(#[trigger] order[k]),
                    h.round,
                    leader,
                ) implies committee.has(h.block(order[k]).spec_reference().author) by {
                if k == n {
                    let at = choose|at: int| 0 <= at < ancestors@.len() && ancestors@[at] == leader;
                    assert(ancestors@[at].round == h.round);
                }
            }
            lemma_cast_next(h, order, n);
            assert(ballots(self.tallies@) =~= cast(h, order, n + 1));
        }
        true
    }

    /// Queues a block of the history, unless it is the anchor or has been met before. Fails
    /// where the block has not been accepted.
    fn meet(
        &mut self,
        dag: &DagState,
        r: &BlockRef,
        Ghost(h): Ghost<History>,
        Ghost(n): Ghost<int>,
        Ghost(committee): Ghost<Committee>,
    ) -> (res: bool)
        requires
            dag.wf(),
            h.blocks == dag.blocks(),
            h.reaches(*r),
            old(self).wf_met(committee, *dag, h),
            0 <= n <= old(self).met@.len(),
            old(self).waits(n),
            is_closed(h, old(self).order(*dag, h), n),
            votes_of_members(committee, h, old(self).order(*dag, h), n),
        ensures
            !res ==> !h.is_complete(),
            final(self).wf_met(committee, *dag, h),
            final(self).waits(n),
            final(self).tallies == old(self).tallies,
            old(self).met@.len() <= final(self).met@.len(),
            final(self).order(*dag, h)[n] == old(self).order(*dag, h)[n],
            is_closed(h, final(self).order(*dag, h), n),
            votes_of_members(committee, h, final(self).order(*dag, h), n),
            cast(h, final(self).order(*dag, h), n) == cast(h, old(self).order(*dag, h), n),
            res ==> final(self).order(*dag, h).contains(*r),
            forall|q: BlockRef| #[trigger]
                old(self).order(*dag, h).contains(q) ==> final(self).order(*dag, h).contains(q),
            final(self).met@.len() + unseen(final(self).seen@) == old(self).met@.len() + unseen(
                old(self).seen@,
            ),
    {
        let ghost before = self.order(*dag, h);
        if *r == self.anchor {
            assert(before[0] == *r);
        } else {
            match dag.find(r) {
                Some(at) => {
                    if !self.seen[at] {
                        proof {
                            lemma_unseen(self.seen@, at as int);
                        }
                        let ghost count = before.len();
                        self.seen.set(at, true);
                        self.queue.push_back(at);
                        proof {
                            self.met@ = self.met@.push(at);
                            assert(self.queue@ =~= self.met@.skip(n));
                            let after = self.order(*dag, h);
                            assert(after =~= before.push(*r));
                            assert(after[count as int] == *r);
                            assert forall|q: BlockRef| #[trigger]
                                before.contains(q) implies after.contains(q) by {
                                let k = choose|k: int| 0 <= k < before.len() && before[k] == q;
                                assert(after[k] == q);
                            }
                            assert forall|k: int, to: BlockRef|
                                0 <= k < n && #[trigger] h.edge(
                                    #[trigger] after[k],
                                    to,
                                ) implies after.contains(to) by {
                                assert(h.edge(before[k], to));
                            }
                            assert forall|i: int|
                                0 <= i < dag.spec_len() && self.seen@[i] implies after.contains(
                                #[trigger] dag.reference_at(i),
                            ) by {
                                if i != at {
                                    assert(before.contains(dag.reference_at(i)));
                                }
                            }
                            assert forall|k: int, leader: BlockRef|
                                0 <= k < n && #[trigger] is_vote(
                                    h.block(#[trigger] after[k]),
                                    h.round,
                                    leader,
                                ) implies committee.has(
                                h.block(after[k]).spec_reference().author,
                            ) by {
                                assert(is_vote(h.block(before[k]), h.round, leader));
                            }
                            lemma_cast_prefix(h, before, *r, n);
                        }
                    }
                },
                None => {
                    return false;
                },
            }
        }
        true
    }
}

/// Walks the history of `anchor` down to `round` once and counts the votes of the next
/// round's blocks in it. There is none where a block of the history has not been accepted, or
/// where one that votes was not made by a member of the committee.
pub(crate) fn collect_votes(
    committee: &Committee,
    dag: &DagState,
    anchor: &VerifiedBlock,
    round: Round,
) -> (res: Option<Vec<Tally>>)
    requires
        committee.wf(),
        dag.wf(),
    ensures
        res is Some <==> history(*dag, *anchor, round).is_complete() && history(
            *dag,
            *anchor,
            round,
        ).has_members(*committee),
        res matches Some(tallies) ==> {
            &&& tallies_wf(tallies@, *committee)
            &&& forall|leader: BlockRef| #[trigger]
                tallied(tallies@, leader) == history(*dag, *anchor, round).voters(leader)
        },
{
    let ghost h = history(*dag, *anchor, round);
    let mut search = Search::start(committee, dag, anchor, round, Ghost(h));
    if !search.visit(committee, dag, anchor, Ghost(h), Ghost(0)) {
        return None;
    }
    let ghost mut visited: int = 0;
    let ghost bound = search.met@.len() + unseen(search.seen@);
    loop
        invariant
            committee.wf(),
            dag.wf(),
            h == history(*dag, *anchor, round),
            search.wf(*committee, *dag, h, visited + 1),
            search.waits(visited),
            0 <= visited <= search.met@.len(),
            bound == search.met@.len() + unseen(search.seen@),
        ensures
            visited == search.met@.len(),
        decreases bound - visited,
    {
        let at: usize = match search.queue.pop_front() {
            Some(at) => at,
            None => {
                break;
            },
        };
        proof {
            visited = visited + 1;
            assert(search.queue@ =~= search.met@.skip(visited));
            assert(search.order(*dag, h)[visited] == dag.reference_at(at as int));
        }
        let block = dag.block_at(at);
        if !search.visit(committee, dag, block, Ghost(h), Ghost(visited)) {
            return None;
        }
    }
    proof {
        let order = search.order(*dag, h);
        lemma_walk_is_whole(*committee, *dag, h, search);
        assert forall|leader: BlockRef| #[trigger]
            tallied(search.tallies@, leader) == h.voters(leader) by {
            lemma_cast_is_all(h, order, leader);
            assert forall|a: AuthorityIndex| #[trigger]
                tallied(search.tallies@, leader).contains(a) <==> h.voters(leader).contains(a) by {
                assert(ballots(search.tallies@).contains((leader, a)) <==> cast(
                    h,
                    order,
                    order.len() as int,
                ).contains((leader, a)));
            }
            assert(tallied(search.tallies@, leader) =~= h.voters(leader));
        }
    }
    Some(search.tallies)
}

/// A walk that has visited all that it met has met the whole history.
proof fn lemma_walk_is_whole(committee: Committee, dag: DagState, h: History, search: Search)
    requires
        dag.wf(),
        h.blocks == dag.blocks(),
        search.wf(committee, dag, h, search.met@.len() as int + 1),
    ensures
        h.is_complete(),
        h.has_members(committee),
{
    let order = search.order(dag, h);
    dag.lemma_positions();
    assert forall|r: BlockRef| #[trigger] h.reaches(r) implies order.contains(r) by {
        let path = choose|path: Seq<BlockRef>| #[trigger] h.is_path(path) && path.last() == r;
        lemma_path_in_order(h, order, path);
    }
    assert forall|r: BlockRef| #[trigger]
        h.reaches(r) && r != h.anchor.spec_reference() implies h.blocks.contains_key(r) by {
        assert(order.contains(r));
        let k = choose|k: int| 0 <= k < order.len() && order[k] == r;
        assert(search.met@[k - 1] < dag.spec_len());
        assert(dag.reference_at(search.met@[k - 1] as int) == r);
    }
    assert forall|r: BlockRef, leader: BlockRef| #[trigger]
        h.votes(r, leader) implies committee.has(h.block(r).spec_reference().author) by {
        assert(order.contains(r));
        let k = choose|k: int| 0 <= k < order.len() && order[k] == r;
        assert(is_vote(h.block(order[k]), h.round, leader));
    }
}

} // verus!
