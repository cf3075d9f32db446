//! How often a name can be read on one execution path.

use vstd::prelude::*;

use super::ast::{arm_trees, case_trees, exp_trees, one, Exp, Name, Op, Tree};
use super::name_counts::{count, count_all, Role};

verus! {

/// A number of reads, or no bound on it.
pub enum Bound {
    Finite(nat),
    Unbounded,
}

impl Bound {
    /// Both parts run.
    pub open spec fn plus(self, other: Bound) -> Bound {
        match (self, other) {
            (Bound::Finite(a), Bound::Finite(b)) => Bound::Finite(a + b),
            _ => Bound::Unbounded,
        }
    }

    /// One of the two parts runs.
    pub open spec fn or(self, other: Bound) -> Bound {
        match (self, other) {
            (Bound::Finite(a), Bound::Finite(b)) => Bound::Finite(
                if a >= b {
                    a
                } else {
                    b
                },
            ),
            _ => Bound::Unbounded,
        }
    }

    /// The part runs any number of times.
    pub open spec fn repeated(self) -> Bound {
        if self == Bound::Finite(0) {
            Bound::Finite(0)
        } else {
            Bound::Unbounded
        }
    }

    /// At most `limit` reads.
    pub open spec fn at_most(self, limit: nat) -> bool {
        self matches Bound::Finite(n) && n <= limit
    }

    /// The bound as a machine word, whose largest value stands for everything that does not
    /// fit and for what has no bound.
    pub open spec fn as_word(self) -> int {
        match self {
            Bound::Finite(n) => if n <= usize::MAX {
                n as int
            } else {
                usize::MAX as int
            },
            Bound::Unbounded => usize::MAX as int,
        }
    }
}

/// The most reads of `name` on any single execution path through `t`.
///
/// All parts of a sequence run, one branch of a conditional runs, and what a loop reads it may
/// read any number of times. The paths through an unstructured graph are not followed: it has
/// no bound.
pub open spec fn path_uses(t: Tree, name: Name) -> Bound
    decreases t,
{
    match t.op {
        Op::Variable(n) => Bound::Finite(
            if n == name {
                1
            } else {
                0
            },
        ),
        Op::IfElse | Op::Switch(_) | Op::Match(_) => if t.kids.len() == 0 {
            Bound::Finite(0)
        } else {
            path_uses(t.kids.first(), name).plus(most_uses(t.kids.drop_first(), name))
        },
        Op::Loop(_) | Op::While(_) => total_uses(t.kids, name).repeated(),
        Op::Unstructured => Bound::Unbounded,
        _ => total_uses(t.kids, name),
    }
}

/// The most reads on a path that runs through all of `ts`.
pub open spec fn total_uses(ts: Seq<Tree>, name: Name) -> Bound
    decreases ts,
{
    if ts.len() == 0 {
        Bound::Finite(0)
    } else {
        path_uses(ts.first(), name).plus(total_uses(ts.drop_first(), name))
    }
}

/// The most reads on a path that runs through one of `ts`.
pub open spec fn most_uses(ts: Seq<Tree>, name: Name) -> Bound
    decreases ts,
{
    if ts.len() == 0 {
        Bound::Finite(0)
    } else {
        path_uses(ts.first(), name).or(most_uses(ts.drop_first(), name))
    }
}

proof fn lemma_total_cons(t: Tree, ts: Seq<Tree>, name: Name)
    ensures
        total_uses(one(t) + ts, name) == path_uses(t, name).plus(total_uses(ts, name)),
        most_uses(one(t) + ts, name) == path_uses(t, name).or(most_uses(ts, name)),
        total_uses(one(t), name) == path_uses(t, name),
        most_uses(one(t), name) == path_uses(t, name),
{
    reveal_with_fuel(total_uses, 2);
    reveal_with_fuel(most_uses, 2);
    assert((one(t) + ts).drop_first() =~= ts);
    assert(one(t).drop_first() =~= Seq::<Tree>::empty());
}

proof fn lemma_skip(ts: Seq<Tree>, i: int, name: Name)
    requires
        0 <= i < ts.len(),
    ensures
        total_uses(ts.skip(i), name) == path_uses(ts[i], name).plus(
            total_uses(ts.skip(i + 1), name),
        ),
        most_uses(ts.skip(i), name) == path_uses(ts[i], name).or(most_uses(ts.skip(i + 1), name)),
{
    assert(ts.skip(i).drop_first() =~= ts.skip(i + 1));
}

/// Maximum reads of `name` along any single execution path through `exp`. Loop and while
/// bodies that contain any read give `usize::MAX`, since the loop may iterate. Branches
/// contribute the maximum of their arms (only one runs), sequences the saturating sum (all
/// run), and an unstructured graph, whose nodes may be reached in any order, `usize::MAX`.
pub fn max_uses_per_path(exp: &Exp, name: &String) -> (res: usize)
    ensures
        res == path_uses(exp@, name@).as_word(),
    decreases exp,
{
    assert(exp@.kids.len() == 0 ==> total_uses(exp@.kids, name@) == Bound::Finite(0));
    match exp {
        Exp::Variable(n) => if *n == *name {
            1
        } else {
            0
        },
        Exp::Value(_)
        | Exp::Constant(_)
        | Exp::Break(_)
        | Exp::Continue(_)
        | Exp::Declare(_) => 0,
        Exp::Sequence(items) | Exp::Return(items) | Exp::Call(_, items) => {
            total_uses_of(items, name)
        },
        Exp::Primitive { op: _, args } | Exp::Data { op: _, args } => total_uses_of(args, name),
        Exp::IfElse(cond, then_, else_) => {
            let c = max_uses_per_path(cond, name);
            let t = max_uses_per_path(then_, name);
            let e: usize = match &**else_ {
                Some(e) => max_uses_per_path(e, name),
                None => 0,
            };
            proof {
                let rest = exp@.kids.drop_first();
                let tail = exp@.kids.skip(2);
                assert(rest =~= one(then_@) + tail);
                lemma_total_cons(then_@, tail, name@);
                match &**else_ {
                    Some(e) => {
                        assert(tail =~= one(e@));
                        lemma_total_cons(e@, tail, name@);
                    },
                    None => {
                        assert(tail =~= Seq::<Tree>::empty());
                    },
                }
            }
            c.saturating_add(
                if t >= e {
                    t
                } else {
                    e
                },
            )
        },
        Exp::Switch(subject, _, cases) => {
            let s = max_uses_per_path(subject, name);
            let m = most_uses_of_cases(cases, name);
            assert(exp@.kids.drop_first() =~= case_trees(cases@));
            s.saturating_add(m)
        },
        Exp::Match(subject, _, arms) => {
            let s = max_uses_per_path(subject, name);
            let m = most_uses_of_arms(arms, name);
            assert(exp@.kids.drop_first() =~= arm_trees(arms@));
            s.saturating_add(m)
        },
        Exp::Loop(_, body) => {
            proof {
                lemma_total_cons(body@, Seq::empty(), name@);
            }
            if max_uses_per_path(body, name) > 0 {
                usize::MAX
            } else {
                0
            }
        },
        Exp::While(_, cond, body) => {
            proof {
                assert(exp@.kids =~= one(cond@) + one(body@));
                lemma_total_cons(cond@, one(body@), name@);
                lemma_total_cons(body@, Seq::empty(), name@);
            }
            if max_uses_per_path(cond, name) > 0 || max_uses_per_path(body, name) > 0 {
                usize::MAX
            } else {
                0
            }
        },
        Exp::Assign(_, e)
        | Exp::LetBind(_, e)
        | Exp::Abort(e)
        | Exp::Borrow(_, e)
        | Exp::VecUnpack(_, e)
        | Exp::Unpack(_, _, e)
        | Exp::UnpackVariant(_, _, _, e) => {
            proof {
                lemma_total_cons(e@, Seq::empty(), name@);
            }
            max_uses_per_path(e, name)
        },
        Exp::Unstructured(_) => usize::MAX,
    }
}

fn total_uses_of(items: &Vec<Exp>, name: &String) -> (res: usize)
    ensures
        res == total_uses(exp_trees(items@), name@).as_word(),
    decreases items,
{
    let ghost ts = exp_trees(items@);
    let mut total: usize = 0;
    let mut i: usize = 0;
    assert(ts.skip(0) =~= ts);
    while i < items.len()
        invariant
            i <= items@.len(),
            ts == exp_trees(items@),
            total_uses(ts, name@).as_word() == saturated(
                total + total_uses(ts.skip(i as int), name@).as_word(),
            ),
        decreases items.len() - i,
    {
        proof {
            lemma_skip(ts, i as int, name@);
        }
        total = total.saturating_add(max_uses_per_path(&items[i], name));
        i += 1;
    }
    assert(ts.skip(i as int) =~= Seq::<Tree>::empty());
    total
}

spec fn saturated(n: int) -> int {
    if n <= usize::MAX {
        n
    } else {
        usize::MAX as int
    }
}

fn most_uses_of_cases(cases: &Vec<(String, Exp)>, name: &String) -> (res: usize)
    ensures
        res == most_uses(case_trees(cases@), name@).as_word(),
    decreases cases,
{
    let ghost ts = case_trees(cases@);
    let mut most: usize = 0;
    let mut i: usize = 0;
    assert(ts.skip(0) =~= ts);
    while i < cases.len()
        invariant
            i <= cases@.len(),
            ts == case_trees(cases@),
            most_uses(ts, name@).as_word() == larger(
                most as int,
                most_uses(ts.skip(i as int), name@).as_word(),
            ),
        decreases cases.len() - i,
    {
        proof {
            lemma_skip(ts, i as int, name@);
            lemma_total_cons(cases@[i as int].1@, Seq::empty(), name@);
        }
        let uses = max_uses_per_path(&cases[i].1, name);
        if uses > most {
            most = uses;
        }
        i += 1;
    }
    assert(ts.skip(i as int) =~= Seq::<Tree>::empty());
    most
}

fn most_uses_of_arms(arms: &Vec<(String, Vec<(String, String)>, Exp)>, name: &String) -> (res:
    usize)
    ensures
        res == most_uses(arm_trees(arms@), name@).as_word(),
    decreases arms,
{
    let ghost ts = arm_trees(arms@);
    let mut most: usize = 0;
    let mut i: usize = 0;
    assert(ts.skip(0) =~= ts);
    while i < arms.len()
        invariant
            i <= arms@.len(),
            ts == arm_trees(arms@),
            most_uses(ts, name@).as_word() == larger(
                most as int,
                most_uses(ts.skip(i as int), name@).as_word(),
            ),
        decreases arms.len() - i,
    {
        proof {
            lemma_skip(ts, i as int, name@);
            lemma_total_cons(arms@[i as int].2@, Seq::empty(), name@);
        }
        let uses = max_uses_per_path(&arms[i].2, name);
        if uses > most {
            most = uses;
        }
        i += 1;
    }
    assert(ts.skip(i as int) =~= Seq::<Tree>::empty());
    most
}

spec fn larger(a: int, b: int) -> int {
    if a >= b {
        a
    } else {
        b
    }
}

/// Where the number of reads on a path has a bound, no path reads a name more often than the
/// whole tree mentions it as a variable.
pub proof fn law_path_uses_within_reads(t: Tree, name: Name)
    ensures
        path_uses(t, name) matches Bound::Finite(n) ==> n <= count(t, Role::Read, name),
    decreases t, 1int,
{
    lemma_uses_within_reads(t.kids, name);
    match t.op {
        Op::Variable(n) => {
            assert(super::name_counts::own_names(t.op, Role::Read) == seq![n]);
            assert(super::name_counts::occurrences(seq![n], name) >= (if n == name {
                1nat
            } else {
                0nat
            })) by {
                assert(seq![n].first() == n);
            }
        },
        Op::IfElse | Op::Switch(_) | Op::Match(_) => {
            if t.kids.len() > 0 {
                law_path_uses_within_reads(t.kids.first(), name);
                lemma_uses_within_reads(t.kids.drop_first(), name);
            }
        },
        _ => {},
    }
}

proof fn lemma_uses_within_reads(ts: Seq<Tree>, name: Name)
    ensures
        total_uses(ts, name) matches Bound::Finite(n) ==> n <= count_all(ts, Role::Read, name),
        most_uses(ts, name) matches Bound::Finite(n) ==> n <= count_all(ts, Role::Read, name),
    decreases ts, 0int,
{
    if ts.len() > 0 {
        law_path_uses_within_reads(ts.first(), name);
        lemma_uses_within_reads(ts.drop_first(), name);
    }
}

} // verus!
