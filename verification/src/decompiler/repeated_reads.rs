//! Reads that an execution may come to more than once.

use vstd::prelude::*;

use super::ast::{arm_trees, case_trees, exp_trees, one, Exp, Name, Op, Tree};
use super::name_counts::{capped, count, count_all, occurrences, own_names, NameCounts, Role};
use super::path_uses::{most_uses, path_uses, total_uses, Bound};

verus! {

/// A read of `name` stands in a loop or in an unstructured graph.
pub open spec fn may_repeat(t: Tree, name: Name) -> bool
    decreases t,
{
    match t.op {
        Op::Loop(_) | Op::While(_) | Op::Unstructured => count(t, Role::Read, name) > 0,
        _ => any_may_repeat(t.kids, name),
    }
}

pub open spec fn any_may_repeat(ts: Seq<Tree>, name: Name) -> bool
    decreases ts,
{
    ts.len() > 0 && (may_repeat(ts.first(), name) || any_may_repeat(ts.drop_first(), name))
}

proof fn lemma_any_cons(t: Tree, ts: Seq<Tree>, name: Name)
    ensures
        any_may_repeat(one(t) + ts, name) == (may_repeat(t, name) || any_may_repeat(ts, name)),
        any_may_repeat(one(t), name) == may_repeat(t, name),
{
    reveal_with_fuel(any_may_repeat, 2);
    assert((one(t) + ts).drop_first() =~= ts);
    assert(one(t).drop_first() =~= Seq::<Tree>::empty());
}

/// Whether a read of `name` in `exp` stands in a loop or in an unstructured graph.
pub fn read_may_repeat(exp: &Exp, name: &String) -> (res: bool)
    ensures
        res == may_repeat(exp@, name@),
    decreases exp,
{
    match exp {
        Exp::Loop(_, _) | Exp::While(_, _, _) | Exp::Unstructured(_) => {
            let counts = NameCounts::collect(exp);
            assert(counts.counted(Role::Read, name@) == capped(count(exp@, Role::Read, name@)));
            counts.reads(name.as_str()) > 0
        },
        Exp::Variable(_)
        | Exp::Value(_)
        | Exp::Constant(_)
        | Exp::Break(_)
        | Exp::Continue(_)
        | Exp::Declare(_) => {
            assert(exp@.kids.len() == 0);
            false
        },
        Exp::Assign(_, e)
        | Exp::LetBind(_, e)
        | Exp::Abort(e)
        | Exp::Borrow(_, e)
        | Exp::VecUnpack(_, e)
        | Exp::Unpack(_, _, e)
        | Exp::UnpackVariant(_, _, _, e) => {
            proof {
                lemma_any_cons(e@, Seq::empty(), name@);
            }
            read_may_repeat(e, name)
        },
        Exp::Sequence(items) | Exp::Return(items) | Exp::Call(_, items) => {
            any_of_items(items, name)
        },
        Exp::Primitive { op: _, args } | Exp::Data { op: _, args } => any_of_items(args, name),
        Exp::IfElse(cond, then_, else_) => {
            proof {
                let rest = exp@.kids.skip(1);
                let tail = exp@.kids.skip(2);
                assert(exp@.kids =~= one(cond@) + rest);
                assert(rest =~= one(then_@) + tail);
                lemma_any_cons(cond@, rest, name@);
                lemma_any_cons(then_@, tail, name@);
                match &**else_ {
                    Some(e) => {
                        assert(tail =~= one(e@));
                        lemma_any_cons(e@, Seq::empty(), name@);
                    },
                    None => {
                        assert(tail =~= Seq::<Tree>::empty());
                    },
                }
            }
            let in_else: bool = match &**else_ {
                Some(e) => read_may_repeat(e, name),
                None => false,
            };
            in_else || read_may_repeat(cond, name) || read_may_repeat(then_, name)
        },
        Exp::Switch(subject, _, cases) => {
            proof {
                lemma_any_cons(subject@, case_trees(cases@), name@);
            }
            read_may_repeat(subject, name) || any_of_cases(cases, name)
        },
        Exp::Match(subject, _, arms) => {
            proof {
                lemma_any_cons(subject@, arm_trees(arms@), name@);
            }
            read_may_repeat(subject, name) || any_of_arms(arms, name)
        },
    }
}

fn any_of_items(items: &Vec<Exp>, name: &String) -> (res: bool)
    ensures
        res == any_may_repeat(exp_trees(items@), name@),
    decreases items,
{
    let ghost ts = exp_trees(items@);
    let mut i: usize = 0;
    assert(ts.skip(0) =~= ts);
    while i < items.len()
        invariant
            i <= items@.len(),
            ts == exp_trees(items@),
            any_may_repeat(ts, name@) == any_may_repeat(ts.skip(i as int), name@),
        decreases items.len() - i,
    {
        assert(ts.skip(i as int).drop_first() =~= ts.skip(i + 1));
        if read_may_repeat(&items[i], name) {
            return true;
        }
        i += 1;
    }
    false
}

fn any_of_cases(cases: &Vec<(String, Exp)>, name: &String) -> (res: bool)
    ensures
        res == any_may_repeat(case_trees(cases@), name@),
    decreases cases,
{
    let ghost ts = case_trees(cases@);
    let mut i: usize = 0;
    assert(ts.skip(0) =~= ts);
    while i < cases.len()
        invariant
            i <= cases@.len(),
            ts == case_trees(cases@),
            any_may_repeat(ts, name@) == any_may_repeat(ts.skip(i as int), name@),
        decreases cases.len() - i,
    {
        proof {
            assert(ts.skip(i as int).drop_first() =~= ts.skip(i + 1));
            lemma_any_cons(cases@[i as int].1@, Seq::empty(), name@);
            assert(ts[i as int].kids =~= one(cases@[i as int].1@));
            assert(may_repeat(ts[i as int], name@) == any_may_repeat(ts[i as int].kids, name@));
        }
        if read_may_repeat(&cases[i].1, name) {
            return true;
        }
        i += 1;
    }
    false
}

fn any_of_arms(arms: &Vec<(String, Vec<(String, String)>, Exp)>, name: &String) -> (res: bool)
    ensures
        res == any_may_repeat(arm_trees(arms@), name@),
    decreases arms,
{
    let ghost ts = arm_trees(arms@);
    let mut i: usize = 0;
    assert(ts.skip(0) =~= ts);
    while i < arms.len()
        invariant
            i <= arms@.len(),
            ts == arm_trees(arms@),
            any_may_repeat(ts, name@) == any_may_repeat(ts.skip(i as int), name@),
        decreases arms.len() - i,
    {
        proof {
            assert(ts.skip(i as int).drop_first() =~= ts.skip(i + 1));
            lemma_any_cons(arms@[i as int].2@, Seq::empty(), name@);
            assert(ts[i as int].kids =~= one(arms@[i as int].2@));
            assert(may_repeat(ts[i as int], name@) == any_may_repeat(ts[i as int].kids, name@));
        }
        if read_may_repeat(&arms[i].2, name) {
            return true;
        }
        i += 1;
    }
    false
}

/// The most reads of `name` on any single execution path through `t`, as [`path_uses`], but an
/// unstructured graph counts only where it reads the name: then it has no bound.
pub open spec fn path_reads(t: Tree, name: Name) -> Bound
    decreases t,
{
    match t.op {
        Op::Variable(n) => Bound::Finite(
            if n == name {
                1
            } else {
                0
            },
        ),
        Op::IfElse | Op::Switch(_) | Op::Match(_) => if t.kids.len() == 0 {
            Bound::Finite(0)
        } else {
            path_reads(t.kids.first(), name).plus(most_reads(t.kids.drop_first(), name))
        },
        Op::Loop(_) | Op::While(_) => total_reads(t.kids, name).repeated(),
        Op::Unstructured => if count(t, Role::Read, name) > 0 {
            Bound::Unbounded
        } else {
            Bound::Finite(0)
        },
        _ => total_reads(t.kids, name),
    }
}

/// The most reads on a path that runs through all of `ts`.
pub open spec fn total_reads(ts: Seq<Tree>, name: Name) -> Bound
    decreases ts,
{
    if ts.len() == 0 {
        Bound::Finite(0)
    } else {
        path_reads(ts.first(), name).plus(total_reads(ts.drop_first(), name))
    }
}

/// The most reads on a path that runs through one of `ts`.
pub open spec fn most_reads(ts: Seq<Tree>, name: Name) -> Bound
    decreases ts,
{
    if ts.len() == 0 {
        Bound::Finite(0)
    } else {
        path_reads(ts.first(), name).or(most_reads(ts.drop_first(), name))
    }
}

/// Where [`path_uses`] finds a bound, there is no unstructured graph, and the bound is that of
/// the reads.
pub proof fn law_path_uses_bound_reads(t: Tree, name: Name)
    ensures
        path_uses(t, name) is Finite ==> path_reads(t, name) == path_uses(t, name),
    decreases t, 1int,
{
    lemma_uses_bound_reads(t.kids, name);
    if t.kids.len() > 0 {
        law_path_uses_bound_reads(t.kids.first(), name);
        lemma_uses_bound_reads(t.kids.drop_first(), name);
    }
}

proof fn lemma_uses_bound_reads(ts: Seq<Tree>, name: Name)
    ensures
        total_uses(ts, name) is Finite ==> total_reads(ts, name) == total_uses(ts, name),
        most_uses(ts, name) is Finite ==> most_reads(ts, name) == most_uses(ts, name),
    decreases ts, 0int,
{
    if ts.len() > 0 {
        law_path_uses_bound_reads(ts.first(), name);
        lemma_uses_bound_reads(ts.drop_first(), name);
    }
}

/// Where no read of a name stands in a loop or in an unstructured graph, a path reads it no
/// more often than the whole tree mentions it as a variable.
pub proof fn law_path_reads_within_reads(t: Tree, name: Name)
    requires
        !may_repeat(t, name),
    ensures
        path_reads(t, name).at_most(count(t, Role::Read, name)),
    decreases t, 1int,
{
    match t.op {
        Op::Variable(n) => {
            assert(own_names(t.op, Role::Read) == seq![n]);
            assert(occurrences(seq![n], name) >= (if n == name {
                1nat
            } else {
                0nat
            })) by {
                assert(seq![n].first() == n);
            }
        },
        Op::Loop(_) | Op::While(_) => {
            lemma_unread(t.kids, name);
        },
        Op::Unstructured => {},
        _ => {
            lemma_path_reads_within_reads(t.kids, name);
            if t.kids.len() > 0 {
                law_path_reads_within_reads(t.kids.first(), name);
                lemma_path_reads_within_reads(t.kids.drop_first(), name);
            }
        },
    }
}

proof fn lemma_path_reads_within_reads(ts: Seq<Tree>, name: Name)
    requires
        !any_may_repeat(ts, name),
    ensures
        total_reads(ts, name).at_most(count_all(ts, Role::Read, name)),
        most_reads(ts, name).at_most(count_all(ts, Role::Read, name)),
    decreases ts, 0int,
{
    if ts.len() > 0 {
        law_path_reads_within_reads(ts.first(), name);
        lemma_path_reads_within_reads(ts.drop_first(), name);
    }
}

/// What is not read at all is not read on a path.
proof fn lemma_unread(ts: Seq<Tree>, name: Name)
    requires
        count_all(ts, Role::Read, name) == 0,
    ensures
        !any_may_repeat(ts, name),
        total_reads(ts, name) == Bound::Finite(0),
        most_reads(ts, name) == Bound::Finite(0),
    decreases ts, 1int,
{
    if ts.len() > 0 {
        let t = ts.first();
        lemma_unread(ts.drop_first(), name);
        lemma_unread_tree(t, name);
    }
}

proof fn lemma_unread_tree(t: Tree, name: Name)
    requires
        count(t, Role::Read, name) == 0,
    ensures
        !may_repeat(t, name),
        path_reads(t, name) == Bound::Finite(0),
    decreases t, 2int,
{
    lemma_unread(t.kids, name);
    match t.op {
        Op::Variable(n) => {
            assert(own_names(t.op, Role::Read) == seq![n]);
            if n == name {
                assert(seq![n].first() == n);
                assert(occurrences(seq![n], name) >= 1);
            }
        },
        Op::IfElse | Op::Switch(_) | Op::Match(_) => {
            if t.kids.len() > 0 {
                lemma_unread_tree(t.kids.first(), name);
                lemma_unread(t.kids.drop_first(), name);
            }
        },
        _ => {},
    }
}

} // verus!
