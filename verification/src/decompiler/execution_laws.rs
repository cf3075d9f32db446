//! Executions, and how often they read a name.

use vstd::prelude::*;

use super::ast::{Name, Op, Tree};
use super::inline_laws::proper;
use super::inline_single_use_bindings::once_on_a_path;
use super::name_counts::{count, count_all, occurrences, own_names, Role};
use super::path_uses::{most_uses, path_uses, total_uses, Bound};
use super::repeated_reads::{
    any_may_repeat, law_path_reads_within_reads, may_repeat, most_reads, path_reads, total_reads,
};

verus! {

/// The sum of a list of numbers.
pub open spec fn sum(parts: Seq<nat>) -> nat
    decreases parts.len(),
{
    if parts.len() == 0 {
        0
    } else {
        sum(parts.drop_last()) + parts.last()
    }
}

/// A number and the two parts that make it up.
pub open spec fn splits(n: nat, a: nat, b: nat) -> bool {
    n == a + b
}

/// An execution of `t` reads `x` exactly `n` times.
///
/// A conditional runs its condition and one of its branches, or none where it has no `else`. A
/// loop runs its parts any number of times. Of an unstructured graph any nodes run, in any
/// order and any number of times. All parts of anything else run.
pub open spec fn runs(t: Tree, x: Name, n: nat) -> bool
    decreases t, 1int,
{
    match t.op {
        Op::Variable(m) => n == (if m == x {
            1nat
        } else {
            0nat
        }),
        Op::IfElse => if t.kids.len() == 0 {
            n == 0
        } else {
            exists|a: nat, b: nat| #[trigger]
                splits(n, a, b) && runs(t.kids.first(), x, a) && (one_runs(
                    t.kids.drop_first(),
                    x,
                    b,
                ) || t.kids.len() == 2 && b == 0)
        },
        Op::Switch(_) | Op::Match(_) => if t.kids.len() == 0 {
            n == 0
        } else {
            exists|a: nat, b: nat| #[trigger]
                splits(n, a, b) && runs(t.kids.first(), x, a) && one_runs(
                    t.kids.drop_first(),
                    x,
                    b,
                )
        },
        Op::Loop(_) | Op::While(_) => exists|parts: Seq<nat>| #[trigger]
            sum(parts) == n && forall|i: int|
                0 <= i < parts.len() ==> all_run(t.kids, x, #[trigger] parts[i]),
        Op::Unstructured => exists|parts: Seq<nat>| #[trigger]
            sum(parts) == n && forall|i: int|
                0 <= i < parts.len() ==> one_runs(t.kids, x, #[trigger] parts[i]),
        _ => all_run(t.kids, x, n),
    }
}

/// An execution of all of `ts` reads `x` exactly `n` times.
pub open spec fn all_run(ts: Seq<Tree>, x: Name, n: nat) -> bool
    decreases ts, 0int,
{
    if ts.len() == 0 {
        n == 0
    } else {
        exists|a: nat, b: nat| #[trigger]
            splits(n, a, b) && runs(ts.first(), x, a) && all_run(ts.drop_first(), x, b)
    }
}

/// An execution of one of `ts` reads `x` exactly `n` times; without any, nothing is read.
pub open spec fn one_runs(ts: Seq<Tree>, x: Name, n: nat) -> bool
    decreases ts, 0int,
{
    if ts.len() == 0 {
        n == 0
    } else {
        runs(ts.first(), x, n) || ts.len() > 1 && one_runs(ts.drop_first(), x, n)
    }
}

/// Some execution of `t` reads `x` at least so often.
pub open spec fn reads_at_least(t: Tree, x: Name, least: nat) -> bool {
    exists|n: nat| n >= least && #[trigger] runs(t, x, n)
}

/// No execution of `t` reads `x` more often than the bound says, and one reads it as often;
/// without a bound, executions read it more often than any number.
pub open spec fn is_bound(b: Bound, t: Tree, x: Name) -> bool {
    match b {
        Bound::Finite(m) => runs(t, x, m) && forall|n: nat| #[trigger] runs(t, x, n) ==> n <= m,
        Bound::Unbounded => forall|least: nat| #[trigger] reads_at_least(t, x, least),
    }
}

spec fn all_at_least(ts: Seq<Tree>, x: Name, least: nat) -> bool {
    exists|n: nat| n >= least && #[trigger] all_run(ts, x, n)
}

spec fn is_bound_of_all(b: Bound, ts: Seq<Tree>, x: Name) -> bool {
    match b {
        Bound::Finite(m) => all_run(ts, x, m) && forall|n: nat| #[trigger]
            all_run(ts, x, n) ==> n <= m,
        Bound::Unbounded => forall|least: nat| #[trigger] all_at_least(ts, x, least),
    }
}

spec fn one_at_least(ts: Seq<Tree>, x: Name, least: nat) -> bool {
    exists|n: nat| n >= least && #[trigger] one_runs(ts, x, n)
}

spec fn is_bound_of_one(b: Bound, ts: Seq<Tree>, x: Name) -> bool {
    match b {
        Bound::Finite(m) => one_runs(ts, x, m) && forall|n: nat| #[trigger]
            one_runs(ts, x, n) ==> n <= m,
        Bound::Unbounded => forall|least: nat| #[trigger] one_at_least(ts, x, least),
    }
}

/// An execution of a tree, of all and of one of a list, for a number that the bound allows.
proof fn lemma_a_run(b: Bound, t: Tree, x: Name, least: nat) -> (n: nat)
    requires
        is_bound(b, t, x),
        b is Unbounded || least == 0,
    ensures
        runs(t, x, n),
        n >= least,
{
    match b {
        Bound::Finite(m) => m,
        Bound::Unbounded => {
            assert(reads_at_least(t, x, least));
            choose|n: nat| n >= least && #[trigger] runs(t, x, n)
        },
    }
}

proof fn lemma_a_run_of_all(b: Bound, ts: Seq<Tree>, x: Name, least: nat) -> (n: nat)
    requires
        is_bound_of_all(b, ts, x),
        b is Unbounded || least == 0 || (b matches Bound::Finite(m) && least <= m),
    ensures
        all_run(ts, x, n),
        n >= least,
{
    match b {
        Bound::Finite(m) => m,
        Bound::Unbounded => {
            assert(all_at_least(ts, x, least));
            choose|n: nat| n >= least && #[trigger] all_run(ts, x, n)
        },
    }
}

proof fn lemma_a_run_of_one(b: Bound, ts: Seq<Tree>, x: Name, least: nat) -> (n: nat)
    requires
        is_bound_of_one(b, ts, x),
        b is Unbounded || least == 0 || (b matches Bound::Finite(m) && least <= m),
    ensures
        one_runs(ts, x, n),
        n >= least,
{
    match b {
        Bound::Finite(m) => m,
        Bound::Unbounded => {
            assert(one_at_least(ts, x, least));
            choose|n: nat| n >= least && #[trigger] one_runs(ts, x, n)
        },
    }
}

/// The same number over and over.
spec fn copies(p: nat, k: nat) -> Seq<nat> {
    Seq::new(k, |i: int| p)
}

proof fn lemma_sum_of_copies(p: nat, k: nat)
    requires
        p >= 1,
    ensures
        sum(copies(p, k)) >= k,
    decreases k,
{
    if k > 0 {
        assert(copies(p, k).drop_last() =~= copies(p, (k - 1) as nat));
        lemma_sum_of_copies(p, (k - 1) as nat);
    }
}

proof fn lemma_sum_of_zeros(parts: Seq<nat>)
    requires
        forall|i: int| 0 <= i < parts.len() ==> #[trigger] parts[i] == 0,
    ensures
        sum(parts) == 0,
    decreases parts.len(),
{
    if parts.len() > 0 {
        assert forall|i: int| 0 <= i < parts.drop_last().len() implies #[trigger] parts.drop_last()[i]
            == 0 by {
            assert(parts[i] == 0);
        }
        assert(parts[parts.len() - 1] == 0);
        lemma_sum_of_zeros(parts.drop_last());
    }
}

/// The bound on the reads of a path is that of the executions: none reads the name more often,
/// one reads it as often, and without a bound there is no end to it.
pub proof fn law_path_reads_bound_executions(t: Tree, x: Name)
    requires
        proper(t),
    ensures
        is_bound(path_reads(t, x), t, x),
    decreases t, 2int,
{
    match t.op {
        Op::Variable(_) => {},
        Op::IfElse | Op::Switch(_) | Op::Match(_) => {
            if t.kids.len() > 0 {
                lemma_branches(t, x);
            }
        },
        Op::Loop(_) | Op::While(_) => {
            lemma_lists(t.kids, x);
            lemma_loop(t, x);
        },
        Op::Unstructured => {
            lemma_lists(t.kids, x);
            lemma_graph(t, x);
        },
        _ => {
            lemma_lists(t.kids, x);
            if path_reads(t, x) is Unbounded {
                assert forall|least: nat| #[trigger] reads_at_least(t, x, least) by {
                    let n = lemma_a_run_of_all(Bound::Unbounded, t.kids, x, least);
                    assert(runs(t, x, n));
                }
            } else {
                assert forall|n: nat| #[trigger] runs(t, x, n) implies all_run(t.kids, x, n) by {}
                assert(runs(t, x, path_reads(t, x)->Finite_0));
            }
        },
    }
}

proof fn lemma_branches(t: Tree, x: Name)
    requires
        proper(t),
        t.op is IfElse || t.op is Switch || t.op is Match,
        t.kids.len() > 0,
    ensures
        is_bound(path_reads(t, x), t, x),
    decreases t, 1int,
{
    let head = t.kids.first();
    let rest = t.kids.drop_first();
    assert(proper(t.kids[0]));
    assert forall|i: int| 0 <= i < rest.len() implies proper(#[trigger] rest[i]) by {
        assert(proper(t.kids[i + 1]));
    }
    law_path_reads_bound_executions(head, x);
    lemma_lists(rest, x);
    let a = path_reads(head, x);
    let b = most_reads(rest, x);
    match (a, b) {
        (Bound::Finite(i), Bound::Finite(j)) => {
            assert(splits(i + j, i, j));
            assert(runs(t, x, i + j));
            assert forall|n: nat| #[trigger] runs(t, x, n) implies n <= i + j by {
                let (c, d) = choose|c: nat, d: nat| #[trigger]
                    splits(n, c, d) && runs(head, x, c) && (one_runs(rest, x, d)
                        || t.kids.len() == 2 && d == 0);
                if one_runs(rest, x, d) {
                    assert(d <= j);
                }
                assert(c <= i);
            }
        },
        _ => {
            assert forall|least: nat| #[trigger] reads_at_least(t, x, least) by {
                let c = lemma_a_run(
                    a,
                    head,
                    x,
                    if a is Unbounded {
                        least
                    } else {
                        0
                    },
                );
                let d = lemma_a_run_of_one(
                    b,
                    rest,
                    x,
                    if b is Unbounded {
                        least
                    } else {
                        0
                    },
                );
                assert(splits(c + d, c, d));
                assert(runs(t, x, c + d));
            }
        },
    }
}

proof fn lemma_loop(t: Tree, x: Name)
    requires
        t.op is Loop || t.op is While,
        is_bound_of_all(total_reads(t.kids, x), t.kids, x),
    ensures
        is_bound(path_reads(t, x), t, x),
{
    let b = total_reads(t.kids, x);
    if b == Bound::Finite(0) {
        assert(sum(Seq::<nat>::empty()) == 0);
        assert(runs(t, x, 0));
        assert forall|n: nat| #[trigger] runs(t, x, n) implies n <= 0 by {
            let parts = choose|parts: Seq<nat>| #[trigger]
                sum(parts) == n && forall|i: int|
                    0 <= i < parts.len() ==> all_run(t.kids, x, #[trigger] parts[i]);
            assert forall|i: int| 0 <= i < parts.len() implies #[trigger] parts[i] == 0 by {
                assert(all_run(t.kids, x, parts[i]));
            }
            lemma_sum_of_zeros(parts);
        }
    } else {
        assert forall|least: nat| #[trigger] reads_at_least(t, x, least) by {
            let p = lemma_a_run_of_all(b, t.kids, x, 1);
            let parts = copies(p, least);
            lemma_sum_of_copies(p, least);
            assert(sum(parts) == sum(parts) && forall|i: int|
                0 <= i < parts.len() ==> all_run(t.kids, x, #[trigger] parts[i]));
            assert(runs(t, x, sum(parts)));
        }
    }
}

proof fn lemma_graph(t: Tree, x: Name)
    requires
        t.op is Unstructured,
        proper(t),
        is_bound_of_one(most_reads(t.kids, x), t.kids, x),
    ensures
        is_bound(path_reads(t, x), t, x),
{
    let b = most_reads(t.kids, x);
    lemma_read_somewhere_all(t.kids, x);
    assert(own_names(t.op, Role::Read).len() == 0);
    if count(t, Role::Read, x) == 0 {
        assert(sum(Seq::<nat>::empty()) == 0);
        assert(runs(t, x, 0));
        assert forall|n: nat| #[trigger] runs(t, x, n) implies n <= 0 by {
            let parts = choose|parts: Seq<nat>| #[trigger]
                sum(parts) == n && forall|i: int|
                    0 <= i < parts.len() ==> one_runs(t.kids, x, #[trigger] parts[i]);
            assert forall|i: int| 0 <= i < parts.len() implies #[trigger] parts[i] == 0 by {
                assert(one_runs(t.kids, x, parts[i]));
            }
            lemma_sum_of_zeros(parts);
        }
    } else {
        assert forall|least: nat| #[trigger] reads_at_least(t, x, least) by {
            let p = lemma_a_run_of_one(b, t.kids, x, 1);
            let parts = copies(p, least);
            lemma_sum_of_copies(p, least);
            assert(sum(parts) == sum(parts) && forall|i: int|
                0 <= i < parts.len() ==> one_runs(t.kids, x, #[trigger] parts[i]));
            assert(runs(t, x, sum(parts)));
        }
    }
}

/// What is read somewhere in a tree is read on some path, and the other way round.
proof fn lemma_read_somewhere(t: Tree, x: Name)
    requires
        proper(t),
    ensures
        count(t, Role::Read, x) == 0 <==> path_reads(t, x) == Bound::Finite(0),
    decreases t, 1int,
{
    match t.op {
        Op::Variable(m) => {
            assert(own_names(t.op, Role::Read) == seq![m]);
            assert(seq![m].drop_first() =~= Seq::<Name>::empty());
            reveal_with_fuel(occurrences, 2);
            assert(count_all(t.kids, Role::Read, x) == 0);
        },
        _ => {
            assert(own_names(t.op, Role::Read).len() == 0);
            lemma_read_somewhere_all(t.kids, x);
            if t.kids.len() > 0 {
                assert(proper(t.kids[0]));
                let rest = t.kids.drop_first();
                assert forall|i: int| 0 <= i < rest.len() implies proper(#[trigger] rest[i]) by {
                    assert(proper(t.kids[i + 1]));
                }
                lemma_read_somewhere(t.kids.first(), x);
                lemma_read_somewhere_all(rest, x);
            }
        },
    }
}

proof fn lemma_read_somewhere_all(ts: Seq<Tree>, x: Name)
    requires
        forall|i: int| 0 <= i < ts.len() ==> proper(#[trigger] ts[i]),
    ensures
        count_all(ts, Role::Read, x) == 0 <==> total_reads(ts, x) == Bound::Finite(0),
        count_all(ts, Role::Read, x) == 0 <==> most_reads(ts, x) == Bound::Finite(0),
    decreases ts, 0int,
{
    if ts.len() > 0 {
        assert(proper(ts[0]));
        let rest = ts.drop_first();
        assert forall|i: int| 0 <= i < rest.len() implies proper(#[trigger] rest[i]) by {
            assert(proper(ts[i + 1]));
        }
        lemma_read_somewhere(ts.first(), x);
        lemma_read_somewhere_all(rest, x);
    }
}

proof fn lemma_lists(ts: Seq<Tree>, x: Name)
    requires
        forall|i: int| 0 <= i < ts.len() ==> proper(#[trigger] ts[i]),
    ensures
        is_bound_of_all(total_reads(ts, x), ts, x),
        is_bound_of_one(most_reads(ts, x), ts, x),
    decreases ts, 0int,
{
    if ts.len() > 0 {
        let head = ts.first();
        let rest = ts.drop_first();
        assert(proper(ts[0]));
        assert forall|i: int| 0 <= i < rest.len() implies proper(#[trigger] rest[i]) by {
            assert(proper(ts[i + 1]));
        }
        law_path_reads_bound_executions(head, x);
        lemma_lists(rest, x);
        lemma_all_cons(ts, x);
        lemma_one_cons(ts, x);
    }
}

proof fn lemma_all_cons(ts: Seq<Tree>, x: Name)
    requires
        ts.len() > 0,
        is_bound(path_reads(ts.first(), x), ts.first(), x),
        is_bound_of_all(total_reads(ts.drop_first(), x), ts.drop_first(), x),
    ensures
        is_bound_of_all(total_reads(ts, x), ts, x),
{
    let head = ts.first();
    let rest = ts.drop_first();
    let a = path_reads(head, x);
    let b = total_reads(rest, x);
    match (a, b) {
        (Bound::Finite(i), Bound::Finite(j)) => {
            assert(splits(i + j, i, j));
            assert(all_run(ts, x, i + j));
            assert forall|n: nat| #[trigger] all_run(ts, x, n) implies n <= i + j by {
                let (c, d) = choose|c: nat, d: nat| #[trigger]
                    splits(n, c, d) && runs(head, x, c) && all_run(rest, x, d);
                assert(c <= i && d <= j);
            }
        },
        _ => {
            assert forall|least: nat| #[trigger] all_at_least(ts, x, least) by {
                let c = lemma_a_run(
                    a,
                    head,
                    x,
                    if a is Unbounded {
                        least
                    } else {
                        0
                    },
                );
                let d = lemma_a_run_of_all(
                    b,
                    rest,
                    x,
                    if b is Unbounded {
                        least
                    } else {
                        0
                    },
                );
                assert(splits(c + d, c, d));
                assert(all_run(ts, x, c + d));
            }
        },
    }
}

proof fn lemma_one_cons(ts: Seq<Tree>, x: Name)
    requires
        ts.len() > 0,
        is_bound(path_reads(ts.first(), x), ts.first(), x),
        is_bound_of_one(most_reads(ts.drop_first(), x), ts.drop_first(), x),
    ensures
        is_bound_of_one(most_reads(ts, x), ts, x),
{
    let head = ts.first();
    let rest = ts.drop_first();
    let a = path_reads(head, x);
    let b = most_reads(rest, x);
    if ts.len() == 1 {
        assert(b == Bound::Finite(0));
    }
    match (a, b) {
        (Bound::Finite(i), Bound::Finite(j)) => {
            let m = if i >= j {
                i
            } else {
                j
            };
            assert(one_runs(ts, x, m));
            assert forall|n: nat| #[trigger] one_runs(ts, x, n) implies n <= m by {
                assert(runs(head, x, n) || one_runs(rest, x, n));
            }
        },
        _ => {
            assert forall|least: nat| #[trigger] one_at_least(ts, x, least) by {
                if a is Unbounded {
                    let n = lemma_a_run(a, head, x, least);
                    assert(one_runs(ts, x, n));
                } else {
                    let n = lemma_a_run_of_one(b, rest, x, least);
                    assert(one_runs(ts, x, n));
                }
            }
        },
    }
}

/// A read may repeat exactly where executions read the name more often than any number.
pub proof fn law_repeated_reads_have_no_bound(t: Tree, x: Name)
    requires
        proper(t),
    ensures
        may_repeat(t, x) <==> forall|least: nat| #[trigger] reads_at_least(t, x, least),
{
    law_path_reads_bound_executions(t, x);
    lemma_repeats(t, x);
    if let Bound::Finite(m) = path_reads(t, x) {
        assert(!reads_at_least(t, x, m + 1));
    }
}

proof fn lemma_repeats(t: Tree, x: Name)
    requires
        proper(t),
    ensures
        may_repeat(t, x) <==> path_reads(t, x) is Unbounded,
    decreases t, 1int,
{
    lemma_repeats_all(t.kids, x);
    lemma_read_somewhere_all(t.kids, x);
    match t.op {
        Op::Variable(_) => {
            assert(!any_may_repeat(t.kids, x));
        },
        Op::Loop(_) | Op::While(_) | Op::Unstructured => {
            assert(own_names(t.op, Role::Read).len() == 0);
            assert(occurrences(own_names(t.op, Role::Read), x) == 0);
        },
        Op::IfElse | Op::Switch(_) | Op::Match(_) => {
            if t.kids.len() > 0 {
                assert(proper(t.kids[0]));
                let rest = t.kids.drop_first();
                assert forall|i: int| 0 <= i < rest.len() implies proper(#[trigger] rest[i]) by {
                    assert(proper(t.kids[i + 1]));
                }
                lemma_repeats(t.kids.first(), x);
                lemma_repeats_all(rest, x);
                assert(any_may_repeat(t.kids, x) == (may_repeat(t.kids.first(), x)
                    || any_may_repeat(rest, x)));
            }
        },
        _ => {},
    }
}

proof fn lemma_repeats_all(ts: Seq<Tree>, x: Name)
    requires
        forall|i: int| 0 <= i < ts.len() ==> proper(#[trigger] ts[i]),
    ensures
        any_may_repeat(ts, x) <==> total_reads(ts, x) is Unbounded,
        any_may_repeat(ts, x) <==> most_reads(ts, x) is Unbounded,
    decreases ts, 0int,
{
    if ts.len() > 0 {
        assert(proper(ts[0]));
        let rest = ts.drop_first();
        assert forall|i: int| 0 <= i < rest.len() implies proper(#[trigger] rest[i]) by {
            assert(proper(ts[i + 1]));
        }
        lemma_repeats(ts.first(), x);
        lemma_repeats_all(rest, x);
    }
}

/// There is an unstructured graph somewhere in `t`.
pub open spec fn holds_graph(t: Tree) -> bool
    decreases t,
{
    t.op is Unstructured || exists|i: int|
        0 <= i < t.kids.len() && holds_graph(#[trigger] t.kids[i])
}

/// Without an unstructured graph the bound on the uses of a path is that of the executions; with
/// one there is none.
pub proof fn law_path_uses_bound_executions(t: Tree, x: Name)
    requires
        proper(t),
    ensures
        holds_graph(t) ==> path_uses(t, x) is Unbounded,
        !holds_graph(t) ==> is_bound(path_uses(t, x), t, x),
{
    law_path_reads_bound_executions(t, x);
    lemma_uses(t, x);
}

proof fn lemma_uses(t: Tree, x: Name)
    requires
        proper(t),
    ensures
        path_uses(t, x) == if holds_graph(t) {
            Bound::Unbounded
        } else {
            path_reads(t, x)
        },
    decreases t, 1int,
{
    lemma_uses_all(t.kids, x);
    if t.kids.len() > 0 {
        assert(proper(t.kids[0]));
        let rest = t.kids.drop_first();
        assert forall|i: int| 0 <= i < rest.len() implies proper(#[trigger] rest[i]) by {
            assert(proper(t.kids[i + 1]));
        }
        lemma_uses(t.kids.first(), x);
        lemma_uses_all(rest, x);
        lemma_any_graph(t.kids);
    }
}

spec fn any_holds_graph(ts: Seq<Tree>) -> bool {
    exists|i: int| 0 <= i < ts.len() && holds_graph(#[trigger] ts[i])
}

proof fn lemma_any_graph(ts: Seq<Tree>)
    requires
        ts.len() > 0,
    ensures
        any_holds_graph(ts) <==> holds_graph(ts.first()) || any_holds_graph(ts.drop_first()),
{
    let rest = ts.drop_first();
    if any_holds_graph(ts) {
        let i = choose|i: int| 0 <= i < ts.len() && holds_graph(#[trigger] ts[i]);
        if i > 0 {
            assert(holds_graph(rest[i - 1]));
        }
    }
    if any_holds_graph(rest) {
        let i = choose|i: int| 0 <= i < rest.len() && holds_graph(#[trigger] rest[i]);
        assert(holds_graph(ts[i + 1]));
    }
    if holds_graph(ts.first()) {
        assert(holds_graph(ts[0]));
    }
}

proof fn lemma_uses_all(ts: Seq<Tree>, x: Name)
    requires
        forall|i: int| 0 <= i < ts.len() ==> proper(#[trigger] ts[i]),
    ensures
        total_uses(ts, x) == if any_holds_graph(ts) {
            Bound::Unbounded
        } else {
            total_reads(ts, x)
        },
        most_uses(ts, x) == if any_holds_graph(ts) {
            Bound::Unbounded
        } else {
            most_reads(ts, x)
        },
    decreases ts, 0int,
{
    if ts.len() > 0 {
        assert(proper(ts[0]));
        let rest = ts.drop_first();
        assert forall|i: int| 0 <= i < rest.len() implies proper(#[trigger] rest[i]) by {
            assert(proper(ts[i + 1]));
        }
        lemma_uses(ts.first(), x);
        lemma_uses_all(rest, x);
        lemma_any_graph(ts);
    }
}

/// A bound that a machine word can hold is kept as it is; every other, and none, is the largest
/// number.
pub proof fn law_word_of_a_bound(b: Bound)
    ensures
        match b {
            Bound::Finite(n) if n <= usize::MAX => b.as_word() == n,
            _ => b.as_word() == usize::MAX,
        },
{
}

/// A name is read at most once on a path exactly where no execution reads it twice and, should
/// it stand at several places, there is no unstructured graph.
pub proof fn law_once_on_a_path(t: Tree, x: Name)
    requires
        proper(t),
    ensures
        once_on_a_path(t, x) <==> {
            &&& forall|n: nat| #[trigger] runs(t, x, n) ==> n <= 1
            &&& count(t, Role::Read, x) == 1 || !holds_graph(t)
        },
{
    law_path_reads_bound_executions(t, x);
    lemma_repeats(t, x);
    lemma_uses(t, x);
    if !may_repeat(t, x) {
        law_path_reads_within_reads(t, x);
    }
    if path_reads(t, x) is Unbounded {
        assert(reads_at_least(t, x, 2));
    }
}

} // verus!
