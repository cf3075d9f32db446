//! What holds of a whole pass of inlining.

use vstd::prelude::*;

use super::ast::{
    arm_trees, case_trees, exp_trees, node_trees, one, Exp, Name, Op, Tree, UnstructuredNode,
};
use super::inline_single_use_bindings::{
    applied, applied_to_all, applied_to_kept, binding, candidates, candidates_of_all, dropped,
    eligible, inlined, lemma_applied_to_all, once_on_a_path, refined, resolvable, sub_map,
    unhindered,
};
use super::name_counts::{count, count_all, occurrences, own_names, Role};
use super::path_uses::{most_uses, path_uses, total_uses, Bound};
use super::repeated_reads::{
    any_may_repeat, law_path_reads_within_reads, law_path_uses_bound_reads, may_repeat, most_reads,
    path_reads, total_reads,
};
use super::substitution::{
    all_end, closure, ends, follow, law_closure_is_flat, lemma_resolve, lemma_resolve_step,
    resolve, settled,
};

verus! {

/// Variables have no children. This holds of the tree of every expression.
pub open spec fn proper(t: Tree) -> bool
    decreases t,
{
    &&& t.op is Variable ==> t.kids.len() == 0
    &&& forall|i: int| 0 <= i < t.kids.len() ==> proper(#[trigger] t.kids[i])
}

pub proof fn lemma_exp_proper(exp: Exp)
    ensures
        proper(exp@),
    decreases exp,
{
    match exp {
        Exp::Break(_)
        | Exp::Continue(_)
        | Exp::Declare(_)
        | Exp::Value(_)
        | Exp::Variable(_)
        | Exp::Constant(_) => {},
        Exp::Loop(_, e)
        | Exp::Assign(_, e)
        | Exp::LetBind(_, e)
        | Exp::Abort(e)
        | Exp::Borrow(_, e)
        | Exp::Unpack(_, _, e)
        | Exp::UnpackVariant(_, _, _, e)
        | Exp::VecUnpack(_, e) => {
            lemma_exp_proper(*e);
        },
        Exp::While(_, cond, body) => {
            lemma_exp_proper(*cond);
            lemma_exp_proper(*body);
        },
        Exp::IfElse(cond, then_, else_) => {
            lemma_exp_proper(*cond);
            lemma_exp_proper(*then_);
            match *else_ {
                Some(e) => {
                    lemma_exp_proper(e);
                },
                None => {},
            }
        },
        Exp::Sequence(items) | Exp::Return(items) | Exp::Call(_, items) => {
            let ts = exp_trees(items@);
            assert(exp@.kids == ts);
            assert forall|i: int| 0 <= i < exp@.kids.len() implies proper(
                #[trigger] exp@.kids[i],
            ) by {
                lemma_exp_proper(items@[i]);
            }
        },
        Exp::Primitive { op: _, args } | Exp::Data { op: _, args } => {
            let ts = exp_trees(args@);
            assert(exp@.kids == ts);
            assert forall|i: int| 0 <= i < exp@.kids.len() implies proper(
                #[trigger] exp@.kids[i],
            ) by {
                lemma_exp_proper(args@[i]);
            }
        },
        Exp::Switch(subject, _, cases) => {
            lemma_exp_proper(*subject);
            let ts = case_trees(cases@);
            assert(exp@.kids == one(subject@) + ts);
            assert forall|i: int| 0 <= i < exp@.kids.len() implies proper(
                #[trigger] exp@.kids[i],
            ) by {
                if i > 0 {
                    lemma_exp_proper(cases@[i - 1].1);
                }
            }
        },
        Exp::Match(subject, _, arms) => {
            lemma_exp_proper(*subject);
            let ts = arm_trees(arms@);
            assert(exp@.kids == one(subject@) + ts);
            assert forall|i: int| 0 <= i < exp@.kids.len() implies proper(
                #[trigger] exp@.kids[i],
            ) by {
                if i > 0 {
                    lemma_exp_proper(arms@[i - 1].2);
                }
            }
        },
        Exp::Unstructured(nodes) => {
            let ts = node_trees(nodes@);
            assert(exp@.kids == ts);
            assert forall|i: int| 0 <= i < exp@.kids.len() implies proper(
                #[trigger] exp@.kids[i],
            ) by {
                match nodes@[i] {
                    UnstructuredNode::Labeled(_, body) | UnstructuredNode::Statement(body) => {
                        lemma_exp_proper(*body);
                    },
                    UnstructuredNode::Goto(_) => {},
                }
            }
        },
    }
}

/// How often the items that are dropped from the sequences of `t` mention `n` in a role.
pub open spec fn dropped_count(t: Tree, drops: Set<(Name, Name)>, role: Role, n: Name) -> nat
    decreases t,
{
    match t.op {
        Op::Sequence => dropped_from_items(t.kids, drops, role, n),
        _ => dropped_in_all(t.kids, drops, role, n),
    }
}

pub open spec fn dropped_in_all(
    ts: Seq<Tree>,
    drops: Set<(Name, Name)>,
    role: Role,
    n: Name,
) -> nat
    decreases ts,
{
    if ts.len() == 0 {
        0
    } else {
        dropped_count(ts.first(), drops, role, n) + dropped_in_all(
            ts.drop_first(),
            drops,
            role,
            n,
        )
    }
}

pub open spec fn dropped_from_items(
    ts: Seq<Tree>,
    drops: Set<(Name, Name)>,
    role: Role,
    n: Name,
) -> nat
    decreases ts,
{
    if ts.len() == 0 {
        0
    } else {
        (if dropped(ts.first(), drops) {
            count(ts.first(), role, n)
        } else {
            dropped_count(ts.first(), drops, role, n)
        }) + dropped_from_items(ts.drop_first(), drops, role, n)
    }
}

proof fn lemma_proper_rest(ts: Seq<Tree>)
    requires
        ts.len() > 0,
        forall|i: int| 0 <= i < ts.len() ==> proper(#[trigger] ts[i]),
    ensures
        proper(ts.first()),
        forall|i: int| 0 <= i < ts.drop_first().len() ==> proper(#[trigger] ts.drop_first()[i]),
{
    assert(proper(ts[0]));
    assert forall|i: int| 0 <= i < ts.drop_first().len() implies proper(
        #[trigger] ts.drop_first()[i],
    ) by {
        assert(proper(ts[i + 1]));
    }
}

/// The dropped items are part of the tree.
proof fn lemma_dropped_within(t: Tree, drops: Set<(Name, Name)>, role: Role, n: Name)
    ensures
        dropped_count(t, drops, role, n) <= count(t, role, n),
    decreases t, 1int,
{
    lemma_dropped_within_all(t.kids, drops, role, n);
}

proof fn lemma_dropped_within_all(ts: Seq<Tree>, drops: Set<(Name, Name)>, role: Role, n: Name)
    ensures
        dropped_in_all(ts, drops, role, n) <= count_all(ts, role, n),
        dropped_from_items(ts, drops, role, n) <= count_all(ts, role, n),
    decreases ts, 0int,
{
    if ts.len() > 0 {
        lemma_dropped_within(ts.first(), drops, role, n);
        lemma_dropped_within_all(ts.drop_first(), drops, role, n);
    }
}

proof fn lemma_count_first(t: Tree, rest: Seq<Tree>, role: Role, n: Name)
    ensures
        count_all(seq![t] + rest, role, n) == count(t, role, n) + count_all(rest, role, n),
{
    assert((seq![t] + rest).drop_first() =~= rest);
}

/// Of the mentions other than reads, a pass takes away those in the items that it drops, and
/// adds none.
proof fn lemma_other_mentions(
    t: Tree,
    drops: Set<(Name, Name)>,
    subs: Map<Name, Name>,
    role: Role,
    n: Name,
)
    requires
        proper(t),
        !(role is Read),
    ensures
        count(applied(t, drops, subs), role, n) + dropped_count(t, drops, role, n) == count(
            t,
            role,
            n,
        ),
    decreases t, 1int,
{
    lemma_other_mentions_all(t.kids, drops, subs, role, n);
    match t.op {
        Op::Variable(_) => {
            let after = applied(t, drops, subs);
            assert(own_names(after.op, role).len() == 0);
            assert(own_names(t.op, role).len() == 0);
            assert(count_all(after.kids, role, n) == 0);
        },
        _ => {},
    }
}

proof fn lemma_other_mentions_all(
    ts: Seq<Tree>,
    drops: Set<(Name, Name)>,
    subs: Map<Name, Name>,
    role: Role,
    n: Name,
)
    requires
        forall|i: int| 0 <= i < ts.len() ==> proper(#[trigger] ts[i]),
        !(role is Read),
    ensures
        count_all(applied_to_all(ts, drops, subs), role, n) + dropped_in_all(ts, drops, role, n)
            == count_all(ts, role, n),
        count_all(applied_to_kept(ts, drops, subs), role, n) + dropped_from_items(
            ts,
            drops,
            role,
            n,
        ) == count_all(ts, role, n),
    decreases ts, 0int,
{
    if ts.len() > 0 {
        lemma_proper_rest(ts);
        lemma_other_mentions(ts.first(), drops, subs, role, n);
        lemma_other_mentions_all(ts.drop_first(), drops, subs, role, n);
        let first = applied(ts.first(), drops, subs);
        lemma_count_first(first, applied_to_all(ts.drop_first(), drops, subs), role, n);
        lemma_count_first(first, applied_to_kept(ts.drop_first(), drops, subs), role, n);
    }
}

/// The name that a read of `n` becomes.
pub open spec fn renamed(subs: Map<Name, Name>, n: Name) -> Name {
    if subs.contains_key(n) {
        subs[n]
    } else {
        n
    }
}

proof fn lemma_one_read(t: Tree, m: Name, n: Name)
    requires
        t.op == Op::Variable(m),
        t.kids.len() == 0,
    ensures
        count(t, Role::Read, n) == (if m == n {
            1nat
        } else {
            0nat
        }),
{
    assert(own_names(t.op, Role::Read) =~= seq![m]);
    assert(seq![m].drop_first() =~= Seq::<Name>::empty());
    reveal_with_fuel(occurrences, 2);
}

/// A name that no read becomes is not read after the pass.
proof fn lemma_no_reads(t: Tree, drops: Set<(Name, Name)>, subs: Map<Name, Name>, n: Name)
    requires
        proper(t),
        forall|m: Name| #[trigger] renamed(subs, m) != n,
    ensures
        count(applied(t, drops, subs), Role::Read, n) == 0,
    decreases t, 1int,
{
    match t.op {
        Op::Variable(m) => {
            lemma_one_read(applied(t, drops, subs), renamed(subs, m), n);
        },
        _ => {
            lemma_no_reads_all(t.kids, drops, subs, n);
            assert(own_names(t.op, Role::Read).len() == 0);
        },
    }
}

proof fn lemma_no_reads_all(
    ts: Seq<Tree>,
    drops: Set<(Name, Name)>,
    subs: Map<Name, Name>,
    n: Name,
)
    requires
        forall|i: int| 0 <= i < ts.len() ==> proper(#[trigger] ts[i]),
        forall|m: Name| #[trigger] renamed(subs, m) != n,
    ensures
        count_all(applied_to_all(ts, drops, subs), Role::Read, n) == 0,
        count_all(applied_to_kept(ts, drops, subs), Role::Read, n) == 0,
    decreases ts, 0int,
{
    if ts.len() > 0 {
        lemma_proper_rest(ts);
        lemma_no_reads(ts.first(), drops, subs, n);
        lemma_no_reads_all(ts.drop_first(), drops, subs, n);
        let first = applied(ts.first(), drops, subs);
        lemma_count_first(first, applied_to_all(ts.drop_first(), drops, subs), Role::Read, n);
        lemma_count_first(first, applied_to_kept(ts.drop_first(), drops, subs), Role::Read, n);
    }
}

/// Every read of a name other than `x` that the pass would turn into `z` stands in an item
/// that is dropped, and no read of `x` does.
spec fn only_from(
    t: Tree,
    drops: Set<(Name, Name)>,
    subs: Map<Name, Name>,
    x: Name,
    z: Name,
) -> bool {
    &&& forall|m: Name|
        renamed(subs, m) == z && m != x ==> #[trigger] count(t, Role::Read, m) == dropped_count(
            t,
            drops,
            Role::Read,
            m,
        )
    &&& dropped_count(t, drops, Role::Read, x) == 0
}

spec fn only_from_all(
    ts: Seq<Tree>,
    drops: Set<(Name, Name)>,
    subs: Map<Name, Name>,
    x: Name,
    z: Name,
) -> bool {
    &&& forall|m: Name|
        renamed(subs, m) == z && m != x ==> #[trigger] count_all(ts, Role::Read, m)
            == dropped_in_all(ts, drops, Role::Read, m)
    &&& dropped_in_all(ts, drops, Role::Read, x) == 0
}

spec fn only_from_items(
    ts: Seq<Tree>,
    drops: Set<(Name, Name)>,
    subs: Map<Name, Name>,
    x: Name,
    z: Name,
) -> bool {
    &&& forall|m: Name|
        renamed(subs, m) == z && m != x ==> #[trigger] count_all(ts, Role::Read, m)
            == dropped_from_items(ts, drops, Role::Read, m)
    &&& dropped_from_items(ts, drops, Role::Read, x) == 0
}

/// Where the reads that become reads of `z` are those of `x`, `z` is read after the pass as
/// `x` was before: as often, and as often on a path.
proof fn lemma_reads_move(
    t: Tree,
    drops: Set<(Name, Name)>,
    subs: Map<Name, Name>,
    x: Name,
    z: Name,
)
    requires
        proper(t),
        renamed(subs, x) == z,
        only_from(t, drops, subs, x, z),
    ensures
        count(applied(t, drops, subs), Role::Read, z) == count(t, Role::Read, x),
        path_uses(applied(t, drops, subs), z) == path_uses(t, x),
        path_reads(applied(t, drops, subs), z) == path_reads(t, x),
        may_repeat(applied(t, drops, subs), z) == may_repeat(t, x),
    decreases t, 1int,
{
    let after = applied(t, drops, subs);
    match t.op {
        Op::Variable(m) => {
            lemma_one_read(t, m, x);
            lemma_one_read(t, m, m);
            lemma_one_read(after, renamed(subs, m), z);
            assert(dropped_count(t, drops, Role::Read, m) == 0);
        },
        Op::Sequence => {
            assert(own_names(t.op, Role::Read).len() == 0);
            assert forall|m: Name| renamed(subs, m) == z && m != x implies #[trigger] count_all(
                t.kids,
                Role::Read,
                m,
            ) == dropped_from_items(t.kids, drops, Role::Read, m) by {
                assert(count(t, Role::Read, m) == dropped_count(t, drops, Role::Read, m));
            }
            lemma_items_move(t.kids, drops, subs, x, z);
        },
        _ => {
            assert(own_names(t.op, Role::Read).len() == 0);
            assert forall|m: Name| renamed(subs, m) == z && m != x implies #[trigger] count_all(
                t.kids,
                Role::Read,
                m,
            ) == dropped_in_all(t.kids, drops, Role::Read, m) by {
                assert(count(t, Role::Read, m) == dropped_count(t, drops, Role::Read, m));
            }
            lemma_kids_move(t.kids, drops, subs, x, z);
            if t.kids.len() > 0 {
                lemma_proper_rest(t.kids);
                lemma_first_moves(t.kids, drops, subs, x, z);
                lemma_reads_move(t.kids.first(), drops, subs, x, z);
                lemma_kids_move(t.kids.drop_first(), drops, subs, x, z);
                assert(after.kids.drop_first() =~= applied_to_all(
                    t.kids.drop_first(),
                    drops,
                    subs,
                ));
                assert(after.kids.first() == applied(t.kids.first(), drops, subs));
            }
        },
    }
}

proof fn lemma_first_moves(
    ts: Seq<Tree>,
    drops: Set<(Name, Name)>,
    subs: Map<Name, Name>,
    x: Name,
    z: Name,
)
    requires
        ts.len() > 0,
        only_from_all(ts, drops, subs, x, z),
    ensures
        only_from(ts.first(), drops, subs, x, z),
        only_from_all(ts.drop_first(), drops, subs, x, z),
{
    assert forall|m: Name| renamed(subs, m) == z && m != x implies {
        &&& count(ts.first(), Role::Read, m) == dropped_count(ts.first(), drops, Role::Read, m)
        &&& count_all(ts.drop_first(), Role::Read, m) == dropped_in_all(
            ts.drop_first(),
            drops,
            Role::Read,
            m,
        )
    } by {
        assert(count_all(ts, Role::Read, m) == dropped_in_all(ts, drops, Role::Read, m));
        lemma_dropped_within(ts.first(), drops, Role::Read, m);
        lemma_dropped_within_all(ts.drop_first(), drops, Role::Read, m);
    }
}

proof fn lemma_kids_move(
    ts: Seq<Tree>,
    drops: Set<(Name, Name)>,
    subs: Map<Name, Name>,
    x: Name,
    z: Name,
)
    requires
        forall|i: int| 0 <= i < ts.len() ==> proper(#[trigger] ts[i]),
        renamed(subs, x) == z,
        only_from_all(ts, drops, subs, x, z),
    ensures
        count_all(applied_to_all(ts, drops, subs), Role::Read, z) == count_all(ts, Role::Read, x),
        total_uses(applied_to_all(ts, drops, subs), z) == total_uses(ts, x),
        most_uses(applied_to_all(ts, drops, subs), z) == most_uses(ts, x),
        total_reads(applied_to_all(ts, drops, subs), z) == total_reads(ts, x),
        most_reads(applied_to_all(ts, drops, subs), z) == most_reads(ts, x),
        any_may_repeat(applied_to_all(ts, drops, subs), z) == any_may_repeat(ts, x),
    decreases ts, 0int,
{
    if ts.len() > 0 {
        lemma_proper_rest(ts);
        lemma_first_moves(ts, drops, subs, x, z);
        lemma_reads_move(ts.first(), drops, subs, x, z);
        lemma_kids_move(ts.drop_first(), drops, subs, x, z);
        let first = applied(ts.first(), drops, subs);
        let rest = applied_to_all(ts.drop_first(), drops, subs);
        lemma_count_first(first, rest, Role::Read, z);
        assert((seq![first] + rest).drop_first() =~= rest);
    }
}

/// A binding reads its source and nothing else.
proof fn lemma_binding_reads(t: Tree, n: Name)
    requires
        proper(t),
        binding(t) is Some,
    ensures
        count(t, Role::Read, n) == (if (binding(t)->0).1 == n {
            1nat
        } else {
            0nat
        }),
        path_uses(t, n) == Bound::Finite(count(t, Role::Read, n)),
        path_reads(t, n) == Bound::Finite(count(t, Role::Read, n)),
        !may_repeat(t, n),
{
    let y = (binding(t)->0).1;
    assert(proper(t.kids[0]));
    lemma_one_read(t.kids[0], y, n);
    let kid = t.kids.first();
    let rest = t.kids.drop_first();
    assert(own_names(t.op, Role::Read).len() == 0);
    assert(count_all(rest, Role::Read, n) == 0);
    assert(count_all(t.kids, Role::Read, n) == count(kid, Role::Read, n));
    assert(total_uses(rest, n) == Bound::Finite(0));
    assert(total_uses(t.kids, n) == path_uses(kid, n));
    assert(total_reads(rest, n) == Bound::Finite(0));
    assert(total_reads(t.kids, n) == path_reads(kid, n));
    assert(!any_may_repeat(kid.kids, n));
    assert(!may_repeat(kid, n));
    assert(!any_may_repeat(rest, n));
    assert(!any_may_repeat(t.kids, n));
}

proof fn lemma_items_move(
    ts: Seq<Tree>,
    drops: Set<(Name, Name)>,
    subs: Map<Name, Name>,
    x: Name,
    z: Name,
)
    requires
        forall|i: int| 0 <= i < ts.len() ==> proper(#[trigger] ts[i]),
        renamed(subs, x) == z,
        only_from_items(ts, drops, subs, x, z),
    ensures
        count_all(applied_to_kept(ts, drops, subs), Role::Read, z) == count_all(ts, Role::Read, x),
        total_uses(applied_to_kept(ts, drops, subs), z) == total_uses(ts, x),
        total_reads(applied_to_kept(ts, drops, subs), z) == total_reads(ts, x),
        any_may_repeat(applied_to_kept(ts, drops, subs), z) == any_may_repeat(ts, x),
    decreases ts, 0int,
{
    if ts.len() > 0 {
        lemma_proper_rest(ts);
        let gone = dropped(ts.first(), drops);
        assert forall|m: Name| renamed(subs, m) == z && m != x implies {
            &&& !gone ==> count(ts.first(), Role::Read, m) == dropped_count(
                ts.first(),
                drops,
                Role::Read,
                m,
            )
            &&& count_all(ts.drop_first(), Role::Read, m) == dropped_from_items(
                ts.drop_first(),
                drops,
                Role::Read,
                m,
            )
        } by {
            assert(count_all(ts, Role::Read, m) == dropped_from_items(ts, drops, Role::Read, m));
            lemma_dropped_within(ts.first(), drops, Role::Read, m);
            lemma_dropped_within_all(ts.drop_first(), drops, Role::Read, m);
        }
        lemma_items_move(ts.drop_first(), drops, subs, x, z);
        if gone {
            lemma_binding_reads(ts.first(), x);
        } else {
            lemma_reads_move(ts.first(), drops, subs, x, z);
            let first = applied(ts.first(), drops, subs);
            let rest = applied_to_kept(ts.drop_first(), drops, subs);
            lemma_count_first(first, rest, Role::Read, z);
            assert((seq![first] + rest).drop_first() =~= rest);
        }
    }
}

/// The names that bindings introduce.
pub open spec fn destinations(bindings: Seq<(Name, Name)>) -> Seq<Name> {
    bindings.map_values(|b: (Name, Name)| b.0)
}

/// The names that bindings read.
pub open spec fn sources(bindings: Seq<(Name, Name)>) -> Seq<Name> {
    bindings.map_values(|b: (Name, Name)| b.1)
}

proof fn lemma_occurrences_concat(a: Seq<Name>, b: Seq<Name>, n: Name)
    ensures
        occurrences(a + b, n) == occurrences(a, n) + occurrences(b, n),
    decreases a.len(),
{
    if a.len() == 0 {
        assert(a + b =~= b);
    } else {
        lemma_occurrences_concat(a.drop_first(), b, n);
        assert((a + b).drop_first() =~= a.drop_first() + b);
    }
}

proof fn lemma_occurs(ns: Seq<Name>, i: int)
    requires
        0 <= i < ns.len(),
    ensures
        occurrences(ns, ns[i]) >= 1,
    decreases ns.len(),
{
    if i > 0 {
        lemma_occurs(ns.drop_first(), i - 1);
    }
}

proof fn lemma_occurs_twice(ns: Seq<Name>, i: int, j: int)
    requires
        0 <= i < j < ns.len(),
        ns[i] == ns[j],
    ensures
        occurrences(ns, ns[i]) >= 2,
    decreases ns.len(),
{
    if i > 0 {
        lemma_occurs_twice(ns.drop_first(), i - 1, j - 1);
    } else {
        lemma_occurs(ns.drop_first(), j - 1);
    }
}

/// Each binding that is collected from a tree is a mention of its two names there.
proof fn lemma_candidates_within(t: Tree, root: Tree, n: Name)
    requires
        proper(t),
    ensures
        occurrences(destinations(candidates(t, root)), n) <= count(t, Role::LetBind, n),
        occurrences(sources(candidates(t, root)), n) <= count(t, Role::Read, n),
    decreases t, 1int,
{
    let rest = candidates_of_all(t.kids, root);
    lemma_candidates_within_all(t.kids, root, n);
    if binding(t) is Some && eligible((binding(t)->0).0, (binding(t)->0).1, root) {
        let b = binding(t)->0;
        let kid = t.kids.first();
        assert(proper(t.kids[0]));
        assert(candidates_of_all(kid.kids, root).len() == 0);
        assert(candidates(kid, root).len() == 0);
        assert(candidates_of_all(t.kids.drop_first(), root).len() == 0);
        assert(rest.len() == 0);
        assert(candidates(t, root) =~= seq![b]);
        lemma_binding_reads(t, n);
        assert(destinations(seq![b]) =~= seq![b.0]);
        assert(sources(seq![b]) =~= seq![b.1]);
        assert(own_names(t.op, Role::LetBind) =~= seq![b.0]);
        assert(seq![b.1].drop_first() =~= Seq::<Name>::empty());
        reveal_with_fuel(occurrences, 2);
    } else {
        assert(candidates(t, root) =~= rest);
    }
}

proof fn lemma_candidates_within_all(ts: Seq<Tree>, root: Tree, n: Name)
    requires
        forall|i: int| 0 <= i < ts.len() ==> proper(#[trigger] ts[i]),
    ensures
        occurrences(destinations(candidates_of_all(ts, root)), n) <= count_all(
            ts,
            Role::LetBind,
            n,
        ),
        occurrences(sources(candidates_of_all(ts, root)), n) <= count_all(ts, Role::Read, n),
    decreases ts, 0int,
{
    if ts.len() > 0 {
        lemma_proper_rest(ts);
        lemma_candidates_within(ts.first(), root, n);
        lemma_candidates_within_all(ts.drop_first(), root, n);
        let first = candidates(ts.first(), root);
        let rest = candidates_of_all(ts.drop_first(), root);
        assert(destinations(first + rest) =~= destinations(first) + destinations(rest));
        assert(sources(first + rest) =~= sources(first) + sources(rest));
        lemma_occurrences_concat(destinations(first), destinations(rest), n);
        lemma_occurrences_concat(sources(first), sources(rest), n);
    }
}

proof fn lemma_candidates_eligible(t: Tree, root: Tree)
    ensures
        forall|i: int|
            0 <= i < candidates(t, root).len() ==> {
                let b = #[trigger] candidates(t, root)[i];
                eligible(b.0, b.1, root)
            },
    decreases t, 1int,
{
    lemma_candidates_eligible_all(t.kids, root);
    let rest = candidates_of_all(t.kids, root);
    let own = candidates(t, root).len() - rest.len();
    assert forall|i: int| 0 <= i < candidates(t, root).len() implies {
        let b = #[trigger] candidates(t, root)[i];
        eligible(b.0, b.1, root)
    } by {
        if i >= own {
            assert(candidates(t, root)[i] == rest[i - own]);
        }
    }
}

proof fn lemma_candidates_eligible_all(ts: Seq<Tree>, root: Tree)
    ensures
        forall|i: int|
            0 <= i < candidates_of_all(ts, root).len() ==> {
                let b = #[trigger] candidates_of_all(ts, root)[i];
                eligible(b.0, b.1, root)
            },
    decreases ts, 0int,
{
    if ts.len() > 0 {
        lemma_candidates_eligible(ts.first(), root);
        lemma_candidates_eligible_all(ts.drop_first(), root);
        let first = candidates(ts.first(), root);
        let rest = candidates_of_all(ts.drop_first(), root);
        assert forall|i: int| 0 <= i < candidates_of_all(ts, root).len() implies {
            let b = #[trigger] candidates_of_all(ts, root)[i];
            eligible(b.0, b.1, root)
        } by {
            if i < first.len() {
                assert(candidates_of_all(ts, root)[i] == first[i]);
            } else {
                assert(candidates_of_all(ts, root)[i] == rest[i - first.len()]);
            }
        }
    }
}

/// A pass inlines eligible bindings only, and no two of them introduce or read the same name.
pub proof fn law_inlined_bindings(exp: Exp)
    ensures
        forall|i: int|
            0 <= i < inlined(exp@).len() ==> eligible(
                (#[trigger] inlined(exp@)[i]).0,
                inlined(exp@)[i].1,
                exp@,
            ),
        destinations(inlined(exp@)).no_duplicates(),
        sources(inlined(exp@)).no_duplicates(),
{
    let bs = inlined(exp@);
    lemma_exp_proper(exp);
    lemma_candidates_eligible(exp@, exp@);
    assert forall|i: int, j: int| 0 <= i < j < bs.len() implies {
        &&& (#[trigger] destinations(bs)[i]) != (#[trigger] destinations(bs)[j])
        &&& sources(bs)[i] != sources(bs)[j]
    } by {
        let b = bs[i];
        assert(eligible(b.0, b.1, exp@));
        lemma_candidates_within(exp@, exp@, b.0);
        lemma_candidates_within(exp@, exp@, b.1);
        if destinations(bs)[i] == destinations(bs)[j] {
            lemma_occurs_twice(destinations(bs), i, j);
        }
        if sources(bs)[i] == sources(bs)[j] {
            lemma_occurs_twice(sources(bs), i, j);
        }
    }
    assert forall|i: int, j: int|
        0 <= i < bs.len() && 0 <= j < bs.len() && i != j implies sources(bs)[i]
        != sources(bs)[j] by {
        if i < j {
            assert(destinations(bs)[i] != destinations(bs)[j]);
        } else {
            assert(destinations(bs)[j] != destinations(bs)[i]);
        }
    }
}

/// The destination of an inlined binding is read at most once on any execution path.
pub proof fn law_destination_reads_on_a_path(exp: Exp, b: (Name, Name))
    requires
        inlined(exp@).contains(b),
    ensures
        path_reads(exp@, b.0).at_most(1),
{
    let i = choose|i: int| 0 <= i < inlined(exp@).len() && inlined(exp@)[i] == b;
    law_inlined_bindings(exp);
    assert(eligible(inlined(exp@)[i].0, inlined(exp@)[i].1, exp@));
    if count(exp@, Role::Read, b.0) == 1 {
        law_path_reads_within_reads(exp@, b.0);
    } else {
        law_path_uses_bound_reads(exp@, b.0);
    }
}

/// The substitution of a list of bindings without two of the same destination.
proof fn lemma_sub_map(bs: Seq<(Name, Name)>)
    requires
        destinations(bs).no_duplicates(),
    ensures
        forall|x: Name| #[trigger]
            sub_map(bs).contains_key(x) <==> destinations(bs).contains(x),
        forall|i: int| 0 <= i < bs.len() ==> sub_map(bs)[(#[trigger] bs[i]).0] == bs[i].1,
    decreases bs.len(),
{
    if bs.len() > 0 {
        let init = bs.drop_last();
        let ds = destinations(bs);
        assert(destinations(init) =~= ds.drop_last());
        lemma_sub_map(init);
        assert forall|x: Name| #[trigger] sub_map(bs).contains_key(x) implies ds.contains(x) by {
            if x == bs.last().0 {
                assert(ds[bs.len() - 1] == x);
            } else {
                assert(sub_map(init).contains_key(x));
                let i = choose|i: int|
                    0 <= i < destinations(init).len() && destinations(init)[i] == x;
                assert(ds[i] == x);
            }
        }
        assert forall|x: Name| ds.contains(x) implies #[trigger] sub_map(bs).contains_key(x) by {
            let i = choose|i: int| 0 <= i < ds.len() && ds[i] == x;
            if i < bs.len() - 1 {
                assert(destinations(init)[i] == x);
                assert(sub_map(init).contains_key(x));
            }
        }
        assert forall|i: int| 0 <= i < bs.len() implies sub_map(bs)[(#[trigger] bs[i]).0]
            == bs[i].1 by {
            if i < bs.len() - 1 {
                assert(init[i] == bs[i]);
                assert(ds[i] != ds[bs.len() - 1]);
            }
        }
    } else {
        assert(forall|x: Name| !destinations(bs).contains(x));
    }
}

/// A substitution holds exactly these bindings, none of a name to itself, and no two with the
/// same destination or the same source.
spec fn linear(subs: Map<Name, Name>, bs: Seq<(Name, Name)>) -> bool {
    &&& forall|x: Name| #[trigger]
        subs.contains_key(x) ==> x != subs[x] && bs.contains((x, subs[x]))
    &&& forall|i: int|
        0 <= i < bs.len() ==> subs.contains_key((#[trigger] bs[i]).0) && subs[bs[i].0] == bs[i].1
    &&& forall|a: Name, b: Name|
        subs.contains_key(a) && subs.contains_key(b) && #[trigger] subs[a] == #[trigger] subs[b]
            ==> a == b
}

proof fn lemma_linear(exp: Exp)
    ensures
        linear(sub_map(inlined(exp@)), inlined(exp@)),
{
    let bs = inlined(exp@);
    let subs = sub_map(bs);
    law_inlined_bindings(exp);
    lemma_sub_map(bs);
    assert forall|x: Name| #[trigger] subs.contains_key(x) implies x != subs[x] && bs.contains(
        (x, subs[x]),
    ) by {
        let i = choose|i: int| 0 <= i < destinations(bs).len() && destinations(bs)[i] == x;
        assert(bs[i].0 == x);
        assert(bs[i] == (x, subs[x]));
    }
    assert forall|i: int| 0 <= i < bs.len() implies subs.contains_key((#[trigger] bs[i]).0)
        && subs[bs[i].0] == bs[i].1 by {
        assert(destinations(bs)[i] == bs[i].0);
    }
    assert forall|a: Name, b: Name|
        subs.contains_key(a) && subs.contains_key(b) && #[trigger] subs[a]
            == #[trigger] subs[b] implies a == b by {
        let i = choose|i: int| 0 <= i < bs.len() && bs[i] == (a, subs[a]);
        let j = choose|j: int| 0 <= j < bs.len() && bs[j] == (b, subs[b]);
        assert(sources(bs)[i] == sources(bs)[j]);
    }
}

/// The substitution of a pass holds exactly the bindings that are inlined, none of which binds a
/// name to itself.
pub proof fn law_substitution_of_a_pass(exp: Exp)
    ensures
        forall|x: Name, y: Name| #[trigger]
            inlined(exp@).contains((x, y)) <==> sub_map(inlined(exp@)).contains_key(x) && sub_map(
                inlined(exp@),
            )[x] == y,
        forall|x: Name, y: Name| #[trigger] inlined(exp@).contains((x, y)) ==> x != y,
{
    lemma_linear(exp);
    let bs = inlined(exp@);
    assert forall|x: Name, y: Name| #[trigger] bs.contains((x, y)) implies sub_map(bs).contains_key(
        x,
    ) && sub_map(bs)[x] == y by {
        let i = choose|i: int| 0 <= i < bs.len() && bs[i] == (x, y);
        assert(sub_map(bs).contains_key(bs[i].0));
    }
}

/// `n` is a source of one of the substituted names.
spec fn is_image(subs: Map<Name, Name>, n: Name) -> bool {
    exists|k: Name| subs.contains_key(k) && #[trigger] subs[k] == n
}

proof fn lemma_image_is_source(subs: Map<Name, Name>, bs: Seq<(Name, Name)>, n: Name)
    requires
        linear(subs, bs),
    ensures
        is_image(subs, n) <==> sources(bs).contains(n),
{
    if is_image(subs, n) {
        let k = choose|k: Name| subs.contains_key(k) && #[trigger] subs[k] == n;
        let i = choose|i: int| 0 <= i < bs.len() && bs[i] == (k, subs[k]);
        assert(sources(bs)[i] == n);
    }
    if sources(bs).contains(n) {
        let i = choose|i: int| 0 <= i < sources(bs).len() && sources(bs)[i] == n;
        assert(subs[bs[i].0] == n);
    }
}

/// `n` becomes `z` in `len` steps, where `z` is not substituted.
spec fn chain(subs: Map<Name, Name>, n: Name, len: nat, z: Name) -> bool
    decreases len,
{
    if len == 0 {
        n == z && !subs.contains_key(z)
    } else {
        subs.contains_key(n) && chain(subs, subs[n], (len - 1) as nat, z)
    }
}

proof fn lemma_chain(subs: Map<Name, Name>, n: Name, steps: nat) -> (len: nat)
    requires
        settled(subs, follow(subs, n, steps)),
        forall|x: Name| #[trigger] subs.contains_key(x) ==> x != subs[x],
    ensures
        chain(subs, n, len, resolve(subs, n)),
        subs.contains_key(n) ==> len > 0,
    decreases steps,
{
    lemma_resolve(subs, n, steps);
    if subs.contains_key(n) {
        lemma_resolve_step(subs, n, steps);
        let rest = lemma_chain(subs, subs[n], (steps - 1) as nat);
        rest + 1
    } else {
        lemma_resolve(subs, n, 0);
        0
    }
}

/// The end of a chain, and every name on it but the first, is a source.
proof fn lemma_chain_forward(subs: Map<Name, Name>, n: Name, len: nat, z: Name, d: nat) -> (m: Name)
    requires
        chain(subs, n, len, z),
        d <= len,
    ensures
        chain(subs, m, (len - d) as nat, z),
        d > 0 ==> is_image(subs, m),
        d == 0 ==> m == n,
    decreases d,
{
    if d == 0 {
        n
    } else {
        let m = lemma_chain_forward(subs, n, len, z, (d - 1) as nat);
        assert(subs.contains_key(m));
        assert(subs[m] == subs[m]);
        subs[m]
    }
}

proof fn lemma_equal_chains(subs: Map<Name, Name>, a: Name, b: Name, len: nat, z: Name)
    requires
        forall|a: Name, b: Name|
            subs.contains_key(a) && subs.contains_key(b) && #[trigger] subs[a]
                == #[trigger] subs[b] ==> a == b,
        chain(subs, a, len, z),
        chain(subs, b, len, z),
    ensures
        a == b,
    decreases len,
{
    if len > 0 {
        lemma_equal_chains(subs, subs[a], subs[b], (len - 1) as nat, z);
    }
}

/// Two names that become the same one stand on one chain, so that one of them is a source.
proof fn lemma_one_chain(subs: Map<Name, Name>, bs: Seq<(Name, Name)>, x: Name, m: Name, z: Name)
    requires
        linear(subs, bs),
        all_end(subs),
        !is_image(subs, x),
        renamed(closure(subs), x) == z,
        renamed(closure(subs), m) == z,
        m != x,
    ensures
        is_image(subs, m),
{
    let a = if subs.contains_key(x) {
        assert(ends(subs, x));
        let steps = choose|s: nat| settled(subs, #[trigger] follow(subs, x, s));
        lemma_chain(subs, x, steps)
    } else {
        0nat
    };
    let c = if subs.contains_key(m) {
        assert(ends(subs, m));
        let steps = choose|s: nat| settled(subs, #[trigger] follow(subs, m, s));
        lemma_chain(subs, m, steps)
    } else {
        0nat
    };
    assert(subs.contains_key(x) || chain(subs, x, 0, x));
    assert(subs.contains_key(m) || chain(subs, m, 0, m));
    assert(chain(subs, x, a, z));
    assert(chain(subs, m, c, z));
    if a >= c {
        let met = lemma_chain_forward(subs, x, a, z, (a - c) as nat);
        lemma_equal_chains(subs, met, m, c, z);
    } else {
        let met = lemma_chain_forward(subs, m, c, z, (c - a) as nat);
        lemma_equal_chains(subs, met, x, a, z);
    }
}

/// A binding `b` is an item of a sequence in `t`.
pub open spec fn stands_in_sequence(t: Tree, b: (Name, Name)) -> bool
    decreases t,
{
    ||| t.op is Sequence && exists|i: int|
        0 <= i < t.kids.len() && binding(#[trigger] t.kids[i]) == Some(b)
    ||| exists|i: int| 0 <= i < t.kids.len() && stands_in_sequence(#[trigger] t.kids[i], b)
}

/// What is dropped from a list holds what is dropped at each position.
proof fn lemma_dropped_at(
    ts: Seq<Tree>,
    i: int,
    drops: Set<(Name, Name)>,
    role: Role,
    n: Name,
)
    requires
        0 <= i < ts.len(),
    ensures
        dropped_in_all(ts, drops, role, n) >= dropped_count(ts[i], drops, role, n),
        dropped_from_items(ts, drops, role, n) >= (if dropped(ts[i], drops) {
            count(ts[i], role, n)
        } else {
            dropped_count(ts[i], drops, role, n)
        }),
    decreases ts.len(),
{
    if i > 0 {
        lemma_dropped_at(ts.drop_first(), i - 1, drops, role, n);
    }
}

proof fn lemma_binding_binds(t: Tree)
    requires
        binding(t) is Some,
    ensures
        count(t, Role::LetBind, (binding(t)->0).0) >= 1,
{
    let x = (binding(t)->0).0;
    assert(own_names(t.op, Role::LetBind) =~= seq![x]);
    lemma_occurs(seq![x], 0);
}

/// A binding that is to be dropped and stands in a sequence is among what is dropped.
proof fn lemma_standing_is_dropped(t: Tree, drops: Set<(Name, Name)>, b: (Name, Name))
    requires
        proper(t),
        drops.contains(b),
        stands_in_sequence(t, b),
    ensures
        dropped_count(t, drops, Role::Read, b.1) >= 1,
        dropped_count(t, drops, Role::LetBind, b.0) >= 1,
    decreases t,
{
    if t.op is Sequence && exists|i: int|
        0 <= i < t.kids.len() && binding(#[trigger] t.kids[i]) == Some(b) {
        let i = choose|i: int| 0 <= i < t.kids.len() && binding(#[trigger] t.kids[i]) == Some(b);
        lemma_dropped_at(t.kids, i, drops, Role::Read, b.1);
        lemma_dropped_at(t.kids, i, drops, Role::LetBind, b.0);
        assert(proper(t.kids[i]));
        lemma_binding_reads(t.kids[i], b.1);
        lemma_binding_binds(t.kids[i]);
    } else {
        let i = choose|i: int| 0 <= i < t.kids.len() && stands_in_sequence(#[trigger] t.kids[i], b);
        let kid = t.kids[i];
        assert(proper(kid));
        lemma_standing_is_dropped(kid, drops, b);
        lemma_dropped_at(t.kids, i, drops, Role::Read, b.1);
        lemma_dropped_at(t.kids, i, drops, Role::LetBind, b.0);
        if dropped(kid, drops) {
            assert(proper(kid.kids[0]));
            assert(!stands_in_sequence(kid.kids[0], b));
            assert(!stands_in_sequence(kid, b));
        }
    }
}

/// What is dropped are bindings: it mentions their destinations and sources only.
proof fn lemma_nothing_dropped(t: Tree, drops: Set<(Name, Name)>, role: Role, n: Name)
    requires
        proper(t),
        role is LetBind ==> forall|b: (Name, Name)| #[trigger] drops.contains(b) ==> b.0 != n,
        role is Read ==> forall|b: (Name, Name)| #[trigger] drops.contains(b) ==> b.1 != n,
    ensures
        dropped_count(t, drops, role, n) == 0,
    decreases t, 1int,
{
    lemma_nothing_dropped_all(t.kids, drops, role, n);
}

proof fn lemma_nothing_dropped_all(ts: Seq<Tree>, drops: Set<(Name, Name)>, role: Role, n: Name)
    requires
        forall|i: int| 0 <= i < ts.len() ==> proper(#[trigger] ts[i]),
        role is LetBind ==> forall|b: (Name, Name)| #[trigger] drops.contains(b) ==> b.0 != n,
        role is Read ==> forall|b: (Name, Name)| #[trigger] drops.contains(b) ==> b.1 != n,
    ensures
        dropped_in_all(ts, drops, role, n) == 0,
        dropped_from_items(ts, drops, role, n) == 0,
    decreases ts, 0int,
{
    if ts.len() > 0 {
        lemma_proper_rest(ts);
        lemma_nothing_dropped(ts.first(), drops, role, n);
        lemma_nothing_dropped_all(ts.drop_first(), drops, role, n);
        if dropped(ts.first(), drops) {
            let t = ts.first();
            let b = binding(t)->0;
            lemma_binding_reads(t, n);
            let kid = t.kids.first();
            assert(proper(t.kids[0]));
            assert(own_names(t.op, Role::LetBind) =~= seq![b.0]);
            assert(own_names(kid.op, role).len() == 0 || role is Read);
            assert(count_all(kid.kids, role, n) == 0);
            assert(count_all(t.kids.drop_first(), role, n) == 0);
            assert(count_all(t.kids, role, n) == count(kid, role, n));
            assert(seq![b.0].drop_first() =~= Seq::<Name>::empty());
            reveal_with_fuel(occurrences, 2);
        }
    }
}

/// After a pass no destination of an inlined binding is read.
pub proof fn law_destinations_are_gone(exp: Exp, x: Name)
    requires
        resolvable(exp@),
        destinations(inlined(exp@)).contains(x),
    ensures
        count(refined(exp@), Role::Read, x) == 0,
{
    let bs = inlined(exp@);
    let subs = sub_map(bs);
    lemma_exp_proper(exp);
    lemma_linear(exp);
    law_closure_is_flat(subs);
    let i = choose|i: int| 0 <= i < destinations(bs).len() && destinations(bs)[i] == x;
    assert(subs.contains_key(bs[i].0));
    assert forall|m: Name| #[trigger] renamed(closure(subs), m) != x by {
        if subs.contains_key(m) {
            assert(settled(subs, closure(subs)[m]));
        }
    }
    lemma_no_reads(exp@, bs.to_set(), closure(subs), x);
}

/// An inlined binding that is an item of a sequence is dropped by the pass.
pub proof fn law_bindings_are_dropped(exp: Exp, b: (Name, Name))
    requires
        inlined(exp@).contains(b),
        stands_in_sequence(exp@, b),
    ensures
        count(refined(exp@), Role::LetBind, b.0) == 0,
{
    let bs = inlined(exp@);
    lemma_exp_proper(exp);
    law_inlined_bindings(exp);
    let i = choose|i: int| 0 <= i < bs.len() && bs[i] == b;
    assert(eligible(bs[i].0, bs[i].1, exp@));
    lemma_standing_is_dropped(exp@, bs.to_set(), b);
    lemma_other_mentions(exp@, bs.to_set(), closure(sub_map(bs)), Role::LetBind, b.0);
}

/// A pass changes no assignment, declaration or unpacking of a name, and no binding but those
/// that it inlines.
pub proof fn law_other_mentions_stay(exp: Exp, role: Role, n: Name)
    requires
        !(role is Read),
        role is LetBind ==> !destinations(inlined(exp@)).contains(n),
    ensures
        count(refined(exp@), role, n) == count(exp@, role, n),
{
    let bs = inlined(exp@);
    lemma_exp_proper(exp);
    lemma_other_mentions(exp@, bs.to_set(), closure(sub_map(bs)), role, n);
    assert forall|b: (Name, Name)| #[trigger] bs.to_set().contains(b) && b.0 == n implies !(
    role is LetBind) by {
        let i = choose|i: int| 0 <= i < bs.len() && bs[i] == b;
        assert(destinations(bs)[i] == n);
    }
    lemma_nothing_dropped(exp@, bs.to_set(), role, n);
}

/// A pass changes no read of a name that is neither a destination nor a source of an inlined
/// binding: it is read as often as before, and as often on a path.
pub proof fn law_other_reads_stay(exp: Exp, n: Name)
    requires
        resolvable(exp@),
        !destinations(inlined(exp@)).contains(n),
        !sources(inlined(exp@)).contains(n),
    ensures
        count(refined(exp@), Role::Read, n) == count(exp@, Role::Read, n),
        path_uses(refined(exp@), n) == path_uses(exp@, n),
        path_reads(refined(exp@), n) == path_reads(exp@, n),
        may_repeat(refined(exp@), n) == may_repeat(exp@, n),
{
    let bs = inlined(exp@);
    let subs = sub_map(bs);
    lemma_exp_proper(exp);
    lemma_linear(exp);
    lemma_image_is_source(subs, bs, n);
    if subs.contains_key(n) {
        let i = choose|i: int| 0 <= i < bs.len() && bs[i] == (n, subs[n]);
        assert(destinations(bs)[i] == n);
    }
    lemma_source_free(exp, n);
    assert forall|m: Name| renamed(closure(subs), m) == n && m != n implies #[trigger] count(
        exp@,
        Role::Read,
        m,
    ) == dropped_count(exp@, bs.to_set(), Role::Read, m) by {
        let steps = choose|s: nat| settled(subs, #[trigger] follow(subs, m, s));
        assert(ends(subs, m));
        let len = lemma_chain(subs, m, steps);
        let end = lemma_chain_forward(subs, m, len, n, len);
        assert(is_image(subs, n));
    }
    lemma_reads_move(exp@, bs.to_set(), closure(subs), n, n);
}

proof fn lemma_source_free(exp: Exp, n: Name)
    requires
        !sources(inlined(exp@)).contains(n),
    ensures
        dropped_count(exp@, inlined(exp@).to_set(), Role::Read, n) == 0,
{
    let bs = inlined(exp@);
    lemma_exp_proper(exp);
    assert forall|b: (Name, Name)| #[trigger] bs.to_set().contains(b) implies b.1 != n by {
        let i = choose|i: int| 0 <= i < bs.len() && bs[i] == b;
        assert(sources(bs)[i] == b.1);
    }
    lemma_nothing_dropped(exp@, bs.to_set(), Role::Read, n);
}

/// Where every inlined binding is an item of a sequence, the uses of a destination become uses
/// of the source at the end of its chain: the source is read as often, and as often on any
/// path, as the destination was, and is no destination itself.
pub proof fn law_uses_move_to_the_source(exp: Exp, x: Name)
    requires
        resolvable(exp@),
        destinations(inlined(exp@)).contains(x),
        !sources(inlined(exp@)).contains(x),
        forall|b: (Name, Name)| #[trigger]
            inlined(exp@).contains(b) ==> stands_in_sequence(exp@, b),
    ensures
        ({
            let source = resolve(sub_map(inlined(exp@)), x);
            &&& count(refined(exp@), Role::Read, source) == count(exp@, Role::Read, x)
            &&& path_uses(refined(exp@), source) == path_uses(exp@, x)
            &&& path_reads(refined(exp@), source) == path_reads(exp@, x)
            &&& may_repeat(refined(exp@), source) == may_repeat(exp@, x)
            &&& !destinations(inlined(exp@)).contains(source)
        }),
{
    let bs = inlined(exp@);
    let subs = sub_map(bs);
    let drops = bs.to_set();
    let source = resolve(subs, x);
    lemma_exp_proper(exp);
    law_inlined_bindings(exp);
    lemma_linear(exp);
    law_closure_is_flat(subs);
    lemma_image_is_source(subs, bs, x);
    let at = choose|i: int| 0 <= i < destinations(bs).len() && destinations(bs)[i] == x;
    assert(subs.contains_key(bs[at].0));
    lemma_source_free(exp, x);
    assert forall|m: Name| renamed(closure(subs), m) == source && m != x implies #[trigger] count(
        exp@,
        Role::Read,
        m,
    ) == dropped_count(exp@, drops, Role::Read, m) by {
        lemma_one_chain(subs, bs, x, m, source);
        lemma_image_is_source(subs, bs, m);
        let i = choose|i: int| 0 <= i < sources(bs).len() && sources(bs)[i] == m;
        let b = bs[i];
        assert(bs.contains(b));
        assert(eligible(bs[i].0, bs[i].1, exp@));
        lemma_standing_is_dropped(exp@, drops, b);
        lemma_dropped_within(exp@, drops, Role::Read, m);
    }
    lemma_reads_move(exp@, drops, closure(subs), x, source);
    assert(settled(subs, closure(subs)[x]));
    if destinations(bs).contains(source) {
        let i = choose|i: int| 0 <= i < destinations(bs).len() && destinations(bs)[i] == source;
        assert(subs.contains_key(bs[i].0));
    }
}

/// Where no inlined binding reads what another one introduces, there is no chain to resolve.
pub proof fn law_resolvable_without_chains(exp: Exp)
    requires
        forall|n: Name|
            sources(inlined(exp@)).contains(n) ==> !(#[trigger] destinations(
                inlined(exp@),
            ).contains(n)),
    ensures
        resolvable(exp@),
{
    let bs = inlined(exp@);
    let subs = sub_map(bs);
    lemma_linear(exp);
    assert forall|n: Name| #[trigger] subs.contains_key(n) implies ends(subs, n) by {
        let y = subs[n];
        let i = choose|i: int| 0 <= i < bs.len() && bs[i] == (n, y);
        assert(sources(bs)[i] == y);
        if subs.contains_key(y) {
            let j = choose|j: int| 0 <= j < bs.len() && bs[j] == (y, subs[y]);
            assert(destinations(bs)[j] == y);
            assert(destinations(bs).contains(y));
        }
        assert(!subs.contains_key(y));
        assert(follow(subs, n, 1) == follow(subs, y, 0));
        assert(settled(subs, follow(subs, n, 1)));
    }
}

/// All bindings `let x = y` in `t`, in traversal order.
pub open spec fn bindings(t: Tree) -> Seq<(Name, Name)>
    decreases t,
{
    (match binding(t) {
        Some(b) => seq![b],
        None => seq![],
    }) + bindings_of_all(t.kids)
}

pub open spec fn bindings_of_all(ts: Seq<Tree>) -> Seq<(Name, Name)>
    decreases ts,
{
    if ts.len() == 0 {
        seq![]
    } else {
        bindings(ts.first()) + bindings_of_all(ts.drop_first())
    }
}

pub proof fn lemma_contains_concat(a: Seq<(Name, Name)>, b: Seq<(Name, Name)>, x: (Name, Name))
    ensures
        (a + b).contains(x) <==> a.contains(x) || b.contains(x),
{
    if a.contains(x) {
        let i = choose|i: int| 0 <= i < a.len() && a[i] == x;
        assert((a + b)[i] == x);
    }
    if b.contains(x) {
        let i = choose|i: int| 0 <= i < b.len() && b[i] == x;
        assert((a + b)[a.len() + i] == x);
    }
}

/// The bindings that may be inlined are those of all bindings that are eligible.
pub proof fn lemma_candidates_are_bindings(t: Tree, root: Tree, b: (Name, Name))
    ensures
        candidates(t, root).contains(b) <==> bindings(t).contains(b) && eligible(b.0, b.1, root),
    decreases t, 1int,
{
    lemma_candidates_are_bindings_all(t.kids, root, b);
    let own = match binding(t) {
        Some(x) => seq![x],
        None => Seq::<(Name, Name)>::empty(),
    };
    let taken = match binding(t) {
        Some((x, y)) => if eligible(x, y, root) {
            seq![(x, y)]
        } else {
            Seq::<(Name, Name)>::empty()
        },
        None => Seq::<(Name, Name)>::empty(),
    };
    lemma_contains_concat(own, bindings_of_all(t.kids), b);
    lemma_contains_concat(taken, candidates_of_all(t.kids, root), b);
    if let Some(x) = binding(t) {
        assert(own[0] == x);
        if eligible(x.0, x.1, root) {
            assert(taken[0] == x);
        }
    }
}

proof fn lemma_candidates_are_bindings_all(ts: Seq<Tree>, root: Tree, b: (Name, Name))
    ensures
        candidates_of_all(ts, root).contains(b) <==> bindings_of_all(ts).contains(b) && eligible(
            b.0,
            b.1,
            root,
        ),
    decreases ts, 0int,
{
    if ts.len() > 0 {
        lemma_candidates_are_bindings(ts.first(), root, b);
        lemma_candidates_are_bindings_all(ts.drop_first(), root, b);
        lemma_contains_concat(bindings(ts.first()), bindings_of_all(ts.drop_first()), b);
        lemma_contains_concat(
            candidates(ts.first(), root),
            candidates_of_all(ts.drop_first(), root),
            b,
        );
    }
}

/// Each binding reads its source.
proof fn lemma_bindings_within(t: Tree, n: Name)
    requires
        proper(t),
    ensures
        occurrences(sources(bindings(t)), n) <= count(t, Role::Read, n),
    decreases t, 1int,
{
    let rest = bindings_of_all(t.kids);
    lemma_bindings_within_all(t.kids, n);
    if binding(t) is Some {
        let b = binding(t)->0;
        let kid = t.kids.first();
        assert(proper(t.kids[0]));
        assert(bindings_of_all(kid.kids).len() == 0);
        assert(bindings(kid).len() == 0);
        assert(bindings_of_all(t.kids.drop_first()).len() == 0);
        assert(bindings(t) =~= seq![b]);
        lemma_binding_reads(t, n);
        assert(sources(seq![b]) =~= seq![b.1]);
        assert(seq![b.1].drop_first() =~= Seq::<Name>::empty());
        reveal_with_fuel(occurrences, 2);
    } else {
        assert(bindings(t) =~= rest);
    }
}

proof fn lemma_bindings_within_all(ts: Seq<Tree>, n: Name)
    requires
        forall|i: int| 0 <= i < ts.len() ==> proper(#[trigger] ts[i]),
    ensures
        occurrences(sources(bindings_of_all(ts)), n) <= count_all(ts, Role::Read, n),
    decreases ts, 0int,
{
    if ts.len() > 0 {
        lemma_proper_rest(ts);
        lemma_bindings_within(ts.first(), n);
        lemma_bindings_within_all(ts.drop_first(), n);
        let first = bindings(ts.first());
        let rest = bindings_of_all(ts.drop_first());
        assert(sources(first + rest) =~= sources(first) + sources(rest));
        lemma_occurrences_concat(sources(first), sources(rest), n);
    }
}

/// A source that is read once is read by one binding.
proof fn lemma_one_reader(t: Tree, a: (Name, Name), b: (Name, Name))
    requires
        proper(t),
        bindings(t).contains(a),
        bindings(t).contains(b),
        a.1 == b.1,
        count(t, Role::Read, a.1) <= 1,
    ensures
        a == b,
{
    let all = bindings(t);
    lemma_bindings_within(t, a.1);
    let i = choose|i: int| 0 <= i < all.len() && all[i] == a;
    let j = choose|j: int| 0 <= j < all.len() && all[j] == b;
    assert(sources(all)[i] == a.1 && sources(all)[j] == a.1);
    if i < j {
        lemma_occurs_twice(sources(all), i, j);
    } else if j < i {
        lemma_occurs_twice(sources(all), j, i);
    }
}

/// A binding after a pass was a binding before it, of the same name to one that was renamed.
proof fn lemma_bindings_after(
    t: Tree,
    drops: Set<(Name, Name)>,
    subs: Map<Name, Name>,
    b: (Name, Name),
) -> (m: Name)
    requires
        proper(t),
        bindings(applied(t, drops, subs)).contains(b),
    ensures
        bindings(t).contains((b.0, m)),
        renamed(subs, m) == b.1,
    decreases t, 1int,
{
    let after = applied(t, drops, subs);
    let own = match binding(after) {
        Some(x) => seq![x],
        None => Seq::<(Name, Name)>::empty(),
    };
    lemma_contains_concat(own, bindings_of_all(after.kids), b);
    let before = match binding(t) {
        Some(x) => seq![x],
        None => Seq::<(Name, Name)>::empty(),
    };
    match t.op {
        Op::Variable(n) => n,
        Op::Sequence => {
            let m = lemma_bindings_after_all(t.kids, drops, subs, b);
            lemma_contains_concat(before, bindings_of_all(t.kids), (b.0, m));
            m
        },
        _ => {
            if binding(after) == Some(b) {
                lemma_applied_to_all(t.kids, drops, subs);
                let kid = t.kids[0];
                assert(after.kids[0] == applied(kid, drops, subs));
                assert(kid.op is Variable);
                let m = kid.op->Variable_0;
                assert(binding(t) == Some((b.0, m)));
                assert(before[0] == (b.0, m));
                lemma_contains_concat(before, bindings_of_all(t.kids), (b.0, m));
                m
            } else {
                let m = lemma_bindings_after_all(t.kids, drops, subs, b);
                lemma_contains_concat(before, bindings_of_all(t.kids), (b.0, m));
                m
            }
        },
    }
}

proof fn lemma_bindings_after_all(
    ts: Seq<Tree>,
    drops: Set<(Name, Name)>,
    subs: Map<Name, Name>,
    b: (Name, Name),
) -> (m: Name)
    requires
        forall|i: int| 0 <= i < ts.len() ==> proper(#[trigger] ts[i]),
        bindings_of_all(applied_to_all(ts, drops, subs)).contains(b) || bindings_of_all(
            applied_to_kept(ts, drops, subs),
        ).contains(b),
    ensures
        bindings_of_all(ts).contains((b.0, m)),
        renamed(subs, m) == b.1,
    decreases ts, 0int,
{
    assert(ts.len() > 0);
    lemma_proper_rest(ts);
    let first = applied(ts.first(), drops, subs);
    let rest_all = applied_to_all(ts.drop_first(), drops, subs);
    let rest_kept = applied_to_kept(ts.drop_first(), drops, subs);
    assert((seq![first] + rest_all).drop_first() =~= rest_all);
    assert((seq![first] + rest_kept).drop_first() =~= rest_kept);
    lemma_contains_concat(bindings(first), bindings_of_all(rest_all), b);
    lemma_contains_concat(bindings(first), bindings_of_all(rest_kept), b);
    let m = if bindings(first).contains(b) {
        lemma_bindings_after(ts.first(), drops, subs, b)
    } else {
        lemma_bindings_after_all(ts.drop_first(), drops, subs, b)
    };
    lemma_contains_concat(bindings(ts.first()), bindings_of_all(ts.drop_first()), (b.0, m));
    m
}

/// The reads of a name that are not dropped are reads of what it becomes.
proof fn lemma_reads_arrive(t: Tree, drops: Set<(Name, Name)>, subs: Map<Name, Name>, n: Name)
    requires
        proper(t),
    ensures
        count(applied(t, drops, subs), Role::Read, renamed(subs, n)) + dropped_count(
            t,
            drops,
            Role::Read,
            n,
        ) >= count(t, Role::Read, n),
    decreases t, 1int,
{
    match t.op {
        Op::Variable(m) => {
            lemma_one_read(t, m, n);
            lemma_one_read(applied(t, drops, subs), renamed(subs, m), renamed(subs, n));
        },
        _ => {
            lemma_reads_arrive_all(t.kids, drops, subs, n);
            assert(own_names(t.op, Role::Read).len() == 0);
        },
    }
}

proof fn lemma_reads_arrive_all(
    ts: Seq<Tree>,
    drops: Set<(Name, Name)>,
    subs: Map<Name, Name>,
    n: Name,
)
    requires
        forall|i: int| 0 <= i < ts.len() ==> proper(#[trigger] ts[i]),
    ensures
        count_all(applied_to_all(ts, drops, subs), Role::Read, renamed(subs, n)) + dropped_in_all(
            ts,
            drops,
            Role::Read,
            n,
        ) >= count_all(ts, Role::Read, n),
        count_all(applied_to_kept(ts, drops, subs), Role::Read, renamed(subs, n))
            + dropped_from_items(ts, drops, Role::Read, n) >= count_all(ts, Role::Read, n),
    decreases ts, 0int,
{
    if ts.len() > 0 {
        lemma_proper_rest(ts);
        lemma_reads_arrive(ts.first(), drops, subs, n);
        lemma_reads_arrive_all(ts.drop_first(), drops, subs, n);
        let z = renamed(subs, n);
        let first = applied(ts.first(), drops, subs);
        lemma_count_first(first, applied_to_all(ts.drop_first(), drops, subs), Role::Read, z);
        lemma_count_first(first, applied_to_kept(ts.drop_first(), drops, subs), Role::Read, z);
    }
}

/// A binding that a pass does not inline is a binding after it, to what its source becomes.
proof fn lemma_bindings_stay(
    t: Tree,
    drops: Set<(Name, Name)>,
    subs: Map<Name, Name>,
    b: (Name, Name),
)
    requires
        proper(t),
        bindings(t).contains(b),
        !drops.contains(b),
    ensures
        bindings(applied(t, drops, subs)).contains((b.0, renamed(subs, b.1))),
    decreases t, 1int,
{
    let after = applied(t, drops, subs);
    let own = match binding(t) {
        Some(x) => seq![x],
        None => Seq::<(Name, Name)>::empty(),
    };
    let kept = match binding(after) {
        Some(x) => seq![x],
        None => Seq::<(Name, Name)>::empty(),
    };
    let c = (b.0, renamed(subs, b.1));
    lemma_contains_concat(own, bindings_of_all(t.kids), b);
    lemma_contains_concat(kept, bindings_of_all(after.kids), c);
    if binding(t) == Some(b) {
        lemma_applied_to_all(t.kids, drops, subs);
        assert(after.kids[0] == applied(t.kids[0], drops, subs));
        assert(binding(after) == Some(c));
        assert(kept[0] == c);
    } else {
        lemma_bindings_stay_all(t.kids, drops, subs, b);
    }
}

proof fn lemma_bindings_stay_all(
    ts: Seq<Tree>,
    drops: Set<(Name, Name)>,
    subs: Map<Name, Name>,
    b: (Name, Name),
)
    requires
        forall|i: int| 0 <= i < ts.len() ==> proper(#[trigger] ts[i]),
        bindings_of_all(ts).contains(b),
        !drops.contains(b),
    ensures
        bindings_of_all(applied_to_all(ts, drops, subs)).contains((b.0, renamed(subs, b.1))),
        bindings_of_all(applied_to_kept(ts, drops, subs)).contains((b.0, renamed(subs, b.1))),
    decreases ts, 0int,
{
    assert(ts.len() > 0);
    lemma_proper_rest(ts);
    let c = (b.0, renamed(subs, b.1));
    let first = applied(ts.first(), drops, subs);
    let rest_all = applied_to_all(ts.drop_first(), drops, subs);
    let rest_kept = applied_to_kept(ts.drop_first(), drops, subs);
    assert((seq![first] + rest_all).drop_first() =~= rest_all);
    assert((seq![first] + rest_kept).drop_first() =~= rest_kept);
    lemma_contains_concat(bindings(ts.first()), bindings_of_all(ts.drop_first()), b);
    lemma_contains_concat(bindings(first), bindings_of_all(rest_all), c);
    lemma_contains_concat(bindings(first), bindings_of_all(rest_kept), c);
    if bindings(ts.first()).contains(b) {
        lemma_bindings_stay(ts.first(), drops, subs, b);
        if dropped(ts.first(), drops) {
            let kid = ts.first().kids.first();
            assert(proper(ts.first().kids[0]));
            assert(bindings_of_all(kid.kids).len() == 0);
            assert(bindings(kid).len() == 0);
            assert(bindings_of_all(ts.first().kids.drop_first()).len() == 0);
            assert(bindings(ts.first()) =~= seq![binding(ts.first())->0]);
        }
    } else {
        lemma_bindings_stay_all(ts.drop_first(), drops, subs, b);
    }
}

/// A binding that only its reads on a path keep from being inlined, although an inlined one
/// reads what it introduces: that one stands in a loop or in unstructured code.
pub open spec fn held_back(t: Tree, b: (Name, Name)) -> bool {
    &&& bindings(t).contains(b)
    &&& unhindered(b.0, b.1, t)
    &&& !once_on_a_path(t, b.0)
    &&& sources(inlined(t)).contains(b.0)
}

/// What a pass makes of a name that is read.
pub open spec fn becomes(t: Tree, n: Name) -> Name {
    renamed(closure(sub_map(inlined(t))), n)
}

/// A binding that was held back and that the pass itself has freed: what it introduces is now
/// read at most once on any path, and what it reads is another name that is read only there.
pub open spec fn freed(t: Tree, b: (Name, Name)) -> bool {
    &&& held_back(t, b)
    &&& becomes(t, b.1) != b.0
    &&& once_on_a_path(refined(t), b.0)
    &&& count(refined(t), Role::Read, b.0) > 0
    &&& count(refined(t), Role::Read, becomes(t, b.1)) == 1
}

/// A binding that may be inlined after a pass was held back by it.
proof fn lemma_left_over(exp: Exp, x: Name, m: Name)
    requires
        resolvable(exp@),
        bindings(exp@).contains((x, m)),
        eligible(x, becomes(exp@, m), refined(exp@)),
    ensures
        held_back(exp@, (x, m)),
{
    let bs = inlined(exp@);
    let subs = sub_map(bs);
    lemma_exp_proper(exp);
    lemma_linear(exp);
    law_inlined_bindings(exp);
    if destinations(bs).contains(x) {
        law_destinations_are_gone(exp, x);
    }
    if bs.contains((x, m)) {
        let i = choose|i: int| 0 <= i < bs.len() && bs[i] == (x, m);
        assert(destinations(bs)[i] == x);
    }
    lemma_candidates_are_bindings(exp@, exp@, (x, m));
    // No inlined binding reads `m`: it would be a second reader.
    if sources(bs).contains(m) {
        let i = choose|i: int| 0 <= i < sources(bs).len() && sources(bs)[i] == m;
        assert(bs.contains(bs[i]));
        lemma_candidates_are_bindings(exp@, exp@, bs[i]);
        assert(eligible(bs[i].0, bs[i].1, exp@));
        lemma_one_reader(exp@, bs[i], (x, m));
    }
    lemma_source_free(exp, m);
    lemma_reads_arrive(exp@, bs.to_set(), closure(subs), m);
    lemma_bindings_within(exp@, m);
    let at = choose|i: int| 0 <= i < bindings(exp@).len() && bindings(exp@)[i] == (x, m);
    assert(sources(bindings(exp@))[at] == m);
    lemma_occurs(sources(bindings(exp@)), at);
    if subs.contains_key(m) {
        let i = choose|i: int| 0 <= i < bs.len() && bs[i] == (m, subs[m]);
        assert(destinations(bs)[i] == m);
        assert(eligible(bs[i].0, bs[i].1, exp@));
    } else {
        law_other_mentions_stay(exp, Role::Assign, m);
    }
    lemma_writes_stay(exp, x);
    if sources(bs).contains(x) {
        let i = choose|i: int| 0 <= i < sources(bs).len() && sources(bs)[i] == x;
        assert(eligible(bs[i].0, bs[i].1, exp@));
    } else {
        law_other_reads_stay(exp, x);
    }
    assert(unhindered(x, m, exp@));
}

/// A name that is no destination is introduced and written as often as before.
proof fn lemma_writes_stay(exp: Exp, x: Name)
    requires
        !destinations(inlined(exp@)).contains(x),
    ensures
        count(refined(exp@), Role::Assign, x) == count(exp@, Role::Assign, x),
        count(refined(exp@), Role::LetBind, x) == count(exp@, Role::LetBind, x),
        count(refined(exp@), Role::Declare, x) == count(exp@, Role::Declare, x),
        count(refined(exp@), Role::Unpack, x) == count(exp@, Role::Unpack, x),
{
    law_other_mentions_stay(exp, Role::Assign, x);
    law_other_mentions_stay(exp, Role::LetBind, x);
    law_other_mentions_stay(exp, Role::Declare, x);
    law_other_mentions_stay(exp, Role::Unpack, x);
}

/// A binding that has been freed may be inlined.
proof fn lemma_freed(exp: Exp, b: (Name, Name))
    requires
        resolvable(exp@),
        freed(exp@, b),
    ensures
        inlined(refined(exp@)).contains((b.0, becomes(exp@, b.1))),
{
    let bs = inlined(exp@);
    let subs = sub_map(bs);
    let after = refined(exp@);
    let x = b.0;
    let y = becomes(exp@, b.1);
    lemma_exp_proper(exp);
    lemma_linear(exp);
    law_inlined_bindings(exp);
    if destinations(bs).contains(x) {
        law_destinations_are_gone(exp, x);
    }
    if bs.contains(b) {
        let i = choose|i: int| 0 <= i < bs.len() && bs[i] == b;
        assert(destinations(bs)[i] == x);
    }
    lemma_bindings_stay(exp@, bs.to_set(), closure(subs), b);
    lemma_writes_stay(exp, x);
    if subs.contains_key(b.1) {
        law_closure_is_flat(subs);
        assert(ends(subs, b.1));
        let steps = choose|s: nat| settled(subs, #[trigger] follow(subs, b.1, s));
        let len = lemma_chain(subs, b.1, steps);
        let end = lemma_chain_forward(subs, b.1, len, y, len);
        lemma_image_is_source(subs, bs, y);
        let i = choose|i: int| 0 <= i < sources(bs).len() && sources(bs)[i] == y;
        assert(eligible(bs[i].0, bs[i].1, exp@));
        law_other_mentions_stay(exp, Role::Assign, y);
    } else {
        law_other_mentions_stay(exp, Role::Assign, y);
    }
    assert(eligible(x, y, after));
    lemma_candidates_are_bindings(after, after, (x, y));
}

/// What a second pass would inline are exactly the bindings that the first one held back and
/// freed.
pub proof fn law_second_pass(exp: Exp, b: (Name, Name))
    requires
        resolvable(exp@),
    ensures
        inlined(refined(exp@)).contains(b) <==> exists|y: Name| #[trigger]
            freed(exp@, (b.0, y)) && becomes(exp@, y) == b.1,
{
    let bs = inlined(exp@);
    let after = refined(exp@);
    if inlined(after).contains(b) {
        lemma_exp_proper(exp);
        lemma_candidates_are_bindings(after, after, b);
        let m = lemma_bindings_after(exp@, bs.to_set(), closure(sub_map(bs)), b);
        lemma_left_over(exp, b.0, m);
        assert(freed(exp@, (b.0, m)) && becomes(exp@, m) == b.1);
    }
    if exists|y: Name| #[trigger] freed(exp@, (b.0, y)) && becomes(exp@, y) == b.1 {
        let y = choose|y: Name| #[trigger] freed(exp@, (b.0, y)) && becomes(exp@, y) == b.1;
        lemma_freed(exp, (b.0, y));
    }
}

/// One pass leaves nothing for a second, unless it freed a binding that it had to hold back.
pub proof fn law_one_pass_is_enough(exp: Exp)
    requires
        resolvable(exp@),
        forall|b: (Name, Name)| !(#[trigger] freed(exp@, b)),
    ensures
        inlined(refined(exp@)).len() == 0,
        resolvable(refined(exp@)),
{
    let again = inlined(refined(exp@));
    if again.len() > 0 {
        assert(again.contains(again[0]));
        law_second_pass(exp, again[0]);
    }
}

} // verus!
