//! Inline let-bindings whose right-hand side is a single variable, when both names are used at
//! most once.
//!
//! A binding `let X = Y;` is inlined when:
//!   - `Y` is read exactly once in the whole expression (by the binding itself) and is never
//!     assigned;
//!   - `X` is bound by this binding alone, is never assigned, declared or unpacked into, is
//!     read, and is read at most once on any execution path.
//!
//! A read in a loop or in unstructured code may be come to any number of times. Where `X` is
//! read at several places, unstructured code anywhere in the expression, whose paths are not
//! followed, stands against inlining it; where it is read at one place, only unstructured code
//! that holds this read does.
//!
//! The binding is then dropped from the sequence that holds it, and every use of `X` is
//! rewritten to `Y`. Several bindings are processed in one pass; chains such as
//! `let l20 = l3; let l3 = l5;` are resolved before the substitution.

use vstd::prelude::*;

use super::ast::{
    arm_trees, case_trees, exp_trees, leaf, names, node_trees, one, three, two, Exp, Name, Op,
    Tree, UnstructuredNode,
};
use super::name_counts::{capped, count, NameCounts, Role};
use super::name_map::NameMap;
use super::path_uses::{max_uses_per_path, path_uses};
use super::repeated_reads::{may_repeat, read_may_repeat};
use super::substitution::{all_end, chains_end, closure, substitution, transitive_closure};

verus! {

/// The pairs of names that a vector of pairs of strings holds.
pub open spec fn pairs(v: Seq<(String, String)>) -> Seq<(Name, Name)> {
    v.map_values(|p: (String, String)| (p.0@, p.1@))
}

/// The binding `let x = y` that the root of a tree is, if it is one.
pub open spec fn binding(t: Tree) -> Option<(Name, Name)> {
    match t.op {
        Op::LetBind(targets) => if targets.len() == 1 && t.kids.len() == 1 {
            match t.kids[0].op {
                Op::Variable(y) => Some((targets[0], y)),
                _ => None,
            }
        } else {
            None
        },
        _ => None,
    }
}

/// The names of a binding `let x = y` somewhere in `root` are mentioned nowhere that would
/// stand against inlining it.
pub open spec fn unhindered(x: Name, y: Name, root: Tree) -> bool {
    &&& x != y
    // The source: one read, which is the binding's, and no write.
    &&& count(root, Role::Read, y) == 1
    &&& count(root, Role::Assign, y) == 0
    // The destination: introduced by the binding alone and never written.
    &&& count(root, Role::Assign, x) == 0
    &&& count(root, Role::LetBind, x) == 1
    &&& count(root, Role::Declare, x) == 0
    &&& count(root, Role::Unpack, x) == 0
    // It is read.
    &&& count(root, Role::Read, x) > 0
}

/// `x` is read at most once on any path through `root`: at one place that no path comes to
/// twice, or at several of which any path takes one. Where there are several, unstructured
/// code anywhere in `root` stands against it.
pub open spec fn once_on_a_path(root: Tree, x: Name) -> bool {
    if count(root, Role::Read, x) == 1 {
        !may_repeat(root, x)
    } else {
        path_uses(root, x).at_most(1)
    }
}

/// A binding `let x = y` somewhere in `root` may be inlined: in addition `x` is read at most
/// once on any path.
pub open spec fn eligible(x: Name, y: Name, root: Tree) -> bool {
    unhindered(x, y, root) && once_on_a_path(root, x)
}

/// The bindings in `t` that may be inlined, in traversal order.
pub open spec fn candidates(t: Tree, root: Tree) -> Seq<(Name, Name)>
    decreases t,
{
    (match binding(t) {
        Some((x, y)) => if eligible(x, y, root) {
            seq![(x, y)]
        } else {
            seq![]
        },
        None => seq![],
    }) + candidates_of_all(t.kids, root)
}

pub open spec fn candidates_of_all(ts: Seq<Tree>, root: Tree) -> Seq<(Name, Name)>
    decreases ts,
{
    if ts.len() == 0 {
        seq![]
    } else {
        candidates(ts.first(), root) + candidates_of_all(ts.drop_first(), root)
    }
}

/// The substitution that a list of bindings stands for; a later binding of a name wins.
pub open spec fn sub_map(bindings: Seq<(Name, Name)>) -> Map<Name, Name>
    decreases bindings.len(),
{
    if bindings.len() == 0 {
        Map::empty()
    } else {
        sub_map(bindings.drop_last()).insert(bindings.last().0, bindings.last().1)
    }
}

/// The tree is a binding that is to be dropped.
pub open spec fn dropped(t: Tree, drops: Set<(Name, Name)>) -> bool {
    binding(t) matches Some(b) && drops.contains(b)
}

/// `t` with the items of `drops` taken out of its sequences and the names of `subs` replaced
/// wherever they are read.
pub open spec fn applied(t: Tree, drops: Set<(Name, Name)>, subs: Map<Name, Name>) -> Tree
    decreases t,
{
    match t.op {
        Op::Variable(n) => leaf(
            Op::Variable(
                if subs.contains_key(n) {
                    subs[n]
                } else {
                    n
                },
            ),
        ),
        Op::Sequence => Tree { op: t.op, kids: applied_to_kept(t.kids, drops, subs) },
        _ => Tree { op: t.op, kids: applied_to_all(t.kids, drops, subs) },
    }
}

pub open spec fn applied_to_all(
    ts: Seq<Tree>,
    drops: Set<(Name, Name)>,
    subs: Map<Name, Name>,
) -> Seq<Tree>
    decreases ts,
{
    if ts.len() == 0 {
        seq![]
    } else {
        seq![applied(ts.first(), drops, subs)] + applied_to_all(ts.drop_first(), drops, subs)
    }
}

/// What becomes of the items of a sequence: those to be dropped go, the others are rewritten.
pub open spec fn applied_to_kept(
    ts: Seq<Tree>,
    drops: Set<(Name, Name)>,
    subs: Map<Name, Name>,
) -> Seq<Tree>
    decreases ts,
{
    if ts.len() == 0 {
        seq![]
    } else if dropped(ts.first(), drops) {
        applied_to_kept(ts.drop_first(), drops, subs)
    } else {
        seq![applied(ts.first(), drops, subs)] + applied_to_kept(ts.drop_first(), drops, subs)
    }
}

/// The bindings that one pass over `t` inlines.
pub open spec fn inlined(t: Tree) -> Seq<(Name, Name)> {
    candidates(t, t)
}

/// What one pass makes of `t`.
pub open spec fn refined(t: Tree) -> Tree {
    applied(t, inlined(t).to_set(), closure(sub_map(inlined(t))))
}

/// The bindings that are to be inlined do not run in a circle, as in `let a = b; let b = a;`.
pub open spec fn resolvable(t: Tree) -> bool {
    all_end(sub_map(inlined(t)))
}

fn is_eligible(x: &String, y: &String, root: &Exp, counts: &NameCounts) -> (res: bool)
    requires
        counts.counts(root@),
    ensures
        res == eligible(x@, y@, root@),
{
    if *x == *y {
        return false;
    }
    assert(counts.counted(Role::Read, y@) == capped(count(root@, Role::Read, y@)));
    assert(counts.counted(Role::Assign, y@) == capped(count(root@, Role::Assign, y@)));
    assert(counts.counted(Role::Read, x@) == capped(count(root@, Role::Read, x@)));
    assert(counts.counted(Role::Assign, x@) == capped(count(root@, Role::Assign, x@)));
    assert(counts.counted(Role::LetBind, x@) == capped(count(root@, Role::LetBind, x@)));
    assert(counts.counted(Role::Declare, x@) == capped(count(root@, Role::Declare, x@)));
    assert(counts.counted(Role::Unpack, x@) == capped(count(root@, Role::Unpack, x@)));
    if counts.reads(y.as_str()) != 1 || counts.assigns(y.as_str()) != 0 {
        return false;
    }
    if counts.assigns(x.as_str()) != 0 || counts.letbinds(x.as_str()) != 1 || counts.declares(
        x.as_str(),
    ) != 0 || counts.unpacks(x.as_str()) != 0 {
        return false;
    }
    let total = counts.reads(x.as_str());
    if total == 0 {
        return false;
    }
    if total == 1 {
        !read_may_repeat(root, x)
    } else {
        max_uses_per_path(root, x) <= 1
    }
}

/// The names of a binding `let x = y`, if `exp` is one.
fn as_binding(exp: &Exp) -> (res: Option<(&String, &String)>)
    ensures
        binding(exp@) == match res {
            Some((x, y)) => Some((x@, y@)),
            None => None,
        },
{
    if let Exp::LetBind(targets, rhs) = exp {
        if targets.len() == 1 {
            let ghost kid = rhs@;
            assert(exp@.kids[0] == kid);
            assert(names(targets@)[0] == targets@[0]@);
            if let Exp::Variable(y) = &**rhs {
                return Some((&targets[0], y));
            }
        }
    }
    None
}

fn is_dropped(item: &Exp, drop_set: &Vec<(String, String)>) -> (res: bool)
    ensures
        res == dropped(item@, pairs(drop_set@).to_set()),
{
    match as_binding(item) {
        Some((x, y)) => {
            let ghost b = (x@, y@);
            let mut i: usize = 0;
            while i < drop_set.len()
                invariant
                    i <= drop_set@.len(),
                    b == (x@, y@),
                    binding(item@) == Some(b),
                    forall|j: int| 0 <= j < i ==> pairs(drop_set@)[j] != b,
                decreases drop_set.len() - i,
            {
                if drop_set[i].0 == *x && drop_set[i].1 == *y {
                    assert(pairs(drop_set@)[i as int] == b);
                    return true;
                }
                i += 1;
            }
            false
        },
        None => false,
    }
}

/// Appends the bindings in `exp` that may be inlined to `out`, in traversal order.
fn collect_candidates(
    exp: &Exp,
    root: &Exp,
    counts: &NameCounts,
    out: &mut Vec<(String, String)>,
)
    requires
        counts.counts(root@),
    ensures
        pairs(final(out)@) == pairs(old(out)@) + candidates(exp@, root@),
    decreases exp, 1int,
{
    let ghost before = pairs(out@);
    if let Some((x, y)) = as_binding(exp) {
        if is_eligible(x, y, root, counts) {
            out.push((x.clone(), y.clone()));
            assert(pairs(out@) =~= before + seq![(x@, y@)]);
        }
    }
    let ghost own = pairs(out@);
    collect_in_kids(exp, root, counts, out);
    proof {
        assert(own + candidates_of_all(exp@.kids, root@) =~= before + candidates(exp@, root@));
    }
}

/// Appends the bindings in the children of `exp` that may be inlined.
#[verifier::spinoff_prover]
fn collect_in_kids(exp: &Exp, root: &Exp, counts: &NameCounts, out: &mut Vec<(String, String)>)
    requires
        counts.counts(root@),
    ensures
        pairs(final(out)@) == pairs(old(out)@) + candidates_of_all(exp@.kids, root@),
    decreases exp, 0int,
{
    let ghost start = pairs(out@);
    match exp {
        Exp::Variable(_)
        | Exp::Declare(_)
        | Exp::Value(_)
        | Exp::Constant(_)
        | Exp::Break(_)
        | Exp::Continue(_) => {
            assert(start + candidates_of_all(exp@.kids, root@) =~= start);
        },
        Exp::LetBind(_, e)
        | Exp::Assign(_, e)
        | Exp::Abort(e)
        | Exp::Borrow(_, e)
        | Exp::VecUnpack(_, e)
        | Exp::Unpack(_, _, e)
        | Exp::UnpackVariant(_, _, _, e)
        | Exp::Loop(_, e) => {
            collect_candidates(e, root, counts, out);
            proof {
                lemma_candidates_one(e@, root@);
            }
        },
        Exp::While(_, cond, body) => {
            collect_candidates(cond, root, counts, out);
            collect_candidates(body, root, counts, out);
            proof {
                assert(exp@.kids =~= one(cond@) + one(body@));
                lemma_candidates_cons(start, cond@, one(body@), root@);
                lemma_candidates_one(body@, root@);
            }
        },
        Exp::IfElse(cond, then_, else_) => {
            collect_candidates(cond, root, counts, out);
            collect_candidates(then_, root, counts, out);
            collect_in_else(else_, root, counts, out);
            proof {
                let rest = exp@.kids.skip(1);
                assert(exp@.kids =~= one(cond@) + rest);
                assert(rest =~= one(then_@) + else_trees(**else_));
                lemma_candidates_cons(start, cond@, rest, root@);
                lemma_candidates_cons(
                    start + candidates(cond@, root@),
                    then_@,
                    else_trees(**else_),
                    root@,
                );
            }
        },
        Exp::Sequence(items) | Exp::Return(items) | Exp::Call(_, items) => {
            collect_in_all(items, root, counts, out);
        },
        Exp::Primitive { op: _, args } | Exp::Data { op: _, args } => {
            collect_in_all(args, root, counts, out);
        },
        Exp::Switch(subject, _, cases) => {
            collect_candidates(subject, root, counts, out);
            collect_in_cases(cases, root, counts, out);
            proof {
                lemma_candidates_cons(start, subject@, case_trees(cases@), root@);
            }
        },
        Exp::Match(subject, _, arms) => {
            collect_candidates(subject, root, counts, out);
            collect_in_arms(arms, root, counts, out);
            proof {
                lemma_candidates_cons(start, subject@, arm_trees(arms@), root@);
            }
        },
        Exp::Unstructured(nodes) => {
            collect_in_nodes(nodes, root, counts, out);
        },
    }
}

/// The tree of an `else` branch, if there is one.
spec fn else_trees(branch: Option<Exp>) -> Seq<Tree> {
    match branch {
        Some(e) => one(e@),
        None => Seq::empty(),
    }
}

/// Appends the bindings in an `else` branch that may be inlined.
fn collect_in_else(
    branch: &Option<Exp>,
    root: &Exp,
    counts: &NameCounts,
    out: &mut Vec<(String, String)>,
)
    requires
        counts.counts(root@),
    ensures
        pairs(final(out)@) == pairs(old(out)@) + candidates_of_all(else_trees(*branch), root@),
    decreases branch, 2int,
{
    match branch {
        Some(e) => {
            collect_candidates(e, root, counts, out);
            proof {
                lemma_candidates_one(e@, root@);
            }
        },
        None => {
            assert(pairs(out@) + candidates_of_all(else_trees(*branch), root@) =~= pairs(out@));
        },
    }
}

fn collect_in_all(
    items: &Vec<Exp>,
    root: &Exp,
    counts: &NameCounts,
    out: &mut Vec<(String, String)>,
)
    requires
        counts.counts(root@),
    ensures
        pairs(final(out)@) == pairs(old(out)@) + candidates_of_all(exp_trees(items@), root@),
    decreases items, 0int,
{
    let ghost ts = exp_trees(items@);
    let mut i: usize = 0;
    assert(ts.skip(0) =~= ts);
    while i < items.len()
        invariant
            i <= items@.len(),
            ts == exp_trees(items@),
            counts.counts(root@),
            pairs(out@) + candidates_of_all(ts.skip(i as int), root@) == pairs(old(out)@)
                + candidates_of_all(ts, root@),
        decreases items.len() - i,
    {
        let ghost before = pairs(out@);
        collect_candidates(&items[i], root, counts, out);
        proof {
            assert(ts.skip(i as int) =~= one(ts[i as int]) + ts.skip(i + 1));
            lemma_candidates_cons(before, ts[i as int], ts.skip(i + 1), root@);
        }
        i += 1;
    }
    assert(ts.skip(i as int) =~= Seq::<Tree>::empty());
    assert(pairs(out@) + candidates_of_all(ts.skip(i as int), root@) =~= pairs(out@));
}

fn collect_in_cases(
    items: &Vec<(String, Exp)>,
    root: &Exp,
    counts: &NameCounts,
    out: &mut Vec<(String, String)>,
)
    requires
        counts.counts(root@),
    ensures
        pairs(final(out)@) == pairs(old(out)@) + candidates_of_all(case_trees(items@), root@),
    decreases items, 0int,
{
    let ghost ts = case_trees(items@);
    let mut i: usize = 0;
    assert(ts.skip(0) =~= ts);
    while i < items.len()
        invariant
            i <= items@.len(),
            ts == case_trees(items@),
            counts.counts(root@),
            pairs(out@) + candidates_of_all(ts.skip(i as int), root@) == pairs(old(out)@)
                + candidates_of_all(ts, root@),
        decreases items.len() - i,
    {
        let ghost before = pairs(out@);
        collect_candidates(&items[i].1, root, counts, out);
        proof {
            lemma_candidates_one(items@[i as int].1@, root@);
            assert(candidates(ts[i as int], root@) =~= candidates_of_all(
                ts[i as int].kids,
                root@,
            ));
            assert(ts.skip(i as int) =~= one(ts[i as int]) + ts.skip(i + 1));
            lemma_candidates_cons(before, ts[i as int], ts.skip(i + 1), root@);
        }
        i += 1;
    }
    assert(ts.skip(i as int) =~= Seq::<Tree>::empty());
    assert(pairs(out@) + candidates_of_all(ts.skip(i as int), root@) =~= pairs(out@));
}

fn collect_in_arms(
    items: &Vec<(String, Vec<(String, String)>, Exp)>,
    root: &Exp,
    counts: &NameCounts,
    out: &mut Vec<(String, String)>,
)
    requires
        counts.counts(root@),
    ensures
        pairs(final(out)@) == pairs(old(out)@) + candidates_of_all(arm_trees(items@), root@),
    decreases items, 0int,
{
    let ghost ts = arm_trees(items@);
    let mut i: usize = 0;
    assert(ts.skip(0) =~= ts);
    while i < items.len()
        invariant
            i <= items@.len(),
            ts == arm_trees(items@),
            counts.counts(root@),
            pairs(out@) + candidates_of_all(ts.skip(i as int), root@) == pairs(old(out)@)
                + candidates_of_all(ts, root@),
        decreases items.len() - i,
    {
        let ghost before = pairs(out@);
        collect_candidates(&items[i].2, root, counts, out);
        proof {
            lemma_candidates_one(items@[i as int].2@, root@);
            assert(candidates(ts[i as int], root@) =~= candidates_of_all(
                ts[i as int].kids,
                root@,
            ));
            assert(ts.skip(i as int) =~= one(ts[i as int]) + ts.skip(i + 1));
            lemma_candidates_cons(before, ts[i as int], ts.skip(i + 1), root@);
        }
        i += 1;
    }
    assert(ts.skip(i as int) =~= Seq::<Tree>::empty());
    assert(pairs(out@) + candidates_of_all(ts.skip(i as int), root@) =~= pairs(out@));
}

fn collect_in_nodes(
    items: &Vec<UnstructuredNode>,
    root: &Exp,
    counts: &NameCounts,
    out: &mut Vec<(String, String)>,
)
    requires
        counts.counts(root@),
    ensures
        pairs(final(out)@) == pairs(old(out)@) + candidates_of_all(node_trees(items@), root@),
    decreases items, 0int,
{
    let ghost ts = node_trees(items@);
    let mut i: usize = 0;
    assert(ts.skip(0) =~= ts);
    while i < items.len()
        invariant
            i <= items@.len(),
            ts == node_trees(items@),
            counts.counts(root@),
            pairs(out@) + candidates_of_all(ts.skip(i as int), root@) == pairs(old(out)@)
                + candidates_of_all(ts, root@),
        decreases items.len() - i,
    {
        let ghost before = pairs(out@);
        match &items[i] {
            UnstructuredNode::Labeled(_, body) | UnstructuredNode::Statement(body) => {
                collect_candidates(body, root, counts, out);
                proof {
                    lemma_candidates_one(body@, root@);
                }
            },
            UnstructuredNode::Goto(_) => {
                assert(before + candidates_of_all(ts[i as int].kids, root@) =~= before);
            },
        }
        assert(candidates(ts[i as int], root@) =~= candidates_of_all(ts[i as int].kids, root@));
        proof {
            assert(ts.skip(i as int) =~= one(ts[i as int]) + ts.skip(i + 1));
            lemma_candidates_cons(before, ts[i as int], ts.skip(i + 1), root@);
        }
        i += 1;
    }
    assert(ts.skip(i as int) =~= Seq::<Tree>::empty());
    assert(pairs(out@) + candidates_of_all(ts.skip(i as int), root@) =~= pairs(out@));
}

proof fn lemma_candidates_cons(before: Seq<(Name, Name)>, t: Tree, ts: Seq<Tree>, root: Tree)
    ensures
        before + candidates_of_all(one(t) + ts, root) == before + candidates(t, root)
            + candidates_of_all(ts, root),
{
    assert((one(t) + ts).drop_first() =~= ts);
    assert(before + candidates_of_all(one(t) + ts, root) =~= before + candidates(t, root)
        + candidates_of_all(ts, root));
}

proof fn lemma_candidates_one(t: Tree, root: Tree)
    ensures
        candidates_of_all(one(t), root) == candidates(t, root),
{
    reveal_with_fuel(candidates_of_all, 2);
    assert(one(t).drop_first() =~= Seq::<Tree>::empty());
    assert(candidates(t, root) + candidates_of_all(Seq::empty(), root) =~= candidates(t, root));
}

/// Drops the bindings of `drop_set` from the sequences in `exp` and replaces the names of
/// `subs` wherever `exp` reads them.
fn apply(exp: &mut Exp, drop_set: &Vec<(String, String)>, subs: &NameMap<String>)
    requires
        subs.wf(),
    ensures
        final(exp)@ == applied(old(exp)@, pairs(drop_set@).to_set(), substitution(subs@)),
    decreases *old(exp), 1int,
{
    match exp {
        Exp::Variable(n) => {
            if let Some(y) = subs.get(n.as_str()) {
                *n = y.clone();
            }
        },
        Exp::Sequence(items) => {
            apply_to_sequence(items, drop_set, subs);
        },
        Exp::LetBind(_, _)
        | Exp::Assign(_, _)
        | Exp::Abort(_)
        | Exp::Borrow(_, _)
        | Exp::VecUnpack(_, _)
        | Exp::Unpack(_, _, _)
        | Exp::UnpackVariant(_, _, _, _)
        | Exp::Loop(_, _) => {
            apply_to_only_kid(exp, drop_set, subs);
        },
        _ => {
            apply_to_kids(exp, drop_set, subs);
        },
    }
}

/// Applies the pass to the items of a sequence.
fn apply_to_sequence(
    items: &mut Vec<Exp>,
    drop_set: &Vec<(String, String)>,
    subs: &NameMap<String>,
)
    requires
        subs.wf(),
    ensures
        exp_trees(final(items)@) == applied_to_kept(
            exp_trees(old(items)@),
            pairs(drop_set@).to_set(),
            substitution(subs@),
        ),
    decreases *old(items), 0int,
{
    let ghost drops = pairs(drop_set@).to_set();
    let ghost s = substitution(subs@);
    let ghost ts = exp_trees(old(items)@);
    let mut all: Vec<Exp> = Vec::new();
    std::mem::swap(items, &mut all);
    assert(ts.skip(0) =~= ts);
    assert(all@ == old(items)@);
    for item in it: all
        invariant
            it.seq() == old(items)@,
            subs.wf(),
            drops == pairs(drop_set@).to_set(),
            s == substitution(subs@),
            ts == exp_trees(old(items)@),
            exp_trees(items@) + applied_to_kept(ts.skip(it.index()), drops, s) == applied_to_kept(
                ts,
                drops,
                s,
            ),
    {
        let ghost k = it.index();
        assert(ts.skip(k).drop_first() =~= ts.skip(k + 1));
        assert(ts.skip(k).first() == item@);
        if !is_dropped(&item, drop_set) {
            let ghost before = exp_trees(items@);
            let mut rewritten = item;
            apply(&mut rewritten, drop_set, subs);
            items.push(rewritten);
            proof {
                assert(exp_trees(items@) =~= before + seq![applied(item@, drops, s)]);
                assert(exp_trees(items@) + applied_to_kept(ts.skip(k + 1), drops, s) =~= before
                    + applied_to_kept(ts.skip(k), drops, s));
            }
        }
    }
    proof {
        assert(ts.skip(ts.len() as int) =~= Seq::<Tree>::empty());
        assert(exp_trees(items@) + applied_to_kept(ts.skip(ts.len() as int), drops, s)
            =~= exp_trees(items@));
    }
}

/// Each tree of a list is rewritten in its place.
pub proof fn lemma_applied_to_all(ts: Seq<Tree>, drops: Set<(Name, Name)>, subs: Map<Name, Name>)
    ensures
        applied_to_all(ts, drops, subs).len() == ts.len(),
        forall|i: int|
            0 <= i < ts.len() ==> #[trigger] applied_to_all(ts, drops, subs)[i] == applied(
                ts[i],
                drops,
                subs,
            ),
    decreases ts.len(),
{
    if ts.len() > 0 {
        lemma_applied_to_all(ts.drop_first(), drops, subs);
        assert forall|i: int| 0 <= i < ts.len() implies #[trigger] applied_to_all(
            ts,
            drops,
            subs,
        )[i] == applied(ts[i], drops, subs) by {
            if i > 0 {
                assert(ts.drop_first()[i - 1] == ts[i]);
                assert(applied_to_all(ts.drop_first(), drops, subs)[i - 1] == applied(
                    ts[i],
                    drops,
                    subs,
                ));
            }
        }
    }
}

/// The expression is of a kind that always has exactly one child.
spec fn has_only_kid(exp: Exp) -> bool {
    match exp {
        Exp::LetBind(_, _) => true,
        Exp::Assign(_, _) => true,
        Exp::Abort(_) => true,
        Exp::Borrow(_, _) => true,
        Exp::VecUnpack(_, _) => true,
        Exp::Unpack(_, _, _) => true,
        Exp::UnpackVariant(_, _, _, _) => true,
        Exp::Loop(_, _) => true,
        _ => false,
    }
}

/// Applies the pass to the child of an expression that has one.
fn apply_to_only_kid(exp: &mut Exp, drop_set: &Vec<(String, String)>, subs: &NameMap<String>)
    requires
        subs.wf(),
        has_only_kid(*old(exp)),
    ensures
        final(exp)@ == applied(old(exp)@, pairs(drop_set@).to_set(), substitution(subs@)),
    decreases *old(exp), 0int,
{
    proof {
        lemma_applied_short(exp@, pairs(drop_set@).to_set(), substitution(subs@));
    }
    match exp {
        Exp::LetBind(_, e) => {
            apply(e, drop_set, subs);
        },
        Exp::Assign(_, e) => {
            apply(e, drop_set, subs);
        },
        Exp::Abort(e) => {
            apply(e, drop_set, subs);
        },
        Exp::Borrow(_, e) => {
            apply(e, drop_set, subs);
        },
        Exp::VecUnpack(_, e) => {
            apply(e, drop_set, subs);
        },
        Exp::Unpack(_, _, e) => {
            apply(e, drop_set, subs);
        },
        Exp::UnpackVariant(_, _, _, e) => {
            apply(e, drop_set, subs);
        },
        Exp::Loop(_, e) => {
            apply(e, drop_set, subs);
        },
        _ => {},
    }
}

/// Applies the pass to an `else` branch, where there is one.
fn apply_to_else(
    else_: &mut Option<Exp>,
    drop_set: &Vec<(String, String)>,
    subs: &NameMap<String>,
)
    requires
        subs.wf(),
    ensures
        match *old(else_) {
            Some(e) => *final(else_) matches Some(f) && f@ == applied(
                e@,
                pairs(drop_set@).to_set(),
                substitution(subs@),
            ),
            None => *final(else_) is None,
        },
    decreases *old(else_), 0int,
{
    match else_ {
        Some(e) => {
            apply(e, drop_set, subs);
        },
        None => {},
    }
}

/// Applies the pass to the children of a branch, a loop with a condition, or an unstructured
/// graph, and to those of a list.
fn apply_to_kids(exp: &mut Exp, drop_set: &Vec<(String, String)>, subs: &NameMap<String>)
    requires
        subs.wf(),
        !has_only_kid(*old(exp)),
        !(*old(exp) is Variable),
        !(*old(exp) is Sequence),
    ensures
        final(exp)@ == applied(old(exp)@, pairs(drop_set@).to_set(), substitution(subs@)),
    decreases *old(exp), 0int,
{
    proof {
        lemma_applied_short(exp@, pairs(drop_set@).to_set(), substitution(subs@));
    }
    match exp {
        Exp::While(_, cond, body) => {
            apply(cond, drop_set, subs);
            apply(body, drop_set, subs);
        },
        Exp::IfElse(cond, then_, else_) => {
            apply(cond, drop_set, subs);
            apply(then_, drop_set, subs);
            apply_to_else(else_, drop_set, subs);
        },
        Exp::Return(items) => {
            apply_to_all(items, drop_set, subs);
        },
        Exp::Call(_, items) => {
            apply_to_all(items, drop_set, subs);
        },
        Exp::Primitive { op: _, args } => {
            apply_to_all(args, drop_set, subs);
        },
        Exp::Data { op: _, args } => {
            apply_to_all(args, drop_set, subs);
        },
        Exp::Switch(subject, _, cases) => {
            proof {
                lemma_applied_cons(
                    subject@,
                    case_trees(cases@),
                    pairs(drop_set@).to_set(),
                    substitution(subs@),
                );
            }
            apply(subject, drop_set, subs);
            apply_to_cases(cases, drop_set, subs);
        },
        Exp::Match(subject, _, arms) => {
            proof {
                lemma_applied_cons(
                    subject@,
                    arm_trees(arms@),
                    pairs(drop_set@).to_set(),
                    substitution(subs@),
                );
            }
            apply(subject, drop_set, subs);
            apply_to_arms(arms, drop_set, subs);
        },
        Exp::Unstructured(nodes) => {
            apply_to_nodes(nodes, drop_set, subs);
        },
        _ => {},
    }
}

fn apply_to_all(
    items: &mut Vec<Exp>,
    drop_set: &Vec<(String, String)>,
    subs: &NameMap<String>,
)
    requires
        subs.wf(),
    ensures
        exp_trees(final(items)@) == applied_to_all(
            exp_trees(old(items)@),
            pairs(drop_set@).to_set(),
            substitution(subs@),
        ),
    decreases *old(items), 0int,
{
    let ghost drops = pairs(drop_set@).to_set();
    let ghost s = substitution(subs@);
    let ghost ts = exp_trees(old(items)@);
    let mut i: usize = 0;
    while i < items.len()
        invariant
            subs.wf(),
            drops == pairs(drop_set@).to_set(),
            s == substitution(subs@),
            ts == exp_trees(old(items)@),
            i <= items@.len(),
            items@.len() == old(items)@.len(),
            forall|j: int|
                0 <= j < i ==> #[trigger] exp_trees(items@)[j] == applied(ts[j], drops, s),
            forall|j: int| i <= j < items@.len() ==> #[trigger] items@[j] == old(items)@[j],
        decreases items.len() - i,
    {
        let ghost before = items@;
        apply(&mut items[i], drop_set, subs);
        proof {
            assert forall|j: int| 0 <= j < i + 1 implies #[trigger] exp_trees(items@)[j] == applied(
                ts[j],
                drops,
                s,
            ) by {
                if j < i {
                    assert(exp_trees(before)[j] == applied(ts[j], drops, s));
                }
            }
        }
        i += 1;
    }
    proof {
        lemma_applied_to_all(ts, drops, s);
        assert(exp_trees(items@) =~= applied_to_all(ts, drops, s));
    }
}

fn apply_to_cases(
    items: &mut Vec<(String, Exp)>,
    drop_set: &Vec<(String, String)>,
    subs: &NameMap<String>,
)
    requires
        subs.wf(),
    ensures
        case_trees(final(items)@) == applied_to_all(
            case_trees(old(items)@),
            pairs(drop_set@).to_set(),
            substitution(subs@),
        ),
    decreases *old(items), 0int,
{
    let ghost drops = pairs(drop_set@).to_set();
    let ghost s = substitution(subs@);
    let ghost ts = case_trees(old(items)@);
    let mut i: usize = 0;
    while i < items.len()
        invariant
            subs.wf(),
            drops == pairs(drop_set@).to_set(),
            s == substitution(subs@),
            ts == case_trees(old(items)@),
            i <= items@.len(),
            items@.len() == old(items)@.len(),
            forall|j: int|
                0 <= j < i ==> #[trigger] case_trees(items@)[j] == applied(ts[j], drops, s),
            forall|j: int| i <= j < items@.len() ==> #[trigger] items@[j] == old(items)@[j],
        decreases items.len() - i,
    {
        let ghost before = items@;
        apply(&mut items[i].1, drop_set, subs);
        proof {
            lemma_applied_short(ts[i as int], drops, s);
            assert forall|j: int| 0 <= j < i + 1 implies #[trigger] case_trees(items@)[j] == applied(
                ts[j],
                drops,
                s,
            ) by {
                if j < i {
                    assert(case_trees(before)[j] == applied(ts[j], drops, s));
                }
            }
        }
        i += 1;
    }
    proof {
        lemma_applied_to_all(ts, drops, s);
        assert(case_trees(items@) =~= applied_to_all(ts, drops, s));
    }
}

fn apply_to_arms(
    items: &mut Vec<(String, Vec<(String, String)>, Exp)>,
    drop_set: &Vec<(String, String)>,
    subs: &NameMap<String>,
)
    requires
        subs.wf(),
    ensures
        arm_trees(final(items)@) == applied_to_all(
            arm_trees(old(items)@),
            pairs(drop_set@).to_set(),
            substitution(subs@),
        ),
    decreases *old(items), 0int,
{
    let ghost drops = pairs(drop_set@).to_set();
    let ghost s = substitution(subs@);
    let ghost ts = arm_trees(old(items)@);
    let mut i: usize = 0;
    while i < items.len()
        invariant
            subs.wf(),
            drops == pairs(drop_set@).to_set(),
            s == substitution(subs@),
            ts == arm_trees(old(items)@),
            i <= items@.len(),
            items@.len() == old(items)@.len(),
            forall|j: int|
                0 <= j < i ==> #[trigger] arm_trees(items@)[j] == applied(ts[j], drops, s),
            forall|j: int| i <= j < items@.len() ==> #[trigger] items@[j] == old(items)@[j],
        decreases items.len() - i,
    {
        let ghost before = items@;
        apply(&mut items[i].2, drop_set, subs);
        proof {
            lemma_applied_short(ts[i as int], drops, s);
            assert forall|j: int| 0 <= j < i + 1 implies #[trigger] arm_trees(items@)[j] == applied(
                ts[j],
                drops,
                s,
            ) by {
                if j < i {
                    assert(arm_trees(before)[j] == applied(ts[j], drops, s));
                }
            }
        }
        i += 1;
    }
    proof {
        lemma_applied_to_all(ts, drops, s);
        assert(arm_trees(items@) =~= applied_to_all(ts, drops, s));
    }
}

fn apply_to_nodes(
    items: &mut Vec<UnstructuredNode>,
    drop_set: &Vec<(String, String)>,
    subs: &NameMap<String>,
)
    requires
        subs.wf(),
    ensures
        node_trees(final(items)@) == applied_to_all(
            node_trees(old(items)@),
            pairs(drop_set@).to_set(),
            substitution(subs@),
        ),
    decreases *old(items), 0int,
{
    let ghost drops = pairs(drop_set@).to_set();
    let ghost s = substitution(subs@);
    let ghost ts = node_trees(old(items)@);
    let mut i: usize = 0;
    while i < items.len()
        invariant
            subs.wf(),
            drops == pairs(drop_set@).to_set(),
            s == substitution(subs@),
            ts == node_trees(old(items)@),
            i <= items@.len(),
            items@.len() == old(items)@.len(),
            forall|j: int|
                0 <= j < i ==> #[trigger] node_trees(items@)[j] == applied(ts[j], drops, s),
            forall|j: int| i <= j < items@.len() ==> #[trigger] items@[j] == old(items)@[j],
        decreases items.len() - i,
    {
        let ghost before = items@;
        match &mut items[i] {
            UnstructuredNode::Labeled(_, body) => {
                apply(body, drop_set, subs);
            },
            UnstructuredNode::Goto(_) => {},
            UnstructuredNode::Statement(body) => {
                apply(body, drop_set, subs);
            },
        }
        proof {
            lemma_applied_short(ts[i as int], drops, s);
            assert forall|j: int| 0 <= j < i + 1 implies #[trigger] node_trees(items@)[j] == applied(
                ts[j],
                drops,
                s,
            ) by {
                if j < i {
                    assert(node_trees(before)[j] == applied(ts[j], drops, s));
                }
            }
        }
        i += 1;
    }
    proof {
        lemma_applied_to_all(ts, drops, s);
        assert(node_trees(items@) =~= applied_to_all(ts, drops, s));
    }
}

proof fn lemma_applied_cons(
    t: Tree,
    ts: Seq<Tree>,
    drops: Set<(Name, Name)>,
    subs: Map<Name, Name>,
)
    ensures
        applied_to_all(one(t) + ts, drops, subs) == one(applied(t, drops, subs))
            + applied_to_all(ts, drops, subs),
{
    assert((one(t) + ts).drop_first() =~= ts);
}

/// What becomes of a node with at most three children that is neither a variable nor a
/// sequence.
proof fn lemma_applied_short(t: Tree, drops: Set<(Name, Name)>, subs: Map<Name, Name>)
    requires
        !(t.op is Variable),
        !(t.op is Sequence),
    ensures
        applied(t, drops, subs).op == t.op,
        applied(t, drops, subs).kids == applied_to_all(t.kids, drops, subs),
        t.kids.len() == 0 ==> applied(t, drops, subs).kids == Seq::<Tree>::empty(),
        t.kids.len() == 1 ==> applied(t, drops, subs).kids == one(
            applied(t.kids[0], drops, subs),
        ),
        t.kids.len() == 2 ==> applied(t, drops, subs).kids == two(
            applied(t.kids[0], drops, subs),
            applied(t.kids[1], drops, subs),
        ),
        t.kids.len() == 3 ==> applied(t, drops, subs).kids == three(
            applied(t.kids[0], drops, subs),
            applied(t.kids[1], drops, subs),
            applied(t.kids[2], drops, subs),
        ),
{
    lemma_applied_to_all(t.kids, drops, subs);
    let kids = applied_to_all(t.kids, drops, subs);
    if t.kids.len() == 0 {
        assert(kids =~= Seq::<Tree>::empty());
    } else if t.kids.len() == 1 {
        assert(kids =~= one(applied(t.kids[0], drops, subs)));
    } else if t.kids.len() == 2 {
        assert(kids =~= two(applied(t.kids[0], drops, subs), applied(t.kids[1], drops, subs)));
    } else if t.kids.len() == 3 {
        assert(kids =~= three(
            applied(t.kids[0], drops, subs),
            applied(t.kids[1], drops, subs),
            applied(t.kids[2], drops, subs),
        ));
    }
}

/// The map that a list of bindings stands for.
fn to_sub_map(bindings: &Vec<(String, String)>) -> (res: NameMap<String>)
    ensures
        res.wf(),
        substitution(res@) == sub_map(pairs(bindings@)),
{
    let ghost bs = pairs(bindings@);
    let mut subs: NameMap<String> = NameMap::new();
    let mut i: usize = 0;
    assert(substitution(subs@) =~= sub_map(bs.take(0)));
    while i < bindings.len()
        invariant
            i <= bindings@.len(),
            bs == pairs(bindings@),
            subs.wf(),
            substitution(subs@) == sub_map(bs.take(i as int)),
        decreases bindings.len() - i,
    {
        let ghost before = substitution(subs@);
        subs.insert(bindings[i].0.clone(), bindings[i].1.clone());
        proof {
            assert(bs.take(i + 1).drop_last() =~= bs.take(i as int));
            assert(substitution(subs@) =~= before.insert(bs[i as int].0, bs[i as int].1));
        }
        i += 1;
    }
    assert(bs.take(i as int) =~= bs);
    subs
}

/// Inlines the bindings of `exp` that may be inlined, and says whether there were any.
///
/// The bindings to be inlined do not run in a circle.
pub fn refine(exp: &mut Exp) -> (fired: bool)
    requires
        resolvable(old(exp)@),
    ensures
        fired == (inlined(old(exp)@).len() > 0),
        !fired ==> *final(exp) == *old(exp),
        fired ==> final(exp)@ == refined(old(exp)@),
{
    match checked_refine(exp) {
        Some(fired) => fired,
        None => false,
    }
}

/// As [`refine`], or `None` where the bindings to be inlined run in a circle, which leaves
/// `exp` as it is.
pub fn checked_refine(exp: &mut Exp) -> (res: Option<bool>)
    ensures
        res is Some <==> resolvable(old(exp)@),
        res matches Some(fired) ==> fired == (inlined(old(exp)@).len() > 0),
        res != Some(true) ==> *final(exp) == *old(exp),
        res == Some(true) ==> final(exp)@ == refined(old(exp)@),
{
    let counts = NameCounts::collect(exp);
    let mut bindings: Vec<(String, String)> = Vec::new();
    collect_candidates(exp, exp, &counts, &mut bindings);
    proof {
        assert(pairs(bindings@) =~= inlined(exp@));
    }
    let mut subs = to_sub_map(&bindings);
    if !chains_end(&subs) {
        return None;
    }
    if bindings.len() == 0 {
        return Some(false);
    }
    transitive_closure(&mut subs);
    apply(exp, &bindings, &subs);
    Some(true)
}

} // verus!
