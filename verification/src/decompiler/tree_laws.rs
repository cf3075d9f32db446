//! What the trees of expressions hold, and what is counted in them.

use vstd::prelude::*;

use super::ast::{
    arm_trees, case_trees, exp_trees, node_trees, Exp, Name, Op, Tree, UnstructuredNode,
};
use super::name_counts::{bound_names, capped, count, count_all, occurrences, own_names, Role};

verus! {

/// The tree of an expression has one child for each of its parts, in order, and holds all of
/// its plain data.
pub proof fn law_tree_of(exp: Exp)
    ensures
        match exp {
            Exp::Break(label) => exp@ == (Tree { op: Op::Break(label), kids: seq![] }),
            Exp::Continue(label) => exp@ == (Tree { op: Op::Continue(label), kids: seq![] }),
            Exp::Loop(label, body) => exp@ == (Tree { op: Op::Loop(label), kids: seq![body@] }),
            Exp::While(label, cond, body) => exp@ == (Tree {
                op: Op::While(label),
                kids: seq![cond@, body@],
            }),
            Exp::Sequence(items) => exp@ == (Tree {
                op: Op::Sequence,
                kids: items@.map_values(|e: Exp| e@),
            }),
            Exp::IfElse(cond, then_, else_) => exp@ == (Tree {
                op: Op::IfElse,
                kids: match *else_ {
                    Some(e) => seq![cond@, then_@, e@],
                    None => seq![cond@, then_@],
                },
            }),
            Exp::Switch(subject, ty, cases) => exp@ == (Tree {
                op: Op::Switch(ty@),
                kids: seq![subject@] + cases@.map_values(
                    |c: (String, Exp)| Tree { op: Op::Case(c.0@), kids: seq![c.1@] },
                ),
            }),
            Exp::Match(subject, ty, arms) => exp@ == (Tree {
                op: Op::Match(ty@),
                kids: seq![subject@] + arms@.map_values(
                    |a: (String, Vec<(String, String)>, Exp)|
                        Tree {
                            op: Op::Arm(
                                a.0@,
                                a.1@.map_values(|f: (String, String)| (f.0@, f.1@)),
                            ),
                            kids: seq![a.2@],
                        },
                ),
            }),
            Exp::Return(items) => exp@ == (Tree {
                op: Op::Return,
                kids: items@.map_values(|e: Exp| e@),
            }),
            Exp::Assign(targets, rhs) => exp@ == (Tree {
                op: Op::Assign(targets@.map_values(|s: String| s@)),
                kids: seq![rhs@],
            }),
            Exp::LetBind(targets, rhs) => exp@ == (Tree {
                op: Op::LetBind(targets@.map_values(|s: String| s@)),
                kids: seq![rhs@],
            }),
            Exp::Declare(targets) => exp@ == (Tree {
                op: Op::Declare(targets@.map_values(|s: String| s@)),
                kids: seq![],
            }),
            Exp::Call(function, items) => exp@ == (Tree {
                op: Op::Call(function@),
                kids: items@.map_values(|e: Exp| e@),
            }),
            Exp::Abort(code) => exp@ == (Tree { op: Op::Abort, kids: seq![code@] }),
            Exp::Primitive { op, args } => exp@ == (Tree {
                op: Op::Primitive(op@),
                kids: args@.map_values(|e: Exp| e@),
            }),
            Exp::Data { op, args } => exp@ == (Tree {
                op: Op::Data(op@),
                kids: args@.map_values(|e: Exp| e@),
            }),
            Exp::Borrow(mutable, place) => exp@ == (Tree {
                op: Op::Borrow(mutable),
                kids: seq![place@],
            }),
            Exp::Value(literal) => exp@ == (Tree { op: Op::Value(literal@), kids: seq![] }),
            Exp::Variable(name) => exp@ == (Tree { op: Op::Variable(name@), kids: seq![] }),
            Exp::Constant(constant) => exp@ == (Tree {
                op: Op::Constant(constant@),
                kids: seq![],
            }),
            Exp::Unpack(ty, fields, source) => exp@ == (Tree {
                op: Op::Unpack(ty@, fields@.map_values(|f: (String, String)| (f.0@, f.1@))),
                kids: seq![source@],
            }),
            Exp::UnpackVariant(ty, variant, fields, source) => exp@ == (Tree {
                op: Op::UnpackVariant(
                    ty@,
                    variant@,
                    fields@.map_values(|f: (String, String)| (f.0@, f.1@)),
                ),
                kids: seq![source@],
            }),
            Exp::VecUnpack(targets, source) => exp@ == (Tree {
                op: Op::VecUnpack(targets@.map_values(|s: String| s@)),
                kids: seq![source@],
            }),
            Exp::Unstructured(nodes) => exp@ == (Tree {
                op: Op::Unstructured,
                kids: nodes@.map_values(|n: UnstructuredNode| n@),
            }),
        },
{
    match exp {
        Exp::Sequence(items) | Exp::Return(items) | Exp::Call(_, items) => {
            assert(exp_trees(items@) =~= items@.map_values(|e: Exp| e@));
        },
        Exp::Primitive { op: _, args } | Exp::Data { op: _, args } => {
            assert(exp_trees(args@) =~= args@.map_values(|e: Exp| e@));
        },
        Exp::Switch(_, _, cases) => {
            assert(case_trees(cases@) =~= cases@.map_values(
                |c: (String, Exp)| Tree { op: Op::Case(c.0@), kids: seq![c.1@] },
            ));
        },
        Exp::Match(_, _, arms) => {
            assert(arm_trees(arms@) =~= arms@.map_values(
                |a: (String, Vec<(String, String)>, Exp)|
                    Tree {
                        op: Op::Arm(a.0@, a.1@.map_values(|f: (String, String)| (f.0@, f.1@))),
                        kids: seq![a.2@],
                    },
            ));
        },
        Exp::Unstructured(nodes) => {
            assert(node_trees(nodes@) =~= nodes@.map_values(|n: UnstructuredNode| n@));
        },
        _ => {},
    }
}

/// The tree of a node of an unstructured graph.
pub proof fn law_tree_of_node(node: UnstructuredNode)
    ensures
        match node {
            UnstructuredNode::Labeled(label, body) => node@ == (Tree {
                op: Op::Labeled(label),
                kids: seq![body@],
            }),
            UnstructuredNode::Goto(label) => node@ == (Tree { op: Op::Goto(label), kids: seq![] }),
            UnstructuredNode::Statement(body) => node@ == (Tree {
                op: Op::Statement,
                kids: seq![body@],
            }),
        },
{
}

/// What a node counts for itself: a variable one read, an assignment, a binding, a declaration
/// and a pattern each of the names that they introduce or write, as often as it stands there.
pub proof fn law_count_of_a_node(op: Op, role: Role, n: Name)
    ensures
        count(Tree { op, kids: seq![] }, role, n) == match (op, role) {
            (Op::Variable(m), Role::Read) => if m == n {
                1
            } else {
                0
            },
            (Op::Assign(targets), Role::Assign) => targets.to_multiset().count(n),
            (Op::LetBind(targets), Role::LetBind) => targets.to_multiset().count(n),
            (Op::Declare(targets), Role::Declare) => targets.to_multiset().count(n),
            (Op::VecUnpack(targets), Role::Unpack) => targets.to_multiset().count(n),
            (Op::Unpack(_, fields), Role::Unpack) => fields.map_values(
                |f: (Name, Name)| f.1,
            ).to_multiset().count(n),
            (Op::UnpackVariant(_, _, fields), Role::Unpack) => fields.map_values(
                |f: (Name, Name)| f.1,
            ).to_multiset().count(n),
            (Op::Arm(_, fields), Role::Unpack) => fields.map_values(
                |f: (Name, Name)| f.1,
            ).to_multiset().count(n),
            _ => 0,
        },
{
    lemma_occurrences(own_names(op, role), n);
    match (op, role) {
        (Op::Variable(m), Role::Read) => {
            assert(seq![m].drop_first() =~= Seq::<Name>::empty());
            reveal_with_fuel(occurrences, 2);
        },
        (Op::Unpack(_, fields), Role::Unpack)
        | (Op::UnpackVariant(_, _, fields), Role::Unpack)
        | (Op::Arm(_, fields), Role::Unpack) => {
            assert(bound_names(fields) =~= fields.map_values(|f: (Name, Name)| f.1));
        },
        _ => {},
    }
}

proof fn lemma_occurrences(ns: Seq<Name>, n: Name)
    ensures
        occurrences(ns, n) == ns.to_multiset().count(n),
    decreases ns.len(),
{
    broadcast use vstd::seq_lib::group_to_multiset_ensures;

    if ns.len() > 0 {
        let rest = ns.drop_first();
        lemma_occurrences(rest, n);
        assert(ns =~= seq![ns.first()] + rest);
        vstd::seq_lib::lemma_multiset_commutative(seq![ns.first()], rest);
        assert(seq![ns.first()] =~= Seq::<Name>::empty().push(ns.first()));
    }
}

/// What a node counts is what it counts for itself and what its children count: one more child
/// adds its own counts, wherever it stands.
pub proof fn law_count_of_children(op: Op, kids: Seq<Tree>, more: Seq<Tree>, role: Role, n: Name)
    ensures
        count(Tree { op, kids: kids + more }, role, n) + count(
            Tree { op, kids: seq![] },
            role,
            n,
        ) == count(Tree { op, kids }, role, n) + count(Tree { op, kids: more }, role, n),
        kids.len() == 1 ==> count(Tree { op, kids }, role, n) == count(
            Tree { op, kids: seq![] },
            role,
            n,
        ) + count(kids[0], role, n),
{
    lemma_count_concat(kids, more, role, n);
    if kids.len() == 1 {
        assert(count_all(kids.drop_first(), role, n) == 0);
        assert(count_all(kids, role, n) == count(kids.first(), role, n));
    }
    assert(count_all(Seq::<Tree>::empty(), role, n) == 0);
}

proof fn lemma_count_concat(a: Seq<Tree>, b: Seq<Tree>, role: Role, n: Name)
    ensures
        count_all(a + b, role, n) == count_all(a, role, n) + count_all(b, role, n),
    decreases a.len(),
{
    if a.len() == 0 {
        assert(a + b =~= b);
    } else {
        lemma_count_concat(a.drop_first(), b, role, n);
        assert((a + b).drop_first() =~= a.drop_first() + b);
    }
}

/// A count that a machine word can hold is kept as it is, and one that it cannot hold as the
/// largest number.
pub proof fn law_capped(n: nat)
    ensures
        n <= usize::MAX ==> capped(n) == n,
        n > usize::MAX ==> capped(n) == usize::MAX,
{
}

} // verus!
