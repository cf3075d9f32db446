//! How often an expression mentions each name, and in which role.

use vstd::prelude::*;

use super::ast::{
    arm_trees, case_trees, exp_trees, field_names, names, node_trees, one, two, Exp, Name, Op,
    Tree, UnstructuredNode,
};
use super::name_map::NameMap;

verus! {

/// What a mention of a name does with it.
pub enum Role {
    /// The name is read as a variable.
    Read,
    /// The name is a target of an assignment.
    Assign,
    /// The name is introduced by a `let` with a right-hand side.
    LetBind,
    /// The name is declared without a value.
    Declare,
    /// The name is introduced by a pattern that unpacks a value.
    Unpack,
}

/// How often `n` stands in `ns`.
pub open spec fn occurrences(ns: Seq<Name>, n: Name) -> nat
    decreases ns.len(),
{
    if ns.len() == 0 {
        0
    } else {
        (if ns.first() == n {
            1nat
        } else {
            0nat
        }) + occurrences(ns.drop_first(), n)
    }
}

/// The names that an unpacking pattern introduces.
pub open spec fn bound_names(fields: Seq<(Name, Name)>) -> Seq<Name> {
    fields.map_values(|f: (Name, Name)| f.1)
}

/// The names that a node itself mentions in a role, its children aside.
pub open spec fn own_names(op: Op, role: Role) -> Seq<Name> {
    match role {
        Role::Read => match op {
            Op::Variable(n) => seq![n],
            _ => seq![],
        },
        Role::Assign => match op {
            Op::Assign(targets) => targets,
            _ => seq![],
        },
        Role::LetBind => match op {
            Op::LetBind(targets) => targets,
            _ => seq![],
        },
        Role::Declare => match op {
            Op::Declare(targets) => targets,
            _ => seq![],
        },
        Role::Unpack => match op {
            Op::VecUnpack(targets) => targets,
            Op::Unpack(_, fields) => bound_names(fields),
            Op::UnpackVariant(_, _, fields) => bound_names(fields),
            Op::Arm(_, fields) => bound_names(fields),
            _ => seq![],
        },
    }
}

/// How often a tree mentions `n` in a role.
pub open spec fn count(t: Tree, role: Role, n: Name) -> nat
    decreases t,
{
    occurrences(own_names(t.op, role), n) + count_all(t.kids, role, n)
}

/// How often the trees of a list mention `n` in a role, taken together.
pub open spec fn count_all(ts: Seq<Tree>, role: Role, n: Name) -> nat
    decreases ts,
{
    if ts.len() == 0 {
        0
    } else {
        count(ts.first(), role, n) + count_all(ts.drop_first(), role, n)
    }
}

/// A count as a machine word holds it: what is above the largest number is that number.
pub open spec fn capped(n: nat) -> nat {
    if n <= usize::MAX {
        n
    } else {
        usize::MAX as nat
    }
}

/// The counts of a list are those of its first tree and of the rest.
pub proof fn lemma_count_cons(t: Tree, ts: Seq<Tree>)
    ensures
        forall|role: Role, n: Name| #[trigger]
            count_all(one(t) + ts, role, n) == count(t, role, n) + count_all(ts, role, n),
{
    assert((one(t) + ts).drop_first() =~= ts);
}

/// What a map of counts holds for `n`: 0 where it has no entry.
pub open spec fn tally(counts: Map<Name, usize>, n: Name) -> nat {
    if counts.contains_key(n) {
        counts[n] as nat
    } else {
        0
    }
}

/// The number of mentions of each name, by role.
pub struct NameCounts {
    reads: NameMap<usize>,
    assigns: NameMap<usize>,
    letbinds: NameMap<usize>,
    declares: NameMap<usize>,
    unpacks: NameMap<usize>,
}

impl NameCounts {
    pub closed spec fn wf(self) -> bool {
        &&& self.reads.wf()
        &&& self.assigns.wf()
        &&& self.letbinds.wf()
        &&& self.declares.wf()
        &&& self.unpacks.wf()
    }

    /// The mentions of `n` in a role that have been counted.
    pub closed spec fn counted(self, role: Role, n: Name) -> nat {
        match role {
            Role::Read => tally(self.reads@, n),
            Role::Assign => tally(self.assigns@, n),
            Role::LetBind => tally(self.letbinds@, n),
            Role::Declare => tally(self.declares@, n),
            Role::Unpack => tally(self.unpacks@, n),
        }
    }

    /// These are the counts of exactly the mentions in `t`.
    pub open spec fn counts(self, t: Tree) -> bool {
        &&& self.wf()
        &&& forall|role: Role, n: Name| #[trigger]
            self.counted(role, n) == capped(count(t, role, n))
    }

    /// These are the counts of `before`, and on top of them those of the mentions in `t`.
    pub open spec fn holds_more(self, before: Self, t: Tree) -> bool {
        &&& self.wf()
        &&& forall|role: Role, n: Name| #[trigger]
            self.counted(role, n) == capped(before.counted(role, n) + count(t, role, n))
    }

    /// Counts every mention in `exp`.
    pub fn collect(exp: &Exp) -> (res: Self)
        ensures
            res.counts(exp@),
            forall|role: Role, n: Name| #[trigger]
                res.counted(role, n) == if count(exp@, role, n) <= usize::MAX {
                    count(exp@, role, n)
                } else {
                    usize::MAX as nat
                },
    {
        let mut nc = NameCounts {
            reads: NameMap::new(),
            assigns: NameMap::new(),
            letbinds: NameMap::new(),
            declares: NameMap::new(),
            unpacks: NameMap::new(),
        };
        proof {
            assert forall|role: Role, n: Name| #[trigger] nc.counted(role, n) == 0 by {}
        }
        nc.visit(exp);
        nc
    }

    /// Adds one to the count of `n`, unless it is the largest number already.
    pub fn bump(map: &mut NameMap<usize>, n: &str)
        requires
            old(map).wf(),
        ensures
            final(map).wf(),
            final(map)@ == old(map)@.insert(n@, capped(tally(old(map)@, n@) + 1) as usize),
            !old(map)@.contains_key(n@) ==> final(map)@[n@] == 1,
            old(map)@.contains_key(n@) && old(map)@[n@] < usize::MAX ==> final(map)@[n@]
                == old(map)@[n@] + 1,
            old(map)@.contains_key(n@) && old(map)@[n@] == usize::MAX ==> final(map)@[n@]
                == usize::MAX,
            forall|m: Name|
                m != n@ ==> (#[trigger] final(map)@.contains_key(m) <==> old(map)@.contains_key(m))
                    && final(map)@[m] == old(map)@[m],
    {
        let count: usize = match map.get(n) {
            Some(c) => *c,
            None => 0,
        };
        map.insert(n.to_owned(), count.saturating_add(1));
    }

    fn bump_names(map: &mut NameMap<usize>, targets: &Vec<String>)
        requires
            old(map).wf(),
        ensures
            final(map).wf(),
            forall|n: Name| #[trigger]
                tally(final(map)@, n) == capped(
                    tally(old(map)@, n) + occurrences(names(targets@), n),
                ),
    {
        let ghost ns = names(targets@);
        let mut i: usize = 0;
        assert(ns.skip(0) =~= ns);
        while i < targets.len()
            invariant
                i <= targets@.len(),
                ns == names(targets@),
                map.wf(),
                forall|n: Name|
                    #![trigger tally(map@, n)]
                    capped(tally(map@, n) + occurrences(ns.skip(i as int), n)) == capped(
                        tally(old(map)@, n) + occurrences(ns, n),
                    ),
            decreases targets.len() - i,
        {
            assert(ns.skip(i as int).drop_first() =~= ns.skip(i + 1));
            assert(ns.skip(i as int).first() == targets@[i as int]@);
            let ghost before = map@;
            Self::bump(map, targets[i].as_str());
            assert forall|n: Name|
                #![trigger tally(map@, n)]
                capped(tally(map@, n) + occurrences(ns.skip(i + 1), n)) == capped(
                    tally(old(map)@, n) + occurrences(ns, n),
                ) by {
                assert(capped(tally(before, n) + occurrences(ns.skip(i as int), n)) == capped(
                    tally(old(map)@, n) + occurrences(ns, n),
                ));
            }
            i += 1;
        }
        assert(ns.skip(i as int) =~= Seq::<Name>::empty());
    }

    fn bump_fields(map: &mut NameMap<usize>, fields: &Vec<(String, String)>)
        requires
            old(map).wf(),
        ensures
            final(map).wf(),
            forall|n: Name| #[trigger]
                tally(final(map)@, n) == capped(
                    tally(old(map)@, n) + occurrences(bound_names(field_names(fields@)), n),
                ),
    {
        let ghost ns = bound_names(field_names(fields@));
        let mut i: usize = 0;
        assert(ns.skip(0) =~= ns);
        while i < fields.len()
            invariant
                i <= fields@.len(),
                ns == bound_names(field_names(fields@)),
                map.wf(),
                forall|n: Name|
                    #![trigger tally(map@, n)]
                    capped(tally(map@, n) + occurrences(ns.skip(i as int), n)) == capped(
                        tally(old(map)@, n) + occurrences(ns, n),
                    ),
            decreases fields.len() - i,
        {
            assert(ns.skip(i as int).drop_first() =~= ns.skip(i + 1));
            assert(ns.skip(i as int).first() == fields@[i as int].1@);
            let ghost before = map@;
            Self::bump(map, fields[i].1.as_str());
            assert forall|n: Name|
                #![trigger tally(map@, n)]
                capped(tally(map@, n) + occurrences(ns.skip(i + 1), n)) == capped(
                    tally(old(map)@, n) + occurrences(ns, n),
                ) by {
                assert(capped(tally(before, n) + occurrences(ns.skip(i as int), n)) == capped(
                    tally(old(map)@, n) + occurrences(ns, n),
                ));
            }
            i += 1;
        }
        assert(ns.skip(i as int) =~= Seq::<Name>::empty());
    }

    #[verifier::opaque]
    spec fn added_all(self, before: Self, ts: Seq<Tree>) -> bool {
        &&& self.wf()
        &&& forall|role: Role, n: Name| #[trigger]
            self.counted(role, n) == capped(before.counted(role, n) + count_all(ts, role, n))
    }

    #[verifier::opaque]
    spec fn added_own(self, before: Self, op: Op) -> bool {
        &&& self.wf()
        &&& forall|role: Role, n: Name| #[trigger]
            self.counted(role, n) == capped(
                before.counted(role, n) + occurrences(own_names(op, role), n),
            )
    }

    /// Counts the mentions in `exp` on top of what has been counted.
    pub fn visit(&mut self, exp: &Exp)
        requires
            old(self).wf(),
        ensures
            final(self).holds_more(*old(self), exp@),
            forall|role: Role, n: Name| #[trigger]
                final(self).counted(role, n) == if old(self).counted(role, n) + count(
                    exp@,
                    role,
                    n,
                ) <= usize::MAX {
                    old(self).counted(role, n) + count(exp@, role, n)
                } else {
                    usize::MAX as nat
                },
        decreases exp, 1int,
    {
        self.visit_own(exp);
        proof {
            lemma_added_node(*old(self), *self, exp@);
        }
        self.visit_kids(exp);
    }

    /// Counts the names that the root of `exp` itself mentions.
    fn visit_own(&mut self, exp: &Exp)
        requires
            old(self).wf(),
        ensures
            final(self).added_own(*old(self), exp@.op),
    {
        reveal(NameCounts::added_own);
        match exp {
            Exp::Variable(n) => {
                proof {
                    lemma_occurrences_one(n@);
                }
                Self::bump(&mut self.reads, n.as_str());
            },
            Exp::Assign(targets, _) => {
                assert(own_names(exp@.op, Role::Assign) == names(targets@));
                Self::bump_names(&mut self.assigns, targets);
            },
            Exp::LetBind(targets, _) => {
                assert(own_names(exp@.op, Role::LetBind) == names(targets@));
                Self::bump_names(&mut self.letbinds, targets);
            },
            Exp::Declare(targets) => {
                assert(own_names(exp@.op, Role::Declare) == names(targets@));
                Self::bump_names(&mut self.declares, targets);
            },
            Exp::VecUnpack(targets, _) => {
                assert(own_names(exp@.op, Role::Unpack) == names(targets@));
                Self::bump_names(&mut self.unpacks, targets);
            },
            Exp::Unpack(_, fields, _) | Exp::UnpackVariant(_, _, fields, _) => {
                assert(own_names(exp@.op, Role::Unpack) == bound_names(field_names(fields@)));
                Self::bump_fields(&mut self.unpacks, fields);
            },
            _ => {},
        }
    }

    /// Counts the mentions in the children of `exp`.
    fn visit_kids(&mut self, exp: &Exp)
        requires
            old(self).wf(),
        ensures
            final(self).added_all(*old(self), exp@.kids),
        decreases exp, 0int,
    {
        match exp {
            Exp::Assign(_, e)
            | Exp::LetBind(_, e)
            | Exp::VecUnpack(_, e)
            | Exp::Unpack(_, _, e)
            | Exp::UnpackVariant(_, _, _, e)
            | Exp::Loop(_, e)
            | Exp::Abort(e)
            | Exp::Borrow(_, e) => {
                self.visit_one(e);
            },
            Exp::While(_, cond, body) => {
                proof {
                    assert(exp@.kids =~= one(cond@) + one(body@));
                }
                self.visit(cond);
                proof {
                    lemma_added_cons(*old(self), *self, cond@, one(body@));
                }
                self.visit_one(body);
            },
            Exp::IfElse(cond, then_, else_) => {
                let ghost rest = exp@.kids.skip(1);
                let ghost tail = exp@.kids.skip(2);
                proof {
                    assert(exp@.kids =~= one(cond@) + rest);
                    assert(rest =~= one(then_@) + tail);
                }
                self.visit(cond);
                proof {
                    lemma_added_cons(*old(self), *self, cond@, rest);
                }
                let ghost before = *self;
                self.visit(then_);
                proof {
                    lemma_added_cons(before, *self, then_@, tail);
                }
                match &**else_ {
                    Some(e) => {
                        assert(tail =~= one(e@));
                        self.visit_one(e);
                    },
                    None => {
                        proof {
                            assert(tail =~= Seq::<Tree>::empty());
                            lemma_added_nothing(*self);
                        }
                    },
                }
            },
            Exp::Match(subject, _, arms) => {
                self.visit(subject);
                proof {
                    lemma_added_cons(*old(self), *self, subject@, arm_trees(arms@));
                }
                self.visit_arms(arms);
            },
            Exp::Switch(subject, _, cases) => {
                self.visit(subject);
                proof {
                    lemma_added_cons(*old(self), *self, subject@, case_trees(cases@));
                }
                self.visit_cases(cases);
            },
            Exp::Sequence(items) | Exp::Return(items) | Exp::Call(_, items) => {
                self.visit_all(items);
            },
            Exp::Primitive { op: _, args } | Exp::Data { op: _, args } => {
                self.visit_all(args);
            },
            Exp::Variable(_)
            | Exp::Declare(_)
            | Exp::Break(_)
            | Exp::Continue(_)
            | Exp::Value(_)
            | Exp::Constant(_) => {
                proof {
                    lemma_loop_start(exp@.kids);
                    lemma_added_nothing(*self);
                }
            },
            Exp::Unstructured(nodes) => {
                self.visit_nodes(nodes);
            },
        }
    }

    /// Counts the mentions in an only child.
    fn visit_one(&mut self, exp: &Exp)
        requires
            old(self).wf(),
        ensures
            final(self).added_all(*old(self), one(exp@)),
        decreases exp, 2int,
    {
        proof {
            assert(one(exp@) =~= one(exp@) + Seq::<Tree>::empty());
        }
        self.visit(exp);
        proof {
            lemma_added_cons(*old(self), *self, exp@, Seq::empty());
            lemma_added_nothing(*self);
        }
    }

    fn visit_all(&mut self, items: &Vec<Exp>)
        requires
            old(self).wf(),
        ensures
            final(self).added_all(*old(self), exp_trees(items@)),
        decreases items, 0int,
    {
        let ghost ts = exp_trees(items@);
        let mut i: usize = 0;
        proof {
            lemma_loop_start(ts);
        }
        while i < items.len()
            invariant
                i <= items@.len(),
                ts == exp_trees(items@),
                self.wf(),
                forall|later: Self| #[trigger]
                    later.added_all(*self, ts.skip(i as int)) ==> later.added_all(*old(self), ts),
            decreases items.len() - i,
        {
            let ghost before = *self;
            proof {
                assert(ts.skip(i as int) =~= one(ts[i as int]) + ts.skip(i + 1));
            }
            self.visit(&items[i]);
            proof {
                lemma_added_cons(before, *self, ts[i as int], ts.skip(i + 1));
            }
            i += 1;
        }
        proof {
            assert(ts.skip(i as int) =~= Seq::<Tree>::empty());
            lemma_added_nothing(*self);
        }
    }

    fn visit_cases(&mut self, items: &Vec<(String, Exp)>)
        requires
            old(self).wf(),
        ensures
            final(self).added_all(*old(self), case_trees(items@)),
        decreases items, 0int,
    {
        let ghost ts = case_trees(items@);
        let mut i: usize = 0;
        proof {
            lemma_loop_start(ts);
        }
        while i < items.len()
            invariant
                i <= items@.len(),
                ts == case_trees(items@),
                self.wf(),
                forall|later: Self| #[trigger]
                    later.added_all(*self, ts.skip(i as int)) ==> later.added_all(*old(self), ts),
            decreases items.len() - i,
        {
            let ghost before = *self;
            proof {
                assert(ts.skip(i as int) =~= one(ts[i as int]) + ts.skip(i + 1));
                lemma_added_no_names(before, ts[i as int]);
            }
            assert(ts[i as int].kids =~= one(items@[i as int].1@));
            self.visit_one(&items[i].1);
            proof {
                lemma_added_cons(before, *self, ts[i as int], ts.skip(i + 1));
            }
            i += 1;
        }
        proof {
            assert(ts.skip(i as int) =~= Seq::<Tree>::empty());
            lemma_added_nothing(*self);
        }
    }

    fn visit_arms(&mut self, items: &Vec<(String, Vec<(String, String)>, Exp)>)
        requires
            old(self).wf(),
        ensures
            final(self).added_all(*old(self), arm_trees(items@)),
        decreases items, 0int,
    {
        let ghost ts = arm_trees(items@);
        let mut i: usize = 0;
        proof {
            lemma_loop_start(ts);
        }
        while i < items.len()
            invariant
                i <= items@.len(),
                ts == arm_trees(items@),
                self.wf(),
                forall|later: Self| #[trigger]
                    later.added_all(*self, ts.skip(i as int)) ==> later.added_all(*old(self), ts),
            decreases items.len() - i,
        {
            let ghost before = *self;
            proof {
                assert(ts.skip(i as int) =~= one(ts[i as int]) + ts.skip(i + 1));
            }
            self.visit_pattern(&items[i].1, Ghost(ts[i as int].op));
            proof {
                lemma_added_node(before, *self, ts[i as int]);
            }
            assert(ts[i as int].kids =~= one(items@[i as int].2@));
            self.visit_one(&items[i].2);
            proof {
                lemma_added_cons(before, *self, ts[i as int], ts.skip(i + 1));
            }
            i += 1;
        }
        proof {
            assert(ts.skip(i as int) =~= Seq::<Tree>::empty());
            lemma_added_nothing(*self);
        }
    }

    fn visit_nodes(&mut self, items: &Vec<UnstructuredNode>)
        requires
            old(self).wf(),
        ensures
            final(self).added_all(*old(self), node_trees(items@)),
        decreases items, 0int,
    {
        let ghost ts = node_trees(items@);
        let mut i: usize = 0;
        proof {
            lemma_loop_start(ts);
        }
        while i < items.len()
            invariant
                i <= items@.len(),
                ts == node_trees(items@),
                self.wf(),
                forall|later: Self| #[trigger]
                    later.added_all(*self, ts.skip(i as int)) ==> later.added_all(*old(self), ts),
            decreases items.len() - i,
        {
            let ghost before = *self;
            proof {
                assert(ts.skip(i as int) =~= one(ts[i as int]) + ts.skip(i + 1));
                lemma_added_no_names(before, ts[i as int]);
            }
            match &items[i] {
                UnstructuredNode::Labeled(_, body) | UnstructuredNode::Statement(body) => {
                    assert(ts[i as int].kids =~= one(body@));
                    self.visit_one(body);
                },
                UnstructuredNode::Goto(_) => {
                    proof {
                        assert(ts[i as int].kids =~= Seq::<Tree>::empty());
                        lemma_added_nothing(before);
                    }
                },
            }
            proof {
                lemma_added_cons(before, *self, ts[i as int], ts.skip(i + 1));
            }
            i += 1;
        }
        proof {
            assert(ts.skip(i as int) =~= Seq::<Tree>::empty());
            lemma_added_nothing(*self);
        }
    }

    /// Counts the names that the pattern of an arm introduces.
    fn visit_pattern(&mut self, fields: &Vec<(String, String)>, op: Ghost<Op>)
        requires
            old(self).wf(),
            op@ matches Op::Arm(_, arm_fields) && arm_fields == field_names(fields@),
        ensures
            final(self).added_own(*old(self), op@),
    {
        reveal(NameCounts::added_own);
        assert(own_names(op@, Role::Unpack) == bound_names(field_names(fields@)));
        Self::bump_fields(&mut self.unpacks, fields);
    }

    pub fn reads(&self, n: &str) -> (res: usize)
        requires
            self.wf(),
        ensures
            res == self.counted(Role::Read, n@),
    {
        match self.reads.get(n) {
            Some(c) => *c,
            None => 0,
        }
    }

    pub fn assigns(&self, n: &str) -> (res: usize)
        requires
            self.wf(),
        ensures
            res == self.counted(Role::Assign, n@),
    {
        match self.assigns.get(n) {
            Some(c) => *c,
            None => 0,
        }
    }

    pub fn letbinds(&self, n: &str) -> (res: usize)
        requires
            self.wf(),
        ensures
            res == self.counted(Role::LetBind, n@),
    {
        match self.letbinds.get(n) {
            Some(c) => *c,
            None => 0,
        }
    }

    pub fn declares(&self, n: &str) -> (res: usize)
        requires
            self.wf(),
        ensures
            res == self.counted(Role::Declare, n@),
    {
        match self.declares.get(n) {
            Some(c) => *c,
            None => 0,
        }
    }

    pub fn unpacks(&self, n: &str) -> (res: usize)
        requires
            self.wf(),
        ensures
            res == self.counted(Role::Unpack, n@),
    {
        match self.unpacks.get(n) {
            Some(c) => *c,
            None => 0,
        }
    }
}

proof fn lemma_occurrences_one(n: Name)
    ensures
        forall|m: Name| #[trigger]
            occurrences(seq![n], m) == (if m == n {
                1nat
            } else {
                0nat
            }),
{
    reveal_with_fuel(occurrences, 2);
    assert(seq![n].drop_first() =~= Seq::<Name>::empty());
}

/// Once the names of the root are counted, what is left of a tree is its children.
proof fn lemma_added_node(c0: NameCounts, c1: NameCounts, t: Tree)
    requires
        c0.wf(),
        c1.added_own(c0, t.op),
    ensures
        c1.wf(),
        forall|c2: NameCounts| #[trigger] c2.added_all(c1, t.kids) ==> c2.holds_more(c0, t),
{
    reveal(NameCounts::added_all);
    reveal(NameCounts::added_own);
    assert forall|c2: NameCounts| #[trigger] c2.added_all(c1, t.kids) implies c2.holds_more(c0, t) by {
        assert forall|role: Role, n: Name| #[trigger]
            c2.counted(role, n) == capped(c0.counted(role, n) + count(t, role, n)) by {
            assert(c1.counted(role, n) == capped(
                c0.counted(role, n) + occurrences(own_names(t.op, role), n),
            ));
        }
    }
}

/// Nothing is counted for the root of a tree that mentions no name itself.
proof fn lemma_added_no_names(c: NameCounts, t: Tree)
    requires
        c.wf(),
        forall|role: Role| #[trigger] own_names(t.op, role).len() == 0,
    ensures
        forall|c2: NameCounts| #[trigger] c2.added_all(c, t.kids) ==> c2.holds_more(c, t),
{
    assert(c.added_own(c, t.op)) by {
        reveal(NameCounts::added_own);
        assert forall|role: Role, n: Name| #[trigger]
            c.counted(role, n) == capped(
                c.counted(role, n) + occurrences(own_names(t.op, role), n),
            ) by {
            assert(own_names(t.op, role).len() == 0);
        }
    }
    lemma_added_node(c, c, t);
}

/// Once the first tree of a list is counted, what is left are the others.
proof fn lemma_added_cons(c0: NameCounts, c1: NameCounts, t: Tree, ts: Seq<Tree>)
    requires
        c0.wf(),
        c1.holds_more(c0, t),
    ensures
        c1.wf(),
        forall|c2: NameCounts| #[trigger]
            c2.added_all(c1, ts) ==> c2.added_all(c0, one(t) + ts),
{
    reveal(NameCounts::added_all);
    lemma_count_cons(t, ts);
    assert forall|c2: NameCounts| #[trigger] c2.added_all(c1, ts) implies c2.added_all(
        c0,
        one(t) + ts,
    ) by {
        assert forall|role: Role, n: Name| #[trigger]
            c2.counted(role, n) == capped(
                c0.counted(role, n) + count_all(one(t) + ts, role, n),
            ) by {
            assert(c1.counted(role, n) == capped(c0.counted(role, n) + count(t, role, n)));
        }
    }
}

proof fn lemma_added_nothing(c: NameCounts)
    requires
        c.wf(),
    ensures
        c.added_all(c, Seq::empty()),
{
    reveal(NameCounts::added_all);
}

proof fn lemma_loop_start(ts: Seq<Tree>)
    ensures
        ts.skip(0) == ts,
        ts.len() == 0 ==> ts == Seq::<Tree>::empty(),
{
    assert(ts.skip(0) =~= ts);
    if ts.len() == 0 {
        assert(ts =~= Seq::<Tree>::empty());
    }
}

/// A sequence of two expressions.
pub open spec fn in_sequence(first: Tree, second: Tree) -> Tree {
    Tree { op: Op::Sequence, kids: two(first, second) }
}

/// A visit adds, for each name and role, what collecting from the expression alone counts.
pub proof fn law_visit_adds_the_counts(
    before: NameCounts,
    after: NameCounts,
    alone: NameCounts,
    exp: Exp,
)
    requires
        after.holds_more(before, exp@),
        alone.counts(exp@),
    ensures
        forall|role: Role, n: Name| #[trigger]
            after.counted(role, n) == capped(before.counted(role, n) + alone.counted(role, n)),
{
    assert forall|role: Role, n: Name| #[trigger]
        after.counted(role, n) == capped(before.counted(role, n) + alone.counted(role, n)) by {
        assert(alone.counted(role, n) == capped(count(exp@, role, n)));
    }
}

/// Two visits count what one visit of the two expressions in a sequence counts, in either
/// order.
pub proof fn law_visits_count_a_sequence(
    before: NameCounts,
    middle: NameCounts,
    after: NameCounts,
    first: Exp,
    second: Exp,
)
    requires
        middle.holds_more(before, first@),
        after.holds_more(middle, second@),
    ensures
        after.holds_more(before, in_sequence(first@, second@)),
        after.holds_more(before, in_sequence(second@, first@)),
{
    lemma_count_pair(first@, second@);
    lemma_count_pair(second@, first@);
    assert forall|role: Role, n: Name| #[trigger]
        after.counted(role, n) == capped(
            before.counted(role, n) + count(in_sequence(first@, second@), role, n),
        ) by {
        assert(middle.counted(role, n) == capped(
            before.counted(role, n) + count(first@, role, n),
        ));
    }
    assert forall|role: Role, n: Name| #[trigger]
        after.counted(role, n) == capped(
            before.counted(role, n) + count(in_sequence(second@, first@), role, n),
        ) by {
        assert(middle.counted(role, n) == capped(
            before.counted(role, n) + count(first@, role, n),
        ));
    }
}

proof fn lemma_count_pair(a: Tree, b: Tree)
    ensures
        forall|role: Role, n: Name| #[trigger]
            count(in_sequence(a, b), role, n) == count(a, role, n) + count(b, role, n),
{
    lemma_count_cons(a, one(b));
    lemma_count_cons(b, Seq::empty());
    assert(two(a, b) =~= one(a) + one(b));
    assert(one(b) =~= one(b) + Seq::<Tree>::empty());
    assert forall|role: Role, n: Name| #[trigger]
        count(in_sequence(a, b), role, n) == count(a, role, n) + count(b, role, n) by {
        assert(own_names(Op::Sequence, role).len() == 0);
        assert(count_all(one(a) + one(b), role, n) == count(a, role, n) + count_all(
            one(b),
            role,
            n,
        ));
        assert(count_all(one(b) + Seq::<Tree>::empty(), role, n) == count(b, role, n)
            + count_all(Seq::<Tree>::empty(), role, n));
    }
}

} // verus!
