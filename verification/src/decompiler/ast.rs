//! The expressions that the decompiler refines, and their mathematical model.
//!
//! An [`Exp`] is a tree whose node kinds differ in how they hold their children. Its view is a
//! [`Tree`]: one operator with the plain data of the node, and the children in the order in
//! which they are traversed. Specifications speak of trees, so that they treat alike the node
//! kinds that behave alike.

use vstd::prelude::*;

verus! {

/// A name or another piece of text, as specifications see it.
pub type Name = Seq<char>;

/// A structured expression of the decompiler.
///
/// Functions, types, operators, literals and constants are carried as text and labels as
/// numbers: no refinement of bindings looks inside them.
#[derive(Debug, PartialEq, Eq)]
pub enum Exp {
    Break(Option<u64>),
    Continue(Option<u64>),
    Loop(Option<u64>, Box<Exp>),
    While(Option<u64>, Box<Exp>, Box<Exp>),
    Sequence(Vec<Exp>),
    IfElse(Box<Exp>, Box<Exp>, Box<Option<Exp>>),
    Switch(Box<Exp>, String, Vec<(String, Exp)>),
    Match(Box<Exp>, String, Vec<(String, Vec<(String, String)>, Exp)>),
    Return(Vec<Exp>),
    Assign(Vec<String>, Box<Exp>),
    LetBind(Vec<String>, Box<Exp>),
    Declare(Vec<String>),
    Call(String, Vec<Exp>),
    Abort(Box<Exp>),
    Primitive { op: String, args: Vec<Exp> },
    Data { op: String, args: Vec<Exp> },
    Borrow(bool, Box<Exp>),
    Value(String),
    Variable(String),
    Constant(String),
    Unpack(String, Vec<(String, String)>, Box<Exp>),
    UnpackVariant(String, String, Vec<(String, String)>, Box<Exp>),
    VecUnpack(Vec<String>, Box<Exp>),
    Unstructured(Vec<UnstructuredNode>),
}

/// A node of a control-flow graph that could not be structured.
#[derive(Debug, PartialEq, Eq)]
pub enum UnstructuredNode {
    Labeled(u64, Box<Exp>),
    Goto(u64),
    Statement(Box<Exp>),
}

/// What a node of a [`Tree`] is, without its children.
///
/// `Case` and `Arm` are the branches of a `Switch` and of a `Match`; `Labeled`, `Goto` and
/// `Statement` are the nodes of an `Unstructured`.
pub enum Op {
    Break(Option<u64>),
    Continue(Option<u64>),
    Loop(Option<u64>),
    While(Option<u64>),
    Sequence,
    IfElse,
    Switch(Name),
    Case(Name),
    Match(Name),
    Arm(Name, Seq<(Name, Name)>),
    Return,
    Assign(Seq<Name>),
    LetBind(Seq<Name>),
    Declare(Seq<Name>),
    Call(Name),
    Abort,
    Primitive(Name),
    Data(Name),
    Borrow(bool),
    Value(Name),
    Variable(Name),
    Constant(Name),
    Unpack(Name, Seq<(Name, Name)>),
    UnpackVariant(Name, Name, Seq<(Name, Name)>),
    VecUnpack(Seq<Name>),
    Unstructured,
    Labeled(u64),
    Goto(u64),
    Statement,
}

/// The model of an expression: an operator and its children in traversal order.
pub struct Tree {
    pub op: Op,
    pub kids: Seq<Tree>,
}

/// The names that a vector of strings holds.
pub open spec fn names(strings: Seq<String>) -> Seq<Name> {
    strings.map_values(|s: String| s@)
}

/// The fields of an unpacking pattern: a field and the name that it is bound to.
pub open spec fn field_names(fields: Seq<(String, String)>) -> Seq<(Name, Name)> {
    fields.map_values(|f: (String, String)| (f.0@, f.1@))
}

/// Lists of one, two and three children.
pub open spec fn one(a: Tree) -> Seq<Tree> {
    seq![a]
}

pub open spec fn two(a: Tree, b: Tree) -> Seq<Tree> {
    seq![a, b]
}

pub open spec fn three(a: Tree, b: Tree, c: Tree) -> Seq<Tree> {
    seq![a, b, c]
}

/// A node without children.
pub open spec fn leaf(op: Op) -> Tree {
    Tree { op, kids: Seq::empty() }
}

/// A node with one child.
pub open spec fn node1(op: Op, kid: Tree) -> Tree {
    Tree { op, kids: one(kid) }
}

impl Exp {
    /// The tree that this expression stands for.
    pub open spec fn tree(self) -> Tree
        decreases self,
    {
        match self {
            Exp::Break(label) => leaf(Op::Break(label)),
            Exp::Continue(label) => leaf(Op::Continue(label)),
            Exp::Loop(label, body) => node1(Op::Loop(label), body.tree()),
            Exp::While(label, cond, body) => Tree {
                op: Op::While(label),
                kids: two(cond.tree(), body.tree()),
            },
            Exp::Sequence(items) => Tree {
                op: Op::Sequence,
                kids: exp_trees(items@),
            },
            Exp::IfElse(cond, then_, else_) => Tree {
                op: Op::IfElse,
                kids: match *else_ {
                    Some(e) => three(cond.tree(), then_.tree(), e.tree()),
                    None => two(cond.tree(), then_.tree()),
                },
            },
            Exp::Switch(subject, ty, cases) => Tree {
                op: Op::Switch(ty@),
                kids: one(subject.tree()) + case_trees(cases@),
            },
            Exp::Match(subject, ty, arms) => Tree {
                op: Op::Match(ty@),
                kids: one(subject.tree()) + arm_trees(arms@),
            },
            Exp::Return(items) => Tree {
                op: Op::Return,
                kids: exp_trees(items@),
            },
            Exp::Assign(targets, rhs) => node1(Op::Assign(names(targets@)), rhs.tree()),
            Exp::LetBind(targets, rhs) => node1(Op::LetBind(names(targets@)), rhs.tree()),
            Exp::Declare(targets) => leaf(Op::Declare(names(targets@))),
            Exp::Call(function, items) => Tree {
                op: Op::Call(function@),
                kids: exp_trees(items@),
            },
            Exp::Abort(code) => node1(Op::Abort, code.tree()),
            Exp::Primitive { op, args } => Tree {
                op: Op::Primitive(op@),
                kids: exp_trees(args@),
            },
            Exp::Data { op, args } => Tree {
                op: Op::Data(op@),
                kids: exp_trees(args@),
            },
            Exp::Borrow(mutable, place) => node1(Op::Borrow(mutable), place.tree()),
            Exp::Value(literal) => leaf(Op::Value(literal@)),
            Exp::Variable(name) => leaf(Op::Variable(name@)),
            Exp::Constant(constant) => leaf(Op::Constant(constant@)),
            Exp::Unpack(ty, fields, source) => node1(
                Op::Unpack(ty@, field_names(fields@)),
                source.tree(),
            ),
            Exp::UnpackVariant(ty, variant, fields, source) => node1(
                Op::UnpackVariant(ty@, variant@, field_names(fields@)),
                source.tree(),
            ),
            Exp::VecUnpack(targets, source) => node1(
                Op::VecUnpack(names(targets@)),
                source.tree(),
            ),
            Exp::Unstructured(nodes) => Tree {
                op: Op::Unstructured,
                kids: node_trees(nodes@),
            },
        }
    }
}

impl UnstructuredNode {
    /// The tree that this node of a control-flow graph stands for.
    pub open spec fn tree(self) -> Tree
        decreases self,
    {
        match self {
            UnstructuredNode::Labeled(label, body) => node1(Op::Labeled(label), body.tree()),
            UnstructuredNode::Goto(label) => leaf(Op::Goto(label)),
            UnstructuredNode::Statement(body) => node1(Op::Statement, body.tree()),
        }
    }
}

/// The trees of a list of expressions.
pub open spec fn exp_trees(items: Seq<Exp>) -> Seq<Tree>
    decreases items,
{
    Seq::new(
        items.len(),
        |i: int|
            if 0 <= i < items.len() {
                items[i].tree()
            } else {
                arbitrary()
            },
    )
}

/// The trees of the cases of a `Switch`.
pub open spec fn case_trees(cases: Seq<(String, Exp)>) -> Seq<Tree>
    decreases cases,
{
    Seq::new(
        cases.len(),
        |i: int|
            if 0 <= i < cases.len() {
                node1(Op::Case(cases[i].0@), cases[i].1.tree())
            } else {
                arbitrary()
            },
    )
}

/// The trees of the arms of a `Match`.
pub open spec fn arm_trees(arms: Seq<(String, Vec<(String, String)>, Exp)>) -> Seq<Tree>
    decreases arms,
{
    Seq::new(
        arms.len(),
        |i: int|
            if 0 <= i < arms.len() {
                node1(Op::Arm(arms[i].0@, field_names(arms[i].1@)), arms[i].2.tree())
            } else {
                arbitrary()
            },
    )
}

/// The trees of the nodes of an `Unstructured`.
pub open spec fn node_trees(nodes: Seq<UnstructuredNode>) -> Seq<Tree>
    decreases nodes,
{
    Seq::new(
        nodes.len(),
        |i: int|
            if 0 <= i < nodes.len() {
                nodes[i].tree()
            } else {
                arbitrary()
            },
    )
}

impl View for Exp {
    type V = Tree;

    open spec fn view(&self) -> Tree {
        self.tree()
    }
}

impl View for UnstructuredNode {
    type V = Tree;

    open spec fn view(&self) -> Tree {
        self.tree()
    }
}

} // verus!
