//! The abstract syntax tree shared by the parser and the IR generator.

use crate::text::str_eq;
use vstd::prelude::*;

verus! {

/// The type of a declaration. Only one numeric type exists.
#[derive(Debug, PartialEq, Eq, Clone, Copy, Structural)]
pub enum Ctype {
    Int,
}

/// The arithmetic operators of a binary expression.
#[derive(Debug, PartialEq, Eq, Clone, Copy, Structural)]
pub enum BinOp {
    Add,
    Sub,
    Mul,
    Div,
}

/// The shape of one syntax-tree node.
#[derive(Debug, PartialEq)]
pub enum NodeBase {
    /// An integer literal.
    Number(usize),
    /// A reference to a variable.
    Ident(String),
    /// A call of a named function with its argument expressions, in order.
    Call(String, Vec<Node>),
    /// A binary arithmetic expression.
    BinaryOp(BinOp, Box<Node>, Box<Node>),
    /// A return statement.
    Return(Box<Node>),
    /// A block of statements, in order.
    Statements(Vec<Box<Node>>),
    /// A function definition: return type, name, parameters and body.
    DefFun(Ctype, Box<Node>, Vec<(Ctype, Node)>, Box<Node>),
}

/// One node of the syntax tree.
#[derive(Debug, PartialEq)]
pub struct Node {
    pub base: NodeBase,
}

/// The mathematical tree that a [`Node`] stands for.
pub enum NodeView {
    Number(nat),
    Ident(Seq<char>),
    Call(Seq<char>, Seq<NodeView>),
    BinaryOp(BinOp, Box<NodeView>, Box<NodeView>),
    Return(Box<NodeView>),
    Statements(Seq<NodeView>),
    DefFun(Ctype, Box<NodeView>, Seq<(Ctype, NodeView)>, Box<NodeView>),
}

/// The tree that `node` stands for: strings and vectors become sequences.
pub open spec fn tree_of(node: Node) -> NodeView
    decreases node,
{
    match node.base {
        NodeBase::Number(n) => NodeView::Number(n as nat),
        NodeBase::Ident(s) => NodeView::Ident(s@),
        NodeBase::Call(s, args) => NodeView::Call(
            s@,
            Seq::new(
                args@.len(),
                |i: int|
                    if 0 <= i < args@.len() {
                        tree_of(args@[i])
                    } else {
                        NodeView::Number(0)
                    },
            ),
        ),
        NodeBase::BinaryOp(op, lhs, rhs) => NodeView::BinaryOp(
            op,
            Box::new(tree_of(*lhs)),
            Box::new(tree_of(*rhs)),
        ),
        NodeBase::Return(e) => NodeView::Return(Box::new(tree_of(*e))),
        NodeBase::Statements(stmts) => NodeView::Statements(
            Seq::new(
                stmts@.len(),
                |i: int|
                    if 0 <= i < stmts@.len() {
                        tree_of(*stmts@[i])
                    } else {
                        NodeView::Number(0)
                    },
            ),
        ),
        NodeBase::DefFun(typ, id, params, body) => NodeView::DefFun(
            typ,
            Box::new(tree_of(*id)),
            Seq::new(
                params@.len(),
                |i: int|
                    if 0 <= i < params@.len() {
                        (params@[i].0, tree_of(params@[i].1))
                    } else {
                        (Ctype::Int, NodeView::Number(0))
                    },
            ),
            Box::new(tree_of(*body)),
        ),
    }
}

impl View for Node {
    type V = NodeView;

    open spec fn view(&self) -> NodeView {
        tree_of(*self)
    }
}

/// The trees of a list of nodes.
pub open spec fn trees(nodes: Seq<Node>) -> Seq<NodeView> {
    Seq::new(nodes.len(), |i: int| nodes[i]@)
}

/// The trees of a list of boxed nodes.
pub open spec fn boxed_trees(nodes: Seq<Box<Node>>) -> Seq<NodeView> {
    Seq::new(nodes.len(), |i: int| (*nodes[i])@)
}

/// The types and trees of a list of parameters.
pub open spec fn param_trees(params: Seq<(Ctype, Node)>) -> Seq<(Ctype, NodeView)> {
    Seq::new(params.len(), |i: int| (params[i].0, params[i].1@))
}

impl Node {
    /// Wraps a node shape.
    pub fn new(base: NodeBase) -> (node: Node)
        ensures
            node.base == base,
    {
        Node { base: base }
    }

    /// The type that the keyword `s` names. Fails where `s` names none.
    pub fn ctype(s: &str) -> (r: Result<Ctype, ()>)
        ensures
            match r {
                Ok(typ) => s@ == "int"@ && typ == Ctype::Int,
                Err(e) => s@ != "int"@,
            },
    {
        if str_eq(s, "int") {
            Ok(Ctype::Int)
        } else {
            Err(())
        }
    }
}

} // verus!
