//! The binary expression tree and its evaluation.

use vstd::prelude::*;
use crate::error::ArithmeticError;
use crate::op::Op;

verus! {

/// What a node of the tree holds.
#[derive(Clone, Copy, Debug, PartialEq, Eq, Structural)]
pub enum Item {
    /// An integer: the node is a leaf.
    Number(i32),
    /// An operator: the node has two children.
    Operator(Op),
}

/// A node of an expression tree together with the subtrees below it.
#[derive(Debug, PartialEq, Eq)]
pub struct BinaryExpressionTree {
    pub root: Item,
    pub left: Option<Box<BinaryExpressionTree>>,
    pub right: Option<Box<BinaryExpressionTree>>,
}

impl BinaryExpressionTree {
    /// The tree is fully formed: a number has no children, an operator has
    /// two, and both of them are fully formed.
    pub open spec fn wf(&self) -> bool
        decreases self,
    {
        match self.root {
            Item::Number(_) => self.left is None && self.right is None,
            Item::Operator(_) => match (self.left, self.right) {
                (Some(l), Some(r)) => l.wf() && r.wf(),
                _ => false,
            },
        }
    }

    /// The number of nodes that hold a number.
    pub open spec fn leaves(&self) -> nat
        decreases self,
    {
        match (self.root, self.left, self.right) {
            (Item::Operator(_), Some(l), Some(r)) => l.leaves() + r.leaves(),
            _ => 1,
        }
    }

    /// The number of nodes that hold an operator.
    pub open spec fn nodes(&self) -> nat
        decreases self,
    {
        match (self.root, self.left, self.right) {
            (Item::Operator(_), Some(l), Some(r)) => 1 + l.nodes() + r.nodes(),
            _ => 0,
        }
    }

    /// The value of a fully formed tree: a leaf stands for its number, and an
    /// operator is applied to the value of its left and of its right subtree.
    /// The first failure met in that order is the failure of the whole.
    pub open spec fn value(&self) -> Result<i32, ArithmeticError>
        decreases self,
    {
        match (self.root, self.left, self.right) {
            (Item::Number(c), _, _) => Ok(c),
            (Item::Operator(op), Some(l), Some(r)) => match l.value() {
                Ok(a) => match r.value() {
                    Ok(b) => op.outcome(a, b),
                    Err(e) => Err(e),
                },
                Err(e) => Err(e),
            },
            _ => Ok(0),
        }
    }

    /// The leaf that holds `v`.
    pub open spec fn leaf(v: i32) -> Self {
        BinaryExpressionTree { root: Item::Number(v), left: None, right: None }
    }

    /// The tree that applies `op` to `l` and `r`.
    pub open spec fn node(op: Op, l: Self, r: Self) -> Self {
        BinaryExpressionTree {
            root: Item::Operator(op),
            left: Some(Box::new(l)),
            right: Some(Box::new(r)),
        }
    }

    /// A node without children.
    pub fn new(val: Item) -> (tree: Self)
        ensures
            tree.root == val,
            tree.left is None,
            tree.right is None,
            tree.wf() <==> val is Number,
            val matches Item::Number(v) ==> tree == Self::leaf(v),
    {
        Self { root: val, left: None, right: None }
    }

    /// A node with the children `l` and `r`.
    pub fn from(val: Item, l: Self, r: Self) -> (tree: Self)
        ensures
            tree.root == val,
            tree.left == Some(Box::new(l)),
            tree.right == Some(Box::new(r)),
            tree.wf() <==> val is Operator && l.wf() && r.wf(),
            val matches Item::Operator(op) ==> tree == Self::node(op, l, r),
    {
        Self { root: val, left: Some(Box::new(l)), right: Some(Box::new(r)) }
    }

    /// Computes the value of the tree.
    pub fn evaluate(&self) -> (result: Result<i32, ArithmeticError>)
        requires
            self.wf(),
        ensures
            result == self.value(),
        decreases self,
    {
        match &self.root {
            Item::Number(c) => Ok(*c),
            Item::Operator(op) => match (&self.left, &self.right) {
                (Some(l), Some(r)) => {
                    let a = l.evaluate()?;
                    let b = r.evaluate()?;
                    op.apply(a, b)
                },
                _ => Ok(0),
            },
        }
    }
}

} // verus!
