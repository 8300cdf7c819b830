//! The builder reads infix notation by the usual rules: a tree written out
//! with the parentheses that precedence and left association ask for is read
//! back as the same tree.

use vstd::prelude::*;
use crate::builder::{build, Pending, Stacks, Stop};
use crate::error::StructuralError;
use crate::grouping::{close_token, lemma_run_concat, open_token};
use crate::op::Op;
use crate::token::Token;
use crate::tree::{BinaryExpressionTree, Item};

verus! {

/// Whether `child` is written in parentheses as the left operand of `op`:
/// it is where its own operator binds less tightly than `op`.
pub open spec fn left_needs_parentheses(op: Op, child: BinaryExpressionTree) -> bool {
    match child.root {
        Item::Operator(inner) => inner.level() < op.level(),
        Item::Number(_) => false,
    }
}

/// Whether `child` is written in parentheses as the right operand of `op`:
/// it is where its own operator binds no tighter than `op`, since operators
/// of one level associate to the left.
pub open spec fn right_needs_parentheses(op: Op, child: BinaryExpressionTree) -> bool {
    match child.root {
        Item::Operator(inner) => inner.level() <= op.level(),
        Item::Number(_) => false,
    }
}

/// `tokens` as they are, or between a pair of parentheses.
pub open spec fn grouped(tokens: Seq<Token>, parentheses: bool) -> Seq<Token> {
    if parentheses {
        seq![open_token()] + tokens + seq![close_token()]
    } else {
        tokens
    }
}

/// A fully formed tree in infix notation: a leaf is its number, and a node is
/// its left operand, its operator and its right operand, each operand in
/// parentheses where the rules of precedence ask for them.
pub open spec fn infix(t: BinaryExpressionTree) -> Seq<Token>
    decreases t,
{
    match (t.root, t.left, t.right) {
        (Item::Number(v), _, _) => seq![Token::Number(v)],
        (Item::Operator(op), Some(l), Some(r)) => grouped(
            infix(*l),
            left_needs_parentheses(op, *l),
        ) + seq![Token::Operator(op)] + grouped(infix(*r), right_needs_parentheses(op, *r)),
        _ => Seq::empty(),
    }
}

/// Whether the pending operators of `s` wait while `op` is read: none is in
/// reach, or the nearest one binds less tightly than `op`.
pub open spec fn rests(s: Stacks, op: Op) -> bool {
    s.ops.len() == 0 || s.ops.last() is Open || s.yields(Stop::Before(op))
}

/// Whether the pending operators of `s` wait while the top operator of `t`
/// is read.
pub open spec fn settled(s: Stacks, t: BinaryExpressionTree) -> bool {
    match t.root {
        Item::Number(_) => true,
        Item::Operator(op) => rests(s, op),
    }
}

/// Whether reductions up to `stop` apply the top operator of `t`.
pub open spec fn reaches(stop: Stop, t: BinaryExpressionTree) -> bool {
    match (stop, t.root) {
        (Stop::Before(next), Item::Operator(op)) => next.level() <= op.level(),
        _ => true,
    }
}

/// Reading one token is one step.
pub proof fn lemma_run_single(s: Stacks, token: Token)
    ensures
        s.run(seq![token]) == s.step(token),
{
    assert(seq![token].drop_last() =~= Seq::<Token>::empty());
    assert(s.run(Seq::<Token>::empty()) == Ok::<Stacks, StructuralError>(s));
}

/// Reading a tree's infix notation leaves stacks that reduce like the stacks
/// with the tree itself as the top operand.
proof fn lemma_read_infix(s: Stacks, t: BinaryExpressionTree, stop: Stop)
    requires
        t.wf(),
        settled(s, t),
        reaches(stop, t),
    ensures
        s.run(infix(t)) is Ok,
        s.run(infix(t))->Ok_0.reduce(stop) == s.push_tree(t).reduce(stop),
    decreases t, 0nat,
{
    match (t.root, t.left, t.right) {
        (Item::Number(v), _, _) => {
            lemma_run_single(s, Token::Number(v));
            assert(t == BinaryExpressionTree::leaf(v));
        },
        (Item::Operator(op), Some(l), Some(r)) => {
            let here = Token::Operator(op);
            let before = Stop::Before(op);
            let lhs = grouped(infix(*l), left_needs_parentheses(op, *l));
            let rhs = grouped(infix(*r), right_needs_parentheses(op, *r));
            // the left operand
            if left_needs_parentheses(op, *l) {
                lemma_read_grouped(s, *l);
            } else {
                lemma_read_infix(s, *l, before);
            }
            let a = s.run(lhs)->Ok_0;
            assert(a.reduce(before) == Ok::<Stacks, StructuralError>(s.push_tree(*l)));
            // the operator
            let c = s.push_tree(*l).push_op(Pending::Operator(op));
            lemma_run_single(a, here);
            lemma_run_concat(s, lhs, seq![here]);
            assert(s.run(lhs + seq![here]) == Ok::<Stacks, StructuralError>(c));
            // the right operand
            assert(c.ops.drop_last() =~= s.ops);
            if right_needs_parentheses(op, *r) {
                lemma_read_grouped(c, *r);
            } else {
                lemma_read_infix(c, *r, stop);
            }
            lemma_run_concat(s, lhs + seq![here], rhs);
            let d = s.run(infix(t))->Ok_0;
            assert(d.reduce(stop) == c.push_tree(*r).reduce(stop));
            // the node
            let e = c.push_tree(*r);
            assert(e.ops.drop_last() =~= s.ops);
            assert(e.trees.take(e.trees.len() - 2) =~= s.trees);
            assert(e.apply_top()->Ok_0 =~= s.push_tree(BinaryExpressionTree::node(op, *l, *r)));
            assert(t == BinaryExpressionTree::node(op, *l, *r));
        },
        _ => {},
    }
}

/// Reading a tree's infix notation in parentheses pushes the tree as an
/// operand and changes nothing else.
proof fn lemma_read_grouped(s: Stacks, t: BinaryExpressionTree)
    requires
        t.wf(),
    ensures
        s.run(grouped(infix(t), true)) == Ok::<Stacks, StructuralError>(s.push_tree(t)),
    decreases t, 1nat,
{
    let base = s.push_op(Pending::Open);
    lemma_run_single(s, open_token());
    lemma_read_infix(base, t, Stop::Open);
    lemma_run_concat(s, seq![open_token()], infix(t));
    let inner = base.run(infix(t))->Ok_0;
    lemma_run_single(inner, close_token());
    lemma_run_concat(s, seq![open_token()] + infix(t), seq![close_token()]);
    assert(base.ops.drop_last() =~= s.ops);
    assert(base.push_tree(t).pop_op() =~= s.push_tree(t));
}

/// A fully formed tree, written in infix notation with parentheses only
/// where a left operand binds less tightly than its operator or a right
/// operand binds no tighter, is built back from that notation. So the value
/// of what is built is the value by precedence and left association.
pub proof fn lemma_infix_is_read_back(t: BinaryExpressionTree)
    requires
        t.wf(),
    ensures
        build(infix(t)) == Ok::<BinaryExpressionTree, StructuralError>(t),
{
    let start = Stacks::empty();
    lemma_read_infix(start, t, Stop::End);
    assert(start.push_tree(t).trees[0] == t);
}

} // verus!
