//! The size of a built tree, counted from the tokens it was built from.

use vstd::prelude::*;
use crate::builder::{build, lemma_reduce_to_end_empties, negation, Pending, Stacks, Stop};
use crate::op::Op;
use crate::token::Token;
use crate::tree::BinaryExpressionTree;

verus! {

/// What one token adds to the leaves of the tree: a number is a leaf, and a
/// negation brings the leaf zero.
pub open spec fn token_leaves(token: Token) -> nat {
    match token {
        Token::Number(_) | Token::Unary => 1,
        _ => 0,
    }
}

/// What one token adds to the inner nodes of the tree: an operator is a node,
/// and a negation is the node of a subtraction.
pub open spec fn token_nodes(token: Token) -> nat {
    match token {
        Token::Operator(_) | Token::Unary => 1,
        _ => 0,
    }
}

/// How many of `tokens` are numbers.
pub open spec fn count_numbers(tokens: Seq<Token>) -> nat
    decreases tokens.len(),
{
    if tokens.len() == 0 {
        0
    } else {
        count_numbers(tokens.drop_last()) + if tokens.last() is Number {
            1nat
        } else {
            0nat
        }
    }
}

/// How many of `tokens` are binary operators.
pub open spec fn count_operators(tokens: Seq<Token>) -> nat
    decreases tokens.len(),
{
    if tokens.len() == 0 {
        0
    } else {
        count_operators(tokens.drop_last()) + if tokens.last() is Operator {
            1nat
        } else {
            0nat
        }
    }
}

/// How many of `tokens` are negations.
pub open spec fn count_negations(tokens: Seq<Token>) -> nat
    decreases tokens.len(),
{
    if tokens.len() == 0 {
        0
    } else {
        count_negations(tokens.drop_last()) + if tokens.last() is Unary {
            1nat
        } else {
            0nat
        }
    }
}

/// The leaves of all `trees` together.
pub open spec fn total_leaves(trees: Seq<BinaryExpressionTree>) -> nat
    decreases trees.len(),
{
    if trees.len() == 0 {
        0
    } else {
        total_leaves(trees.drop_last()) + trees.last().leaves()
    }
}

/// The inner nodes of all `trees` together.
pub open spec fn total_nodes(trees: Seq<BinaryExpressionTree>) -> nat
    decreases trees.len(),
{
    if trees.len() == 0 {
        0
    } else {
        total_nodes(trees.drop_last()) + trees.last().nodes()
    }
}

/// How many of the pending entries are negations.
pub open spec fn pending_negations(ops: Seq<Pending>) -> nat
    decreases ops.len(),
{
    if ops.len() == 0 {
        0
    } else {
        pending_negations(ops.drop_last()) + if ops.last() is Negation {
            1nat
        } else {
            0nat
        }
    }
}

/// How many of the pending entries are binary operators.
pub open spec fn pending_operators(ops: Seq<Pending>) -> nat
    decreases ops.len(),
{
    if ops.len() == 0 {
        0
    } else {
        pending_operators(ops.drop_last()) + if ops.last() is Operator {
            1nat
        } else {
            0nat
        }
    }
}

/// The leaves that the stacks stand for: those of the operands, and one for
/// each pending negation.
pub open spec fn leaf_weight(s: Stacks) -> nat {
    total_leaves(s.trees) + pending_negations(s.ops)
}

/// The inner nodes that the stacks stand for: those of the operands, and one
/// for each pending negation or operator.
pub open spec fn node_weight(s: Stacks) -> nat {
    total_nodes(s.trees) + pending_negations(s.ops) + pending_operators(s.ops)
}

/// A node has the leaves of its two subtrees, and one inner node more than
/// they have.
pub proof fn lemma_node_size(op: Op, l: BinaryExpressionTree, r: BinaryExpressionTree)
    ensures
        BinaryExpressionTree::node(op, l, r).leaves() == l.leaves() + r.leaves(),
        BinaryExpressionTree::node(op, l, r).nodes() == 1 + l.nodes() + r.nodes(),
{
}

proof fn lemma_push_tree(s: Stacks, t: BinaryExpressionTree)
    ensures
        leaf_weight(s.push_tree(t)) == leaf_weight(s) + t.leaves(),
        node_weight(s.push_tree(t)) == node_weight(s) + t.nodes(),
{
    assert(s.trees.push(t).drop_last() =~= s.trees);
}

proof fn lemma_push_op(s: Stacks, entry: Pending)
    ensures
        leaf_weight(s.push_op(entry)) == leaf_weight(s) + if entry is Negation {
            1nat
        } else {
            0nat
        },
        node_weight(s.push_op(entry)) == node_weight(s) + if entry is Open {
            0nat
        } else {
            1nat
        },
{
    assert(s.ops.push(entry).drop_last() =~= s.ops);
}

/// Applying the top pending operator turns what it stood for into a node.
proof fn lemma_apply_top_keeps_weight(s: Stacks)
    requires
        s.ops.len() > 0,
        s.apply_top() is Ok,
    ensures
        leaf_weight(s.apply_top()->Ok_0) == leaf_weight(s),
        node_weight(s.apply_top()->Ok_0) == node_weight(s),
{
    let n = s.trees.len() as int;
    let next = s.apply_top()->Ok_0;
    match s.ops.last() {
        Pending::Negation => {
            let rest = Stacks { ops: s.ops.drop_last(), trees: s.trees.take(n - 1) };
            assert(s.trees.take(n - 1) =~= s.trees.drop_last());
            assert(next == rest.push_tree(negation(s.trees[n - 1])));
            lemma_push_tree(rest, negation(s.trees[n - 1]));
            lemma_node_size(Op::Sub, BinaryExpressionTree::leaf(0), s.trees[n - 1]);
            assert(BinaryExpressionTree::leaf(0).leaves() == 1);
            assert(BinaryExpressionTree::leaf(0).nodes() == 0);
        },
        Pending::Operator(op) => {
            let rest = Stacks { ops: s.ops.drop_last(), trees: s.trees.take(n - 2) };
            assert(s.trees.take(n - 2) =~= s.trees.drop_last().drop_last());
            assert(next == rest.push_tree(
                BinaryExpressionTree::node(op, s.trees[n - 2], s.trees[n - 1]),
            ));
            lemma_push_tree(rest, BinaryExpressionTree::node(op, s.trees[n - 2], s.trees[n - 1]));
            lemma_node_size(op, s.trees[n - 2], s.trees[n - 1]);
            assert(total_leaves(s.trees.drop_last()) == total_leaves(
                s.trees.drop_last().drop_last(),
            ) + s.trees[n - 2].leaves());
            assert(total_nodes(s.trees.drop_last()) == total_nodes(s.trees.drop_last().drop_last())
                + s.trees[n - 2].nodes());
        },
        Pending::Open => {},
    }
}

/// A run of reductions changes neither weight.
proof fn lemma_reduce_keeps_weight(s: Stacks, stop: Stop)
    requires
        s.reduce(stop) is Ok,
    ensures
        leaf_weight(s.reduce(stop)->Ok_0) == leaf_weight(s),
        node_weight(s.reduce(stop)->Ok_0) == node_weight(s),
    decreases s.ops.len(),
{
    if s.ops.len() > 0 && !(s.ops.last() is Open) && !s.yields(stop) {
        lemma_apply_top_keeps_weight(s);
        lemma_reduce_keeps_weight(s.apply_top()->Ok_0, stop);
    }
}

/// Reading a token adds to each weight what the token stands for.
proof fn lemma_step_adds_weight(s: Stacks, token: Token)
    requires
        s.step(token) is Ok,
    ensures
        leaf_weight(s.step(token)->Ok_0) == leaf_weight(s) + token_leaves(token),
        node_weight(s.step(token)->Ok_0) == node_weight(s) + token_nodes(token),
{
    match token {
        Token::Number(v) => {
            lemma_push_tree(s, BinaryExpressionTree::leaf(v));
        },
        Token::Unary => {
            lemma_push_op(s, Pending::Negation);
        },
        Token::Operator(op) => {
            lemma_reduce_keeps_weight(s, Stop::Before(op));
            lemma_push_op(s.reduce(Stop::Before(op))->Ok_0, Pending::Operator(op));
        },
        Token::Parenthesis(c) => {
            if c == '(' {
                lemma_push_op(s, Pending::Open);
            } else if c == ')' {
                lemma_reduce_keeps_weight(s, Stop::Open);
            }
        },
    }
}

/// Reading tokens adds to each weight what the tokens stand for.
proof fn lemma_run_adds_weight(s: Stacks, tokens: Seq<Token>)
    requires
        s.run(tokens) is Ok,
    ensures
        leaf_weight(s.run(tokens)->Ok_0) == leaf_weight(s) + count_numbers(tokens)
            + count_negations(tokens),
        node_weight(s.run(tokens)->Ok_0) == node_weight(s) + count_operators(tokens)
            + count_negations(tokens),
    decreases tokens.len(),
{
    if tokens.len() > 0 {
        lemma_run_adds_weight(s, tokens.drop_last());
        lemma_step_adds_weight(s.run(tokens.drop_last())->Ok_0, tokens.last());
    }
}

/// The tree built from a token sequence has one leaf for each number and one
/// for each negation (the zero it is subtracted from), and one inner node for
/// each binary operator and for each negation. Without a negation, the leaves
/// are the numbers and the inner nodes are the operators.
pub proof fn lemma_tree_size(tokens: Seq<Token>)
    requires
        build(tokens) is Ok,
    ensures
        build(tokens)->Ok_0.leaves() == count_numbers(tokens) + count_negations(tokens),
        build(tokens)->Ok_0.nodes() == count_operators(tokens) + count_negations(tokens),
        count_negations(tokens) == 0 ==> build(tokens)->Ok_0.leaves() == count_numbers(tokens)
            && build(tokens)->Ok_0.nodes() == count_operators(tokens),
{
    let read = Stacks::empty().run(tokens)->Ok_0;
    let last = read.reduce(Stop::End)->Ok_0;
    lemma_run_adds_weight(Stacks::empty(), tokens);
    lemma_reduce_keeps_weight(read, Stop::End);
    lemma_reduce_to_end_empties(read);
    assert(last.trees.drop_last() =~= Seq::<BinaryExpressionTree>::empty());
}

} // verus!
