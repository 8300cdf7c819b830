//! The tree builder: from tokens to an expression tree, by operator
//! precedence, with a stack of pending operators and a stack of operands.

use vstd::prelude::*;
use crate::error::StructuralError;
use crate::op::Op;
use crate::token::Token;
use crate::tree::{BinaryExpressionTree, Item};

verus! {

/// An entry of the stack of pending operators.
#[derive(Clone, Copy, Debug, PartialEq, Eq, Structural)]
pub enum Pending {
    /// A negation that waits for its operand.
    Negation,
    /// A binary operator that waits for its right operand.
    Operator(Op),
    /// An opening parenthesis that waits for its partner.
    Open,
}

/// Where a run of reductions ends.
#[derive(Clone, Copy, Debug, PartialEq, Eq, Structural)]
pub enum Stop {
    /// In front of an opening parenthesis, or of an operator that binds less
    /// tightly than this one, or at the bottom of the stack.
    Before(Op),
    /// Behind the nearest opening parenthesis, which is removed.
    Open,
    /// At the bottom of the stack.
    End,
}

/// The two stacks of the builder; the top of each is its last entry.
pub ghost struct Stacks {
    pub ops: Seq<Pending>,
    pub trees: Seq<BinaryExpressionTree>,
}

/// The tree for the negation of `t`: zero minus `t`.
pub open spec fn negation(t: BinaryExpressionTree) -> BinaryExpressionTree {
    BinaryExpressionTree::node(Op::Sub, BinaryExpressionTree::leaf(0), t)
}

impl Stacks {
    /// Both stacks empty.
    pub open spec fn empty() -> Stacks {
        Stacks { ops: Seq::empty(), trees: Seq::empty() }
    }

    /// The stacks that hold `ops` and `trees`.
    pub open spec fn of(ops: Seq<Pending>, trees: Seq<BinaryExpressionTree>) -> Stacks {
        Stacks { ops, trees }
    }

    /// Every operand is a fully formed tree.
    pub open spec fn wf(self) -> bool {
        forall|i: int| 0 <= i < self.trees.len() ==> (#[trigger] self.trees[i]).wf()
    }

    /// The stacks with `entry` pushed on the pending operators.
    pub open spec fn push_op(self, entry: Pending) -> Stacks {
        Stacks { ops: self.ops.push(entry), trees: self.trees }
    }

    /// The stacks with `tree` pushed on the operands.
    pub open spec fn push_tree(self, tree: BinaryExpressionTree) -> Stacks {
        Stacks { ops: self.ops, trees: self.trees.push(tree) }
    }

    /// The stacks without the top pending operator.
    pub open spec fn pop_op(self) -> Stacks {
        Stacks { ops: self.ops.drop_last(), trees: self.trees }
    }

    /// Applies the top pending operator (the operator stack is not empty and
    /// its top is no parenthesis). A negation takes the top operand `x` and
    /// leaves `0 - x`; a binary operator takes the two top operands, the upper
    /// one as its right side, and leaves the node that joins them.
    pub open spec fn apply_top(self) -> Result<Stacks, StructuralError> {
        let n = self.trees.len() as int;
        match self.ops.last() {
            Pending::Negation => if n < 1 {
                Err(StructuralError::MissingOperand)
            } else {
                Ok(
                    Stacks {
                        ops: self.ops.drop_last(),
                        trees: self.trees.take(n - 1).push(negation(self.trees[n - 1])),
                    },
                )
            },
            Pending::Operator(op) => if n < 2 {
                Err(StructuralError::MissingOperand)
            } else {
                Ok(
                    Stacks {
                        ops: self.ops.drop_last(),
                        trees: self.trees.take(n - 2).push(
                            BinaryExpressionTree::node(op, self.trees[n - 2], self.trees[n - 1]),
                        ),
                    },
                )
            },
            Pending::Open => Ok(self.pop_op()),
        }
    }

    /// Applies pending operators from the top down until `stop` says to end.
    /// A closing parenthesis that finds no opening one, and an opening one
    /// that is met on the way to the bottom, are failures.
    pub open spec fn reduce(self, stop: Stop) -> Result<Stacks, StructuralError>
        decreases self.ops.len(),
    {
        if self.ops.len() == 0 {
            match stop {
                Stop::Open => Err(StructuralError::UnmatchedClose),
                _ => Ok(self),
            }
        } else if self.ops.last() is Open {
            match stop {
                Stop::Before(_) => Ok(self),
                Stop::Open => Ok(self.pop_op()),
                Stop::End => Err(StructuralError::UnmatchedOpen),
            }
        } else if self.yields(stop) {
            Ok(self)
        } else {
            match self.apply_top() {
                Ok(next) => next.reduce(stop),
                Err(e) => Err(e),
            }
        }
    }

    /// Whether the top pending operator binds less tightly than the operator
    /// that `stop` names, and so stays on the stack.
    pub open spec fn yields(self, stop: Stop) -> bool {
        match (self.ops.last(), stop) {
            (Pending::Operator(top), Stop::Before(op)) => top.level() < op.level(),
            _ => false,
        }
    }

    /// The stacks after `token` has been read: a number is pushed as a leaf,
    /// a negation and an opening parenthesis are pushed as pending, an
    /// operator is pushed behind the reductions it asks for, and a closing
    /// parenthesis reduces down to its partner. A parenthesis token of any
    /// other character changes nothing.
    pub open spec fn step(self, token: Token) -> Result<Stacks, StructuralError> {
        match token {
            Token::Number(v) => Ok(self.push_tree(BinaryExpressionTree::leaf(v))),
            Token::Unary => Ok(self.push_op(Pending::Negation)),
            Token::Operator(op) => match self.reduce(Stop::Before(op)) {
                Ok(next) => Ok(next.push_op(Pending::Operator(op))),
                Err(e) => Err(e),
            },
            Token::Parenthesis(c) => if c == '(' {
                Ok(self.push_op(Pending::Open))
            } else if c == ')' {
                self.reduce(Stop::Open)
            } else {
                Ok(self)
            },
        }
    }

    /// The stacks after all of `tokens` have been read, from left to right.
    pub open spec fn run(self, tokens: Seq<Token>) -> Result<Stacks, StructuralError>
        decreases tokens.len(),
    {
        if tokens.len() == 0 {
            Ok(self)
        } else {
            match self.run(tokens.drop_last()) {
                Ok(next) => next.step(tokens.last()),
                Err(e) => Err(e),
            }
        }
    }

    /// What is left when no token follows: every pending operator is
    /// applied, and exactly one operand must remain.
    pub open spec fn finish(self) -> Result<BinaryExpressionTree, StructuralError> {
        match self.reduce(Stop::End) {
            Ok(last) => if last.trees.len() == 0 {
                Err(StructuralError::MissingOperand)
            } else if last.trees.len() > 1 {
                Err(StructuralError::ExtraOperand)
            } else {
                Ok(last.trees[0])
            },
            Err(e) => Err(e),
        }
    }
}

/// The expression tree of `tokens`, or the reason why they form none.
pub open spec fn build(tokens: Seq<Token>) -> Result<BinaryExpressionTree, StructuralError> {
    match Stacks::empty().run(tokens) {
        Ok(stacks) => stacks.finish(),
        Err(e) => Err(e),
    }
}

/// Once reading a prefix of the tokens has failed, reading all of them fails
/// in the same way.
pub proof fn lemma_failure_stays(start: Stacks, tokens: Seq<Token>, k: int)
    requires
        0 <= k <= tokens.len(),
        start.run(tokens.take(k)) is Err,
    ensures
        start.run(tokens) == start.run(tokens.take(k)),
    decreases tokens.len(),
{
    if k == tokens.len() {
        assert(tokens.take(k) =~= tokens);
    } else {
        assert(tokens.drop_last().take(k) =~= tokens.take(k));
        lemma_failure_stays(start, tokens.drop_last(), k);
    }
}

/// Reductions that reach the bottom leave no pending operator.
pub proof fn lemma_reduce_to_end_empties(s: Stacks)
    requires
        s.reduce(Stop::End) is Ok,
    ensures
        s.reduce(Stop::End)->Ok_0.ops.len() == 0,
    decreases s.ops.len(),
{
    if s.ops.len() > 0 {
        lemma_reduce_to_end_empties(s.apply_top()->Ok_0);
    }
}

/// Applies pending operators on the two stacks until `stop` says to end.
fn reduce(
    ops: &mut Vec<Pending>,
    trees: &mut Vec<BinaryExpressionTree>,
    stop: Stop,
) -> (result: Result<(), StructuralError>)
    requires
        Stacks::of(old(ops)@, old(trees)@).wf(),
    ensures
        match Stacks::of(old(ops)@, old(trees)@).reduce(stop) {
            Ok(next) => result is Ok && next == Stacks::of(final(ops)@, final(trees)@)
                && next.wf(),
            Err(e) => result == Err::<(), StructuralError>(e),
        },
{
    loop
        invariant
            Stacks::of(ops@, trees@).wf(),
            Stacks::of(old(ops)@, old(trees)@).reduce(stop) == Stacks::of(ops@, trees@).reduce(stop),
        decreases ops.len(),
    {
        let ghost now = Stacks::of(ops@, trees@);
        if ops.len() == 0 {
            return match stop {
                Stop::Open => Err(StructuralError::UnmatchedClose),
                _ => Ok(()),
            };
        }
        let top = ops[ops.len() - 1];
        match top {
            Pending::Open => {
                return match stop {
                    Stop::Before(_) => Ok(()),
                    Stop::Open => {
                        ops.pop();
                        Ok(())
                    },
                    Stop::End => Err(StructuralError::UnmatchedOpen),
                };
            },
            Pending::Negation => {
                let operand = match trees.pop() {
                    Some(t) => t,
                    None => {
                        return Err(StructuralError::MissingOperand);
                    },
                };
                let zero = BinaryExpressionTree::new(Item::Number(0));
                trees.push(BinaryExpressionTree::from(Item::Operator(Op::Sub), zero, operand));
                ops.pop();
            },
            Pending::Operator(op) => {
                if let Stop::Before(next) = stop {
                    if op.precedence() < next.precedence() {
                        return Ok(());
                    }
                }
                let right = match trees.pop() {
                    Some(t) => t,
                    None => {
                        return Err(StructuralError::MissingOperand);
                    },
                };
                let left = match trees.pop() {
                    Some(t) => t,
                    None => {
                        return Err(StructuralError::MissingOperand);
                    },
                };
                trees.push(BinaryExpressionTree::from(Item::Operator(op), left, right));
                ops.pop();
            },
        }
        proof {
            assert(now.apply_top() == Ok::<Stacks, StructuralError>(Stacks::of(ops@, trees@))) by {
                let next = now.apply_top()->Ok_0;
                assert(next.trees =~= trees@);
                assert(next.ops =~= ops@);
            }
        }
    }
}

/// Arranges the tokens of an expression into its tree.
///
/// The tokens are read from left to right. A number becomes a leaf on the
/// operand stack. An operator first has every pending operator applied that
/// binds at least as tightly, so that operators of one level associate to the
/// left. A closing parenthesis has every operator applied that is pending
/// since its partner. A negation is applied before any binary operator that
/// follows its operand.
pub fn to_expression_tree(tokens: Vec<Token>) -> (result: Result<
    BinaryExpressionTree,
    StructuralError,
>)
    ensures
        result == build(tokens@),
        result matches Ok(tree) ==> tree.wf(),
{
    let mut ops: Vec<Pending> = Vec::new();
    let mut trees: Vec<BinaryExpressionTree> = Vec::new();
    let n = tokens.len();
    let mut i: usize = 0;
    assert(Stacks::of(ops@, trees@) == Stacks::empty());
    while i < n
        invariant
            n == tokens.len(),
            i <= n,
            Stacks::of(ops@, trees@).wf(),
            Stacks::empty().run(tokens@.take(i as int)) == Ok::<Stacks, StructuralError>(Stacks::of(ops@, trees@)),
        decreases n - i,
    {
        let ghost now = Stacks::of(ops@, trees@);
        proof {
            assert(tokens@.take(i + 1).drop_last() =~= tokens@.take(i as int));
            assert(Stacks::empty().run(tokens@.take(i + 1)) == now.step(tokens@[i as int]));
            if now.step(tokens@[i as int]) is Err {
                lemma_failure_stays(Stacks::empty(), tokens@, i + 1);
            }
        }
        match tokens[i] {
            Token::Number(v) => {
                trees.push(BinaryExpressionTree::new(Item::Number(v)));
            },
            Token::Unary => {
                ops.push(Pending::Negation);
            },
            Token::Operator(op) => {
                match reduce(&mut ops, &mut trees, Stop::Before(op)) {
                    Ok(()) => {},
                    Err(e) => {
                        return Err(e);
                    },
                }
                ops.push(Pending::Operator(op));
            },
            Token::Parenthesis(c) => {
                if c == '(' {
                    ops.push(Pending::Open);
                } else if c == ')' {
                    match reduce(&mut ops, &mut trees, Stop::Open) {
                        Ok(()) => {},
                        Err(e) => {
                            return Err(e);
                        },
                    }
                }
            },
        }
        i = i + 1;
    }
    assert(tokens@.take(n as int) =~= tokens@);
    match reduce(&mut ops, &mut trees, Stop::End) {
        Ok(()) => {},
        Err(e) => {
            return Err(e);
        },
    }
    if trees.len() > 1 {
        return Err(StructuralError::ExtraOperand);
    }
    match trees.pop() {
        Some(tree) => Ok(tree),
        None => Err(StructuralError::MissingOperand),
    }
}

} // verus!
