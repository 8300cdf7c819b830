//! Token sequences whose parentheses do not match have no tree.

use vstd::prelude::*;
use crate::builder::{
    build, lemma_failure_stays, lemma_reduce_to_end_empties, Pending, Stacks, Stop,
};
use crate::token::Token;

verus! {

/// How many of `tokens` are opening parentheses.
pub open spec fn count_opens(tokens: Seq<Token>) -> nat
    decreases tokens.len(),
{
    if tokens.len() == 0 {
        0
    } else {
        count_opens(tokens.drop_last()) + if tokens.last() == Token::Parenthesis('(') {
            1nat
        } else {
            0nat
        }
    }
}

/// How many of `tokens` are closing parentheses.
pub open spec fn count_closes(tokens: Seq<Token>) -> nat
    decreases tokens.len(),
{
    if tokens.len() == 0 {
        0
    } else {
        count_closes(tokens.drop_last()) + if tokens.last() == Token::Parenthesis(')') {
            1nat
        } else {
            0nat
        }
    }
}

/// How many of the pending entries are opening parentheses.
pub open spec fn pending_opens(ops: Seq<Pending>) -> nat
    decreases ops.len(),
{
    if ops.len() == 0 {
        0
    } else {
        pending_opens(ops.drop_last()) + if ops.last() is Open {
            1nat
        } else {
            0nat
        }
    }
}

/// What a run of reductions removes: one opening parenthesis where it is to
/// end behind one, and none otherwise.
pub open spec fn removed_opens(stop: Stop) -> nat {
    if stop is Open {
        1
    } else {
        0
    }
}

proof fn lemma_push_counts(ops: Seq<Pending>, entry: Pending)
    ensures
        pending_opens(ops.push(entry)) == pending_opens(ops) + if entry is Open {
            1nat
        } else {
            0nat
        },
{
    assert(ops.push(entry).drop_last() =~= ops);
}

/// Reductions remove no opening parenthesis but the one they are to end
/// behind.
proof fn lemma_reduce_opens(s: Stacks, stop: Stop)
    requires
        s.reduce(stop) is Ok,
    ensures
        pending_opens(s.reduce(stop)->Ok_0.ops) + removed_opens(stop) == pending_opens(s.ops),
    decreases s.ops.len(),
{
    if s.ops.len() > 0 && !(s.ops.last() is Open) && !s.yields(stop) {
        lemma_reduce_opens(s.apply_top()->Ok_0, stop);
    }
}

/// Reading tokens keeps as many opening parentheses pending as have been
/// read and not closed.
proof fn lemma_run_opens(s: Stacks, tokens: Seq<Token>)
    requires
        s.run(tokens) is Ok,
    ensures
        pending_opens(s.run(tokens)->Ok_0.ops) + count_closes(tokens) == pending_opens(s.ops)
            + count_opens(tokens),
    decreases tokens.len(),
{
    if tokens.len() > 0 {
        lemma_run_opens(s, tokens.drop_last());
        let before = s.run(tokens.drop_last())->Ok_0;
        match tokens.last() {
            Token::Number(_) => {},
            Token::Unary => {
                lemma_push_counts(before.ops, Pending::Negation);
            },
            Token::Operator(op) => {
                lemma_reduce_opens(before, Stop::Before(op));
                lemma_push_counts(before.reduce(Stop::Before(op))->Ok_0.ops, Pending::Operator(op));
            },
            Token::Parenthesis(c) => {
                if c == '(' {
                    lemma_push_counts(before.ops, Pending::Open);
                } else if c == ')' {
                    lemma_reduce_opens(before, Stop::Open);
                }
            },
        }
    }
}

/// A token sequence in which, after the first `k` tokens, more parentheses
/// have been closed than opened has no tree.
pub proof fn lemma_unmatched_close_fails(tokens: Seq<Token>, k: int)
    requires
        0 <= k <= tokens.len(),
        count_closes(tokens.take(k)) > count_opens(tokens.take(k)),
    ensures
        build(tokens) is Err,
{
    let start = Stacks::empty();
    if start.run(tokens.take(k)) is Ok {
        lemma_run_opens(start, tokens.take(k));
    }
    lemma_failure_stays(start, tokens, k);
}

/// A token sequence that opens more parentheses than it closes has no tree.
pub proof fn lemma_unmatched_open_fails(tokens: Seq<Token>)
    requires
        count_opens(tokens) > count_closes(tokens),
    ensures
        build(tokens) is Err,
{
    let start = Stacks::empty();
    if start.run(tokens) is Ok {
        let read = start.run(tokens)->Ok_0;
        lemma_run_opens(start, tokens);
        if read.reduce(Stop::End) is Ok {
            lemma_reduce_opens(read, Stop::End);
            lemma_reduce_to_end_empties(read);
        }
    }
}

} // verus!
