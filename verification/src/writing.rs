//! Arithmetic written as text: a tree of the four basic operations, written
//! out in the usual way, is what the lexer and the builder read back.

use vstd::prelude::*;
use crate::builder::build;
use crate::error::{LexError, StructuralError};
use crate::infix::{
    grouped, infix, left_needs_parentheses, lemma_infix_is_read_back, right_needs_parentheses,
};
use crate::lexer::{
    decimal, digit_run, extend, is_digit, lemma_digit_run_bounded, lex, lex_from, number_end,
    prepend,
};
use crate::op::Op;
use crate::token::Token;
use crate::tree::{BinaryExpressionTree, Item};

verus! {

/// The character of the digit `d`, which is below ten.
pub open spec fn digit_char(d: nat) -> char {
    (48 + d) as char
}

/// The number `n` in base ten, without leading zeros.
pub open spec fn numeral(n: nat) -> Seq<char>
    decreases n,
{
    if n < 10 {
        seq![digit_char(n)]
    } else {
        numeral(n / 10).push(digit_char(n % 10))
    }
}

/// Whether `op` is one of the four basic operations.
pub open spec fn is_basic(op: Op) -> bool {
    op == Op::Add || op == Op::Sub || op == Op::Mul || op == Op::Div
}

/// The character of a basic operation.
pub open spec fn op_char(op: Op) -> char {
    match op {
        Op::Add => '+',
        Op::Sub => '-',
        Op::Mul => '*',
        _ => '/',
    }
}

/// `text` as it is, or between a pair of parentheses.
pub open spec fn grouped_text(text: Seq<char>, parentheses: bool) -> Seq<char> {
    if parentheses {
        seq!['('] + text + seq![')']
    } else {
        text
    }
}

/// Whether the last token of the tree's infix notation is a number and no
/// closing parenthesis.
pub open spec fn ends_in_number(t: BinaryExpressionTree) -> bool
    decreases t,
{
    match (t.root, t.left, t.right) {
        (Item::Operator(op), Some(l), Some(r)) => !right_needs_parentheses(op, *r)
            && ends_in_number(*r),
        _ => true,
    }
}

/// Whether the tree can be written as text and read back: it is fully
/// formed, its numbers are not negative, its operators are basic, and the
/// left operand of a subtraction ends in a number, because a minus sign
/// behind a closing parenthesis is read as a negation.
pub open spec fn writable(t: BinaryExpressionTree) -> bool
    decreases t,
{
    match (t.root, t.left, t.right) {
        (Item::Number(v), None, None) => v >= 0,
        (Item::Operator(op), Some(l), Some(r)) => {
            &&& is_basic(op)
            &&& writable(*l)
            &&& writable(*r)
            &&& op == Op::Sub ==> !left_needs_parentheses(op, *l) && ends_in_number(*l)
        },
        _ => false,
    }
}

/// The tree as text, without blanks: the tokens of its infix notation, each
/// number in base ten.
pub open spec fn text(t: BinaryExpressionTree) -> Seq<char>
    decreases t,
{
    match (t.root, t.left, t.right) {
        (Item::Number(v), _, _) => numeral(v as nat),
        (Item::Operator(op), Some(l), Some(r)) => grouped_text(
            text(*l),
            left_needs_parentheses(op, *l),
        ) + seq![op_char(op)] + grouped_text(text(*r), right_needs_parentheses(op, *r)),
        _ => Seq::empty(),
    }
}

/// Whether the text `w` ends at position `i` or goes on there with a
/// character that is no digit.
pub open spec fn no_digit_at(w: Seq<char>, i: int) -> bool {
    i >= w.len() || !is_digit(w[i])
}

/// A numeral is made of digits, at least one.
proof fn lemma_numeral_digits(n: nat)
    ensures
        numeral(n).len() >= 1,
        forall|p: int| 0 <= p < numeral(n).len() ==> is_digit(#[trigger] numeral(n)[p]),
    decreases n,
{
    if n >= 10 {
        lemma_numeral_digits(n / 10);
    }
}

/// A numeral denotes its number.
proof fn lemma_decimal_numeral(n: nat)
    ensures
        decimal(numeral(n)) == n,
    decreases n,
{
    if n < 10 {
        assert(numeral(n).drop_last() =~= Seq::<char>::empty());
        assert(decimal(Seq::<char>::empty()) == 0);
    } else {
        lemma_decimal_numeral(n / 10);
        assert(numeral(n).drop_last() =~= numeral(n / 10));
    }
}

/// Digits up to a position where there is none are one run.
proof fn lemma_digit_run_exact(w: Seq<char>, i: int, j: int)
    requires
        0 <= i <= j <= w.len(),
        forall|p: int| i <= p < j ==> is_digit(#[trigger] w[p]),
        no_digit_at(w, j),
    ensures
        digit_run(w, i) == j - i,
    decreases j - i,
{
    if i < j {
        lemma_digit_run_exact(w, i + 1, j);
    }
}

/// Tokens in front of tokens in front of a rest are their concatenation in
/// front of the rest.
proof fn lemma_extend_twice(a: Seq<Token>, b: Seq<Token>, rest: Result<Seq<Token>, LexError>)
    ensures
        extend(a, extend(b, rest)) == extend(a + b, rest),
        forall|first: Token| #[trigger] prepend(first, rest) == extend(seq![first], rest),
{
    if let Ok(tokens) = rest {
        assert(a + (b + tokens) =~= (a + b) + tokens);
    }
}

/// A writable tree is fully formed.
pub proof fn lemma_writable_is_formed(t: BinaryExpressionTree)
    requires
        writable(t),
    ensures
        t.wf(),
    decreases t,
{
    match (t.root, t.left, t.right) {
        (Item::Operator(_), Some(l), Some(r)) => {
            lemma_writable_is_formed(*l);
            lemma_writable_is_formed(*r);
        },
        _ => {},
    }
}

/// A numeral at position `i` of `w`, with no digit behind it, is read as
/// its number.
proof fn lemma_lex_numeral(w: Seq<char>, i: int, v: i32, after_number: bool)
    requires
        v >= 0,
        0 <= i,
        i + numeral(v as nat).len() <= w.len(),
        w.subrange(i, i + numeral(v as nat).len()) == numeral(v as nat),
        no_digit_at(w, i + numeral(v as nat).len()),
    ensures
        lex_from(w, i, after_number) == prepend(
            Token::Number(v),
            lex_from(w, i + numeral(v as nat).len(), true),
        ),
{
    let end = i + numeral(v as nat).len();
    lemma_numeral_digits(v as nat);
    lemma_decimal_numeral(v as nat);
    assert forall|p: int| i <= p < end implies is_digit(#[trigger] w[p]) by {
        assert(w[p] == w.subrange(i, end)[p - i]);
    }
    lemma_digit_run_exact(w, i + 1, end);
    assert(number_end(w, i) == end);
}

/// The character of a basic operation is read as its operator; a minus sign
/// is, where a number stands before it.
proof fn lemma_lex_operator(w: Seq<char>, i: int, op: Op, after_number: bool)
    requires
        is_basic(op),
        0 <= i < w.len(),
        w[i] == op_char(op),
        op == Op::Sub ==> after_number,
    ensures
        lex_from(w, i, after_number) == prepend(Token::Operator(op), lex_from(w, i + 1, false)),
{
}

/// The parts of a text that stands at position `i` of `w` stand there one
/// behind the other.
proof fn lemma_parts(w: Seq<char>, i: int, lhs: Seq<char>, c: char, rhs: Seq<char>)
    requires
        0 <= i,
        i + lhs.len() + 1 + rhs.len() <= w.len(),
        w.subrange(i, i + lhs.len() + 1 + rhs.len()) == lhs + seq![c] + rhs,
    ensures
        w.subrange(i, i + lhs.len()) == lhs,
        w[i + lhs.len()] == c,
        w.subrange(i + lhs.len() + 1, i + lhs.len() + 1 + rhs.len()) == rhs,
{
    let whole = lhs + seq![c] + rhs;
    let a = lhs.len() as int;
    let end = i + whole.len();
    assert(whole.subrange(0, a) =~= lhs);
    assert(w.subrange(i, i + a) =~= w.subrange(i, end).subrange(0, a));
    assert(w[i + a] == w.subrange(i, end)[a]);
    assert(whole.subrange(a + 1, whole.len() as int) =~= rhs);
    assert(w.subrange(i + a + 1, end) =~= w.subrange(i, end).subrange(a + 1, whole.len() as int));
}

/// The text of a writable tree, standing at position `i` of `w` with no
/// digit behind it, is read as the tree's infix notation.
proof fn lemma_lex_text(w: Seq<char>, i: int, t: BinaryExpressionTree, after_number: bool)
    requires
        writable(t),
        0 <= i,
        i + text(t).len() <= w.len(),
        w.subrange(i, i + text(t).len()) == text(t),
        no_digit_at(w, i + text(t).len()),
    ensures
        lex_from(w, i, after_number) == extend(
            infix(t),
            lex_from(w, i + text(t).len(), ends_in_number(t)),
        ),
    decreases t, 0nat,
{
    let end = i + text(t).len();
    match (t.root, t.left, t.right) {
        (Item::Number(v), _, _) => {
            lemma_lex_numeral(w, i, v, after_number);
            lemma_extend_twice(Seq::empty(), Seq::empty(), lex_from(w, end, true));
        },
        (Item::Operator(op), Some(l), Some(r)) => {
            let lp = left_needs_parentheses(op, *l);
            let rp = right_needs_parentheses(op, *r);
            let lhs = grouped_text(text(*l), lp);
            let rhs = grouped_text(text(*r), rp);
            let a = lhs.len() as int;
            let here = Token::Operator(op);
            lemma_parts(w, i, lhs, op_char(op), rhs);
            lemma_lex_grouped(w, i, *l, after_number, lp);
            lemma_lex_operator(w, i + a, op, !lp && ends_in_number(*l));
            lemma_lex_grouped(w, i + a + 1, *r, false, rp);
            let rest = lex_from(w, end, ends_in_number(t));
            lemma_extend_twice(seq![here], grouped(infix(*r), rp), rest);
            lemma_extend_twice(grouped(infix(*l), lp), seq![here] + grouped(infix(*r), rp), rest);
            lemma_extend_twice(Seq::empty(), Seq::empty(), lex_from(w, i + a + 1, false));
            assert(grouped(infix(*l), lp) + (seq![here] + grouped(infix(*r), rp)) =~= infix(t));
        },
        _ => {},
    }
}

/// The same for a text that may stand in parentheses.
proof fn lemma_lex_grouped(
    w: Seq<char>,
    i: int,
    t: BinaryExpressionTree,
    after_number: bool,
    parentheses: bool,
)
    requires
        writable(t),
        0 <= i,
        i + grouped_text(text(t), parentheses).len() <= w.len(),
        w.subrange(i, i + grouped_text(text(t), parentheses).len()) == grouped_text(
            text(t),
            parentheses,
        ),
        no_digit_at(w, i + grouped_text(text(t), parentheses).len()),
    ensures
        lex_from(w, i, after_number) == extend(
            grouped(infix(t), parentheses),
            lex_from(
                w,
                i + grouped_text(text(t), parentheses).len(),
                !parentheses && ends_in_number(t),
            ),
        ),
    decreases t, 1nat,
{
    if parentheses {
        let whole = grouped_text(text(t), true);
        let n = text(t).len() as int;
        let end = i + n + 2;
        assert(w[i] == '(') by {
            assert(w[i] == w.subrange(i, end)[0]);
        }
        assert(w[i + n + 1] == ')') by {
            assert(w[i + n + 1] == w.subrange(i, end)[n + 1]);
        }
        assert(w.subrange(i + 1, i + 1 + n) =~= text(t)) by {
            assert(whole.subrange(1, n + 1) =~= text(t));
            assert(w.subrange(i + 1, i + 1 + n) =~= w.subrange(i, end).subrange(1, n + 1));
        }
        lemma_lex_text(w, i + 1, t, false);
        let rest = lex_from(w, end, false);
        let closing = lex_from(w, i + n + 1, ends_in_number(t));
        assert(closing == prepend(Token::Parenthesis(')'), rest));
        lemma_extend_twice(infix(t), seq![Token::Parenthesis(')')], rest);
        lemma_extend_twice(
            seq![Token::Parenthesis('(')],
            infix(t) + seq![Token::Parenthesis(')')],
            rest,
        );
        lemma_extend_twice(Seq::empty(), Seq::empty(), lex_from(w, i + 1, false));
        assert(seq![Token::Parenthesis('(')] + (infix(t) + seq![Token::Parenthesis(')')])
            =~= grouped(infix(t), true));
    } else {
        lemma_lex_text(w, i, t, after_number);
    }
}

/// A tree of basic operations on numbers that are not negative, written as
/// text with parentheses only where precedence and left association ask for
/// them, is read back: the lexer gives the tokens of its infix notation, and
/// the builder gives the tree. So the value of what is read is the value by
/// precedence and left association, with division rounded toward zero.
pub proof fn lemma_text_is_read_back(t: BinaryExpressionTree)
    requires
        writable(t),
    ensures
        lex(text(t)) == Ok::<Seq<Token>, LexError>(infix(t)),
        build(infix(t)) == Ok::<BinaryExpressionTree, StructuralError>(t),
{
    let w = text(t);
    assert(w.subrange(0, w.len() as int) =~= w);
    lemma_lex_text(w, 0, t, false);
    assert(infix(t) + Seq::<Token>::empty() =~= infix(t));
    lemma_writable_is_formed(t);
    lemma_infix_is_read_back(t);
}

} // verus!
