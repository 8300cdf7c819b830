//! Parentheses around a whole expression do not change its tree.

use vstd::prelude::*;
use crate::builder::{build, lemma_reduce_to_end_empties, Pending, Stacks, Stop};
use crate::error::{LexError, StructuralError};
use crate::lexer::{
    digit_run, is_digit, keyword, lemma_digit_run_bounded, lex, lex_from, number_end, prepend,
};
use crate::token::Token;

verus! {

/// The token of an opening parenthesis.
pub open spec fn open_token() -> Token {
    Token::Parenthesis('(')
}

/// The token of a closing parenthesis.
pub open spec fn close_token() -> Token {
    Token::Parenthesis(')')
}

/// `tokens` inside `depth` pairs of parentheses.
pub open spec fn wrapped(tokens: Seq<Token>, depth: nat) -> Seq<Token>
    decreases depth,
{
    if depth == 0 {
        tokens
    } else {
        seq![open_token()] + wrapped(tokens, (depth - 1) as nat) + seq![close_token()]
    }
}

/// The stacks `s` standing on top of the stacks `base`.
pub open spec fn on_top(base: Stacks, s: Stacks) -> Stacks {
    Stacks { ops: base.ops + s.ops, trees: base.trees + s.trees }
}

/// Whether the top pending entry of `base` is an opening parenthesis.
pub open spec fn ends_open(base: Stacks) -> bool {
    base.ops.len() > 0 && base.ops.last() is Open
}

/// Reading two token sequences in a row is reading their concatenation.
pub proof fn lemma_run_concat(s: Stacks, a: Seq<Token>, b: Seq<Token>)
    ensures
        s.run(a + b) == match s.run(a) {
            Ok(mid) => mid.run(b),
            Err(e) => Err(e),
        },
    decreases b.len(),
{
    if b.len() == 0 {
        assert(a + b =~= a);
    } else {
        assert((a + b).drop_last() =~= a + b.drop_last());
        lemma_run_concat(s, a, b.drop_last());
    }
}

/// Applying the top operator does not look below the operands it takes.
proof fn lemma_apply_top_on_top(base: Stacks, s: Stacks)
    requires
        s.ops.len() > 0,
        s.apply_top() is Ok,
    ensures
        on_top(base, s).apply_top() == Ok::<Stacks, StructuralError>(on_top(base, s.apply_top()->Ok_0)),
{
    let whole = on_top(base, s);
    let n = s.trees.len() as int;
    let m = base.trees.len() as int;
    assert(whole.ops.drop_last() =~= base.ops + s.ops.drop_last());
    match s.ops.last() {
        Pending::Negation => {
            assert(whole.trees.take(m + n - 1) =~= base.trees + s.trees.take(n - 1));
        },
        Pending::Operator(_) => {
            assert(whole.trees.take(m + n - 2) =~= base.trees + s.trees.take(n - 2));
        },
        Pending::Open => {},
    }
    assert(whole.apply_top()->Ok_0 =~= on_top(base, s.apply_top()->Ok_0));
}

/// Reductions that succeed on their own go the same way above an opening
/// parenthesis, unless they are to reach the bottom.
proof fn lemma_reduce_on_top(base: Stacks, s: Stacks, stop: Stop)
    requires
        ends_open(base),
        !(stop is End),
        s.reduce(stop) is Ok,
    ensures
        on_top(base, s).reduce(stop) == Ok::<Stacks, StructuralError>(on_top(base, s.reduce(stop)->Ok_0)),
    decreases s.ops.len(),
{
    let whole = on_top(base, s);
    if s.ops.len() == 0 {
        assert(whole.ops =~= base.ops);
    } else if s.ops.last() is Open {
        assert(whole.ops.drop_last() =~= base.ops + s.ops.drop_last());
    } else if s.yields(stop) {
    } else {
        lemma_apply_top_on_top(base, s);
        lemma_reduce_on_top(base, s.apply_top()->Ok_0, stop);
    }
}

/// A token that is read with success on its own is read the same way above
/// an opening parenthesis.
proof fn lemma_step_on_top(base: Stacks, s: Stacks, token: Token)
    requires
        ends_open(base),
        s.step(token) is Ok,
    ensures
        on_top(base, s).step(token) == Ok::<Stacks, StructuralError>(on_top(base, s.step(token)->Ok_0)),
{
    let whole = on_top(base, s);
    let next = s.step(token)->Ok_0;
    match token {
        Token::Operator(op) => {
            lemma_reduce_on_top(base, s, Stop::Before(op));
        },
        Token::Parenthesis(c) => {
            if c == ')' {
                lemma_reduce_on_top(base, s, Stop::Open);
            }
        },
        _ => {},
    }
    assert(whole.step(token)->Ok_0 =~= on_top(base, next));
}

/// Tokens that are read with success on their own are read the same way
/// above an opening parenthesis.
proof fn lemma_run_on_top(base: Stacks, s: Stacks, tokens: Seq<Token>)
    requires
        ends_open(base),
        s.run(tokens) is Ok,
    ensures
        on_top(base, s).run(tokens) == Ok::<Stacks, StructuralError>(on_top(base, s.run(tokens)->Ok_0)),
    decreases tokens.len(),
{
    if tokens.len() > 0 {
        lemma_run_on_top(base, s, tokens.drop_last());
        lemma_step_on_top(base, s.run(tokens.drop_last())->Ok_0, tokens.last());
    }
}

/// Where the reductions at the end of the input succeed, a closing
/// parenthesis above an opening one does the same and removes its partner.
proof fn lemma_close_like_end(base: Stacks, s: Stacks)
    requires
        ends_open(base),
        s.reduce(Stop::End) is Ok,
    ensures
        on_top(base, s).reduce(Stop::Open) == Ok::<Stacks, StructuralError>(
            on_top(base.pop_op(), s.reduce(Stop::End)->Ok_0),
        ),
    decreases s.ops.len(),
{
    let whole = on_top(base, s);
    if s.ops.len() == 0 {
        assert(whole.ops =~= base.ops);
        assert(whole.pop_op() =~= on_top(base.pop_op(), s));
    } else {
        lemma_apply_top_on_top(base, s);
        lemma_close_like_end(base, s.apply_top()->Ok_0);
    }
}

/// A pair of parentheses around a token sequence that has a tree gives the
/// same tree.
pub proof fn lemma_parentheses_keep_tree(tokens: Seq<Token>)
    requires
        build(tokens) is Ok,
    ensures
        build(seq![open_token()] + tokens + seq![close_token()]) == build(tokens),
{
    let start = Stacks::empty();
    let base = start.push_op(Pending::Open);
    let read = start.run(tokens)->Ok_0;
    let last = read.reduce(Stop::End)->Ok_0;
    let inner = seq![open_token()] + tokens;
    let whole = inner + seq![close_token()];
    assert(start.run(seq![open_token()]) == Ok::<Stacks, StructuralError>(base)) by {
        assert(seq![open_token()].drop_last() =~= Seq::<Token>::empty());
        assert(start.run(Seq::<Token>::empty()) == Ok::<Stacks, StructuralError>(start));
    }
    lemma_run_concat(start, seq![open_token()], tokens);
    lemma_run_on_top(base, start, tokens);
    assert(on_top(base, start) =~= base);
    assert(start.run(inner) == Ok::<Stacks, StructuralError>(on_top(base, read)));
    assert(whole.drop_last() =~= inner);
    lemma_close_like_end(base, read);
    assert(on_top(base.pop_op(), last) =~= last);
    assert(start.run(whole) == Ok::<Stacks, StructuralError>(last));
    lemma_reduce_to_end_empties(read);
}

/// Any number of pairs of parentheses around a token sequence that has a
/// tree gives the same tree, and so the same value.
pub proof fn lemma_wrapped_keeps_tree(tokens: Seq<Token>, depth: nat)
    requires
        build(tokens) is Ok,
    ensures
        build(wrapped(tokens, depth)) == build(tokens),
    decreases depth,
{
    if depth > 0 {
        lemma_wrapped_keeps_tree(tokens, (depth - 1) as nat);
        lemma_parentheses_keep_tree(wrapped(tokens, (depth - 1) as nat));
    }
}

/// `text` inside `depth` pairs of parentheses.
pub open spec fn wrapped_text(text: Seq<char>, depth: nat) -> Seq<char>
    decreases depth,
{
    if depth == 0 {
        text
    } else {
        seq!['('] + wrapped_text(text, (depth - 1) as nat) + seq![')']
    }
}

/// `last` put behind the tokens of `first`; a failure stays as it is.
pub open spec fn followed_by(first: Result<Seq<Token>, LexError>, last: Token) -> Result<
    Seq<Token>,
    LexError,
> {
    match first {
        Ok(tokens) => Ok(tokens.push(last)),
        Err(e) => Err(e),
    }
}

/// A character that is no digit, put behind a text, changes no run of digits.
proof fn lemma_digit_run_before(s: Seq<char>, c: char, i: int)
    requires
        0 <= i <= s.len(),
        !is_digit(c),
    ensures
        digit_run(s.push(c), i) == digit_run(s, i),
    decreases s.len() - i,
{
    if i < s.len() && is_digit(s[i]) {
        lemma_digit_run_before(s, c, i + 1);
    }
}

/// A character put in front of a text moves every run of digits by one.
proof fn lemma_digit_run_behind(s: Seq<char>, c: char, i: int)
    requires
        0 <= i <= s.len(),
    ensures
        digit_run(seq![c] + s, i + 1) == digit_run(s, i),
    decreases s.len() - i,
{
    if i < s.len() && is_digit(s[i]) {
        lemma_digit_run_behind(s, c, i + 1);
    }
}

/// A closing parenthesis behind a text adds its token behind the tokens of
/// the text.
proof fn lemma_lex_before_close(s: Seq<char>, i: int, after_number: bool)
    requires
        0 <= i <= s.len(),
    ensures
        lex_from(s.push(')'), i, after_number) == followed_by(
            lex_from(s, i, after_number),
            close_token(),
        ),
    decreases s.len() - i,
{
    let longer = s.push(')');
    if i == s.len() {
        assert(lex_from(longer, i + 1, false) == Ok::<Seq<Token>, LexError>(Seq::empty()));
        assert(seq![close_token()] + Seq::<Token>::empty() =~= Seq::<Token>::empty().push(
            close_token(),
        ));
    } else if is_digit(s[i]) {
        let j = number_end(s, i);
        lemma_digit_run_before(s, ')', i + 1);
        lemma_digit_run_bounded(s, i + 1);
        assert(longer.subrange(i, j) =~= s.subrange(i, j));
        lemma_lex_before_close(s, j, true);
        lemma_prepend_followed_by(lex_from(s, j, true));
    } else {
        assert(keyword(longer, i) == keyword(s, i));
        let next = match keyword(s, i) {
            Some((_, n)) => i + n,
            None => i + 1,
        };
        lemma_lex_before_close(s, next, false);
        lemma_lex_before_close(s, next, after_number);
        lemma_prepend_followed_by(lex_from(s, next, false));
    }
}

/// Putting a token in front and another behind can be done in either order.
proof fn lemma_prepend_followed_by(rest: Result<Seq<Token>, LexError>)
    ensures
        forall|first: Token| #[trigger]
            prepend(first, followed_by(rest, close_token())) == followed_by(
                prepend(first, rest),
                close_token(),
            ),
{
    assert forall|first: Token| #[trigger]
        prepend(first, followed_by(rest, close_token())) == followed_by(
            prepend(first, rest),
            close_token(),
        ) by {
        if let Ok(tokens) = rest {
            assert(seq![first] + tokens.push(close_token()) =~= (seq![first] + tokens).push(
                close_token(),
            ));
        }
    }
}

/// An opening parenthesis in front of a text changes no token behind it.
proof fn lemma_lex_behind_open(s: Seq<char>, i: int, after_number: bool)
    requires
        0 <= i <= s.len(),
    ensures
        lex_from(seq!['('] + s, i + 1, after_number) == lex_from(s, i, after_number),
    decreases s.len() - i,
{
    let longer = seq!['('] + s;
    if i == s.len() {
    } else if is_digit(s[i]) {
        let j = number_end(s, i);
        lemma_digit_run_behind(s, '(', i + 1);
        lemma_digit_run_bounded(s, i + 1);
        assert(longer.subrange(i + 1, j + 1) =~= s.subrange(i, j));
        lemma_lex_behind_open(s, j, true);
    } else {
        assert(keyword(longer, i + 1) == keyword(s, i));
        let next = match keyword(s, i) {
            Some((_, n)) => i + n,
            None => i + 1,
        };
        lemma_lex_behind_open(s, next, false);
        lemma_lex_behind_open(s, next, after_number);
    }
}

/// The tokens of a text in parentheses are the tokens of the text between
/// the tokens of the two parentheses.
pub proof fn lemma_lex_in_parentheses(s: Seq<char>)
    ensures
        lex(seq!['('] + s + seq![')']) == followed_by(
            prepend(open_token(), lex(s)),
            close_token(),
        ),
{
    let inner = seq!['('] + s;
    assert(inner + seq![')'] =~= inner.push(')'));
    lemma_lex_before_close(inner, 0, false);
    lemma_lex_behind_open(s, 0, false);
}

/// The text of an expression that has a tree, put in any number of pairs of
/// parentheses, has the same tree, and so the same value.
pub proof fn lemma_wrapped_text_keeps_tree(s: Seq<char>, depth: nat)
    requires
        lex(s) is Ok,
        build(lex(s)->Ok_0) is Ok,
    ensures
        lex(wrapped_text(s, depth)) == Ok::<Seq<Token>, LexError>(wrapped(lex(s)->Ok_0, depth)),
        build(wrapped(lex(s)->Ok_0, depth)) == build(lex(s)->Ok_0),
    decreases depth,
{
    lemma_wrapped_keeps_tree(lex(s)->Ok_0, depth);
    if depth > 0 {
        let less = (depth - 1) as nat;
        lemma_wrapped_text_keeps_tree(s, less);
        lemma_lex_in_parentheses(wrapped_text(s, less));
        let tokens = wrapped(lex(s)->Ok_0, less);
        assert((seq![open_token()] + tokens).push(close_token()) =~= seq![open_token()] + tokens
            + seq![close_token()]);
    }
}

} // verus!
