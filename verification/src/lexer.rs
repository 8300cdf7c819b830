//! The lexer: from the text of an expression to its tokens.

use vstd::prelude::*;
use crate::error::LexError;
use crate::op::Op;
use crate::token::Token;

verus! {

/// Whether `c` is one of the decimal digits `0` to `9`.
pub open spec fn is_digit(c: char) -> bool {
    48 <= c as u32 <= 57
}

/// The number that the digit `c` stands for.
pub open spec fn digit_value(c: char) -> nat {
    if is_digit(c) {
        (c as u32 - 48) as nat
    } else {
        0
    }
}

/// How many digits stand in a row in `s` from position `i` on.
pub open spec fn digit_run(s: Seq<char>, i: int) -> nat
    decreases s.len() - i,
{
    if 0 <= i < s.len() && is_digit(s[i]) {
        1 + digit_run(s, i + 1)
    } else {
        0
    }
}

/// The position behind the run of digits that starts at position `i`.
pub open spec fn number_end(s: Seq<char>, i: int) -> int {
    i + 1 + digit_run(s, i + 1)
}

/// The number that `digits` denotes in base ten.
pub open spec fn decimal(digits: Seq<char>) -> nat
    decreases digits.len(),
{
    if digits.len() == 0 {
        0
    } else {
        decimal(digits.drop_last()) * 10 + digit_value(digits.last())
    }
}

/// Whether `s` has the character `c` at position `i`.
pub open spec fn at(s: Seq<char>, i: int, c: char) -> bool {
    0 <= i < s.len() && s[i] == c
}

/// Whether the character opens an operator keyword.
pub open spec fn is_keyword_start(c: char) -> bool {
    c == 'X' || c == 'O' || c == 'A' || c == 'S'
}

/// The operator keyword that starts at position `i` of `s`, with its length:
/// `XOR`, `OR`, `AND`, `SHL` or `SHR`, in upper case and in full.
pub open spec fn keyword(s: Seq<char>, i: int) -> Option<(Op, nat)> {
    if at(s, i, 'X') && at(s, i + 1, 'O') && at(s, i + 2, 'R') {
        Some((Op::Xor, 3nat))
    } else if at(s, i, 'O') && at(s, i + 1, 'R') {
        Some((Op::Or, 2nat))
    } else if at(s, i, 'A') && at(s, i + 1, 'N') && at(s, i + 2, 'D') {
        Some((Op::And, 3nat))
    } else if at(s, i, 'S') && at(s, i + 1, 'H') && at(s, i + 2, 'L') {
        Some((Op::Shl, 3nat))
    } else if at(s, i, 'S') && at(s, i + 1, 'H') && at(s, i + 2, 'R') {
        Some((Op::Shr, 3nat))
    } else {
        None
    }
}

/// The token that the single character `c` stands for, if any. A minus sign
/// is a subtraction directly after a number and a negation anywhere else.
pub open spec fn symbol(c: char, after_number: bool) -> Option<Token> {
    if c == '+' {
        Some(Token::Operator(Op::Add))
    } else if c == '-' {
        if after_number {
            Some(Token::Operator(Op::Sub))
        } else {
            Some(Token::Unary)
        }
    } else if c == '*' {
        Some(Token::Operator(Op::Mul))
    } else if c == '/' {
        Some(Token::Operator(Op::Div))
    } else if c == '(' || c == ')' {
        Some(Token::Parenthesis(c))
    } else {
        None
    }
}

/// `first` put in front of the tokens of `rest`; a failure stays as it is.
pub open spec fn prepend(first: Token, rest: Result<Seq<Token>, LexError>) -> Result<
    Seq<Token>,
    LexError,
> {
    match rest {
        Ok(tokens) => Ok(seq![first] + tokens),
        Err(e) => Err(e),
    }
}

/// The tokens of `s` from position `i` on, where `after_number` says whether
/// the last token before that position is a number.
///
/// A run of digits is one number, and fails where it exceeds `i32::MAX`. One
/// of the letters `X`, `O`, `A`, `S` must start a keyword. Every other
/// character that is no symbol is passed over.
pub open spec fn lex_from(s: Seq<char>, i: int, after_number: bool) -> Result<Seq<Token>, LexError>
    decreases s.len() - i,
{
    if i < 0 || i >= s.len() {
        Ok(Seq::empty())
    } else if is_digit(s[i]) {
        proof {
            lemma_digit_run_bounded(s, i + 1);
        }
        let j = number_end(s, i);
        let v = decimal(s.subrange(i, j));
        if v > i32::MAX {
            Err(LexError::Overflow)
        } else {
            prepend(Token::Number(v as i32), lex_from(s, j, true))
        }
    } else if is_keyword_start(s[i]) {
        match keyword(s, i) {
            Some((op, n)) => prepend(Token::Operator(op), lex_from(s, i + n, false)),
            None => Err(LexError::MalformedKeyword),
        }
    } else {
        match symbol(s[i], after_number) {
            Some(token) => prepend(token, lex_from(s, i + 1, false)),
            None => lex_from(s, i + 1, after_number),
        }
    }
}

/// The tokens of the text `s`.
pub open spec fn lex(s: Seq<char>) -> Result<Seq<Token>, LexError> {
    lex_from(s, 0, false)
}

/// Whether the last of `tokens` is a number.
pub open spec fn ends_with_number(tokens: Seq<Token>) -> bool {
    tokens.len() > 0 && tokens.last() is Number
}

/// `done` followed by the tokens of `rest`; a failure stays as it is.
pub open spec fn extend(done: Seq<Token>, rest: Result<Seq<Token>, LexError>) -> Result<
    Seq<Token>,
    LexError,
> {
    match rest {
        Ok(tokens) => Ok(done + tokens),
        Err(e) => Err(e),
    }
}

/// Emitting a token and lexing on is the same as lexing on behind it.
proof fn lemma_extend_prepend(done: Seq<Token>, first: Token, rest: Result<Seq<Token>, LexError>)
    ensures
        extend(done, prepend(first, rest)) == extend(done.push(first), rest),
{
    if let Ok(tokens) = rest {
        assert(done + (seq![first] + tokens) =~= done.push(first) + tokens);
    }
}

/// A run of digits ends within the text.
pub proof fn lemma_digit_run_bounded(s: Seq<char>, i: int)
    requires
        0 <= i <= s.len(),
    ensures
        i + digit_run(s, i) <= s.len(),
    decreases s.len() - i,
{
    if i < s.len() && is_digit(s[i]) {
        lemma_digit_run_bounded(s, i + 1);
    }
}

/// A longer run of characters from the same start denotes no smaller number.
proof fn lemma_decimal_grows(s: Seq<char>, i: int, j: int, k: int)
    requires
        0 <= i <= j <= k <= s.len(),
    ensures
        decimal(s.subrange(i, j)) <= decimal(s.subrange(i, k)),
    decreases k - j,
{
    if j < k {
        lemma_decimal_grows(s, i, j, k - 1);
        assert(s.subrange(i, k).drop_last() =~= s.subrange(i, k - 1));
    }
}

/// Tells whether a digit stands at position `i` of the text.
fn digit_at(s: &str, n: usize, i: usize) -> (yes: bool)
    requires
        n == s@.len(),
    ensures
        yes == (i < n && is_digit(s@[i as int])),
{
    if i < n {
        let u = s.get_char(i) as u32;
        48 <= u && u <= 57
    } else {
        false
    }
}

/// Reads the number whose first digit stands at position `i`. Gives its value
/// and the position behind its last digit, or nothing where the value
/// exceeds `i32::MAX`.
fn scan_number(s: &str, n: usize, i: usize) -> (found: Option<(i32, usize)>)
    requires
        n == s@.len(),
        i < n,
        is_digit(s@[i as int]),
    ensures
        match found {
            Some((v, j)) => j == number_end(s@, i as int) && j <= n && v == decimal(
                s@.subrange(i as int, j as int),
            ),
            None => decimal(s@.subrange(i as int, number_end(s@, i as int))) > i32::MAX,
        },
{
    proof {
        lemma_digit_run_bounded(s@, i as int);
    }
    let mut j: usize = i;
    let mut acc: i32 = 0;
    while digit_at(s, n, j)
        invariant
            n == s@.len(),
            i <= j <= n,
            j + digit_run(s@, j as int) == number_end(s@, i as int) <= n,
            acc == decimal(s@.subrange(i as int, j as int)),
        decreases n - j,
    {
        let d: i32 = (s.get_char(j) as u32 - 48) as i32;
        proof {
            assert(s@.subrange(i as int, j + 1).drop_last() =~= s@.subrange(i as int, j as int));
            lemma_decimal_grows(s@, i as int, j + 1, number_end(s@, i as int));
        }
        let shifted = match acc.checked_mul(10) {
            Some(x) => x,
            None => { return None; },
        };
        acc = match shifted.checked_add(d) {
            Some(x) => x,
            None => { return None; },
        };
        j = j + 1;
    }
    Some((acc, j))
}

/// Whether the characters of `word` stand in `s` from position `i` on.
pub open spec fn has_word(s: Seq<char>, i: int, word: Seq<char>) -> bool {
    0 <= i && i + word.len() <= s.len() && s.subrange(i, i + word.len()) == word
}

/// A word of one character stands where its character stands.
proof fn lemma_word_of_one(s: Seq<char>, i: int, a: char)
    ensures
        has_word(s, i, seq![a]) == at(s, i, a),
{
    if at(s, i, a) {
        assert(s.subrange(i, i + 1) =~= seq![a]);
    }
    if has_word(s, i, seq![a]) {
        assert(s.subrange(i, i + 1)[0] == a);
    }
}

/// A word of two characters stands where they stand one behind the other.
proof fn lemma_word_of_two(s: Seq<char>, i: int, a: char, b: char)
    ensures
        has_word(s, i, seq![a, b]) == (at(s, i, a) && at(s, i + 1, b)),
{
    if at(s, i, a) && at(s, i + 1, b) {
        assert(s.subrange(i, i + 2) =~= seq![a, b]);
    }
    if has_word(s, i, seq![a, b]) {
        assert(s.subrange(i, i + 2)[0] == a);
        assert(s.subrange(i, i + 2)[1] == b);
    }
}

/// Tells whether `expected` stands in the text from position `i` on.
fn consume(s: &str, n: usize, i: usize, expected: &str) -> (matched: bool)
    requires
        n == s@.len(),
        i <= n,
    ensures
        matched == has_word(s@, i as int, expected@),
{
    let m = expected.unicode_len();
    if n - i < m {
        return false;
    }
    let mut k: usize = 0;
    while k < m
        invariant
            n == s@.len(),
            m == expected@.len(),
            i + m <= n,
            k <= m,
            forall|j: int| 0 <= j < k ==> s@[i + j] == expected@[j],
        decreases m - k,
    {
        if s.get_char(i + k) != expected.get_char(k) {
            assert(s@.subrange(i as int, i + m)[k as int] != expected@[k as int]);
            return false;
        }
        k = k + 1;
    }
    assert(s@.subrange(i as int, i + m) =~= expected@);
    true
}

/// Reads the operator keyword that starts at position `i`. Gives the operator
/// and the position behind the keyword.
fn scan_keyword(s: &str, n: usize, i: usize) -> (found: Option<(Op, usize)>)
    requires
        n == s@.len(),
        i < n,
    ensures
        match found {
            Some((op, j)) => i < j <= n && keyword(s@, i as int) == Some((op, (j - i) as nat)),
            None => keyword(s@, i as int) is None,
        },
{
    proof {
        reveal_strlit("OR");
        reveal_strlit("R");
        reveal_strlit("ND");
        reveal_strlit("HL");
        reveal_strlit("HR");
        assert("OR"@ =~= seq!['O', 'R']);
        assert("R"@ =~= seq!['R']);
        assert("ND"@ =~= seq!['N', 'D']);
        assert("HL"@ =~= seq!['H', 'L']);
        assert("HR"@ =~= seq!['H', 'R']);
        lemma_word_of_two(s@, i + 1, 'O', 'R');
        lemma_word_of_one(s@, i + 1, 'R');
        lemma_word_of_two(s@, i + 1, 'N', 'D');
        lemma_word_of_two(s@, i + 1, 'H', 'L');
        lemma_word_of_two(s@, i + 1, 'H', 'R');
    }
    let c = s.get_char(i);
    if c == 'X' && consume(s, n, i + 1, "OR") {
        Some((Op::Xor, i + 3))
    } else if c == 'O' && consume(s, n, i + 1, "R") {
        Some((Op::Or, i + 2))
    } else if c == 'A' && consume(s, n, i + 1, "ND") {
        Some((Op::And, i + 3))
    } else if c == 'S' && consume(s, n, i + 1, "HL") {
        Some((Op::Shl, i + 3))
    } else if c == 'S' && consume(s, n, i + 1, "HR") {
        Some((Op::Shr, i + 3))
    } else {
        None
    }
}

/// The token for the single character `c`, if it is a symbol.
fn scan_symbol(c: char, after_number: bool) -> (found: Option<Token>)
    ensures
        found == symbol(c, after_number),
{
    if c == '+' {
        Some(Token::Operator(Op::Add))
    } else if c == '-' {
        if after_number {
            Some(Token::Operator(Op::Sub))
        } else {
            Some(Token::Unary)
        }
    } else if c == '*' {
        Some(Token::Operator(Op::Mul))
    } else if c == '/' {
        Some(Token::Operator(Op::Div))
    } else if c == '(' || c == ')' {
        Some(Token::Parenthesis(c))
    } else {
        None
    }
}

/// Splits the text of an expression into its tokens.
pub fn tokenize(expr: String) -> (result: Result<Vec<Token>, LexError>)
    ensures
        match result {
            Ok(tokens) => lex(expr@) == Ok::<Seq<Token>, LexError>(tokens@),
            Err(e) => lex(expr@) == Err::<Seq<Token>, LexError>(e),
        },
{
    let s = expr.as_str();
    let n = s.unicode_len();
    let mut tokens: Vec<Token> = Vec::new();
    let mut after_number = false;
    let mut i: usize = 0;
    assert(extend(tokens@, lex_from(s@, 0, false)) == lex(s@)) by {
        if let Ok(rest) = lex_from(s@, 0, false) {
            assert(tokens@ + rest =~= rest);
        }
    }
    while i < n
        invariant
            n == s@.len(),
            s@ == expr@,
            i <= n,
            after_number == ends_with_number(tokens@),
            lex(s@) == extend(tokens@, lex_from(s@, i as int, after_number)),
        decreases n - i,
    {
        let c = s.get_char(i);
        if digit_at(s, n, i) {
            match scan_number(s, n, i) {
                Some((v, j)) => {
                    proof {
                        lemma_extend_prepend(tokens@, Token::Number(v), lex_from(s@, j as int, true));
                    }
                    tokens.push(Token::Number(v));
                    after_number = true;
                    i = j;
                },
                None => {
                    return Err(LexError::Overflow);
                },
            }
        } else if c == 'X' || c == 'O' || c == 'A' || c == 'S' {
            match scan_keyword(s, n, i) {
                Some((op, j)) => {
                    proof {
                        lemma_extend_prepend(
                            tokens@,
                            Token::Operator(op),
                            lex_from(s@, j as int, false),
                        );
                    }
                    tokens.push(Token::Operator(op));
                    after_number = false;
                    i = j;
                },
                None => {
                    return Err(LexError::MalformedKeyword);
                },
            }
        } else {
            match scan_symbol(c, after_number) {
                Some(token) => {
                    proof {
                        lemma_extend_prepend(tokens@, token, lex_from(s@, i + 1, false));
                    }
                    tokens.push(token);
                    after_number = false;
                },
                None => {},
            }
            i = i + 1;
        }
    }
    assert(tokens@ + Seq::<Token>::empty() =~= tokens@);
    Ok(tokens)
}

} // verus!
