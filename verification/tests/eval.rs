use arith::{
    to_expression_tree, tokenize, ArithmeticError, BinaryExpressionTree, Item, LexError, Op,
    StructuralError, Token,
};

fn eval(expr: &str) -> i32 {
    to_expression_tree(tokenize(String::from(expr)).unwrap())
        .unwrap()
        .evaluate()
        .unwrap()
}

fn tokens(expr: &str) -> Vec<Token> {
    tokenize(String::from(expr)).unwrap()
}

fn leaf(v: i32) -> BinaryExpressionTree {
    BinaryExpressionTree::new(Item::Number(v))
}

fn node(op: Op, l: BinaryExpressionTree, r: BinaryExpressionTree) -> BinaryExpressionTree {
    BinaryExpressionTree::from(Item::Operator(op), l, r)
}

fn count(tree: &BinaryExpressionTree) -> (usize, usize) {
    match (&tree.left, &tree.right) {
        (Some(l), Some(r)) => {
            let (ll, ln) = count(l);
            let (rl, rn) = count(r);
            (ll + rl, ln + rn + 1)
        }
        _ => (1, 0),
    }
}

#[test]
fn test_eval() {
    let expressions = vec![
        ("3", 3),
        ("3 + 4", 7),
        ("3 - 4", -1),
        ("3 * 4", 12),
        ("3 / 3", 1),
        ("6 / 3", 2),
        ("3 * (4 + 2)", 18),
        ("3 + 4 * (4 + 2)", 27),
        ("(3) * (4 + 2)", 18),
        ("(((3)))", 3),
        ("-3", -3),
        ("3 + -4", -1),
        ("3*-(4+2)", -18),
        ("27 XOR 9", 27 ^ 9),
        ("6 AND 6", 6),
        ("200 OR 1", 201),
    ];
    for (expr, res) in expressions {
        assert_eq!(
            to_expression_tree(tokenize(String::from(expr)).unwrap())
                .unwrap()
                .evaluate()
                .unwrap(),
            res
        );
    }
}

#[test]
fn subtraction_associates_to_the_left() {
    assert_eq!(eval("3 - 4 - 2"), -3);
    assert_eq!(eval("100 / 10 / 5"), 2);
}

#[test]
fn multiplication_binds_tighter_than_addition() {
    assert_eq!(eval("3 + 4 * (4 + 2)"), 27);
    assert_eq!(eval("3 * (4 + 2)"), 18);
    assert_eq!(eval("2 * 3 + 4"), 10);
    assert_eq!(eval("2 + 3 * 4 - 5"), 9);
}

#[test]
fn bitwise_operators_bind_less_tightly_than_arithmetic() {
    assert_eq!(eval("1 OR 2 AND 4"), 1);
    assert_eq!(eval("1 + 2 AND 3"), 3);
    assert_eq!(eval("6 XOR 2 + 1"), 6 ^ 3);
    assert_eq!(eval("12 OR 3"), 15);
}

#[test]
fn shifts_bind_like_multiplication() {
    assert_eq!(eval("1 + 1 SHL 3"), 9);
    assert_eq!(eval("16 SHR 2"), 4);
    assert_eq!(eval("1 SHL 31"), i32::MIN);
}

#[test]
fn parentheses_do_not_change_the_value() {
    assert_eq!(eval("(((3)))"), 3);
    assert_eq!(eval("3 + 4 * 2"), eval("(3 + 4 * 2)"));
    assert_eq!(eval("3 + 4 * 2"), eval("((((3 + 4 * 2))))"));
    let plain = to_expression_tree(tokens("1 + 2 * -3")).unwrap();
    let wrapped = to_expression_tree(tokens("((1 + 2 * -3))")).unwrap();
    assert_eq!(plain, wrapped);
}

#[test]
fn negation_is_zero_minus_the_operand() {
    assert_eq!(eval("-3"), -3);
    assert_eq!(eval("3 + -4"), -1);
    assert_eq!(eval("3*-(4+2)"), -18);
    assert_eq!(eval("--3"), 3);
    let tree = to_expression_tree(tokens("-3")).unwrap();
    assert_eq!(tree, node(Op::Sub, leaf(0), leaf(3)));
}

#[test]
fn extended_operators() {
    assert_eq!(eval("27 XOR 9"), 27 ^ 9);
    assert_eq!(eval("6 AND 6"), 6);
    assert_eq!(eval("200 OR 1"), 201);
    assert_eq!(eval("8 OR 1"), 9);
}

#[test]
fn tokenize_gives_the_tokens_in_order() {
    assert_eq!(
        tokens("3 + 4 * (4 + 2)"),
        vec![
            Token::Number(3),
            Token::Operator(Op::Add),
            Token::Number(4),
            Token::Operator(Op::Mul),
            Token::Parenthesis('('),
            Token::Number(4),
            Token::Operator(Op::Add),
            Token::Number(2),
            Token::Parenthesis(')'),
        ]
    );
    assert_eq!(
        tokens("1 AND 2 OR 3 XOR 4 SHL 5 SHR 6 / 7"),
        vec![
            Token::Number(1),
            Token::Operator(Op::And),
            Token::Number(2),
            Token::Operator(Op::Or),
            Token::Number(3),
            Token::Operator(Op::Xor),
            Token::Number(4),
            Token::Operator(Op::Shl),
            Token::Number(5),
            Token::Operator(Op::Shr),
            Token::Number(6),
            Token::Operator(Op::Div),
            Token::Number(7),
        ]
    );
}

#[test]
fn tokenize_reads_a_run_of_digits_as_one_number() {
    assert_eq!(tokens("1234"), vec![Token::Number(1234)]);
    assert_eq!(tokens("007"), vec![Token::Number(7)]);
    assert_eq!(tokens("12 34"), vec![Token::Number(12), Token::Number(34)]);
    assert_eq!(tokens("2147483647"), vec![Token::Number(i32::MAX)]);
    assert_eq!(tokens("0000000000002147483647"), vec![Token::Number(i32::MAX)]);
}

#[test]
fn tokenize_tells_negation_from_subtraction() {
    assert_eq!(tokens("-3"), vec![Token::Unary, Token::Number(3)]);
    assert_eq!(
        tokens("3 - 4"),
        vec![Token::Number(3), Token::Operator(Op::Sub), Token::Number(4)]
    );
    assert_eq!(
        tokens("3 - -4"),
        vec![Token::Number(3), Token::Operator(Op::Sub), Token::Unary, Token::Number(4)]
    );
    assert_eq!(
        tokens("(-4"),
        vec![Token::Parenthesis('('), Token::Unary, Token::Number(4)]
    );
    assert_eq!(
        tokens("(3) - 4"),
        vec![
            Token::Parenthesis('('),
            Token::Number(3),
            Token::Parenthesis(')'),
            Token::Unary,
            Token::Number(4),
        ]
    );
}

#[test]
fn tokenize_skips_other_characters() {
    assert_eq!(tokens(""), vec![]);
    assert_eq!(tokens("  \t\n"), vec![]);
    assert_eq!(tokens("a3b"), vec![Token::Number(3)]);
    assert_eq!(tokens("xor"), vec![]);
    assert_eq!(tokens("1 \u{e9} 2"), vec![Token::Number(1), Token::Number(2)]);
}

#[test]
fn tokenize_rejects_a_number_that_is_too_large() {
    assert_eq!(tokenize(String::from("2147483648")), Err(LexError::Overflow));
    assert_eq!(tokenize(String::from("1 + 99999999999999999999")), Err(LexError::Overflow));
}

#[test]
fn tokenize_rejects_a_broken_keyword() {
    assert_eq!(tokenize(String::from("1 ANX 2")), Err(LexError::MalformedKeyword));
    assert_eq!(tokenize(String::from("1 X")), Err(LexError::MalformedKeyword));
    assert_eq!(tokenize(String::from("1 XO")), Err(LexError::MalformedKeyword));
    assert_eq!(tokenize(String::from("1 O 2")), Err(LexError::MalformedKeyword));
    assert_eq!(tokenize(String::from("1 SH 2")), Err(LexError::MalformedKeyword));
    assert_eq!(tokenize(String::from("1 SHX 2")), Err(LexError::MalformedKeyword));
    assert_eq!(tokenize(String::from("S")), Err(LexError::MalformedKeyword));
}

#[test]
fn builder_rejects_an_unmatched_closing_parenthesis() {
    assert_eq!(to_expression_tree(tokens("3)")), Err(StructuralError::UnmatchedClose));
    assert_eq!(to_expression_tree(tokens("(3))")), Err(StructuralError::UnmatchedClose));
    assert_eq!(to_expression_tree(tokens(")")), Err(StructuralError::UnmatchedClose));
}

#[test]
fn builder_rejects_an_unmatched_opening_parenthesis() {
    assert_eq!(to_expression_tree(tokens("(3")), Err(StructuralError::UnmatchedOpen));
    assert_eq!(to_expression_tree(tokens("((3)")), Err(StructuralError::UnmatchedOpen));
}

#[test]
fn builder_rejects_the_empty_input() {
    assert_eq!(to_expression_tree(tokens("")), Err(StructuralError::MissingOperand));
    assert_eq!(to_expression_tree(Vec::new()), Err(StructuralError::MissingOperand));
    assert_eq!(to_expression_tree(tokens("()")), Err(StructuralError::MissingOperand));
}

#[test]
fn builder_rejects_a_missing_operand() {
    assert_eq!(to_expression_tree(tokens("3 +")), Err(StructuralError::MissingOperand));
    assert_eq!(to_expression_tree(tokens("* 3")), Err(StructuralError::MissingOperand));
    assert_eq!(to_expression_tree(tokens("-")), Err(StructuralError::MissingOperand));
    assert_eq!(to_expression_tree(tokens("3 + * 4")), Err(StructuralError::MissingOperand));
}

#[test]
fn builder_rejects_operands_without_an_operator() {
    assert_eq!(to_expression_tree(tokens("3 4")), Err(StructuralError::ExtraOperand));
    assert_eq!(to_expression_tree(tokens("(3)(4)")), Err(StructuralError::ExtraOperand));
}

#[test]
fn builder_passes_over_a_parenthesis_token_of_another_character() {
    let tree = to_expression_tree(vec![
        Token::Number(1),
        Token::Parenthesis('['),
        Token::Operator(Op::Add),
        Token::Number(2),
    ])
    .unwrap();
    assert_eq!(tree, node(Op::Add, leaf(1), leaf(2)));
}

#[test]
fn builder_gives_the_tree_by_precedence() {
    let tree = to_expression_tree(tokens("3 + 4 * (4 + 2)")).unwrap();
    let expected = node(
        Op::Add,
        leaf(3),
        node(Op::Mul, leaf(4), node(Op::Add, leaf(4), leaf(2))),
    );
    assert_eq!(tree, expected);
    let tree = to_expression_tree(tokens("3 - 4 - 2")).unwrap();
    assert_eq!(tree, node(Op::Sub, node(Op::Sub, leaf(3), leaf(4)), leaf(2)));
}

#[test]
fn tree_has_a_leaf_for_each_number_and_negation() {
    let ts = tokens("1 - 3 + 4 * (4 + 2)");
    let tree = to_expression_tree(ts).unwrap();
    assert_eq!(count(&tree), (5, 4));
    let tree = to_expression_tree(tokens("3*-(4+2)")).unwrap();
    assert_eq!(count(&tree), (4, 3));
}

#[test]
fn division_by_zero_is_an_arithmetic_error() {
    let tree = to_expression_tree(tokens("3 / 0")).unwrap();
    assert_eq!(tree.evaluate(), Err(ArithmeticError::DivisionByZero));
    assert_eq!(Op::Mod.apply(3, 0), Err(ArithmeticError::DivisionByZero));
    let tree = to_expression_tree(tokens("1 + 4 / (2 - 2)")).unwrap();
    assert_eq!(tree.evaluate(), Err(ArithmeticError::DivisionByZero));
}

#[test]
fn overflow_is_an_arithmetic_error() {
    let tree = to_expression_tree(tokens("2147483647 + 1")).unwrap();
    assert_eq!(tree.evaluate(), Err(ArithmeticError::Overflow));
    assert_eq!(Op::Sub.apply(i32::MIN, 1), Err(ArithmeticError::Overflow));
    assert_eq!(Op::Mul.apply(65536, 65536), Err(ArithmeticError::Overflow));
    assert_eq!(Op::Div.apply(i32::MIN, -1), Err(ArithmeticError::Overflow));
    assert_eq!(Op::Mod.apply(i32::MIN, -1), Err(ArithmeticError::Overflow));
    assert_eq!(Op::Shl.apply(1, 32), Err(ArithmeticError::Overflow));
    assert_eq!(Op::Shr.apply(1, -1), Err(ArithmeticError::Overflow));
}

#[test]
fn the_left_failure_comes_first() {
    let tree = node(
        Op::Add,
        node(Op::Div, leaf(1), leaf(0)),
        node(Op::Add, leaf(i32::MAX), leaf(1)),
    );
    assert_eq!(tree.evaluate(), Err(ArithmeticError::DivisionByZero));
}

#[test]
fn apply_computes_each_operator() {
    assert_eq!(Op::Add.apply(3, 4), Ok(7));
    assert_eq!(Op::Sub.apply(3, 4), Ok(-1));
    assert_eq!(Op::Mul.apply(-3, 4), Ok(-12));
    assert_eq!(Op::Div.apply(7, 2), Ok(3));
    assert_eq!(Op::Div.apply(-7, 2), Ok(-3));
    assert_eq!(Op::Div.apply(7, -2), Ok(-3));
    assert_eq!(Op::Div.apply(-7, -2), Ok(3));
    assert_eq!(Op::Mod.apply(7, 3), Ok(1));
    assert_eq!(Op::Mod.apply(-7, 3), Ok(-1));
    assert_eq!(Op::Mod.apply(7, -3), Ok(1));
    assert_eq!(Op::And.apply(12, 10), Ok(8));
    assert_eq!(Op::Or.apply(12, 10), Ok(14));
    assert_eq!(Op::Xor.apply(12, 10), Ok(6));
    assert_eq!(Op::Shl.apply(3, 4), Ok(48));
    assert_eq!(Op::Shr.apply(-16, 2), Ok(-4));
}

#[test]
fn precedence_levels() {
    assert_eq!(Op::Or.precedence(), -2);
    assert_eq!(Op::Xor.precedence(), -2);
    assert_eq!(Op::And.precedence(), -1);
    assert_eq!(Op::Add.precedence(), 0);
    assert_eq!(Op::Sub.precedence(), 0);
    assert_eq!(Op::Mul.precedence(), 1);
    assert_eq!(Op::Div.precedence(), 1);
    assert_eq!(Op::Mod.precedence(), 1);
    assert_eq!(Op::Shl.precedence(), 1);
    assert_eq!(Op::Shr.precedence(), 1);
}

#[test]
fn new_and_from_build_nodes() {
    let l = leaf(5);
    assert_eq!(l.root, Item::Number(5));
    assert!(l.left.is_none() && l.right.is_none());
    assert_eq!(l.evaluate(), Ok(5));
    let n = node(Op::Mul, leaf(5), leaf(6));
    assert_eq!(n.root, Item::Operator(Op::Mul));
    assert_eq!(n.left.as_deref(), Some(&leaf(5)));
    assert_eq!(n.right.as_deref(), Some(&leaf(6)));
    assert_eq!(n.evaluate(), Ok(30));
}

#[test]
fn each_failure_has_a_message() {
    assert_eq!(LexError::Overflow.message(), "number too large");
    assert_eq!(LexError::MalformedKeyword.message(), "malformed operator keyword");
    assert_eq!(
        StructuralError::UnmatchedClose.message(),
        "closing parenthesis without an opening one"
    );
    assert_eq!(
        StructuralError::UnmatchedOpen.message(),
        "opening parenthesis without a closing one"
    );
    assert_eq!(StructuralError::MissingOperand.message(), "missing operand");
    assert_eq!(StructuralError::ExtraOperand.message(), "operand without an operator");
    assert_eq!(ArithmeticError::DivisionByZero.message(), "division by zero");
    assert_eq!(ArithmeticError::Overflow.message(), "arithmetic overflow");
}

#[test]
fn a_minus_behind_a_closing_parenthesis_is_a_negation() {
    assert_eq!(
        to_expression_tree(tokens("2*(3+4)-1")),
        Err(StructuralError::ExtraOperand)
    );
    assert_eq!(to_expression_tree(tokens("(3) - 4")), Err(StructuralError::ExtraOperand));
}

#[test]
fn text_without_blanks_is_read_back() {
    let tree = node(
        Op::Sub,
        node(Op::Sub, leaf(10), node(Op::Mul, leaf(2), leaf(3))),
        node(Op::Div, node(Op::Add, leaf(4), leaf(5)), leaf(3)),
    );
    assert_eq!(to_expression_tree(tokens("10-2*3-(4+5)/3")), Ok(tree));
    assert_eq!(eval("10-2*3-(4+5)/3"), 1);
    let tree = node(Op::Sub, leaf(1), node(Op::Sub, leaf(2), leaf(3)));
    assert_eq!(to_expression_tree(tokens("1-(2-3)")), Ok(tree));
    assert_eq!(eval("1-(2-3)"), 2);
}

#[test]
fn division_rounds_toward_zero() {
    assert_eq!(eval("7 / 2"), 3);
    assert_eq!(eval("-7 / 2"), -3);
    assert_eq!(eval("(0 - 7) / 2"), -3);
}
