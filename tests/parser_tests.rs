use keynes::ast::{
    BooleanLiteral, CallExpression, Expression, ExpressionStatement, IdentifierLiteral,
    InfixExpression, InfixOperator, IntegerLiteral, LetStatement, Precedence, PrefixOperator,
    Program, ReturnStatement, Statement,
};
use keynes::grammar::ParseError;
use keynes::lexer::{Lexer, Token};
use keynes::parser::{lex_and_parse, parse_i64, Parser};

fn parse_clean(input: &str) -> Program {
    let (program, errors) = lex_and_parse(input.to_string());
    assert!(errors.is_empty(), "unexpected diagnostics: {:?}", errors);
    program
}

fn rendered(input: &str) -> String {
    parse_clean(input).to_string()
}

fn integer(value: i64) -> Expression {
    Expression::Integer(IntegerLiteral { value })
}

fn identifier(name: &str) -> IdentifierLiteral {
    IdentifierLiteral { value: name.to_string() }
}

fn tokens_of(input: &str) -> Vec<Token> {
    let mut lexer = Lexer::new(input.to_string());
    let mut out = Vec::new();
    loop {
        let t = lexer.next_token();
        let end = t == Token::EOF;
        out.push(t);
        if end {
            return out;
        }
    }
}

#[test]
fn test_let_statements() {
    let input = "\r\n    let x = 5;\r\n    let mut y = 10;\r\n    let foobar = 838383;\r\n    ";
    let program = parse_clean(input);
    assert_eq!(program.statements.len(), 3);
    let expected = [(false, "x", 5), (true, "y", 10), (false, "foobar", 838383)];
    for (statement, (mutable, name, value)) in program.statements.iter().zip(expected.iter()) {
        match statement {
            Statement::Let(LetStatement { mutable: m, name: n, value: v }) => {
                assert_eq!(m, mutable);
                assert_eq!(n, &identifier(name));
                assert_eq!(v, &integer(*value));
            },
            other => panic!("expected a let statement, got {:?}", other),
        }
    }
}

#[test]
fn test_return_statment() {
    let input = "\r\n    return 5;\r\n    return 10;\r\n    return 993322;\r\n    ";
    let program = parse_clean(input);
    assert_eq!(program.statements.len(), 3);
    for (statement, value) in program.statements.iter().zip([5, 10, 993322].iter()) {
        match statement {
            Statement::Return(ReturnStatement { expression }) => {
                assert_eq!(expression, &integer(*value));
            },
            other => panic!("expected a return statement, got {:?}", other),
        }
    }
}

#[test]
fn test_identifier_expression() {
    let program = parse_clean("foobar;");
    assert_eq!(program.statements.len(), 1);
    match &program.statements[0] {
        Statement::Expression(ExpressionStatement { expression }) => {
            assert_eq!(expression, &Expression::Identifier(identifier("foobar")));
        },
        other => panic!("expected an expression statement, got {:?}", other),
    }
}

#[test]
fn test_integer_literal_expression() {
    let program = parse_clean("5;");
    assert_eq!(program.statements.len(), 1);
    match &program.statements[0] {
        Statement::Expression(ExpressionStatement { expression }) => {
            assert_eq!(expression, &integer(5));
        },
        other => panic!("expected an expression statement, got {:?}", other),
    }
}

#[test]
fn test_call_expression() {
    let program = parse_clean("add(1, 2 * 3, 4 + 5);");
    assert_eq!(program.statements.len(), 1);
    let expression = match &program.statements[0] {
        Statement::Expression(ExpressionStatement { expression }) => expression,
        other => panic!("expected an expression statement, got {:?}", other),
    };
    let CallExpression { function, arguments } = match expression {
        Expression::Call(c) => c,
        other => panic!("expected a call, got {:?}", other),
    };
    assert_eq!(function.as_ref(), &Expression::Identifier(identifier("add")));
    assert_eq!(arguments.len(), 3);
    assert_eq!(arguments[0], integer(1));
    match &arguments[1] {
        Expression::Infix(InfixExpression { operator, left, right }) => {
            assert_eq!(operator, &InfixOperator::MULTIPLY);
            assert_eq!(left.as_ref(), &integer(2));
            assert_eq!(right.as_ref(), &integer(3));
        },
        other => panic!("expected an infix expression, got {:?}", other),
    }
    match &arguments[2] {
        Expression::Infix(InfixExpression { operator, left, right }) => {
            assert_eq!(operator, &InfixOperator::PLUS);
            assert_eq!(left.as_ref(), &integer(4));
            assert_eq!(right.as_ref(), &integer(5));
        },
        other => panic!("expected an infix expression, got {:?}", other),
    }
}

#[test]
fn renders_prefix_bang_number() {
    assert_eq!(rendered("!5;"), "(!5)");
}

#[test]
fn renders_prefix_minus_number() {
    assert_eq!(rendered("-15;"), "(-15)");
}

#[test]
fn renders_prefix_bang_true() {
    assert_eq!(rendered("!true;"), "(!true)");
}

#[test]
fn renders_prefix_bang_false() {
    assert_eq!(rendered("!false;"), "(!false)");
}

#[test]
fn renders_infix_plus() {
    assert_eq!(rendered("5 + 6;"), "(5 + 6)");
}

#[test]
fn renders_infix_minus() {
    assert_eq!(rendered("5 - 6;"), "(5 - 6)");
}

#[test]
fn renders_infix_multiply() {
    assert_eq!(rendered("5 * 6;"), "(5 * 6)");
}

#[test]
fn renders_infix_divide() {
    assert_eq!(rendered("5 / 6;"), "(5 / 6)");
}

#[test]
fn renders_infix_greater() {
    assert_eq!(rendered("5 > 6;"), "(5 > 6)");
}

#[test]
fn renders_infix_less() {
    assert_eq!(rendered("5 < 6;"), "(5 < 6)");
}

#[test]
fn renders_infix_equal() {
    assert_eq!(rendered("5 == 6;"), "(5 == 6)");
}

#[test]
fn renders_infix_not_equal() {
    assert_eq!(rendered("5 != 6;"), "(5 != 6)");
}

#[test]
fn renders_infix_true_eq_true() {
    assert_eq!(rendered("true == true"), "(true == true)");
}

#[test]
fn renders_infix_true_ne_false() {
    assert_eq!(rendered("true != false"), "(true != false)");
}

#[test]
fn renders_infix_false_eq_false() {
    assert_eq!(rendered("false == false"), "(false == false)");
}

#[test]
fn renders_infix_less_equal() {
    assert_eq!(rendered("5 <= 6;"), "(5 <= 6)");
}

#[test]
fn renders_infix_greater_equal() {
    assert_eq!(rendered("5 >= 6;"), "(5 >= 6)");
}

#[test]
fn renders_precedence_minus() {
    assert_eq!(rendered("-a * b"), "((-a) * b)");
}

#[test]
fn renders_precedence_bang() {
    assert_eq!(rendered("!-a"), "(!(-a))");
}

#[test]
fn renders_precedence_plus() {
    assert_eq!(rendered("a + b + c"), "((a + b) + c)");
}

#[test]
fn renders_precedence_minus_and_plus() {
    assert_eq!(rendered("a + b - c"), "((a + b) - c)");
}

#[test]
fn renders_precedence_multiply() {
    assert_eq!(rendered("a * b * c"), "((a * b) * c)");
}

#[test]
fn renders_precedence_divide() {
    assert_eq!(rendered("a * b / c"), "((a * b) / c)");
}

#[test]
fn renders_precedence_plus_and_divide() {
    assert_eq!(rendered("a + b / c"), "(a + (b / c))");
}

#[test]
fn renders_precedence_mixed_arithmetic() {
    assert_eq!(rendered("a + b * c + d / e - f"), "(((a + (b * c)) + (d / e)) - f)");
}

#[test]
fn renders_precedence_semicolon() {
    assert_eq!(rendered("3 + 4; -5 * 5"), "(3 + 4)((-5) * 5)");
}

#[test]
fn renders_precedence_gt_eq_lt() {
    assert_eq!(rendered("5 > 4 == 3 < 4"), "((5 > 4) == (3 < 4))");
}

#[test]
fn renders_precedence_lt_ne_gt() {
    assert_eq!(rendered("5 < 4 != 3 > 4"), "((5 < 4) != (3 > 4))");
}

#[test]
fn renders_precedence_transitive() {
    assert_eq!(rendered("3 + 4 * 5 == 3 * 1 + 4 * 5"), "((3 + (4 * 5)) == ((3 * 1) + (4 * 5)))");
}

#[test]
fn renders_precedence_true() {
    assert_eq!(rendered("true"), "true");
}

#[test]
fn renders_precedence_false() {
    assert_eq!(rendered("false"), "false");
}

#[test]
fn renders_precedence_gt_eq_false() {
    assert_eq!(rendered("3 > 5 == false"), "((3 > 5) == false)");
}

#[test]
fn renders_precedence_lt_eq_true() {
    assert_eq!(rendered("3 < 5 == true"), "((3 < 5) == true)");
}

#[test]
fn renders_precedence_grouping() {
    assert_eq!(rendered("1 + (2 + 3) + 4"), "((1 + (2 + 3)) + 4)");
}

#[test]
fn renders_precedence_grouping_multiply() {
    assert_eq!(rendered("(5 + 5) * 2"), "((5 + 5) * 2)");
}

#[test]
fn renders_precedence_divide_grouping() {
    assert_eq!(rendered("2 / (5 + 5)"), "(2 / (5 + 5))");
}

#[test]
fn renders_precedence_minus_grouping() {
    assert_eq!(rendered("-(5 + 5)"), "(-(5 + 5))");
}

#[test]
fn renders_precedence_bang_grouping() {
    assert_eq!(rendered("!(true == true)"), "(!(true == true))");
}

#[test]
fn renders_precedence_call_in_sum() {
    assert_eq!(rendered("a + add(b * c) + d"), "((a + add((b * c))) + d)");
}

#[test]
fn renders_precedence_call_arguments() {
    assert_eq!(rendered("add(a, b, 1, 2 * 3, 4 + 5, add(6, 7 * 8))"), "add(a, b, 1, (2 * 3), (4 + 5), add(6, (7 * 8)))");
}

#[test]
fn renders_precedence_call_single_argument() {
    assert_eq!(rendered("add(a + b + c * d / f + g)"), "add((((a + b) + ((c * d) / f)) + g))");
}

#[test]
fn renders_if_without_alternative() {
    assert_eq!(rendered("if (x < y) { x }"), "if ((x < y)) {{ x }} ");
}

#[test]
fn renders_if_with_alternative() {
    assert_eq!(rendered("if (x < y) { x } else { y }"), "if ((x < y)) {{ x }} else {{ y }}");
}

#[test]
fn renders_function_literal() {
    assert_eq!(rendered("fn(x, y) { x + y; }"), "fn(x, y) { (x + y) }");
    assert_eq!(rendered("fn() { return x; }"), "fn() { return x; }");
}

#[test]
fn renders_call_of_function_literal() {
    assert_eq!(rendered("fn(x) { x }(1, 2 * 3)"), "fn(x) { x }(1, (2 * 3))");
}

#[test]
fn renders_let_and_return() {
    assert_eq!(rendered("let x = 5; let mut y = 10;"), "let x = 5;let mut y = 10;");
    assert_eq!(rendered("return a + b"), "return (a + b);");
}

#[test]
fn let_statements_carry_mutability_names_and_values() {
    let program = parse_clean("let x = 5; let mut y = 10;");
    assert_eq!(
        program.statements,
        vec![
            Statement::Let(LetStatement { mutable: false, name: identifier("x"), value: integer(5) }),
            Statement::Let(LetStatement { mutable: true, name: identifier("y"), value: integer(10) }),
        ]
    );
}

#[test]
fn return_statements_carry_values() {
    let program = parse_clean("return 5; return 993322;");
    assert_eq!(
        program.statements,
        vec![
            Statement::Return(ReturnStatement { expression: integer(5) }),
            Statement::Return(ReturnStatement { expression: integer(993322) }),
        ]
    );
}

#[test]
fn boolean_and_prefix_nodes() {
    let program = parse_clean("!true");
    match &program.statements[0] {
        Statement::Expression(ExpressionStatement { expression: Expression::Prefix(p) }) => {
            assert_eq!(p.operator, PrefixOperator::BANG);
            assert_eq!(p.right.as_ref(), &Expression::Boolean(BooleanLiteral { value: true }));
        },
        other => panic!("expected a prefix expression, got {:?}", other),
    }
}

#[test]
fn canonical_text_is_a_fixed_point() {
    for input in ["a + b * c + d / e - f", "add(a, b, 1, 2 * 3, 4 + 5, add(6, 7 * 8))", "!-a", "let x = 1 + 2 * 3;", "return -(5 + 5);"] {
        let once = rendered(input);
        let twice = rendered(&once);
        assert_eq!(once, twice);
    }
}

#[test]
fn missing_assign_is_reported() {
    let (program, errors) = lex_and_parse("let x 5;".to_string());
    assert!(!errors.is_empty());
    assert_eq!(
        errors[0],
        ParseError::UnexpectedToken { expected: Token::ASSIGN, got: Token::INTEGER("5".to_string()) }
    );
    assert!(program.statements.iter().all(|s| !matches!(s, Statement::Let(_))));
}

#[test]
fn missing_identifier_is_reported() {
    let (_, errors) = lex_and_parse("let = 5;".to_string());
    assert_eq!(errors[0], ParseError::ExpectedIdentifier { got: Token::ASSIGN });
}

#[test]
fn missing_prefix_rule_is_reported() {
    let (program, errors) = lex_and_parse("+;".to_string());
    assert_eq!(errors[0], ParseError::NoPrefixParse { token: Token::PLUS });
    assert!(program.statements.is_empty());
}

#[test]
fn oversized_integer_is_reported() {
    let (_, errors) = lex_and_parse("99999999999999999999".to_string());
    assert_eq!(errors, vec![ParseError::InvalidInteger { text: "99999999999999999999".to_string() }]);
}

#[test]
fn missing_closing_paren_is_reported() {
    let (_, errors) = lex_and_parse("(1 + 2".to_string());
    assert_eq!(errors[0], ParseError::UnexpectedToken { expected: Token::RPAREN, got: Token::EOF });
}

#[test]
fn parsing_goes_on_after_a_failure() {
    let (program, errors) = lex_and_parse("let x 5; let y = 7;".to_string());
    assert!(!errors.is_empty());
    assert!(program.statements.contains(&Statement::Let(LetStatement {
        mutable: false,
        name: identifier("y"),
        value: integer(7),
    })));
}

#[test]
fn unterminated_block_stops_at_end_of_input() {
    assert_eq!(rendered("fn(x) { x"), "fn(x) { x }");
}

#[test]
fn parser_reports_errors_through_check() {
    let mut lexer = Lexer::new("let x 5;".to_string());
    let mut parser = Parser::new(&mut lexer);
    let _ = parser.parse_program();
    assert!(!parser.check_parser_errors());
    let mut lexer = Lexer::new("let x = 5;".to_string());
    let mut parser = Parser::new(&mut lexer);
    let _ = parser.parse_program();
    assert!(parser.check_parser_errors());
}

#[test]
fn integer_text_conversion() {
    assert_eq!(parse_i64(&"0".to_string()), Some(0));
    assert_eq!(parse_i64(&"9223372036854775807".to_string()), Some(i64::MAX));
    assert_eq!(parse_i64(&"9223372036854775808".to_string()), None);
    assert_eq!(parse_i64(&"12a".to_string()), None);
    assert_eq!(parse_i64(&"".to_string()), None);
    assert_eq!(parse_i64(&"٣".to_string()), None);
}

#[test]
fn lexer_operators_and_keywords() {
    assert_eq!(
        tokens_of("let five = 5; fn(x) { x == 1 != 2 <= 3 >= 4 < 5 > 6 } a..b"),
        vec![
            Token::LET,
            Token::IDENTIFIER("five".to_string()),
            Token::ASSIGN,
            Token::INTEGER("5".to_string()),
            Token::SEMICOLON,
            Token::FUNCTION,
            Token::LPAREN,
            Token::IDENTIFIER("x".to_string()),
            Token::RPAREN,
            Token::LBRACE,
            Token::IDENTIFIER("x".to_string()),
            Token::EQUAL,
            Token::INTEGER("1".to_string()),
            Token::NOT_EQUAL,
            Token::INTEGER("2".to_string()),
            Token::LESS_THAN_EQUAL,
            Token::INTEGER("3".to_string()),
            Token::GREATER_THAN_EQUAL,
            Token::INTEGER("4".to_string()),
            Token::LESS_THAN,
            Token::INTEGER("5".to_string()),
            Token::GREATER_THAN,
            Token::INTEGER("6".to_string()),
            Token::RBRACE,
            Token::IDENTIFIER("a".to_string()),
            Token::RANGE,
            Token::IDENTIFIER("b".to_string()),
            Token::EOF,
        ]
    );
}

#[test]
fn lexer_keywords_and_reserved_words() {
    assert_eq!(
        tokens_of("fn let mut return if else true false run spawn lets"),
        vec![
            Token::FUNCTION,
            Token::LET,
            Token::MUT,
            Token::RETURN,
            Token::IF,
            Token::ELSE,
            Token::TRUE,
            Token::FALSE,
            Token::RUN,
            Token::SPAWN,
            Token::IDENTIFIER("lets".to_string()),
            Token::EOF,
        ]
    );
}

#[test]
fn lexer_illegal_chars_and_punctuation() {
    assert_eq!(
        tokens_of("@ . [ ] , ! = - + * /"),
        vec![
            Token::ILLEGAL('@'),
            Token::ILLEGAL('.'),
            Token::LBRACKET,
            Token::RBRACKET,
            Token::COMMA,
            Token::BANG,
            Token::ASSIGN,
            Token::MINUS,
            Token::PLUS,
            Token::MULTIPLY,
            Token::DIVIDE,
            Token::EOF,
        ]
    );
}

#[test]
fn lexer_runs_of_letters_and_digits() {
    assert_eq!(
        tokens_of("  x1y 42abc \u{00e9}t\u{00e9}  "),
        vec![
            Token::IDENTIFIER("x1y".to_string()),
            Token::INTEGER("42".to_string()),
            Token::IDENTIFIER("abc".to_string()),
            Token::IDENTIFIER("\u{00e9}t\u{00e9}".to_string()),
            Token::EOF,
        ]
    );
}

#[test]
fn lexer_end_of_input_repeats_eof() {
    let mut lexer = Lexer::new("   ".to_string());
    assert_eq!(lexer.next_token(), Token::EOF);
    assert_eq!(lexer.next_token(), Token::EOF);
}

#[test]
fn precedence_reduce_steps_down() {
    assert_eq!(Precedence::CALL.reduce(), Precedence::PREFIX);
    assert_eq!(Precedence::EQUALS.reduce(), Precedence::LOWEST);
    assert_eq!(Precedence::LOWEST.reduce(), Precedence::LOWEST);
    assert!(Precedence::PRODUCT.binds_tighter(Precedence::SUM));
    assert!(!Precedence::SUM.binds_tighter(Precedence::SUM));
}

#[test]
fn negative_integer_renders_with_sign() {
    let e = Expression::Prefix(keynes::ast::PrefixExpression {
        operator: PrefixOperator::MINUS,
        right: Box::new(integer(i64::MIN)),
    });
    assert_eq!(e.to_string(), "(--9223372036854775808)");
}

#[test]
fn statement_renders_alone() {
    let s = Statement::Let(LetStatement { mutable: true, name: identifier("y"), value: integer(10) });
    assert_eq!(s.to_string(), "let mut y = 10;");
}

#[test]
fn let_requires_a_semicolon() {
    let (program, errors) = lex_and_parse("let x = 5".to_string());
    assert!(program.statements.is_empty());
    assert_eq!(errors, vec![ParseError::UnexpectedToken { expected: Token::SEMICOLON, got: Token::EOF }]);
}

#[test]
fn canonical_program_reads_back_unchanged() {
    let text = "let x = (1 + (2 * 3));let mut y = f(x, (-x));return (!y);(a <= b)";
    let program = parse_clean(text);
    assert_eq!(program.statements.len(), 4);
    assert_eq!(program.to_string(), text);
}

#[test]
fn expression_statements_run_together_when_rendered() {
    // Two expression statements render with nothing between them, so this text is
    // not read back as the same program.
    assert_eq!(rendered("a; b"), "ab");
    assert_eq!(rendered("ab"), "ab");
    assert_eq!(parse_clean("ab").statements.len(), 1);
}
