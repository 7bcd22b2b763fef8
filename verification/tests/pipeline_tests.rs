use kinglang::expr::Expr;
use kinglang::expr::LiteralValue;
use kinglang::interpreter::run;
use kinglang::parser::Parser;
use kinglang::scanner::{Scanner, Token, TokenType};

fn number(x: f32) -> LiteralValue {
    LiteralValue::Number(x.to_bits())
}

fn text_of(r: Result<LiteralValue, String>) -> Result<String, String> {
    r.map(|v| v.to_string())
}

fn parse_text(source: &str) -> Result<String, String> {
    let mut scanner = Scanner::new(source);
    let tokens = scanner.scan_tokens()?;
    let mut parser = Parser::new(tokens);
    parser.parse().map(|e| e.to_string())
}

fn token(token_type: TokenType, lexeme: &str) -> Token {
    Token {
        token_type,
        lexeme: lexeme.to_string(),
        literal: None,
        line_number: 1,
    }
}

fn literal(value: LiteralValue) -> Box<Expr> {
    Box::new(Expr::Literal { value })
}

#[test]
fn string_concatenation_scenario() {
    match run("\"1\" + \"2\"") {
        Ok(LiteralValue::StringValue(s)) => assert_eq!(s, "12"),
        other => panic!("unexpected {:?}", other),
    }
}

#[test]
fn number_plus_string_scenario() {
    assert_eq!(
        text_of(run("1 + \"x\"")),
        Err("Plus cannot operate between Number and String".to_string())
    );
    assert_eq!(
        text_of(run("\"x\" * 2")),
        Err("Star cannot operate between String and Number".to_string())
    );
}

#[test]
fn not_zero_scenario() {
    assert!(matches!(run("!0"), Ok(LiteralValue::True)));
    assert!(matches!(run("!1"), Ok(LiteralValue::False)));
    assert!(matches!(run("!\"\""), Ok(LiteralValue::True)));
    assert!(matches!(run("!\"a\""), Ok(LiteralValue::False)));
    assert!(matches!(run("!true"), Ok(LiteralValue::False)));
    assert!(matches!(run("!false"), Ok(LiteralValue::True)));
    assert!(matches!(run("!nil"), Ok(LiteralValue::True)));
    assert!(matches!(run("!!nil"), Ok(LiteralValue::False)));
}

#[test]
fn arithmetic_values() {
    assert_eq!(text_of(run("1 + 2")), Ok("3".to_string()));
    assert_eq!(text_of(run("1 - 2")), Ok("-1".to_string()));
    assert_eq!(text_of(run("(1 + 2) * 3 / 4")), Ok("2.25".to_string()));
    assert_eq!(text_of(run("1 + 2 * 3")), Ok("7".to_string()));
    assert_eq!(text_of(run("10 - 4 - 3")), Ok("3".to_string()));
    assert_eq!(text_of(run("8 / 4 / 2")), Ok("1".to_string()));
    assert_eq!(text_of(run("0.1 + 0.2")), Ok((0.1f32 + 0.2f32).to_string()));
    assert_eq!(text_of(run("1 / 3")), Ok((1.0f32 / 3.0f32).to_string()));
    assert_eq!(text_of(run("-3")), Ok("-3".to_string()));
    assert_eq!(text_of(run("--3")), Ok("3".to_string()));
    assert_eq!(text_of(run("1 / 0")), Ok("inf".to_string()));
    assert_eq!(text_of(run("-1 / 0")), Ok("-inf".to_string()));
    assert_eq!(text_of(run("0 / 0")), Ok("NaN".to_string()));
    assert_eq!(text_of(run("-0")), Ok("-0".to_string()));
    assert_eq!(text_of(run("16777217")), Ok("16777216".to_string()));
    assert_eq!(text_of(run("123.123")), Ok((123.123f64 as f32).to_string()));
}

#[test]
fn comparison_values() {
    assert!(matches!(run("1 < 2"), Ok(LiteralValue::True)));
    assert!(matches!(run("2 < 1"), Ok(LiteralValue::False)));
    assert!(matches!(run("2 <= 2"), Ok(LiteralValue::True)));
    assert!(matches!(run("2 > 2"), Ok(LiteralValue::False)));
    assert!(matches!(run("2 >= 2"), Ok(LiteralValue::True)));
    assert!(matches!(run("1 + 2 == 5 + 7"), Ok(LiteralValue::False)));
    assert!(matches!(run("1 + 2 == 3"), Ok(LiteralValue::True)));
    assert!(matches!(run("1 != 2"), Ok(LiteralValue::True)));
    assert!(matches!(run("0 == -0"), Ok(LiteralValue::True)));
    assert!(matches!(run("0 / 0 == 0 / 0"), Ok(LiteralValue::False)));
    assert!(matches!(run("0 / 0 != 0 / 0"), Ok(LiteralValue::True)));
    assert!(matches!(run("\"a\" == \"a\""), Ok(LiteralValue::True)));
    assert!(matches!(run("\"a\" != \"a\""), Ok(LiteralValue::False)));
    assert!(matches!(run("\"a\" == \"b\""), Ok(LiteralValue::False)));
}

#[test]
fn evaluation_failures() {
    assert_eq!(
        text_of(run("-\"abc\"")),
        Err("Minus not implemented for  abc".to_string())
    );
    assert_eq!(
        text_of(run("-true")),
        Err("Minus not implemented for  true".to_string())
    );
    assert_eq!(
        text_of(run("nil + 1")),
        Err("Plus is not yet supported between Nil and Number".to_string())
    );
    assert_eq!(
        text_of(run("true == false")),
        Err("EqualEqual is not yet supported between True and False".to_string())
    );
    assert_eq!(
        text_of(run("\"a\" < \"b\"")),
        Err("Less is not yet supported between String and String".to_string())
    );
    assert_eq!(
        text_of(run("\"a\" - \"b\"")),
        Err("Minus is not yet supported between String and String".to_string())
    );
    assert_eq!(
        text_of(run("(1 + \"x\") + nil")),
        Err("Plus cannot operate between Number and String".to_string())
    );
}

#[test]
fn operators_out_of_place_fail() {
    let not_unary = Expr::Unary {
        operator: token(TokenType::Plus, "+"),
        right: literal(number(1.0)),
    };
    assert_eq!(
        text_of(not_unary.evaluate()),
        Err("Plus is not a valid unary operator".to_string())
    );
    let not_binary = Expr::Binary {
        left: literal(number(1.0)),
        operator: token(TokenType::Bang, "!"),
        right: literal(number(2.0)),
    };
    assert_eq!(
        text_of(not_binary.evaluate()),
        Err("Bang is not yet supported between Number and Number".to_string())
    );
    let failing_operand = Expr::Unary {
        operator: token(TokenType::Plus, "+"),
        right: Box::new(Expr::Unary {
            operator: token(TokenType::Minus, "-"),
            right: literal(LiteralValue::Nil),
        }),
    };
    assert_eq!(
        text_of(failing_operand.evaluate()),
        Err("Minus not implemented for  nil".to_string())
    );
}

#[test]
fn both_operands_are_evaluated_left_first() {
    let tree = Expr::Binary {
        left: Box::new(Expr::Unary {
            operator: token(TokenType::Minus, "-"),
            right: literal(LiteralValue::True),
        }),
        operator: token(TokenType::Plus, "+"),
        right: Box::new(Expr::Unary {
            operator: token(TokenType::Minus, "-"),
            right: literal(LiteralValue::False),
        }),
    };
    assert_eq!(
        text_of(tree.evaluate()),
        Err("Minus not implemented for  true".to_string())
    );
}

#[test]
fn grouping_has_the_value_of_its_inside() {
    let tree = Expr::Grouping {
        expression: literal(number(4.5)),
    };
    assert_eq!(text_of(tree.evaluate()), Ok("4.5".to_string()));
    assert_eq!(tree.to_string(), "(group 4.5)");
}

#[test]
fn lexical_errors_come_first() {
    assert_eq!(
        text_of(run("1 + @")),
        Err("Unrecognised character at line 1: @\n".to_string())
    );
    assert_eq!(
        text_of(run("#\n$ \"abc")),
        Err(
            "Unrecognised character at line 1: #\nUnrecognised character at line 2: $\nUnterminated String\n"
                .to_string()
        )
    );
}

#[test]
fn syntax_errors() {
    assert_eq!(text_of(run("")), Err("Expected expression".to_string()));
    assert_eq!(text_of(run("1 +")), Err("Expected expression".to_string()));
    assert_eq!(text_of(run("(1 + 2")), Err("Expected ')'".to_string()));
    assert_eq!(text_of(run("(1 2)")), Err("Expected ')'".to_string()));
    assert_eq!(text_of(run(")")), Err("Expected expression".to_string()));
    assert_eq!(text_of(run("x")), Err("Expected expression".to_string()));
    assert_eq!(text_of(run("+ 1")), Err("Expected expression".to_string()));
}

#[test]
fn tokens_after_the_expression_are_ignored() {
    assert_eq!(text_of(run("1 2 3")), Ok("1".to_string()));
    assert_eq!(text_of(run("1 ; garbage )")), Ok("1".to_string()));
    assert_eq!(parse_text("1 + 2 ) )"), Ok("(+ 1 2)".to_string()));
}

#[test]
fn precedence_and_associativity() {
    assert_eq!(parse_text("1 - 2 - 3"), Ok("(- (- 1 2) 3)".to_string()));
    assert_eq!(parse_text("1 + 2 * 3"), Ok("(+ 1 (* 2 3))".to_string()));
    assert_eq!(parse_text("1 * 2 + 3"), Ok("(+ (* 1 2) 3)".to_string()));
    assert_eq!(parse_text("1 < 2 == 3 > 4"), Ok("(== (< 1 2) (> 3 4))".to_string()));
    assert_eq!(parse_text("1 <= 2 != 3 >= 4"), Ok("(!= (<= 1 2) (>= 3 4))".to_string()));
    assert_eq!(parse_text("1 + 2 < 3 - 4"), Ok("(< (+ 1 2) (- 3 4))".to_string()));
    assert_eq!(parse_text("--1"), Ok("(- (- 1))".to_string()));
    assert_eq!(parse_text("!-1"), Ok("(! (- 1))".to_string()));
    assert_eq!(parse_text("-1 * -2"), Ok("(* (- 1) (- 2))".to_string()));
    assert_eq!(parse_text("1 / 2 / 3"), Ok("(/ (/ 1 2) 3)".to_string()));
    assert_eq!(parse_text("((1))"), Ok("(group (group 1))".to_string()));
    assert_eq!(parse_text("\"a\" + \"b\""), Ok("(+ a b)".to_string()));
    assert_eq!(parse_text("true"), Ok("true".to_string()));
    assert_eq!(parse_text("false"), Ok("false".to_string()));
    assert_eq!(parse_text("nil"), Ok("nil".to_string()));
}

#[test]
fn text_of_some_trees_reads_back() {
    let sources = [
        "true", "false", "nil", "-true", "!nil", "!!false", "-!-nil", "1", "45.67", "-1", "!0",
        "--0.125", "-!3",
    ];
    for source in sources {
        let mut scanner = Scanner::new(source);
        let mut parser = Parser::new(scanner.scan_tokens().unwrap());
        let tree = parser.parse().unwrap();
        let written = tree.to_string();
        assert_eq!(text_of(run(&written)), text_of(tree.evaluate()), "{}", written);
    }
    let minus_true = Expr::Unary {
        operator: token(TokenType::Minus, "-"),
        right: literal(LiteralValue::True),
    };
    assert_eq!(minus_true.to_string(), "(- true)");
    assert_eq!(
        text_of(run("(- true)")),
        Err("Minus not implemented for  true".to_string())
    );
    let not_nil = Expr::Unary {
        operator: token(TokenType::Bang, "!"),
        right: literal(LiteralValue::Nil),
    };
    assert_eq!(not_nil.to_string(), "(! nil)");
    assert!(matches!(run("(! nil)"), Ok(LiteralValue::True)));
    assert!(matches!(not_nil.evaluate(), Ok(LiteralValue::True)));
}

#[test]
fn text_of_other_trees_does_not_read_back() {
    assert_eq!(parse_text("1 + 2"), Ok("(+ 1 2)".to_string()));
    assert_eq!(text_of(run("(+ 1 2)")), Err("Expected expression".to_string()));
    assert_eq!(text_of(run("(group 1)")), Err("Expected expression".to_string()));
    assert_eq!(parse_text("\"abc\""), Ok("abc".to_string()));
    assert_eq!(text_of(run("abc")), Err("Expected expression".to_string()));
}

#[test]
fn scanning_and_evaluating_twice_give_the_same() {
    let source = "1 + 2 * (3 - 4) == \"x\"";
    let mut first = Scanner::new(source);
    let mut second = Scanner::new(source);
    let a = first.scan_tokens().unwrap();
    let b = second.scan_tokens().unwrap();
    assert_eq!(a.len(), b.len());
    for i in 0..a.len() {
        assert_eq!(a[i].token_type, b[i].token_type);
        assert_eq!(a[i].lexeme, b[i].lexeme);
        assert_eq!(a[i].line_number, b[i].line_number);
        assert_eq!(format!("{:?}", a[i].literal), format!("{:?}", b[i].literal));
    }
    let mut parser = Parser::new(a);
    let tree = parser.parse().unwrap();
    assert_eq!(text_of(tree.evaluate()), text_of(tree.evaluate()));
    assert_eq!(tree.to_string(), tree.to_string());
    let failing = "1 + @ #";
    assert_eq!(
        Scanner::new(failing).scan_tokens().err(),
        Scanner::new(failing).scan_tokens().err()
    );
}
