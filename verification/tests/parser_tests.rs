use kinglang::parser::Parser;
use kinglang::scanner::LiteralValue::IntValue;
use kinglang::scanner::{Scanner, Token, TokenType};

#[test]
fn handle_addition() {
    let one = Token {
        token_type: TokenType::Number,
        lexeme: "1".to_string(),
        literal: Some(IntValue(1)),
        line_number: 1,
    };
    let plus = Token {
        token_type: TokenType::Plus,
        lexeme: "+".to_string(),
        literal: None,
        line_number: 1,
    };
    let two = Token {
        token_type: TokenType::Number,
        lexeme: "2".to_string(),
        literal: Some(IntValue(2)),
        line_number: 1,
    };
    let semicolon = Token {
        token_type: TokenType::Semicolon,
        lexeme: ";".to_string(),
        literal: None,
        line_number: 1,
    };

    let tokens = vec![one, plus, two, semicolon];
    let mut parser = Parser::new(tokens);
    let parsed_expr = parser.parse();
    let string_expr = parsed_expr.unwrap().to_string();

    assert_eq!(string_expr, "(+ 1 2)");
}

#[test]
fn handle_comparison() {
    let source = "1 + 2 == 5 + 7";
    let mut scanner = Scanner::new(source);
    let tokens = scanner.scan_tokens();

    let mut parser = Parser::new(tokens.unwrap());
    let parsed_expr = parser.parse();
    let string_expr = parsed_expr.unwrap().to_string();

    assert_eq!(string_expr, "(== (+ 1 2) (+ 5 7))");
}

#[test]
fn handle_equality_with_paren() {
    let source = "2 == (2 + 1)";
    let mut scanner = Scanner::new(source);
    let tokens = scanner.scan_tokens();

    let mut parser = Parser::new(tokens.unwrap());
    let parsed_expr = parser.parse();
    let string_expr = parsed_expr.unwrap().to_string();

    assert_eq!(string_expr, "(== 2 (group (+ 2 1)))");
}
