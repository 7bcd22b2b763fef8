use kinglang::scanner::LiteralValue::{FValue, StringValue};
use kinglang::scanner::{
    get_keywords_hashmap, is_alpha, is_alpha_numeric, is_digit, Scanner, Token, TokenType,
};

fn kinds(source: &str) -> Vec<TokenType> {
    let mut scanner = Scanner::new(source);
    scanner
        .scan_tokens()
        .unwrap()
        .iter()
        .map(|t| t.token_type)
        .collect()
}

fn lexemes(source: &str) -> Vec<String> {
    let mut scanner = Scanner::new(source);
    scanner
        .scan_tokens()
        .unwrap()
        .iter()
        .map(|t| t.lexeme.clone())
        .collect()
}

fn lines(source: &str) -> Vec<u64> {
    let mut scanner = Scanner::new(source);
    scanner
        .scan_tokens()
        .unwrap()
        .iter()
        .map(|t| t.line_number)
        .collect()
}

#[test]
fn character_classes() {
    for c in ['0', '5', '9'] {
        assert!(is_digit(c));
        assert!(!is_alpha(c));
        assert!(is_alpha_numeric(c));
    }
    for c in ['a', 'z', 'A', 'Z', '_', 'm'] {
        assert!(!is_digit(c));
        assert!(is_alpha(c));
        assert!(is_alpha_numeric(c));
    }
    for c in ['/', ':', '@', '[', '`', '{', ' ', '\0', 'é', '٣'] {
        assert!(!is_digit(c));
        assert!(!is_alpha(c));
        assert!(!is_alpha_numeric(c));
    }
}

#[test]
fn keyword_table_holds_the_reserved_words() {
    let table = get_keywords_hashmap();
    assert_eq!(table.len(), 16);
    assert_eq!(table.get("and"), Some(&TokenType::And));
    assert_eq!(table.get("while"), Some(&TokenType::While));
    assert_eq!(table.get("nil"), Some(&TokenType::Nil));
    assert_eq!(table.get("whale"), None);
    assert_eq!(table.get("And"), None);
}

#[test]
fn every_single_character_token() {
    assert_eq!(
        kinds("(){},.-+;*/"),
        vec![
            TokenType::LeftParen,
            TokenType::RightParen,
            TokenType::LeftBrace,
            TokenType::RightBrace,
            TokenType::Comma,
            TokenType::Dot,
            TokenType::Minus,
            TokenType::Plus,
            TokenType::Semicolon,
            TokenType::Star,
            TokenType::Slash,
            TokenType::Eof,
        ]
    );
}

#[test]
fn operators_of_one_or_two_characters() {
    assert_eq!(
        kinds("! != = == < <= > >="),
        vec![
            TokenType::Bang,
            TokenType::BangEqual,
            TokenType::Equal,
            TokenType::EqualEqual,
            TokenType::Less,
            TokenType::LessEqual,
            TokenType::Greater,
            TokenType::GreaterEqual,
            TokenType::Eof,
        ]
    );
    assert_eq!(
        kinds("!==<==>"),
        vec![
            TokenType::BangEqual,
            TokenType::Equal,
            TokenType::LessEqual,
            TokenType::Equal,
            TokenType::Greater,
            TokenType::Eof,
        ]
    );
    assert_eq!(kinds("!"), vec![TokenType::Bang, TokenType::Eof]);
    assert_eq!(lexemes("!= <"), vec!["!=", "<", ""]);
}

#[test]
fn every_reserved_word() {
    assert_eq!(
        kinds("and class else false for fun if nil or print return super this true var while"),
        vec![
            TokenType::And,
            TokenType::Class,
            TokenType::Else,
            TokenType::False,
            TokenType::For,
            TokenType::Fun,
            TokenType::If,
            TokenType::Nil,
            TokenType::Or,
            TokenType::Print,
            TokenType::Return,
            TokenType::Super,
            TokenType::This,
            TokenType::True,
            TokenType::Var,
            TokenType::While,
            TokenType::Eof,
        ]
    );
    assert_eq!(
        kinds("andy _and nil1 True orchid"),
        vec![
            TokenType::Identifier,
            TokenType::Identifier,
            TokenType::Identifier,
            TokenType::Identifier,
            TokenType::Identifier,
            TokenType::Eof,
        ]
    );
}

#[test]
fn lexemes_are_the_source_text() {
    assert_eq!(
        lexemes("var x1 = 12.50; \"a b\""),
        vec!["var", "x1", "=", "12.50", ";", "\"a b\"", ""]
    );
}

#[test]
fn comments_and_white_space_give_no_token() {
    assert_eq!(kinds(""), vec![TokenType::Eof]);
    assert_eq!(kinds(" \t\r\n"), vec![TokenType::Eof]);
    assert_eq!(kinds("// nothing here"), vec![TokenType::Eof]);
    assert_eq!(
        kinds("1 // one\n/ 2"),
        vec![
            TokenType::Number,
            TokenType::Slash,
            TokenType::Number,
            TokenType::Eof
        ]
    );
    assert_eq!(lines("1 // one\n/ 2"), vec![1, 2, 2, 2]);
    assert_eq!(kinds("//"), vec![TokenType::Eof]);
    assert_eq!(kinds("/"), vec![TokenType::Slash, TokenType::Eof]);
}

#[test]
fn line_numbers() {
    assert_eq!(lines("a\nb\n\nc"), vec![1, 2, 4, 4]);
    assert_eq!(lines("\"x\ny\nz\" w"), vec![3, 3, 3]);
    assert_eq!(lines("\n"), vec![2]);
}

#[test]
fn a_point_belongs_to_a_number_only_before_a_digit() {
    assert_eq!(
        kinds("1."),
        vec![TokenType::Number, TokenType::Dot, TokenType::Eof]
    );
    assert_eq!(
        kinds(".5"),
        vec![TokenType::Dot, TokenType::Number, TokenType::Eof]
    );
    assert_eq!(
        kinds("1.2.3"),
        vec![
            TokenType::Number,
            TokenType::Dot,
            TokenType::Number,
            TokenType::Eof
        ]
    );
    assert_eq!(lexemes("1.2.3"), vec!["1.2", ".", "3", ""]);
    assert_eq!(
        kinds("1.x"),
        vec![
            TokenType::Number,
            TokenType::Dot,
            TokenType::Identifier,
            TokenType::Eof
        ]
    );
    assert_eq!(kinds("12abc"), vec![TokenType::Number, TokenType::Identifier, TokenType::Eof]);
}

#[test]
fn number_tokens_carry_the_nearest_double() {
    let mut scanner = Scanner::new("0.5 007 1.25");
    let tokens = scanner.scan_tokens().unwrap();
    let values: Vec<f64> = tokens
        .iter()
        .filter_map(|t| match t.literal {
            Some(FValue(bits)) => Some(f64::from_bits(bits)),
            _ => None,
        })
        .collect();
    assert_eq!(values, vec![0.5, 7.0, 1.25]);
}

#[test]
fn string_tokens_carry_the_text_between_the_quotes() {
    let mut scanner = Scanner::new("\"\" \"// no comment\" \"é٣\"");
    let tokens = scanner.scan_tokens().unwrap();
    let values: Vec<String> = tokens
        .iter()
        .filter_map(|t| match &t.literal {
            Some(StringValue(s)) => Some(s.clone()),
            _ => None,
        })
        .collect();
    assert_eq!(values, vec!["", "// no comment", "é٣"]);
    assert_eq!(tokens[2].lexeme, "\"é٣\"");
}

#[test]
fn only_number_and_string_tokens_carry_a_literal() {
    let mut scanner = Scanner::new("x = 1 + \"s\" ; true nil");
    let tokens = scanner.scan_tokens().unwrap();
    for t in &tokens {
        match t.token_type {
            TokenType::Number => assert!(matches!(t.literal, Some(FValue(_)))),
            TokenType::StringKing => assert!(matches!(t.literal, Some(StringValue(_)))),
            _ => assert!(t.literal.is_none()),
        }
    }
}

#[test]
fn errors_are_collected_and_tokens_withheld() {
    let mut scanner = Scanner::new("a @ b\n# c \"open");
    let result = scanner.scan_tokens();
    assert_eq!(
        result.err(),
        Some(
            "Unrecognised character at line 1: @\nUnrecognised character at line 2: #\nUnterminated String\n"
                .to_string()
        )
    );
    let seen: Vec<TokenType> = scanner.tokens().iter().map(|t| t.token_type).collect();
    assert_eq!(
        seen,
        vec![
            TokenType::Identifier,
            TokenType::Identifier,
            TokenType::Identifier,
            TokenType::Eof
        ]
    );
    assert!(scanner.is_at_end());
}

#[test]
fn characters_beyond_ascii_are_not_recognised() {
    let mut scanner = Scanner::new("é");
    assert_eq!(
        scanner.scan_tokens().err(),
        Some("Unrecognised character at line 1: é\n".to_string())
    );
}

#[test]
fn scanning_step_by_step() {
    let mut scanner = Scanner::new("ab 12");
    assert!(!scanner.is_at_end());
    assert_eq!(scanner.scan_token(), Ok(()));
    assert_eq!(scanner.tokens().len(), 1);
    assert_eq!(scanner.scan_token(), Ok(()));
    assert_eq!(scanner.tokens().len(), 1);
    assert_eq!(scanner.scan_token(), Ok(()));
    assert_eq!(scanner.tokens().len(), 2);
    assert_eq!(scanner.tokens()[1].lexeme, "12");
    assert!(scanner.is_at_end());
    let all = scanner.scan_tokens().unwrap();
    assert_eq!(all.len(), 3);
    assert_eq!(all[2].token_type, TokenType::Eof);
}

#[test]
fn token_new_and_names_of_kinds() {
    let t = Token::new(TokenType::Plus, "+".to_string(), None, 3);
    assert_eq!(t.token_type, TokenType::Plus);
    assert_eq!(t.lexeme, "+");
    assert!(t.literal.is_none());
    assert_eq!(t.line_number, 3);
    let copy = t.clone();
    assert_eq!(copy.lexeme, "+");
    assert_eq!(copy.line_number, 3);
    assert_eq!(TokenType::Plus.to_string(), "Plus");
    assert_eq!(TokenType::StringKing.to_string(), "StringKing");
    assert_eq!(TokenType::Eof.to_string(), "Eof");
    assert_eq!(TokenType::LeftParen.to_string(), "LeftParen");
    assert_eq!(TokenType::Not.to_string(), "Not");
}
