use kinglang::bignat::BigNat;
use kinglang::decimal::single_to_text;
use kinglang::expr::{apply_binary, apply_unary, unwrap_as_string, LiteralValue};
use kinglang::parser::Parser;
use kinglang::scanner;
use kinglang::scanner::{Token, TokenType};
use kinglang::text::{chars_of, string_of, string_of_range};

fn number(x: f32) -> LiteralValue {
    LiteralValue::Number(x.to_bits())
}

fn token(token_type: TokenType, literal: Option<scanner::LiteralValue>) -> Token {
    Token {
        token_type,
        lexeme: String::new(),
        literal,
        line_number: 1,
    }
}

#[test]
fn numbers_as_text() {
    assert_eq!(single_to_text(f32::to_bits(123.0)), "123");
    assert_eq!(single_to_text(f32::to_bits(45.67)), "45.67");
    assert_eq!(single_to_text(f32::to_bits(0.1)), "0.1");
    assert_eq!(single_to_text(f32::to_bits(1e20)), "100000000000000000000");
    assert_eq!(single_to_text(f32::to_bits(1e-7)), "0.0000001");
    assert_eq!(single_to_text(f32::to_bits(-2.5)), "-2.5");
    assert_eq!(single_to_text(f32::to_bits(0.0)), "0");
    assert_eq!(single_to_text(f32::to_bits(-0.0)), "-0");
    assert_eq!(single_to_text(f32::to_bits(f32::INFINITY)), "inf");
    assert_eq!(single_to_text(f32::to_bits(f32::NEG_INFINITY)), "-inf");
    assert_eq!(single_to_text(f32::to_bits(f32::NAN)), "NaN");
    assert_eq!(single_to_text(f32::to_bits(f32::MAX)), "340282350000000000000000000000000000000");
    assert_eq!(single_to_text(f32::to_bits(f32::MIN_POSITIVE)), "0.000000000000000000000000000000000000011754944");
    assert_eq!(single_to_text(1), "0.000000000000000000000000000000000000000000001");
    assert_eq!(single_to_text(f32::to_bits(16777216.0)), "16777216");
    assert_eq!(single_to_text(f32::to_bits(1.0)), "1");
    assert_eq!(single_to_text(f32::to_bits(10.0)), "10");
    assert_eq!(single_to_text(f32::to_bits(9.999999)), "9.999999");
}

#[test]
fn values_as_text() {
    assert_eq!(number(1.5).to_string(), "1.5");
    assert_eq!(LiteralValue::StringValue("a b".to_string()).to_string(), "a b");
    assert_eq!(LiteralValue::True.to_string(), "true");
    assert_eq!(LiteralValue::False.to_string(), "false");
    assert_eq!(LiteralValue::Nil.to_string(), "nil");
}

#[test]
fn values_of_tokens() {
    let n = LiteralValue::from_token(token(
        TokenType::Number,
        Some(scanner::LiteralValue::FValue(f64::to_bits(123.123))),
    ));
    assert!(matches!(n, LiteralValue::Number(b) if b == (123.123f64 as f32).to_bits()));
    let i = LiteralValue::from_token(token(
        TokenType::Number,
        Some(scanner::LiteralValue::IntValue(-7)),
    ));
    assert!(matches!(i, LiteralValue::Number(b) if b == (-7.0f32).to_bits()));
    let s = LiteralValue::from_token(token(
        TokenType::StringKing,
        Some(scanner::LiteralValue::StringValue("abc".to_string())),
    ));
    assert!(matches!(s, LiteralValue::StringValue(t) if t == "abc"));
    let id = LiteralValue::from_token(token(
        TokenType::StringKing,
        Some(scanner::LiteralValue::IdentifierValue("name".to_string())),
    ));
    assert!(matches!(id, LiteralValue::StringValue(t) if t == "name"));
    assert!(matches!(
        LiteralValue::from_token(token(TokenType::True, None)),
        LiteralValue::True
    ));
    assert!(matches!(
        LiteralValue::from_token(token(TokenType::False, None)),
        LiteralValue::False
    ));
    assert!(matches!(
        LiteralValue::from_token(token(TokenType::Nil, None)),
        LiteralValue::Nil
    ));
    assert_eq!(
        unwrap_as_string(Some(scanner::LiteralValue::StringValue("x".to_string()))),
        "x"
    );
    assert_eq!(
        unwrap_as_string(Some(scanner::LiteralValue::IdentifierValue("y".to_string()))),
        "y"
    );
}

#[test]
fn what_counts_as_false() {
    assert!(matches!(number(0.0).is_false(), LiteralValue::True));
    assert!(matches!(number(-0.0).is_false(), LiteralValue::True));
    assert!(matches!(number(1.0).is_false(), LiteralValue::False));
    assert!(matches!(number(f32::NAN).is_false(), LiteralValue::False));
    assert!(matches!(
        LiteralValue::StringValue(String::new()).is_false(),
        LiteralValue::True
    ));
    assert!(matches!(
        LiteralValue::StringValue("0".to_string()).is_false(),
        LiteralValue::False
    ));
    assert!(matches!(LiteralValue::True.is_false(), LiteralValue::False));
    assert!(matches!(LiteralValue::False.is_false(), LiteralValue::True));
    assert!(matches!(LiteralValue::Nil.is_false(), LiteralValue::True));
    assert!(matches!(LiteralValue::from_bool(true), LiteralValue::True));
    assert!(matches!(LiteralValue::from_bool(false), LiteralValue::False));
}

#[test]
fn operators_on_values() {
    assert!(matches!(
        apply_unary(TokenType::Minus, &number(2.0)),
        Ok(LiteralValue::Number(b)) if b == (-2.0f32).to_bits()
    ));
    assert!(matches!(
        apply_unary(TokenType::Bang, &LiteralValue::Nil),
        Ok(LiteralValue::True)
    ));
    assert!(matches!(
        apply_binary(TokenType::Star, &number(1.5), &number(4.0)),
        Ok(LiteralValue::Number(b)) if b == (6.0f32).to_bits()
    ));
    assert!(matches!(
        apply_binary(TokenType::Slash, &number(1.0), &number(4.0)),
        Ok(LiteralValue::Number(b)) if b == (0.25f32).to_bits()
    ));
    assert!(matches!(
        apply_binary(TokenType::Minus, &number(1.0), &number(4.0)),
        Ok(LiteralValue::Number(b)) if b == (-3.0f32).to_bits()
    ));
    assert!(matches!(
        apply_binary(
            TokenType::Plus,
            &LiteralValue::StringValue("ab".to_string()),
            &LiteralValue::StringValue("cd".to_string())
        ),
        Ok(LiteralValue::StringValue(s)) if s == "abcd"
    ));
    assert!(matches!(
        apply_binary(TokenType::GreaterEqual, &number(1.0), &number(4.0)),
        Ok(LiteralValue::False)
    ));
}

#[test]
fn parser_cursor_and_recovery() {
    let mut scanner = scanner::Scanner::new("1 + 2 3 ; print 4");
    let mut parser = Parser::new(scanner.scan_tokens().unwrap());
    assert_eq!(parser.current(), 0);
    assert_eq!(parser.parse().unwrap().to_string(), "(+ 1 2)");
    assert_eq!(parser.current(), 3);
    parser.synchronize();
    assert_eq!(parser.current(), 5);
    parser.synchronize();
    assert_eq!(parser.current(), 7);
    parser.synchronize();
    assert_eq!(parser.current(), 7);

    let mut scanner = scanner::Scanner::new("( + 1 var x");
    let mut parser = Parser::new(scanner.scan_tokens().unwrap());
    assert_eq!(parser.parse().err(), Some("Expected expression".to_string()));
    assert_eq!(parser.current(), 1);
    parser.synchronize();
    assert_eq!(parser.current(), 3);
}

#[test]
fn tokens_that_end_too_early() {
    let plus = || Token {
        token_type: TokenType::Plus,
        lexeme: "+".to_string(),
        literal: None,
        line_number: 1,
    };
    let one = || Token {
        token_type: TokenType::Number,
        lexeme: "1".to_string(),
        literal: Some(scanner::LiteralValue::IntValue(1)),
        line_number: 1,
    };
    let mut parser = Parser::new(vec![]);
    assert_eq!(parser.parse().err(), Some("Past end of input".to_string()));
    let mut parser = Parser::new(vec![one(), plus()]);
    assert_eq!(parser.parse().err(), Some("Past end of input".to_string()));
    let mut parser = Parser::new(vec![one(), plus(), one()]);
    assert_eq!(parser.parse().err(), Some("Past end of input".to_string()));
    let open = Token {
        token_type: TokenType::LeftParen,
        lexeme: "(".to_string(),
        literal: None,
        line_number: 1,
    };
    let mut parser = Parser::new(vec![open, one()]);
    assert_eq!(parser.parse().err(), Some("Past end of input".to_string()));
}

#[test]
fn strings_from_characters() {
    let chars = chars_of("héllo");
    assert_eq!(chars, vec!['h', 'é', 'l', 'l', 'o']);
    assert_eq!(string_of(&chars), "héllo");
    assert_eq!(string_of_range(&chars, 1, 4), "éll");
    assert_eq!(string_of_range(&chars, 2, 2), "");
}

#[test]
fn big_numbers() {
    let a = BigNat::from_u64(u64::MAX);
    let b = BigNat::from_u64(12345);
    let sum = a.plus(&b);
    assert_eq!(sum.minus(&b).to_u64(), u64::MAX);
    let product = a.times(&b);
    let (q, r) = product.plus(&BigNat::from_u64(7)).div_rem(&a);
    assert_eq!(q.to_u64(), 12345);
    assert_eq!(r.to_u64(), 7);
    assert!(b.le(&a));
    assert!(!a.le(&b));
    assert!(b.lt(&a));
    assert!(a.le(&a));
    assert!(!a.lt(&a));
    assert!(BigNat::zero().is_zero());
    assert!(!b.is_zero());
    assert_eq!(b.times_ten().to_u64(), 123450);
    assert_eq!(b.shl(4).to_u64(), 12345 * 16);
    let mut c = BigNat::from_u64(5);
    c.shift_in(true);
    assert_eq!(c.to_u64(), 11);
    assert_eq!(c.shr(1).to_u64(), 5);
    assert_eq!(c.shr(70).to_u64(), 0);
    assert_eq!(c.low_bits(2).to_u64(), 3);
    assert_eq!(c.low_bits(9).to_u64(), 11);
    assert_eq!(c.bit_len(), 4);
    assert_eq!(BigNat::zero().bit_len(), 0);
    assert_eq!(c.duplicate().to_u64(), 11);
    let big = BigNat::from_u64(1).shl(200);
    let (q, r) = big.div_rem(&BigNat::from_u64(1).shl(190));
    assert_eq!(q.to_u64(), 1024);
    assert!(r.is_zero());
}
