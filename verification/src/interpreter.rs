//! The whole pipeline: from source text to a value.

use vstd::prelude::*;
use crate::decimal::{is_digit_char, single_text};
use crate::expr::{
    evaluation, expr_text, result_view, token_value, value_text, ExprView, LiteralValue, ValueView,
};
use crate::parser::{
    failure_message, is_level_operator, parse_chain, parse_expression, parse_level, parse_primary,
    parse_unary, well_formed_token, Parsed, Parser,
};
use crate::scanner::{
    char_at, eof_token, in_class, is_alpha_char, join_lines, lemma_run_end, lemma_step_advances,
    number_token, run_end, scan_from, scan_step, token_views, word_kind, CharClass, Lexed, Scanner,
    Step, TokenType, TokenView,
};

verus! {

/// All tokens of a text: those that scanning finds, and the end-of-input
/// token.
pub open spec fn all_tokens(source: Seq<char>) -> Seq<TokenView> {
    scan_from(source, 0, 1).tokens.push(eof_token(scan_from(source, 0, 1).line))
}

/// The value of the first expression of a text, or the message of the stage
/// that failed: the messages of all lexical errors, or that of the first
/// syntax error, or that of the evaluation.
pub open spec fn interpretation(source: Seq<char>) -> Result<ValueView, Seq<char>> {
    let scan = scan_from(source, 0, 1);
    if scan.errors.len() > 0 {
        Err(join_lines(scan.errors))
    } else {
        match parse_expression(all_tokens(source), 0).result {
            Err(f) => Err(failure_message(f)),
            Ok(e) => evaluation(e),
        }
    }
}

/// Every number or string token that scanning finds carries its value.
pub proof fn lemma_scanned_tokens_well_formed(source: Seq<char>, pos: int, line: u64)
    ensures
        forall|i: int|
            0 <= i < scan_from(source, pos, line).tokens.len() ==> well_formed_token(
                #[trigger] scan_from(source, pos, line).tokens[i],
            ),
    decreases source.len() - pos,
{
    if 0 <= pos < source.len() {
        let step = scan_step(source, pos, line);
        lemma_step_advances(source, pos, line);
        lemma_scanned_tokens_well_formed(source, step.end, step.line);
        let rest = scan_from(source, step.end, step.line);
        match step.lexed {
            Lexed::Token(t) => {
                assert(well_formed_token(t));
                assert forall|i: int|
                    0 <= i < scan_from(source, pos, line).tokens.len() implies well_formed_token(
                    #[trigger] scan_from(source, pos, line).tokens[i],
                ) by {
                    if i > 0 {
                        assert(scan_from(source, pos, line).tokens[i] == rest.tokens[i - 1]);
                    }
                }
            },
            _ => {},
        }
    }
}

/// Scans the text, parses its first expression, and evaluates it.
pub fn run(contents: &str) -> (r: Result<LiteralValue, String>)
    ensures
        result_view(r) == interpretation(contents@),
{
    let mut scanner = Scanner::new(contents);
    let tokens = scanner.scan_tokens()?;
    proof {
        lemma_scanned_tokens_well_formed(contents@, 0, 1);
        assert(token_views(tokens@) =~= all_tokens(contents@));
        assert forall|i: int| 0 <= i < tokens@.len() implies well_formed_token(
            #[trigger] tokens@[i]@,
        ) by {
            assert(tokens@[i]@ == token_views(tokens@)[i]);
        }
    }
    let mut parser = Parser::new(tokens);
    let tree = parser.parse()?;
    tree.evaluate()
}

/// Whether the text of a number, scanned by itself, is one number token
/// that stands for the number. This leaves out the numbers with a sign, the
/// infinite ones and the NaNs, whose text is none of a number literal.
pub open spec fn number_reads_back(x: u32) -> bool {
    let text = single_text(x);
    let step = number_token(text, 0, 1);
    &&& text.len() > 0
    &&& is_digit_char(text[0])
    &&& step.end == text.len()
    &&& step.lexed matches Lexed::Token(t) && token_value(t) == ValueView::Number(x)
}

/// The values whose text is read back as the value: `true`, `false`, `nil`,
/// and the numbers whose text is read back as the number. The text of a
/// string is the string without quotes, which is read as something else.
pub open spec fn literal_reads_back(value: ValueView) -> bool {
    match value {
        ValueView::True | ValueView::False | ValueView::Nil => true,
        ValueView::Number(x) => number_reads_back(x),
        ValueView::StringValue(_) => false,
    }
}

/// The token that the text of a value that reads back is scanned to.
pub open spec fn literal_token(value: ValueView, line: u64) -> TokenView {
    match value {
        ValueView::Number(x) => TokenView {
            token_type: TokenType::Number,
            lexeme: single_text(x),
            literal: match number_token(single_text(x), 0, 1).lexed {
                Lexed::Token(t) => t.literal,
                _ => None,
            },
            line_number: line,
        },
        _ => bare_token(word_of(value), value_text(value), line),
    }
}

/// The trees that can be written as text and read back: a value that reads
/// back, and such a tree with `-` or `!` before it. The text of a tree with
/// a binary operator or a group starts with no expression.
pub open spec fn reads_back(e: ExprView) -> bool
    decreases e,
{
    match e {
        ExprView::Literal { value } => literal_reads_back(value),
        ExprView::Unary { operator, right } => {
            &&& (operator.token_type == TokenType::Minus && operator.lexeme == seq!['-'])
                || (operator.token_type == TokenType::Bang && operator.lexeme == seq!['!'])
            &&& reads_back(*right)
        },
        _ => false,
    }
}

/// A token without a literal.
pub open spec fn bare_token(kind: TokenType, lexeme: Seq<char>, line: u64) -> TokenView {
    TokenView { token_type: kind, lexeme, literal: None, line_number: line }
}

/// The kind of the word for a value that is `true`, `false` or `nil`.
pub open spec fn word_of(value: ValueView) -> TokenType {
    match value {
        ValueView::True => TokenType::True,
        ValueView::False => TokenType::False,
        _ => TokenType::Nil,
    }
}

/// The tokens of the text of a tree that reads back, on the line `line`.
pub open spec fn text_tokens(e: ExprView, line: u64) -> Seq<TokenView>
    decreases e,
{
    match e {
        ExprView::Unary { operator, right } => seq![
            bare_token(TokenType::LeftParen, seq!['('], line),
            bare_token(operator.token_type, operator.lexeme, line),
        ] + text_tokens(*right, line) + seq![bare_token(TokenType::RightParen, seq![')'], line)],
        ExprView::Literal { value } => seq![literal_token(value, line)],
        _ => Seq::empty(),
    }
}

/// The tree that the text of a tree that reads back is parsed to: the same
/// tree, with each operator and its operand in a group.
pub open spec fn read_back(e: ExprView, line: u64) -> ExprView
    decreases e,
{
    match e {
        ExprView::Unary { operator, right } => ExprView::Grouping {
            expression: Box::new(
                ExprView::Unary {
                    operator: bare_token(operator.token_type, operator.lexeme, line),
                    right: Box::new(read_back(*right, line)),
                },
            ),
        },
        _ => e,
    }
}

/// The words `true`, `false` and `nil` are reserved.
pub proof fn lemma_value_words()
    ensures
        word_kind("true"@) == TokenType::True,
        word_kind("false"@) == TokenType::False,
        word_kind("nil"@) == TokenType::Nil,
{
    reveal_strlit("for");
    reveal_strlit("fun");
    reveal_strlit("if");
    reveal_strlit("nil");
    reveal_strlit("or");
    reveal_strlit("print");
    reveal_strlit("return");
    reveal_strlit("super");
    reveal_strlit("this");
    reveal_strlit("true");
    reveal_strlit("var");
    reveal_strlit("while");
    reveal_strlit("false");
    assert("true"@.len() != "var"@.len());
    assert("true"@.len() != "while"@.len());
    assert("nil"@.len() != "or"@.len());
    assert("nil"@.len() != "print"@.len());
    assert("nil"@.len() != "return"@.len());
    assert("nil"@.len() != "super"@.len());
    assert("nil"@.len() != "this"@.len());
    assert("nil"@.len() != "true"@.len());
    assert("nil"@[0] != "var"@[0]);
    assert("nil"@.len() != "while"@.len());
    assert("false"@.len() != "for"@.len());
    assert("false"@.len() != "fun"@.len());
    assert("false"@.len() != "if"@.len());
    assert("false"@.len() != "nil"@.len());
    assert("false"@.len() != "or"@.len());
    assert("false"@[0] != "print"@[0]);
    assert("false"@.len() != "return"@.len());
    assert("false"@[0] != "super"@[0]);
    assert("false"@.len() != "this"@.len());
    assert("false"@.len() != "true"@.len());
    assert("false"@.len() != "var"@.len());
    assert("false"@[0] != "while"@[0]);
}

/// A run of word characters that a closing parenthesis or the end of the
/// text follows ends there.
proof fn lemma_word_run(src: Seq<char>, from: int, to: int)
    requires
        0 <= from <= to <= src.len(),
        forall|i: int| from <= i < to ==> is_alpha_char(#[trigger] src[i]),
        to == src.len() || src[to] == ')',
    ensures
        run_end(src, from, CharClass::Word) == to,
    decreases to - from,
{
    if from < to {
        assert(is_alpha_char(src[from]));
        lemma_word_run(src, from + 1, to);
    }
}

/// A word that stands in the text at `pos`, before a closing parenthesis
/// or the end of the text, is scanned as one token.
proof fn lemma_scan_word(src: Seq<char>, pos: int, line: u64, value: ValueView)
    requires
        value is True || value is False || value is Nil,
        0 <= pos,
        pos + value_text(value).len() <= src.len(),
        src.subrange(pos, pos + value_text(value).len()) == value_text(value),
        pos + value_text(value).len() == src.len() || src[pos + value_text(value).len()] == ')',
    ensures
        scan_step(src, pos, line) == (Step {
            end: pos + value_text(value).len(),
            line,
            lexed: Lexed::Token(bare_token(word_of(value), value_text(value), line)),
        }),
{
    reveal_strlit("true");
    reveal_strlit("false");
    reveal_strlit("nil");
    lemma_value_words();
    let text = value_text(value);
    let n = text.len() as int;
    assert forall|i: int| pos <= i < pos + n implies is_alpha_char(#[trigger] src[i]) by {
        assert(src.subrange(pos, pos + n)[i - pos] == src[i]);
        assert(is_alpha_char(text[i - pos]));
    }
    assert(src.subrange(pos, pos + n)[0] == src[pos]);
    lemma_word_run(src, pos + 1, pos + n);
    assert(src[pos] == text[0]);
}

/// A run within a piece of a text ends where the run within the piece alone
/// ends, if no character of the class follows the piece.
proof fn lemma_run_in_piece(src: Seq<char>, pos: int, piece: Seq<char>, i: int, k: CharClass)
    requires
        0 <= pos,
        pos + piece.len() <= src.len(),
        src.subrange(pos, pos + piece.len()) == piece,
        0 <= i <= piece.len(),
        pos + piece.len() == src.len() || !in_class(src[pos + piece.len()], k),
    ensures
        run_end(src, pos + i, k) == pos + run_end(piece, i, k),
    decreases piece.len() - i,
{
    if i < piece.len() {
        assert(src.subrange(pos, pos + piece.len())[i] == src[pos + i]);
        if in_class(piece[i], k) {
            lemma_run_in_piece(src, pos, piece, i + 1, k);
        }
    }
}

/// The text of a number that reads back, where it stands in a text at `pos`
/// before a closing parenthesis or the end of the text, is scanned as the
/// token of the number.
proof fn lemma_scan_number(src: Seq<char>, pos: int, line: u64, x: u32)
    requires
        number_reads_back(x),
        0 <= pos,
        pos + single_text(x).len() <= src.len(),
        src.subrange(pos, pos + single_text(x).len()) == single_text(x),
        pos + single_text(x).len() == src.len() || src[pos + single_text(x).len()] == ')',
    ensures
        scan_step(src, pos, line) == (Step {
            end: pos + single_text(x).len(),
            line,
            lexed: Lexed::Token(literal_token(ValueView::Number(x), line)),
        }),
{
    let text = single_text(x);
    let n = text.len() as int;
    let piece = src.subrange(pos, pos + n);
    assert forall|i: int| 0 <= i < n implies src[pos + i] == #[trigger] text[i] by {
        assert(piece[i] == src[pos + i]);
    }
    let w = run_end(text, 1, CharClass::Digit);
    lemma_run_end(text, 1, CharClass::Digit);
    lemma_run_in_piece(src, pos, text, 1, CharClass::Digit);
    assert(run_end(src, pos + 1, CharClass::Digit) == pos + w);
    let fraction_here = char_at(text, w) == '.' && is_digit_char(char_at(text, w + 1));
    let fraction_there = char_at(src, pos + w) == '.' && is_digit_char(
        char_at(src, pos + w + 1),
    );
    if w < n {
        assert(src[pos + w] == text[w]);
        if w + 1 < n {
            assert(src[pos + w + 1] == text[w + 1]);
        }
    }
    assert(fraction_here == fraction_there);
    if fraction_here {
        lemma_run_in_piece(src, pos, text, w + 1, CharClass::Digit);
        let end = run_end(text, w + 1, CharClass::Digit);
        assert(end == n);
        assert(src.subrange(pos + w + 1, pos + end) =~= text.subrange(w + 1, end));
    }
    assert(src.subrange(pos, pos + w) =~= text.subrange(0, w));
    assert(src.subrange(pos, pos + n) =~= text.subrange(0, n));
    assert(text.subrange(0, n) =~= text);
    assert(src[pos] == text[0]);
    assert(scan_step(src, pos, line) == number_token(src, pos, line));
}

/// The text of a value that reads back, where it stands in a text at `pos`
/// before a closing parenthesis or the end of the text, is scanned as one
/// token.
proof fn lemma_scan_literal(src: Seq<char>, pos: int, line: u64, value: ValueView)
    requires
        literal_reads_back(value),
        0 <= pos,
        pos + value_text(value).len() <= src.len(),
        src.subrange(pos, pos + value_text(value).len()) == value_text(value),
        pos + value_text(value).len() == src.len() || src[pos + value_text(value).len()] == ')',
    ensures
        value_text(value).len() > 0,
        scan_step(src, pos, line) == (Step {
            end: pos + value_text(value).len(),
            line,
            lexed: Lexed::Token(literal_token(value, line)),
        }),
{
    match value {
        ValueView::Number(x) => {
            lemma_scan_number(src, pos, line, x);
        },
        _ => {
            reveal_strlit("true");
            reveal_strlit("false");
            reveal_strlit("nil");
            lemma_scan_word(src, pos, line, value);
        },
    }
}

/// An opening parenthesis, an operator `-` or `!`, and a space at `pos`
/// are scanned as two tokens.
proof fn lemma_scan_opening(src: Seq<char>, pos: int, line: u64, operator: TokenView)
    requires
        (operator.token_type == TokenType::Minus && operator.lexeme == seq!['-']) || (
        operator.token_type == TokenType::Bang && operator.lexeme == seq!['!']),
        0 <= pos,
        pos + 3 <= src.len(),
        src[pos] == '(',
        src[pos + 1] == operator.lexeme[0],
        src[pos + 2] == ' ',
    ensures
        scan_from(src, pos, line).tokens == seq![
            bare_token(TokenType::LeftParen, seq!['('], line),
            bare_token(operator.token_type, operator.lexeme, line),
        ] + scan_from(src, pos + 3, line).tokens,
        scan_from(src, pos, line).errors == scan_from(src, pos + 3, line).errors,
        scan_from(src, pos, line).line == scan_from(src, pos + 3, line).line,
{
    let s0 = scan_step(src, pos, line);
    let s1 = scan_step(src, pos + 1, line);
    let s2 = scan_step(src, pos + 2, line);
    assert(src.subrange(pos, pos + 1) =~= seq!['(']);
    assert(src.subrange(pos + 1, pos + 2) =~= operator.lexeme);
    assert(s0 == Step {
        end: pos + 1,
        line,
        lexed: Lexed::Token(bare_token(TokenType::LeftParen, seq!['('], line)),
    });
    assert(s1 == Step {
        end: pos + 2,
        line,
        lexed: Lexed::Token(bare_token(operator.token_type, operator.lexeme, line)),
    });
    assert(s2 == Step { end: pos + 3, line, lexed: Lexed::Nothing });
    let at3 = scan_from(src, pos + 3, line);
    let at2 = scan_from(src, pos + 2, line);
    let at1 = scan_from(src, pos + 1, line);
    assert(at2 == at3);
    assert(at1.tokens == seq![bare_token(operator.token_type, operator.lexeme, line)]
        + at2.tokens);
    assert(scan_from(src, pos, line).tokens == seq![
        bare_token(TokenType::LeftParen, seq!['('], line),
    ] + at1.tokens);
    assert(scan_from(src, pos, line).tokens =~= seq![
        bare_token(TokenType::LeftParen, seq!['('], line),
        bare_token(operator.token_type, operator.lexeme, line),
    ] + at3.tokens);
}

/// A closing parenthesis at `pos` is scanned as one token.
proof fn lemma_scan_closing(src: Seq<char>, pos: int, line: u64)
    requires
        0 <= pos < src.len(),
        src[pos] == ')',
    ensures
        scan_from(src, pos, line).tokens == seq![
            bare_token(TokenType::RightParen, seq![')'], line),
        ] + scan_from(src, pos + 1, line).tokens,
        scan_from(src, pos, line).errors == scan_from(src, pos + 1, line).errors,
        scan_from(src, pos, line).line == scan_from(src, pos + 1, line).line,
{
    assert(src.subrange(pos, pos + 1) =~= seq![')']);
    assert(scan_step(src, pos, line) == Step {
        end: pos + 1,
        line,
        lexed: Lexed::Token(bare_token(TokenType::RightParen, seq![')'], line)),
    });
}

/// The text of a tree with a prefix operator: the characters around the
/// text of the operand.
proof fn lemma_unary_text(operator: TokenView, right: ExprView)
    requires
        operator.lexeme.len() == 1,
    ensures
        ({
            let text = expr_text(ExprView::Unary { operator, right: Box::new(right) });
            let inner = expr_text(right);
            &&& text.len() == inner.len() + 4
            &&& text[0] == '('
            &&& text[1] == operator.lexeme[0]
            &&& text[2] == ' '
            &&& text[inner.len() as int + 3] == ')'
            &&& text.subrange(3, inner.len() as int + 3) == inner
        }),
{
    let text = expr_text(ExprView::Unary { operator, right: Box::new(right) });
    let inner = expr_text(right);
    assert(text =~= seq!['('] + operator.lexeme + seq![' '] + inner + seq![')']);
    assert(text.subrange(3, inner.len() as int + 3) =~= inner);
}

/// Scanning the text of a tree that reads back, where it stands before a
/// closing parenthesis or the end of the text, finds the tokens of the
/// tree and no error, and stays on the line.
pub proof fn lemma_scan_text(src: Seq<char>, pos: int, line: u64, e: ExprView)
    requires
        reads_back(e),
        0 <= pos,
        pos + expr_text(e).len() <= src.len(),
        src.subrange(pos, pos + expr_text(e).len()) == expr_text(e),
        pos + expr_text(e).len() == src.len() || src[pos + expr_text(e).len()] == ')',
    ensures
        scan_from(src, pos, line).tokens == text_tokens(e, line) + scan_from(
            src,
            pos + expr_text(e).len(),
            line,
        ).tokens,
        scan_from(src, pos, line).errors == scan_from(src, pos + expr_text(e).len(), line).errors,
        scan_from(src, pos, line).line == scan_from(src, pos + expr_text(e).len(), line).line,
    decreases e,
{
    let text = expr_text(e);
    let n = text.len() as int;
    match e {
        ExprView::Literal { value } => {
            lemma_scan_literal(src, pos, line, value);
            let rest = scan_from(src, pos + n, line);
            assert(scan_from(src, pos, line).tokens == seq![literal_token(value, line)]
                + rest.tokens);
        },
        ExprView::Unary { operator, right } => {
            let inner = expr_text(*right);
            let m = inner.len() as int;
            lemma_unary_text(operator, *right);
            let piece = src.subrange(pos, pos + n);
            assert(piece[0] == src[pos]);
            assert(piece[1] == src[pos + 1]);
            assert(piece[2] == src[pos + 2]);
            assert(piece[m + 3] == src[pos + m + 3]);
            assert(src.subrange(pos + 3, pos + 3 + m) =~= piece.subrange(3, m + 3));
            lemma_scan_opening(src, pos, line, operator);
            lemma_scan_text(src, pos + 3, line, *right);
            lemma_scan_closing(src, pos + 3 + m, line);
            let after = scan_from(src, pos + n, line);
            assert(scan_from(src, pos, line).tokens =~= text_tokens(e, line) + after.tokens);
        },
        _ => {},
    }
}

/// Whether a kind of token is a binary operator of some level.
pub open spec fn is_binary_operator(t: TokenType) -> bool {
    is_level_operator(t, 1) || is_level_operator(t, 2) || is_level_operator(t, 3)
        || is_level_operator(t, 4)
}

/// Where `unary` yields a tree and the token after it is no binary
/// operator, each level above yields the same.
pub proof fn lemma_level_of_unary(ts: Seq<TokenView>, pos: int, level: nat)
    requires
        level <= 4,
        parse_unary(ts, pos).result is Ok,
        0 <= pos + parse_unary(ts, pos).consumed < ts.len(),
        !is_binary_operator(ts[pos + parse_unary(ts, pos).consumed].token_type),
    ensures
        parse_level(ts, pos, level) == parse_unary(ts, pos),
    decreases level,
{
    if level > 0 {
        lemma_level_of_unary(ts, pos, (level - 1) as nat);
        let first = parse_unary(ts, pos);
        let left = first.result->Ok_0;
        assert(!is_level_operator(ts[pos + first.consumed].token_type, level));
        assert(parse_chain(ts, left, pos + first.consumed, level) == Parsed {
            result: Ok(left),
            consumed: 0,
        });
    }
}

/// Parsing the tokens of a tree that reads back yields the tree, with each
/// operator and its operand in a group.
pub proof fn lemma_parse_text(ts: Seq<TokenView>, pos: int, line: u64, e: ExprView)
    requires
        reads_back(e),
        0 <= pos,
        pos + text_tokens(e, line).len() <= ts.len(),
        ts.subrange(pos, pos + text_tokens(e, line).len()) == text_tokens(e, line),
    ensures
        parse_unary(ts, pos) == (Parsed {
            result: Ok(read_back(e, line)),
            consumed: text_tokens(e, line).len(),
        }),
    decreases e,
{
    let tokens = text_tokens(e, line);
    let n = tokens.len() as int;
    assert forall|i: int| 0 <= i < n implies ts[pos + i] == tokens[i] by {
        assert(ts.subrange(pos, pos + n)[i] == ts[pos + i]);
    }
    match e {
        ExprView::Literal { value } => {
            assert(ts[pos] == tokens[0]);
            assert(parse_unary(ts, pos) == parse_primary(ts, pos));
            assert(token_value(ts[pos]) == value);
        },
        ExprView::Unary { operator, right } => {
            let inner = text_tokens(*right, line);
            let m = inner.len() as int;
            assert(n == m + 3);
            assert(ts[pos] == tokens[0]);
            assert(ts[pos + 1] == tokens[1]);
            assert(ts[pos + 2 + m] == tokens[2 + m]);
            assert forall|i: int| 0 <= i < m implies ts[pos + 2 + i] == inner[i] by {
                assert(tokens[2 + i] == inner[i]);
            }
            assert(ts.subrange(pos + 2, pos + 2 + m) =~= inner);
            lemma_parse_text(ts, pos + 2, line, *right);
            let operand = parse_unary(ts, pos + 2);
            let prefixed = parse_unary(ts, pos + 1);
            assert(prefixed == Parsed {
                result: Ok(
                    ExprView::Unary {
                        operator: ts[pos + 1],
                        right: Box::new(read_back(*right, line)),
                    },
                ),
                consumed: (1 + m) as nat,
            });
            assert(ts[pos + 1 + prefixed.consumed].token_type == TokenType::RightParen);
            lemma_level_of_unary(ts, pos + 1, 4);
            assert(parse_unary(ts, pos) == parse_primary(ts, pos));
        },
        _ => {},
    }
}

/// A tree and the tree that its text is parsed to have the same value.
pub proof fn lemma_read_back_value(e: ExprView, line: u64)
    requires
        reads_back(e),
    ensures
        evaluation(read_back(e, line)) == evaluation(e),
    decreases e,
{
    match e {
        ExprView::Unary { operator, right } => {
            lemma_read_back_value(*right, line);
            let inner = ExprView::Unary {
                operator: bare_token(operator.token_type, operator.lexeme, line),
                right: Box::new(read_back(*right, line)),
            };
            assert(evaluation(read_back(e, line)) == evaluation(inner));
        },
        _ => {},
    }
}

/// Writing and reading back: where a tree is made of `true`, `false`, `nil`
/// and the prefix operators `-` and `!`, scanning its text, parsing the
/// tokens and evaluating the tree that comes out gives what evaluating the
/// tree itself gives, the same value or the same failure.
pub proof fn lemma_text_reads_back(e: ExprView)
    requires
        reads_back(e),
    ensures
        interpretation(expr_text(e)) == evaluation(e),
{
    let src = expr_text(e);
    let n = src.len() as int;
    assert(src.subrange(0, n) =~= src);
    lemma_scan_text(src, 0, 1, e);
    let scan = scan_from(src, 0, 1);
    let end = scan_from(src, n, 1);
    assert(end.tokens =~= Seq::<TokenView>::empty());
    assert(scan.tokens =~= text_tokens(e, 1));
    let all = all_tokens(src);
    let count = text_tokens(e, 1).len() as int;
    assert(all.subrange(0, count) =~= text_tokens(e, 1));
    lemma_parse_text(all, 0, 1, e);
    assert(all[count] == eof_token(1));
    lemma_level_of_unary(all, 0, 4);
    lemma_read_back_value(e, 1);
}

/// Scanning is repeatable: two scanners that hold the same text and stand
/// at the same place on the same line find the same tokens and the same
/// errors.
pub proof fn lemma_scan_repeatable(first: Scanner, second: Scanner)
    requires
        first.source() == second.source(),
        first.position() == second.position(),
        first.line() == second.line(),
    ensures
        scan_from(first.source(), first.position(), first.line()) == scan_from(
            second.source(),
            second.position(),
            second.line(),
        ),
{
}

/// Evaluation is repeatable: it has no state, so that two trees of the same
/// content have the same value or fail with the same message.
pub proof fn lemma_evaluate_repeatable(first: ExprView, second: ExprView)
    requires
        first == second,
    ensures
        evaluation(first) == evaluation(second),
{
}

} // verus!
