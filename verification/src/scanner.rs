//! The scanner: from source text to tokens.

use vstd::prelude::*;
use vstd::hash_map::StringHashMap;
use crate::decimal::{double_of_literal, is_digit_char, literal_double, nat_digits, push_u64_digits};
use crate::text::{append_chars, chars_of, string_of, string_of_range};

verus! {

/// The kinds of token.
#[derive(Debug, Clone, Copy, PartialEq, Eq, Structural)]
pub enum TokenType {
    // One character.
    LeftParen,
    RightParen,
    LeftBrace,
    RightBrace,
    Comma,
    Dot,
    Minus,
    Plus,
    Semicolon,
    Slash,
    Star,
    Not,
    // One or two characters.
    Bang,
    BangEqual,
    Equal,
    EqualEqual,
    Greater,
    GreaterEqual,
    Less,
    LessEqual,
    // Literals.
    Identifier,
    StringKing,
    Number,
    // Reserved words.
    And,
    Class,
    Else,
    False,
    Fun,
    For,
    If,
    Nil,
    Or,
    Print,
    Return,
    Super,
    This,
    True,
    Var,
    While,
    Eof,
}

/// The name of a token kind.
pub open spec fn token_type_name(t: TokenType) -> Seq<char> {
    match t {
        TokenType::LeftParen => "LeftParen"@,
        TokenType::RightParen => "RightParen"@,
        TokenType::LeftBrace => "LeftBrace"@,
        TokenType::RightBrace => "RightBrace"@,
        TokenType::Comma => "Comma"@,
        TokenType::Dot => "Dot"@,
        TokenType::Minus => "Minus"@,
        TokenType::Plus => "Plus"@,
        TokenType::Semicolon => "Semicolon"@,
        TokenType::Slash => "Slash"@,
        TokenType::Star => "Star"@,
        TokenType::Not => "Not"@,
        TokenType::Bang => "Bang"@,
        TokenType::BangEqual => "BangEqual"@,
        TokenType::Equal => "Equal"@,
        TokenType::EqualEqual => "EqualEqual"@,
        TokenType::Greater => "Greater"@,
        TokenType::GreaterEqual => "GreaterEqual"@,
        TokenType::Less => "Less"@,
        TokenType::LessEqual => "LessEqual"@,
        TokenType::Identifier => "Identifier"@,
        TokenType::StringKing => "StringKing"@,
        TokenType::Number => "Number"@,
        TokenType::And => "And"@,
        TokenType::Class => "Class"@,
        TokenType::Else => "Else"@,
        TokenType::False => "False"@,
        TokenType::Fun => "Fun"@,
        TokenType::For => "For"@,
        TokenType::If => "If"@,
        TokenType::Nil => "Nil"@,
        TokenType::Or => "Or"@,
        TokenType::Print => "Print"@,
        TokenType::Return => "Return"@,
        TokenType::Super => "Super"@,
        TokenType::This => "This"@,
        TokenType::True => "True"@,
        TokenType::Var => "Var"@,
        TokenType::While => "While"@,
        TokenType::Eof => "Eof"@,
    }
}

impl TokenType {
    /// The name of the kind, as text.
    pub fn to_string(&self) -> (s: String)
        ensures
            s@ == token_type_name(*self),
    {
        match self {
            TokenType::LeftParen => "LeftParen".to_string(),
            TokenType::RightParen => "RightParen".to_string(),
            TokenType::LeftBrace => "LeftBrace".to_string(),
            TokenType::RightBrace => "RightBrace".to_string(),
            TokenType::Comma => "Comma".to_string(),
            TokenType::Dot => "Dot".to_string(),
            TokenType::Minus => "Minus".to_string(),
            TokenType::Plus => "Plus".to_string(),
            TokenType::Semicolon => "Semicolon".to_string(),
            TokenType::Slash => "Slash".to_string(),
            TokenType::Star => "Star".to_string(),
            TokenType::Not => "Not".to_string(),
            TokenType::Bang => "Bang".to_string(),
            TokenType::BangEqual => "BangEqual".to_string(),
            TokenType::Equal => "Equal".to_string(),
            TokenType::EqualEqual => "EqualEqual".to_string(),
            TokenType::Greater => "Greater".to_string(),
            TokenType::GreaterEqual => "GreaterEqual".to_string(),
            TokenType::Less => "Less".to_string(),
            TokenType::LessEqual => "LessEqual".to_string(),
            TokenType::Identifier => "Identifier".to_string(),
            TokenType::StringKing => "StringKing".to_string(),
            TokenType::Number => "Number".to_string(),
            TokenType::And => "And".to_string(),
            TokenType::Class => "Class".to_string(),
            TokenType::Else => "Else".to_string(),
            TokenType::False => "False".to_string(),
            TokenType::Fun => "Fun".to_string(),
            TokenType::For => "For".to_string(),
            TokenType::If => "If".to_string(),
            TokenType::Nil => "Nil".to_string(),
            TokenType::Or => "Or".to_string(),
            TokenType::Print => "Print".to_string(),
            TokenType::Return => "Return".to_string(),
            TokenType::Super => "Super".to_string(),
            TokenType::This => "This".to_string(),
            TokenType::True => "True".to_string(),
            TokenType::Var => "Var".to_string(),
            TokenType::While => "While".to_string(),
            TokenType::Eof => "Eof".to_string(),
        }
    }
}

/// What a token carries besides its text. A number is carried as the bit
/// pattern of a binary64 number.
#[derive(Debug)]
pub enum LiteralValue {
    IntValue(i64),
    FValue(u64),
    StringValue(String),
    IdentifierValue(String),
}

/// The mathematical content of a `LiteralValue`.
pub enum LiteralView {
    IntValue(i64),
    FValue(u64),
    StringValue(Seq<char>),
    IdentifierValue(Seq<char>),
}

impl View for LiteralValue {
    type V = LiteralView;

    open spec fn view(&self) -> LiteralView {
        match self {
            LiteralValue::IntValue(x) => LiteralView::IntValue(*x),
            LiteralValue::FValue(x) => LiteralView::FValue(*x),
            LiteralValue::StringValue(s) => LiteralView::StringValue(s@),
            LiteralValue::IdentifierValue(s) => LiteralView::IdentifierValue(s@),
        }
    }
}

impl Clone for LiteralValue {
    fn clone(&self) -> (r: Self)
        ensures
            r@ == self@,
    {
        match self {
            LiteralValue::IntValue(x) => LiteralValue::IntValue(*x),
            LiteralValue::FValue(x) => LiteralValue::FValue(*x),
            LiteralValue::StringValue(s) => LiteralValue::StringValue(s.clone()),
            LiteralValue::IdentifierValue(s) => LiteralValue::IdentifierValue(s.clone()),
        }
    }
}

/// A classified, positioned fragment of source text.
#[derive(Debug)]
pub struct Token {
    pub token_type: TokenType,
    pub lexeme: String,
    pub literal: Option<LiteralValue>,
    pub line_number: u64,
}

/// The mathematical content of a `Token`.
pub struct TokenView {
    pub token_type: TokenType,
    pub lexeme: Seq<char>,
    pub literal: Option<LiteralView>,
    pub line_number: u64,
}

/// The content of an optional literal.
pub open spec fn literal_view(literal: Option<LiteralValue>) -> Option<LiteralView> {
    match literal {
        Some(l) => Some(l@),
        None => None,
    }
}

impl View for Token {
    type V = TokenView;

    open spec fn view(&self) -> TokenView {
        TokenView {
            token_type: self.token_type,
            lexeme: self.lexeme@,
            literal: literal_view(self.literal),
            line_number: self.line_number,
        }
    }
}

impl Clone for Token {
    fn clone(&self) -> (r: Self)
        ensures
            r@ == self@,
    {
        let literal = match &self.literal {
            Some(l) => Some(l.clone()),
            None => None,
        };
        Token {
            token_type: self.token_type,
            lexeme: self.lexeme.clone(),
            literal,
            line_number: self.line_number,
        }
    }
}

impl Token {
    /// A token of the four parts.
    pub fn new(
        token_type: TokenType,
        lexeme: String,
        literal: Option<LiteralValue>,
        line_number: u64,
    ) -> (r: Self)
        ensures
            r.token_type == token_type,
            r.lexeme == lexeme,
            r.literal == literal,
            r.line_number == line_number,
    {
        Self { token_type, lexeme, literal, line_number }
    }
}

/// The contents of a sequence of tokens.
pub open spec fn token_views(tokens: Seq<Token>) -> Seq<TokenView> {
    tokens.map_values(|t: Token| t@)
}

/// Whether `ch` is a decimal digit.
pub fn is_digit(ch: char) -> (r: bool)
    ensures
        r == is_digit_char(ch),
{
    ch >= '0' && ch <= '9'
}

/// Whether `c` is a letter of the Latin alphabet or an underscore.
pub open spec fn is_alpha_char(c: char) -> bool {
    ('a' <= c <= 'z') || ('A' <= c <= 'Z') || c == '_'
}

/// Whether `ch` is a letter of the Latin alphabet or an underscore.
pub fn is_alpha(ch: char) -> (r: bool)
    ensures
        r == is_alpha_char(ch),
{
    (ch >= 'a' && ch <= 'z') || (ch >= 'A' && ch <= 'Z') || ch == '_'
}

/// Whether `ch` is a letter, an underscore or a digit.
pub fn is_alpha_numeric(ch: char) -> (r: bool)
    ensures
        r == (is_alpha_char(ch) || is_digit_char(ch)),
{
    is_alpha(ch) || is_digit(ch)
}

/// The reserved words and their token kinds.
pub open spec fn keyword_table() -> Map<Seq<char>, TokenType> {
    Map::<Seq<char>, TokenType>::empty().insert("and"@, TokenType::And).insert(
        "class"@,
        TokenType::Class,
    ).insert("else"@, TokenType::Else).insert("false"@, TokenType::False).insert(
        "for"@,
        TokenType::For,
    ).insert("fun"@, TokenType::Fun).insert("if"@, TokenType::If).insert(
        "nil"@,
        TokenType::Nil,
    ).insert("or"@, TokenType::Or).insert("print"@, TokenType::Print).insert(
        "return"@,
        TokenType::Return,
    ).insert("super"@, TokenType::Super).insert("this"@, TokenType::This).insert(
        "true"@,
        TokenType::True,
    ).insert("var"@, TokenType::Var).insert("while"@, TokenType::While)
}

/// The kind of the word `text`: that of the reserved word, else `Identifier`.
pub open spec fn word_kind(text: Seq<char>) -> TokenType {
    if keyword_table().contains_key(text) {
        keyword_table()[text]
    } else {
        TokenType::Identifier
    }
}

/// The table of the reserved words.
pub fn get_keywords_hashmap() -> (m: StringHashMap<TokenType>)
    ensures
        m@ == keyword_table(),
{
    let mut m: StringHashMap<TokenType> = StringHashMap::new();
    m.insert("and".to_string(), TokenType::And);
    m.insert("class".to_string(), TokenType::Class);
    m.insert("else".to_string(), TokenType::Else);
    m.insert("false".to_string(), TokenType::False);
    m.insert("for".to_string(), TokenType::For);
    m.insert("fun".to_string(), TokenType::Fun);
    m.insert("if".to_string(), TokenType::If);
    m.insert("nil".to_string(), TokenType::Nil);
    m.insert("or".to_string(), TokenType::Or);
    m.insert("print".to_string(), TokenType::Print);
    m.insert("return".to_string(), TokenType::Return);
    m.insert("super".to_string(), TokenType::Super);
    m.insert("this".to_string(), TokenType::This);
    m.insert("true".to_string(), TokenType::True);
    m.insert("var".to_string(), TokenType::Var);
    m.insert("while".to_string(), TokenType::While);
    m
}

/// The character at index `i`, or the null character outside the text.
pub open spec fn char_at(src: Seq<char>, i: int) -> char {
    if 0 <= i < src.len() {
        src[i]
    } else {
        '\0'
    }
}

/// The kinds of character that a run is made of.
#[derive(Debug, Clone, Copy, PartialEq, Eq, Structural)]
pub enum CharClass {
    /// Decimal digits.
    Digit,
    /// Letters, underscores and digits.
    Word,
    /// All but the line feed.
    NotNewline,
    /// All but the double quote.
    NotQuote,
}

/// Whether `c` is of the class `k`.
pub open spec fn in_class(c: char, k: CharClass) -> bool {
    match k {
        CharClass::Digit => is_digit_char(c),
        CharClass::Word => is_alpha_char(c) || is_digit_char(c),
        CharClass::NotNewline => c != '\n',
        CharClass::NotQuote => c != '"',
    }
}

/// Where the longest run of characters of class `k` that starts at `from`
/// ends: the first index from `from` on that holds no such character.
pub open spec fn run_end(src: Seq<char>, from: int, k: CharClass) -> int
    decreases src.len() - from,
{
    if 0 <= from < src.len() && in_class(src[from], k) {
        run_end(src, from + 1, k)
    } else {
        from
    }
}

/// The line after `line`; the count stops at the largest number.
pub open spec fn next_line(line: u64) -> u64 {
    if line < u64::MAX {
        (line + 1) as u64
    } else {
        line
    }
}

/// The line reached from `line` over the characters from `from` up to `to`.
pub open spec fn line_after(src: Seq<char>, from: int, to: int, line: u64) -> u64
    decreases to - from,
{
    if from >= to {
        line
    } else {
        line_after(
            src,
            from + 1,
            to,
            if char_at(src, from) == '\n' {
                next_line(line)
            } else {
                line
            },
        )
    }
}

/// What one step of the scanner finds.
pub enum Lexed {
    /// A token.
    Token(TokenView),
    /// White space or a comment.
    Nothing,
    /// A lexical error, with its message.
    Error(Seq<char>),
}

/// One step of the scanner: where it ends, the line there, and what it found.
pub struct Step {
    pub end: int,
    pub line: u64,
    pub lexed: Lexed,
}

/// The token of kind `kind` whose text runs from `start` up to `end`.
pub open spec fn plain_token(src: Seq<char>, kind: TokenType, start: int, end: int, line: u64)
    -> Step {
    Step {
        end,
        line,
        lexed: Lexed::Token(
            TokenView {
                token_type: kind,
                lexeme: src.subrange(start, end),
                literal: None,
                line_number: line,
            },
        ),
    }
}

/// The token for an operator of one character that an `=` may follow.
pub open spec fn operator_token(
    src: Seq<char>,
    start: int,
    line: u64,
    alone: TokenType,
    with_equal: TokenType,
) -> Step {
    if char_at(src, start + 1) == '=' {
        plain_token(src, with_equal, start, start + 2, line)
    } else {
        plain_token(src, alone, start, start + 1, line)
    }
}

/// The token for a string literal whose opening quote is at `start`. The
/// literal runs to the next double quote, over line feeds too; the token
/// carries the text between the quotes and the line of the closing quote.
/// Without a closing quote the rest of the text is consumed and an error is
/// reported.
pub open spec fn string_token(src: Seq<char>, start: int, line: u64) -> Step {
    let close = run_end(src, start + 1, CharClass::NotQuote);
    let last_line = line_after(src, start + 1, close, line);
    if close >= src.len() {
        Step { end: close, line: last_line, lexed: Lexed::Error("Unterminated String"@) }
    } else {
        Step {
            end: close + 1,
            line: last_line,
            lexed: Lexed::Token(
                TokenView {
                    token_type: TokenType::StringKing,
                    lexeme: src.subrange(start, close + 1),
                    literal: Some(LiteralView::StringValue(src.subrange(start + 1, close))),
                    line_number: last_line,
                },
            ),
        }
    }
}

/// The token for a number literal that starts at `start`: digits, and after
/// them a point and more digits where a digit follows the point. It carries
/// the binary64 number nearest to the literal.
pub open spec fn number_token(src: Seq<char>, start: int, line: u64) -> Step {
    let whole_end = run_end(src, start + 1, CharClass::Digit);
    let with_fraction = char_at(src, whole_end) == '.' && is_digit_char(
        char_at(src, whole_end + 1),
    );
    let end = if with_fraction {
        run_end(src, whole_end + 1, CharClass::Digit)
    } else {
        whole_end
    };
    let fraction = if with_fraction {
        src.subrange(whole_end + 1, end)
    } else {
        Seq::<char>::empty()
    };
    Step {
        end,
        line,
        lexed: Lexed::Token(
            TokenView {
                token_type: TokenType::Number,
                lexeme: src.subrange(start, end),
                literal: Some(
                    LiteralView::FValue(literal_double(src.subrange(start, whole_end), fraction)),
                ),
                line_number: line,
            },
        ),
    }
}

/// The token for the word that starts at `start`: a reserved word or an
/// identifier.
pub open spec fn word_token(src: Seq<char>, start: int, line: u64) -> Step {
    let end = run_end(src, start + 1, CharClass::Word);
    plain_token(src, word_kind(src.subrange(start, end)), start, end, line)
}

/// The message for a character that starts no token.
pub open spec fn unrecognised_message(line: u64, c: char) -> Seq<char> {
    "Unrecognised character at line "@ + nat_digits(line as nat) + seq![':', ' ', c]
}

/// The step of the scanner at index `start`, which lies within the text.
pub open spec fn scan_step(src: Seq<char>, start: int, line: u64) -> Step {
    let c = char_at(src, start);
    let skip = Step { end: start + 1, line, lexed: Lexed::Nothing };
    if c == '(' {
        plain_token(src, TokenType::LeftParen, start, start + 1, line)
    } else if c == ')' {
        plain_token(src, TokenType::RightParen, start, start + 1, line)
    } else if c == '{' {
        plain_token(src, TokenType::LeftBrace, start, start + 1, line)
    } else if c == '}' {
        plain_token(src, TokenType::RightBrace, start, start + 1, line)
    } else if c == ',' {
        plain_token(src, TokenType::Comma, start, start + 1, line)
    } else if c == '.' {
        plain_token(src, TokenType::Dot, start, start + 1, line)
    } else if c == '-' {
        plain_token(src, TokenType::Minus, start, start + 1, line)
    } else if c == '+' {
        plain_token(src, TokenType::Plus, start, start + 1, line)
    } else if c == ';' {
        plain_token(src, TokenType::Semicolon, start, start + 1, line)
    } else if c == '*' {
        plain_token(src, TokenType::Star, start, start + 1, line)
    } else if c == '!' {
        operator_token(src, start, line, TokenType::Bang, TokenType::BangEqual)
    } else if c == '=' {
        operator_token(src, start, line, TokenType::Equal, TokenType::EqualEqual)
    } else if c == '<' {
        operator_token(src, start, line, TokenType::Less, TokenType::LessEqual)
    } else if c == '>' {
        operator_token(src, start, line, TokenType::Greater, TokenType::GreaterEqual)
    } else if c == '/' {
        if char_at(src, start + 1) == '/' {
            Step { end: run_end(src, start + 2, CharClass::NotNewline), line, lexed: Lexed::Nothing }
        } else {
            plain_token(src, TokenType::Slash, start, start + 1, line)
        }
    } else if c == ' ' || c == '\r' || c == '\t' {
        skip
    } else if c == '\n' {
        Step { end: start + 1, line: next_line(line), lexed: Lexed::Nothing }
    } else if c == '"' {
        string_token(src, start, line)
    } else if is_digit_char(c) {
        number_token(src, start, line)
    } else if is_alpha_char(c) {
        word_token(src, start, line)
    } else {
        Step { end: start + 1, line, lexed: Lexed::Error(unrecognised_message(line, c)) }
    }
}

/// A run ends at or after its start, within the text, and holds only
/// characters of its class.
pub proof fn lemma_run_end(src: Seq<char>, from: int, k: CharClass)
    requires
        0 <= from <= src.len(),
    ensures
        from <= run_end(src, from, k) <= src.len(),
        forall|i: int| from <= i < run_end(src, from, k) ==> in_class(#[trigger] src[i], k),
        !in_class(char_at(src, run_end(src, from, k)), k) || run_end(src, from, k) == src.len(),
    decreases src.len() - from,
{
    if from < src.len() && in_class(src[from], k) {
        lemma_run_end(src, from + 1, k);
    }
}

/// Every step of the scanner consumes at least one character and stays
/// within the text.
pub proof fn lemma_step_advances(src: Seq<char>, start: int, line: u64)
    requires
        0 <= start < src.len(),
    ensures
        start < scan_step(src, start, line).end <= src.len(),
{
    lemma_run_end(src, start + 1, CharClass::NotQuote);
    lemma_run_end(src, start + 1, CharClass::Digit);
    lemma_run_end(src, start + 1, CharClass::Word);
    let whole_end = run_end(src, start + 1, CharClass::Digit);
    if whole_end + 1 <= src.len() {
        lemma_run_end(src, whole_end + 1, CharClass::Digit);
    }
    if start + 2 <= src.len() {
        lemma_run_end(src, start + 2, CharClass::NotNewline);
    }
}

/// What scanning a text yields: the tokens, the messages of the lexical
/// errors, both in the order of the text, and the line reached.
pub struct Scan {
    pub tokens: Seq<TokenView>,
    pub errors: Seq<Seq<char>>,
    pub line: u64,
}

/// Scanning the text from index `pos` on, which lies on the line `line`.
pub open spec fn scan_from(src: Seq<char>, pos: int, line: u64) -> Scan
    decreases src.len() - pos,
    via scan_from_decreases
{
    if pos < 0 || pos >= src.len() {
        Scan { tokens: Seq::empty(), errors: Seq::empty(), line }
    } else {
        let step = scan_step(src, pos, line);
        let rest = scan_from(src, step.end, step.line);
        match step.lexed {
            Lexed::Token(t) => Scan {
                tokens: seq![t] + rest.tokens,
                errors: rest.errors,
                line: rest.line,
            },
            Lexed::Nothing => rest,
            Lexed::Error(m) => Scan {
                tokens: rest.tokens,
                errors: seq![m] + rest.errors,
                line: rest.line,
            },
        }
    }
}

#[via_fn]
proof fn scan_from_decreases(src: Seq<char>, pos: int, line: u64) {
    if 0 <= pos < src.len() {
        lemma_step_advances(src, pos, line);
    }
}

/// The token that ends every scan.
pub open spec fn eof_token(line: u64) -> TokenView {
    TokenView {
        token_type: TokenType::Eof,
        lexeme: Seq::empty(),
        literal: None,
        line_number: line,
    }
}

/// The messages, each followed by a line feed.
pub open spec fn join_lines(messages: Seq<Seq<char>>) -> Seq<char>
    decreases messages.len(),
{
    if messages.len() == 0 {
        Seq::empty()
    } else {
        join_lines(messages.drop_last()) + messages.last() + seq!['\n']
    }
}

/// The contents of `tokens`, as new tokens.
pub fn clone_tokens(tokens: &Vec<Token>) -> (r: Vec<Token>)
    ensures
        token_views(r@) == token_views(tokens@),
{
    let mut r: Vec<Token> = Vec::new();
    let mut i: usize = 0;
    while i < tokens.len()
        invariant
            i <= tokens.len(),
            r.len() == i,
            forall|j: int| 0 <= j < i ==> (#[trigger] r@[j])@ == tokens@[j]@,
        decreases tokens.len() - i,
    {
        r.push(tokens[i].clone());
        i += 1;
    }
    assert(token_views(r@) =~= token_views(tokens@));
    r
}

/// The scanner: a source text and a cursor in it, the line of the cursor,
/// and the tokens found so far.
pub struct Scanner {
    source: Vec<char>,
    tokens: Vec<Token>,
    start: usize,
    current: usize,
    line: u64,
    keywords: StringHashMap<TokenType>,
}

impl Scanner {
    /// The scanner's invariant: the cursor lies within the text, and the
    /// table of reserved words is complete.
    pub closed spec fn wf(&self) -> bool {
        &&& self.keywords@ == keyword_table()
        &&& self.current <= self.source.len()
    }

    /// The source text.
    pub closed spec fn source(&self) -> Seq<char> {
        self.source@
    }

    /// The tokens found so far.
    pub closed spec fn scanned(&self) -> Seq<TokenView> {
        token_views(self.tokens@)
    }

    /// The index of the next character to read.
    pub closed spec fn position(&self) -> int {
        self.current as int
    }

    /// The line of the next character to read.
    pub closed spec fn line(&self) -> u64 {
        self.line
    }

    /// A scanner at the start of `source`, on line 1, with no tokens.
    pub fn new(source: &str) -> (r: Self)
        ensures
            r.wf(),
            r.source() == source@,
            r.scanned() == Seq::<TokenView>::empty(),
            r.position() == 0,
            r.line() == 1,
    {
        let r = Self {
            source: chars_of(source),
            tokens: Vec::new(),
            start: 0,
            current: 0,
            line: 1,
            keywords: get_keywords_hashmap(),
        };
        assert(token_views(r.tokens@) =~= Seq::<TokenView>::empty());
        r
    }

    /// The tokens found so far.
    pub fn tokens(&self) -> (r: &Vec<Token>)
        ensures
            token_views(r@) == self.scanned(),
    {
        &self.tokens
    }

    /// Scans the rest of the text and adds the end-of-input token. If there
    /// was a lexical error, the messages of all of them are returned, each
    /// followed by a line feed; else all tokens of the scanner.
    pub fn scan_tokens(&mut self) -> (r: Result<Vec<Token>, String>)
        requires
            old(self).wf(),
        ensures
            final(self).wf(),
            final(self).source() == old(self).source(),
            final(self).position() == old(self).source().len(),
            ({
                let scan = scan_from(old(self).source(), old(self).position(), old(self).line());
                &&& final(self).line() == scan.line
                &&& final(self).scanned() == old(self).scanned() + scan.tokens + seq![
                    eof_token(scan.line),
                ]
                &&& match r {
                    Ok(tokens) => scan.errors.len() == 0 && token_views(tokens@) == final(self).scanned(),
                    Err(message) => scan.errors.len() > 0 && message@ == join_lines(scan.errors),
                }
            }),
    {
        let mut errors: Vec<char> = Vec::new();
        let mut failed: bool = false;
        let ghost src = self.source@;
        let ghost total = scan_from(src, self.current as int, self.line);
        let ghost before = token_views(self.tokens@);
        let ghost mut seen: Seq<Seq<char>> = Seq::empty();
        proof {
            assert(before + total.tokens =~= token_views(self.tokens@) + total.tokens);
            assert(seen + total.errors =~= total.errors);
        }
        while !self.is_at_end()
            invariant
                self.wf(),
                self.source@ == src,
                self.current <= src.len(),
                scan_from(src, self.current as int, self.line).line == total.line,
                token_views(self.tokens@) + scan_from(src, self.current as int, self.line).tokens
                    == before + total.tokens,
                seen + scan_from(src, self.current as int, self.line).errors == total.errors,
                errors@ == join_lines(seen),
                failed == (seen.len() > 0),
            decreases src.len() - self.current,
        {
            let ghost step = scan_step(src, self.current as int, self.line);
            let ghost rest = scan_from(src, step.end, step.line);
            let ghost tokens_before = token_views(self.tokens@);
            match self.scan_token() {
                Ok(_) => {
                    proof {
                        match step.lexed {
                            Lexed::Token(t) => {
                                assert(tokens_before.push(t) + rest.tokens =~= tokens_before + (
                                seq![t] + rest.tokens));
                            },
                            _ => {},
                        }
                    }
                },
                Err(msg) => {
                    let message = chars_of(msg.as_str());
                    let ghost m = msg@;
                    proof {
                        assert(seen.push(m) + rest.errors =~= seen + (seq![m] + rest.errors));
                        assert(seen.push(m).drop_last() =~= seen);
                    }
                    append_chars(&mut errors, &message);
                    errors.push('\n');
                    proof {
                        seen = seen.push(m);
                        assert(errors@ =~= join_lines(seen));
                    }
                    failed = true;
                },
            }
        }
        let ghost tokens_before = token_views(self.tokens@);
        self.tokens.push(
            Token {
                token_type: TokenType::Eof,
                lexeme: String::new(),
                literal: None,
                line_number: self.line,
            },
        );
        proof {
            assert(token_views(self.tokens@) =~= tokens_before.push(eof_token(self.line)));
            assert(tokens_before =~= before + total.tokens);
            assert(seen =~= total.errors);
        }
        if failed {
            return Err(string_of(&errors));
        }
        Ok(clone_tokens(&self.tokens))
    }

    /// Whether the whole text has been read.
    pub fn is_at_end(&self) -> (r: bool)
        ensures
            r == (self.position() >= self.source().len()),
    {
        self.current >= self.source.len()
    }

    /// Scans one token, white space, comment or error at the cursor.
    pub fn scan_token(&mut self) -> (r: Result<(), String>)
        requires
            old(self).wf(),
            old(self).position() < old(self).source().len(),
        ensures
            final(self).wf(),
            final(self).source() == old(self).source(),
            old(self).position() < final(self).position() <= old(self).source().len(),
            ({
                let step = scan_step(old(self).source(), old(self).position(), old(self).line());
                &&& final(self).position() == step.end
                &&& final(self).line() == step.line
                &&& match step.lexed {
                    Lexed::Token(t) => r is Ok && final(self).scanned() == old(self).scanned().push(
                        t,
                    ),
                    Lexed::Nothing => r is Ok && final(self).scanned() == old(self).scanned(),
                    Lexed::Error(m) => r is Err && r->Err_0@ == m && final(self).scanned() == old(self).scanned(),
                }
            }),
    {
        proof {
            lemma_step_advances(self.source@, self.current as int, self.line);
        }
        self.start = self.current;
        let c = self.advance();
        match c {
            '(' => self.add_token(TokenType::LeftParen),
            ')' => self.add_token(TokenType::RightParen),
            '{' => self.add_token(TokenType::LeftBrace),
            '}' => self.add_token(TokenType::RightBrace),
            ',' => self.add_token(TokenType::Comma),
            '.' => self.add_token(TokenType::Dot),
            '-' => self.add_token(TokenType::Minus),
            '+' => self.add_token(TokenType::Plus),
            ';' => self.add_token(TokenType::Semicolon),
            '*' => self.add_token(TokenType::Star),
            '!' => {
                let token = if self.char_match('=') {
                    TokenType::BangEqual
                } else {
                    TokenType::Bang
                };
                self.add_token(token);
            },
            '=' => {
                let token = if self.char_match('=') {
                    TokenType::EqualEqual
                } else {
                    TokenType::Equal
                };
                self.add_token(token);
            },
            '<' => {
                let token = if self.char_match('=') {
                    TokenType::LessEqual
                } else {
                    TokenType::Less
                };
                self.add_token(token);
            },
            '>' => {
                let token = if self.char_match('=') {
                    TokenType::GreaterEqual
                } else {
                    TokenType::Greater
                };
                self.add_token(token);
            },
            '/' => {
                if self.char_match('/') {
                    loop
                        invariant
                            self.source == old(self).source,
                            self.tokens == old(self).tokens,
                            self.line == old(self).line,
                            self.keywords == old(self).keywords,
                            self.current <= self.source.len(),
                            run_end(self.source@, self.current as int, CharClass::NotNewline)
                                == run_end(
                                old(self).source@,
                                old(self).current + 2,
                                CharClass::NotNewline,
                            ),
                        ensures
                            self.current == run_end(
                                old(self).source@,
                                old(self).current + 2,
                                CharClass::NotNewline,
                            ),
                        decreases self.source.len() - self.current,
                    {
                        if self.peek() == '\n' || self.is_at_end() {
                            break ;
                        }
                        self.advance();
                    }
                } else {
                    self.add_token(TokenType::Slash);
                }
            },
            ' ' | '\r' | '\t' => {},
            '\n' => {
                self.line = if self.line < u64::MAX {
                    self.line + 1
                } else {
                    self.line
                };
            },
            '"' => {
                return self.string();
            },
            c => {
                if is_digit(c) {
                    self.number();
                } else if is_alpha(c) {
                    self.identifier();
                } else {
                    let mut message = chars_of("Unrecognised character at line ");
                    push_u64_digits(&mut message, self.line);
                    message.push(':');
                    message.push(' ');
                    message.push(c);
                    assert(message@ =~= unrecognised_message(self.line, c));
                    return Err(string_of(&message));
                }
            },
        }
        Ok(())
    }

    /// Reads the rest of a word and adds its token.
    fn identifier(&mut self)
        requires
            old(self).start < old(self).current <= old(self).source.len(),
            old(self).current == old(self).start + 1,
            old(self).keywords@ == keyword_table(),
        ensures
            final(self).source == old(self).source,
            final(self).keywords == old(self).keywords,
            final(self).line == old(self).line,
            final(self).current <= final(self).source.len(),
            ({
                let step = word_token(
                    old(self).source@,
                    old(self).start as int,
                    old(self).line,
                );
                &&& final(self).current == step.end
                &&& step.lexed matches Lexed::Token(t) && token_views(final(self).tokens@)
                    == token_views(old(self).tokens@).push(t)
            }),
    {
        while is_alpha_numeric(self.peek())
            invariant
                self.source == old(self).source,
                self.tokens == old(self).tokens,
                self.line == old(self).line,
                self.keywords == old(self).keywords,
                self.start == old(self).start,
                self.start < self.current <= self.source.len(),
                run_end(self.source@, self.current as int, CharClass::Word) == run_end(
                    old(self).source@,
                    old(self).current as int,
                    CharClass::Word,
                ),
            decreases self.source.len() - self.current,
        {
            self.advance();
        }
        let substring = string_of_range(&self.source, self.start, self.current);
        let kind = match self.keywords.get(substring.as_str()) {
            Some(token_type) => *token_type,
            None => TokenType::Identifier,
        };
        self.add_token(kind);
    }

    /// Reads the rest of a number literal and adds its token.
    fn number(&mut self)
        requires
            old(self).start < old(self).current <= old(self).source.len(),
            old(self).current == old(self).start + 1,
            is_digit_char(old(self).source@[old(self).start as int]),
        ensures
            final(self).source == old(self).source,
            final(self).keywords == old(self).keywords,
            final(self).line == old(self).line,
            final(self).current <= final(self).source.len(),
            ({
                let step = number_token(
                    old(self).source@,
                    old(self).start as int,
                    old(self).line,
                );
                &&& final(self).current == step.end
                &&& step.lexed matches Lexed::Token(t) && token_views(final(self).tokens@)
                    == token_views(old(self).tokens@).push(t)
            }),
    {
        while is_digit(self.peek())
            invariant
                self.source == old(self).source,
                self.tokens == old(self).tokens,
                self.line == old(self).line,
                self.keywords == old(self).keywords,
                self.start == old(self).start,
                self.start < self.current <= self.source.len(),
                forall|i: int| self.start <= i < self.current ==> is_digit_char(
                    #[trigger] self.source@[i],
                ),
                run_end(self.source@, self.current as int, CharClass::Digit) == run_end(
                    old(self).source@,
                    old(self).current as int,
                    CharClass::Digit,
                ),
            decreases self.source.len() - self.current,
        {
            self.advance();
        }
        let whole_end: usize = self.current;
        let mut fraction_from: usize = self.current;
        if self.peek() == '.' && is_digit(self.peek_next()) {
            self.advance();
            fraction_from = self.current;
            while is_digit(self.peek())
                invariant
                    self.source == old(self).source,
                    self.tokens == old(self).tokens,
                    self.line == old(self).line,
                    self.keywords == old(self).keywords,
                    self.start == old(self).start,
                    self.start < whole_end < fraction_from <= self.current <= self.source.len(),
                    forall|i: int| fraction_from <= i < self.current ==> is_digit_char(
                        #[trigger] self.source@[i],
                    ),
                    run_end(self.source@, self.current as int, CharClass::Digit) == run_end(
                        self.source@,
                        whole_end + 1,
                        CharClass::Digit,
                    ),
                decreases self.source.len() - self.current,
            {
                self.advance();
            }
        }
        let value: u64 = double_of_literal(
            &self.source,
            self.start,
            whole_end,
            fraction_from,
            self.current,
        );
        proof {
            assert(self.source@.subrange(fraction_from as int, fraction_from as int)
                =~= Seq::<char>::empty());
        }
        self.add_token_lit(TokenType::Number, Some(LiteralValue::FValue(value)));
    }

    /// The character after the next one, or the null character at the end.
    fn peek_next(&self) -> (c: char)
        ensures
            c == char_at(self.source@, self.current + 1),
    {
        if self.current >= self.source.len() || self.current + 1 >= self.source.len() {
            return '\0';
        }
        self.source[self.current + 1]
    }

    /// Reads the rest of a string literal and adds its token.
    fn string(&mut self) -> (r: Result<(), String>)
        requires
            old(self).start < old(self).current <= old(self).source.len(),
            old(self).current == old(self).start + 1,
        ensures
            final(self).source == old(self).source,
            final(self).keywords == old(self).keywords,
            final(self).current <= final(self).source.len(),
            ({
                let step = string_token(
                    old(self).source@,
                    old(self).start as int,
                    old(self).line,
                );
                &&& final(self).current == step.end
                &&& final(self).line == step.line
                &&& match step.lexed {
                    Lexed::Token(t) => r is Ok && token_views(final(self).tokens@) == token_views(
                        old(self).tokens@,
                    ).push(t),
                    Lexed::Nothing => false,
                    Lexed::Error(m) => r is Err && r->Err_0@ == m && final(self).tokens == old(self).tokens,
                }
            }),
    {
        while self.peek() != '"' && !self.is_at_end()
            invariant
                self.source == old(self).source,
                self.tokens == old(self).tokens,
                self.keywords == old(self).keywords,
                self.start == old(self).start,
                self.start < self.current <= self.source.len(),
                run_end(self.source@, self.current as int, CharClass::NotQuote) == run_end(
                    old(self).source@,
                    old(self).current as int,
                    CharClass::NotQuote,
                ),
                line_after(
                    self.source@,
                    self.current as int,
                    run_end(self.source@, self.current as int, CharClass::NotQuote),
                    self.line,
                ) == line_after(
                    old(self).source@,
                    old(self).current as int,
                    run_end(old(self).source@, old(self).current as int, CharClass::NotQuote),
                    old(self).line,
                ),
            decreases self.source.len() - self.current,
        {
            proof {
                lemma_run_end(self.source@, self.current + 1, CharClass::NotQuote);
            }
            if self.peek() == '\n' {
                self.line = if self.line < u64::MAX {
                    self.line + 1
                } else {
                    self.line
                };
            }
            self.advance();
        }
        if self.is_at_end() {
            return Err("Unterminated String".to_string());
        }
        self.advance();
        let value = string_of_range(&self.source, self.start + 1, self.current - 1);
        self.add_token_lit(TokenType::StringKing, Some(LiteralValue::StringValue(value)));
        Ok(())
    }

    /// The next character, or the null character at the end.
    fn peek(&self) -> (c: char)
        ensures
            c == char_at(self.source@, self.current as int),
    {
        if self.current >= self.source.len() {
            return '\0';
        }
        self.source[self.current]
    }

    /// Reads the next character if it is `ch`.
    fn char_match(&mut self, ch: char) -> (r: bool)
        requires
            old(self).current <= old(self).source.len(),
            ch != '\0',
        ensures
            final(self).source == old(self).source,
            final(self).tokens == old(self).tokens,
            final(self).keywords == old(self).keywords,
            final(self).line == old(self).line,
            final(self).start == old(self).start,
            r == (char_at(old(self).source@, old(self).current as int) == ch),
            final(self).current == old(self).current + if r {
                1int
            } else {
                0int
            },
            final(self).current <= final(self).source.len(),
    {
        if self.current >= self.source.len() {
            return false;
        }
        if self.source[self.current] != ch {
            false
        } else {
            self.current += 1;
            true
        }
    }

    /// Reads the next character.
    fn advance(&mut self) -> (c: char)
        requires
            old(self).current < old(self).source.len(),
        ensures
            final(self).source == old(self).source,
            final(self).tokens == old(self).tokens,
            final(self).keywords == old(self).keywords,
            final(self).line == old(self).line,
            final(self).start == old(self).start,
            final(self).current == old(self).current + 1,
            c == old(self).source@[old(self).current as int],
    {
        let c = self.source[self.current];
        self.current += 1;
        c
    }

    /// Adds a token of the given kind for the text read since the start.
    fn add_token(&mut self, token_type: TokenType)
        requires
            old(self).start <= old(self).current <= old(self).source.len(),
        ensures
            final(self).source == old(self).source,
            final(self).keywords == old(self).keywords,
            final(self).line == old(self).line,
            final(self).start == old(self).start,
            final(self).current == old(self).current,
            token_views(final(self).tokens@) == token_views(old(self).tokens@).push(
                TokenView {
                    token_type,
                    lexeme: old(self).source@.subrange(
                        old(self).start as int,
                        old(self).current as int,
                    ),
                    literal: None,
                    line_number: old(self).line,
                },
            ),
    {
        self.add_token_lit(token_type, None);
    }

    /// Adds a token of the given kind, with what it carries, for the text
    /// read since the start.
    fn add_token_lit(&mut self, token_type: TokenType, literal: Option<LiteralValue>)
        requires
            old(self).start <= old(self).current <= old(self).source.len(),
        ensures
            final(self).source == old(self).source,
            final(self).keywords == old(self).keywords,
            final(self).line == old(self).line,
            final(self).start == old(self).start,
            final(self).current == old(self).current,
            token_views(final(self).tokens@) == token_views(old(self).tokens@).push(
                TokenView {
                    token_type,
                    lexeme: old(self).source@.subrange(
                        old(self).start as int,
                        old(self).current as int,
                    ),
                    literal: literal_view(literal),
                    line_number: old(self).line,
                },
            ),
    {
        let text = string_of_range(&self.source, self.start, self.current);
        let token = Token { token_type, lexeme: text, literal, line_number: self.line };
        let ghost before = token_views(self.tokens@);
        self.tokens.push(token);
        assert(token_views(self.tokens@) =~= before.push(token@));
    }
}

} // verus!
