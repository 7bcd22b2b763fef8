//! The parser: from tokens to an expression tree, by recursive descent.
//!
//! The grammar, from the loosest binding to the tightest:
//!
//! ```text
//! equality   -> comparison ( ( "!=" | "==" ) comparison )*
//! comparison -> term ( ( ">" | ">=" | "<" | "<=" ) term )*
//! term       -> factor ( ( "-" | "+" ) factor )*
//! factor     -> unary ( ( "/" | "*" ) unary )*
//! unary      -> ( "!" | "-" ) unary | primary
//! primary    -> "(" equality ")" | "false" | "true" | "nil" | number | string
//! ```

use vstd::prelude::*;
use crate::expr::{is_value_token, token_value, Expr, ExprView, LiteralValue};
use crate::scanner::{token_views, Token, TokenType, TokenView};

verus! {

/// Why a parse fails.
pub enum ParseFailure {
    /// No expression starts at the token.
    ExpectedExpression,
    /// A group is not closed.
    ExpectedRightParen,
    /// The tokens ended where one more was to be read.
    PastEnd,
}

/// The message of a failure.
pub open spec fn failure_message(f: ParseFailure) -> Seq<char> {
    match f {
        ParseFailure::ExpectedExpression => "Expected expression"@,
        ParseFailure::ExpectedRightParen => "Expected ')'"@,
        ParseFailure::PastEnd => "Past end of input"@,
    }
}

/// What parsing from some token on yields: the tree or the failure, and how
/// many tokens were consumed.
pub struct Parsed {
    pub result: Result<ExprView, ParseFailure>,
    pub consumed: nat,
}

/// How many tokens there are from index `pos` on.
pub open spec fn remaining(ts: Seq<TokenView>, pos: int) -> nat {
    if pos < ts.len() {
        (ts.len() - pos) as nat
    } else {
        0
    }
}

/// The kinds of token that are a value by themselves.
pub open spec fn is_value_kind(t: TokenType) -> bool {
    t == TokenType::False || t == TokenType::True || t == TokenType::Nil || t == TokenType::Number
        || t == TokenType::StringKing
}

/// Whether a number or string token carries its value.
pub open spec fn well_formed_token(t: TokenView) -> bool {
    is_value_kind(t.token_type) ==> is_value_token(t)
}

/// The binary operators of a level of the grammar: 1 for `factor`, 2 for
/// `term`, 3 for `comparison`, 4 for `equality`.
pub open spec fn is_level_operator(t: TokenType, level: nat) -> bool {
    if level == 1 {
        t == TokenType::Slash || t == TokenType::Star
    } else if level == 2 {
        t == TokenType::Minus || t == TokenType::Plus
    } else if level == 3 {
        t == TokenType::Greater || t == TokenType::GreaterEqual || t == TokenType::Less || t
            == TokenType::LessEqual
    } else if level == 4 {
        t == TokenType::BangEqual || t == TokenType::EqualEqual
    } else {
        false
    }
}

/// `primary` at index `pos`.
pub open spec fn parse_primary(ts: Seq<TokenView>, pos: int) -> Parsed
    decreases remaining(ts, pos), 0nat, 0nat,
{
    if !(0 <= pos < ts.len()) {
        Parsed { result: Err(ParseFailure::PastEnd), consumed: 0 }
    } else if ts[pos].token_type == TokenType::LeftParen {
        let inner = parse_level(ts, pos + 1, 4);
        let close = pos + 1 + inner.consumed;
        match inner.result {
            Err(f) => Parsed { result: Err(f), consumed: 1 + inner.consumed },
            Ok(e) => if !(close < ts.len()) {
                Parsed { result: Err(ParseFailure::PastEnd), consumed: 1 + inner.consumed }
            } else if ts[close].token_type == TokenType::RightParen {
                Parsed {
                    result: Ok(ExprView::Grouping { expression: Box::new(e) }),
                    consumed: 2 + inner.consumed,
                }
            } else {
                Parsed {
                    result: Err(ParseFailure::ExpectedRightParen),
                    consumed: 1 + inner.consumed,
                }
            },
        }
    } else if is_value_kind(ts[pos].token_type) {
        Parsed { result: Ok(ExprView::Literal { value: token_value(ts[pos]) }), consumed: 1 }
    } else {
        Parsed { result: Err(ParseFailure::ExpectedExpression), consumed: 0 }
    }
}

/// `unary` at index `pos`.
pub open spec fn parse_unary(ts: Seq<TokenView>, pos: int) -> Parsed
    decreases remaining(ts, pos), 1nat, 0nat,
{
    if !(0 <= pos < ts.len()) {
        Parsed { result: Err(ParseFailure::PastEnd), consumed: 0 }
    } else if ts[pos].token_type == TokenType::Bang || ts[pos].token_type == TokenType::Minus {
        let operand = parse_unary(ts, pos + 1);
        Parsed {
            result: match operand.result {
                Ok(e) => Ok(ExprView::Unary { operator: ts[pos], right: Box::new(e) }),
                Err(f) => Err(f),
            },
            consumed: 1 + operand.consumed,
        }
    } else {
        parse_primary(ts, pos)
    }
}

/// The rule of a level at index `pos`: level 0 is `unary`, and each level
/// above is a chain of the level below, joined by the level's operators.
pub open spec fn parse_level(ts: Seq<TokenView>, pos: int, level: nat) -> Parsed
    decreases remaining(ts, pos), level + 1, 1nat,
{
    if level == 0 {
        parse_unary(ts, pos)
    } else {
        let first = parse_level(ts, pos, (level - 1) as nat);
        match first.result {
            Err(f) => first,
            Ok(left) => {
                let rest = parse_chain(ts, left, pos + first.consumed, level);
                Parsed { result: rest.result, consumed: first.consumed + rest.consumed }
            },
        }
    }
}

/// The rest of a chain at index `pos`, after the operand `left`: as long as
/// an operator of the level follows, the operand after it is joined to what
/// came before, which makes the operators associate to the left.
pub open spec fn parse_chain(ts: Seq<TokenView>, left: ExprView, pos: int, level: nat) -> Parsed
    decreases remaining(ts, pos), level + 1, 0nat,
{
    if !(0 <= pos < ts.len()) {
        Parsed { result: Err(ParseFailure::PastEnd), consumed: 0 }
    } else if level >= 1 && is_level_operator(ts[pos].token_type, level) {
        let operand = parse_level(ts, pos + 1, (level - 1) as nat);
        match operand.result {
            Err(f) => Parsed { result: Err(f), consumed: 1 + operand.consumed },
            Ok(right) => {
                let joined = ExprView::Binary {
                    left: Box::new(left),
                    operator: ts[pos],
                    right: Box::new(right),
                };
                let rest = parse_chain(ts, joined, pos + 1 + operand.consumed, level);
                Parsed { result: rest.result, consumed: 1 + operand.consumed + rest.consumed }
            },
        }
    } else {
        Parsed { result: Ok(left), consumed: 0 }
    }
}

/// A whole expression at index `pos`.
pub open spec fn parse_expression(ts: Seq<TokenView>, pos: int) -> Parsed {
    parse_level(ts, pos, 4)
}

/// Whether what the parser returned is what the grammar yields.
pub open spec fn agrees(r: Result<Expr, String>, p: Result<ExprView, ParseFailure>) -> bool {
    match r {
        Ok(e) => p == Ok::<ExprView, ParseFailure>(e@),
        Err(m) => p is Err && m@ == failure_message(p->Err_0),
    }
}

/// The kinds of token at which a statement starts.
pub open spec fn starts_statement(t: TokenType) -> bool {
    t == TokenType::Class || t == TokenType::Fun || t == TokenType::Var || t == TokenType::For
        || t == TokenType::If || t == TokenType::While || t == TokenType::Print || t
        == TokenType::Return
}

/// The index after the token at `pos`, unless that token ends the input.
pub open spec fn after_advance(ts: Seq<TokenView>, pos: int) -> int {
    if 0 <= pos < ts.len() && ts[pos].token_type != TokenType::Eof {
        pos + 1
    } else {
        pos
    }
}

/// Where skipping from index `pos` stops: at the end of the tokens, after a
/// semicolon, or before a token that starts a statement.
pub open spec fn skip_end(ts: Seq<TokenView>, pos: int) -> int
    decreases remaining(ts, pos),
{
    if !(0 <= pos < ts.len()) || ts[pos].token_type == TokenType::Eof {
        pos
    } else if pos > 0 && ts[pos - 1].token_type == TokenType::Semicolon {
        pos
    } else if starts_statement(ts[pos].token_type) {
        pos
    } else {
        skip_end(ts, pos + 1)
    }
}

/// A cursor over a sequence of tokens.
pub struct Parser {
    tokens: Vec<Token>,
    current: usize,
}

impl Parser {
    /// The tokens.
    pub closed spec fn tokens(&self) -> Seq<TokenView> {
        token_views(self.tokens@)
    }

    /// The index of the next token to read.
    pub closed spec fn position(&self) -> int {
        self.current as int
    }

    /// The parser's invariant: each number or string token carries its
    /// value.
    pub closed spec fn wf(&self) -> bool {
        forall|i: int| 0 <= i < self.tokens@.len() ==> well_formed_token(#[trigger] self.tokens@[i]@)
    }

    /// A parser at the first of `tokens`.
    pub fn new(tokens: Vec<Token>) -> (r: Self)
        requires
            forall|i: int| 0 <= i < tokens@.len() ==> well_formed_token(#[trigger] tokens@[i]@),
        ensures
            r.wf(),
            r.tokens() == token_views(tokens@),
            r.position() == 0,
    {
        Self { tokens, current: 0 }
    }

    /// The index of the next token to read.
    pub fn current(&self) -> (r: usize)
        ensures
            r == self.position(),
    {
        self.current
    }

    /// Parses one expression from the cursor on. Tokens after the expression
    /// are left unread.
    pub fn parse(&mut self) -> (r: Result<Expr, String>)
        requires
            old(self).wf(),
        ensures
            final(self).wf(),
            final(self).tokens() == old(self).tokens(),
            agrees(r, parse_expression(old(self).tokens(), old(self).position()).result),
            final(self).position() == old(self).position() + parse_expression(
                old(self).tokens(),
                old(self).position(),
            ).consumed,
    {
        self.expression()
    }

    fn expression(&mut self) -> (r: Result<Expr, String>)
        requires
            old(self).wf(),
        ensures
            final(self).wf(),
            final(self).tokens == old(self).tokens,
            agrees(r, parse_level(old(self).tokens(), old(self).current as int, 4).result),
            final(self).current == old(self).current + parse_level(
                old(self).tokens(),
                old(self).current as int,
                4,
            ).consumed,
        decreases remaining(old(self).tokens(), old(self).current as int), 5nat, 2nat,
    {
        self.equality()
    }

    fn equality(&mut self) -> (r: Result<Expr, String>)
        requires
            old(self).wf(),
        ensures
            final(self).wf(),
            final(self).tokens == old(self).tokens,
            agrees(r, parse_level(old(self).tokens(), old(self).current as int, 4).result),
            final(self).current == old(self).current + parse_level(
                old(self).tokens(),
                old(self).current as int,
                4,
            ).consumed,
        decreases remaining(old(self).tokens(), old(self).current as int), 5nat, 1nat,
    {
        let mut expr = self.comparison()?;
        let ghost ts = self.tokens();
        let ghost start = old(self).current as int;
        let ghost goal = parse_level(ts, start, 4);
        loop
            invariant
                self.wf(),
                self.tokens == old(self).tokens,
                ts == self.tokens(),
                start == old(self).current,
                goal == parse_level(ts, start, 4),
                start <= self.current,
                goal.result == parse_chain(ts, expr@, self.current as int, 4).result,
                goal.consumed == self.current - start + parse_chain(
                    ts,
                    expr@,
                    self.current as int,
                    4,
                ).consumed,
            decreases remaining(ts, self.current as int),
        {
            if !self.match_tokens(&[TokenType::BangEqual, TokenType::EqualEqual])? {
                return Ok(expr);
            }
            let operator = self.previous();
            let rhs = self.comparison()?;
            expr = Expr::Binary { left: Box::new(expr), operator, right: Box::new(rhs) };
        }
    }

    fn comparison(&mut self) -> (r: Result<Expr, String>)
        requires
            old(self).wf(),
        ensures
            final(self).wf(),
            final(self).tokens == old(self).tokens,
            agrees(r, parse_level(old(self).tokens(), old(self).current as int, 3).result),
            final(self).current == old(self).current + parse_level(
                old(self).tokens(),
                old(self).current as int,
                3,
            ).consumed,
        decreases remaining(old(self).tokens(), old(self).current as int), 4nat, 1nat,
    {
        let mut expr = self.term()?;
        let ghost ts = self.tokens();
        let ghost start = old(self).current as int;
        let ghost goal = parse_level(ts, start, 3);
        loop
            invariant
                self.wf(),
                self.tokens == old(self).tokens,
                ts == self.tokens(),
                start == old(self).current,
                goal == parse_level(ts, start, 3),
                start <= self.current,
                goal.result == parse_chain(ts, expr@, self.current as int, 3).result,
                goal.consumed == self.current - start + parse_chain(
                    ts,
                    expr@,
                    self.current as int,
                    3,
                ).consumed,
            decreases remaining(ts, self.current as int),
        {
            if !self.match_tokens(
                &[
                    TokenType::Greater,
                    TokenType::GreaterEqual,
                    TokenType::Less,
                    TokenType::LessEqual,
                ],
            )? {
                return Ok(expr);
            }
            let operator = self.previous();
            let rhs = self.term()?;
            expr = Expr::Binary { left: Box::new(expr), operator, right: Box::new(rhs) };
        }
    }

    fn term(&mut self) -> (r: Result<Expr, String>)
        requires
            old(self).wf(),
        ensures
            final(self).wf(),
            final(self).tokens == old(self).tokens,
            agrees(r, parse_level(old(self).tokens(), old(self).current as int, 2).result),
            final(self).current == old(self).current + parse_level(
                old(self).tokens(),
                old(self).current as int,
                2,
            ).consumed,
        decreases remaining(old(self).tokens(), old(self).current as int), 3nat, 1nat,
    {
        let mut expr = self.factor()?;
        let ghost ts = self.tokens();
        let ghost start = old(self).current as int;
        let ghost goal = parse_level(ts, start, 2);
        loop
            invariant
                self.wf(),
                self.tokens == old(self).tokens,
                ts == self.tokens(),
                start == old(self).current,
                goal == parse_level(ts, start, 2),
                start <= self.current,
                goal.result == parse_chain(ts, expr@, self.current as int, 2).result,
                goal.consumed == self.current - start + parse_chain(
                    ts,
                    expr@,
                    self.current as int,
                    2,
                ).consumed,
            decreases remaining(ts, self.current as int),
        {
            if !self.match_tokens(&[TokenType::Minus, TokenType::Plus])? {
                return Ok(expr);
            }
            let operator = self.previous();
            let rhs = self.factor()?;
            expr = Expr::Binary { left: Box::new(expr), operator, right: Box::new(rhs) };
        }
    }

    fn factor(&mut self) -> (r: Result<Expr, String>)
        requires
            old(self).wf(),
        ensures
            final(self).wf(),
            final(self).tokens == old(self).tokens,
            agrees(r, parse_level(old(self).tokens(), old(self).current as int, 1).result),
            final(self).current == old(self).current + parse_level(
                old(self).tokens(),
                old(self).current as int,
                1,
            ).consumed,
        decreases remaining(old(self).tokens(), old(self).current as int), 2nat, 1nat,
    {
        let ghost ts = self.tokens();
        let ghost start = old(self).current as int;
        let ghost goal = parse_level(ts, start, 1);
        assert(parse_level(ts, start, 0) == parse_unary(ts, start));
        let mut expr = self.unary()?;
        loop
            invariant
                self.wf(),
                self.tokens == old(self).tokens,
                ts == self.tokens(),
                start == old(self).current,
                goal == parse_level(ts, start, 1),
                start <= self.current,
                goal.result == parse_chain(ts, expr@, self.current as int, 1).result,
                goal.consumed == self.current - start + parse_chain(
                    ts,
                    expr@,
                    self.current as int,
                    1,
                ).consumed,
            decreases remaining(ts, self.current as int),
        {
            if !self.match_tokens(&[TokenType::Slash, TokenType::Star])? {
                return Ok(expr);
            }
            let operator = self.previous();
            assert(parse_level(ts, self.current as int, 0) == parse_unary(ts, self.current as int));
            let rhs = self.unary()?;
            expr = Expr::Binary { left: Box::new(expr), operator, right: Box::new(rhs) };
        }
    }

    fn unary(&mut self) -> (r: Result<Expr, String>)
        requires
            old(self).wf(),
        ensures
            final(self).wf(),
            final(self).tokens == old(self).tokens,
            agrees(r, parse_unary(old(self).tokens(), old(self).current as int).result),
            final(self).current == old(self).current + parse_unary(
                old(self).tokens(),
                old(self).current as int,
            ).consumed,
        decreases remaining(old(self).tokens(), old(self).current as int), 1nat, 0nat,
    {
        if self.match_tokens(&[TokenType::Bang, TokenType::Minus])? {
            let operator = self.previous();
            let rhs = self.unary()?;
            Ok(Expr::Unary { operator, right: Box::new(rhs) })
        } else {
            self.primary()
        }
    }

    fn primary(&mut self) -> (r: Result<Expr, String>)
        requires
            old(self).wf(),
        ensures
            final(self).wf(),
            final(self).tokens == old(self).tokens,
            agrees(r, parse_primary(old(self).tokens(), old(self).current as int).result),
            final(self).current == old(self).current + parse_primary(
                old(self).tokens(),
                old(self).current as int,
            ).consumed,
        decreases remaining(old(self).tokens(), old(self).current as int), 0nat, 0nat,
    {
        let token = self.peek()?;
        match token.token_type {
            TokenType::LeftParen => {
                self.advance();
                let expr = self.expression()?;
                self.consume(TokenType::RightParen, "Expected ')'")?;
                Ok(Expr::Grouping { expression: Box::new(expr) })
            },
            TokenType::False
            | TokenType::True
            | TokenType::Nil
            | TokenType::Number
            | TokenType::StringKing => {
                self.advance();
                Ok(Expr::Literal { value: LiteralValue::from_token(token) })
            },
            _ => Err("Expected expression".to_string()),
        }
    }

    /// Reads the next token if it is of the kind `token_type`; fails with
    /// `msg` if it is not.
    fn consume(&mut self, token_type: TokenType, msg: &str) -> (r: Result<(), String>)
        requires
            token_type != TokenType::Eof,
        ensures
            final(self).tokens == old(self).tokens,
            old(self).current >= old(self).tokens.len() ==> r is Err && r->Err_0@
                == failure_message(ParseFailure::PastEnd) && final(self).current == old(self).current,
            old(self).current < old(self).tokens.len() ==> {
                if old(self).tokens@[old(self).current as int].token_type == token_type {
                    r is Ok && final(self).current == old(self).current + 1
                } else {
                    r is Err && r->Err_0@ == msg@ && final(self).current == old(self).current
                }
            },
    {
        let token = self.peek()?;
        if token.token_type == token_type {
            self.advance();
            Ok(())
        } else {
            Err(msg.to_string())
        }
    }

    /// Reads the next token if it is of the kind `t_type`.
    fn match_token(&mut self, t_type: TokenType) -> (r: Result<bool, String>)
        requires
            t_type != TokenType::Eof,
        ensures
            final(self).tokens == old(self).tokens,
            old(self).current >= old(self).tokens.len() ==> r is Err && r->Err_0@
                == failure_message(ParseFailure::PastEnd) && final(self).current == old(self).current,
            old(self).current < old(self).tokens.len() ==> r == Ok::<bool, String>(
                old(self).tokens@[old(self).current as int].token_type == t_type,
            ) && final(self).current == old(self).current + if r->Ok_0 {
                1int
            } else {
                0int
            },
    {
        if self.is_at_end()? {
            Ok(false)
        } else {
            if self.peek()?.token_type == t_type {
                self.advance();
                Ok(true)
            } else {
                Ok(false)
            }
        }
    }

    /// Reads the next token if it is of one of the kinds `t_types`.
    fn match_tokens(&mut self, t_types: &[TokenType]) -> (r: Result<bool, String>)
        requires
            forall|i: int| 0 <= i < t_types@.len() ==> t_types@[i] != TokenType::Eof,
        ensures
            final(self).tokens == old(self).tokens,
            old(self).current >= old(self).tokens.len() ==> r is Err && r->Err_0@
                == failure_message(ParseFailure::PastEnd) && final(self).current == old(self).current,
            old(self).current < old(self).tokens.len() ==> r == Ok::<bool, String>(
                t_types@.contains(old(self).tokens@[old(self).current as int].token_type),
            ) && final(self).current == old(self).current + if r->Ok_0 {
                1int
            } else {
                0int
            },
    {
        if self.current >= self.tokens.len() {
            return Err("Past end of input".to_string());
        }
        let mut i: usize = 0;
        while i < t_types.len()
            invariant
                i <= t_types@.len(),
                self.tokens == old(self).tokens,
                self.current == old(self).current,
                self.current < self.tokens.len(),
                forall|j: int| 0 <= j < t_types@.len() ==> t_types@[j] != TokenType::Eof,
                forall|j: int|
                    0 <= j < i ==> t_types@[j] != self.tokens@[self.current as int].token_type,
            decreases t_types@.len() - i,
        {
            if self.match_token(t_types[i])? {
                return Ok(true);
            }
            i += 1;
        }
        Ok(false)
    }

    /// Moves past the next token, unless it ends the input, and gives the
    /// token before the cursor.
    fn advance(&mut self) -> (r: Token)
        requires
            old(self).current < old(self).tokens.len(),
        ensures
            final(self).tokens == old(self).tokens,
            final(self).current == old(self).current + if old(self).tokens@[old(self).current as int].token_type == TokenType::Eof {
                0int
            } else {
                1int
            },
    {
        if self.tokens[self.current].token_type != TokenType::Eof {
            self.current += 1;
        }
        if self.current > 0 {
            self.previous()
        } else {
            self.tokens[self.current].clone()
        }
    }

    /// The next token.
    fn peek(&self) -> (r: Result<Token, String>)
        ensures
            self.current >= self.tokens.len() ==> r is Err && r->Err_0@ == failure_message(
                ParseFailure::PastEnd,
            ),
            self.current < self.tokens.len() ==> r is Ok && r->Ok_0@
                == self.tokens@[self.current as int]@,
    {
        if self.current >= self.tokens.len() {
            return Err("Past end of input".to_string());
        }
        Ok(self.tokens[self.current].clone())
    }

    /// The token before the cursor.
    fn previous(&self) -> (r: Token)
        requires
            0 < self.current <= self.tokens.len(),
        ensures
            r@ == self.tokens@[self.current - 1]@,
    {
        self.tokens[self.current - 1].clone()
    }

    /// Whether the next token ends the input.
    fn is_at_end(&self) -> (r: Result<bool, String>)
        ensures
            self.current >= self.tokens.len() ==> r is Err && r->Err_0@ == failure_message(
                ParseFailure::PastEnd,
            ),
            self.current < self.tokens.len() ==> r == Ok::<bool, String>(
                self.tokens@[self.current as int].token_type == TokenType::Eof,
            ),
    {
        Ok(self.peek()?.token_type == TokenType::Eof)
    }

    /// Skips the tokens of a statement that failed to parse: moves past the
    /// next token, and on to the end of the tokens, to after a semicolon, or
    /// to before a token that starts a statement.
    pub fn synchronize(&mut self)
        ensures
            final(self).tokens() == old(self).tokens(),
            final(self).position() == skip_end(
                old(self).tokens(),
                after_advance(old(self).tokens(), old(self).position()),
            ),
    {
        let ghost ts = self.tokens();
        if self.current < self.tokens.len() {
            assert(ts[self.current as int] == self.tokens@[self.current as int]@);
            self.advance();
        }
        let ghost from = self.current as int;
        while self.current < self.tokens.len()
            invariant
                self.tokens == old(self).tokens,
                ts == self.tokens(),
                from == after_advance(ts, old(self).current as int),
                skip_end(ts, self.current as int) == skip_end(ts, from),
            decreases self.tokens.len() - self.current,
        {
            let kind = self.tokens[self.current].token_type;
            assert(ts[self.current as int] == self.tokens@[self.current as int]@);
            if kind == TokenType::Eof {
                return ;
            }
            if self.current > 0 {
                assert(ts[self.current - 1] == self.tokens@[self.current - 1]@);
                if self.tokens[self.current - 1].token_type == TokenType::Semicolon {
                    return ;
                }
            }
            match kind {
                TokenType::Class
                | TokenType::Fun
                | TokenType::Var
                | TokenType::For
                | TokenType::If
                | TokenType::While
                | TokenType::Print
                | TokenType::Return => {
                    return ;
                },
                _ => {},
            }
            self.current += 1;
        }
    }
}

} // verus!
