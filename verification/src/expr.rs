//! Expression trees, their text, and their evaluation.

use vstd::prelude::*;
use vstd::string::StringExecFns;
use crate::decimal::{single_text, single_to_text};
use crate::ieee::{
    double_to_single, single_add, single_difference, single_divide, single_eq, single_equal,
    single_from_int, single_is_zero, single_le, single_less, single_less_equal, single_lt,
    single_multiply, single_negate, single_negated, single_of_double, single_of_int,
    single_product, single_quotient, single_subtract, single_sum, single_zero,
};
use crate::scanner;
use crate::scanner::{token_type_name, LiteralView, Token, TokenType, TokenView};

verus! {

/// A value of the language. A number is the bit pattern of a binary32
/// number.
#[derive(Debug)]
pub enum LiteralValue {
    Number(u32),
    StringValue(String),
    True,
    False,
    Nil,
}

/// The mathematical content of a `LiteralValue`.
pub enum ValueView {
    Number(u32),
    StringValue(Seq<char>),
    True,
    False,
    Nil,
}

impl View for LiteralValue {
    type V = ValueView;

    open spec fn view(&self) -> ValueView {
        match self {
            LiteralValue::Number(x) => ValueView::Number(*x),
            LiteralValue::StringValue(s) => ValueView::StringValue(s@),
            LiteralValue::True => ValueView::True,
            LiteralValue::False => ValueView::False,
            LiteralValue::Nil => ValueView::Nil,
        }
    }
}

impl Clone for LiteralValue {
    fn clone(&self) -> (r: Self)
        ensures
            r@ == self@,
    {
        match self {
            LiteralValue::Number(x) => LiteralValue::Number(*x),
            LiteralValue::StringValue(s) => LiteralValue::StringValue(s.clone()),
            LiteralValue::True => LiteralValue::True,
            LiteralValue::False => LiteralValue::False,
            LiteralValue::Nil => LiteralValue::Nil,
        }
    }
}

/// The number that a token carries, as a binary32 number: an integer or a
/// binary64 number, rounded to the nearest.
pub open spec fn carried_number(literal: Option<LiteralView>) -> u32 {
    match literal {
        Some(LiteralView::IntValue(x)) => single_from_int(x as int),
        Some(LiteralView::FValue(x)) => double_to_single(x),
        _ => 0,
    }
}

/// The text that a token carries.
pub open spec fn carried_text(literal: Option<LiteralView>) -> Seq<char> {
    match literal {
        Some(LiteralView::StringValue(s)) => s,
        Some(LiteralView::IdentifierValue(s)) => s,
        _ => Seq::empty(),
    }
}

/// Whether a token carries a number.
pub open spec fn carries_number(literal: Option<LiteralView>) -> bool {
    literal matches Some(l) && (l is IntValue || l is FValue)
}

/// Whether a token carries a text.
pub open spec fn carries_text(literal: Option<LiteralView>) -> bool {
    literal matches Some(l) && (l is StringValue || l is IdentifierValue)
}

/// Whether a token stands for a value: a number or string token that carries
/// one, or one of the words `true`, `false`, `nil`.
pub open spec fn is_value_token(t: TokenView) -> bool {
    match t.token_type {
        TokenType::Number => carries_number(t.literal),
        TokenType::StringKing => carries_text(t.literal),
        TokenType::False | TokenType::True | TokenType::Nil => true,
        _ => false,
    }
}

/// The value that a value token stands for.
pub open spec fn token_value(t: TokenView) -> ValueView {
    match t.token_type {
        TokenType::Number => ValueView::Number(carried_number(t.literal)),
        TokenType::StringKing => ValueView::StringValue(carried_text(t.literal)),
        TokenType::False => ValueView::False,
        TokenType::True => ValueView::True,
        _ => ValueView::Nil,
    }
}

/// The text of a value: a number in the shortest decimal notation that names
/// it, a string as it is, and `true`, `false` or `nil`.
pub open spec fn value_text(v: ValueView) -> Seq<char> {
    match v {
        ValueView::Number(x) => single_text(x),
        ValueView::StringValue(s) => s,
        ValueView::True => "true"@,
        ValueView::False => "false"@,
        ValueView::Nil => "nil"@,
    }
}

/// `True` for true, `False` for false.
pub open spec fn bool_value(b: bool) -> ValueView {
    if b {
        ValueView::True
    } else {
        ValueView::False
    }
}

/// Whether a value counts as false: the number zero, the empty string,
/// `False` and `Nil`.
pub open spec fn is_falsy(v: ValueView) -> bool {
    match v {
        ValueView::Number(x) => single_is_zero(x),
        ValueView::StringValue(s) => s.len() == 0,
        ValueView::True => false,
        ValueView::False => true,
        ValueView::Nil => true,
    }
}

fn unwrap_as_f32(literal: Option<scanner::LiteralValue>) -> (r: u32)
    requires
        carries_number(scanner::literal_view(literal)),
    ensures
        r == carried_number(scanner::literal_view(literal)),
{
    match literal {
        Some(scanner::LiteralValue::IntValue(x)) => single_of_int(x),
        Some(scanner::LiteralValue::FValue(x)) => single_of_double(x),
        _ => 0,
    }
}

/// The text that a token carries.
pub fn unwrap_as_string(literal: Option<scanner::LiteralValue>) -> (r: String)
    requires
        carries_text(scanner::literal_view(literal)),
    ensures
        r@ == carried_text(scanner::literal_view(literal)),
{
    match literal {
        Some(scanner::LiteralValue::StringValue(s)) => s,
        Some(scanner::LiteralValue::IdentifierValue(s)) => s,
        _ => String::new(),
    }
}

impl LiteralValue {
    /// The value as text.
    pub fn to_string(&self) -> (r: String)
        ensures
            r@ == value_text(self@),
    {
        match self {
            LiteralValue::Number(x) => single_to_text(*x),
            LiteralValue::StringValue(x) => x.clone(),
            LiteralValue::True => "true".to_string(),
            LiteralValue::False => "false".to_string(),
            LiteralValue::Nil => "nil".to_string(),
        }
    }

    /// The value that a value token stands for.
    pub fn from_token(token: Token) -> (r: Self)
        requires
            is_value_token(token@),
        ensures
            r@ == token_value(token@),
    {
        match token.token_type {
            TokenType::Number => Self::Number(unwrap_as_f32(token.literal)),
            TokenType::StringKing => Self::StringValue(unwrap_as_string(token.literal)),
            TokenType::False => Self::False,
            TokenType::True => Self::True,
            _ => Self::Nil,
        }
    }

    /// `True` for true, `False` for false.
    pub fn from_bool(b: bool) -> (r: Self)
        ensures
            r@ == bool_value(b),
    {
        if b {
            LiteralValue::True
        } else {
            LiteralValue::False
        }
    }

    /// `True` where the value counts as false, else `False`.
    pub fn is_false(&self) -> (r: LiteralValue)
        ensures
            r@ == bool_value(is_falsy(self@)),
    {
        match self {
            LiteralValue::Number(x) => {
                if single_zero(*x) {
                    LiteralValue::True
                } else {
                    LiteralValue::False
                }
            },
            LiteralValue::StringValue(s) => {
                if s.as_str().is_empty() {
                    LiteralValue::True
                } else {
                    LiteralValue::False
                }
            },
            LiteralValue::True => LiteralValue::False,
            LiteralValue::False => LiteralValue::True,
            LiteralValue::Nil => LiteralValue::True,
        }
    }
}

/// An expression tree.
pub enum Expr {
    Binary { left: Box<Expr>, operator: Token, right: Box<Expr> },
    Grouping { expression: Box<Expr> },
    Literal { value: LiteralValue },
    Unary { operator: Token, right: Box<Expr> },
}

/// The mathematical content of an `Expr`.
pub enum ExprView {
    Binary { left: Box<ExprView>, operator: TokenView, right: Box<ExprView> },
    Grouping { expression: Box<ExprView> },
    Literal { value: ValueView },
    Unary { operator: TokenView, right: Box<ExprView> },
}

impl View for Expr {
    type V = ExprView;

    open spec fn view(&self) -> ExprView
        decreases self,
    {
        match self {
            Expr::Binary { left, operator, right } => ExprView::Binary {
                left: Box::new((**left).view()),
                operator: operator@,
                right: Box::new((**right).view()),
            },
            Expr::Grouping { expression } => ExprView::Grouping {
                expression: Box::new((**expression).view()),
            },
            Expr::Literal { value } => ExprView::Literal { value: value@ },
            Expr::Unary { operator, right } => ExprView::Unary {
                operator: operator@,
                right: Box::new((**right).view()),
            },
        }
    }
}

/// The text of a tree: the operator first, then the operands, in one pair
/// of parentheses for each node but a literal.
pub open spec fn expr_text(e: ExprView) -> Seq<char>
    decreases e,
{
    match e {
        ExprView::Binary { left, operator, right } => seq!['('] + operator.lexeme + seq![' ']
            + expr_text(*left) + seq![' '] + expr_text(*right) + seq![')'],
        ExprView::Grouping { expression } => "(group "@ + expr_text(*expression) + seq![')'],
        ExprView::Literal { value } => value_text(value),
        ExprView::Unary { operator, right } => seq!['('] + operator.lexeme + seq![' ']
            + expr_text(*right) + seq![')'],
    }
}

/// The name of the kind of a value, as the messages give it.
pub open spec fn kind_name(v: ValueView) -> Seq<char> {
    match v {
        ValueView::Number(_) => "Number"@,
        ValueView::StringValue(_) => "String"@,
        ValueView::True => "True"@,
        ValueView::False => "False"@,
        ValueView::Nil => "Nil"@,
    }
}

/// The message for a minus sign before what is no number.
pub open spec fn minus_message(operand: ValueView) -> Seq<char> {
    "Minus not implemented for  "@ + value_text(operand)
}

/// The message for a prefix operator that is neither `-` nor `!`.
pub open spec fn not_unary_message(operator: TokenType) -> Seq<char> {
    token_type_name(operator) + " is not a valid unary operator"@
}

/// The message for an operator between a number and a string.
pub open spec fn mismatch_message(operator: TokenType, left: ValueView, right: ValueView) -> Seq<
    char,
> {
    token_type_name(operator) + " cannot operate between "@ + kind_name(left) + " and "@
        + kind_name(right)
}

/// The message for an operator and operands that the language does not
/// define.
pub open spec fn unsupported_message(operator: TokenType, left: ValueView, right: ValueView)
    -> Seq<char> {
    token_type_name(operator) + " is not yet supported between "@ + kind_name(left) + " and "@
        + kind_name(right)
}

/// The value of a prefix operator on a value: `-` negates a number, `!`
/// says whether the value counts as false.
pub open spec fn unary_result(operator: TokenType, operand: ValueView) -> Result<
    ValueView,
    Seq<char>,
> {
    match operator {
        TokenType::Minus => match operand {
            ValueView::Number(x) => Ok(ValueView::Number(single_negated(x))),
            _ => Err(minus_message(operand)),
        },
        TokenType::Bang => Ok(bool_value(is_falsy(operand))),
        _ => Err(not_unary_message(operator)),
    }
}

/// The value of an operator between two numbers.
pub open spec fn number_result(operator: TokenType, x: u32, y: u32) -> Result<
    ValueView,
    Seq<char>,
> {
    match operator {
        TokenType::Plus => Ok(ValueView::Number(single_sum(x, y))),
        TokenType::Minus => Ok(ValueView::Number(single_difference(x, y))),
        TokenType::Star => Ok(ValueView::Number(single_product(x, y))),
        TokenType::Slash => Ok(ValueView::Number(single_quotient(x, y))),
        TokenType::Greater => Ok(bool_value(single_lt(y, x))),
        TokenType::GreaterEqual => Ok(bool_value(single_le(y, x))),
        TokenType::Less => Ok(bool_value(single_lt(x, y))),
        TokenType::LessEqual => Ok(bool_value(single_le(x, y))),
        TokenType::BangEqual => Ok(bool_value(!single_eq(x, y))),
        TokenType::EqualEqual => Ok(bool_value(single_eq(x, y))),
        _ => Err(unsupported_message(operator, ValueView::Number(x), ValueView::Number(y))),
    }
}

/// The value of an operator between two strings.
pub open spec fn string_result(operator: TokenType, x: Seq<char>, y: Seq<char>) -> Result<
    ValueView,
    Seq<char>,
> {
    match operator {
        TokenType::Plus => Ok(ValueView::StringValue(x + y)),
        TokenType::BangEqual => Ok(bool_value(x != y)),
        TokenType::EqualEqual => Ok(bool_value(x == y)),
        _ => Err(
            unsupported_message(operator, ValueView::StringValue(x), ValueView::StringValue(y)),
        ),
    }
}

/// The value of an operator between two values.
pub open spec fn binary_result(operator: TokenType, left: ValueView, right: ValueView) -> Result<
    ValueView,
    Seq<char>,
> {
    match (left, right) {
        (ValueView::Number(x), ValueView::Number(y)) => number_result(operator, x, y),
        (ValueView::StringValue(_), ValueView::Number(_)) => Err(
            mismatch_message(operator, left, right),
        ),
        (ValueView::Number(_), ValueView::StringValue(_)) => Err(
            mismatch_message(operator, left, right),
        ),
        (ValueView::StringValue(x), ValueView::StringValue(y)) => string_result(operator, x, y),
        _ => Err(unsupported_message(operator, left, right)),
    }
}

/// The value of a tree, or the message of the first failure. The left
/// operand is evaluated first; its failure is the failure of the whole.
pub open spec fn evaluation(e: ExprView) -> Result<ValueView, Seq<char>>
    decreases e,
{
    match e {
        ExprView::Literal { value } => Ok(value),
        ExprView::Grouping { expression } => evaluation(*expression),
        ExprView::Unary { operator, right } => match evaluation(*right) {
            Ok(v) => unary_result(operator.token_type, v),
            Err(m) => Err(m),
        },
        ExprView::Binary { left, operator, right } => match evaluation(*left) {
            Ok(l) => match evaluation(*right) {
                Ok(r) => binary_result(operator.token_type, l, r),
                Err(m) => Err(m),
            },
            Err(m) => Err(m),
        },
    }
}

/// The content of the result of an evaluation.
pub open spec fn result_view(r: Result<LiteralValue, String>) -> Result<ValueView, Seq<char>> {
    match r {
        Ok(v) => Ok(v@),
        Err(m) => Err(m@),
    }
}

/// The name of the kind of a value.
fn kind_of(v: &LiteralValue) -> (r: &'static str)
    ensures
        r@ == kind_name(v@),
{
    match v {
        LiteralValue::Number(_) => "Number",
        LiteralValue::StringValue(_) => "String",
        LiteralValue::True => "True",
        LiteralValue::False => "False",
        LiteralValue::Nil => "Nil",
    }
}

/// The message for an operator between two values: `middle` stands between
/// the operator and the kinds of the values.
fn operands_message(operator: TokenType, middle: &str, left: &LiteralValue, right: &LiteralValue)
    -> (r: String)
    ensures
        r@ == token_type_name(operator) + middle@ + kind_name(left@) + " and "@ + kind_name(
            right@,
        ),
{
    let mut m = operator.to_string();
    m.append(middle);
    m.append(kind_of(left));
    m.append(" and ");
    m.append(kind_of(right));
    m
}

/// The value of a prefix operator on a value.
pub fn apply_unary(operator: TokenType, operand: &LiteralValue) -> (r: Result<
    LiteralValue,
    String,
>)
    ensures
        result_view(r) == unary_result(operator, operand@),
{
    match operator {
        TokenType::Minus => match operand {
            LiteralValue::Number(x) => Ok(LiteralValue::Number(single_negate(*x))),
            _ => {
                let mut m = "Minus not implemented for  ".to_string();
                let text = operand.to_string();
                m.append(text.as_str());
                Err(m)
            },
        },
        TokenType::Bang => Ok(operand.is_false()),
        _ => {
            let mut m = operator.to_string();
            m.append(" is not a valid unary operator");
            Err(m)
        },
    }
}

/// Whether two strings hold the same text.
fn same_text(a: &String, b: &String) -> (r: bool)
    ensures
        r == (a@ == b@),
{
    *a == *b
}

/// The value of an operator between two values.
pub fn apply_binary(operator: TokenType, left: &LiteralValue, right: &LiteralValue) -> (r: Result<
    LiteralValue,
    String,
>)
    ensures
        result_view(r) == binary_result(operator, left@, right@),
{
    match (left, right) {
        (LiteralValue::Number(x), LiteralValue::Number(y)) => {
            let x: u32 = *x;
            let y: u32 = *y;
            let r = match operator {
                TokenType::Plus => Ok(LiteralValue::Number(single_add(x, y))),
                TokenType::Minus => Ok(LiteralValue::Number(single_subtract(x, y))),
                TokenType::Star => Ok(LiteralValue::Number(single_multiply(x, y))),
                TokenType::Slash => Ok(LiteralValue::Number(single_divide(x, y))),
                TokenType::Greater => Ok(LiteralValue::from_bool(single_less(y, x))),
                TokenType::GreaterEqual => Ok(LiteralValue::from_bool(single_less_equal(y, x))),
                TokenType::Less => Ok(LiteralValue::from_bool(single_less(x, y))),
                TokenType::LessEqual => Ok(LiteralValue::from_bool(single_less_equal(x, y))),
                TokenType::BangEqual => Ok(LiteralValue::from_bool(!single_equal(x, y))),
                TokenType::EqualEqual => Ok(LiteralValue::from_bool(single_equal(x, y))),
                _ => Err(operands_message(operator, " is not yet supported between ", left, right)),
            };
            r
        },
        (LiteralValue::StringValue(_), LiteralValue::Number(_)) => Err(
            operands_message(operator, " cannot operate between ", left, right),
        ),
        (LiteralValue::Number(_), LiteralValue::StringValue(_)) => Err(
            operands_message(operator, " cannot operate between ", left, right),
        ),
        (LiteralValue::StringValue(x), LiteralValue::StringValue(y)) => {
            let r = match operator {
                TokenType::Plus => {
                    let mut s = x.clone();
                    s.append(y.as_str());
                    Ok(LiteralValue::StringValue(s))
                },
                TokenType::BangEqual => Ok(LiteralValue::from_bool(!same_text(x, y))),
                TokenType::EqualEqual => Ok(LiteralValue::from_bool(same_text(x, y))),
                _ => Err(operands_message(operator, " is not yet supported between ", left, right)),
            };
            r
        },
        _ => Err(operands_message(operator, " is not yet supported between ", left, right)),
    }
}

impl Expr {
    /// The tree as text.
    pub fn to_string(&self) -> (r: String)
        ensures
            r@ == expr_text(self@),
        decreases self,
    {
        match self {
            Expr::Binary { left, operator, right } => {
                let mut s = "(".to_string();
                s.append(operator.lexeme.as_str());
                s.append(" ");
                let l = left.to_string();
                s.append(l.as_str());
                s.append(" ");
                let r = right.to_string();
                s.append(r.as_str());
                s.append(")");
                proof {
                    reveal_strlit("(");
                    reveal_strlit(" ");
                    reveal_strlit(")");
                    assert("("@ =~= seq!['(']);
                    assert(" "@ =~= seq![' ']);
                    assert(")"@ =~= seq![')']);
                }
                s
            },
            Expr::Grouping { expression } => {
                let mut s = "(group ".to_string();
                let inner = expression.to_string();
                s.append(inner.as_str());
                s.append(")");
                proof {
                    reveal_strlit(")");
                    assert(")"@ =~= seq![')']);
                }
                s
            },
            Expr::Literal { value } => value.to_string(),
            Expr::Unary { operator, right } => {
                let mut s = "(".to_string();
                s.append(operator.lexeme.as_str());
                s.append(" ");
                let r = right.to_string();
                s.append(r.as_str());
                s.append(")");
                proof {
                    reveal_strlit("(");
                    reveal_strlit(" ");
                    reveal_strlit(")");
                    assert("("@ =~= seq!['(']);
                    assert(" "@ =~= seq![' ']);
                    assert(")"@ =~= seq![')']);
                }
                s
            },
        }
    }

    /// The value of the tree, or the message of the first failure.
    pub fn evaluate(&self) -> (r: Result<LiteralValue, String>)
        ensures
            result_view(r) == evaluation(self@),
        decreases self,
    {
        match self {
            Expr::Literal { value } => Ok(value.clone()),
            Expr::Grouping { expression } => expression.evaluate(),
            Expr::Unary { operator, right } => {
                match right.evaluate() {
                    Ok(v) => apply_unary(operator.token_type, &v),
                    Err(m) => Err(m),
                }
            },
            Expr::Binary { left, operator, right } => {
                match left.evaluate() {
                    Ok(l) => match right.evaluate() {
                        Ok(r) => apply_binary(operator.token_type, &l, &r),
                        Err(m) => Err(m),
                    },
                    Err(m) => Err(m),
                }
            },
        }
    }
}

} // verus!
