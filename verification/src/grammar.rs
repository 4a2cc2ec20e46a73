//! The grammar, as functions from a token sequence to a syntax tree.
//!
//! Every production reads the sequence from a position on and tells what it
//! built, or why it failed, and how many items it used. The executable
//! parser is specified against these functions.
//!
//! The language, with `*` for any number of times and `?` for at most once:
//!
//! ```text
//! template       := body
//! body           := (raw | "{{" expression "}}" | "{%" statement "%}")*
//! statement      := "for" name "in" expression "%}" body "{%" "endfor"
//!                 | "if" condition
//!                 | "with" bindings? "%}" body "{%" "endwith"
//!                 | "block" name "%}" body "{%" "endblock" name?
//!                 | "extends" expression
//!                 | "autoescape" expression "%}" body "{%" "endautoescape"
//! condition      := expression "%}" body "{%" branch
//! branch         := "endif" | "else" "%}" body "{%" "endif" | "elif" condition
//! bindings       := name "=" expression ("," name "=" expression)*
//!
//! expression     := or
//! or             := and ("or" and)*
//! and            := not ("and" not)*
//! not            := "not" not | compare
//! compare        := additive (("==" | "!=" | "<" | "<=" | ">" | ">=") additive)*
//! additive       := concat (("+" | "-") concat)*
//! concat         := multiplicative ("~" multiplicative)*
//! multiplicative := power (("*" | "/" | "//" | "%") power)*
//! power          := unary ("**" unary)*
//! unary          := prefix filter*
//! prefix         := "-" prefix | primary postfix*
//! postfix        := "." name | "[" expression "]" | "(" arguments? ")"
//! filter         := ("|" | "is") name ("(" arguments? ")")?
//! arguments      := expression ("," expression)*
//! primary        := name | string | integer | float | "(" expression ")"
//!                 | "[" arguments? "]" | "{" entries? "}"
//! entries        := expression ":" expression ("," expression ":" expression)*
//! ```
//!
//! Every level of infix operators folds to the left, `**` and the
//! comparisons too: `a < b < c` is `(a < b) < c`, and `2 ** 3 ** 2` is
//! `(2 ** 3) ** 2`. A name in the place of an operand is a literal where it
//! is `true`, `false` or `none`, or one of these with a capital first
//! letter. `true`, `false`, `none` in both spellings and `loop` cannot be
//! assigned to.

use crate::ast::{BinOpKind, Expr, ExprView, StmtView, UnaryOpKind};
use crate::error::{
    msg_mismatch, msg_reserved, msg_unexpected, msg_unexpected_bare, msg_unexpected_end, ErrorView,
};
use crate::lexer::tokenize;
use crate::text::str_eq;
use crate::tokens::{LexItemView, Span, Token, TokenView};
use crate::value::{Value, ValueView};
use vstd::prelude::*;

verus! {

/// What a production made of the items from its position on.
pub struct Parsed<T> {
    /// The value built, or the failure.
    pub result: Result<T, ErrorView>,
    /// How many items were used up, counted from the production's position.
    pub used: nat,
}

/// A production that built `value` from `used` items.
pub open spec fn done<T>(value: T, used: nat) -> Parsed<T> {
    Parsed { result: Ok(value), used }
}

/// A production that failed with `e` after `used` items.
pub open spec fn fail<T>(e: ErrorView, used: nat) -> Parsed<T> {
    Parsed { result: Err(e), used }
}

/// The outcome `p` of a production that started `n` items later.
pub open spec fn then<T>(n: nat, p: Parsed<T>) -> Parsed<T> {
    Parsed { result: p.result, used: n + p.used }
}

/// How many items are left at position `at`.
pub open spec fn remaining(items: Seq<LexItemView>, at: nat) -> nat {
    if at <= items.len() {
        (items.len() - at) as nat
    } else {
        0
    }
}

/// The item at position `at` without using it up. A failure of the
/// tokenizer is handed on, and that does use it up.
pub open spec fn peek(items: Seq<LexItemView>, at: nat) -> Parsed<Option<(TokenView, Span)>> {
    if at < items.len() {
        match items[at as int] {
            Ok(token) => done(Some(token), 0),
            Err(e) => fail(e, 1),
        }
    } else {
        done(None, 0)
    }
}

/// The item at position `at`, used up; nothing at the end of the input.
pub open spec fn take(items: Seq<LexItemView>, at: nat) -> Parsed<Option<(TokenView, Span)>> {
    if at < items.len() {
        match items[at as int] {
            Ok(token) => done(Some(token), 1),
            Err(e) => fail(e, 1),
        }
    } else {
        done(None, 0)
    }
}

/// The span of the token used last before position `at`; the zero span
/// where there is none.
pub open spec fn last_span(items: Seq<LexItemView>, at: nat) -> Span
    decreases at,
{
    if at == 0 {
        Span::zero()
    } else if at <= items.len() && items[at - 1] is Ok {
        items[at - 1]->Ok_0.1
    } else {
        last_span(items, (at - 1) as nat)
    }
}

/// The span of the token at position `at`; the span of the token used last
/// where there is none.
pub open spec fn first_span(items: Seq<LexItemView>, at: nat) -> Span {
    if at < items.len() && items[at as int] is Ok {
        items[at as int]->Ok_0.1
    } else {
        last_span(items, at)
    }
}

/// A token that a production asks for by kind.
#[derive(Clone, Copy, Debug, PartialEq, Eq, Structural)]
pub enum Expect {
    ParenClose,
    BracketClose,
    Comma,
    Colon,
    BlockEnd,
    VariableEnd,
    /// The keyword `in`.
    In,
    Assign,
    /// The comma between two bindings of `with`.
    Separator,
}

impl Expect {
    /// `token` is of this kind.
    pub open spec fn accepts(self, token: TokenView) -> bool {
        match self {
            Expect::ParenClose => token == TokenView::ParenClose,
            Expect::BracketClose => token == TokenView::BracketClose,
            Expect::Comma => token == TokenView::Comma,
            Expect::Colon => token == TokenView::Colon,
            Expect::BlockEnd => token is BlockEnd,
            Expect::VariableEnd => token is VariableEnd,
            Expect::In => token.is_word("in"@),
            Expect::Assign => token == TokenView::Assign,
            Expect::Separator => token == TokenView::Comma,
        }
    }

    /// How a diagnostic names what was asked for.
    pub open spec fn label(self) -> Seq<char> {
        match self {
            Expect::ParenClose => "`)`"@,
            Expect::BracketClose => "`]`"@,
            Expect::Comma => "`,`"@,
            Expect::Colon => "`:`"@,
            Expect::BlockEnd => "end of block"@,
            Expect::VariableEnd => "end of variable block"@,
            Expect::In => "in"@,
            Expect::Assign => "assignment operator"@,
            Expect::Separator => "comma"@,
        }
    }
}

impl Expect {
    /// Whether `token` is of this kind.
    pub fn admits(self, token: &Token) -> (r: bool)
        ensures
            r == self.accepts(token@),
    {
        match self {
            Expect::ParenClose => matches!(token, Token::ParenClose),
            Expect::BracketClose => matches!(token, Token::BracketClose),
            Expect::Comma => matches!(token, Token::Comma),
            Expect::Colon => matches!(token, Token::Colon),
            Expect::BlockEnd => matches!(token, Token::BlockEnd(_)),
            Expect::VariableEnd => matches!(token, Token::VariableEnd(_)),
            Expect::In => token.is_word("in"),
            Expect::Assign => matches!(token, Token::Assign),
            Expect::Separator => matches!(token, Token::Comma),
        }
    }

    /// How a diagnostic names what was asked for.
    pub fn name(self) -> (r: &'static str)
        ensures
            r@ == self.label(),
    {
        match self {
            Expect::ParenClose => "`)`",
            Expect::BracketClose => "`]`",
            Expect::Comma => "`,`",
            Expect::Colon => "`:`",
            Expect::BlockEnd => "end of block",
            Expect::VariableEnd => "end of variable block",
            Expect::In => "in",
            Expect::Assign => "assignment operator",
            Expect::Separator => "comma",
        }
    }
}

/// Uses up the token at `at`, which must be of the kind `what`; gives its span.
pub open spec fn expect(items: Seq<LexItemView>, at: nat, what: Expect) -> Parsed<Span> {
    match take(items, at).result {
        Err(e) => fail(e, 1),
        Ok(None) => fail(ErrorView::syntax(msg_unexpected_end(what.label())), 0),
        Ok(Some((token, span))) => if what.accepts(token) {
            done(span, 1)
        } else {
            fail(ErrorView::syntax(msg_unexpected(token.describe(), what.label())), 1)
        },
    }
}

/// Uses up the identifier at `at`; gives its name.
pub open spec fn expect_ident(items: Seq<LexItemView>, at: nat) -> Parsed<Seq<char>> {
    match take(items, at).result {
        Err(e) => fail(e, 1),
        Ok(None) => fail(ErrorView::syntax(msg_unexpected_end("identifier"@)), 0),
        Ok(Some((token, _))) => match token {
            TokenView::Ident(name) => done(name, 1),
            _ => fail(ErrorView::syntax(msg_unexpected(token.describe(), "identifier"@)), 1),
        },
    }
}

/// The precedence levels of expressions, from the loosest to the tightest.
#[derive(Clone, Copy, Debug, PartialEq, Eq, Structural)]
pub enum Level {
    /// `or`
    Or,
    /// `and`
    And,
    /// the prefix `not`
    Not,
    /// `==  !=  <  <=  >  >=`
    Compare,
    /// `+  -`
    Additive,
    /// `~`
    Concat,
    /// `*  /  //  %`
    Multiplicative,
    /// `**`
    Power,
    /// the prefix `-`, a primary with what is applied to it, and the
    /// filters and tests behind them
    Unary,
}

impl Level {
    /// The next level, which binds tighter.
    pub open spec fn tighter(self) -> Level {
        match self {
            Level::Or => Level::And,
            Level::And => Level::Not,
            Level::Not => Level::Compare,
            Level::Compare => Level::Additive,
            Level::Additive => Level::Concat,
            Level::Concat => Level::Multiplicative,
            Level::Multiplicative => Level::Power,
            Level::Power => Level::Unary,
            Level::Unary => Level::Unary,
        }
    }

    /// How many levels bind tighter.
    pub open spec fn height(self) -> nat {
        match self {
            Level::Or => 8,
            Level::And => 7,
            Level::Not => 6,
            Level::Compare => 5,
            Level::Additive => 4,
            Level::Concat => 3,
            Level::Multiplicative => 2,
            Level::Power => 1,
            Level::Unary => 0,
        }
    }

    /// The infix operator of this level that `token` stands for.
    pub open spec fn operator(self, token: TokenView) -> Option<BinOpKind> {
        match self {
            Level::Or => if token.is_word("or"@) {
                Some(BinOpKind::ScOr)
            } else {
                None
            },
            Level::And => if token.is_word("and"@) {
                Some(BinOpKind::ScAnd)
            } else {
                None
            },
            Level::Compare => match token {
                TokenView::Eq => Some(BinOpKind::Eq),
                TokenView::Ne => Some(BinOpKind::Ne),
                TokenView::Lt => Some(BinOpKind::Lt),
                TokenView::Lte => Some(BinOpKind::Lte),
                TokenView::Gt => Some(BinOpKind::Gt),
                TokenView::Gte => Some(BinOpKind::Gte),
                _ => None,
            },
            Level::Additive => match token {
                TokenView::Plus => Some(BinOpKind::Add),
                TokenView::Minus => Some(BinOpKind::Sub),
                _ => None,
            },
            Level::Concat => match token {
                TokenView::Tilde => Some(BinOpKind::Concat),
                _ => None,
            },
            Level::Multiplicative => match token {
                TokenView::Mul => Some(BinOpKind::Mul),
                TokenView::Div => Some(BinOpKind::Div),
                TokenView::FloorDiv => Some(BinOpKind::FloorDiv),
                TokenView::Mod => Some(BinOpKind::Rem),
                _ => None,
            },
            Level::Power => match token {
                TokenView::Pow => Some(BinOpKind::Pow),
                _ => None,
            },
            _ => None,
        }
    }
}

impl Level {
    /// The next level, which binds tighter.
    pub fn next_tighter(self) -> (r: Level)
        ensures
            r == self.tighter(),
    {
        match self {
            Level::Or => Level::And,
            Level::And => Level::Not,
            Level::Not => Level::Compare,
            Level::Compare => Level::Additive,
            Level::Additive => Level::Concat,
            Level::Concat => Level::Multiplicative,
            Level::Multiplicative => Level::Power,
            Level::Power => Level::Unary,
            Level::Unary => Level::Unary,
        }
    }

    /// The infix operator of this level that `token` stands for.
    pub fn operator_of(self, token: &Token) -> (r: Option<BinOpKind>)
        ensures
            r == self.operator(token@),
    {
        match self {
            Level::Or => if token.is_word("or") {
                Some(BinOpKind::ScOr)
            } else {
                None
            },
            Level::And => if token.is_word("and") {
                Some(BinOpKind::ScAnd)
            } else {
                None
            },
            Level::Compare => match token {
                Token::Eq => Some(BinOpKind::Eq),
                Token::Ne => Some(BinOpKind::Ne),
                Token::Lt => Some(BinOpKind::Lt),
                Token::Lte => Some(BinOpKind::Lte),
                Token::Gt => Some(BinOpKind::Gt),
                Token::Gte => Some(BinOpKind::Gte),
                _ => None,
            },
            Level::Additive => match token {
                Token::Plus => Some(BinOpKind::Add),
                Token::Minus => Some(BinOpKind::Sub),
                _ => None,
            },
            Level::Concat => match token {
                Token::Tilde => Some(BinOpKind::Concat),
                _ => None,
            },
            Level::Multiplicative => match token {
                Token::Mul => Some(BinOpKind::Mul),
                Token::Div => Some(BinOpKind::Div),
                Token::FloorDiv => Some(BinOpKind::FloorDiv),
                Token::Mod => Some(BinOpKind::Rem),
                _ => None,
            },
            Level::Power => match token {
                Token::Pow => Some(BinOpKind::Pow),
                _ => None,
            },
            _ => None,
        }
    }
}

/// The node for an identifier in the place of an operand: one of the
/// literal keywords, in either spelling, or a variable.
pub open spec fn name_node(name: Seq<char>, span: Span) -> ExprView {
    if name == "true"@ || name == "True"@ {
        ExprView::Const { value: ValueView::Bool(true), span }
    } else if name == "false"@ || name == "False"@ {
        ExprView::Const { value: ValueView::Bool(false), span }
    } else if name == "none"@ || name == "None"@ {
        ExprView::Const { value: ValueView::Null, span }
    } else {
        ExprView::Var { id: name, span }
    }
}

/// The node for an identifier in the place of an operand.
pub fn name_expr(name: String, span: Span) -> (e: Expr)
    ensures
        e@ == name_node(name@, span),
{
    if str_eq(name.as_str(), "true") || str_eq(name.as_str(), "True") {
        Expr::Const { value: Value::Bool(true), span }
    } else if str_eq(name.as_str(), "false") || str_eq(name.as_str(), "False") {
        Expr::Const { value: Value::Bool(false), span }
    } else if str_eq(name.as_str(), "none") || str_eq(name.as_str(), "None") {
        Expr::Const { value: Value::Null, span }
    } else {
        Expr::Var { id: name, span }
    }
}

/// An expression at precedence `level`.
pub open spec fn expr_at(level: Level, items: Seq<LexItemView>, at: nat) -> Parsed<ExprView>
    decreases remaining(items, at), 10 + level.height(),
{
    match level {
        Level::Unary => {
            let start = first_span(items, at);
            let base = prefix(items, at);
            match base.result {
                Err(e) => fail(e, base.used),
                Ok(operand) => then(base.used, filters(items, at + base.used, start, operand)),
            }
        },
        Level::Not => match peek(items, at).result {
            Ok(Some((token, span))) if token.is_word("not"@) => {
                let inner = expr_at(Level::Not, items, at + 1);
                match inner.result {
                    Err(e) => fail(e, 1 + inner.used),
                    Ok(operand) => done(
                        ExprView::UnaryOp {
                            op: UnaryOpKind::Not,
                            expr: Box::new(operand),
                            span: span.cover(last_span(items, at + 1 + inner.used)),
                        },
                        1 + inner.used,
                    ),
                }
            },
            _ => expr_at(Level::Compare, items, at),
        },
        _ => {
            let left = expr_at(level.tighter(), items, at);
            match left.result {
                Err(e) => fail(e, left.used),
                Ok(operand) => then(
                    left.used,
                    fold(level, items, at + left.used, first_span(items, at), operand),
                ),
            }
        },
    }
}

/// The operators of `level` that follow the operand `left`, folded to the
/// left. `start` is the span of the first token of the whole.
pub open spec fn fold(
    level: Level,
    items: Seq<LexItemView>,
    at: nat,
    start: Span,
    left: ExprView,
) -> Parsed<ExprView>
    decreases remaining(items, at), 3nat,
{
    match peek(items, at).result {
        Err(e) => fail(e, 1),
        Ok(Some((token, _))) if level.operator(token) is Some => {
            let right = expr_at(level.tighter(), items, at + 1);
            match right.result {
                Err(e) => fail(e, 1 + right.used),
                Ok(operand) => then(
                    1 + right.used,
                    fold(
                        level,
                        items,
                        at + 1 + right.used,
                        start,
                        ExprView::BinOp {
                            op: level.operator(token)->Some_0,
                            left: Box::new(left),
                            right: Box::new(operand),
                            span: start.cover(last_span(items, at + 1 + right.used)),
                        },
                    ),
                ),
            }
        },
        _ => done(left, 0),
    }
}

/// Any number of `-` signs and the operand they are applied to: a primary
/// with the attribute look-ups, subscripts and calls behind it. These bind
/// tighter than the sign, so `-a.b` negates `a.b`.
pub open spec fn prefix(items: Seq<LexItemView>, at: nat) -> Parsed<ExprView>
    decreases remaining(items, at), 9nat,
{
    match peek(items, at).result {
        Ok(Some((TokenView::Minus, span))) => {
            let inner = prefix(items, at + 1);
            match inner.result {
                Err(e) => fail(e, 1 + inner.used),
                Ok(operand) => done(
                    ExprView::UnaryOp {
                        op: UnaryOpKind::Neg,
                        expr: Box::new(operand),
                        span: span.cover(last_span(items, at + 1 + inner.used)),
                    },
                    1 + inner.used,
                ),
            }
        },
        _ => {
            let base = primary(items, at);
            match base.result {
                Err(e) => fail(e, base.used),
                Ok(operand) => then(
                    base.used,
                    postfix(items, at + base.used, first_span(items, at), operand),
                ),
            }
        },
    }
}

/// A name, a literal, an expression in parentheses, a list or a dictionary.
pub open spec fn primary(items: Seq<LexItemView>, at: nat) -> Parsed<ExprView>
    decreases remaining(items, at), 8nat,
{
    match take(items, at).result {
        Err(e) => fail(e, 1),
        Ok(None) => fail(ErrorView::syntax(msg_unexpected_end("expression"@)), 0),
        Ok(Some((token, span))) => match token {
            TokenView::Ident(name) => done(name_node(name, span), 1),
            TokenView::Str(text) => done(ExprView::Const { value: ValueView::Str(text), span }, 1),
            TokenView::Int(value) => done(
                ExprView::Const { value: ValueView::Int(value), span },
                1,
            ),
            TokenView::Float(text) => done(
                ExprView::Const { value: ValueView::Float(text), span },
                1,
            ),
            TokenView::ParenOpen => {
                let inner = expr_at(Level::Or, items, at + 1);
                match inner.result {
                    Err(e) => fail(e, 1 + inner.used),
                    Ok(e) => {
                        let close = expect(items, at + 1 + inner.used, Expect::ParenClose);
                        match close.result {
                            Err(err) => fail(err, 1 + inner.used + close.used),
                            Ok(_) => done(e, 1 + inner.used + close.used),
                        }
                    },
                }
            },
            TokenView::BracketOpen => {
                let list = sequence(items, at + 1, TokenView::BracketClose, Seq::empty());
                match list.result {
                    Err(e) => fail(e, 1 + list.used),
                    Ok(elements) => done(
                        ExprView::List {
                            items: elements,
                            span: span.cover(last_span(items, at + 1 + list.used)),
                        },
                        1 + list.used,
                    ),
                }
            },
            TokenView::BraceOpen => {
                let dict = entries(items, at + 1, Seq::empty(), Seq::empty());
                match dict.result {
                    Err(e) => fail(e, 1 + dict.used),
                    Ok(pairs) => done(
                        ExprView::Dict {
                            keys: pairs.0,
                            values: pairs.1,
                            span: span.cover(last_span(items, at + 1 + dict.used)),
                        },
                        1 + dict.used,
                    ),
                }
            },
            _ => fail(ErrorView::syntax(msg_unexpected_bare(token.describe())), 1),
        },
    }
}

/// Expressions with a comma between them, up to and with the token
/// `closer`. `acc` holds the expressions read so far.
pub open spec fn sequence(
    items: Seq<LexItemView>,
    at: nat,
    closer: TokenView,
    acc: Seq<ExprView>,
) -> Parsed<Seq<ExprView>>
    decreases remaining(items, at), (if acc.len() == 0 {
        21nat
    } else {
        20nat
    }),
{
    match peek(items, at).result {
        Err(e) => fail(e, 1),
        Ok(Some((token, _))) if token == closer => done(acc, 1),
        _ => {
            let comma = if acc.len() == 0 {
                done(Span::zero(), 0)
            } else {
                expect(items, at, Expect::Comma)
            };
            match comma.result {
                Err(e) => fail(e, comma.used),
                Ok(_) => {
                    let item = expr_at(Level::Or, items, at + comma.used);
                    match item.result {
                        Err(e) => fail(e, comma.used + item.used),
                        Ok(e) => then(
                            comma.used + item.used,
                            sequence(items, at + comma.used + item.used, closer, acc.push(e)),
                        ),
                    }
                },
            }
        },
    }
}

/// `key: value` pairs with a comma between them, up to and with `}`.
pub open spec fn entries(
    items: Seq<LexItemView>,
    at: nat,
    keys: Seq<ExprView>,
    values: Seq<ExprView>,
) -> Parsed<(Seq<ExprView>, Seq<ExprView>)>
    decreases remaining(items, at), 21nat,
{
    match peek(items, at).result {
        Err(e) => fail(e, 1),
        Ok(Some((TokenView::BraceClose, _))) => done((keys, values), 1),
        _ => {
            let comma = if keys.len() == 0 {
                done(Span::zero(), 0)
            } else {
                expect(items, at, Expect::Comma)
            };
            match comma.result {
                Err(e) => fail(e, comma.used),
                Ok(_) => {
                    let key = expr_at(Level::Or, items, at + comma.used);
                    match key.result {
                        Err(e) => fail(e, comma.used + key.used),
                        Ok(k) => {
                            let colon = expect(items, at + comma.used + key.used, Expect::Colon);
                            match colon.result {
                                Err(e) => fail(e, comma.used + key.used + colon.used),
                                Ok(_) => {
                                    let value = expr_at(
                                        Level::Or,
                                        items,
                                        at + comma.used + key.used + 1,
                                    );
                                    match value.result {
                                        Err(e) => fail(
                                            e,
                                            comma.used + key.used + 1 + value.used,
                                        ),
                                        Ok(v) => then(
                                            comma.used + key.used + 1 + value.used,
                                            entries(
                                                items,
                                                at + comma.used + key.used + 1 + value.used,
                                                keys.push(k),
                                                values.push(v),
                                            ),
                                        ),
                                    }
                                },
                            }
                        },
                    }
                },
            }
        },
    }
}

/// The arguments of a call, from `(` to `)`.
pub open spec fn args(items: Seq<LexItemView>, at: nat) -> Parsed<Seq<ExprView>> {
    match take(items, at).result {
        Err(e) => fail(e, 1),
        Ok(None) => fail(ErrorView::syntax(msg_unexpected_end("`(`"@)), 0),
        Ok(Some((token, _))) => if token == TokenView::ParenOpen {
            then(1, sequence(items, at + 1, TokenView::ParenClose, Seq::empty()))
        } else {
            fail(ErrorView::syntax(msg_unexpected(token.describe(), "`(`"@)), 1)
        },
    }
}

/// Attribute look-ups, subscripts and calls applied to `subject`, in the
/// order they are written.
pub open spec fn postfix(
    items: Seq<LexItemView>,
    at: nat,
    start: Span,
    subject: ExprView,
) -> Parsed<ExprView>
    decreases remaining(items, at), 7nat,
{
    match peek(items, at).result {
        Err(e) => fail(e, 1),
        Ok(Some((TokenView::Dot, _))) => {
            let name = expect_ident(items, at + 1);
            match name.result {
                Err(e) => fail(e, 1 + name.used),
                Ok(attr) => then(
                    2,
                    postfix(
                        items,
                        at + 2,
                        start,
                        ExprView::GetAttr {
                            name: attr,
                            expr: Box::new(subject),
                            span: start.cover(last_span(items, at + 2)),
                        },
                    ),
                ),
            }
        },
        Ok(Some((TokenView::BracketOpen, _))) => {
            let index = expr_at(Level::Or, items, at + 1);
            match index.result {
                Err(e) => fail(e, 1 + index.used),
                Ok(subscript) => {
                    let close = expect(items, at + 1 + index.used, Expect::BracketClose);
                    match close.result {
                        Err(e) => fail(e, 1 + index.used + close.used),
                        Ok(_) => then(
                            1 + index.used + 1,
                            postfix(
                                items,
                                at + 1 + index.used + 1,
                                start,
                                ExprView::GetItem {
                                    expr: Box::new(subject),
                                    subscript_expr: Box::new(subscript),
                                    span: start.cover(last_span(items, at + 1 + index.used + 1)),
                                },
                            ),
                        ),
                    }
                },
            }
        },
        Ok(Some((TokenView::ParenOpen, _))) => {
            let list = sequence(items, at + 1, TokenView::ParenClose, Seq::empty());
            match list.result {
                Err(e) => fail(e, 1 + list.used),
                Ok(arguments) => then(
                    1 + list.used,
                    postfix(
                        items,
                        at + 1 + list.used,
                        start,
                        ExprView::Call {
                            expr: Box::new(subject),
                            args: arguments,
                            span: start.cover(last_span(items, at + 1 + list.used)),
                        },
                    ),
                ),
            }
        },
        _ => done(subject, 0),
    }
}

/// The arguments behind the name of a filter or test: those in
/// parentheses, or none where no `(` follows.
pub open spec fn optional_args(items: Seq<LexItemView>, at: nat) -> Parsed<Seq<ExprView>>
    decreases remaining(items, at), 22nat,
{
    match peek(items, at).result {
        Err(e) => fail(e, 1),
        Ok(Some((TokenView::ParenOpen, _))) => then(
            1,
            sequence(items, at + 1, TokenView::ParenClose, Seq::empty()),
        ),
        _ => done(Seq::empty(), 0),
    }
}

/// Filters (`|name`) and tests (`is name`) applied to `subject`, in the
/// order they are written.
pub open spec fn filters(
    items: Seq<LexItemView>,
    at: nat,
    start: Span,
    subject: ExprView,
) -> Parsed<ExprView>
    decreases remaining(items, at), 6nat,
{
    match peek(items, at).result {
        Err(e) => fail(e, 1),
        Ok(Some((token, _))) if token == TokenView::Pipe || token.is_word("is"@) => {
            let name = expect_ident(items, at + 1);
            match name.result {
                Err(e) => fail(e, 1 + name.used),
                Ok(word) => {
                    let arguments = optional_args(items, at + 2);
                    match arguments.result {
                        Err(e) => fail(e, 2 + arguments.used),
                        Ok(list) => {
                            let span = start.cover(last_span(items, at + 2 + arguments.used));
                            let node = if token == TokenView::Pipe {
                                ExprView::Filter {
                                    name: word,
                                    expr: Box::new(subject),
                                    args: list,
                                    span,
                                }
                            } else {
                                ExprView::Test {
                                    name: word,
                                    expr: Box::new(subject),
                                    args: list,
                                    span,
                                }
                            };
                            then(
                                2 + arguments.used,
                                filters(items, at + 2 + arguments.used, start, node),
                            )
                        },
                    }
                },
            }
        },
        _ => done(subject, 0),
    }
}

/// Where the tokenizer failed at position `at`, every expression that
/// starts there fails with that failure, and uses it up.
pub proof fn lemma_failure_ends_expression(level: Level, items: Seq<LexItemView>, at: nat)
    requires
        at < items.len(),
        items[at as int] is Err,
    ensures
        expr_at(level, items, at) == fail::<ExprView>(items[at as int]->Err_0, 1),
    decreases level.height(),
{
    match level {
        Level::Unary => {
            assert(primary(items, at) == fail::<ExprView>(items[at as int]->Err_0, 1));
            assert(prefix(items, at) == primary(items, at));
        },
        Level::Not => {
            lemma_failure_ends_expression(Level::Compare, items, at);
        },
        _ => {
            lemma_failure_ends_expression(level.tighter(), items, at);
        },
    }
}

/// A whole expression.
pub open spec fn expression(items: Seq<LexItemView>, at: nat) -> Parsed<ExprView> {
    expr_at(Level::Or, items, at)
}

/// The keywords at which a statement body stops.
#[derive(Clone, Copy, Debug, PartialEq, Eq, Structural)]
pub enum Terminator {
    /// Nothing stops the body but the end of the input.
    Never,
    /// `endfor`
    EndFor,
    /// `endif`, `else` or `elif`
    Branch,
    /// `endif`
    EndIf,
    /// `endwith`
    EndWith,
    /// `endblock`
    EndBlock,
    /// `endautoescape`
    EndAutoEscape,
}

impl Terminator {
    /// `token` is one of the keywords of this terminator.
    pub open spec fn ends(self, token: TokenView) -> bool {
        match self {
            Terminator::Never => false,
            Terminator::EndFor => token.is_word("endfor"@),
            Terminator::Branch => token.is_word("endif"@) || token.is_word("else"@)
                || token.is_word("elif"@),
            Terminator::EndIf => token.is_word("endif"@),
            Terminator::EndWith => token.is_word("endwith"@),
            Terminator::EndBlock => token.is_word("endblock"@),
            Terminator::EndAutoEscape => token.is_word("endautoescape"@),
        }
    }
}

impl Terminator {
    /// Whether `token` is one of the keywords of this terminator.
    pub fn stops_at(self, token: &Token) -> (r: bool)
        ensures
            r == self.ends(token@),
    {
        match self {
            Terminator::Never => false,
            Terminator::EndFor => token.is_word("endfor"),
            Terminator::Branch => token.is_word("endif") || token.is_word("else") || token.is_word(
                "elif",
            ),
            Terminator::EndIf => token.is_word("endif"),
            Terminator::EndWith => token.is_word("endwith"),
            Terminator::EndBlock => token.is_word("endblock"),
            Terminator::EndAutoEscape => token.is_word("endautoescape"),
        }
    }
}

/// Whether nothing can be assigned to `name`.
pub fn reserved_name(name: &str) -> (r: bool)
    ensures
        r == is_reserved(name@),
{
    str_eq(name, "true") || str_eq(name, "True") || str_eq(name, "false") || str_eq(name, "False")
        || str_eq(name, "none") || str_eq(name, "None") || str_eq(name, "loop")
}

/// The names that nothing can be assigned to.
pub open spec fn is_reserved(name: Seq<char>) -> bool {
    name == "true"@ || name == "True"@ || name == "false"@ || name == "False"@ || name == "none"@
        || name == "None"@ || name == "loop"@
}

/// The name that a `for` or a `with` assigns to.
pub open spec fn assign_target(items: Seq<LexItemView>, at: nat) -> Parsed<Seq<char>> {
    let name = expect_ident(items, at);
    match name.result {
        Err(e) => fail(e, name.used),
        Ok(target) => if is_reserved(target) {
            fail(ErrorView::syntax(msg_reserved(target)), 1)
        } else {
            done(target, 1)
        },
    }
}

/// The statements of a body: raw text, printed expressions and tags, up to
/// the tag that opens with a keyword of `term` or to the end of the input.
/// The `{%` of the closing tag is used up, its keyword is not. `acc` holds
/// the statements read so far.
pub open spec fn body(
    items: Seq<LexItemView>,
    at: nat,
    term: Terminator,
    acc: Seq<StmtView>,
) -> Parsed<Seq<StmtView>>
    decreases remaining(items, at), 0nat,
{
    match take(items, at).result {
        Err(e) => fail(e, 1),
        Ok(None) => done(acc, 0),
        Ok(Some((token, span))) => match token {
            TokenView::TemplateData(raw) => then(
                1,
                body(items, at + 1, term, acc.push(StmtView::EmitRaw { raw, span })),
            ),
            TokenView::VariableStart(_) => {
                let inner = expression(items, at + 1);
                match inner.result {
                    Err(e) => fail(e, 1 + inner.used),
                    Ok(expr) => {
                        let close = expect(items, at + 1 + inner.used, Expect::VariableEnd);
                        match close.result {
                            Err(e) => fail(e, 1 + inner.used + close.used),
                            Ok(_) => then(
                                1 + inner.used + 1,
                                body(
                                    items,
                                    at + 1 + inner.used + 1,
                                    term,
                                    acc.push(
                                        StmtView::EmitExpr {
                                            expr,
                                            span: span.cover(
                                                last_span(items, at + 1 + inner.used + 1),
                                            ),
                                        },
                                    ),
                                ),
                            ),
                        }
                    },
                }
            },
            TokenView::BlockStart(_) => match peek(items, at + 1).result {
                Err(e) => fail(e, 2),
                Ok(None) => fail(ErrorView::syntax(msg_unexpected_end("keyword"@)), 1),
                Ok(Some((keyword, _))) => if term.ends(keyword) {
                    done(acc, 1)
                } else {
                    let inner = statement(items, at + 1);
                    match inner.result {
                        Err(e) => fail(e, 1 + inner.used),
                        Ok(node) => {
                            let close = expect(items, at + 1 + inner.used, Expect::BlockEnd);
                            match close.result {
                                Err(e) => fail(e, 1 + inner.used + close.used),
                                Ok(_) => then(
                                    1 + inner.used + 1,
                                    body(items, at + 1 + inner.used + 1, term, acc.push(node)),
                                ),
                            }
                        },
                    }
                },
            },
            _ => fail(ErrorView::syntax(msg_unexpected_bare(token.describe())), 1),
        },
    }
}

/// One statement, from its keyword on. The span of the node starts at the
/// keyword.
pub open spec fn statement(items: Seq<LexItemView>, at: nat) -> Parsed<StmtView>
    decreases remaining(items, at), 0nat,
{
    match take(items, at).result {
        Err(e) => fail(e, 1),
        Ok(None) => fail(ErrorView::syntax(msg_unexpected_end("block keyword"@)), 0),
        Ok(Some((token, span))) => if token.is_word("for"@) {
            then(1, for_loop(items, at + 1, span))
        } else if token.is_word("if"@) {
            then(1, if_cond(items, at + 1, span))
        } else if token.is_word("with"@) {
            then(1, with_block(items, at + 1, span))
        } else if token.is_word("block"@) {
            then(1, block(items, at + 1, span))
        } else if token.is_word("extends"@) {
            then(1, extends(items, at + 1, span))
        } else if token.is_word("autoescape"@) {
            then(1, auto_escape(items, at + 1, span))
        } else {
            fail(ErrorView::syntax("unknown block"@), 1)
        },
    }
}

/// The rest of an opening tag and what it encloses: `%}`, a body up to a
/// keyword of `term`, and that keyword.
pub open spec fn enclosed(items: Seq<LexItemView>, at: nat, term: Terminator) -> Parsed<
    Seq<StmtView>,
>
    decreases remaining(items, at), 0nat,
{
    let open = expect(items, at, Expect::BlockEnd);
    match open.result {
        Err(e) => fail(e, open.used),
        Ok(_) => {
            let inner = body(items, at + 1, term, Seq::empty());
            match inner.result {
                Err(e) => fail(e, 1 + inner.used),
                Ok(stmts) => {
                    let end = take(items, at + 1 + inner.used);
                    match end.result {
                        Err(e) => fail(e, 1 + inner.used + end.used),
                        Ok(_) => done(stmts, 1 + inner.used + end.used),
                    }
                },
            }
        },
    }
}

/// `target in iter %} body {% endfor`
pub open spec fn for_loop(items: Seq<LexItemView>, at: nat, start: Span) -> Parsed<StmtView>
    decreases remaining(items, at), 1nat,
{
    let target = assign_target(items, at);
    match target.result {
        Err(e) => fail(e, target.used),
        Ok(name) => {
            let word = expect(items, at + 1, Expect::In);
            match word.result {
                Err(e) => fail(e, 1 + word.used),
                Ok(_) => {
                    let iter = expression(items, at + 2);
                    match iter.result {
                        Err(e) => fail(e, 2 + iter.used),
                        Ok(iterable) => {
                            let rest = enclosed(items, at + 2 + iter.used, Terminator::EndFor);
                            match rest.result {
                                Err(e) => fail(e, 2 + iter.used + rest.used),
                                Ok(inner) => done(
                                    StmtView::ForLoop {
                                        target: name,
                                        iter: iterable,
                                        body: inner,
                                        span: start.cover(
                                            last_span(items, at + 2 + iter.used + rest.used),
                                        ),
                                    },
                                    2 + iter.used + rest.used,
                                ),
                            }
                        },
                    }
                },
            }
        },
    }
}

/// `expr %} true_body` and then `{% endif`, or `{% else %} false_body
/// {% endif`, or `{% elif` and all of this once more.
pub open spec fn if_cond(items: Seq<LexItemView>, at: nat, start: Span) -> Parsed<StmtView>
    decreases remaining(items, at), 1nat,
{
    let cond = expression(items, at);
    match cond.result {
        Err(e) => fail(e, cond.used),
        Ok(expr) => {
            let open = expect(items, at + cond.used, Expect::BlockEnd);
            match open.result {
                Err(e) => fail(e, cond.used + open.used),
                Ok(_) => {
                    let yes = body(items, at + cond.used + 1, Terminator::Branch, Seq::empty());
                    match yes.result {
                        Err(e) => fail(e, cond.used + 1 + yes.used),
                        Ok(true_body) => then(
                            cond.used + 1 + yes.used,
                            if_rest(items, at + cond.used + 1 + yes.used, start, expr, true_body),
                        ),
                    }
                },
            }
        },
    }
}

/// What follows the true branch of an `if`, from the keyword that ended it.
pub open spec fn if_rest(
    items: Seq<LexItemView>,
    at: nat,
    start: Span,
    expr: ExprView,
    true_body: Seq<StmtView>,
) -> Parsed<StmtView>
    decreases remaining(items, at), 0nat,
{
    match take(items, at).result {
        Err(e) => fail(e, 1),
        Ok(Some((token, span))) if token.is_word("else"@) => {
            let rest = enclosed(items, at + 1, Terminator::EndIf);
            match rest.result {
                Err(e) => fail(e, 1 + rest.used),
                Ok(false_body) => done(
                    StmtView::IfCond {
                        expr,
                        true_body,
                        false_body,
                        span: start.cover(last_span(items, at + 1 + rest.used)),
                    },
                    1 + rest.used,
                ),
            }
        },
        Ok(Some((token, span))) if token.is_word("elif"@) => {
            let nested = if_cond(items, at + 1, span);
            match nested.result {
                Err(e) => fail(e, 1 + nested.used),
                Ok(node) => done(
                    StmtView::IfCond {
                        expr,
                        true_body,
                        false_body: seq![node],
                        span: start.cover(last_span(items, at + 1 + nested.used)),
                    },
                    1 + nested.used,
                ),
            }
        },
        Ok(end) => {
            let used: nat = if end is Some {
                1
            } else {
                0
            };
            done(
                StmtView::IfCond {
                    expr,
                    true_body,
                    false_body: Seq::empty(),
                    span: start.cover(last_span(items, at + used)),
                },
                used,
            )
        },
    }
}

/// The bindings `target = expr` of a `with`, with a comma between them, up
/// to the `%}`, which is left in place.
pub open spec fn bindings(
    items: Seq<LexItemView>,
    at: nat,
    acc: Seq<(Seq<char>, ExprView)>,
) -> Parsed<Seq<(Seq<char>, ExprView)>>
    decreases remaining(items, at), 0nat,
{
    match peek(items, at).result {
        Err(e) => fail(e, 1),
        Ok(Some((token, _))) if token is BlockEnd => done(acc, 0),
        _ => {
            let comma = if acc.len() == 0 {
                done(Span::zero(), 0)
            } else {
                expect(items, at, Expect::Separator)
            };
            match comma.result {
                Err(e) => fail(e, comma.used),
                Ok(_) => {
                    let target = assign_target(items, at + comma.used);
                    match target.result {
                        Err(e) => fail(e, comma.used + target.used),
                        Ok(name) => {
                            let sign = expect(items, at + comma.used + 1, Expect::Assign);
                            match sign.result {
                                Err(e) => fail(e, comma.used + 1 + sign.used),
                                Ok(_) => {
                                    let value = expression(items, at + comma.used + 2);
                                    match value.result {
                                        Err(e) => fail(e, comma.used + 2 + value.used),
                                        Ok(expr) => then(
                                            comma.used + 2 + value.used,
                                            bindings(
                                                items,
                                                at + comma.used + 2 + value.used,
                                                acc.push((name, expr)),
                                            ),
                                        ),
                                    }
                                },
                            }
                        },
                    }
                },
            }
        },
    }
}

/// `bindings %} body {% endwith`
pub open spec fn with_block(items: Seq<LexItemView>, at: nat, start: Span) -> Parsed<StmtView>
    decreases remaining(items, at), 1nat,
{
    let list = bindings(items, at, Seq::empty());
    match list.result {
        Err(e) => fail(e, list.used),
        Ok(assignments) => {
            let rest = enclosed(items, at + list.used, Terminator::EndWith);
            match rest.result {
                Err(e) => fail(e, list.used + rest.used),
                Ok(inner) => done(
                    StmtView::WithBlock {
                        assignments,
                        body: inner,
                        span: start.cover(last_span(items, at + list.used + rest.used)),
                    },
                    list.used + rest.used,
                ),
            }
        },
    }
}

/// `name %} body {% endblock`, and the name once more where it is repeated.
pub open spec fn block(items: Seq<LexItemView>, at: nat, start: Span) -> Parsed<StmtView>
    decreases remaining(items, at), 1nat,
{
    let name = expect_ident(items, at);
    match name.result {
        Err(e) => fail(e, name.used),
        Ok(word) => {
            let rest = enclosed(items, at + 1, Terminator::EndBlock);
            match rest.result {
                Err(e) => fail(e, 1 + rest.used),
                Ok(inner) => match peek(items, at + 1 + rest.used).result {
                    Err(e) => fail(e, 1 + rest.used + 1),
                    Ok(Some((TokenView::Ident(trailing), _))) => if trailing != word {
                        fail(ErrorView::syntax(msg_mismatch(trailing, word)), 1 + rest.used)
                    } else {
                        done(
                            StmtView::Block {
                                name: word,
                                body: inner,
                                span: start.cover(last_span(items, at + 1 + rest.used + 1)),
                            },
                            1 + rest.used + 1,
                        )
                    },
                    _ => done(
                        StmtView::Block {
                            name: word,
                            body: inner,
                            span: start.cover(last_span(items, at + 1 + rest.used)),
                        },
                        1 + rest.used,
                    ),
                },
            }
        },
    }
}

/// `name`, the template that this one extends. Nothing closes the tag.
pub open spec fn extends(items: Seq<LexItemView>, at: nat, start: Span) -> Parsed<StmtView>
    decreases remaining(items, at), 1nat,
{
    let name = expression(items, at);
    match name.result {
        Err(e) => fail(e, name.used),
        Ok(expr) => done(
            StmtView::Extends { name: expr, span: start.cover(last_span(items, at + name.used)) },
            name.used,
        ),
    }
}

/// `enabled %} body {% endautoescape`
pub open spec fn auto_escape(items: Seq<LexItemView>, at: nat, start: Span) -> Parsed<StmtView>
    decreases remaining(items, at), 1nat,
{
    let flag = expression(items, at);
    match flag.result {
        Err(e) => fail(e, flag.used),
        Ok(enabled) => {
            let rest = enclosed(items, at + flag.used, Terminator::EndAutoEscape);
            match rest.result {
                Err(e) => fail(e, flag.used + rest.used),
                Ok(inner) => done(
                    StmtView::AutoEscape {
                        enabled,
                        body: inner,
                        span: start.cover(last_span(items, at + flag.used + rest.used)),
                    },
                    flag.used + rest.used,
                ),
            }
        },
    }
}

/// A whole template: a body that only the end of the input stops. The span
/// of the root runs from the first token to the last.
pub open spec fn template(items: Seq<LexItemView>, at: nat) -> Parsed<StmtView> {
    match peek(items, at).result {
        Err(e) => fail(e, 1),
        Ok(_) => {
            let inner = body(items, at, Terminator::Never, Seq::empty());
            match inner.result {
                Err(e) => fail(e, inner.used),
                Ok(children) => done(
                    StmtView::Template {
                        children,
                        span: first_span(items, at).cover(last_span(items, at + inner.used)),
                    },
                    inner.used,
                ),
            }
        },
    }
}

/// The failure of a production that used `used` items of `items`, with
/// the place it is reported at: `filename` and the line of the token used last.
pub open spec fn located(
    e: ErrorView,
    items: Seq<LexItemView>,
    used: nat,
    filename: Seq<char>,
) -> ErrorView {
    e.located(filename, last_span(items, used).start_line)
}

/// What parsing `source` as a template named `filename` gives.
pub open spec fn parse_template(source: Seq<char>, filename: Seq<char>) -> Result<
    StmtView,
    ErrorView,
> {
    let items = tokenize(source, false);
    let out = template(items, 0);
    match out.result {
        Ok(root) => Ok(root),
        Err(e) => Err(located(e, items, out.used, filename)),
    }
}

/// What parsing `source` as a single expression gives. A failure is
/// reported in the file `<expression>`.
pub open spec fn parse_expression(source: Seq<char>) -> Result<ExprView, ErrorView> {
    let items = tokenize(source, true);
    let out = expression(items, 0);
    match out.result {
        Ok(expr) => Ok(expr),
        Err(e) => Err(located(e, items, out.used, "<expression>"@)),
    }
}

} // verus!
