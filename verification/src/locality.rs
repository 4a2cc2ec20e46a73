//! A production reads the items it uses and one item of lookahead, and
//! nothing behind them: what follows in the input does not change what the
//! production gives.

use crate::ast::{ExprView, StmtView};
use crate::grammar::{
    assign_target, auto_escape, bindings, block, body, done, enclosed, entries, expect,
    expect_ident, expr_at, expression, extends, filters, first_span, fold, for_loop, if_cond,
    if_rest, last_span, optional_args, peek, postfix, prefix, primary, remaining, sequence,
    statement, take, with_block, Expect, Level, Terminator,
};
use crate::tokens::{LexItemView, Span, TokenView};
use vstd::prelude::*;

verus! {

/// The item at position `i`, if there is one.
pub open spec fn item_at(items: Seq<LexItemView>, i: int) -> Option<LexItemView> {
    if 0 <= i < items.len() {
        Some(items[i])
    } else {
        None
    }
}

/// `a` and `b` hold the same items at every position before `n`, and
/// where one of them ends before `n`, so does the other.
pub open spec fn same_prefix(a: Seq<LexItemView>, b: Seq<LexItemView>, n: nat) -> bool {
    forall|i: int| 0 <= i < n ==> #[trigger] item_at(a, i) == item_at(b, i)
}

/// What is read at a position before `n` is the same in both inputs.
pub proof fn lemma_same_at(a: Seq<LexItemView>, b: Seq<LexItemView>, n: nat, at: nat)
    requires
        same_prefix(a, b, n),
        at < n,
    ensures
        peek(b, at) == peek(a, at),
        take(b, at) == take(a, at),
        expect_ident(b, at) == expect_ident(a, at),
        assign_target(b, at) == assign_target(a, at),
        forall|what: Expect| expect(b, at, what) == expect(a, at, what),
        first_span(b, at) == first_span(a, at),
{
    assert(item_at(a, at as int) == item_at(b, at as int));
    lemma_same_last(a, b, n, at);
}

/// The token used last before a position up to `n` is the same in both inputs.
pub proof fn lemma_same_last(a: Seq<LexItemView>, b: Seq<LexItemView>, n: nat, at: nat)
    requires
        same_prefix(a, b, n),
        at <= n,
    ensures
        last_span(b, at) == last_span(a, at),
    decreases at,
{
    if at > 0 {
        assert(item_at(a, at - 1) == item_at(b, at - 1));
        lemma_same_last(a, b, n, (at - 1) as nat);
    }
}

pub proof fn lemma_local_expr_at(
    level: Level,
    a: Seq<LexItemView>,
    b: Seq<LexItemView>,
    at: nat,
)
    requires
        same_prefix(a, b, at + expr_at(level, a, at).used + 1),
    ensures
        expr_at(level, b, at) == expr_at(level, a, at),
    decreases remaining(a, at), 10 + level.height(),
{
    let n = at + expr_at(level, a, at).used + 1;
    lemma_same_at(a, b, n, at);
    match level {
        Level::Unary => {
            let start = first_span(a, at);
            let base = prefix(a, at);
            lemma_local_prefix(a, b, at);
            match base.result {
                Ok(operand) => {
                    lemma_local_filters(a, b, at + base.used, start, operand);
                },
                Err(_) => {},
            }
        },
        Level::Not => {
            let next = peek(a, at).result;
            if next matches Ok(Some((token, span))) && token.is_word("not"@) {
                let inner = expr_at(Level::Not, a, at + 1);
                lemma_local_expr_at(Level::Not, a, b, at + 1);
                lemma_same_last(a, b, n, at + 1 + inner.used);
            } else {
                lemma_local_expr_at(Level::Compare, a, b, at);
            }
        },
        _ => {
            let left = expr_at(level.tighter(), a, at);
            lemma_local_expr_at(level.tighter(), a, b, at);
            match left.result {
                Ok(operand) => {
                    lemma_local_fold(level, a, b, at + left.used, first_span(a, at), operand);
                },
                Err(_) => {},
            }
        },
    }
}

proof fn lemma_local_fold(
    level: Level,
    a: Seq<LexItemView>,
    b: Seq<LexItemView>,
    at: nat,
    start: Span,
    left: ExprView,
)
    requires
        same_prefix(a, b, at + fold(level, a, at, start, left).used + 1),
    ensures
        fold(level, b, at, start, left) == fold(level, a, at, start, left),
    decreases remaining(a, at), 3nat,
{
    let n = at + fold(level, a, at, start, left).used + 1;
    lemma_same_at(a, b, n, at);
    let next = peek(a, at).result;
    if next matches Ok(Some((token, _))) && level.operator(token) is Some {
        let right = expr_at(level.tighter(), a, at + 1);
        lemma_local_expr_at(level.tighter(), a, b, at + 1);
        match right.result {
            Ok(operand) => {
                let end = at + 1 + right.used;
                lemma_same_last(a, b, n, end);
                let node = ExprView::BinOp {
                    op: level.operator(next->Ok_0->Some_0.0)->Some_0,
                    left: Box::new(left),
                    right: Box::new(operand),
                    span: start.cover(last_span(a, end)),
                };
                lemma_local_fold(level, a, b, end, start, node);
            },
            Err(_) => {},
        }
    }
}

proof fn lemma_local_prefix(a: Seq<LexItemView>, b: Seq<LexItemView>, at: nat)
    requires
        same_prefix(a, b, at + prefix(a, at).used + 1),
    ensures
        prefix(b, at) == prefix(a, at),
    decreases remaining(a, at), 9nat,
{
    let n = at + prefix(a, at).used + 1;
    lemma_same_at(a, b, n, at);
    let next = peek(a, at).result;
    if next matches Ok(Some((TokenView::Minus, _))) {
        let inner = prefix(a, at + 1);
        lemma_local_prefix(a, b, at + 1);
        lemma_same_last(a, b, n, at + 1 + inner.used);
    } else {
        let base = primary(a, at);
        lemma_local_primary(a, b, at);
        match base.result {
            Ok(operand) => {
                lemma_local_postfix(a, b, at + base.used, first_span(a, at), operand);
            },
            Err(_) => {},
        }
    }
}

proof fn lemma_local_primary(a: Seq<LexItemView>, b: Seq<LexItemView>, at: nat)
    requires
        same_prefix(a, b, at + primary(a, at).used + 1),
    ensures
        primary(b, at) == primary(a, at),
    decreases remaining(a, at), 8nat,
{
    let n = at + primary(a, at).used + 1;
    lemma_same_at(a, b, n, at);
    match take(a, at).result {
        Ok(Some((token, span))) => match token {
            TokenView::ParenOpen => {
                let inner = expr_at(Level::Or, a, at + 1);
                lemma_local_expr_at(Level::Or, a, b, at + 1);
                if inner.result is Ok {
                    lemma_same_at(a, b, n, at + 1 + inner.used);
                }
            },
            TokenView::BracketOpen => {
                let list = sequence(a, at + 1, TokenView::BracketClose, Seq::empty());
                lemma_local_sequence(a, b, at + 1, TokenView::BracketClose, Seq::empty());
                lemma_same_last(a, b, n, at + 1 + list.used);
            },
            TokenView::BraceOpen => {
                let dict = entries(a, at + 1, Seq::empty(), Seq::empty());
                lemma_local_entries(a, b, at + 1, Seq::empty(), Seq::empty());
                lemma_same_last(a, b, n, at + 1 + dict.used);
            },
            _ => {},
        },
        _ => {},
    }
}

proof fn lemma_local_sequence(
    a: Seq<LexItemView>,
    b: Seq<LexItemView>,
    at: nat,
    closer: TokenView,
    acc: Seq<ExprView>,
)
    requires
        same_prefix(a, b, at + sequence(a, at, closer, acc).used + 1),
    ensures
        sequence(b, at, closer, acc) == sequence(a, at, closer, acc),
    decreases remaining(a, at), (if acc.len() == 0 {
        21nat
    } else {
        20nat
    }),
{
    let n = at + sequence(a, at, closer, acc).used + 1;
    lemma_same_at(a, b, n, at);
    let next = peek(a, at).result;
    if next matches Ok(Some((token, _))) && token == closer {
    } else if next is Ok {
        let comma = if acc.len() == 0 {
            done(Span::zero(), 0)
        } else {
            expect(a, at, Expect::Comma)
        };
        if comma.result is Ok {
            let start = at + comma.used;
            let item = expr_at(Level::Or, a, start);
            lemma_local_expr_at(Level::Or, a, b, start);
            match item.result {
                Ok(e) => {
                    lemma_local_sequence(a, b, start + item.used, closer, acc.push(e));
                },
                Err(_) => {},
            }
        }
    }
}

proof fn lemma_local_entries(
    a: Seq<LexItemView>,
    b: Seq<LexItemView>,
    at: nat,
    keys: Seq<ExprView>,
    values: Seq<ExprView>,
)
    requires
        same_prefix(a, b, at + entries(a, at, keys, values).used + 1),
    ensures
        entries(b, at, keys, values) == entries(a, at, keys, values),
    decreases remaining(a, at), 21nat,
{
    let n = at + entries(a, at, keys, values).used + 1;
    lemma_same_at(a, b, n, at);
    let next = peek(a, at).result;
    if next matches Ok(Some((TokenView::BraceClose, _))) {
    } else if next is Ok {
        let comma = if keys.len() == 0 {
            done(Span::zero(), 0)
        } else {
            expect(a, at, Expect::Comma)
        };
        if comma.result is Ok {
            let start = at + comma.used;
            let key = expr_at(Level::Or, a, start);
            lemma_local_expr_at(Level::Or, a, b, start);
            match key.result {
                Ok(k) => {
                    lemma_same_at(a, b, n, start + key.used);
                    let colon = expect(a, start + key.used, Expect::Colon);
                    if colon.result is Ok {
                        let second = start + key.used + 1;
                        let value = expr_at(Level::Or, a, second);
                        lemma_local_expr_at(Level::Or, a, b, second);
                        match value.result {
                            Ok(v) => {
                                lemma_local_entries(
                                    a,
                                    b,
                                    second + value.used,
                                    keys.push(k),
                                    values.push(v),
                                );
                            },
                            Err(_) => {},
                        }
                    }
                },
                Err(_) => {},
            }
        }
    }
}

proof fn lemma_local_postfix(
    a: Seq<LexItemView>,
    b: Seq<LexItemView>,
    at: nat,
    start: Span,
    subject: ExprView,
)
    requires
        same_prefix(a, b, at + postfix(a, at, start, subject).used + 1),
    ensures
        postfix(b, at, start, subject) == postfix(a, at, start, subject),
    decreases remaining(a, at), 7nat,
{
    let n = at + postfix(a, at, start, subject).used + 1;
    lemma_same_at(a, b, n, at);
    match peek(a, at).result {
        Ok(Some((TokenView::Dot, _))) => {
            lemma_same_at(a, b, n, at + 1);
            let name = expect_ident(a, at + 1);
            match name.result {
                Ok(attr) => {
                    lemma_same_last(a, b, n, at + 2);
                    let node = ExprView::GetAttr {
                        name: attr,
                        expr: Box::new(subject),
                        span: start.cover(last_span(a, at + 2)),
                    };
                    lemma_local_postfix(a, b, at + 2, start, node);
                },
                Err(_) => {},
            }
        },
        Ok(Some((TokenView::BracketOpen, _))) => {
            let index = expr_at(Level::Or, a, at + 1);
            lemma_local_expr_at(Level::Or, a, b, at + 1);
            match index.result {
                Ok(subscript) => {
                    lemma_same_at(a, b, n, at + 1 + index.used);
                    let close = expect(a, at + 1 + index.used, Expect::BracketClose);
                    if close.result is Ok {
                        let end = at + 1 + index.used + 1;
                        lemma_same_last(a, b, n, end);
                        let node = ExprView::GetItem {
                            expr: Box::new(subject),
                            subscript_expr: Box::new(subscript),
                            span: start.cover(last_span(a, end)),
                        };
                        lemma_local_postfix(a, b, end, start, node);
                    }
                },
                Err(_) => {},
            }
        },
        Ok(Some((TokenView::ParenOpen, _))) => {
            let list = sequence(a, at + 1, TokenView::ParenClose, Seq::empty());
            lemma_local_sequence(a, b, at + 1, TokenView::ParenClose, Seq::empty());
            match list.result {
                Ok(arguments) => {
                    let end = at + 1 + list.used;
                    lemma_same_last(a, b, n, end);
                    let node = ExprView::Call {
                        expr: Box::new(subject),
                        args: arguments,
                        span: start.cover(last_span(a, end)),
                    };
                    lemma_local_postfix(a, b, end, start, node);
                },
                Err(_) => {},
            }
        },
        _ => {},
    }
}

proof fn lemma_local_optional_args(a: Seq<LexItemView>, b: Seq<LexItemView>, at: nat)
    requires
        same_prefix(a, b, at + optional_args(a, at).used + 1),
    ensures
        optional_args(b, at) == optional_args(a, at),
    decreases remaining(a, at), 22nat,
{
    let n = at + optional_args(a, at).used + 1;
    lemma_same_at(a, b, n, at);
    if peek(a, at).result matches Ok(Some((TokenView::ParenOpen, _))) {
        lemma_local_sequence(a, b, at + 1, TokenView::ParenClose, Seq::empty());
    }
}

proof fn lemma_local_filters(
    a: Seq<LexItemView>,
    b: Seq<LexItemView>,
    at: nat,
    start: Span,
    subject: ExprView,
)
    requires
        same_prefix(a, b, at + filters(a, at, start, subject).used + 1),
    ensures
        filters(b, at, start, subject) == filters(a, at, start, subject),
    decreases remaining(a, at), 6nat,
{
    let n = at + filters(a, at, start, subject).used + 1;
    lemma_same_at(a, b, n, at);
    let next = peek(a, at).result;
    if next matches Ok(Some((token, _))) && (token == TokenView::Pipe || token.is_word("is"@)) {
        let token = next->Ok_0->Some_0.0;
        lemma_same_at(a, b, n, at + 1);
        let name = expect_ident(a, at + 1);
        match name.result {
            Ok(word) => {
                let arguments = optional_args(a, at + 2);
                lemma_local_optional_args(a, b, at + 2);
                match arguments.result {
                    Ok(list) => {
                        let end = at + 2 + arguments.used;
                        lemma_same_last(a, b, n, end);
                        let span = start.cover(last_span(a, end));
                        let node = if token == TokenView::Pipe {
                            ExprView::Filter {
                                name: word,
                                expr: Box::new(subject),
                                args: list,
                                span,
                            }
                        } else {
                            ExprView::Test { name: word, expr: Box::new(subject), args: list, span }
                        };
                        lemma_local_filters(a, b, end, start, node);
                    },
                    Err(_) => {},
                }
            },
            Err(_) => {},
        }
    }
}

#[verifier::rlimit(30)]
pub proof fn lemma_local_body(
    a: Seq<LexItemView>,
    b: Seq<LexItemView>,
    at: nat,
    term: Terminator,
    acc: Seq<StmtView>,
)
    requires
        same_prefix(a, b, at + body(a, at, term, acc).used + 1),
    ensures
        body(b, at, term, acc) == body(a, at, term, acc),
    decreases remaining(a, at), 0nat,
{
    let n = at + body(a, at, term, acc).used + 1;
    lemma_same_at(a, b, n, at);
    match take(a, at).result {
        Ok(Some((token, span))) => match token {
            TokenView::TemplateData(raw) => {
                lemma_local_body(a, b, at + 1, term, acc.push(StmtView::EmitRaw { raw, span }));
            },
            TokenView::VariableStart(_) => {
                let inner = expression(a, at + 1);
                lemma_local_expr_at(Level::Or, a, b, at + 1);
                match inner.result {
                    Ok(expr) => {
                        let mid = at + 1 + inner.used;
                        lemma_same_at(a, b, n, mid);
                        let close = expect(a, mid, Expect::VariableEnd);
                        if close.result is Ok {
                            lemma_same_last(a, b, n, mid + 1);
                            lemma_local_body(
                                a,
                                b,
                                mid + 1,
                                term,
                                acc.push(
                                    StmtView::EmitExpr {
                                        expr,
                                        span: span.cover(last_span(a, mid + 1)),
                                    },
                                ),
                            );
                        }
                    },
                    Err(_) => {},
                }
            },
            TokenView::BlockStart(_) => {
                lemma_same_at(a, b, n, at + 1);
                let next = peek(a, at + 1).result;
                if next matches Ok(Some((keyword, _))) && !term.ends(keyword) {
                    let inner = statement(a, at + 1);
                    lemma_local_statement(a, b, at + 1);
                    match inner.result {
                        Ok(node) => {
                            let mid = at + 1 + inner.used;
                            lemma_same_at(a, b, n, mid);
                            let close = expect(a, mid, Expect::BlockEnd);
                            if close.result is Ok {
                                lemma_local_body(a, b, mid + 1, term, acc.push(node));
                            }
                        },
                        Err(_) => {},
                    }
                }
            },
            _ => {},
        },
        _ => {},
    }
}

pub proof fn lemma_local_statement(a: Seq<LexItemView>, b: Seq<LexItemView>, at: nat)
    requires
        same_prefix(a, b, at + statement(a, at).used + 1),
    ensures
        statement(b, at) == statement(a, at),
    decreases remaining(a, at), 0nat,
{
    let n = at + statement(a, at).used + 1;
    lemma_same_at(a, b, n, at);
    match take(a, at).result {
        Ok(Some((token, span))) => {
            if token.is_word("for"@) {
                lemma_local_for_loop(a, b, at + 1, span);
            } else if token.is_word("if"@) {
                lemma_local_if_cond(a, b, at + 1, span);
            } else if token.is_word("with"@) {
                lemma_local_with_block(a, b, at + 1, span);
            } else if token.is_word("block"@) {
                lemma_local_block(a, b, at + 1, span);
            } else if token.is_word("extends"@) {
                lemma_local_extends(a, b, at + 1, span);
            } else if token.is_word("autoescape"@) {
                lemma_local_auto_escape(a, b, at + 1, span);
            }
        },
        _ => {},
    }
}

proof fn lemma_local_enclosed(
    a: Seq<LexItemView>,
    b: Seq<LexItemView>,
    at: nat,
    term: Terminator,
)
    requires
        same_prefix(a, b, at + enclosed(a, at, term).used + 1),
    ensures
        enclosed(b, at, term) == enclosed(a, at, term),
    decreases remaining(a, at), 0nat,
{
    let n = at + enclosed(a, at, term).used + 1;
    lemma_same_at(a, b, n, at);
    let open = expect(a, at, Expect::BlockEnd);
    if open.result is Ok {
        let inner = body(a, at + 1, term, Seq::empty());
        lemma_local_body(a, b, at + 1, term, Seq::empty());
        if inner.result is Ok {
            lemma_same_at(a, b, n, at + 1 + inner.used);
        }
    }
}

proof fn lemma_local_for_loop(a: Seq<LexItemView>, b: Seq<LexItemView>, at: nat, start: Span)
    requires
        same_prefix(a, b, at + for_loop(a, at, start).used + 1),
    ensures
        for_loop(b, at, start) == for_loop(a, at, start),
    decreases remaining(a, at), 1nat,
{
    let n = at + for_loop(a, at, start).used + 1;
    lemma_same_at(a, b, n, at);
    let target = assign_target(a, at);
    if target.result is Ok {
        lemma_same_at(a, b, n, at + 1);
        let word = expect(a, at + 1, Expect::In);
        if word.result is Ok {
            let iter = expression(a, at + 2);
            lemma_local_expr_at(Level::Or, a, b, at + 2);
            if iter.result is Ok {
                let mid = at + 2 + iter.used;
                let rest = enclosed(a, mid, Terminator::EndFor);
                lemma_local_enclosed(a, b, mid, Terminator::EndFor);
                lemma_same_last(a, b, n, mid + rest.used);
            }
        }
    }
}

proof fn lemma_local_if_cond(a: Seq<LexItemView>, b: Seq<LexItemView>, at: nat, start: Span)
    requires
        same_prefix(a, b, at + if_cond(a, at, start).used + 1),
    ensures
        if_cond(b, at, start) == if_cond(a, at, start),
    decreases remaining(a, at), 1nat,
{
    let n = at + if_cond(a, at, start).used + 1;
    let cond = expression(a, at);
    lemma_local_expr_at(Level::Or, a, b, at);
    match cond.result {
        Ok(expr) => {
            lemma_same_at(a, b, n, at + cond.used);
            let open = expect(a, at + cond.used, Expect::BlockEnd);
            if open.result is Ok {
                let first = at + cond.used + 1;
                let yes = body(a, first, Terminator::Branch, Seq::empty());
                lemma_local_body(a, b, first, Terminator::Branch, Seq::empty());
                match yes.result {
                    Ok(true_body) => {
                        lemma_local_if_rest(a, b, first + yes.used, start, expr, true_body);
                    },
                    Err(_) => {},
                }
            }
        },
        Err(_) => {},
    }
}

proof fn lemma_local_if_rest(
    a: Seq<LexItemView>,
    b: Seq<LexItemView>,
    at: nat,
    start: Span,
    expr: ExprView,
    true_body: Seq<StmtView>,
)
    requires
        same_prefix(a, b, at + if_rest(a, at, start, expr, true_body).used + 1),
    ensures
        if_rest(b, at, start, expr, true_body) == if_rest(a, at, start, expr, true_body),
    decreases remaining(a, at), 0nat,
{
    let n = at + if_rest(a, at, start, expr, true_body).used + 1;
    lemma_same_at(a, b, n, at);
    lemma_same_last(a, b, n, at);
    match take(a, at).result {
        Ok(Some((token, span))) => {
            lemma_same_last(a, b, n, at + 1);
            if token.is_word("else"@) {
                let rest = enclosed(a, at + 1, Terminator::EndIf);
                lemma_local_enclosed(a, b, at + 1, Terminator::EndIf);
                lemma_same_last(a, b, n, at + 1 + rest.used);
            } else if token.is_word("elif"@) {
                let nested = if_cond(a, at + 1, span);
                lemma_local_if_cond(a, b, at + 1, span);
                lemma_same_last(a, b, n, at + 1 + nested.used);
            }
        },
        _ => {},
    }
}

proof fn lemma_local_bindings(
    a: Seq<LexItemView>,
    b: Seq<LexItemView>,
    at: nat,
    acc: Seq<(Seq<char>, ExprView)>,
)
    requires
        same_prefix(a, b, at + bindings(a, at, acc).used + 1),
    ensures
        bindings(b, at, acc) == bindings(a, at, acc),
    decreases remaining(a, at), 0nat,
{
    let n = at + bindings(a, at, acc).used + 1;
    lemma_same_at(a, b, n, at);
    let next = peek(a, at).result;
    if next matches Ok(Some((token, _))) && token is BlockEnd {
    } else if next is Ok {
        let comma = if acc.len() == 0 {
            done(Span::zero(), 0)
        } else {
            expect(a, at, Expect::Separator)
        };
        if comma.result is Ok {
            lemma_same_at(a, b, n, at + comma.used);
            let target = assign_target(a, at + comma.used);
            match target.result {
                Ok(name) => {
                    lemma_same_at(a, b, n, at + comma.used + 1);
                    let sign = expect(a, at + comma.used + 1, Expect::Assign);
                    if sign.result is Ok {
                        let first = at + comma.used + 2;
                        let value = expression(a, first);
                        lemma_local_expr_at(Level::Or, a, b, first);
                        match value.result {
                            Ok(expr) => {
                                lemma_local_bindings(
                                    a,
                                    b,
                                    first + value.used,
                                    acc.push((name, expr)),
                                );
                            },
                            Err(_) => {},
                        }
                    }
                },
                Err(_) => {},
            }
        }
    }
}

proof fn lemma_local_with_block(a: Seq<LexItemView>, b: Seq<LexItemView>, at: nat, start: Span)
    requires
        same_prefix(a, b, at + with_block(a, at, start).used + 1),
    ensures
        with_block(b, at, start) == with_block(a, at, start),
    decreases remaining(a, at), 1nat,
{
    let n = at + with_block(a, at, start).used + 1;
    let list = bindings(a, at, Seq::empty());
    lemma_local_bindings(a, b, at, Seq::empty());
    if list.result is Ok {
        let mid = at + list.used;
        let rest = enclosed(a, mid, Terminator::EndWith);
        lemma_local_enclosed(a, b, mid, Terminator::EndWith);
        lemma_same_last(a, b, n, mid + rest.used);
    }
}

proof fn lemma_local_block(a: Seq<LexItemView>, b: Seq<LexItemView>, at: nat, start: Span)
    requires
        same_prefix(a, b, at + block(a, at, start).used + 1),
    ensures
        block(b, at, start) == block(a, at, start),
    decreases remaining(a, at), 1nat,
{
    let n = at + block(a, at, start).used + 1;
    lemma_same_at(a, b, n, at);
    let name = expect_ident(a, at);
    if name.result is Ok {
        let rest = enclosed(a, at + 1, Terminator::EndBlock);
        lemma_local_enclosed(a, b, at + 1, Terminator::EndBlock);
        if rest.result is Ok {
            let mid = at + 1 + rest.used;
            lemma_same_at(a, b, n, mid);
            lemma_same_last(a, b, n, mid);
            if peek(a, mid).result matches Ok(Some((TokenView::Ident(_), _))) {
                if block(a, at, start).result is Ok {
                    lemma_same_last(a, b, n, mid + 1);
                }
            }
        }
    }
}

proof fn lemma_local_extends(a: Seq<LexItemView>, b: Seq<LexItemView>, at: nat, start: Span)
    requires
        same_prefix(a, b, at + extends(a, at, start).used + 1),
    ensures
        extends(b, at, start) == extends(a, at, start),
    decreases remaining(a, at), 1nat,
{
    let n = at + extends(a, at, start).used + 1;
    let name = expression(a, at);
    lemma_local_expr_at(Level::Or, a, b, at);
    lemma_same_last(a, b, n, at + name.used);
}

proof fn lemma_local_auto_escape(
    a: Seq<LexItemView>,
    b: Seq<LexItemView>,
    at: nat,
    start: Span,
)
    requires
        same_prefix(a, b, at + auto_escape(a, at, start).used + 1),
    ensures
        auto_escape(b, at, start) == auto_escape(a, at, start),
    decreases remaining(a, at), 1nat,
{
    let n = at + auto_escape(a, at, start).used + 1;
    let flag = expression(a, at);
    lemma_local_expr_at(Level::Or, a, b, at);
    if flag.result is Ok {
        let mid = at + flag.used;
        let rest = enclosed(a, mid, Terminator::EndAutoEscape);
        lemma_local_enclosed(a, b, mid, Terminator::EndAutoEscape);
        lemma_same_last(a, b, n, mid + rest.used);
    }
}

} // verus!
