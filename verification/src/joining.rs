//! Token sequences put one behind the other. A production does not know
//! what lies before the place it starts at, so it gives the same wherever
//! the same items follow; and a template that is followed by another one
//! gives its statements first and those of the other behind.

use crate::ast::{ExprView, StmtView};
use crate::grammar::{
    assign_target, auto_escape, bindings, block, body, done, enclosed, entries, expect,
    expect_ident, expr_at, expression, extends, fail, filters, first_span, fold, for_loop,
    if_cond, if_rest, last_span, optional_args, peek, postfix, prefix, primary, remaining,
    sequence, statement, take, then, with_block, Expect, Level, Parsed, Terminator,
};
use crate::locality::{
    item_at, lemma_local_expr_at, lemma_local_statement, lemma_same_at, lemma_same_last,
    same_prefix,
};
use crate::spans::{
    is_token, lemma_body_ends, lemma_enclosed_ends, lemma_entries_ends, lemma_expr_ends,
    lemma_if_cond_ends, lemma_prefix_ends, lemma_primary_ends, lemma_sequence_ends, span_at,
    spans_ordered,
};
use crate::tokens::{LexItemView, Span, TokenView};
use vstd::prelude::*;

verus! {

/// From position `n` on, `j` holds the items of `b`, and ends where `b` ends.
pub open spec fn same_from(j: Seq<LexItemView>, n: nat, b: Seq<LexItemView>) -> bool {
    forall|i: int| 0 <= i ==> item_at(j, n + i) == #[trigger] item_at(b, i)
}

/// Behind `a`, the sequence `a + b` holds the items of `b`.
pub proof fn lemma_join_is_shift(a: Seq<LexItemView>, b: Seq<LexItemView>)
    ensures
        same_from(a + b, a.len(), b),
{
    assert forall|i: int| 0 <= i implies item_at(a + b, a.len() + i) == #[trigger] item_at(
        b,
        i,
    ) by {
        if i < b.len() {
            assert((a + b)[a.len() + i] == b[i]);
        }
    }
}

/// What is read at a place of `b` is read at that place of `j`.
pub proof fn lemma_shift_at(j: Seq<LexItemView>, n: nat, b: Seq<LexItemView>, jat: nat, at: nat)
    requires
        same_from(j, n, b),
        jat == n + at,
    ensures
        peek(j, jat) == peek(b, at),
        take(j, jat) == take(b, at),
        expect_ident(j, jat) == expect_ident(b, at),
        assign_target(j, jat) == assign_target(b, at),
        forall|what: Expect| expect(j, jat, what) == expect(b, at, what),
        is_token(b, at as int) ==> first_span(j, jat) == first_span(b, at),
{
    assert(item_at(j, jat as int) == item_at(b, at as int));
}

/// The token used last before a place of `b` is the one used last before
/// that place of `j`.
pub proof fn lemma_shift_last(j: Seq<LexItemView>, n: nat, b: Seq<LexItemView>, jat: nat, at: nat)
    requires
        same_from(j, n, b),
        jat == n + at,
        at >= 1,
        is_token(b, at - 1),
    ensures
        last_span(j, jat) == last_span(b, at),
{
    assert(item_at(j, jat - 1) == item_at(b, at - 1));
}

pub proof fn lemma_shift_expr_at(
    level: Level,
    j: Seq<LexItemView>,
    n: nat,
    b: Seq<LexItemView>,
    jat: nat,
    at: nat,
)
    requires
        same_from(j, n, b),
        jat == n + at,
        spans_ordered(b),
    ensures
        expr_at(level, j, jat) == expr_at(level, b, at),
    decreases remaining(b, at), 10 + level.height(),
{
    lemma_shift_at(j, n, b, jat, at);
    match level {
        Level::Unary => {
            lemma_prefix_ends(b, at);
            lemma_shift_prefix(j, n, b, jat, at);
            let base = prefix(b, at);
            match base.result {
                Ok(operand) => {
                    lemma_shift_filters(
                        j,
                        n,
                        b,
                        jat + base.used,
                        at + base.used,
                        first_span(b, at),
                        operand,
                    );
                },
                Err(_) => {},
            }
        },
        Level::Not => {
            let next = peek(b, at).result;
            if next matches Ok(Some((token, span))) && token.is_word("not"@) {
                let inner = expr_at(Level::Not, b, at + 1);
                lemma_shift_expr_at(Level::Not, j, n, b, jat + 1, at + 1);
                lemma_expr_ends(Level::Not, b, at + 1);
                if inner.result is Ok {
                    lemma_shift_last(j, n, b, jat + 1 + inner.used, at + 1 + inner.used);
                }
            } else {
                lemma_shift_expr_at(Level::Compare, j, n, b, jat, at);
            }
        },
        _ => {
            let left = expr_at(level.tighter(), b, at);
            lemma_shift_expr_at(level.tighter(), j, n, b, jat, at);
            lemma_expr_ends(level.tighter(), b, at);
            match left.result {
                Ok(operand) => {
                    lemma_shift_fold(
                        level,
                        j,
                        n,
                        b,
                        jat + left.used,
                        at + left.used,
                        first_span(b, at),
                        operand,
                    );
                },
                Err(_) => {},
            }
        },
    }
}

proof fn lemma_shift_fold(
    level: Level,
    j: Seq<LexItemView>,
    n: nat,
    b: Seq<LexItemView>,
    jat: nat,
    at: nat,
    start: Span,
    left: ExprView,
)
    requires
        same_from(j, n, b),
        jat == n + at,
        spans_ordered(b),
    ensures
        fold(level, j, jat, start, left) == fold(level, b, at, start, left),
    decreases remaining(b, at), 3nat,
{
    lemma_shift_at(j, n, b, jat, at);
    let next = peek(b, at).result;
    if next matches Ok(Some((token, _))) && level.operator(token) is Some {
        let right = expr_at(level.tighter(), b, at + 1);
        lemma_shift_expr_at(level.tighter(), j, n, b, jat + 1, at + 1);
        lemma_expr_ends(level.tighter(), b, at + 1);
        match right.result {
            Ok(operand) => {
                let end = at + 1 + right.used;
                let jend = jat + 1 + right.used;
                lemma_shift_last(j, n, b, jend, end);
                let node = ExprView::BinOp {
                    op: level.operator(next->Ok_0->Some_0.0)->Some_0,
                    left: Box::new(left),
                    right: Box::new(operand),
                    span: start.cover(last_span(b, end)),
                };
                lemma_shift_fold(level, j, n, b, jend, end, start, node);
            },
            Err(_) => {},
        }
    }
}

proof fn lemma_shift_prefix(j: Seq<LexItemView>, n: nat, b: Seq<LexItemView>, jat: nat, at: nat)
    requires
        same_from(j, n, b),
        jat == n + at,
        spans_ordered(b),
    ensures
        prefix(j, jat) == prefix(b, at),
    decreases remaining(b, at), 9nat,
{
    lemma_shift_at(j, n, b, jat, at);
    let next = peek(b, at).result;
    if next matches Ok(Some((TokenView::Minus, _))) {
        let inner = prefix(b, at + 1);
        lemma_shift_prefix(j, n, b, jat + 1, at + 1);
        lemma_prefix_ends(b, at + 1);
        if inner.result is Ok {
            lemma_shift_last(j, n, b, jat + 1 + inner.used, at + 1 + inner.used);
        }
    } else {
        let base = primary(b, at);
        lemma_shift_primary(j, n, b, jat, at);
        lemma_primary_ends(b, at);
        match base.result {
            Ok(operand) => {
                lemma_shift_postfix(
                    j,
                    n,
                    b,
                    jat + base.used,
                    at + base.used,
                    first_span(b, at),
                    operand,
                );
            },
            Err(_) => {},
        }
    }
}

proof fn lemma_shift_primary(j: Seq<LexItemView>, n: nat, b: Seq<LexItemView>, jat: nat, at: nat)
    requires
        same_from(j, n, b),
        jat == n + at,
        spans_ordered(b),
    ensures
        primary(j, jat) == primary(b, at),
    decreases remaining(b, at), 8nat,
{
    lemma_shift_at(j, n, b, jat, at);
    match take(b, at).result {
        Ok(Some((token, span))) => match token {
            TokenView::ParenOpen => {
                let inner = expr_at(Level::Or, b, at + 1);
                lemma_shift_expr_at(Level::Or, j, n, b, jat + 1, at + 1);
                if inner.result is Ok {
                    lemma_shift_at(j, n, b, jat + 1 + inner.used, at + 1 + inner.used);
                }
            },
            TokenView::BracketOpen => {
                let list = sequence(b, at + 1, TokenView::BracketClose, Seq::empty());
                lemma_shift_sequence(
                    j,
                    n,
                    b,
                    jat + 1,
                    at + 1,
                    TokenView::BracketClose,
                    Seq::empty(),
                );
                lemma_sequence_ends(b, at + 1, TokenView::BracketClose);
                if list.result is Ok {
                    lemma_shift_last(j, n, b, jat + 1 + list.used, at + 1 + list.used);
                }
            },
            TokenView::BraceOpen => {
                let dict = entries(b, at + 1, Seq::empty(), Seq::empty());
                lemma_shift_entries(j, n, b, jat + 1, at + 1, Seq::empty(), Seq::empty());
                lemma_entries_ends(b, at + 1);
                if dict.result is Ok {
                    lemma_shift_last(j, n, b, jat + 1 + dict.used, at + 1 + dict.used);
                }
            },
            _ => {},
        },
        _ => {},
    }
}

proof fn lemma_shift_sequence(
    j: Seq<LexItemView>,
    n: nat,
    b: Seq<LexItemView>,
    jat: nat,
    at: nat,
    closer: TokenView,
    acc: Seq<ExprView>,
)
    requires
        same_from(j, n, b),
        jat == n + at,
        spans_ordered(b),
    ensures
        sequence(j, jat, closer, acc) == sequence(b, at, closer, acc),
    decreases remaining(b, at), (if acc.len() == 0 {
        21nat
    } else {
        20nat
    }),
{
    lemma_shift_at(j, n, b, jat, at);
    let next = peek(b, at).result;
    if next matches Ok(Some((token, _))) && token == closer {
    } else if next is Ok {
        let comma = if acc.len() == 0 {
            done(Span::zero(), 0)
        } else {
            expect(b, at, Expect::Comma)
        };
        if comma.result is Ok {
            let start = at + comma.used;
            let jstart = jat + comma.used;
            let item = expr_at(Level::Or, b, start);
            lemma_shift_expr_at(Level::Or, j, n, b, jstart, start);
            match item.result {
                Ok(e) => {
                    lemma_shift_sequence(
                        j,
                        n,
                        b,
                        jstart + item.used,
                        start + item.used,
                        closer,
                        acc.push(e),
                    );
                },
                Err(_) => {},
            }
        }
    }
}

proof fn lemma_shift_entries(
    j: Seq<LexItemView>,
    n: nat,
    b: Seq<LexItemView>,
    jat: nat,
    at: nat,
    keys: Seq<ExprView>,
    values: Seq<ExprView>,
)
    requires
        same_from(j, n, b),
        jat == n + at,
        spans_ordered(b),
    ensures
        entries(j, jat, keys, values) == entries(b, at, keys, values),
    decreases remaining(b, at), 21nat,
{
    lemma_shift_at(j, n, b, jat, at);
    let next = peek(b, at).result;
    if next matches Ok(Some((TokenView::BraceClose, _))) {
    } else if next is Ok {
        let comma = if keys.len() == 0 {
            done(Span::zero(), 0)
        } else {
            expect(b, at, Expect::Comma)
        };
        if comma.result is Ok {
            let start = at + comma.used;
            let jstart = jat + comma.used;
            let key = expr_at(Level::Or, b, start);
            lemma_shift_expr_at(Level::Or, j, n, b, jstart, start);
            match key.result {
                Ok(k) => {
                    lemma_shift_at(j, n, b, jstart + key.used, start + key.used);
                    let colon = expect(b, start + key.used, Expect::Colon);
                    if colon.result is Ok {
                        let second = start + key.used + 1;
                        let jsecond = jstart + key.used + 1;
                        let value = expr_at(Level::Or, b, second);
                        lemma_shift_expr_at(Level::Or, j, n, b, jsecond, second);
                        match value.result {
                            Ok(v) => {
                                lemma_shift_entries(
                                    j,
                                    n,
                                    b,
                                    jsecond + value.used,
                                    second + value.used,
                                    keys.push(k),
                                    values.push(v),
                                );
                            },
                            Err(_) => {},
                        }
                    }
                },
                Err(_) => {},
            }
        }
    }
}

proof fn lemma_shift_postfix(
    j: Seq<LexItemView>,
    n: nat,
    b: Seq<LexItemView>,
    jat: nat,
    at: nat,
    start: Span,
    subject: ExprView,
)
    requires
        same_from(j, n, b),
        jat == n + at,
        spans_ordered(b),
    ensures
        postfix(j, jat, start, subject) == postfix(b, at, start, subject),
    decreases remaining(b, at), 7nat,
{
    lemma_shift_at(j, n, b, jat, at);
    match peek(b, at).result {
        Ok(Some((TokenView::Dot, _))) => {
            lemma_shift_at(j, n, b, jat + 1, at + 1);
            let name = expect_ident(b, at + 1);
            match name.result {
                Ok(attr) => {
                    lemma_shift_last(j, n, b, jat + 2, at + 2);
                    let node = ExprView::GetAttr {
                        name: attr,
                        expr: Box::new(subject),
                        span: start.cover(last_span(b, at + 2)),
                    };
                    lemma_shift_postfix(j, n, b, jat + 2, at + 2, start, node);
                },
                Err(_) => {},
            }
        },
        Ok(Some((TokenView::BracketOpen, _))) => {
            let index = expr_at(Level::Or, b, at + 1);
            lemma_shift_expr_at(Level::Or, j, n, b, jat + 1, at + 1);
            match index.result {
                Ok(subscript) => {
                    lemma_shift_at(j, n, b, jat + 1 + index.used, at + 1 + index.used);
                    let close = expect(b, at + 1 + index.used, Expect::BracketClose);
                    if close.result is Ok {
                        let end = at + 1 + index.used + 1;
                        let jend = jat + 1 + index.used + 1;
                        lemma_shift_last(j, n, b, jend, end);
                        let node = ExprView::GetItem {
                            expr: Box::new(subject),
                            subscript_expr: Box::new(subscript),
                            span: start.cover(last_span(b, end)),
                        };
                        lemma_shift_postfix(j, n, b, jend, end, start, node);
                    }
                },
                Err(_) => {},
            }
        },
        Ok(Some((TokenView::ParenOpen, _))) => {
            let list = sequence(b, at + 1, TokenView::ParenClose, Seq::empty());
            lemma_shift_sequence(j, n, b, jat + 1, at + 1, TokenView::ParenClose, Seq::empty());
            lemma_sequence_ends(b, at + 1, TokenView::ParenClose);
            match list.result {
                Ok(arguments) => {
                    let end = at + 1 + list.used;
                    let jend = jat + 1 + list.used;
                    lemma_shift_last(j, n, b, jend, end);
                    let node = ExprView::Call {
                        expr: Box::new(subject),
                        args: arguments,
                        span: start.cover(last_span(b, end)),
                    };
                    lemma_shift_postfix(j, n, b, jend, end, start, node);
                },
                Err(_) => {},
            }
        },
        _ => {},
    }
}

proof fn lemma_shift_optional_args(
    j: Seq<LexItemView>,
    n: nat,
    b: Seq<LexItemView>,
    jat: nat,
    at: nat,
)
    requires
        same_from(j, n, b),
        jat == n + at,
        spans_ordered(b),
    ensures
        optional_args(j, jat) == optional_args(b, at),
    decreases remaining(b, at), 22nat,
{
    lemma_shift_at(j, n, b, jat, at);
    if peek(b, at).result matches Ok(Some((TokenView::ParenOpen, _))) {
        lemma_shift_sequence(j, n, b, jat + 1, at + 1, TokenView::ParenClose, Seq::empty());
    }
}

proof fn lemma_shift_filters(
    j: Seq<LexItemView>,
    n: nat,
    b: Seq<LexItemView>,
    jat: nat,
    at: nat,
    start: Span,
    subject: ExprView,
)
    requires
        same_from(j, n, b),
        jat == n + at,
        spans_ordered(b),
    ensures
        filters(j, jat, start, subject) == filters(b, at, start, subject),
    decreases remaining(b, at), 6nat,
{
    lemma_shift_at(j, n, b, jat, at);
    let next = peek(b, at).result;
    if next matches Ok(Some((token, _))) && (token == TokenView::Pipe || token.is_word("is"@)) {
        let token = next->Ok_0->Some_0.0;
        lemma_shift_at(j, n, b, jat + 1, at + 1);
        let name = expect_ident(b, at + 1);
        match name.result {
            Ok(word) => {
                let arguments = optional_args(b, at + 2);
                lemma_shift_optional_args(j, n, b, jat + 2, at + 2);
                if peek(b, at + 2).result matches Ok(Some((TokenView::ParenOpen, _))) {
                    lemma_sequence_ends(b, at + 3, TokenView::ParenClose);
                }
                match arguments.result {
                    Ok(list) => {
                        let end = at + 2 + arguments.used;
                        let jend = jat + 2 + arguments.used;
                        lemma_shift_last(j, n, b, jend, end);
                        let span = start.cover(last_span(b, end));
                        let node = if token == TokenView::Pipe {
                            ExprView::Filter {
                                name: word,
                                expr: Box::new(subject),
                                args: list,
                                span,
                            }
                        } else {
                            ExprView::Test { name: word, expr: Box::new(subject), args: list, span }
                        };
                        lemma_shift_filters(j, n, b, jend, end, start, node);
                    },
                    Err(_) => {},
                }
            },
            Err(_) => {},
        }
    }
}

#[verifier::rlimit(30)]
pub proof fn lemma_shift_body(
    j: Seq<LexItemView>,
    n: nat,
    b: Seq<LexItemView>,
    jat: nat,
    at: nat,
    term: Terminator,
    acc: Seq<StmtView>,
)
    requires
        same_from(j, n, b),
        jat == n + at,
        spans_ordered(b),
    ensures
        body(j, jat, term, acc) == body(b, at, term, acc),
    decreases remaining(b, at), 0nat,
{
    lemma_shift_at(j, n, b, jat, at);
    match take(b, at).result {
        Ok(Some((token, span))) => match token {
            TokenView::TemplateData(raw) => {
                lemma_shift_body(
                    j,
                    n,
                    b,
                    jat + 1,
                    at + 1,
                    term,
                    acc.push(StmtView::EmitRaw { raw, span }),
                );
            },
            TokenView::VariableStart(_) => {
                let inner = expression(b, at + 1);
                lemma_shift_expr_at(Level::Or, j, n, b, jat + 1, at + 1);
                match inner.result {
                    Ok(expr) => {
                        let mid = at + 1 + inner.used;
                        let jmid = jat + 1 + inner.used;
                        lemma_shift_at(j, n, b, jmid, mid);
                        let close = expect(b, mid, Expect::VariableEnd);
                        if close.result is Ok {
                            lemma_shift_last(j, n, b, jmid + 1, mid + 1);
                            lemma_shift_body(
                                j,
                                n,
                                b,
                                jmid + 1,
                                mid + 1,
                                term,
                                acc.push(
                                    StmtView::EmitExpr {
                                        expr,
                                        span: span.cover(last_span(b, mid + 1)),
                                    },
                                ),
                            );
                        }
                    },
                    Err(_) => {},
                }
            },
            TokenView::BlockStart(_) => {
                lemma_shift_at(j, n, b, jat + 1, at + 1);
                let next = peek(b, at + 1).result;
                if next matches Ok(Some((keyword, _))) && !term.ends(keyword) {
                    let inner = statement(b, at + 1);
                    lemma_shift_statement(j, n, b, jat + 1, at + 1);
                    match inner.result {
                        Ok(node) => {
                            let mid = at + 1 + inner.used;
                            let jmid = jat + 1 + inner.used;
                            lemma_shift_at(j, n, b, jmid, mid);
                            let close = expect(b, mid, Expect::BlockEnd);
                            if close.result is Ok {
                                lemma_shift_body(j, n, b, jmid + 1, mid + 1, term, acc.push(node));
                            }
                        },
                        Err(_) => {},
                    }
                }
            },
            _ => {},
        },
        _ => {},
    }
}

proof fn lemma_shift_statement(j: Seq<LexItemView>, n: nat, b: Seq<LexItemView>, jat: nat, at: nat)
    requires
        same_from(j, n, b),
        jat == n + at,
        spans_ordered(b),
    ensures
        statement(j, jat) == statement(b, at),
    decreases remaining(b, at), 0nat,
{
    lemma_shift_at(j, n, b, jat, at);
    match take(b, at).result {
        Ok(Some((token, span))) => {
            if token.is_word("for"@) {
                lemma_shift_for_loop(j, n, b, jat + 1, at + 1, span);
            } else if token.is_word("if"@) {
                lemma_shift_if_cond(j, n, b, jat + 1, at + 1, at);
            } else if token.is_word("with"@) {
                lemma_shift_with_block(j, n, b, jat + 1, at + 1, span);
            } else if token.is_word("block"@) {
                lemma_shift_block(j, n, b, jat + 1, at + 1, span);
            } else if token.is_word("extends"@) {
                lemma_shift_extends(j, n, b, jat + 1, at + 1, span);
            } else if token.is_word("autoescape"@) {
                lemma_shift_auto_escape(j, n, b, jat + 1, at + 1, span);
            }
        },
        _ => {},
    }
}

proof fn lemma_shift_enclosed(
    j: Seq<LexItemView>,
    n: nat,
    b: Seq<LexItemView>,
    jat: nat,
    at: nat,
    term: Terminator,
)
    requires
        same_from(j, n, b),
        jat == n + at,
        spans_ordered(b),
    ensures
        enclosed(j, jat, term) == enclosed(b, at, term),
    decreases remaining(b, at), 0nat,
{
    lemma_shift_at(j, n, b, jat, at);
    let open = expect(b, at, Expect::BlockEnd);
    if open.result is Ok {
        let inner = body(b, at + 1, term, Seq::empty());
        lemma_shift_body(j, n, b, jat + 1, at + 1, term, Seq::empty());
        if inner.result is Ok {
            lemma_shift_at(j, n, b, jat + 1 + inner.used, at + 1 + inner.used);
        }
    }
}

proof fn lemma_shift_for_loop(
    j: Seq<LexItemView>,
    n: nat,
    b: Seq<LexItemView>,
    jat: nat,
    at: nat,
    start: Span,
)
    requires
        same_from(j, n, b),
        jat == n + at,
        spans_ordered(b),
    ensures
        for_loop(j, jat, start) == for_loop(b, at, start),
    decreases remaining(b, at), 1nat,
{
    lemma_shift_at(j, n, b, jat, at);
    let target = assign_target(b, at);
    if target.result is Ok {
        lemma_shift_at(j, n, b, jat + 1, at + 1);
        let word = expect(b, at + 1, Expect::In);
        if word.result is Ok {
            let iter = expression(b, at + 2);
            lemma_shift_expr_at(Level::Or, j, n, b, jat + 2, at + 2);
            if iter.result is Ok {
                let mid = at + 2 + iter.used;
                let jmid = jat + 2 + iter.used;
                let rest = enclosed(b, mid, Terminator::EndFor);
                lemma_shift_enclosed(j, n, b, jmid, mid, Terminator::EndFor);
                lemma_enclosed_ends(b, mid, Terminator::EndFor);
                if rest.result is Ok {
                    lemma_shift_last(j, n, b, jmid + rest.used, mid + rest.used);
                }
            }
        }
    }
}

/// The statement opened by the keyword at `from`, which is `if` or `elif`.
proof fn lemma_shift_if_cond(
    j: Seq<LexItemView>,
    n: nat,
    b: Seq<LexItemView>,
    jat: nat,
    at: nat,
    from: nat,
)
    requires
        same_from(j, n, b),
        jat == n + at,
        spans_ordered(b),
        is_token(b, from as int),
        at == from + 1,
    ensures
        if_cond(j, jat, span_at(b, from as int)) == if_cond(
            b,
            at,
            span_at(b, from as int),
        ),
    decreases remaining(b, at), 1nat,
{
    let start = span_at(b, from as int);
    let cond = expression(b, at);
    lemma_shift_expr_at(Level::Or, j, n, b, jat, at);
    match cond.result {
        Ok(expr) => {
            lemma_shift_at(j, n, b, jat + cond.used, at + cond.used);
            let open = expect(b, at + cond.used, Expect::BlockEnd);
            if open.result is Ok {
                let first = at + cond.used + 1;
                let jfirst = jat + cond.used + 1;
                let yes = body(b, first, Terminator::Branch, Seq::empty());
                lemma_shift_body(j, n, b, jfirst, first, Terminator::Branch, Seq::empty());
                lemma_body_ends(b, first, Terminator::Branch);
                match yes.result {
                    Ok(true_body) => {
                        lemma_shift_if_rest(
                            j,
                            n,
                            b,
                            jfirst + yes.used,
                            first + yes.used,
                            from,
                            expr,
                            true_body,
                        );
                    },
                    Err(_) => {},
                }
            }
        },
        Err(_) => {},
    }
}

proof fn lemma_shift_if_rest(
    j: Seq<LexItemView>,
    n: nat,
    b: Seq<LexItemView>,
    jat: nat,
    at: nat,
    from: nat,
    expr: ExprView,
    true_body: Seq<StmtView>,
)
    requires
        same_from(j, n, b),
        jat == n + at,
        spans_ordered(b),
        is_token(b, from as int),
        from < at,
        is_token(b, at - 1),
    ensures
        if_rest(j, jat, span_at(b, from as int), expr, true_body) == if_rest(
            b,
            at,
            span_at(b, from as int),
            expr,
            true_body,
        ),
    decreases remaining(b, at), 0nat,
{
    lemma_shift_at(j, n, b, jat, at);
    lemma_shift_last(j, n, b, jat, at);
    match take(b, at).result {
        Ok(Some((token, span))) => {
            lemma_shift_last(j, n, b, jat + 1, at + 1);
            if token.is_word("else"@) {
                let rest = enclosed(b, at + 1, Terminator::EndIf);
                lemma_shift_enclosed(j, n, b, jat + 1, at + 1, Terminator::EndIf);
                lemma_enclosed_ends(b, at + 1, Terminator::EndIf);
                if rest.result is Ok {
                    lemma_shift_last(j, n, b, jat + 1 + rest.used, at + 1 + rest.used);
                }
            } else if token.is_word("elif"@) {
                let nested = if_cond(b, at + 1, span);
                lemma_shift_if_cond(j, n, b, jat + 1, at + 1, at);
                lemma_if_cond_ends(b, at, at + 1);
                if nested.result is Ok {
                    lemma_shift_last(j, n, b, jat + 1 + nested.used, at + 1 + nested.used);
                }
            }
        },
        _ => {},
    }
}

proof fn lemma_shift_bindings(
    j: Seq<LexItemView>,
    n: nat,
    b: Seq<LexItemView>,
    jat: nat,
    at: nat,
    acc: Seq<(Seq<char>, ExprView)>,
)
    requires
        same_from(j, n, b),
        jat == n + at,
        spans_ordered(b),
    ensures
        bindings(j, jat, acc) == bindings(b, at, acc),
    decreases remaining(b, at), 0nat,
{
    lemma_shift_at(j, n, b, jat, at);
    let next = peek(b, at).result;
    if next matches Ok(Some((token, _))) && token is BlockEnd {
    } else if next is Ok {
        let comma = if acc.len() == 0 {
            done(Span::zero(), 0)
        } else {
            expect(b, at, Expect::Separator)
        };
        if comma.result is Ok {
            lemma_shift_at(j, n, b, jat + comma.used, at + comma.used);
            let target = assign_target(b, at + comma.used);
            match target.result {
                Ok(name) => {
                    lemma_shift_at(j, n, b, jat + comma.used + 1, at + comma.used + 1);
                    let sign = expect(b, at + comma.used + 1, Expect::Assign);
                    if sign.result is Ok {
                        let first = at + comma.used + 2;
                        let jfirst = jat + comma.used + 2;
                        let value = expression(b, first);
                        lemma_shift_expr_at(Level::Or, j, n, b, jfirst, first);
                        match value.result {
                            Ok(expr) => {
                                lemma_shift_bindings(
                                    j,
                                    n,
                                    b,
                                    jfirst + value.used,
                                    first + value.used,
                                    acc.push((name, expr)),
                                );
                            },
                            Err(_) => {},
                        }
                    }
                },
                Err(_) => {},
            }
        }
    }
}

proof fn lemma_shift_with_block(
    j: Seq<LexItemView>,
    n: nat,
    b: Seq<LexItemView>,
    jat: nat,
    at: nat,
    start: Span,
)
    requires
        same_from(j, n, b),
        jat == n + at,
        spans_ordered(b),
    ensures
        with_block(j, jat, start) == with_block(b, at, start),
    decreases remaining(b, at), 1nat,
{
    let list = bindings(b, at, Seq::empty());
    lemma_shift_bindings(j, n, b, jat, at, Seq::empty());
    if list.result is Ok {
        let mid = at + list.used;
        let jmid = jat + list.used;
        let rest = enclosed(b, mid, Terminator::EndWith);
        lemma_shift_enclosed(j, n, b, jmid, mid, Terminator::EndWith);
        lemma_enclosed_ends(b, mid, Terminator::EndWith);
        if rest.result is Ok {
            lemma_shift_last(j, n, b, jmid + rest.used, mid + rest.used);
        }
    }
}

proof fn lemma_shift_block(
    j: Seq<LexItemView>,
    n: nat,
    b: Seq<LexItemView>,
    jat: nat,
    at: nat,
    start: Span,
)
    requires
        same_from(j, n, b),
        jat == n + at,
        spans_ordered(b),
    ensures
        block(j, jat, start) == block(b, at, start),
    decreases remaining(b, at), 1nat,
{
    lemma_shift_at(j, n, b, jat, at);
    let name = expect_ident(b, at);
    if name.result is Ok {
        let rest = enclosed(b, at + 1, Terminator::EndBlock);
        lemma_shift_enclosed(j, n, b, jat + 1, at + 1, Terminator::EndBlock);
        lemma_enclosed_ends(b, at + 1, Terminator::EndBlock);
        if rest.result is Ok {
            let mid = at + 1 + rest.used;
            let jmid = jat + 1 + rest.used;
            lemma_shift_at(j, n, b, jmid, mid);
            lemma_shift_last(j, n, b, jmid, mid);
            if peek(b, mid).result matches Ok(Some((TokenView::Ident(_), _))) {
                lemma_shift_last(j, n, b, jmid + 1, mid + 1);
            }
        }
    }
}

proof fn lemma_shift_extends(
    j: Seq<LexItemView>,
    n: nat,
    b: Seq<LexItemView>,
    jat: nat,
    at: nat,
    start: Span,
)
    requires
        same_from(j, n, b),
        jat == n + at,
        spans_ordered(b),
    ensures
        extends(j, jat, start) == extends(b, at, start),
    decreases remaining(b, at), 1nat,
{
    let name = expression(b, at);
    lemma_shift_expr_at(Level::Or, j, n, b, jat, at);
    lemma_expr_ends(Level::Or, b, at);
    if name.result is Ok {
        lemma_shift_last(j, n, b, jat + name.used, at + name.used);
    }
}

proof fn lemma_shift_auto_escape(
    j: Seq<LexItemView>,
    n: nat,
    b: Seq<LexItemView>,
    jat: nat,
    at: nat,
    start: Span,
)
    requires
        same_from(j, n, b),
        jat == n + at,
        spans_ordered(b),
    ensures
        auto_escape(j, jat, start) == auto_escape(b, at, start),
    decreases remaining(b, at), 1nat,
{
    let flag = expression(b, at);
    lemma_shift_expr_at(Level::Or, j, n, b, jat, at);
    if flag.result is Ok {
        let mid = at + flag.used;
        let jmid = jat + flag.used;
        let rest = enclosed(b, mid, Terminator::EndAutoEscape);
        lemma_shift_enclosed(j, n, b, jmid, mid, Terminator::EndAutoEscape);
        lemma_enclosed_ends(b, mid, Terminator::EndAutoEscape);
        if rest.result is Ok {
            lemma_shift_last(j, n, b, jmid + rest.used, mid + rest.used);
        }
    }
}

/// The outcome `p` of a body, with the statements `acc` put before those
/// it gave.
pub open spec fn behind(acc: Seq<StmtView>, p: Parsed<Seq<StmtView>>) -> Parsed<Seq<StmtView>> {
    match p.result {
        Ok(list) => done(acc + list, p.used),
        Err(e) => fail(e, p.used),
    }
}

/// The statements that a body was handed stand before those it reads: a
/// body that starts with `acc` gives `acc` and then what it gives when it
/// starts with nothing, uses as many items, and fails alike.
#[verifier::rlimit(30)]
pub proof fn lemma_body_acc(
    items: Seq<LexItemView>,
    at: nat,
    term: Terminator,
    acc: Seq<StmtView>,
)
    ensures
        body(items, at, term, acc) == behind(acc, body(items, at, term, Seq::empty())),
    decreases remaining(items, at), 1nat,
{
    match take(items, at).result {
        Ok(None) => {
            assert(acc + Seq::<StmtView>::empty() =~= acc);
        },
        Ok(Some((token, span))) => match token {
            TokenView::TemplateData(raw) => {
                lemma_acc_step(items, at, at + 1, term, acc, StmtView::EmitRaw { raw, span });
            },
            TokenView::VariableStart(_) => {
                let inner = expression(items, at + 1);
                match inner.result {
                    Ok(expr) => {
                        let mid = at + 1 + inner.used;
                        let close = expect(items, mid, Expect::VariableEnd);
                        if close.result is Ok {
                            lemma_acc_step(
                                items,
                                at,
                                mid + 1,
                                term,
                                acc,
                                StmtView::EmitExpr {
                                    expr,
                                    span: span.cover(last_span(items, mid + 1)),
                                },
                            );
                        }
                    },
                    Err(_) => {},
                }
            },
            TokenView::BlockStart(_) => {
                let next = peek(items, at + 1).result;
                if next matches Ok(Some((keyword, _))) {
                    if term.ends(next->Ok_0->Some_0.0) {
                        assert(acc + Seq::<StmtView>::empty() =~= acc);
                    } else {
                        let inner = statement(items, at + 1);
                        match inner.result {
                            Ok(node) => {
                                let mid = at + 1 + inner.used;
                                let close = expect(items, mid, Expect::BlockEnd);
                                if close.result is Ok {
                                    lemma_acc_step(items, at, mid + 1, term, acc, node);
                                }
                            },
                            Err(_) => {},
                        }
                    }
                }
            },
            _ => {},
        },
        Err(_) => {},
    }
}

/// The rest of a body from `next` on, behind one more statement `node`.
proof fn lemma_acc_step(
    items: Seq<LexItemView>,
    at: nat,
    next: nat,
    term: Terminator,
    acc: Seq<StmtView>,
    node: StmtView,
)
    requires
        at < next,
        at < items.len(),
    ensures
        body(items, next, term, acc.push(node)) == behind(
            acc,
            body(items, next, term, Seq::empty().push(node)),
        ),
    decreases remaining(items, at), 0nat,
{
    let single = Seq::<StmtView>::empty().push(node);
    lemma_body_acc(items, next, term, acc.push(node));
    lemma_body_acc(items, next, term, single);
    match body(items, next, term, Seq::empty()).result {
        Ok(rest) => {
            assert(acc.push(node) + rest =~= acc + (single + rest));
        },
        Err(_) => {},
    }
}

/// Every item of `a` stands at its place in `a + b`.
pub proof fn lemma_prefix_of_join(a: Seq<LexItemView>, b: Seq<LexItemView>)
    ensures
        same_prefix(a, a + b, a.len()),
        forall|i: int| 0 <= i < a.len() ==> (a + b)[i] == a[i],
{
    assert forall|i: int| 0 <= i < a.len() implies #[trigger] item_at(a, i) == item_at(a + b, i) by {
        assert((a + b)[i] == a[i]);
    }
}

/// A body that reads `a` to its end reads the same of `a + b`, and then
/// goes on behind it with what it has.
pub open spec fn joins(
    a: Seq<LexItemView>,
    b: Seq<LexItemView>,
    at: nat,
    acc: Seq<StmtView>,
) -> bool {
    body(a + b, at, Terminator::Never, acc) == then(
        body(a, at, Terminator::Never, acc).used,
        body(
            a + b,
            at + body(a, at, Terminator::Never, acc).used,
            Terminator::Never,
            body(a, at, Terminator::Never, acc).result->Ok_0,
        ),
    )
}

/// A body that reads `a` to its end reads the same of `a + b`, and then
/// goes on behind it with what it has.
pub proof fn lemma_body_join(
    a: Seq<LexItemView>,
    b: Seq<LexItemView>,
    at: nat,
    acc: Seq<StmtView>,
)
    requires
        body(a, at, Terminator::Never, acc).result is Ok,
    ensures
        joins(a, b, at, acc),
    decreases remaining(a, at), 1nat,
{
    match take(a, at).result {
        Ok(Some((token, span))) => {
            match token {
                TokenView::TemplateData(raw) => {
                    lemma_join_raw(a, b, at, acc);
                },
                TokenView::VariableStart(_) => {
                    lemma_join_print(a, b, at, acc);
                },
                TokenView::BlockStart(_) => {
                    lemma_join_tag(a, b, at, acc);
                },
                _ => {},
            }
        },
        Ok(None) => {
            assert(at >= a.len());
            assert(body(a, at, Terminator::Never, acc) == done(acc, 0));
        },
        Err(_) => {},
    }
}

/// The step of `lemma_body_join` at a run of raw text.
proof fn lemma_join_raw(a: Seq<LexItemView>, b: Seq<LexItemView>, at: nat, acc: Seq<StmtView>)
    requires
        body(a, at, Terminator::Never, acc).result is Ok,
        take(a, at).result matches Ok(Some((token, _))) && token is TemplateData,
    ensures
        joins(a, b, at, acc),
    decreases remaining(a, at), 0nat,
{
    lemma_prefix_of_join(a, b);
    lemma_same_at(a, a + b, a.len(), at);
    let found = take(a, at).result->Ok_0->Some_0;
    let node = StmtView::EmitRaw { raw: found.0->TemplateData_0, span: found.1 };
    assert(body(a, at, Terminator::Never, acc) == then(
        1,
        body(a, at + 1, Terminator::Never, acc.push(node)),
    ));
    lemma_body_join(a, b, at + 1, acc.push(node));
}

/// The step of `lemma_body_join` at a printed expression.
#[verifier::rlimit(30)]
proof fn lemma_join_print(a: Seq<LexItemView>, b: Seq<LexItemView>, at: nat, acc: Seq<StmtView>)
    requires
        body(a, at, Terminator::Never, acc).result is Ok,
        take(a, at).result matches Ok(Some((token, _))) && token is VariableStart,
    ensures
        joins(a, b, at, acc),
    decreases remaining(a, at), 0nat,
{
    let n = a.len();
    lemma_prefix_of_join(a, b);
    lemma_same_at(a, a + b, n, at);
    let span = take(a, at).result->Ok_0->Some_0.1;
    let inner = expression(a, at + 1);
    let mid = at + 1 + inner.used;
    let close = expect(a, mid, Expect::VariableEnd);
    assert(inner.result is Ok && close.result is Ok);
    assert(mid < n);
    lemma_local_expr_at(Level::Or, a, a + b, at + 1);
    lemma_same_at(a, a + b, n, mid);
    lemma_same_last(a, a + b, n, mid + 1);
    let node = StmtView::EmitExpr {
        expr: inner.result->Ok_0,
        span: span.cover(last_span(a, mid + 1)),
    };
    assert(body(a, at, Terminator::Never, acc) == then(
        1 + inner.used + 1,
        body(a, mid + 1, Terminator::Never, acc.push(node)),
    ));
    lemma_body_join(a, b, mid + 1, acc.push(node));
}

/// The step of `lemma_body_join` at a statement in a tag.
#[verifier::rlimit(30)]
proof fn lemma_join_tag(a: Seq<LexItemView>, b: Seq<LexItemView>, at: nat, acc: Seq<StmtView>)
    requires
        body(a, at, Terminator::Never, acc).result is Ok,
        take(a, at).result matches Ok(Some((token, _))) && token is BlockStart,
    ensures
        joins(a, b, at, acc),
    decreases remaining(a, at), 0nat,
{
    let n = a.len();
    lemma_prefix_of_join(a, b);
    lemma_same_at(a, a + b, n, at);
    let next = peek(a, at + 1).result;
    assert(next matches Ok(Some(_)));
    lemma_same_at(a, a + b, n, at + 1);
    let inner = statement(a, at + 1);
    let mid = at + 1 + inner.used;
    let close = expect(a, mid, Expect::BlockEnd);
    assert(inner.result is Ok && close.result is Ok);
    assert(mid < n);
    lemma_local_statement(a, a + b, at + 1);
    lemma_same_at(a, a + b, n, mid);
    let node = inner.result->Ok_0;
    assert(body(a, at, Terminator::Never, acc) == then(
        1 + inner.used + 1,
        body(a, mid + 1, Terminator::Never, acc.push(node)),
    ));
    lemma_body_join(a, b, mid + 1, acc.push(node));
}

} // verus!
