//! How the spans of a syntax tree lie among the spans of the tokens it was
//! read from: every node stays within the tokens of its production, and so
//! within its parent.

use crate::ast::{ExprView, StmtView};
use crate::error::ErrorView;
use crate::grammar::{
    assign_target, auto_escape, bindings, block, body, done, enclosed, entries, expect, expect_ident,
    expr_at, expression, extends, filters, first_span, fold, for_loop, if_cond, if_rest,
    last_span, optional_args, peek, postfix, prefix, primary, remaining, sequence, statement,
    take, template, with_block, Expect, Level, Terminator,
};
use crate::lexer::{lemma_step_progress, step, tokens_from, LexState, Step};
use crate::tokens::{loc_le, LexItemView, Span, TokenView};
use vstd::prelude::*;

verus! {

/// Position `i` of `items` holds a token.
pub open spec fn is_token(items: Seq<LexItemView>, i: int) -> bool {
    0 <= i < items.len() && items[i] is Ok
}

/// The span of the token at position `i`.
pub open spec fn span_at(items: Seq<LexItemView>, i: int) -> Span {
    items[i]->Ok_0.1
}

/// Every token has a well-formed span, and ends before the next one starts.
#[verifier::opaque]
pub open spec fn spans_ordered(items: Seq<LexItemView>) -> bool {
    &&& forall|i: int| is_token(items, i) ==> (#[trigger] span_at(items, i)).well_formed()
    &&& forall|i: int, j: int|
        #![trigger span_at(items, i), span_at(items, j)]
        is_token(items, i) && is_token(items, j) && i < j ==> span_at(items, i).precedes(
            span_at(items, j),
        )
}

/// `span` is well formed and lies within the tokens from position `from`
/// up to, and without, position `to`.
pub open spec fn bounded(items: Seq<LexItemView>, from: nat, to: nat, span: Span) -> bool {
    &&& from < to <= items.len()
    &&& is_token(items, from as int)
    &&& is_token(items, to - 1)
    &&& span.well_formed()
    &&& span_at(items, from as int).cover(span_at(items, to - 1)).contains(span)
}

/// The spans of `e` nest, and `e` lies within the tokens from `from` to `to`.
pub open spec fn expr_fits(items: Seq<LexItemView>, from: nat, to: nat, e: ExprView) -> bool {
    e.spans_nested() && bounded(items, from, to, e.span())
}

/// Every expression of `list` fits the tokens from `from` to `to`.
/// `e` fits the tokens from `from` to `to`, and its own span runs from the
/// start of the first of them to the end of the last, unless these two are
/// the parentheses around it, which leave no node and no mark on the span.
pub open spec fn expr_spans(items: Seq<LexItemView>, from: nat, to: nat, e: ExprView) -> bool {
    &&& expr_fits(items, from, to, e)
    &&& {
        ||| e.span() == span_at(items, from as int).cover(span_at(items, to - 1))
        ||| {
            &&& items[from as int] matches Ok((open, _)) && open == TokenView::ParenOpen
            &&& items[to - 1] matches Ok((close, _)) && close == TokenView::ParenClose
        }
    }
}

/// Every expression of `list` fits the tokens from `from` to `to`.
pub open spec fn exprs_fit(items: Seq<LexItemView>, from: nat, to: nat, list: Seq<ExprView>) -> bool {
    forall|i: int| 0 <= i < list.len() ==> expr_fits(items, from, to, #[trigger] list[i])
}

/// The spans of `s` nest, and `s` lies within the tokens from `from` to `to`.
pub open spec fn stmt_fits(items: Seq<LexItemView>, from: nat, to: nat, s: StmtView) -> bool {
    s.spans_nested() && bounded(items, from, to, s.span())
}

/// Every statement of `list` fits the tokens from `from` to `to`.
pub open spec fn stmts_fit(items: Seq<LexItemView>, from: nat, to: nat, list: Seq<StmtView>) -> bool {
    forall|i: int| 0 <= i < list.len() ==> stmt_fits(items, from, to, #[trigger] list[i])
}

/// The value of every binding of `list` fits the tokens from `from` to `to`.
pub open spec fn bindings_fit(
    items: Seq<LexItemView>,
    from: nat,
    to: nat,
    list: Seq<(Seq<char>, ExprView)>,
) -> bool {
    forall|i: int| 0 <= i < list.len() ==> expr_fits(items, from, to, (#[trigger] list[i]).1)
}

/// `s` fits the tokens from `from` to `to`, and its own span runs from the
/// start of the first of them to the end of the last.
pub open spec fn stmt_spans(items: Seq<LexItemView>, from: nat, to: nat, s: StmtView) -> bool {
    stmt_fits(items, from, to, s) && s.span() == span_at(items, from as int).cover(
        span_at(items, to - 1),
    )
}

/// A production that used `used` items from `at` on used a token last.
pub open spec fn ends_on_token(items: Seq<LexItemView>, at: nat, used: nat) -> bool {
    used > 0 ==> at + used <= items.len() && is_token(items, at + used - 1)
}

/// The tokenizer hands out tokens in the order of the source: each token
/// has a well-formed span, starts no earlier than where the tokenizer
/// stood, and ends before the next one starts.
pub proof fn lemma_tokens_ordered(src: Seq<char>, cur: LexState)
    requires
        0 <= cur.pos <= src.len(),
    ensures
        spans_ordered(tokens_from(src, cur)),
        forall|i: int|
            is_token(tokens_from(src, cur), i) ==> loc_le(
                cur.line,
                cur.col,
                (#[trigger] span_at(tokens_from(src, cur), i)).start_line,
                span_at(tokens_from(src, cur), i).start_col,
            ),
    decreases src.len() - cur.pos,
{
    reveal(spans_ordered);
    let all = tokens_from(src, cur);
    lemma_step_progress(src, cur);
    match step(src, cur) {
        Step::Skip(next) => {
            lemma_tokens_ordered(src, next);
            assert(all == tokens_from(src, next));
            assert forall|i: int| is_token(all, i) implies loc_le(
                cur.line,
                cur.col,
                (#[trigger] span_at(all, i)).start_line,
                span_at(all, i).start_col,
            ) by {
                let s = span_at(tokens_from(src, next), i);
                assert(loc_le(next.line, next.col, s.start_line, s.start_col));
            }
        },
        Step::Emit(token, span, next) => {
            lemma_tokens_ordered(src, next);
            let rest = tokens_from(src, next);
            assert(all == seq![Ok::<(TokenView, Span), ErrorView>((token, span))]
                + rest);
            assert forall|i: int| is_token(all, i) implies (#[trigger] span_at(all, i)).well_formed()
                && loc_le(cur.line, cur.col, span_at(all, i).start_line, span_at(all, i).start_col) by {
                if i > 0 {
                    assert(all[i] == rest[i - 1]);
                    assert(is_token(rest, i - 1));
                    let s = span_at(rest, i - 1);
                    assert(s.well_formed());
                    assert(loc_le(next.line, next.col, s.start_line, s.start_col));
                }
            }
            assert forall|i: int, j: int|
                #![trigger span_at(all, i), span_at(all, j)]
                is_token(all, i) && is_token(all, j) && i < j implies span_at(all, i).precedes(
                span_at(all, j),
            ) by {
                assert(all[j] == rest[j - 1]);
                assert(is_token(rest, j - 1));
                let later = span_at(rest, j - 1);
                assert(loc_le(next.line, next.col, later.start_line, later.start_col));
                if i > 0 {
                    assert(all[i] == rest[i - 1]);
                    assert(is_token(rest, i - 1));
                    assert(span_at(rest, i - 1).precedes(later));
                }
            }
        },
        _ => {},
    }
}

/// A span within a range of tokens lies within every wider range.
proof fn lemma_widen(items: Seq<LexItemView>, from: nat, to: nat, a: nat, b: nat, span: Span)
    requires
        spans_ordered(items),
        bounded(items, from, to, span),
        a <= from,
        to <= b <= items.len(),
        is_token(items, a as int),
        is_token(items, b - 1),
    ensures
        bounded(items, a, b, span),
{
    reveal(spans_ordered);
    let first = span_at(items, a as int);
    let inner_first = span_at(items, from as int);
    let inner_last = span_at(items, to - 1);
    let last = span_at(items, b - 1);
    assert(first.well_formed() && inner_first.well_formed());
    assert(inner_last.well_formed() && last.well_formed());
    if a < from {
        assert(first.precedes(inner_first));
    }
    if to < b {
        assert(inner_last.precedes(last));
    }
}

proof fn lemma_widen_exprs(
    items: Seq<LexItemView>,
    from: nat,
    to: nat,
    a: nat,
    b: nat,
    list: Seq<ExprView>,
)
    requires
        spans_ordered(items),
        exprs_fit(items, from, to, list),
        a <= from,
        to <= b <= items.len(),
        is_token(items, a as int),
        is_token(items, b - 1),
    ensures
        exprs_fit(items, a, b, list),
{
    assert forall|i: int| 0 <= i < list.len() implies expr_fits(items, a, b, #[trigger] list[i]) by {
        lemma_widen(items, from, to, a, b, list[i].span());
    }
}

proof fn lemma_widen_stmts(
    items: Seq<LexItemView>,
    from: nat,
    to: nat,
    a: nat,
    b: nat,
    list: Seq<StmtView>,
)
    requires
        spans_ordered(items),
        stmts_fit(items, from, to, list),
        a <= from,
        to <= b <= items.len(),
        is_token(items, a as int),
        is_token(items, b - 1),
    ensures
        stmts_fit(items, a, b, list),
{
    assert forall|i: int| 0 <= i < list.len() implies stmt_fits(items, a, b, #[trigger] list[i]) by {
        lemma_widen(items, from, to, a, b, list[i].span());
    }
}

proof fn lemma_widen_bindings(
    items: Seq<LexItemView>,
    from: nat,
    to: nat,
    a: nat,
    b: nat,
    list: Seq<(Seq<char>, ExprView)>,
)
    requires
        spans_ordered(items),
        bindings_fit(items, from, to, list),
        a <= from,
        to <= b <= items.len(),
        is_token(items, a as int),
        is_token(items, b - 1),
    ensures
        bindings_fit(items, a, b, list),
{
    assert forall|i: int| 0 <= i < list.len() implies expr_fits(
        items,
        a,
        b,
        (#[trigger] list[i]).1,
    ) by {
        lemma_widen(items, from, to, a, b, list[i].1.span());
    }
}

/// The span from the first to the last token of a range is well formed,
/// lies within the range, and is what a production gives a node that it
/// read from the range.
proof fn lemma_range(items: Seq<LexItemView>, a: nat, b: nat)
    requires
        spans_ordered(items),
        a < b <= items.len(),
        is_token(items, a as int),
        is_token(items, b - 1),
    ensures
        bounded(items, a, b, span_at(items, a as int).cover(span_at(items, b - 1))),
        last_span(items, b) == span_at(items, b - 1),
        first_span(items, a) == span_at(items, a as int),
{
    reveal(spans_ordered);
    let first = span_at(items, a as int);
    let last = span_at(items, b - 1);
    assert(first.well_formed() && last.well_formed());
    if a < b - 1 {
        assert(first.precedes(last));
    }
}

/// The span of the token used last is well formed.
proof fn lemma_last_span_well_formed(items: Seq<LexItemView>, at: nat)
    requires
        spans_ordered(items),
    ensures
        last_span(items, at).well_formed(),
        first_span(items, at).well_formed(),
    decreases at,
{
    reveal(spans_ordered);
    if at > 0 {
        lemma_last_span_well_formed(items, (at - 1) as nat);
        if at <= items.len() && items[at - 1] is Ok {
            assert(span_at(items, at - 1).well_formed());
        }
    }
    if at < items.len() && items[at as int] is Ok {
        assert(span_at(items, at as int).well_formed());
    }
}

/// An expression lies within the tokens it used, and its spans nest.
pub proof fn lemma_expr_at(level: Level, items: Seq<LexItemView>, at: nat)
    requires
        spans_ordered(items),
    ensures
        expr_at(level, items, at).result matches Ok(e) ==> expr_spans(
            items,
            at,
            at + expr_at(level, items, at).used,
            e,
        ),
    decreases remaining(items, at), 10 + level.height(),
{
    match level {
        Level::Unary => {
            lemma_prefix(items, at);
            let base = prefix(items, at);
            match base.result {
                Ok(operand) => {
                    lemma_range(items, at, at + base.used);
                    lemma_filters(items, at, at + base.used, operand);
                },
                Err(_) => {},
            }
        },
        Level::Not => {
            let next = peek(items, at).result;
            if next matches Ok(Some((token, span))) && token.is_word("not"@) {
                lemma_expr_at(Level::Not, items, at + 1);
                let inner = expr_at(Level::Not, items, at + 1);
                match inner.result {
                    Ok(operand) => {
                        lemma_range(items, at, at + 1 + inner.used);
                        lemma_widen(
                            items,
                            at + 1,
                            at + 1 + inner.used,
                            at,
                            at + 1 + inner.used,
                            operand.span(),
                        );
                    },
                    Err(_) => {},
                }
            } else {
                lemma_expr_at(Level::Compare, items, at);
            }
        },
        _ => {
            lemma_expr_at(level.tighter(), items, at);
            let left = expr_at(level.tighter(), items, at);
            match left.result {
                Ok(operand) => {
                    lemma_range(items, at, at + left.used);
                    lemma_fold(level, items, at, at + left.used, operand);
                },
                Err(_) => {},
            }
        },
    }
}

proof fn lemma_fold(level: Level, items: Seq<LexItemView>, from: nat, at: nat, left: ExprView)
    requires
        spans_ordered(items),
        expr_spans(items, from, at, left),
    ensures
        fold(level, items, at, span_at(items, from as int), left).result matches Ok(e)
            ==> expr_spans(
            items,
            from,
            at + fold(level, items, at, span_at(items, from as int), left).used,
            e,
        ),
    decreases remaining(items, at), 3nat,
{
    let start = span_at(items, from as int);
    let next = peek(items, at).result;
    if next matches Ok(Some((token, _))) && level.operator(token) is Some {
        lemma_expr_at(level.tighter(), items, at + 1);
        let right = expr_at(level.tighter(), items, at + 1);
        match right.result {
            Ok(operand) => {
                let end = at + 1 + right.used;
                lemma_range(items, from, end);
                lemma_widen(items, from, at, from, end, left.span());
                lemma_widen(items, at + 1, end, from, end, operand.span());
                let node = ExprView::BinOp {
                    op: level.operator(next->Ok_0->Some_0.0)->Some_0,
                    left: Box::new(left),
                    right: Box::new(operand),
                    span: start.cover(last_span(items, end)),
                };
                assert(expr_spans(items, from, end, node));
                lemma_fold(level, items, from, end, node);
            },
            Err(_) => {},
        }
    }
}

pub proof fn lemma_prefix(items: Seq<LexItemView>, at: nat)
    requires
        spans_ordered(items),
    ensures
        prefix(items, at).result matches Ok(e) ==> expr_spans(
            items,
            at,
            at + prefix(items, at).used,
            e,
        ),
    decreases remaining(items, at), 9nat,
{
    let next = peek(items, at).result;
    if next matches Ok(Some((TokenView::Minus, _))) {
        lemma_prefix(items, at + 1);
        let inner = prefix(items, at + 1);
        match inner.result {
            Ok(operand) => {
                lemma_range(items, at, at + 1 + inner.used);
                lemma_widen(
                    items,
                    at + 1,
                    at + 1 + inner.used,
                    at,
                    at + 1 + inner.used,
                    operand.span(),
                );
            },
            Err(_) => {},
        }
    } else {
        lemma_primary(items, at);
        let base = primary(items, at);
        match base.result {
            Ok(operand) => {
                lemma_range(items, at, at + base.used);
                lemma_postfix(items, at, at + base.used, operand);
            },
            Err(_) => {},
        }
    }
}

pub proof fn lemma_primary(items: Seq<LexItemView>, at: nat)
    requires
        spans_ordered(items),
    ensures
        primary(items, at).result matches Ok(e) ==> expr_spans(
            items,
            at,
            at + primary(items, at).used,
            e,
        ),
    decreases remaining(items, at), 8nat,
{
    match take(items, at).result {
        Ok(Some((token, span))) => {
            lemma_range(items, at, at + 1);
            match token {
                TokenView::ParenOpen => {
                    lemma_expr_at(Level::Or, items, at + 1);
                    let inner = expr_at(Level::Or, items, at + 1);
                    match inner.result {
                        Ok(e) => {
                            let close = expect(items, at + 1 + inner.used, Expect::ParenClose);
                            if close.result is Ok {
                                lemma_widen(
                                    items,
                                    at + 1,
                                    at + 1 + inner.used,
                                    at,
                                    at + 1 + inner.used + 1,
                                    e.span(),
                                );
                            }
                        },
                        Err(_) => {},
                    }
                },
                TokenView::BracketOpen => {
                    lemma_sequence(items, at + 1, at + 1, TokenView::BracketClose, Seq::empty());
                    let list = sequence(items, at + 1, TokenView::BracketClose, Seq::empty());
                    match list.result {
                        Ok(elements) => {
                            let end = at + 1 + list.used;
                            lemma_range(items, at, end);
                            if elements.len() > 0 {
                                lemma_widen_exprs(items, at + 1, end, at, end, elements);
                            }
                        },
                        Err(_) => {},
                    }
                },
                TokenView::BraceOpen => {
                    lemma_entries(items, at + 1, at + 1, Seq::empty(), Seq::empty());
                    let dict = entries(items, at + 1, Seq::empty(), Seq::empty());
                    match dict.result {
                        Ok(pairs) => {
                            let end = at + 1 + dict.used;
                            lemma_range(items, at, end);
                            if pairs.0.len() > 0 {
                                lemma_widen_exprs(items, at + 1, end, at, end, pairs.0);
                                lemma_widen_exprs(items, at + 1, end, at, end, pairs.1);
                            }
                        },
                        Err(_) => {},
                    }
                },
                _ => {},
            }
        },
        _ => {},
    }
}

/// The expressions of a list lie within the tokens from `from` on, where
/// the list starts, and the list ends on its closing token.
pub proof fn lemma_sequence(
    items: Seq<LexItemView>,
    from: nat,
    at: nat,
    closer: TokenView,
    acc: Seq<ExprView>,
)
    requires
        spans_ordered(items),
        from <= at,
        acc.len() == 0 ==> from == at,
        exprs_fit(items, from, at, acc),
    ensures
        sequence(items, at, closer, acc).result matches Ok(list) ==> {
            let used = sequence(items, at, closer, acc).used;
            &&& used >= 1
            &&& at + used <= items.len()
            &&& is_token(items, at + used - 1)
            &&& list.len() >= acc.len()
            &&& (list.len() > 0 ==> exprs_fit(items, from, at + used, list))
        },
    decreases remaining(items, at), (if acc.len() == 0 {
        21nat
    } else {
        20nat
    }),
{
    let next = peek(items, at).result;
    if next matches Ok(Some((token, _))) && token == closer {
        if acc.len() > 0 {
            assert(exprs_fit(items, from, at, acc));
            assert(expr_fits(items, from, at, acc[0]));
            lemma_widen_exprs(items, from, at, from, at + 1, acc);
        }
    } else if next is Ok {
        let comma = if acc.len() == 0 {
            done(Span::zero(), 0)
        } else {
            expect(items, at, Expect::Comma)
        };
        if comma.result is Ok {
            let start = at + comma.used;
            lemma_expr_at(Level::Or, items, start);
            let item = expr_at(Level::Or, items, start);
            match item.result {
                Ok(e) => {
                    let end = start + item.used;
                    if acc.len() > 0 {
                        assert(expr_fits(items, from, at, acc[0]));
                        lemma_widen_exprs(items, from, at, from, end, acc);
                        lemma_widen(items, start, end, from, end, e.span());
                    }
                    let longer = acc.push(e);
                    assert forall|i: int| 0 <= i < longer.len() implies expr_fits(
                        items,
                        from,
                        end,
                        #[trigger] longer[i],
                    ) by {
                        if i < acc.len() {
                            assert(longer[i] == acc[i]);
                        }
                    }
                    lemma_sequence(items, from, end, closer, longer);
                },
                Err(_) => {},
            }
        }
    }
}

pub proof fn lemma_entries(
    items: Seq<LexItemView>,
    from: nat,
    at: nat,
    keys: Seq<ExprView>,
    values: Seq<ExprView>,
)
    requires
        spans_ordered(items),
        from <= at,
        keys.len() == values.len(),
        keys.len() == 0 ==> from == at,
        exprs_fit(items, from, at, keys),
        exprs_fit(items, from, at, values),
    ensures
        entries(items, at, keys, values).result matches Ok(pairs) ==> {
            let used = entries(items, at, keys, values).used;
            &&& used >= 1
            &&& at + used <= items.len()
            &&& is_token(items, at + used - 1)
            &&& pairs.0.len() == pairs.1.len()
            &&& (pairs.0.len() > 0 ==> exprs_fit(items, from, at + used, pairs.0) && exprs_fit(
                items,
                from,
                at + used,
                pairs.1,
            ))
        },
    decreases remaining(items, at), 21nat,
{
    let next = peek(items, at).result;
    if next matches Ok(Some((TokenView::BraceClose, _))) {
        if keys.len() > 0 {
            assert(expr_fits(items, from, at, keys[0]));
            lemma_widen_exprs(items, from, at, from, at + 1, keys);
            lemma_widen_exprs(items, from, at, from, at + 1, values);
        }
    } else if next is Ok {
        let comma = if keys.len() == 0 {
            done(Span::zero(), 0)
        } else {
            expect(items, at, Expect::Comma)
        };
        if comma.result is Ok {
            let start = at + comma.used;
            lemma_expr_at(Level::Or, items, start);
            let key = expr_at(Level::Or, items, start);
            match key.result {
                Ok(k) => {
                    let colon = expect(items, start + key.used, Expect::Colon);
                    if colon.result is Ok {
                        let second = start + key.used + 1;
                        lemma_expr_at(Level::Or, items, second);
                        let value = expr_at(Level::Or, items, second);
                        match value.result {
                            Ok(v) => {
                                let end = second + value.used;
                                if keys.len() > 0 {
                                    assert(expr_fits(items, from, at, keys[0]));
                                    lemma_widen_exprs(items, from, at, from, end, keys);
                                    lemma_widen_exprs(items, from, at, from, end, values);
                                }
                                lemma_widen(items, start, start + key.used, from, end, k.span());
                                lemma_widen(items, second, end, from, end, v.span());
                                let more_keys = keys.push(k);
                                let more_values = values.push(v);
                                assert forall|i: int| 0 <= i < more_keys.len() implies expr_fits(
                                    items,
                                    from,
                                    end,
                                    #[trigger] more_keys[i],
                                ) by {
                                    if i < keys.len() {
                                        assert(more_keys[i] == keys[i]);
                                    }
                                }
                                assert forall|i: int| 0 <= i < more_values.len() implies expr_fits(
                                    items,
                                    from,
                                    end,
                                    #[trigger] more_values[i],
                                ) by {
                                    if i < values.len() {
                                        assert(more_values[i] == values[i]);
                                    }
                                }
                                lemma_entries(items, from, end, more_keys, more_values);
                            },
                            Err(_) => {},
                        }
                    }
                },
                Err(_) => {},
            }
        }
    }
}

proof fn lemma_postfix(items: Seq<LexItemView>, from: nat, at: nat, subject: ExprView)
    requires
        spans_ordered(items),
        expr_spans(items, from, at, subject),
    ensures
        postfix(items, at, span_at(items, from as int), subject).result matches Ok(e)
            ==> expr_spans(
            items,
            from,
            at + postfix(items, at, span_at(items, from as int), subject).used,
            e,
        ),
    decreases remaining(items, at), 7nat,
{
    let start = span_at(items, from as int);
    match peek(items, at).result {
        Ok(Some((TokenView::Dot, _))) => {
            let name = expect_ident(items, at + 1);
            match name.result {
                Ok(attr) => {
                    let end = at + 2;
                    lemma_range(items, from, end);
                    lemma_widen(items, from, at, from, end, subject.span());
                    let node = ExprView::GetAttr {
                        name: attr,
                        expr: Box::new(subject),
                        span: start.cover(last_span(items, end)),
                    };
                    assert(expr_spans(items, from, end, node));
                    lemma_postfix(items, from, end, node);
                },
                Err(_) => {},
            }
        },
        Ok(Some((TokenView::BracketOpen, _))) => {
            lemma_expr_at(Level::Or, items, at + 1);
            let index = expr_at(Level::Or, items, at + 1);
            match index.result {
                Ok(subscript) => {
                    let close = expect(items, at + 1 + index.used, Expect::BracketClose);
                    if close.result is Ok {
                        let end = at + 1 + index.used + 1;
                        lemma_range(items, from, end);
                        lemma_widen(items, from, at, from, end, subject.span());
                        lemma_widen(
                            items,
                            at + 1,
                            at + 1 + index.used,
                            from,
                            end,
                            subscript.span(),
                        );
                        let node = ExprView::GetItem {
                            expr: Box::new(subject),
                            subscript_expr: Box::new(subscript),
                            span: start.cover(last_span(items, end)),
                        };
                        assert(expr_spans(items, from, end, node));
                        lemma_postfix(items, from, end, node);
                    }
                },
                Err(_) => {},
            }
        },
        Ok(Some((TokenView::ParenOpen, _))) => {
            lemma_sequence(items, at + 1, at + 1, TokenView::ParenClose, Seq::empty());
            let list = sequence(items, at + 1, TokenView::ParenClose, Seq::empty());
            match list.result {
                Ok(arguments) => {
                    let end = at + 1 + list.used;
                    lemma_range(items, from, end);
                    lemma_widen(items, from, at, from, end, subject.span());
                    if arguments.len() > 0 {
                        lemma_widen_exprs(items, at + 1, end, from, end, arguments);
                    }
                    let node = ExprView::Call {
                        expr: Box::new(subject),
                        args: arguments,
                        span: start.cover(last_span(items, end)),
                    };
                    assert(expr_spans(items, from, end, node));
                    lemma_postfix(items, from, end, node);
                },
                Err(_) => {},
            }
        },
        _ => {},
    }
}

proof fn lemma_filters(items: Seq<LexItemView>, from: nat, at: nat, subject: ExprView)
    requires
        spans_ordered(items),
        expr_spans(items, from, at, subject),
    ensures
        filters(items, at, span_at(items, from as int), subject).result matches Ok(e)
            ==> expr_spans(
            items,
            from,
            at + filters(items, at, span_at(items, from as int), subject).used,
            e,
        ),
    decreases remaining(items, at), 6nat,
{
    let start = span_at(items, from as int);
    let next = peek(items, at).result;
    if next matches Ok(Some((token, _))) && (token == TokenView::Pipe || token.is_word("is"@)) {
        let token = next->Ok_0->Some_0.0;
        let name = expect_ident(items, at + 1);
        match name.result {
            Ok(word) => {
                let arguments = optional_args(items, at + 2);
                if peek(items, at + 2).result matches Ok(Some((TokenView::ParenOpen, _))) {
                    lemma_sequence(items, at + 3, at + 3, TokenView::ParenClose, Seq::empty());
                }
                match arguments.result {
                    Ok(list) => {
                        let end = at + 2 + arguments.used;
                        lemma_range(items, from, end);
                        lemma_widen(items, from, at, from, end, subject.span());
                        if list.len() > 0 {
                            lemma_widen_exprs(items, at + 3, end, from, end, list);
                        }
                        let span = start.cover(last_span(items, end));
                        let node = if token == TokenView::Pipe {
                            ExprView::Filter {
                                name: word,
                                expr: Box::new(subject),
                                args: list,
                                span,
                            }
                        } else {
                            ExprView::Test { name: word, expr: Box::new(subject), args: list, span }
                        };
                        assert(expr_spans(items, from, end, node));
                        lemma_filters(items, from, end, node);
                    },
                    Err(_) => {},
                }
            },
            Err(_) => {},
        }
    }
}

/// The statements of a body lie within the tokens from `from` on, where
/// the body starts.
#[verifier::rlimit(50)]
pub proof fn lemma_body(
    items: Seq<LexItemView>,
    from: nat,
    at: nat,
    term: Terminator,
    acc: Seq<StmtView>,
)
    requires
        spans_ordered(items),
        from <= at,
        acc.len() == 0 ==> from == at,
        stmts_fit(items, from, at, acc),
    ensures
        body(items, at, term, acc).result matches Ok(list) ==> {
            let used = body(items, at, term, acc).used;
            &&& at + used <= items.len() || used == 0
            &&& ends_on_token(items, at, used)
            &&& list.len() >= acc.len()
            &&& (list.len() > 0 ==> stmts_fit(items, from, at + used, list))
        },
    decreases remaining(items, at), 0nat,
{
    match take(items, at).result {
        Ok(Some((token, span))) => {
            lemma_range(items, at, at + 1);
            match token {
                TokenView::TemplateData(raw) => {
                    let node = StmtView::EmitRaw { raw, span };
                    lemma_body_grows(items, from, at, at + 1, term, acc, node);
                },
                TokenView::VariableStart(_) => {
                    lemma_expr_at(Level::Or, items, at + 1);
                    let inner = expression(items, at + 1);
                    match inner.result {
                        Ok(expr) => {
                            let close = expect(items, at + 1 + inner.used, Expect::VariableEnd);
                            if close.result is Ok {
                                let mid = at + 1 + inner.used;
                                let end = mid + 1;
                                lemma_range(items, at, end);
                                lemma_widen(items, at + 1, mid, at, end, expr.span());
                                let node = StmtView::EmitExpr {
                                    expr,
                                    span: span.cover(last_span(items, end)),
                                };
                                assert(stmt_fits(items, at, end, node));
                                lemma_body_grows(items, from, at, end, term, acc, node);
                            }
                        },
                        Err(_) => {},
                    }
                },
                TokenView::BlockStart(_) => {
                    let next = peek(items, at + 1).result;
                    if next matches Ok(Some((keyword, _))) {
                        if term.ends(next->Ok_0->Some_0.0) {
                            if acc.len() > 0 {
                                assert(stmt_fits(items, from, at, acc[0]));
                                lemma_widen_stmts(items, from, at, from, at + 1, acc);
                            }
                        } else {
                            lemma_statement(items, at + 1);
                            let inner = statement(items, at + 1);
                            match inner.result {
                                Ok(node) => {
                                    let mid = at + 1 + inner.used;
                                    let close = expect(items, mid, Expect::BlockEnd);
                                    if close.result is Ok {
                                        lemma_widen(items, at + 1, mid, at, mid + 1, node.span());
                                        lemma_body_grows(items, from, at, mid + 1, term, acc, node);
                                    }
                                },
                                Err(_) => {},
                            }
                        }
                    }
                },
                _ => {},
            }
        },
        _ => {},
    }
}

/// One more statement `node`, read from the tokens from `at` to `next`,
/// and the rest of the body behind it.
#[verifier::rlimit(30)]
proof fn lemma_body_grows(
    items: Seq<LexItemView>,
    from: nat,
    at: nat,
    next: nat,
    term: Terminator,
    acc: Seq<StmtView>,
    node: StmtView,
)
    requires
        spans_ordered(items),
        from <= at < next,
        acc.len() == 0 ==> from == at,
        stmts_fit(items, from, at, acc),
        stmt_fits(items, at, next, node),
    ensures
        body(items, next, term, acc.push(node)).result matches Ok(list) ==> {
            let used = body(items, next, term, acc.push(node)).used;
            &&& at + (next - at) + used <= items.len()
            &&& is_token(items, next + used - 1)
            &&& list.len() > acc.len()
            &&& stmts_fit(items, from, next + used, list)
        },
    decreases remaining(items, at), 0nat, 0nat,
{
    if acc.len() > 0 {
        assert(stmt_fits(items, from, at, acc[0]));
        lemma_widen_stmts(items, from, at, from, next, acc);
        lemma_widen(items, at, next, from, next, node.span());
    }
    let longer = acc.push(node);
    assert forall|i: int| 0 <= i < longer.len() implies stmt_fits(
        items,
        from,
        next,
        #[trigger] longer[i],
    ) by {
        if i < acc.len() {
            assert(longer[i] == acc[i]);
        }
    }
    lemma_body(items, from, next, term, longer);
}

#[verifier::rlimit(30)]
pub proof fn lemma_statement(items: Seq<LexItemView>, at: nat)
    requires
        spans_ordered(items),
    ensures
        statement(items, at).result matches Ok(node) ==> stmt_spans(
            items,
            at,
            at + statement(items, at).used,
            node,
        ),
    decreases remaining(items, at), 0nat,
{
    match take(items, at).result {
        Ok(Some((token, span))) => {
            if token.is_word("for"@) {
                lemma_for_loop(items, at, at + 1);
            } else if token.is_word("if"@) {
                lemma_if_cond(items, at, at + 1);
            } else if token.is_word("with"@) {
                lemma_with_block(items, at, at + 1);
            } else if token.is_word("block"@) {
                lemma_block(items, at, at + 1);
            } else if token.is_word("extends"@) {
                lemma_extends(items, at, at + 1);
            } else if token.is_word("autoescape"@) {
                lemma_auto_escape(items, at, at + 1);
            }
        },
        _ => {},
    }
}

pub proof fn lemma_enclosed(items: Seq<LexItemView>, at: nat, term: Terminator)
    requires
        spans_ordered(items),
    ensures
        enclosed(items, at, term).result matches Ok(list) ==> {
            let used = enclosed(items, at, term).used;
            &&& used >= 1
            &&& at + used <= items.len()
            &&& is_token(items, at as int)
            &&& is_token(items, at + used - 1)
            &&& (list.len() > 0 ==> stmts_fit(items, at + 1, at + used, list))
        },
    decreases remaining(items, at), 0nat,
{
    let open = expect(items, at, Expect::BlockEnd);
    if open.result is Ok {
        lemma_body(items, at + 1, at + 1, term, Seq::empty());
        let inner = body(items, at + 1, term, Seq::empty());
        match inner.result {
            Ok(list) => {
                let mid = at + 1 + inner.used;
                let end = take(items, mid);
                if end.result is Ok && list.len() > 0 {
                    assert(stmt_fits(items, at + 1, mid, list[0]));
                    lemma_widen_stmts(items, at + 1, mid, at + 1, mid + end.used, list);
                }
            },
            Err(_) => {},
        }
    }
}

proof fn lemma_for_loop(items: Seq<LexItemView>, from: nat, at: nat)
    requires
        spans_ordered(items),
        is_token(items, from as int),
        from < at,
    ensures
        for_loop(items, at, span_at(items, from as int)).result matches Ok(node) ==> stmt_spans(
            items,
            from,
            at + for_loop(items, at, span_at(items, from as int)).used,
            node,
        ),
    decreases remaining(items, at), 1nat,
{
    let target = assign_target(items, at);
    if target.result is Ok {
        let word = expect(items, at + 1, Expect::In);
        if word.result is Ok {
            lemma_expr_at(Level::Or, items, at + 2);
            let iter = expression(items, at + 2);
            match iter.result {
                Ok(iterable) => {
                    let mid = at + 2 + iter.used;
                    lemma_enclosed(items, mid, Terminator::EndFor);
                    let rest = enclosed(items, mid, Terminator::EndFor);
                    match rest.result {
                        Ok(inner) => {
                            let end = mid + rest.used;
                            lemma_range(items, from, end);
                            lemma_widen(items, at + 2, mid, from, end, iterable.span());
                            if inner.len() > 0 {
                                assert(stmt_fits(items, mid + 1, end, inner[0]));
                                lemma_widen_stmts(items, mid + 1, end, from, end, inner);
                            }
                        },
                        Err(_) => {},
                    }
                },
                Err(_) => {},
            }
        }
    }
}

#[verifier::rlimit(30)]
pub proof fn lemma_if_cond(items: Seq<LexItemView>, from: nat, at: nat)
    requires
        spans_ordered(items),
        is_token(items, from as int),
        from < at,
    ensures
        if_cond(items, at, span_at(items, from as int)).result matches Ok(node) ==> stmt_spans(
            items,
            from,
            at + if_cond(items, at, span_at(items, from as int)).used,
            node,
        ),
    decreases remaining(items, at), 1nat,
{
    lemma_expr_at(Level::Or, items, at);
    let cond = expression(items, at);
    match cond.result {
        Ok(expr) => {
            let open = expect(items, at + cond.used, Expect::BlockEnd);
            if open.result is Ok {
                let start = at + cond.used + 1;
                lemma_body(items, start, start, Terminator::Branch, Seq::empty());
                let yes = body(items, start, Terminator::Branch, Seq::empty());
                match yes.result {
                    Ok(true_body) => {
                        let mid = start + yes.used;
                        lemma_widen(items, at, at + cond.used, from, mid, expr.span());
                        if true_body.len() > 0 {
                            assert(stmt_fits(items, start, mid, true_body[0]));
                            lemma_widen_stmts(items, start, mid, from, mid, true_body);
                        }
                        lemma_if_rest(items, from, mid, expr, true_body);
                    },
                    Err(_) => {},
                }
            }
        },
        Err(_) => {},
    }
}

#[verifier::rlimit(30)]
proof fn lemma_if_rest(
    items: Seq<LexItemView>,
    from: nat,
    at: nat,
    expr: ExprView,
    true_body: Seq<StmtView>,
)
    requires
        spans_ordered(items),
        is_token(items, from as int),
        from < at <= items.len(),
        is_token(items, at - 1),
        expr_fits(items, from, at, expr),
        stmts_fit(items, from, at, true_body),
    ensures
        if_rest(items, at, span_at(items, from as int), expr, true_body).result matches Ok(node)
            ==> stmt_spans(
            items,
            from,
            at + if_rest(items, at, span_at(items, from as int), expr, true_body).used,
            node,
        ),
    decreases remaining(items, at), 0nat,
{
    let next = take(items, at).result;
    match next {
        Ok(Some((token, span))) => {
            if token.is_word("else"@) {
                lemma_enclosed(items, at + 1, Terminator::EndIf);
                let rest = enclosed(items, at + 1, Terminator::EndIf);
                match rest.result {
                    Ok(false_body) => {
                        let end = at + 1 + rest.used;
                        lemma_range(items, from, end);
                        lemma_widen(items, from, at, from, end, expr.span());
                        lemma_widen_stmts(items, from, at, from, end, true_body);
                        if false_body.len() > 0 {
                            assert(stmt_fits(items, at + 2, end, false_body[0]));
                            lemma_widen_stmts(items, at + 2, end, from, end, false_body);
                        }
                    },
                    Err(_) => {},
                }
            } else if token.is_word("elif"@) {
                lemma_if_cond(items, at, at + 1);
                let nested = if_cond(items, at + 1, span);
                match nested.result {
                    Ok(node) => {
                        let end = at + 1 + nested.used;
                        lemma_range(items, from, end);
                        lemma_widen(items, from, at, from, end, expr.span());
                        lemma_widen_stmts(items, from, at, from, end, true_body);
                        lemma_widen(items, at, end, from, end, node.span());
                    },
                    Err(_) => {},
                }
            } else {
                let end = at + 1;
                lemma_range(items, from, end);
                lemma_widen(items, from, at, from, end, expr.span());
                lemma_widen_stmts(items, from, at, from, end, true_body);
            }
        },
        Ok(None) => {
            lemma_range(items, from, at);
        },
        Err(_) => {},
    }
}

proof fn lemma_bindings(
    items: Seq<LexItemView>,
    from: nat,
    at: nat,
    acc: Seq<(Seq<char>, ExprView)>,
)
    requires
        spans_ordered(items),
        is_token(items, from as int),
        from < at <= items.len(),
        is_token(items, at - 1),
        bindings_fit(items, from, at, acc),
    ensures
        bindings(items, at, acc).result matches Ok(list) ==> {
            let used = bindings(items, at, acc).used;
            &&& at + used <= items.len()
            &&& is_token(items, at + used - 1)
            &&& bindings_fit(items, from, at + used, list)
        },
    decreases remaining(items, at), 0nat,
{
    let next = peek(items, at).result;
    if next matches Ok(Some((token, _))) && token is BlockEnd {
    } else if next is Ok {
        let comma = if acc.len() == 0 {
            done(Span::zero(), 0)
        } else {
            expect(items, at, Expect::Separator)
        };
        if comma.result is Ok {
            let target = assign_target(items, at + comma.used);
            match target.result {
                Ok(name) => {
                    let sign = expect(items, at + comma.used + 1, Expect::Assign);
                    if sign.result is Ok {
                        let start = at + comma.used + 2;
                        lemma_expr_at(Level::Or, items, start);
                        let value = expression(items, start);
                        match value.result {
                            Ok(expr) => {
                                let end = start + value.used;
                                lemma_widen_bindings(items, from, at, from, end, acc);
                                lemma_widen(items, start, end, from, end, expr.span());
                                let longer = acc.push((name, expr));
                                assert forall|i: int| 0 <= i < longer.len() implies expr_fits(
                                    items,
                                    from,
                                    end,
                                    (#[trigger] longer[i]).1,
                                ) by {
                                    if i < acc.len() {
                                        assert(longer[i] == acc[i]);
                                    }
                                }
                                lemma_bindings(items, from, end, longer);
                            },
                            Err(_) => {},
                        }
                    }
                },
                Err(_) => {},
            }
        }
    }
}

proof fn lemma_with_block(items: Seq<LexItemView>, from: nat, at: nat)
    requires
        spans_ordered(items),
        is_token(items, from as int),
        at == from + 1,
    ensures
        with_block(items, at, span_at(items, from as int)).result matches Ok(node) ==> stmt_spans(
            items,
            from,
            at + with_block(items, at, span_at(items, from as int)).used,
            node,
        ),
    decreases remaining(items, at), 1nat,
{
    if at <= items.len() {
        lemma_bindings(items, from, at, Seq::empty());
        let list = bindings(items, at, Seq::empty());
        match list.result {
            Ok(assignments) => {
                let mid = at + list.used;
                lemma_enclosed(items, mid, Terminator::EndWith);
                let rest = enclosed(items, mid, Terminator::EndWith);
                match rest.result {
                    Ok(inner) => {
                        let end = mid + rest.used;
                        lemma_range(items, from, end);
                        lemma_widen_bindings(items, from, mid, from, end, assignments);
                        if inner.len() > 0 {
                            assert(stmt_fits(items, mid + 1, end, inner[0]));
                            lemma_widen_stmts(items, mid + 1, end, from, end, inner);
                        }
                    },
                    Err(_) => {},
                }
            },
            Err(_) => {},
        }
    }
}

proof fn lemma_block(items: Seq<LexItemView>, from: nat, at: nat)
    requires
        spans_ordered(items),
        is_token(items, from as int),
        from < at,
    ensures
        block(items, at, span_at(items, from as int)).result matches Ok(node) ==> stmt_spans(
            items,
            from,
            at + block(items, at, span_at(items, from as int)).used,
            node,
        ),
    decreases remaining(items, at), 1nat,
{
    let name = expect_ident(items, at);
    if name.result is Ok {
        lemma_enclosed(items, at + 1, Terminator::EndBlock);
        let rest = enclosed(items, at + 1, Terminator::EndBlock);
        match rest.result {
            Ok(inner) => {
                let mid = at + 1 + rest.used;
                let end = if peek(items, mid).result matches Ok(Some((TokenView::Ident(_), _))) {
                    mid + 1
                } else {
                    mid
                };
                lemma_range(items, from, end);
                if inner.len() > 0 {
                    assert(stmt_fits(items, at + 2, mid, inner[0]));
                    lemma_widen_stmts(items, at + 2, mid, from, end, inner);
                }
            },
            Err(_) => {},
        }
    }
}

proof fn lemma_extends(items: Seq<LexItemView>, from: nat, at: nat)
    requires
        spans_ordered(items),
        is_token(items, from as int),
        from < at,
    ensures
        extends(items, at, span_at(items, from as int)).result matches Ok(node) ==> stmt_spans(
            items,
            from,
            at + extends(items, at, span_at(items, from as int)).used,
            node,
        ),
    decreases remaining(items, at), 1nat,
{
    lemma_expr_at(Level::Or, items, at);
    let name = expression(items, at);
    match name.result {
        Ok(expr) => {
            let end = at + name.used;
            lemma_range(items, from, end);
            lemma_widen(items, at, end, from, end, expr.span());
        },
        Err(_) => {},
    }
}

proof fn lemma_auto_escape(items: Seq<LexItemView>, from: nat, at: nat)
    requires
        spans_ordered(items),
        is_token(items, from as int),
        from < at,
    ensures
        auto_escape(items, at, span_at(items, from as int)).result matches Ok(node) ==> stmt_spans(
            items,
            from,
            at + auto_escape(items, at, span_at(items, from as int)).used,
            node,
        ),
    decreases remaining(items, at), 1nat,
{
    lemma_expr_at(Level::Or, items, at);
    let flag = expression(items, at);
    match flag.result {
        Ok(enabled) => {
            let mid = at + flag.used;
            lemma_enclosed(items, mid, Terminator::EndAutoEscape);
            let rest = enclosed(items, mid, Terminator::EndAutoEscape);
            match rest.result {
                Ok(inner) => {
                    let end = mid + rest.used;
                    lemma_range(items, from, end);
                    lemma_widen(items, at, mid, from, end, enabled.span());
                    if inner.len() > 0 {
                        assert(stmt_fits(items, mid + 1, end, inner[0]));
                        lemma_widen_stmts(items, mid + 1, end, from, end, inner);
                    }
                },
                Err(_) => {},
            }
        },
        Err(_) => {},
    }
}

/// The spans of a template nest, and the span of its root runs from the
/// start of the first token to the end of the last.
pub proof fn lemma_template(items: Seq<LexItemView>, at: nat)
    requires
        spans_ordered(items),
    ensures
        template(items, at).result matches Ok(root) ==> {
            let used = template(items, at).used;
            &&& root.spans_nested()
            &&& used > 0 ==> {
                &&& at + used <= items.len()
                &&& is_token(items, at as int)
                &&& is_token(items, at + used - 1)
                &&& root.span() == span_at(items, at as int).cover(span_at(items, at + used - 1))
            }
        },
{
    lemma_body(items, at, at, Terminator::Never, Seq::empty());
    lemma_last_span_well_formed(items, at);
    let inner = body(items, at, Terminator::Never, Seq::empty());
    match inner.result {
        Ok(children) => {
            if inner.used > 0 {
                lemma_range(items, at, at + inner.used);
            }
        },
        Err(_) => {},
    }
}

/// `node` is what a body makes of the tokens from `lo` up to `hi`: a run
/// of raw text of its one token, a printed expression of the tokens from
/// `{{` to `}}`, or a statement of the tokens from its keyword, which
/// follows `{%`, to the one it uses last. The span of `node` runs from the
/// start of the first of these tokens to the end of the last.
pub open spec fn read_from(items: Seq<LexItemView>, lo: nat, hi: nat, node: StmtView) -> bool {
    &&& lo < hi <= items.len()
    &&& is_token(items, lo as int)
    &&& is_token(items, hi - 1)
    &&& node.span() == span_at(items, lo as int).cover(span_at(items, hi - 1))
    &&& {
        ||| {
            &&& hi == lo + 1
            &&& node is EmitRaw
            &&& items[lo as int]->Ok_0.0 == TokenView::TemplateData(node->EmitRaw_raw)
        }
        ||| {
            &&& node is EmitExpr
            &&& items[lo as int]->Ok_0.0 is VariableStart
            &&& items[hi - 1]->Ok_0.0 is VariableEnd
            &&& expression(items, lo + 1) == done(node->EmitExpr_expr, (hi - lo - 2) as nat)
        }
        ||| {
            &&& lo >= 1
            &&& is_token(items, lo - 1)
            &&& items[lo - 1]->Ok_0.0 is BlockStart
            &&& statement(items, lo) == done(node, (hi - lo) as nat)
        }
    }
}

/// `node` is what a body made of some of the tokens from `from` up to `to`.
pub open spec fn made_within(items: Seq<LexItemView>, from: nat, to: nat, node: StmtView) -> bool {
    exists|lo: nat, hi: nat| from <= lo && hi <= to && #[trigger] read_from(items, lo, hi, node)
}

/// A body keeps the statements it was handed, and every statement it adds
/// spans exactly the tokens it was made of.
#[verifier::rlimit(30)]
pub proof fn lemma_body_pieces(
    items: Seq<LexItemView>,
    at: nat,
    term: Terminator,
    acc: Seq<StmtView>,
)
    requires
        spans_ordered(items),
    ensures
        body(items, at, term, acc).result matches Ok(list) ==> {
            let used = body(items, at, term, acc).used;
            &&& list.len() >= acc.len()
            &&& forall|i: int| 0 <= i < acc.len() ==> #[trigger] list[i] == acc[i]
            &&& forall|i: int|
                acc.len() <= i < list.len() ==> made_within(items, at, at + used, #[trigger] list[i])
        },
    decreases remaining(items, at), 1nat,
{
    match take(items, at).result {
        Ok(Some((token, span))) => match token {
            TokenView::TemplateData(raw) => {
                let node = StmtView::EmitRaw { raw, span };
                lemma_pieces_grow(items, at, at + 1, at, at + 1, term, acc, node);
            },
            TokenView::VariableStart(_) => {
                let inner = expression(items, at + 1);
                match inner.result {
                    Ok(expr) => {
                        let end = at + 1 + inner.used + 1;
                        let close = expect(items, at + 1 + inner.used, Expect::VariableEnd);
                        if close.result is Ok {
                            let node = StmtView::EmitExpr {
                                expr,
                                span: span.cover(last_span(items, end)),
                            };
                            lemma_pieces_grow(items, at, end, at, end, term, acc, node);
                        }
                    },
                    Err(_) => {},
                }
            },
            TokenView::BlockStart(_) => {
                let next = peek(items, at + 1).result;
                if next matches Ok(Some((keyword, _))) && !term.ends(keyword) {
                    lemma_statement(items, at + 1);
                    let inner = statement(items, at + 1);
                    match inner.result {
                        Ok(node) => {
                            let mid = at + 1 + inner.used;
                            let close = expect(items, mid, Expect::BlockEnd);
                            if close.result is Ok {
                                lemma_pieces_grow(items, at, mid + 1, at + 1, mid, term, acc, node);
                            }
                        },
                        Err(_) => {},
                    }
                }
            },
            _ => {},
        },
        _ => {},
    }
}

/// One more statement `node`, made of the tokens from `lo` to `hi`, and
/// the rest of the body from `next` on.
#[verifier::rlimit(30)]
proof fn lemma_pieces_grow(
    items: Seq<LexItemView>,
    at: nat,
    next: nat,
    lo: nat,
    hi: nat,
    term: Terminator,
    acc: Seq<StmtView>,
    node: StmtView,
)
    requires
        spans_ordered(items),
        at <= lo,
        hi <= next,
        at < next,
        read_from(items, lo, hi, node),
    ensures
        body(items, next, term, acc.push(node)).result matches Ok(list) ==> {
            let used = body(items, next, term, acc.push(node)).used;
            &&& list.len() > acc.len()
            &&& forall|i: int| 0 <= i < acc.len() ==> #[trigger] list[i] == acc[i]
            &&& forall|i: int|
                acc.len() <= i < list.len() ==> made_within(
                    items,
                    at,
                    next + used,
                    #[trigger] list[i],
                )
        },
    decreases remaining(items, at), 0nat,
{
    let longer = acc.push(node);
    lemma_body_pieces(items, next, term, longer);
    let out = body(items, next, term, longer);
    match out.result {
        Ok(list) => {
            assert forall|i: int| 0 <= i < acc.len() implies #[trigger] list[i] == acc[i] by {
                assert(list[i] == longer[i]);
            }
            assert forall|i: int| acc.len() <= i < list.len() implies made_within(
                items,
                at,
                next + out.used,
                #[trigger] list[i],
            ) by {
                if i == acc.len() {
                    assert(list[i] == longer[i]);
                    assert(read_from(items, lo, hi, list[i]));
                } else {
                    assert(made_within(items, next, next + out.used, list[i]));
                    let (l, h) = choose|l: nat, h: nat|
                        next <= l && h <= next + out.used && #[trigger] read_from(
                            items,
                            l,
                            h,
                            list[i],
                        );
                    assert(read_from(items, l, h, list[i]));
                }
            }
        },
        Err(_) => {},
    }
}

/// An expression that parses uses at least one item; the first and the
/// last item it uses are tokens.
pub proof fn lemma_expr_ends(level: Level, items: Seq<LexItemView>, at: nat)
    requires
        spans_ordered(items),
    ensures
        expr_at(level, items, at).result is Ok ==> {
            let used = expr_at(level, items, at).used;
            &&& used >= 1
            &&& at + used <= items.len()
            &&& is_token(items, at as int)
            &&& is_token(items, at + used - 1)
        },
{
    lemma_expr_at(level, items, at);
}

/// A signed operand that parses uses at least one item; the first and the
/// last item it uses are tokens.
pub proof fn lemma_prefix_ends(items: Seq<LexItemView>, at: nat)
    requires
        spans_ordered(items),
    ensures
        prefix(items, at).result is Ok ==> {
            let used = prefix(items, at).used;
            &&& used >= 1
            &&& at + used <= items.len()
            &&& is_token(items, at as int)
            &&& is_token(items, at + used - 1)
        },
{
    lemma_prefix(items, at);
}

/// A primary that parses uses at least one item; the first and the last
/// item it uses are tokens.
pub proof fn lemma_primary_ends(items: Seq<LexItemView>, at: nat)
    requires
        spans_ordered(items),
    ensures
        primary(items, at).result is Ok ==> {
            let used = primary(items, at).used;
            &&& used >= 1
            &&& at + used <= items.len()
            &&& is_token(items, at as int)
            &&& is_token(items, at + used - 1)
        },
{
    lemma_primary(items, at);
}

/// A list that parses ends on its closing token.
pub proof fn lemma_sequence_ends(items: Seq<LexItemView>, at: nat, closer: TokenView)
    requires
        spans_ordered(items),
    ensures
        sequence(items, at, closer, Seq::empty()).result is Ok ==> {
            let used = sequence(items, at, closer, Seq::empty()).used;
            &&& used >= 1
            &&& at + used <= items.len()
            &&& is_token(items, at + used - 1)
        },
{
    lemma_sequence(items, at, at, closer, Seq::empty());
}

/// The entries of a dictionary that parse end on the closing token.
pub proof fn lemma_entries_ends(items: Seq<LexItemView>, at: nat)
    requires
        spans_ordered(items),
    ensures
        entries(items, at, Seq::empty(), Seq::empty()).result is Ok ==> {
            let used = entries(items, at, Seq::empty(), Seq::empty()).used;
            &&& used >= 1
            &&& at + used <= items.len()
            &&& is_token(items, at + used - 1)
        },
{
    lemma_entries(items, at, at, Seq::empty(), Seq::empty());
}

/// A body that parses stays within the input, and where it uses an item,
/// the last one it uses is a token.
pub proof fn lemma_body_ends(items: Seq<LexItemView>, at: nat, term: Terminator)
    requires
        spans_ordered(items),
    ensures
        body(items, at, term, Seq::empty()).result is Ok ==> {
            let used = body(items, at, term, Seq::empty()).used;
            used > 0 ==> at + used <= items.len() && is_token(items, at + used - 1)
        },
{
    lemma_body(items, at, at, term, Seq::empty());
}

/// What a tag encloses, where it parses, starts with the `%}` of the tag
/// and ends on a token.
pub proof fn lemma_enclosed_ends(items: Seq<LexItemView>, at: nat, term: Terminator)
    requires
        spans_ordered(items),
    ensures
        enclosed(items, at, term).result is Ok ==> {
            let used = enclosed(items, at, term).used;
            &&& used >= 1
            &&& at + used <= items.len()
            &&& is_token(items, at + used - 1)
        },
{
    lemma_enclosed(items, at, term);
}

/// An `if` that parses ends on a token.
pub proof fn lemma_if_cond_ends(items: Seq<LexItemView>, from: nat, at: nat)
    requires
        spans_ordered(items),
        is_token(items, from as int),
        from < at,
    ensures
        if_cond(items, at, span_at(items, from as int)).result is Ok ==> {
            let used = if_cond(items, at, span_at(items, from as int)).used;
            &&& at + used <= items.len()
            &&& is_token(items, at + used - 1)
        },
{
    lemma_if_cond(items, from, at);
}

} // verus!
