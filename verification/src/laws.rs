//! What holds of every parse, stated over the grammar and proved from it.

use crate::ast::{Expr, ExprView, Stmt, StmtView};
use crate::error::Error;
use crate::grammar::{
    assign_target, body, expect, expression, if_cond, if_rest, is_reserved, last_span,
    parse_expression, parse_template, peek, remaining, statement, take, template, Expect, Level,
    Terminator,
};
use crate::locality::{
    lemma_local_body, lemma_local_expr_at, lemma_local_statement, same_prefix,
};
use crate::joining::{
    behind, lemma_body_acc, lemma_body_join, lemma_join_is_shift, lemma_shift_body,
    lemma_shift_expr_at,
};
use crate::lexer::{tokenize, LexState};
use crate::parser::{expr_result, stmt_result};
use crate::spans::{
    expr_spans, is_token, lemma_body_ends, lemma_body_pieces, lemma_if_cond, lemma_expr_at, lemma_statement,
    lemma_template, lemma_tokens_ordered, made_within, span_at, spans_ordered,
};
use crate::tokens::{LexItemView, Span, TokenView};
use vstd::prelude::*;

verus! {

/// The tokens of every source text follow one another: each has a
/// well-formed span and ends before the next one starts.
pub proof fn law_tokens_in_source_order(source: Seq<char>, in_expr: bool)
    ensures
        spans_ordered(tokenize(source, in_expr)),
{
    lemma_tokens_ordered(source, LexState::start(in_expr));
}

/// In the tree of every template that parses, the span of each node is
/// well formed and contains the spans of its children, and with them the
/// spans of all nodes below it.
pub proof fn law_template_spans_nest(source: Seq<char>, filename: Seq<char>)
    ensures
        parse_template(source, filename) matches Ok(root) ==> root.spans_nested(),
{
    law_tokens_in_source_order(source, false);
    lemma_template(tokenize(source, false), 0);
}

/// In the tree of every expression that parses, the span of each node is
/// well formed and contains the spans of its children, and with them the
/// spans of all nodes below it.
pub proof fn law_expression_spans_nest(source: Seq<char>)
    ensures
        parse_expression(source) matches Ok(e) ==> e.spans_nested(),
{
    law_tokens_in_source_order(source, true);
    lemma_expr_at(Level::Or, tokenize(source, true), 0);
}

/// The span of an expression is the least span that covers what was read
/// for it: it runs from the start of the first token to the end of the
/// last. The one exception is an expression in parentheses with nothing
/// around it: the parentheses are read and leave no node, so the span is
/// that of the expression between them. The spans below it nest.
pub proof fn law_expression_span_covers_its_tokens(items: Seq<LexItemView>, at: nat)
    requires
        spans_ordered(items),
    ensures
        expression(items, at).result matches Ok(e) ==> expr_spans(
            items,
            at,
            at + expression(items, at).used,
            e,
        ),
{
    lemma_expr_at(Level::Or, items, at);
}

/// The span of a statement is the least span that covers what was read
/// for it: it runs from the start of the keyword to the end of the token
/// used last. The spans below it nest.
pub proof fn law_statement_span_covers_its_tokens(items: Seq<LexItemView>, at: nat)
    requires
        spans_ordered(items),
    ensures
        statement(items, at).result matches Ok(node) ==> {
            let end = at + statement(items, at).used;
            &&& at < end <= items.len()
            &&& node.span() == span_at(items, at as int).cover(span_at(items, end - 1))
            &&& node.spans_nested()
        },
{
    lemma_statement(items, at);
}

/// Every statement that a body makes spans exactly the tokens it was made
/// of. A run of raw text has the span of its token. A printed expression
/// runs from the start of `{{` to the end of `}}`. A statement in a tag
/// runs from the start of its keyword to the end of the token that the
/// statement used last; the `{%` before and the `%}` behind belong to the
/// body around it.
pub proof fn law_body_nodes_span_their_tokens(
    items: Seq<LexItemView>,
    at: nat,
    term: Terminator,
)
    requires
        spans_ordered(items),
    ensures
        body(items, at, term, Seq::empty()).result matches Ok(list) ==> forall|i: int|
            0 <= i < list.len() ==> made_within(
                items,
                at,
                at + body(items, at, term, Seq::empty()).used,
                #[trigger] list[i],
            ),
{
    lemma_body_pieces(items, at, term, Seq::empty());
}

/// The root of a template spans all that was read: it runs from the start
/// of the first token to the end of the last, and each of its children
/// spans exactly the tokens it was made of. Of an input without tokens the
/// root has no children.
pub proof fn law_template_span_covers_its_tokens(items: Seq<LexItemView>, at: nat)
    requires
        spans_ordered(items),
    ensures
        template(items, at).result matches Ok(root) ==> {
            let used = template(items, at).used;
            &&& root is Template
            &&& used == 0 ==> root->Template_children.len() == 0
            &&& used > 0 ==> {
                &&& is_token(items, at as int)
                &&& is_token(items, at + used - 1)
                &&& root.span() == span_at(items, at as int).cover(span_at(items, at + used - 1))
            }
            &&& forall|i: int|
                0 <= i < root->Template_children.len() ==> made_within(
                    items,
                    at,
                    at + used,
                    #[trigger] root->Template_children[i],
                )
        },
{
    lemma_template(items, at);
    lemma_body_pieces(items, at, Terminator::Never, Seq::empty());
    let inner = body(items, at, Terminator::Never, Seq::empty());
    if inner.result is Ok && inner.used == 0 {
        assert(inner.result->Ok_0 =~= Seq::<StmtView>::empty());
    }
}

/// The `if` that an `elif` opens is a statement of its own: it spans from
/// the start of the `elif` to the end of the token it uses last, which is
/// also where the `if` around it ends.
pub proof fn law_elif_spans_from_its_keyword(
    items: Seq<LexItemView>,
    at: nat,
    start: Span,
    expr: ExprView,
    true_body: Seq<StmtView>,
)
    requires
        spans_ordered(items),
        take(items, at).result matches Ok(Some((token, _))) && token.is_word("elif"@),
    ensures
        if_rest(items, at, start, expr, true_body).result matches Ok(node) ==> {
            let end = at + if_rest(items, at, start, expr, true_body).used;
            &&& node is IfCond
            &&& node->IfCond_false_body.len() == 1
            &&& at < end <= items.len()
            &&& node->IfCond_false_body[0].span() == span_at(items, at as int).cover(
                span_at(items, end - 1),
            )
            &&& node.span() == start.cover(span_at(items, end - 1))
        },
{
    reveal_strlit("else");
    reveal_strlit("elif");
    assert("else"@[2] != "elif"@[2]);
    lemma_if_cond(items, at, at + 1);
    let span = take(items, at).result->Ok_0->Some_0.1;
    let nested = if_cond(items, at + 1, span);
    if nested.result is Ok {
        assert(last_span(items, at + 1 + nested.used) == span_at(items, at + 1 + nested.used - 1));
    }
}

/// Parsing the same template twice gives the same tree, or the same
/// failure: what `parse` hands back is determined by its arguments.
pub proof fn law_reparsing_a_template(
    source: &str,
    filename: &str,
    first: Result<Stmt, Error>,
    second: Result<Stmt, Error>,
)
    requires
        stmt_result(first) == parse_template(source@, filename@),
        stmt_result(second) == parse_template(source@, filename@),
    ensures
        stmt_result(first) == stmt_result(second),
        first is Ok <==> second is Ok,
        first matches Ok(a) ==> a@ == second->Ok_0@,
{
}

/// Parsing the same expression twice gives the same tree, or the same
/// failure: what `parse_expr` hands back is determined by its argument.
pub proof fn law_reparsing_an_expression(
    source: &str,
    first: Result<Expr, Error>,
    second: Result<Expr, Error>,
)
    requires
        expr_result(first) == parse_expression(source@),
        expr_result(second) == parse_expression(source@),
    ensures
        expr_result(first) == expr_result(second),
        first is Ok <==> second is Ok,
        first matches Ok(a) ==> a@ == second->Ok_0@,
{
}

/// A body stops in front of the keyword that ends it. Where a body was
/// read and input is left, the `{%` of the closing tag was used last and
/// the keyword, which belongs to the statement around the body, comes next.
#[verifier::rlimit(30)]
pub proof fn law_body_stops_at_its_keyword(
    items: Seq<LexItemView>,
    at: nat,
    term: Terminator,
    acc: Seq<StmtView>,
)
    ensures
        body(items, at, term, acc).result is Ok ==> {
            let end = at + body(items, at, term, acc).used;
            ||| end >= items.len()
            ||| {
                &&& end >= 1
                &&& items[end - 1] matches Ok((opener, _)) && opener is BlockStart
                &&& items[end as int] matches Ok((keyword, _)) && term.ends(keyword)
            }
        },
    decreases remaining(items, at),
{
    match take(items, at).result {
        Ok(Some((token, span))) => match token {
            TokenView::TemplateData(raw) => {
                law_body_stops_at_its_keyword(
                    items,
                    at + 1,
                    term,
                    acc.push(StmtView::EmitRaw { raw, span }),
                );
            },
            TokenView::VariableStart(_) => {
                let inner = expression(items, at + 1);
                match inner.result {
                    Ok(expr) => {
                        let close = expect(items, at + 1 + inner.used, Expect::VariableEnd);
                        if close.result is Ok {
                            law_body_stops_at_its_keyword(
                                items,
                                at + 1 + inner.used + 1,
                                term,
                                acc.push(
                                    StmtView::EmitExpr {
                                        expr,
                                        span: span.cover(
                                            last_span(items, at + 1 + inner.used + 1),
                                        ),
                                    },
                                ),
                            );
                        }
                    },
                    Err(_) => {},
                }
            },
            TokenView::BlockStart(_) => {
                let next = peek(items, at + 1).result;
                if next matches Ok(Some((keyword, _))) && !term.ends(keyword) {
                    let inner = statement(items, at + 1);
                    match inner.result {
                        Ok(node) => {
                            let close = expect(items, at + 1 + inner.used, Expect::BlockEnd);
                            if close.result is Ok {
                                law_body_stops_at_its_keyword(
                                    items,
                                    at + 1 + inner.used + 1,
                                    term,
                                    acc.push(node),
                                );
                            }
                        },
                        Err(_) => {},
                    }
                }
            },
            _ => {},
        },
        _ => {},
    }
}

/// A template is read to the end of its input: where it parses, nothing is left.
pub proof fn law_template_uses_all_input(items: Seq<LexItemView>, at: nat)
    ensures
        template(items, at).result is Ok ==> at + template(items, at).used >= items.len(),
{
    law_body_stops_at_its_keyword(items, at, Terminator::Never, Seq::empty());
}

/// An expression depends on the items it uses and on the one item behind
/// them that it looks at. In every input that is the same that far, it
/// gives the same tree, or the same failure, and uses the same items.
pub proof fn law_expression_reads_no_further(
    a: Seq<LexItemView>,
    b: Seq<LexItemView>,
    at: nat,
)
    requires
        same_prefix(a, b, at + expression(a, at).used + 1),
    ensures
        expression(b, at) == expression(a, at),
{
    lemma_local_expr_at(Level::Or, a, b, at);
}

/// A statement depends on the items it uses and on the one item behind
/// them that it looks at. In every input that is the same that far, it
/// gives the same tree, or the same failure, and uses the same items.
pub proof fn law_statement_reads_no_further(a: Seq<LexItemView>, b: Seq<LexItemView>, at: nat)
    requires
        same_prefix(a, b, at + statement(a, at).used + 1),
    ensures
        statement(b, at) == statement(a, at),
{
    lemma_local_statement(a, b, at);
}

/// A body depends on the items it uses and on the one item behind them
/// that it looks at: the keyword that ends it.
pub proof fn law_body_reads_no_further(
    a: Seq<LexItemView>,
    b: Seq<LexItemView>,
    at: nat,
    term: Terminator,
)
    requires
        same_prefix(a, b, at + body(a, at, term, Seq::empty()).used + 1),
    ensures
        body(b, at, term, Seq::empty()) == body(a, at, term, Seq::empty()),
{
    lemma_local_body(a, b, at, term, Seq::empty());
}

/// No reserved name is ever the target of an assignment.
pub proof fn law_targets_are_not_reserved(items: Seq<LexItemView>, at: nat)
    ensures
        assign_target(items, at).result matches Ok(name) ==> !is_reserved(name),
{
}

/// An `if` that is closed without `else` or `elif` has no false branch,
/// and one that goes on with `elif` has a single `if` as its false branch.
pub proof fn law_false_branch_of_if(
    items: Seq<LexItemView>,
    at: nat,
    start: Span,
    expr: ExprView,
    true_body: Seq<StmtView>,
)
    ensures
        if_rest(items, at, start, expr, true_body).result matches Ok(node) ==> {
            let next = take(items, at).result;
            let goes_on = next matches Ok(Some((token, _))) && token.is_word("elif"@);
            let turns = next matches Ok(Some((token, _))) && token.is_word("else"@);
            &&& node is IfCond
            &&& !goes_on && !turns ==> node->IfCond_false_body.len() == 0
            &&& goes_on && !turns ==> node->IfCond_false_body.len() == 1
                && node->IfCond_false_body[0] is IfCond
        },
    decreases remaining(items, at),
{
    let next = take(items, at).result;
    if next matches Ok(Some((token, span))) && token.is_word("elif"@) && !token.is_word("else"@) {
        let span = next->Ok_0->Some_0.1;
        let nested = if_cond(items, at + 1, span);
        let cond = expression(items, at + 1);
        if cond.result is Ok {
            let open = expect(items, at + 1 + cond.used, Expect::BlockEnd);
            if open.result is Ok {
                let first = at + 1 + cond.used + 1;
                let yes = body(items, first, Terminator::Branch, Seq::empty());
                if yes.result is Ok {
                    let rest = if_rest(
                        items,
                        first + yes.used,
                        span,
                        cond.result->Ok_0,
                        yes.result->Ok_0,
                    );
                    law_false_branch_of_if(
                        items,
                        first + yes.used,
                        span,
                        cond.result->Ok_0,
                        yes.result->Ok_0,
                    );
                }
            }
        }
        assert(nested.result matches Ok(inner) ==> inner is IfCond);
    }
}

/// An expression does not know what lies before it: at the same place of
/// a sequence that has more items in front, it gives the same tree, or the
/// same failure, and uses as many items.
pub proof fn law_expression_ignores_what_is_before(
    before: Seq<LexItemView>,
    items: Seq<LexItemView>,
    at: nat,
)
    requires
        spans_ordered(items),
    ensures
        expression(before + items, before.len() + at) == expression(items, at),
{
    lemma_join_is_shift(before, items);
    lemma_shift_expr_at(Level::Or, before + items, before.len(), items, before.len() + at, at);
}

/// A body does not know what lies before it: at the same place of a
/// sequence that has more items in front, it gives the same statements, or
/// the same failure, and uses as many items.
pub proof fn law_body_ignores_what_is_before(
    before: Seq<LexItemView>,
    items: Seq<LexItemView>,
    at: nat,
    term: Terminator,
)
    requires
        spans_ordered(items),
    ensures
        body(before + items, before.len() + at, term, Seq::empty()) == body(
            items,
            at,
            term,
            Seq::empty(),
        ),
{
    lemma_join_is_shift(before, items);
    lemma_shift_body(
        before + items,
        before.len(),
        items,
        before.len() + at,
        at,
        term,
        Seq::empty(),
    );
}

/// Two templates, one behind the other, parse as each does alone. Where
/// the tokens `a` are a template and the tokens `b` are one, the tokens of
/// both in this order are a template too: it has the statements of the
/// first, as they are, and then those of the second, as they are, and uses
/// all items of both.
pub proof fn law_template_of_joined_tokens(a: Seq<LexItemView>, b: Seq<LexItemView>)
    requires
        spans_ordered(a),
        spans_ordered(b),
        template(a, 0).result is Ok,
        template(b, 0).result is Ok,
    ensures
        template(a + b, 0).result matches Ok(root) && root is Template
            && root->Template_children == template(a, 0).result->Ok_0->Template_children
            + template(b, 0).result->Ok_0->Template_children,
        template(a + b, 0).used == template(a, 0).used + template(b, 0).used,
        template(a, 0).used == a.len(),
        template(b, 0).used == b.len(),
{
    let never = Terminator::Never;
    let first = body(a, 0, never, Seq::empty());
    let second = body(b, 0, never, Seq::empty());
    law_body_stops_at_its_keyword(a, 0, never, Seq::empty());
    law_body_stops_at_its_keyword(b, 0, never, Seq::empty());
    lemma_body_ends(a, 0, never);
    lemma_body_ends(b, 0, never);
    assert(first.used == a.len());
    assert(second.used == b.len());
    if a.len() == 0 {
        assert(a + b =~= b);
        assert(first.result->Ok_0 =~= Seq::<StmtView>::empty());
        assert(first.result->Ok_0 + second.result->Ok_0 =~= second.result->Ok_0);
    } else {
        assert((a + b)[0] == a[0]);
        lemma_body_join(a, b, 0, Seq::empty());
        lemma_join_is_shift(a, b);
        lemma_shift_body(a + b, a.len(), b, a.len(), 0, never, first.result->Ok_0);
        lemma_body_acc(b, 0, never, first.result->Ok_0);
        assert(
            body(a + b, a.len(), never, first.result->Ok_0) == behind(first.result->Ok_0, second)
        );
    }
}

} // verus!
