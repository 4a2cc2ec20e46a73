//! The parser: a token stream with one token of lookahead, and the
//! recursive-descent parser that builds the syntax tree from it.

use crate::ast::{
    bindings_view, exprs_view, lemma_bindings_view_push, lemma_exprs_view_push,
    lemma_stmts_view_push, lemma_views_empty, stmts_view, Expr, ExprView, Stmt, StmtView,
    UnaryOpKind,
};
use crate::error::{Error, ErrorView};
use crate::grammar::{
    args, assign_target, auto_escape, bindings, block, body, enclosed, entries, expect,
    expect_ident, expr_at, expression, extends, fail, filters, first_span, fold, for_loop,
    if_cond, if_rest, last_span, lemma_failure_ends_expression, name_expr, optional_args,
    parse_expression, parse_template, peek, postfix, prefix, primary, remaining, reserved_name,
    sequence, statement, take, template, then, with_block, Expect, Level, Parsed, Terminator,
};
use crate::laws::law_body_stops_at_its_keyword;
use crate::lexer::{tokenize, LexState, Lexer};
use crate::spans::{lemma_expr_at, lemma_template, lemma_tokens_ordered, spans_ordered};
use crate::text::str_eq;
use crate::tokens::{item_view, LexItem, LexItemView, Span, Token, TokenView};
use crate::value::Value;
use vstd::prelude::*;

verus! {

/// The tokens of one source text, handed out one by one, with one token of
/// lookahead. The tokenizer is asked for a token only when one is needed.
pub struct TokenStream {
    lexer: Lexer,
    in_expr: bool,
    /// The token that was looked at and not yet handed out.
    current: Option<LexItem>,
    /// The span of the token handed out last.
    current_span: Span,
    /// How many items were handed out.
    taken: Ghost<nat>,
}

/// What `next` gave, as mathematical content.
pub open spec fn taken_view(r: Result<Option<(Token, Span)>, Error>) -> Result<
    Option<(TokenView, Span)>,
    ErrorView,
> {
    match r {
        Ok(Some((token, span))) => Ok(Some((token@, span))),
        Ok(None) => Ok(None),
        Err(e) => Err(e@),
    }
}

/// What `current` gave, as mathematical content.
pub open spec fn peeked_view(r: Result<Option<(&Token, Span)>, Error>) -> Result<
    Option<(TokenView, Span)>,
    ErrorView,
> {
    match r {
        Ok(Some((token, span))) => Ok(Some((token@, span))),
        Ok(None) => Ok(None),
        Err(e) => Err(e@),
    }
}

impl TokenStream {
    /// Everything the tokenizer yields for the source, from its start.
    #[verifier::opaque]
    pub closed spec fn items(&self) -> Seq<LexItemView> {
        tokenize(self.lexer.src@, self.in_expr)
    }

    /// How many items were handed out.
    pub closed spec fn pos(&self) -> nat {
        self.taken@
    }

    /// How many items were taken from the tokenizer and not yet handed
    /// out: one where a token was looked at, else none.
    pub closed spec fn ahead(&self) -> nat {
        if self.current is Some {
            1
        } else {
            0
        }
    }

    /// What the tokenizer has not been asked for yet.
    pub closed spec fn unread(&self) -> Seq<LexItemView> {
        self.lexer.remaining()
    }

    /// What the lookahead slot and the tokenizer still hold.
    #[verifier::opaque]
    spec fn pending(&self) -> Seq<LexItemView> {
        match self.current {
            Some(item) => seq![item_view(item)] + self.lexer.remaining(),
            None => self.lexer.remaining(),
        }
    }

    /// The stream stands at a position of its item sequence.
    #[verifier::opaque]
    pub closed spec fn wf(&self) -> bool {
        &&& self.lexer.wf()
        &&& self.taken@ <= self.items().len()
        &&& self.pending() == self.items().skip(self.taken@ as int)
        &&& self.current_span == last_span(self.items(), self.taken@)
        &&& spans_ordered(self.items())
    }

    /// This stream is `before` after `used` more items were handed out.
    pub open spec fn advanced(&self, before: &TokenStream, used: nat) -> bool {
        &&& self.wf()
        &&& self.items() == before.items()
        &&& self.pos() == before.pos() + used
    }

    /// A well-formed stream stands within its items, and the tokens among
    /// them follow one another in the source.
    pub proof fn lemma_pos_in_range(&self)
        requires
            self.wf(),
        ensures
            self.pos() <= self.items().len(),
            spans_ordered(self.items()),
    {
        reveal(TokenStream::wf);
    }

    /// The tokenizer is never more than one item ahead of what was handed
    /// out: it has yet to give what follows that item.
    pub proof fn lemma_one_item_ahead(&self)
        requires
            self.wf(),
        ensures
            self.ahead() <= 1,
            self.pos() + self.ahead() <= self.items().len(),
            self.unread() == self.items().skip((self.pos() + self.ahead()) as int),
    {
        reveal(TokenStream::wf);
        reveal(TokenStream::pending);
        let items = self.items();
        let at = self.taken@ as int;
        if self.current is Some {
            assert(self.pending()[0] == item_view(self.current->Some_0));
            assert(items.skip(at).len() > 0);
            assert(self.pending().skip(1) =~= self.lexer.remaining());
            assert(items.skip(at).skip(1) =~= items.skip(at + 1));
        }
    }

    /// Tokenize a template, or an expression where `in_expr` is set.
    /// Nothing is read before the first token is asked for.
    pub fn new(source: &str, in_expr: bool) -> (stream: TokenStream)
        ensures
            stream.wf(),
            stream.items() == tokenize(source@, in_expr),
            stream.pos() == 0,
            stream.ahead() == 0,
    {
        reveal(TokenStream::wf);
        reveal(TokenStream::items);
        reveal(TokenStream::pending);
        let lexer = Lexer::new(source, in_expr);
        proof {
            lemma_tokens_ordered(source@, LexState::start(in_expr));
        }
        let stream = TokenStream {
            lexer,
            in_expr,
            current: None,
            current_span: Span::default(),
            taken: Ghost(0),
        };
        assert(stream.pending() =~= stream.items().skip(0));
        stream
    }

    /// Fills the lookahead slot where it is empty and something is left.
    fn fill(&mut self)
        requires
            old(self).wf(),
        ensures
            final(self).advanced(old(self), 0),
            final(self).current is None ==> final(self).pos() >= final(self).items().len(),
            final(self).current matches Some(item) ==> final(self).pos() < final(self).items().len()
                && final(self).items()[final(self).pos() as int] == item_view(item),
            old(self).current is Some ==> final(self).lexer == old(self).lexer,
    {
        reveal(TokenStream::wf);
        reveal(TokenStream::items);
        reveal(TokenStream::pending);
        if self.current.is_none() {
            self.current = self.lexer.next_token();
        }
        proof {
            let items = self.items();
            let at = self.taken@ as int;
            assert(self.pending() == items.skip(at));
            if self.current is Some {
                assert(self.pending()[0] == item_view(self.current->Some_0));
                assert(items.skip(at).len() > 0);
            } else {
                assert(items.skip(at).len() == 0);
            }
        }
    }

    /// Advance the stream: the next token with its span, or `None` at the
    /// end of the input. A failure of the tokenizer is handed on. No token
    /// is read ahead.
    pub fn next(&mut self) -> (r: Result<Option<(Token, Span)>, Error>)
        requires
            old(self).wf(),
        ensures
            final(self).advanced(old(self), take(old(self).items(), old(self).pos()).used),
            taken_view(r) == take(old(self).items(), old(self).pos()).result,
            final(self).ahead() == 0,
    {
        reveal(TokenStream::wf);
        reveal(TokenStream::items);
        reveal(TokenStream::pending);
        self.fill();
        let ghost items = self.items();
        let ghost at = self.taken@;
        let item = self.current.take();
        proof {
            if item is Some {
                assert(items.skip(at as int).skip(1) =~= items.skip(at as int + 1));
                assert((seq![item_view(item->Some_0)] + self.lexer.remaining()).skip(1)
                    =~= self.lexer.remaining());
            }
        }
        match item {
            None => Ok(None),
            Some(Ok((token, span))) => {
                self.current_span = span;
                self.taken = Ghost((at + 1) as nat);
                Ok(Some((token, span)))
            },
            Some(Err(e)) => {
                self.taken = Ghost((at + 1) as nat);
                Err(e)
            },
        }
    }

    /// Look at the current token without advancing. The token is read
    /// from the tokenizer the first time and kept for the next call. A
    /// failure of the tokenizer is handed on, once.
    pub fn current(&mut self) -> (r: Result<Option<(&Token, Span)>, Error>)
        requires
            old(self).wf(),
        ensures
            final(self).advanced(old(self), peek(old(self).items(), old(self).pos()).used),
            peeked_view(r) == peek(old(self).items(), old(self).pos()).result,
            final(self).ahead() == (if r matches Ok(Some(_)) {
                1nat
            } else {
                0nat
            }),
            old(self).ahead() == 1 ==> final(self).unread() == old(self).unread(),
    {
        reveal(TokenStream::wf);
        reveal(TokenStream::items);
        reveal(TokenStream::pending);
        self.fill();
        let ghost items = self.items();
        let ghost at = self.taken@;
        let failed = match &self.current {
            Some(Err(_)) => true,
            _ => false,
        };
        if failed {
            let item = self.current.take();
            proof {
                assert(items.skip(at as int).skip(1) =~= items.skip(at as int + 1));
                assert((seq![item_view(item->Some_0)] + self.lexer.remaining()).skip(1)
                    =~= self.lexer.remaining());
            }
            self.taken = Ghost((at + 1) as nat);
            return match item {
                Some(Err(e)) => Err(e),
                _ => Ok(None),
            };
        }
        match &self.current {
            Some(Ok((token, span))) => Ok(Some((token, *span))),
            _ => Ok(None),
        }
    }

    /// The span from the start of `span` to the end of the token handed out last.
    pub fn expand_span(&self, span: Span) -> (r: Span)
        requires
            self.wf(),
        ensures
            r == span.cover(last_span(self.items(), self.pos())),
    {
        reveal(TokenStream::wf);
        span.extend_to(self.current_span)
    }

    /// The span of the token handed out last.
    pub fn current_span(&self) -> (r: Span)
        requires
            self.wf(),
        ensures
            r == last_span(self.items(), self.pos()),
    {
        reveal(TokenStream::wf);
        self.current_span
    }
}

/// The parser over one source text.
pub struct Parser<'a> {
    filename: &'a str,
    stream: TokenStream,
}

/// A span or a failure, as mathematical content.
pub open spec fn span_result(r: Result<Span, Error>) -> Result<Span, ErrorView> {
    match r {
        Ok(span) => Ok(span),
        Err(e) => Err(e@),
    }
}

/// A name or a failure, as mathematical content.
pub open spec fn name_result(r: Result<String, Error>) -> Result<Seq<char>, ErrorView> {
    match r {
        Ok(name) => Ok(name@),
        Err(e) => Err(e@),
    }
}

/// An expression or a failure, as mathematical content.
pub open spec fn expr_result(r: Result<Expr, Error>) -> Result<ExprView, ErrorView> {
    match r {
        Ok(expr) => Ok(expr@),
        Err(e) => Err(e@),
    }
}

/// Expressions or a failure, as mathematical content.
pub open spec fn exprs_result(r: Result<Vec<Expr>, Error>) -> Result<Seq<ExprView>, ErrorView> {
    match r {
        Ok(list) => Ok(exprs_view(list@)),
        Err(e) => Err(e@),
    }
}

/// Keys and values or a failure, as mathematical content.
pub open spec fn entries_result(r: Result<(Vec<Expr>, Vec<Expr>), Error>) -> Result<
    (Seq<ExprView>, Seq<ExprView>),
    ErrorView,
> {
    match r {
        Ok((keys, values)) => Ok((exprs_view(keys@), exprs_view(values@))),
        Err(e) => Err(e@),
    }
}

/// A statement or a failure, as mathematical content.
pub open spec fn stmt_result(r: Result<Stmt, Error>) -> Result<StmtView, ErrorView> {
    match r {
        Ok(stmt) => Ok(stmt@),
        Err(e) => Err(e@),
    }
}

/// Statements or a failure, as mathematical content.
pub open spec fn stmts_result(r: Result<Vec<Stmt>, Error>) -> Result<Seq<StmtView>, ErrorView> {
    match r {
        Ok(list) => Ok(stmts_view(list@)),
        Err(e) => Err(e@),
    }
}

/// Bindings or a failure, as mathematical content.
pub open spec fn bindings_result(r: Result<Vec<(String, Expr)>, Error>) -> Result<
    Seq<(Seq<char>, ExprView)>,
    ErrorView,
> {
    match r {
        Ok(list) => Ok(bindings_view(list@)),
        Err(e) => Err(e@),
    }
}

/// What may be applied to an operand.
enum Suffix {
    Attr,
    Item,
    Call,
    Filter,
    Test,
    Nothing,
}

impl<'a> Parser<'a> {
    /// Everything the tokenizer yields for the source, from its start.
    pub closed spec fn items(&self) -> Seq<LexItemView> {
        self.stream.items()
    }

    /// How many items were used up.
    pub closed spec fn pos(&self) -> nat {
        self.stream.pos()
    }

    /// The name of the file that failures are reported in.
    pub closed spec fn name(&self) -> Seq<char> {
        self.filename@
    }

    /// The parser stands at a position of its item sequence.
    pub closed spec fn wf(&self) -> bool {
        self.stream.wf()
    }

    /// This parser is `before` after `used` more items were used up.
    pub open spec fn advanced(&self, before: &Parser<'a>, used: nat) -> bool {
        &&& self.wf()
        &&& self.items() == before.items()
        &&& self.name() == before.name()
        &&& self.pos() == before.pos() + used
    }

    /// This parser is `before` after the production with the outcome `out`
    /// ran, and `r` is what the production gave.
    pub open spec fn produced<T>(
        &self,
        before: &Parser<'a>,
        r: Result<T, ErrorView>,
        out: Parsed<T>,
    ) -> bool {
        self.advanced(before, out.used) && r == out.result
    }

    /// A parser at the start of `source`, which is a template, or an
    /// expression where `in_expr` is set.
    pub fn new(source: &str, filename: &'a str, in_expr: bool) -> (parser: Parser<'a>)
        ensures
            parser.wf(),
            parser.items() == tokenize(source@, in_expr),
            parser.pos() == 0,
            parser.name() == filename@,
    {
        Parser { filename, stream: TokenStream::new(source, in_expr) }
    }

    /// The span of the token used last.
    pub fn last_span(&self) -> (r: Span)
        requires
            self.wf(),
        ensures
            r == last_span(self.items(), self.pos()),
    {
        self.stream.current_span()
    }

    /// Uses up the next token, which must be of the kind `what`.
    fn expect(&mut self, what: Expect) -> (r: Result<Span, Error>)
        requires
            old(self).wf(),
        ensures
            final(self).produced(
                old(self),
                span_result(r),
                expect(old(self).items(), old(self).pos(), what),
            ),
    {
        match self.stream.next() {
            Err(e) => Err(e),
            Ok(None) => Err(Error::unexpected_end(what.name())),
            Ok(Some((token, span))) => if what.admits(&token) {
                Ok(span)
            } else {
                Err(Error::unexpected(token.describe(), what.name()))
            },
        }
    }

    /// Uses up the next token, which must be an identifier.
    fn expect_ident(&mut self) -> (r: Result<String, Error>)
        requires
            old(self).wf(),
        ensures
            final(self).produced(
                old(self),
                name_result(r),
                expect_ident(old(self).items(), old(self).pos()),
            ),
    {
        match self.stream.next() {
            Err(e) => Err(e),
            Ok(None) => Err(Error::unexpected_end("identifier")),
            Ok(Some((token, _))) => match token {
                Token::Ident(name) => Ok(name),
                other => Err(Error::unexpected(other.describe(), "identifier")),
            },
        }
    }

    /// The span of the token that comes next; the span of the token used
    /// last at the end of the input.
    fn start_span(&mut self) -> (r: Result<Span, Error>)
        requires
            old(self).wf(),
        ensures
            final(self).advanced(old(self), peek(old(self).items(), old(self).pos()).used),
            match peek(old(self).items(), old(self).pos()).result {
                Ok(_) => r == Ok::<Span, Error>(first_span(old(self).items(), old(self).pos())),
                Err(e) => r matches Err(err) && err@ == e,
            },
    {
        match self.stream.current() {
            Err(e) => Err(e),
            Ok(Some((_, span))) => Ok(span),
            Ok(None) => Ok(self.stream.current_span()),
        }
    }

    /// Uses up the token that was just looked at.
    fn skip(&mut self)
        requires
            old(self).wf(),
            peek(old(self).items(), old(self).pos()).result matches Ok(Some(_)),
        ensures
            final(self).advanced(old(self), 1),
    {
        let _ = self.stream.next();
    }

    fn parse_level(&mut self, level: Level) -> (r: Result<Expr, Error>)
        requires
            old(self).wf(),
        ensures
            final(self).produced(
                old(self),
                expr_result(r),
                expr_at(level, old(self).items(), old(self).pos()),
            ),
        decreases remaining(old(self).items(), old(self).pos()), 14 + 3 * level.height(),
    {
        match level {
            Level::Or => self.parse_or(),
            Level::And => self.parse_and(),
            Level::Not => self.parse_not(),
            Level::Compare => self.parse_compare(),
            Level::Additive => self.parse_math1(),
            Level::Concat => self.parse_concat(),
            Level::Multiplicative => self.parse_math2(),
            Level::Power => self.parse_pow(),
            Level::Unary => self.parse_unary(),
        }
    }

    /// The operands of one level with its infix operators between them,
    /// folded to the left.
    #[verifier::rlimit(30)]
    #[verifier::loop_isolation(false)]
    fn parse_binary(&mut self, level: Level) -> (r: Result<Expr, Error>)
        requires
            old(self).wf(),
            level != Level::Not,
            level != Level::Unary,
        ensures
            final(self).produced(
                old(self),
                expr_result(r),
                expr_at(level, old(self).items(), old(self).pos()),
            ),
        decreases remaining(old(self).items(), old(self).pos()), 12 + 3 * level.height(),
    {
        let ghost items = self.items();
        let ghost at = self.pos();
        let ghost goal = expr_at(level, items, at);
        let start = match self.start_span() {
            Ok(span) => span,
            Err(e) => {
                proof {
                    lemma_failure_ends_expression(level, items, at);
                }
                return Err(e);
            },
        };
        let mut left = match self.parse_level(level.next_tighter()) {
            Ok(expr) => expr,
            Err(e) => {
                return Err(e);
            },
        };
        loop
            invariant
                self.wf(),
                self.items() == items,
                self.name() == old(self).name(),
                self.pos() >= at,
                level != Level::Not,
                level != Level::Unary,
                then((self.pos() - at) as nat, fold(level, items, self.pos(), start, left@))
                    == goal,
            decreases remaining(items, self.pos()),
        {
            let found = match self.stream.current() {
                Err(e) => {
                    return Err(e);
                },
                Ok(Some((token, _))) => level.operator_of(token),
                Ok(None) => None,
            };
            let op = match found {
                Some(op) => op,
                None => {
                    return Ok(left);
                },
            };
            self.skip();
            let right = match self.parse_level(level.next_tighter()) {
                Ok(expr) => expr,
                Err(e) => {
                    return Err(e);
                },
            };
            let span = self.stream.expand_span(start);
            left = Expr::BinOp { op, left: Box::new(left), right: Box::new(right), span };
        }
    }

    fn parse_or(&mut self) -> (r: Result<Expr, Error>)
        requires
            old(self).wf(),
        ensures
            final(self).produced(
                old(self),
                expr_result(r),
                expr_at(Level::Or, old(self).items(), old(self).pos()),
            ),
        decreases remaining(old(self).items(), old(self).pos()), 37nat,
    {
        self.parse_binary(Level::Or)
    }

    fn parse_and(&mut self) -> (r: Result<Expr, Error>)
        requires
            old(self).wf(),
        ensures
            final(self).produced(
                old(self),
                expr_result(r),
                expr_at(Level::And, old(self).items(), old(self).pos()),
            ),
        decreases remaining(old(self).items(), old(self).pos()), 34nat,
    {
        self.parse_binary(Level::And)
    }

    fn parse_not(&mut self) -> (r: Result<Expr, Error>)
        requires
            old(self).wf(),
        ensures
            final(self).produced(
                old(self),
                expr_result(r),
                expr_at(Level::Not, old(self).items(), old(self).pos()),
            ),
        decreases remaining(old(self).items(), old(self).pos()), 31nat,
    {
        let ghost items = self.items();
        let ghost at = self.pos();
        let found = match self.stream.current() {
            Err(e) => {
                proof {
                    lemma_failure_ends_expression(Level::Not, items, at);
                }
                return Err(e);
            },
            Ok(Some((token, span))) => if token.is_word("not") {
                Some(span)
            } else {
                None
            },
            Ok(None) => None,
        };
        match found {
            Some(start) => {
                self.skip();
                match self.parse_not() {
                    Ok(expr) => Ok(
                        Expr::UnaryOp {
                            op: UnaryOpKind::Not,
                            expr: Box::new(expr),
                            span: self.stream.expand_span(start),
                        },
                    ),
                    Err(e) => Err(e),
                }
            },
            None => self.parse_level(Level::Compare),
        }
    }

    fn parse_compare(&mut self) -> (r: Result<Expr, Error>)
        requires
            old(self).wf(),
        ensures
            final(self).produced(
                old(self),
                expr_result(r),
                expr_at(Level::Compare, old(self).items(), old(self).pos()),
            ),
        decreases remaining(old(self).items(), old(self).pos()), 28nat,
    {
        self.parse_binary(Level::Compare)
    }

    fn parse_math1(&mut self) -> (r: Result<Expr, Error>)
        requires
            old(self).wf(),
        ensures
            final(self).produced(
                old(self),
                expr_result(r),
                expr_at(Level::Additive, old(self).items(), old(self).pos()),
            ),
        decreases remaining(old(self).items(), old(self).pos()), 25nat,
    {
        self.parse_binary(Level::Additive)
    }

    fn parse_concat(&mut self) -> (r: Result<Expr, Error>)
        requires
            old(self).wf(),
        ensures
            final(self).produced(
                old(self),
                expr_result(r),
                expr_at(Level::Concat, old(self).items(), old(self).pos()),
            ),
        decreases remaining(old(self).items(), old(self).pos()), 22nat,
    {
        self.parse_binary(Level::Concat)
    }

    fn parse_math2(&mut self) -> (r: Result<Expr, Error>)
        requires
            old(self).wf(),
        ensures
            final(self).produced(
                old(self),
                expr_result(r),
                expr_at(Level::Multiplicative, old(self).items(), old(self).pos()),
            ),
        decreases remaining(old(self).items(), old(self).pos()), 19nat,
    {
        self.parse_binary(Level::Multiplicative)
    }

    fn parse_pow(&mut self) -> (r: Result<Expr, Error>)
        requires
            old(self).wf(),
        ensures
            final(self).produced(
                old(self),
                expr_result(r),
                expr_at(Level::Power, old(self).items(), old(self).pos()),
            ),
        decreases remaining(old(self).items(), old(self).pos()), 16nat,
    {
        self.parse_binary(Level::Power)
    }

    /// Any number of `-` signs and the operand they are applied to: a
    /// primary with the attribute look-ups, subscripts and calls behind it.
    fn parse_unary_only(&mut self) -> (r: Result<Expr, Error>)
        requires
            old(self).wf(),
        ensures
            final(self).produced(
                old(self),
                expr_result(r),
                prefix(old(self).items(), old(self).pos()),
            ),
        decreases remaining(old(self).items(), old(self).pos()), 11nat,
    {
        let ghost items = self.items();
        let ghost at = self.pos();
        let (minus, start) = match self.stream.current() {
            Err(e) => {
                // A primary is what fails here: nothing but `-` comes before it.
                assert(primary(items, at) == fail::<ExprView>(e@, 1));
                return Err(e);
            },
            Ok(Some((token, span))) => (matches!(token, Token::Minus), span),
            Ok(None) => (false, self.stream.current_span()),
        };
        if minus {
            self.skip();
            match self.parse_unary_only() {
                Ok(expr) => Ok(
                    Expr::UnaryOp {
                        op: UnaryOpKind::Neg,
                        expr: Box::new(expr),
                        span: self.stream.expand_span(start),
                    },
                ),
                Err(e) => Err(e),
            }
        } else {
            let base = match self.parse_primary() {
                Ok(expr) => expr,
                Err(e) => {
                    return Err(e);
                },
            };
            self.parse_postfix(base, start)
        }
    }

    /// A signed operand and the filters and tests applied to it.
    fn parse_unary(&mut self) -> (r: Result<Expr, Error>)
        requires
            old(self).wf(),
        ensures
            final(self).produced(
                old(self),
                expr_result(r),
                expr_at(Level::Unary, old(self).items(), old(self).pos()),
            ),
        decreases remaining(old(self).items(), old(self).pos()), 13nat,
    {
        let ghost items = self.items();
        let ghost at = self.pos();
        let start = match self.start_span() {
            Ok(span) => span,
            Err(e) => {
                proof {
                    lemma_failure_ends_expression(Level::Unary, items, at);
                }
                return Err(e);
            },
        };
        let base = match self.parse_unary_only() {
            Ok(expr) => expr,
            Err(e) => {
                return Err(e);
            },
        };
        self.parse_filter_expr(base, start)
    }

    #[verifier::rlimit(30)]
    #[verifier::loop_isolation(false)]
    fn parse_postfix(&mut self, expr: Expr, start: Span) -> (r: Result<Expr, Error>)
        requires
            old(self).wf(),
        ensures
            final(self).produced(
                old(self),
                expr_result(r),
                postfix(old(self).items(), old(self).pos(), start, expr@),
            ),
        decreases remaining(old(self).items(), old(self).pos()), 9nat,
    {
        let ghost items = self.items();
        let ghost at = self.pos();
        let ghost goal = postfix(items, at, start, expr@);
        let mut expr = expr;
        loop
            invariant
                self.wf(),
                self.items() == items,
                self.name() == old(self).name(),
                self.pos() >= at,
                then((self.pos() - at) as nat, postfix(items, self.pos(), start, expr@)) == goal,
            decreases remaining(items, self.pos()),
        {
            let suffix = match self.stream.current() {
                Err(e) => {
                    return Err(e);
                },
                Ok(Some((token, _))) => match token {
                    Token::Dot => Suffix::Attr,
                    Token::BracketOpen => Suffix::Item,
                    Token::ParenOpen => Suffix::Call,
                    _ => Suffix::Nothing,
                },
                Ok(None) => Suffix::Nothing,
            };
            match suffix {
                Suffix::Attr => {
                    self.skip();
                    let name = match self.expect_ident() {
                        Ok(name) => name,
                        Err(e) => {
                            return Err(e);
                        },
                    };
                    let span = self.stream.expand_span(start);
                    expr = Expr::GetAttr { name, expr: Box::new(expr), span };
                },
                Suffix::Item => {
                    self.skip();
                    let subscript_expr = match self.parse_expr() {
                        Ok(e) => e,
                        Err(e) => {
                            return Err(e);
                        },
                    };
                    match self.expect(Expect::BracketClose) {
                        Ok(_) => {},
                        Err(e) => {
                            return Err(e);
                        },
                    }
                    let span = self.stream.expand_span(start);
                    expr = Expr::GetItem {
                        expr: Box::new(expr),
                        subscript_expr: Box::new(subscript_expr),
                        span,
                    };
                },
                Suffix::Call => {
                    let args = match self.parse_args() {
                        Ok(list) => list,
                        Err(e) => {
                            return Err(e);
                        },
                    };
                    let span = self.stream.expand_span(start);
                    expr = Expr::Call { expr: Box::new(expr), args, span };
                },
                _ => {
                    return Ok(expr);
                },
            }
        }
    }

    #[verifier::rlimit(30)]
    #[verifier::loop_isolation(false)]
    fn parse_filter_expr(&mut self, expr: Expr, start: Span) -> (r: Result<Expr, Error>)
        requires
            old(self).wf(),
        ensures
            final(self).produced(
                old(self),
                expr_result(r),
                filters(old(self).items(), old(self).pos(), start, expr@),
            ),
        decreases remaining(old(self).items(), old(self).pos()), 8nat,
    {
        let ghost items = self.items();
        let ghost at = self.pos();
        let ghost goal = filters(items, at, start, expr@);
        let mut expr = expr;
        loop
            invariant
                self.wf(),
                self.items() == items,
                self.name() == old(self).name(),
                self.pos() >= at,
                then((self.pos() - at) as nat, filters(items, self.pos(), start, expr@)) == goal,
            decreases remaining(items, self.pos()),
        {
            let suffix = match self.stream.current() {
                Err(e) => {
                    return Err(e);
                },
                Ok(Some((token, _))) => if matches!(token, Token::Pipe) {
                    Suffix::Filter
                } else if token.is_word("is") {
                    Suffix::Test
                } else {
                    Suffix::Nothing
                },
                Ok(None) => Suffix::Nothing,
            };
            let is_filter = match suffix {
                Suffix::Filter => true,
                Suffix::Test => false,
                _ => {
                    return Ok(expr);
                },
            };
            self.skip();
            let name = match self.expect_ident() {
                Ok(name) => name,
                Err(e) => {
                    return Err(e);
                },
            };
            // What follows is measured against the optional arguments at this position.
            assert(optional_args(items, self.pos()).used >= 0);
            let has_args = match self.stream.current() {
                Err(e) => {
                    return Err(e);
                },
                Ok(Some((token, _))) => matches!(token, Token::ParenOpen),
                Ok(None) => false,
            };
            let args = if has_args {
                match self.parse_args() {
                    Ok(list) => list,
                    Err(e) => {
                        return Err(e);
                    },
                }
            } else {
                proof {
                    lemma_views_empty();
                }
                Vec::new()
            };
            let span = self.stream.expand_span(start);
            expr = if is_filter {
                Expr::Filter { name, expr: Box::new(expr), args, span }
            } else {
                Expr::Test { name, expr: Box::new(expr), args, span }
            };
        }
    }

    /// Expressions with a comma between them, up to and with the closing
    /// `]`, or `)` where `bracket` is not set.
    #[verifier::rlimit(30)]
    #[verifier::loop_isolation(false)]
    fn parse_sequence(&mut self, bracket: bool) -> (r: Result<Vec<Expr>, Error>)
        requires
            old(self).wf(),
        ensures
            final(self).produced(
                old(self),
                exprs_result(r),
                sequence(
                    old(self).items(),
                    old(self).pos(),
                    if bracket {
                        TokenView::BracketClose
                    } else {
                        TokenView::ParenClose
                    },
                    Seq::empty(),
                ),
            ),
        decreases remaining(old(self).items(), old(self).pos()), 42nat,
    {
        let ghost items = self.items();
        let ghost at = self.pos();
        let ghost closer = if bracket {
            TokenView::BracketClose
        } else {
            TokenView::ParenClose
        };
        let ghost goal = sequence(items, at, closer, Seq::empty());
        let mut list: Vec<Expr> = Vec::new();
        proof {
            lemma_views_empty();
        }
        loop
            invariant
                self.wf(),
                self.items() == items,
                self.name() == old(self).name(),
                self.pos() >= at,
                closer == if bracket {
                    TokenView::BracketClose
                } else {
                    TokenView::ParenClose
                },
                exprs_view(list@).len() == list@.len(),
                then(
                    (self.pos() - at) as nat,
                    sequence(items, self.pos(), closer, exprs_view(list@)),
                ) == goal,
            decreases remaining(items, self.pos()), (if list@.len() == 0 {
                1nat
            } else {
                0nat
            }),
        {
            let closing = match self.stream.current() {
                Err(e) => {
                    return Err(e);
                },
                Ok(Some((token, _))) => if bracket {
                    matches!(token, Token::BracketClose)
                } else {
                    matches!(token, Token::ParenClose)
                },
                Ok(None) => false,
            };
            if closing {
                self.skip();
                return Ok(list);
            }
            if list.len() > 0 {
                match self.expect(Expect::Comma) {
                    Ok(_) => {},
                    Err(e) => {
                        return Err(e);
                    },
                }
            }
            match self.parse_expr() {
                Ok(expr) => {
                    proof {
                        lemma_exprs_view_push(list@, expr);
                    }
                    list.push(expr);
                },
                Err(e) => {
                    return Err(e);
                },
            }
        }
    }

    /// `key: value` pairs with a comma between them, up to and with `}`.
    #[verifier::rlimit(30)]
    #[verifier::loop_isolation(false)]
    fn parse_entries(&mut self) -> (r: Result<(Vec<Expr>, Vec<Expr>), Error>)
        requires
            old(self).wf(),
        ensures
            final(self).produced(
                old(self),
                entries_result(r),
                entries(old(self).items(), old(self).pos(), Seq::empty(), Seq::empty()),
            ),
        decreases remaining(old(self).items(), old(self).pos()), 42nat,
    {
        let ghost items = self.items();
        let ghost at = self.pos();
        let ghost goal = entries(items, at, Seq::empty(), Seq::empty());
        let mut keys: Vec<Expr> = Vec::new();
        let mut values: Vec<Expr> = Vec::new();
        proof {
            lemma_views_empty();
        }
        loop
            invariant
                self.wf(),
                self.items() == items,
                self.name() == old(self).name(),
                self.pos() >= at,
                exprs_view(keys@).len() == keys@.len(),
                then(
                    (self.pos() - at) as nat,
                    entries(items, self.pos(), exprs_view(keys@), exprs_view(values@)),
                ) == goal,
            decreases remaining(items, self.pos()),
        {
            let closing = match self.stream.current() {
                Err(e) => {
                    return Err(e);
                },
                Ok(Some((token, _))) => matches!(token, Token::BraceClose),
                Ok(None) => false,
            };
            if closing {
                self.skip();
                return Ok((keys, values));
            }
            if keys.len() > 0 {
                match self.expect(Expect::Comma) {
                    Ok(_) => {},
                    Err(e) => {
                        return Err(e);
                    },
                }
            }
            let key = match self.parse_expr() {
                Ok(expr) => expr,
                Err(e) => {
                    return Err(e);
                },
            };
            match self.expect(Expect::Colon) {
                Ok(_) => {},
                Err(e) => {
                    return Err(e);
                },
            }
            let value = match self.parse_expr() {
                Ok(expr) => expr,
                Err(e) => {
                    return Err(e);
                },
            };
            proof {
                lemma_exprs_view_push(keys@, key);
                lemma_exprs_view_push(values@, value);
            }
            keys.push(key);
            values.push(value);
        }
    }

    /// The arguments of a call, from `(` to `)`.
    fn parse_args(&mut self) -> (r: Result<Vec<Expr>, Error>)
        requires
            old(self).wf(),
        ensures
            final(self).produced(
                old(self),
                exprs_result(r),
                args(old(self).items(), old(self).pos()),
            ),
        decreases remaining(old(self).items(), old(self).pos()), 7nat,
    {
        match self.stream.next() {
            Err(e) => Err(e),
            Ok(None) => Err(Error::unexpected_end("`(`")),
            Ok(Some((token, _))) => if matches!(token, Token::ParenOpen) {
                self.parse_sequence(false)
            } else {
                Err(Error::unexpected(token.describe(), "`(`"))
            },
        }
    }

    #[verifier::rlimit(30)]
    fn parse_primary(&mut self) -> (r: Result<Expr, Error>)
        requires
            old(self).wf(),
        ensures
            final(self).produced(
                old(self),
                expr_result(r),
                primary(old(self).items(), old(self).pos()),
            ),
        decreases remaining(old(self).items(), old(self).pos()), 10nat,
    {
        let (token, span) = match self.stream.next() {
            Err(e) => {
                return Err(e);
            },
            Ok(None) => {
                return Err(Error::unexpected_end("expression"));
            },
            Ok(Some(pair)) => pair,
        };
        match token {
            Token::Ident(name) => Ok(name_expr(name, span)),
            Token::Str(text) => Ok(Expr::Const { value: Value::Str(text), span }),
            Token::Int(value) => Ok(Expr::Const { value: Value::Int(value), span }),
            Token::Float(text) => Ok(Expr::Const { value: Value::Float(text), span }),
            Token::ParenOpen => {
                let expr = match self.parse_expr() {
                    Ok(expr) => expr,
                    Err(e) => {
                        return Err(e);
                    },
                };
                match self.expect(Expect::ParenClose) {
                    Ok(_) => Ok(expr),
                    Err(e) => Err(e),
                }
            },
            Token::BracketOpen => {
                match self.parse_sequence(true) {
                    Ok(items) => Ok(Expr::List { items, span: self.stream.expand_span(span) }),
                    Err(e) => Err(e),
                }
            },
            Token::BraceOpen => {
                match self.parse_entries() {
                    Ok((keys, values)) => Ok(
                        Expr::Dict { keys, values, span: self.stream.expand_span(span) },
                    ),
                    Err(e) => Err(e),
                }
            },
            other => Err(Error::unexpected_bare(other.describe())),
        }
    }

    /// Parses one expression. The spans of the tree nest, and no more
    /// than the input is used.
    pub fn parse_expr(&mut self) -> (r: Result<Expr, Error>)
        requires
            old(self).wf(),
        ensures
            final(self).produced(
                old(self),
                expr_result(r),
                expression(old(self).items(), old(self).pos()),
            ),
            final(self).pos() <= final(self).items().len(),
            r matches Ok(e) ==> e@.spans_nested(),
        decreases remaining(old(self).items(), old(self).pos()), 40nat,
    {
        proof {
            self.stream.lemma_pos_in_range();
            lemma_expr_at(Level::Or, self.items(), self.pos());
        }
        let r = self.parse_or();
        proof {
            self.stream.lemma_pos_in_range();
        }
        r
    }

    /// The name that a `for` or a `with` assigns to.
    fn parse_assign_target(&mut self) -> (r: Result<String, Error>)
        requires
            old(self).wf(),
        ensures
            final(self).produced(
                old(self),
                name_result(r),
                assign_target(old(self).items(), old(self).pos()),
            ),
    {
        match self.expect_ident() {
            Ok(target) => if reserved_name(target.as_str()) {
                Err(Error::reserved(target.as_str()))
            } else {
                Ok(target)
            },
            Err(e) => Err(e),
        }
    }

    fn parse_stmt(&mut self) -> (r: Result<Stmt, Error>)
        requires
            old(self).wf(),
        ensures
            final(self).produced(
                old(self),
                stmt_result(r),
                statement(old(self).items(), old(self).pos()),
            ),
        decreases remaining(old(self).items(), old(self).pos()), 0nat,
    {
        let (token, span) = match self.stream.next() {
            Err(e) => {
                return Err(e);
            },
            Ok(None) => {
                return Err(Error::unexpected_end("block keyword"));
            },
            Ok(Some(pair)) => pair,
        };
        proof {
            self.stream.lemma_pos_in_range();
        }
        if token.is_word("for") {
            self.parse_for_stmt(span)
        } else if token.is_word("if") {
            self.parse_if_cond(span)
        } else if token.is_word("with") {
            self.parse_with_block(span)
        } else if token.is_word("block") {
            self.parse_block(span)
        } else if token.is_word("extends") {
            self.parse_extends(span)
        } else if token.is_word("autoescape") {
            self.parse_auto_escape(span)
        } else {
            Err(Error::syntax("unknown block"))
        }
    }

    /// The rest of an opening tag and what it encloses: `%}`, a body up to
    /// a keyword of `term`, and that keyword.
    fn parse_enclosed(&mut self, term: Terminator) -> (r: Result<Vec<Stmt>, Error>)
        requires
            old(self).wf(),
        ensures
            final(self).produced(
                old(self),
                stmts_result(r),
                enclosed(old(self).items(), old(self).pos(), term),
            ),
        decreases remaining(old(self).items(), old(self).pos()), 0nat,
    {
        match self.expect(Expect::BlockEnd) {
            Ok(_) => {},
            Err(e) => {
                return Err(e);
            },
        }
        proof {
            self.stream.lemma_pos_in_range();
        }
        let inner = match self.subparse(term) {
            Ok(list) => list,
            Err(e) => {
                return Err(e);
            },
        };
        match self.stream.next() {
            Ok(_) => Ok(inner),
            Err(e) => Err(e),
        }
    }

    fn parse_for_stmt(&mut self, start: Span) -> (r: Result<Stmt, Error>)
        requires
            old(self).wf(),
        ensures
            final(self).produced(
                old(self),
                stmt_result(r),
                for_loop(old(self).items(), old(self).pos(), start),
            ),
        decreases remaining(old(self).items(), old(self).pos()), 1nat,
    {
        let target = match self.parse_assign_target() {
            Ok(name) => name,
            Err(e) => {
                return Err(e);
            },
        };
        match self.expect(Expect::In) {
            Ok(_) => {},
            Err(e) => {
                return Err(e);
            },
        }
        let iter = match self.parse_expr() {
            Ok(expr) => expr,
            Err(e) => {
                return Err(e);
            },
        };
        let inner = match self.parse_enclosed(Terminator::EndFor) {
            Ok(list) => list,
            Err(e) => {
                return Err(e);
            },
        };
        Ok(Stmt::ForLoop { target, iter, body: inner, span: self.stream.expand_span(start) })
    }

    #[verifier::rlimit(30)]
    fn parse_if_cond(&mut self, start: Span) -> (r: Result<Stmt, Error>)
        requires
            old(self).wf(),
        ensures
            final(self).produced(
                old(self),
                stmt_result(r),
                if_cond(old(self).items(), old(self).pos(), start),
            ),
        decreases remaining(old(self).items(), old(self).pos()), 1nat,
    {
        let ghost items = self.items();
        let expr = match self.parse_expr() {
            Ok(expr) => expr,
            Err(e) => {
                return Err(e);
            },
        };
        match self.expect(Expect::BlockEnd) {
            Ok(_) => {},
            Err(e) => {
                return Err(e);
            },
        }
        proof {
            self.stream.lemma_pos_in_range();
        }
        let true_body = match self.subparse(Terminator::Branch) {
            Ok(list) => list,
            Err(e) => {
                return Err(e);
            },
        };
        // What follows is measured against the rest of the `if` at this position.
        assert(if_rest(items, self.pos(), start, expr@, stmts_view(true_body@)).used >= 0);
        let branch = match self.stream.next() {
            Err(e) => {
                return Err(e);
            },
            Ok(Some((token, span))) => if token.is_word("else") {
                Branch::Else
            } else if token.is_word("elif") {
                Branch::Elif(span)
            } else {
                Branch::End
            },
            Ok(None) => Branch::End,
        };
        proof {
            self.stream.lemma_pos_in_range();
        }
        let false_body = match branch {
            Branch::Else => match self.parse_enclosed(Terminator::EndIf) {
                Ok(list) => list,
                Err(e) => {
                    return Err(e);
                },
            },
            Branch::Elif(span) => match self.parse_if_cond(span) {
                Ok(nested) => {
                    let mut list: Vec<Stmt> = Vec::new();
                    proof {
                        lemma_views_empty();
                        lemma_stmts_view_push(list@, nested);
                        assert(Seq::<StmtView>::empty().push(nested@) =~= seq![nested@]);
                    }
                    list.push(nested);
                    list
                },
                Err(e) => {
                    return Err(e);
                },
            },
            Branch::End => {
                proof {
                    lemma_views_empty();
                }
                Vec::new()
            },
        };
        Ok(Stmt::IfCond { expr, true_body, false_body, span: self.stream.expand_span(start) })
    }

    #[verifier::rlimit(50)]
    fn parse_with_block(&mut self, start: Span) -> (r: Result<Stmt, Error>)
        requires
            old(self).wf(),
        ensures
            final(self).produced(
                old(self),
                stmt_result(r),
                with_block(old(self).items(), old(self).pos(), start),
            ),
        decreases remaining(old(self).items(), old(self).pos()), 1nat,
    {
        let ghost items = self.items();
        let ghost at = self.pos();
        let ghost goal = bindings(items, at, Seq::empty());
        let mut assignments: Vec<(String, Expr)> = Vec::new();
        proof {
            lemma_views_empty();
        }
        loop
            invariant
                self.wf(),
                self.items() == items,
                self.name() == old(self).name(),
                self.pos() >= at,
                bindings_view(assignments@).len() == assignments@.len(),
                items == old(self).items(),
                at == old(self).pos(),
                goal == bindings(items, at, Seq::empty()),
                then((self.pos() - at) as nat, bindings(items, self.pos(), bindings_view(assignments@)))
                    == goal,
            decreases remaining(items, self.pos()),
        {
            let at_end = match self.stream.current() {
                Err(e) => {
                    return Err(e);
                },
                Ok(Some((token, _))) => matches!(token, Token::BlockEnd(_)),
                Ok(None) => false,
            };
            if at_end {
                let inner = match self.parse_enclosed(Terminator::EndWith) {
                    Ok(list) => list,
                    Err(e) => {
                        return Err(e);
                    },
                };
                return Ok(
                    Stmt::WithBlock {
                        assignments,
                        body: inner,
                        span: self.stream.expand_span(start),
                    },
                );
            }
            if assignments.len() > 0 {
                match self.expect(Expect::Separator) {
                    Ok(_) => {},
                    Err(e) => {
                        return Err(e);
                    },
                }
            }
            let target = match self.parse_assign_target() {
                Ok(name) => name,
                Err(e) => {
                    return Err(e);
                },
            };
            match self.expect(Expect::Assign) {
                Ok(_) => {},
                Err(e) => {
                    return Err(e);
                },
            }
            let expr = match self.parse_expr() {
                Ok(expr) => expr,
                Err(e) => {
                    return Err(e);
                },
            };
            proof {
                lemma_bindings_view_push(assignments@, target, expr);
            }
            assignments.push((target, expr));
        }
    }

    #[verifier::rlimit(30)]
    fn parse_block(&mut self, start: Span) -> (r: Result<Stmt, Error>)
        requires
            old(self).wf(),
        ensures
            final(self).produced(
                old(self),
                stmt_result(r),
                block(old(self).items(), old(self).pos(), start),
            ),
        decreases remaining(old(self).items(), old(self).pos()), 1nat,
    {
        let name = match self.expect_ident() {
            Ok(name) => name,
            Err(e) => {
                return Err(e);
            },
        };
        proof {
            self.stream.lemma_pos_in_range();
        }
        let inner = match self.parse_enclosed(Terminator::EndBlock) {
            Ok(list) => list,
            Err(e) => {
                return Err(e);
            },
        };
        let repeated = match self.stream.current() {
            Err(e) => {
                return Err(e);
            },
            Ok(Some((token, _))) => match token {
                Token::Ident(trailing) => {
                    if !str_eq(trailing.as_str(), name.as_str()) {
                        return Err(Error::mismatch(trailing.as_str(), name.as_str()));
                    }
                    true
                },
                _ => false,
            },
            Ok(None) => false,
        };
        if repeated {
            self.skip();
        }
        Ok(Stmt::Block { name, body: inner, span: self.stream.expand_span(start) })
    }

    fn parse_extends(&mut self, start: Span) -> (r: Result<Stmt, Error>)
        requires
            old(self).wf(),
        ensures
            final(self).produced(
                old(self),
                stmt_result(r),
                extends(old(self).items(), old(self).pos(), start),
            ),
        decreases remaining(old(self).items(), old(self).pos()), 1nat,
    {
        match self.parse_expr() {
            Ok(name) => Ok(Stmt::Extends { name, span: self.stream.expand_span(start) }),
            Err(e) => Err(e),
        }
    }

    fn parse_auto_escape(&mut self, start: Span) -> (r: Result<Stmt, Error>)
        requires
            old(self).wf(),
        ensures
            final(self).produced(
                old(self),
                stmt_result(r),
                auto_escape(old(self).items(), old(self).pos(), start),
            ),
        decreases remaining(old(self).items(), old(self).pos()), 1nat,
    {
        let enabled = match self.parse_expr() {
            Ok(expr) => expr,
            Err(e) => {
                return Err(e);
            },
        };
        let inner = match self.parse_enclosed(Terminator::EndAutoEscape) {
            Ok(list) => list,
            Err(e) => {
                return Err(e);
            },
        };
        Ok(Stmt::AutoEscape { enabled, body: inner, span: self.stream.expand_span(start) })
    }

    /// The statements of a body, up to the tag that opens with a keyword of
    /// `term` or to the end of the input. Where a keyword of `term` stops
    /// the body, the `{%` before it was used last and the keyword itself
    /// is left in place, for the statement around the body to use.
    #[verifier::rlimit(50)]
    pub fn subparse(&mut self, term: Terminator) -> (r: Result<Vec<Stmt>, Error>)
        requires
            old(self).wf(),
        ensures
            final(self).produced(
                old(self),
                stmts_result(r),
                body(old(self).items(), old(self).pos(), term, Seq::empty()),
            ),
            r is Ok ==> {
                let items = final(self).items();
                let end = final(self).pos();
                ||| end >= items.len()
                ||| {
                    &&& end >= 1
                    &&& items[end - 1] matches Ok((opener, _)) && opener is BlockStart
                    &&& peek(items, end).result matches Ok(Some((keyword, _))) && term.ends(
                        keyword,
                    )
                }
            },
        decreases remaining(old(self).items(), old(self).pos()), 0nat,
    {
        proof {
            law_body_stops_at_its_keyword(self.items(), self.pos(), term, Seq::empty());
        }
        let ghost items = self.items();
        let ghost at = self.pos();
        let ghost goal = body(items, at, term, Seq::empty());
        let mut rv: Vec<Stmt> = Vec::new();
        proof {
            lemma_views_empty();
        }
        loop
            invariant
                self.wf(),
                self.items() == items,
                self.name() == old(self).name(),
                self.pos() >= at,
                items == old(self).items(),
                at == old(self).pos(),
                goal == body(items, at, term, Seq::empty()),
                then((self.pos() - at) as nat, body(items, self.pos(), term, stmts_view(rv@)))
                    == goal,
            decreases remaining(items, self.pos()),
        {
            let (token, span) = match self.stream.next() {
                Err(e) => {
                    return Err(e);
                },
                Ok(None) => {
                    return Ok(rv);
                },
                Ok(Some(pair)) => pair,
            };
            proof {
                self.stream.lemma_pos_in_range();
            }
            match token {
                Token::TemplateData(raw) => {
                    let node = Stmt::EmitRaw { raw, span };
                    proof {
                        lemma_stmts_view_push(rv@, node);
                    }
                    rv.push(node);
                },
                Token::VariableStart(_) => {
                    let expr = match self.parse_expr() {
                        Ok(expr) => expr,
                        Err(e) => {
                            return Err(e);
                        },
                    };
                    match self.expect(Expect::VariableEnd) {
                        Ok(_) => {},
                        Err(e) => {
                            return Err(e);
                        },
                    }
                    let node = Stmt::EmitExpr { expr, span: self.stream.expand_span(span) };
                    proof {
                        lemma_stmts_view_push(rv@, node);
                    }
                    rv.push(node);
                },
                Token::BlockStart(_) => {
                    let stop = match self.stream.current() {
                        Err(e) => {
                            return Err(e);
                        },
                        Ok(None) => {
                            return Err(Error::unexpected_end("keyword"));
                        },
                        Ok(Some((keyword, _))) => term.stops_at(keyword),
                    };
                    if stop {
                        return Ok(rv);
                    }
                    let node = match self.parse_stmt() {
                        Ok(node) => node,
                        Err(e) => {
                            return Err(e);
                        },
                    };
                    match self.expect(Expect::BlockEnd) {
                        Ok(_) => {},
                        Err(e) => {
                            return Err(e);
                        },
                    }
                    proof {
                        lemma_stmts_view_push(rv@, node);
                    }
                    rv.push(node);
                },
                other => {
                    return Err(Error::unexpected_bare(other.describe()));
                },
            }
        }
    }

    /// Parses a whole template. The spans of the tree nest, and no more
    /// than the input is used.
    pub fn parse(&mut self) -> (r: Result<Stmt, Error>)
        requires
            old(self).wf(),
        ensures
            final(self).produced(
                old(self),
                stmt_result(r),
                template(old(self).items(), old(self).pos()),
            ),
            final(self).pos() <= final(self).items().len(),
            r matches Ok(root) ==> root@.spans_nested(),
    {
        proof {
            self.stream.lemma_pos_in_range();
            lemma_template(self.items(), self.pos());
        }
        let r = self.parse_template();
        proof {
            self.stream.lemma_pos_in_range();
        }
        r
    }

    fn parse_template(&mut self) -> (r: Result<Stmt, Error>)
        requires
            old(self).wf(),
        ensures
            final(self).produced(
                old(self),
                stmt_result(r),
                template(old(self).items(), old(self).pos()),
            ),
    {
        let start = match self.start_span() {
            Ok(span) => span,
            Err(e) => {
                return Err(e);
            },
        };
        match self.subparse(Terminator::Never) {
            Ok(children) => Ok(Stmt::Template { children, span: self.stream.expand_span(start) }),
            Err(e) => Err(e),
        }
    }
}

/// What follows the true branch of an `if`.
enum Branch {
    Else,
    Elif(Span),
    End,
}

/// Parses a template. A failure carries the name of the file and the line
/// of the token that was used last.
pub fn parse(source: &str, filename: &str) -> (r: Result<Stmt, Error>)
    ensures
        stmt_result(r) == parse_template(source@, filename@),
        r matches Ok(root) ==> root@.spans_nested(),
        r matches Err(e) ==> e@.location is Some,
{
    let mut parser = Parser::new(source, filename, false);
    match parser.parse() {
        Ok(root) => Ok(root),
        Err(e) => Err(e.locate(parser.filename, parser.last_span().start_line)),
    }
}

/// Parses an expression. A failure is reported in the file `<expression>`,
/// at the line of the token that was used last.
pub fn parse_expr(source: &str) -> (r: Result<Expr, Error>)
    ensures
        expr_result(r) == parse_expression(source@),
        r matches Ok(e) ==> e@.spans_nested(),
        r matches Err(e) ==> e@.location is Some,
{
    let mut parser = Parser::new(source, "<expression>", true);
    match parser.parse_expr() {
        Ok(expr) => Ok(expr),
        Err(e) => Err(e.locate(parser.filename, parser.last_span().start_line)),
    }
}

} // verus!
