//! The tokenizer: turns source text into tokens, one at a time.
//!
//! Outside tags the text is raw template data. `{{ .. }}` encloses an
//! expression to print, `{% .. %}` a statement, `{# .. #}` a comment. Inside
//! a tag, white space separates tokens and is dropped. In expression-only
//! mode the whole input is read as the inside of a tag that never closes.

use crate::error::{Error, ErrorView};
use crate::text::{
    char_is_digit, char_is_ident_part, char_is_ident_start, char_is_space, decimal_value,
    digit_value, is_digit, is_ident_part, is_ident_start, is_space, lemma_decimal_prefix,
    substring, to_chars,
};
use crate::tokens::{item_view, loc_le, LexItem, LexItemView, Span, Token, TokenView};
use vstd::prelude::*;

verus! {

/// What the tokenizer is reading.
#[derive(Clone, Copy, Debug, PartialEq, Eq, Structural)]
pub enum Mode {
    /// Raw text outside any tag.
    Template,
    /// The inside of `{{ .. }}`.
    Variable,
    /// The inside of `{% .. %}`.
    Block,
    /// An expression on its own; no tag opens or closes.
    Expression,
}

/// The state of the tokenizer between two tokens.
pub struct LexState {
    /// Index of the next character to read.
    pub pos: int,
    /// Line of the next character, counted from 1.
    pub line: usize,
    /// Column of the next character, counted from 0.
    pub col: usize,
    pub mode: Mode,
    /// A failure was reported; nothing more is produced.
    pub failed: bool,
}

/// One step of the tokenizer.
pub enum Step {
    /// The input is used up, or a failure was reported before.
    Done,
    /// White space or a comment was passed over.
    Skip(LexState),
    /// A token was read.
    Emit(TokenView, Span, LexState),
    /// The input is malformed at this point.
    Fail(ErrorView),
}

/// `n + 1`, or `n` where that does not fit the machine word.
pub open spec fn bump(n: usize) -> usize {
    if n < usize::MAX {
        (n + 1) as usize
    } else {
        n
    }
}

/// Character `c` stands at index `i` of `src`.
pub open spec fn is_at(src: Seq<char>, i: int, c: char) -> bool {
    0 <= i < src.len() && src[i] == c
}

impl LexState {
    /// The state before the first character.
    pub open spec fn start(in_expr: bool) -> LexState {
        LexState {
            pos: 0,
            line: 1,
            col: 0,
            mode: if in_expr {
                Mode::Expression
            } else {
                Mode::Template
            },
            failed: false,
        }
    }

    /// The state after reading the character `c`: a line feed starts a new
    /// line, any other character moves one column on.
    pub open spec fn after(self, c: char) -> LexState {
        if c == '\n' {
            if self.line < usize::MAX {
                LexState { pos: self.pos + 1, line: (self.line + 1) as usize, col: 0, ..self }
            } else {
                LexState { pos: self.pos + 1, ..self }
            }
        } else {
            LexState { pos: self.pos + 1, col: bump(self.col), ..self }
        }
    }

    /// The same state, reading in `mode`.
    pub open spec fn with_mode(self, mode: Mode) -> LexState {
        LexState { mode, ..self }
    }

    /// The position `(line, col)` of this state is not after that of `other`.
    pub open spec fn not_after(self, other: LexState) -> bool {
        loc_le(self.line, self.col, other.line, other.col)
    }
}

/// The state after reading the characters of `src` up to index `to`.
pub open spec fn moved(src: Seq<char>, cur: LexState, to: int) -> LexState
    decreases to - cur.pos,
{
    if cur.pos >= to || cur.pos < 0 || cur.pos >= src.len() {
        cur
    } else {
        moved(src, cur.after(src[cur.pos]), to)
    }
}

/// The span from the position of `from` to the position of `to`.
pub open spec fn span_between(from: LexState, to: LexState) -> Span {
    Span { start_line: from.line, start_col: from.col, end_line: to.line, end_col: to.col }
}

/// A tag or a comment opens at index `i`.
pub open spec fn marker_at(src: Seq<char>, i: int) -> bool {
    is_at(src, i, '{') && (is_at(src, i + 1, '{') || is_at(src, i + 1, '%') || is_at(
        src,
        i + 1,
        '#',
    ))
}

/// The end of the raw text that holds index `i - 1`: the first index from
/// `i` on at which a tag or a comment opens, or the end of the input.
pub open spec fn data_end(src: Seq<char>, i: int) -> int
    decreases src.len() - i,
{
    if i < 0 || i >= src.len() {
        src.len() as int
    } else if marker_at(src, i) {
        i
    } else {
        data_end(src, i + 1)
    }
}

/// The index just behind the first `#}` that starts at `i` or later.
pub open spec fn comment_end(src: Seq<char>, i: int) -> Option<int>
    decreases src.len() - i,
{
    if i < 0 || i + 1 >= src.len() {
        None
    } else if src[i] == '#' && src[i + 1] == '}' {
        Some(i + 2)
    } else {
        comment_end(src, i + 1)
    }
}

/// The first index from `i` on that holds no white space.
pub open spec fn space_end(src: Seq<char>, i: int) -> int
    decreases src.len() - i,
{
    if i < 0 || i >= src.len() || !is_space(src[i]) {
        i
    } else {
        space_end(src, i + 1)
    }
}

/// The first index from `i` on that holds no digit.
pub open spec fn digits_end(src: Seq<char>, i: int) -> int
    decreases src.len() - i,
{
    if i < 0 || i >= src.len() || !is_digit(src[i]) {
        i
    } else {
        digits_end(src, i + 1)
    }
}

/// The first index from `i` on that cannot continue an identifier.
pub open spec fn ident_end(src: Seq<char>, i: int) -> int
    decreases src.len() - i,
{
    if i < 0 || i >= src.len() || !is_ident_part(src[i]) {
        i
    } else {
        ident_end(src, i + 1)
    }
}

/// The index of the quote that closes a string whose content starts at
/// `i`. A backslash takes the character behind it along, whatever it is.
pub open spec fn string_end(src: Seq<char>, i: int, quote: char) -> Option<int>
    decreases src.len() - i,
{
    if i < 0 || i >= src.len() {
        None
    } else if src[i] == '\\' {
        if i + 1 < src.len() {
            string_end(src, i + 2, quote)
        } else {
            None
        }
    } else if src[i] == quote {
        Some(i)
    } else {
        string_end(src, i + 1, quote)
    }
}

/// The operator written with the two characters `a` and `b`.
pub open spec fn two_char_op(a: char, b: char) -> Option<TokenView> {
    if a == '/' && b == '/' {
        Some(TokenView::FloorDiv)
    } else if a == '*' && b == '*' {
        Some(TokenView::Pow)
    } else if a == '=' && b == '=' {
        Some(TokenView::Eq)
    } else if a == '!' && b == '=' {
        Some(TokenView::Ne)
    } else if a == '>' && b == '=' {
        Some(TokenView::Gte)
    } else if a == '<' && b == '=' {
        Some(TokenView::Lte)
    } else {
        None
    }
}

/// The operator or punctuation mark written with the character `c`.
pub open spec fn one_char_op(c: char) -> Option<TokenView> {
    if c == '+' {
        Some(TokenView::Plus)
    } else if c == '-' {
        Some(TokenView::Minus)
    } else if c == '*' {
        Some(TokenView::Mul)
    } else if c == '/' {
        Some(TokenView::Div)
    } else if c == '%' {
        Some(TokenView::Mod)
    } else if c == '!' {
        Some(TokenView::Bang)
    } else if c == '.' {
        Some(TokenView::Dot)
    } else if c == ',' {
        Some(TokenView::Comma)
    } else if c == ':' {
        Some(TokenView::Colon)
    } else if c == '~' {
        Some(TokenView::Tilde)
    } else if c == '|' {
        Some(TokenView::Pipe)
    } else if c == '=' {
        Some(TokenView::Assign)
    } else if c == '>' {
        Some(TokenView::Gt)
    } else if c == '<' {
        Some(TokenView::Lt)
    } else if c == '(' {
        Some(TokenView::ParenOpen)
    } else if c == ')' {
        Some(TokenView::ParenClose)
    } else if c == '[' {
        Some(TokenView::BracketOpen)
    } else if c == ']' {
        Some(TokenView::BracketClose)
    } else if c == '{' {
        Some(TokenView::BraceOpen)
    } else if c == '}' {
        Some(TokenView::BraceClose)
    } else {
        None
    }
}

/// A token that ends at index `to`, after which the tokenizer reads in `mode`.
pub open spec fn emit(src: Seq<char>, cur: LexState, to: int, token: TokenView, mode: Mode) -> Step {
    let next = moved(src, cur, to).with_mode(mode);
    Step::Emit(token, span_between(cur, next), next)
}

/// A step that ends the sequence with a syntax error.
pub open spec fn fail(message: Seq<char>) -> Step {
    Step::Fail(ErrorView::syntax(message))
}

/// The step taken outside tags, at a character that exists.
pub open spec fn template_step(src: Seq<char>, cur: LexState) -> Step {
    let p = cur.pos;
    if is_at(src, p, '{') && is_at(src, p + 1, '{') {
        if is_at(src, p + 2, '-') {
            emit(src, cur, p + 3, TokenView::VariableStart(true), Mode::Variable)
        } else {
            emit(src, cur, p + 2, TokenView::VariableStart(false), Mode::Variable)
        }
    } else if is_at(src, p, '{') && is_at(src, p + 1, '%') {
        if is_at(src, p + 2, '-') {
            emit(src, cur, p + 3, TokenView::BlockStart(true), Mode::Block)
        } else {
            emit(src, cur, p + 2, TokenView::BlockStart(false), Mode::Block)
        }
    } else if is_at(src, p, '{') && is_at(src, p + 1, '#') {
        match comment_end(src, p + 2) {
            Some(end) => Step::Skip(moved(src, cur, end)),
            None => fail("unexpected end of comment"@),
        }
    } else {
        let end = data_end(src, p + 1);
        emit(src, cur, end, TokenView::TemplateData(src.subrange(p, end)), Mode::Template)
    }
}

/// The literal number that starts with the digit at the position of `cur`.
pub open spec fn number_step(src: Seq<char>, cur: LexState) -> Step {
    let p = cur.pos;
    let whole = digits_end(src, p + 1);
    if is_at(src, whole, '.') {
        let end = digits_end(src, whole + 1);
        emit(src, cur, end, TokenView::Float(src.subrange(p, end)), cur.mode)
    } else {
        let value = decimal_value(src.subrange(p, whole));
        if value <= i64::MAX {
            emit(src, cur, whole, TokenView::Int(value as i64), cur.mode)
        } else {
            fail("invalid integer"@)
        }
    }
}

/// The step taken inside a tag or an expression, at a character that exists.
pub open spec fn code_step(src: Seq<char>, cur: LexState) -> Step {
    let p = cur.pos;
    let c = src[p];
    if is_space(c) {
        Step::Skip(moved(src, cur, space_end(src, p + 1)))
    } else if cur.mode == Mode::Block && c == '-' && is_at(src, p + 1, '%') && is_at(
        src,
        p + 2,
        '}',
    ) {
        emit(src, cur, p + 3, TokenView::BlockEnd(true), Mode::Template)
    } else if cur.mode == Mode::Block && c == '%' && is_at(src, p + 1, '}') {
        emit(src, cur, p + 2, TokenView::BlockEnd(false), Mode::Template)
    } else if cur.mode == Mode::Variable && c == '-' && is_at(src, p + 1, '}') && is_at(
        src,
        p + 2,
        '}',
    ) {
        emit(src, cur, p + 3, TokenView::VariableEnd(true), Mode::Template)
    } else if cur.mode == Mode::Variable && c == '}' && is_at(src, p + 1, '}') {
        emit(src, cur, p + 2, TokenView::VariableEnd(false), Mode::Template)
    } else if p + 1 < src.len() && two_char_op(c, src[p + 1]) is Some {
        emit(src, cur, p + 2, two_char_op(c, src[p + 1])->Some_0, cur.mode)
    } else if one_char_op(c) is Some {
        emit(src, cur, p + 1, one_char_op(c)->Some_0, cur.mode)
    } else if c == '\'' || c == '"' {
        match string_end(src, p + 1, c) {
            Some(end) => emit(src, cur, end + 1, TokenView::Str(src.subrange(p + 1, end)), cur.mode),
            None => fail("unexpected end of string"@),
        }
    } else if is_digit(c) {
        number_step(src, cur)
    } else if is_ident_start(c) {
        let end = ident_end(src, p + 1);
        emit(src, cur, end, TokenView::Ident(src.subrange(p, end)), cur.mode)
    } else {
        fail("unexpected character"@)
    }
}

/// The step the tokenizer takes from `cur`.
pub open spec fn step(src: Seq<char>, cur: LexState) -> Step {
    if cur.failed || cur.pos < 0 || cur.pos >= src.len() {
        Step::Done
    } else if cur.mode == Mode::Template {
        template_step(src, cur)
    } else {
        code_step(src, cur)
    }
}

proof fn lemma_moved(src: Seq<char>, cur: LexState, to: int)
    requires
        0 <= cur.pos <= to <= src.len(),
    ensures
        moved(src, cur, to).pos == to,
        moved(src, cur, to).mode == cur.mode,
        moved(src, cur, to).failed == cur.failed,
        cur.not_after(moved(src, cur, to)),
    decreases to - cur.pos,
{
    if cur.pos < to {
        lemma_moved(src, cur.after(src[cur.pos]), to);
    }
}

proof fn lemma_scan_bounds(src: Seq<char>, i: int)
    requires
        0 <= i <= src.len(),
    ensures
        i <= data_end(src, i) <= src.len(),
        i <= space_end(src, i) <= src.len(),
        i <= digits_end(src, i) <= src.len(),
        i <= ident_end(src, i) <= src.len(),
        comment_end(src, i) matches Some(e) ==> i + 2 <= e <= src.len(),
    decreases src.len() - i,
{
    if i < src.len() {
        lemma_scan_bounds(src, i + 1);
    }
}

proof fn lemma_string_end_bounds(src: Seq<char>, i: int, quote: char)
    requires
        0 <= i <= src.len(),
    ensures
        string_end(src, i, quote) matches Some(e) ==> i <= e < src.len(),
    decreases src.len() - i,
{
    if i < src.len() {
        if src[i] == '\\' {
            if i + 1 < src.len() {
                lemma_string_end_bounds(src, i + 2, quote);
            }
        } else if src[i] != quote {
            lemma_string_end_bounds(src, i + 1, quote);
        }
    }
}

/// Every step that goes on moves forward, stays within the input and does
/// not move the position back.
pub proof fn lemma_step_progress(src: Seq<char>, cur: LexState)
    requires
        0 <= cur.pos <= src.len(),
    ensures
        match step(src, cur) {
            Step::Skip(next) => cur.pos < next.pos <= src.len() && !next.failed && cur.not_after(
                next,
            ),
            Step::Emit(_, span, next) => {
                &&& cur.pos < next.pos <= src.len()
                &&& !next.failed
                &&& span == span_between(cur, next)
                &&& cur.not_after(next)
            },
            _ => true,
        },
{
    let p = cur.pos;
    if !(cur.failed || cur.pos >= src.len()) {
        lemma_scan_bounds(src, p + 1);
        if p + 2 <= src.len() {
            lemma_scan_bounds(src, p + 2);
        }
        lemma_string_end_bounds(src, p + 1, src[p]);
        let whole = digits_end(src, p + 1);
        if whole < src.len() {
            lemma_scan_bounds(src, whole + 1);
        }
        match step(src, cur) {
            Step::Skip(next) => {
                if cur.mode == Mode::Template {
                    lemma_moved(src, cur, comment_end(src, p + 2)->Some_0);
                } else {
                    lemma_moved(src, cur, space_end(src, p + 1));
                }
            },
            Step::Emit(_, _, next) => {
                if p + 1 <= src.len() {
                    lemma_moved(src, cur, p + 1);
                }
                if p + 2 <= src.len() {
                    lemma_moved(src, cur, p + 2);
                }
                if p + 3 <= src.len() {
                    lemma_moved(src, cur, p + 3);
                }
                lemma_moved(src, cur, data_end(src, p + 1));
                lemma_moved(src, cur, ident_end(src, p + 1));
                lemma_moved(src, cur, whole);
                if whole < src.len() {
                    lemma_moved(src, cur, digits_end(src, whole + 1));
                }
                if string_end(src, p + 1, src[p]) is Some {
                    lemma_moved(src, cur, string_end(src, p + 1, src[p])->Some_0 + 1);
                }
            },
            _ => {},
        }
    }
}

/// Everything the tokenizer yields from `cur` on: the tokens in order, and
/// last of all the failure that stopped it, if one did.
pub open spec fn tokens_from(src: Seq<char>, cur: LexState) -> Seq<LexItemView>
    decreases src.len() - cur.pos,
{
    if 0 <= cur.pos <= src.len() {
        proof {
            lemma_step_progress(src, cur);
        }
        match step(src, cur) {
            Step::Done => Seq::empty(),
            Step::Skip(next) => tokens_from(src, next),
            Step::Emit(token, span, next) => seq![Ok((token, span))] + tokens_from(src, next),
            Step::Fail(e) => seq![Err(e)],
        }
    } else {
        Seq::empty()
    }
}

/// Everything the tokenizer yields for `source`.
pub open spec fn tokenize(source: Seq<char>, in_expr: bool) -> Seq<LexItemView> {
    tokens_from(source, LexState::start(in_expr))
}

/// The tokenizer over one source text.
pub struct Lexer {
    /// The characters of the source.
    pub src: Vec<char>,
    /// Index of the next character to read.
    pub pos: usize,
    pub line: usize,
    pub col: usize,
    pub mode: Mode,
    pub failed: bool,
}

fn two_char_token(a: char, b: char) -> (r: Option<Token>)
    ensures
        match r {
            Some(t) => two_char_op(a, b) == Some(t@),
            None => two_char_op(a, b) is None,
        },
{
    if a == '/' && b == '/' {
        Some(Token::FloorDiv)
    } else if a == '*' && b == '*' {
        Some(Token::Pow)
    } else if a == '=' && b == '=' {
        Some(Token::Eq)
    } else if a == '!' && b == '=' {
        Some(Token::Ne)
    } else if a == '>' && b == '=' {
        Some(Token::Gte)
    } else if a == '<' && b == '=' {
        Some(Token::Lte)
    } else {
        None
    }
}

fn one_char_token(c: char) -> (r: Option<Token>)
    ensures
        match r {
            Some(t) => one_char_op(c) == Some(t@),
            None => one_char_op(c) is None,
        },
{
    if c == '+' {
        Some(Token::Plus)
    } else if c == '-' {
        Some(Token::Minus)
    } else if c == '*' {
        Some(Token::Mul)
    } else if c == '/' {
        Some(Token::Div)
    } else if c == '%' {
        Some(Token::Mod)
    } else if c == '!' {
        Some(Token::Bang)
    } else if c == '.' {
        Some(Token::Dot)
    } else if c == ',' {
        Some(Token::Comma)
    } else if c == ':' {
        Some(Token::Colon)
    } else if c == '~' {
        Some(Token::Tilde)
    } else if c == '|' {
        Some(Token::Pipe)
    } else if c == '=' {
        Some(Token::Assign)
    } else if c == '>' {
        Some(Token::Gt)
    } else if c == '<' {
        Some(Token::Lt)
    } else if c == '(' {
        Some(Token::ParenOpen)
    } else if c == ')' {
        Some(Token::ParenClose)
    } else if c == '[' {
        Some(Token::BracketOpen)
    } else if c == ']' {
        Some(Token::BracketClose)
    } else if c == '{' {
        Some(Token::BraceOpen)
    } else if c == '}' {
        Some(Token::BraceClose)
    } else {
        None
    }
}

impl Lexer {
    /// The state of the tokenizer, as the model has it.
    pub open spec fn state(&self) -> LexState {
        LexState {
            pos: self.pos as int,
            line: self.line,
            col: self.col,
            mode: self.mode,
            failed: self.failed,
        }
    }

    /// The position lies within the source.
    pub open spec fn wf(&self) -> bool {
        self.pos <= self.src@.len() <= usize::MAX
    }

    /// What is still to come.
    pub open spec fn remaining(&self) -> Seq<LexItemView> {
        tokens_from(self.src@, self.state())
    }

    /// A tokenizer at the start of `source`.
    pub fn new(source: &str, in_expr: bool) -> (l: Lexer)
        ensures
            l.wf(),
            l.src@ == source@,
            l.state() == LexState::start(in_expr),
    {
        let src = to_chars(source);
        assert(src@.len() == src.len());
        Lexer {
            src,
            pos: 0,
            line: 1,
            col: 0,
            mode: if in_expr {
                Mode::Expression
            } else {
                Mode::Template
            },
            failed: false,
        }
    }

    fn has(&self, i: usize, c: char) -> (r: bool)
        ensures
            r == is_at(self.src@, i as int, c),
    {
        i < self.src.len() && self.src[i] == c
    }

    fn has_ahead(&self, offset: usize, c: char) -> (r: bool)
        requires
            self.wf(),
            offset <= 2,
        ensures
            r == is_at(self.src@, self.pos + offset, c),
    {
        offset < self.src.len() - self.pos && self.src[self.pos + offset] == c
    }

    fn advance_to(&mut self, to: usize)
        requires
            old(self).wf(),
            old(self).pos <= to <= old(self).src@.len(),
        ensures
            final(self).wf(),
            final(self).src == old(self).src,
            final(self).state() == moved(old(self).src@, old(self).state(), to as int),
    {
        let ghost goal = moved(self.src@, self.state(), to as int);
        while self.pos < to
            invariant
                self.pos <= to <= self.src@.len(),
                self.src == old(self).src,
                moved(self.src@, self.state(), to as int) == goal,
            decreases to - self.pos,
        {
            let c = self.src[self.pos];
            if c == '\n' {
                if self.line < usize::MAX {
                    self.line += 1;
                    self.col = 0;
                }
            } else if self.col < usize::MAX {
                self.col += 1;
            }
            self.pos += 1;
        }
    }

    fn scan_data_end(&self, from: usize) -> (e: usize)
        requires
            from <= self.src@.len(),
        ensures
            e == data_end(self.src@, from as int),
            from <= e <= self.src@.len(),
    {
        let n: usize = self.src.len();
        let mut i: usize = from;
        while i < n
            invariant
                from <= i <= n,
                n == self.src@.len(),
                data_end(self.src@, i as int) == data_end(self.src@, from as int),
            decreases n - i,
        {
            if self.src[i] == '{' && i + 1 < n && (self.src[i + 1] == '{' || self.src[i + 1] == '%'
                || self.src[i + 1] == '#') {
                return i;
            }
            i += 1;
        }
        i
    }

    fn scan_comment_end(&self, from: usize) -> (r: Option<usize>)
        requires
            from <= self.src@.len(),
        ensures
            match r {
                Some(e) => comment_end(self.src@, from as int) == Some(e as int) && from + 2 <= e
                    <= self.src@.len(),
                None => comment_end(self.src@, from as int) is None,
            },
    {
        let n: usize = self.src.len();
        let mut i: usize = from;
        while i < n && i + 1 < n
            invariant
                from <= i <= n,
                n == self.src@.len(),
                comment_end(self.src@, i as int) == comment_end(self.src@, from as int),
            decreases n - i,
        {
            if self.src[i] == '#' && self.src[i + 1] == '}' {
                return Some(i + 2);
            }
            i += 1;
        }
        None
    }

    fn scan_space_end(&self, from: usize) -> (e: usize)
        requires
            from <= self.src@.len(),
        ensures
            e == space_end(self.src@, from as int),
            from <= e <= self.src@.len(),
    {
        let n: usize = self.src.len();
        let mut i: usize = from;
        while i < n && char_is_space(self.src[i])
            invariant
                from <= i <= n,
                n == self.src@.len(),
                space_end(self.src@, i as int) == space_end(self.src@, from as int),
            decreases n - i,
        {
            i += 1;
        }
        i
    }

    fn scan_digits_end(&self, from: usize) -> (e: usize)
        requires
            from <= self.src@.len(),
        ensures
            e == digits_end(self.src@, from as int),
            from <= e <= self.src@.len(),
            forall|k: int| from <= k < e ==> is_digit(#[trigger] self.src@[k]),
    {
        let n: usize = self.src.len();
        let mut i: usize = from;
        while i < n && char_is_digit(self.src[i])
            invariant
                from <= i <= n,
                n == self.src@.len(),
                digits_end(self.src@, i as int) == digits_end(self.src@, from as int),
                forall|k: int| from <= k < i ==> is_digit(#[trigger] self.src@[k]),
            decreases n - i,
        {
            i += 1;
        }
        i
    }

    fn scan_ident_end(&self, from: usize) -> (e: usize)
        requires
            from <= self.src@.len(),
        ensures
            e == ident_end(self.src@, from as int),
            from <= e <= self.src@.len(),
    {
        let n: usize = self.src.len();
        let mut i: usize = from;
        while i < n && char_is_ident_part(self.src[i])
            invariant
                from <= i <= n,
                n == self.src@.len(),
                ident_end(self.src@, i as int) == ident_end(self.src@, from as int),
            decreases n - i,
        {
            i += 1;
        }
        i
    }

    fn scan_string_end(&self, from: usize, quote: char) -> (r: Option<usize>)
        requires
            from <= self.src@.len(),
        ensures
            match r {
                Some(e) => string_end(self.src@, from as int, quote) == Some(e as int) && from <= e
                    < self.src@.len(),
                None => string_end(self.src@, from as int, quote) is None,
            },
    {
        let n: usize = self.src.len();
        let mut i: usize = from;
        while i < n
            invariant
                from <= i <= n,
                n == self.src@.len(),
                string_end(self.src@, i as int, quote) == string_end(
                    self.src@,
                    from as int,
                    quote,
                ),
            decreases n - i,
        {
            let c = self.src[i];
            if c == '\\' {
                if i + 1 < n {
                    i += 2;
                } else {
                    return None;
                }
            } else if c == quote {
                return Some(i);
            } else {
                i += 1;
            }
        }
        None
    }

    /// Reads up to `to`, switches to `mode` and hands out `token` with the
    /// span that was read.
    fn emit(&mut self, token: Token, to: usize, mode: Mode) -> (r: Option<LexItem>)
        requires
            old(self).wf(),
            old(self).pos <= to <= old(self).src@.len(),
        ensures
            final(self).wf(),
            final(self).src == old(self).src,
            r matches Some(Ok((t, sp))) && self::emit(
                old(self).src@,
                old(self).state(),
                to as int,
                token@,
                mode,
            ) == Step::Emit(t@, sp, final(self).state()),
    {
        let start_line = self.line;
        let start_col = self.col;
        self.advance_to(to);
        self.mode = mode;
        let span = Span { start_line, start_col, end_line: self.line, end_col: self.col };
        Some(Ok((token, span)))
    }

    /// Reports a failure; nothing is produced after it.
    fn give_up(&mut self, message: &str) -> (r: Option<LexItem>)
        ensures
            final(self).src == old(self).src,
            final(self).pos == old(self).pos,
            final(self).failed,
            r matches Some(Err(e)) && self::fail(message@) == Step::Fail(e@),
    {
        self.failed = true;
        Some(Err(Error::syntax(message)))
    }

    /// One step outside tags. `None` stands for a comment that was passed over.
    fn template_token(&mut self) -> (r: Option<LexItem>)
        requires
            old(self).wf(),
            old(self).pos < old(self).src@.len(),
        ensures
            final(self).wf(),
            final(self).src == old(self).src,
            step_taken(template_step(old(self).src@, old(self).state()), r, final(self).state()),
    {
        if self.has_ahead(0, '{') && self.has_ahead(1, '{') {
            if self.has_ahead(2, '-') {
                self.emit(Token::VariableStart(true), self.pos + 3, Mode::Variable)
            } else {
                self.emit(Token::VariableStart(false), self.pos + 2, Mode::Variable)
            }
        } else if self.has_ahead(0, '{') && self.has_ahead(1, '%') {
            if self.has_ahead(2, '-') {
                self.emit(Token::BlockStart(true), self.pos + 3, Mode::Block)
            } else {
                self.emit(Token::BlockStart(false), self.pos + 2, Mode::Block)
            }
        } else if self.has_ahead(0, '{') && self.has_ahead(1, '#') {
            match self.scan_comment_end(self.pos + 2) {
                Some(end) => {
                    self.advance_to(end);
                    None
                },
                None => self.give_up("unexpected end of comment"),
            }
        } else {
            let end = self.scan_data_end(self.pos + 1);
            let raw = substring(&self.src, self.pos, end);
            self.emit(Token::TemplateData(raw), end, Mode::Template)
        }
    }

    /// The literal number that starts with the digit at the position.
    fn number_token(&mut self) -> (r: Option<LexItem>)
        requires
            old(self).wf(),
            old(self).pos < old(self).src@.len(),
            is_digit(old(self).src@[old(self).pos as int]),
        ensures
            final(self).wf(),
            final(self).src == old(self).src,
            step_taken(number_step(old(self).src@, old(self).state()), r, final(self).state()),
    {
        let p: usize = self.pos;
        let whole = self.scan_digits_end(p + 1);
        if self.has(whole, '.') {
            let end = self.scan_digits_end(whole + 1);
            let text = substring(&self.src, p, end);
            self.emit(Token::Float(text), end, self.mode)
        } else {
            let ghost digits = self.src@.subrange(p as int, whole as int);
            let mut acc: i64 = 0;
            let mut i: usize = p;
            while i < whole
                invariant
                    p <= i <= whole <= self.src@.len(),
                    digits == self.src@.subrange(p as int, whole as int),
                    forall|k: int| 0 <= k < digits.len() ==> is_digit(#[trigger] digits[k]),
                    acc == decimal_value(self.src@.subrange(p as int, i as int)),
                    acc >= 0,
                    self.src == old(self).src,
                    self.state() == old(self).state(),
                    self.wf(),
                    whole == digits_end(self.src@, p + 1),
                    !is_at(self.src@, whole as int, '.'),
                    p == self.pos,
                decreases whole - i,
            {
                let c = self.src[i];
                assert(is_digit(digits[i as int - p as int]));
                let d: i64 = (c as u32 - '0' as u32) as i64;
                proof {
                    let longer = self.src@.subrange(p as int, i as int + 1);
                    assert(longer.drop_last() =~= self.src@.subrange(p as int, i as int));
                    assert(longer.last() == c);
                    assert(d == digit_value(c));
                    assert(decimal_value(longer) == acc * 10 + d);
                    assert(digits.take(i as int + 1 - p as int) =~= longer);
                    lemma_decimal_prefix(digits, i as int + 1 - p as int);
                }
                if acc > (i64::MAX - d) / 10 {
                    return self.give_up("invalid integer");
                }
                acc = acc * 10 + d;
                i += 1;
            }
            self.emit(Token::Int(acc), whole, self.mode)
        }
    }

    /// One step inside a tag or an expression. `None` stands for white
    /// space that was passed over.
    fn code_token(&mut self) -> (r: Option<LexItem>)
        requires
            old(self).wf(),
            old(self).pos < old(self).src@.len(),
        ensures
            final(self).wf(),
            final(self).src == old(self).src,
            step_taken(code_step(old(self).src@, old(self).state()), r, final(self).state()),
    {
        let p: usize = self.pos;
        let c = self.src[p];
        if char_is_space(c) {
            let end = self.scan_space_end(p + 1);
            self.advance_to(end);
            return None;
        }
        match self.mode {
            Mode::Block => {
                if c == '-' && self.has_ahead(1, '%') && self.has_ahead(2, '}') {
                    return self.emit(Token::BlockEnd(true), p + 3, Mode::Template);
                }
                if c == '%' && self.has_ahead(1, '}') {
                    return self.emit(Token::BlockEnd(false), p + 2, Mode::Template);
                }
            },
            Mode::Variable => {
                if c == '-' && self.has_ahead(1, '}') && self.has_ahead(2, '}') {
                    return self.emit(Token::VariableEnd(true), p + 3, Mode::Template);
                }
                if c == '}' && self.has_ahead(1, '}') {
                    return self.emit(Token::VariableEnd(false), p + 2, Mode::Template);
                }
            },
            _ => {},
        }
        if p + 1 < self.src.len() {
            match two_char_token(c, self.src[p + 1]) {
                Some(token) => {
                    return self.emit(token, p + 2, self.mode);
                },
                None => {},
            }
        }
        match one_char_token(c) {
            Some(token) => {
                return self.emit(token, p + 1, self.mode);
            },
            None => {},
        }
        if c == '\'' || c == '"' {
            match self.scan_string_end(p + 1, c) {
                Some(end) => {
                    let text = substring(&self.src, p + 1, end);
                    self.emit(Token::Str(text), end + 1, self.mode)
                },
                None => self.give_up("unexpected end of string"),
            }
        } else if char_is_digit(c) {
            self.number_token()
        } else if char_is_ident_start(c) {
            let end = self.scan_ident_end(p + 1);
            let name = substring(&self.src, p, end);
            self.emit(Token::Ident(name), end, self.mode)
        } else {
            self.give_up("unexpected character")
        }
    }

    /// The next token, the failure that ends the sequence, or `None` once
    /// nothing is left.
    pub fn next_token(&mut self) -> (r: Option<LexItem>)
        requires
            old(self).wf(),
        ensures
            final(self).wf(),
            final(self).src == old(self).src,
            match r {
                Some(item) => old(self).remaining() == seq![item_view(item)] + final(self).remaining(),
                None => old(self).remaining() == Seq::<LexItemView>::empty() && final(self).remaining() == Seq::<LexItemView>::empty(),
            },
    {
        loop
            invariant
                self.wf(),
                self.src == old(self).src,
                self.remaining() == old(self).remaining(),
            decreases self.src@.len() - self.pos,
        {
            if self.failed || self.pos >= self.src.len() {
                return None;
            }
            proof {
                lemma_step_progress(self.src@, self.state());
            }
            let r = match self.mode {
                Mode::Template => self.template_token(),
                _ => self.code_token(),
            };
            if r.is_some() {
                return r;
            }
        }
    }
}

/// The tokenizer's outcome `r` and its state `after` are those of `step`.
/// `None` stands for a step that produced nothing.
pub open spec fn step_taken(step: Step, r: Option<LexItem>, after: LexState) -> bool {
    match step {
        Step::Done => false,
        Step::Skip(next) => r is None && after == next,
        Step::Emit(token, span, next) => r matches Some(Ok((t, sp))) && t@ == token && sp == span
            && after == next,
        Step::Fail(e) => r matches Some(Err(err)) && err@ == e && after.failed,
    }
}

} // verus!
