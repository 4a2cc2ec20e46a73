//! Source positions and the tokens the tokenizer hands to the parser.

use crate::error::{Error, ErrorView};
use crate::text::str_eq;
use vstd::prelude::*;

verus! {

/// A range of source text, from `(start_line, start_col)` to `(end_line, end_col)`.
#[derive(Clone, Copy, Debug, PartialEq, Eq, Structural)]
pub struct Span {
    pub start_line: usize,
    pub start_col: usize,
    pub end_line: usize,
    pub end_col: usize,
}

/// Position `(al, ac)` is not after position `(bl, bc)`.
pub open spec fn loc_le(al: usize, ac: usize, bl: usize, bc: usize) -> bool {
    al < bl || (al == bl && ac <= bc)
}

impl Span {
    /// The span every field of which is zero.
    pub open spec fn zero() -> Span {
        Span { start_line: 0, start_col: 0, end_line: 0, end_col: 0 }
    }

    /// The end is not before the start.
    pub open spec fn well_formed(self) -> bool {
        loc_le(self.start_line, self.start_col, self.end_line, self.end_col)
    }

    /// `inner` lies within this span.
    pub open spec fn contains(self, inner: Span) -> bool {
        &&& loc_le(self.start_line, self.start_col, inner.start_line, inner.start_col)
        &&& loc_le(inner.end_line, inner.end_col, self.end_line, self.end_col)
    }

    /// This span ends before `next` starts, or exactly where it starts.
    pub open spec fn precedes(self, next: Span) -> bool {
        loc_le(self.end_line, self.end_col, next.start_line, next.start_col)
    }

    /// The span from the start of this one to the end of `last`.
    pub open spec fn cover(self, last: Span) -> Span {
        Span {
            start_line: self.start_line,
            start_col: self.start_col,
            end_line: last.end_line,
            end_col: last.end_col,
        }
    }

    /// The span from the start of this one to the end of `last`.
    pub fn extend_to(self, last: Span) -> (s: Span)
        ensures
            s == self.cover(last),
    {
        Span {
            start_line: self.start_line,
            start_col: self.start_col,
            end_line: last.end_line,
            end_col: last.end_col,
        }
    }
}

impl Default for Span {
    fn default() -> (s: Span)
        ensures
            s == Span::zero(),
    {
        Span { start_line: 0, start_col: 0, end_line: 0, end_col: 0 }
    }
}

/// One lexical unit. The flag of the four tag markers tells whether the
/// marker was written with a dash (`{{-`, `-%}` and so on).
#[derive(Clone, Debug, PartialEq, Eq)]
pub enum Token {
    /// Raw template text between tags.
    TemplateData(String),
    /// `{{`
    VariableStart(bool),
    /// `}}`
    VariableEnd(bool),
    /// `{%`
    BlockStart(bool),
    /// `%}`
    BlockEnd(bool),
    /// An identifier or keyword.
    Ident(String),
    /// A string literal, without its quotes.
    Str(String),
    /// An integer literal.
    Int(i64),
    /// A floating-point literal, as written.
    Float(String),
    /// `+`
    Plus,
    /// `-`
    Minus,
    /// `*`
    Mul,
    /// `/`
    Div,
    /// `//`
    FloorDiv,
    /// `**`
    Pow,
    /// `%`
    Mod,
    /// `!`
    Bang,
    /// `.`
    Dot,
    /// `,`
    Comma,
    /// `:`
    Colon,
    /// `~`
    Tilde,
    /// `=`
    Assign,
    /// `|`
    Pipe,
    /// `==`
    Eq,
    /// `!=`
    Ne,
    /// `>`
    Gt,
    /// `>=`
    Gte,
    /// `<`
    Lt,
    /// `<=`
    Lte,
    /// `[`
    BracketOpen,
    /// `]`
    BracketClose,
    /// `(`
    ParenOpen,
    /// `)`
    ParenClose,
    /// `{`
    BraceOpen,
    /// `}`
    BraceClose,
}

/// The mathematical content of a [`Token`].
pub enum TokenView {
    TemplateData(Seq<char>),
    VariableStart(bool),
    VariableEnd(bool),
    BlockStart(bool),
    BlockEnd(bool),
    Ident(Seq<char>),
    Str(Seq<char>),
    Int(i64),
    Float(Seq<char>),
    Plus,
    Minus,
    Mul,
    Div,
    FloorDiv,
    Pow,
    Mod,
    Bang,
    Dot,
    Comma,
    Colon,
    Tilde,
    Assign,
    Pipe,
    Eq,
    Ne,
    Gt,
    Gte,
    Lt,
    Lte,
    BracketOpen,
    BracketClose,
    ParenOpen,
    ParenClose,
    BraceOpen,
    BraceClose,
}

impl View for Token {
    type V = TokenView;

    open spec fn view(&self) -> TokenView {
        match *self {
            Token::TemplateData(s) => TokenView::TemplateData(s@),
            Token::Ident(s) => TokenView::Ident(s@),
            Token::Str(s) => TokenView::Str(s@),
            Token::Float(s) => TokenView::Float(s@),
            Token::VariableStart(f) => TokenView::VariableStart(f),
            Token::VariableEnd(f) => TokenView::VariableEnd(f),
            Token::BlockStart(f) => TokenView::BlockStart(f),
            Token::BlockEnd(f) => TokenView::BlockEnd(f),
            Token::Int(v) => TokenView::Int(v),
            Token::Plus => TokenView::Plus,
            Token::Minus => TokenView::Minus,
            Token::Mul => TokenView::Mul,
            Token::Div => TokenView::Div,
            Token::FloorDiv => TokenView::FloorDiv,
            Token::Pow => TokenView::Pow,
            Token::Mod => TokenView::Mod,
            Token::Bang => TokenView::Bang,
            Token::Dot => TokenView::Dot,
            Token::Comma => TokenView::Comma,
            Token::Colon => TokenView::Colon,
            Token::Tilde => TokenView::Tilde,
            Token::Assign => TokenView::Assign,
            Token::Pipe => TokenView::Pipe,
            Token::Eq => TokenView::Eq,
            Token::Ne => TokenView::Ne,
            Token::Gt => TokenView::Gt,
            Token::Gte => TokenView::Gte,
            Token::Lt => TokenView::Lt,
            Token::Lte => TokenView::Lte,
            Token::BracketOpen => TokenView::BracketOpen,
            Token::BracketClose => TokenView::BracketClose,
            Token::ParenOpen => TokenView::ParenOpen,
            Token::ParenClose => TokenView::ParenClose,
            Token::BraceOpen => TokenView::BraceOpen,
            Token::BraceClose => TokenView::BraceClose,
        }
    }
}

impl TokenView {
    /// How the token is named in a diagnostic.
    pub open spec fn describe(self) -> Seq<char> {
        match self {
            TokenView::TemplateData(_) => "template-data"@,
            TokenView::VariableStart(_) => "start of variable block"@,
            TokenView::VariableEnd(_) => "end of variable block"@,
            TokenView::BlockStart(_) => "start of block"@,
            TokenView::BlockEnd(_) => "end of block"@,
            TokenView::Ident(_) => "identifier"@,
            TokenView::Str(_) => "string"@,
            TokenView::Int(_) => "integer"@,
            TokenView::Float(_) => "float"@,
            TokenView::Plus => "`+`"@,
            TokenView::Minus => "`-`"@,
            TokenView::Mul => "`*`"@,
            TokenView::Div => "`/`"@,
            TokenView::FloorDiv => "`//`"@,
            TokenView::Pow => "`**`"@,
            TokenView::Mod => "`%`"@,
            TokenView::Bang => "`!`"@,
            TokenView::Dot => "`.`"@,
            TokenView::Comma => "`,`"@,
            TokenView::Colon => "`:`"@,
            TokenView::Tilde => "`~`"@,
            TokenView::Assign => "`=`"@,
            TokenView::Pipe => "`|`"@,
            TokenView::Eq => "`==`"@,
            TokenView::Ne => "`!=`"@,
            TokenView::Gt => "`>`"@,
            TokenView::Gte => "`>=`"@,
            TokenView::Lt => "`<`"@,
            TokenView::Lte => "`<=`"@,
            TokenView::BracketOpen => "`[`"@,
            TokenView::BracketClose => "`]`"@,
            TokenView::ParenOpen => "`(`"@,
            TokenView::ParenClose => "`)`"@,
            TokenView::BraceOpen => "`{`"@,
            TokenView::BraceClose => "`}`"@,
        }
    }

    /// The token is the identifier `word`.
    pub open spec fn is_word(self, word: Seq<char>) -> bool {
        self == TokenView::Ident(word)
    }
}

impl Token {
    /// How the token is named in a diagnostic.
    pub fn describe(&self) -> (d: &'static str)
        ensures
            d@ == self@.describe(),
    {
        match self {
            Token::TemplateData(_) => "template-data",
            Token::VariableStart(_) => "start of variable block",
            Token::VariableEnd(_) => "end of variable block",
            Token::BlockStart(_) => "start of block",
            Token::BlockEnd(_) => "end of block",
            Token::Ident(_) => "identifier",
            Token::Str(_) => "string",
            Token::Int(_) => "integer",
            Token::Float(_) => "float",
            Token::Plus => "`+`",
            Token::Minus => "`-`",
            Token::Mul => "`*`",
            Token::Div => "`/`",
            Token::FloorDiv => "`//`",
            Token::Pow => "`**`",
            Token::Mod => "`%`",
            Token::Bang => "`!`",
            Token::Dot => "`.`",
            Token::Comma => "`,`",
            Token::Colon => "`:`",
            Token::Tilde => "`~`",
            Token::Assign => "`=`",
            Token::Pipe => "`|`",
            Token::Eq => "`==`",
            Token::Ne => "`!=`",
            Token::Gt => "`>`",
            Token::Gte => "`>=`",
            Token::Lt => "`<`",
            Token::Lte => "`<=`",
            Token::BracketOpen => "`[`",
            Token::BracketClose => "`]`",
            Token::ParenOpen => "`(`",
            Token::ParenClose => "`)`",
            Token::BraceOpen => "`{`",
            Token::BraceClose => "`}`",
        }
    }

    /// The token is the identifier `word`.
    pub fn is_word(&self, word: &str) -> (r: bool)
        ensures
            r == self@.is_word(word@),
    {
        match self {
            Token::Ident(name) => str_eq(name.as_str(), word),
            _ => false,
        }
    }
}

/// What the tokenizer yields at each step: a token with its span, or the
/// failure that ends the sequence.
pub type LexItem = Result<(Token, Span), Error>;

/// The mathematical content of a [`LexItem`].
pub type LexItemView = Result<(TokenView, Span), ErrorView>;

/// The mathematical content of what the tokenizer yields.
pub open spec fn item_view(item: LexItem) -> LexItemView {
    match item {
        Ok((token, span)) => Ok((token@, span)),
        Err(e) => Err(e@),
    }
}

} // verus!
