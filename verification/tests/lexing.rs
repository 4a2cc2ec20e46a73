use template_syntax::error::ErrorKind;
use template_syntax::lexer::{Lexer, Mode};
use template_syntax::parser::TokenStream;
use template_syntax::text::{str_eq, substring, to_chars};
use template_syntax::tokens::{Span, Token};

fn span(start_line: usize, start_col: usize, end_line: usize, end_col: usize) -> Span {
    Span { start_line, start_col, end_line, end_col }
}

fn tokens(source: &str, in_expr: bool) -> Vec<Token> {
    let mut lexer = Lexer::new(source, in_expr);
    let mut out = Vec::new();
    while let Some(item) = lexer.next_token() {
        out.push(item.unwrap().0);
    }
    out
}

fn failure(source: &str, in_expr: bool) -> String {
    let mut lexer = Lexer::new(source, in_expr);
    while let Some(item) = lexer.next_token() {
        if let Err(e) = item {
            assert_eq!(e.kind(), ErrorKind::SyntaxError);
            assert_eq!(e.line(), None);
            assert!(lexer.next_token().is_none());
            return e.message().to_string();
        }
    }
    panic!("the tokenizer did not fail");
}

fn ident(name: &str) -> Token {
    Token::Ident(name.to_string())
}

#[test]
fn raw_text_is_one_token() {
    assert_eq!(
        tokens("hello {world", false),
        vec![Token::TemplateData("hello {world".to_string())]
    );
}

#[test]
fn empty_source_has_no_tokens() {
    assert_eq!(tokens("", false), vec![]);
    assert_eq!(tokens("", true), vec![]);
    assert_eq!(tokens("  \n\t ", true), vec![]);
}

#[test]
fn tags_switch_between_text_and_code() {
    assert_eq!(
        tokens("a{{ b }}c{% d %}e", false),
        vec![
            Token::TemplateData("a".to_string()),
            Token::VariableStart(false),
            ident("b"),
            Token::VariableEnd(false),
            Token::TemplateData("c".to_string()),
            Token::BlockStart(false),
            ident("d"),
            Token::BlockEnd(false),
            Token::TemplateData("e".to_string()),
        ]
    );
}

#[test]
fn dash_markers_are_flagged() {
    assert_eq!(
        tokens("{{- a -}}{%- b -%}", false),
        vec![
            Token::VariableStart(true),
            ident("a"),
            Token::VariableEnd(true),
            Token::BlockStart(true),
            ident("b"),
            Token::BlockEnd(true),
        ]
    );
}

#[test]
fn minus_before_other_text_is_an_operator() {
    assert_eq!(
        tokens("{{ a - b }}", false),
        vec![
            Token::VariableStart(false),
            ident("a"),
            Token::Minus,
            ident("b"),
            Token::VariableEnd(false),
        ]
    );
}

#[test]
fn comments_are_dropped() {
    assert_eq!(
        tokens("a{# note {{ x }} #}b", false),
        vec![Token::TemplateData("a".to_string()), Token::TemplateData("b".to_string())]
    );
}

#[test]
fn operators_and_punctuation() {
    assert_eq!(
        tokens("+ - * / // % ** ~ = . , : [ ] ( ) { } | !", true),
        vec![
            Token::Plus,
            Token::Minus,
            Token::Mul,
            Token::Div,
            Token::FloorDiv,
            Token::Mod,
            Token::Pow,
            Token::Tilde,
            Token::Assign,
            Token::Dot,
            Token::Comma,
            Token::Colon,
            Token::BracketOpen,
            Token::BracketClose,
            Token::ParenOpen,
            Token::ParenClose,
            Token::BraceOpen,
            Token::BraceClose,
            Token::Pipe,
            Token::Bang,
        ]
    );
    assert_eq!(
        tokens("== != < <= > >=", true),
        vec![Token::Eq, Token::Ne, Token::Lt, Token::Lte, Token::Gt, Token::Gte]
    );
}

#[test]
fn closing_braces_stay_braces_in_an_expression() {
    assert_eq!(
        tokens("{1: {2: 3}}", true),
        vec![
            Token::BraceOpen,
            Token::Int(1),
            Token::Colon,
            Token::BraceOpen,
            Token::Int(2),
            Token::Colon,
            Token::Int(3),
            Token::BraceClose,
            Token::BraceClose,
        ]
    );
}

#[test]
fn numbers() {
    assert_eq!(tokens("0", true), vec![Token::Int(0)]);
    assert_eq!(tokens("42", true), vec![Token::Int(42)]);
    assert_eq!(tokens("007", true), vec![Token::Int(7)]);
    assert_eq!(tokens("9223372036854775807", true), vec![Token::Int(i64::MAX)]);
    assert_eq!(tokens("1.5", true), vec![Token::Float("1.5".to_string())]);
    assert_eq!(tokens("1.", true), vec![Token::Float("1.".to_string())]);
    assert_eq!(
        tokens("1.2.3", true),
        vec![Token::Float("1.2".to_string()), Token::Dot, Token::Int(3)]
    );
    assert_eq!(tokens("x.0", true), vec![ident("x"), Token::Dot, Token::Int(0)]);
}

#[test]
fn integer_out_of_range_fails() {
    assert_eq!(failure("9223372036854775808", true), "invalid integer");
    assert_eq!(failure("{{ 99999999999999999999999 }}", false), "invalid integer");
}

#[test]
fn strings_keep_their_text() {
    assert_eq!(tokens("'abc'", true), vec![Token::Str("abc".to_string())]);
    assert_eq!(tokens("\"a'b\"", true), vec![Token::Str("a'b".to_string())]);
    assert_eq!(tokens("''", true), vec![Token::Str(String::new())]);
    assert_eq!(tokens("'a\\'b'", true), vec![Token::Str("a\\'b".to_string())]);
    assert_eq!(tokens("'h\u{e9}llo'", true), vec![Token::Str("h\u{e9}llo".to_string())]);
}

#[test]
fn identifiers() {
    assert_eq!(tokens("foo _bar b4z", true), vec![ident("foo"), ident("_bar"), ident("b4z")]);
    assert_eq!(tokens("4x", true), vec![Token::Int(4), ident("x")]);
}

#[test]
fn malformed_input_fails() {
    assert_eq!(failure("'abc", true), "unexpected end of string");
    assert_eq!(failure("'abc\\", true), "unexpected end of string");
    assert_eq!(failure("a{# never closed", false), "unexpected end of comment");
    assert_eq!(failure("{#}", false), "unexpected end of comment");
    assert_eq!(failure("a ? b", true), "unexpected character");
    assert_eq!(failure("{{ \u{e9} }}", false), "unexpected character");
}

#[test]
fn spans_count_lines_and_columns() {
    let mut lexer = Lexer::new("ab\ncd{{ x\n  + 1 }}", false);
    let mut spans = Vec::new();
    while let Some(item) = lexer.next_token() {
        spans.push(item.unwrap().1);
    }
    assert_eq!(
        spans,
        vec![
            span(1, 0, 2, 2),
            span(2, 2, 2, 4),
            span(2, 5, 2, 6),
            span(3, 2, 3, 3),
            span(3, 4, 3, 5),
            span(3, 6, 3, 8),
        ]
    );
}

#[test]
fn lexer_starts_in_the_mode_asked_for() {
    assert_eq!(Lexer::new("x", false).mode, Mode::Template);
    assert_eq!(Lexer::new("x", true).mode, Mode::Expression);
    let lexer = Lexer::new("x", true);
    assert_eq!((lexer.pos, lexer.line, lexer.col, lexer.failed), (0, 1, 0, false));
}

#[test]
fn token_names_in_diagnostics() {
    assert_eq!(ident("x").describe(), "identifier");
    assert_eq!(Token::Str("x".to_string()).describe(), "string");
    assert_eq!(Token::Int(1).describe(), "integer");
    assert_eq!(Token::Float("1.0".to_string()).describe(), "float");
    assert_eq!(Token::TemplateData("x".to_string()).describe(), "template-data");
    assert_eq!(Token::VariableStart(false).describe(), "start of variable block");
    assert_eq!(Token::VariableEnd(true).describe(), "end of variable block");
    assert_eq!(Token::BlockStart(false).describe(), "start of block");
    assert_eq!(Token::BlockEnd(false).describe(), "end of block");
    assert_eq!(Token::FloorDiv.describe(), "`//`");
    assert_eq!(Token::ParenClose.describe(), "`)`");
}

#[test]
fn words_are_compared_exactly() {
    assert!(ident("or").is_word("or"));
    assert!(!ident("Or").is_word("or"));
    assert!(!ident("orr").is_word("or"));
    assert!(!Token::Str("or".to_string()).is_word("or"));
    assert!(str_eq("", ""));
    assert!(str_eq("h\u{e9}", "h\u{e9}"));
    assert!(!str_eq("ab", "ba"));
    assert!(!str_eq("ab", "abc"));
}

#[test]
fn characters_and_substrings() {
    let chars = to_chars("h\u{e9}llo");
    assert_eq!(chars, vec!['h', '\u{e9}', 'l', 'l', 'o']);
    assert_eq!(substring(&chars, 1, 4), "\u{e9}ll");
    assert_eq!(substring(&chars, 2, 2), "");
    assert_eq!(substring(&chars, 0, 5), "h\u{e9}llo");
}

#[test]
fn span_extends_to_the_end_of_another() {
    assert_eq!(span(1, 2, 1, 3).extend_to(span(4, 0, 5, 6)), span(1, 2, 5, 6));
    assert_eq!(Span::default(), span(0, 0, 0, 0));
}

#[test]
fn stream_hands_out_tokens_in_order() {
    let mut stream = TokenStream::new("a + 1", true);
    assert_eq!(stream.current_span(), Span::default());
    let first = stream.next().unwrap().unwrap();
    assert_eq!(first, (ident("a"), span(1, 0, 1, 1)));
    assert_eq!(stream.current_span(), span(1, 0, 1, 1));
    assert_eq!(stream.next().unwrap().unwrap().0, Token::Plus);
    assert_eq!(stream.next().unwrap().unwrap().0, Token::Int(1));
    assert_eq!(stream.current_span(), span(1, 4, 1, 5));
    assert!(stream.next().unwrap().is_none());
    assert!(stream.next().unwrap().is_none());
    assert_eq!(stream.current_span(), span(1, 4, 1, 5));
}

#[test]
fn stream_peeks_without_advancing() {
    let mut stream = TokenStream::new("a b", true);
    assert_eq!(stream.current().unwrap().unwrap(), (&ident("a"), span(1, 0, 1, 1)));
    assert_eq!(stream.current().unwrap().unwrap(), (&ident("a"), span(1, 0, 1, 1)));
    assert_eq!(stream.current_span(), Span::default());
    assert_eq!(stream.next().unwrap().unwrap().0, ident("a"));
    assert_eq!(stream.current().unwrap().unwrap().0, &ident("b"));
    assert_eq!(stream.next().unwrap().unwrap().0, ident("b"));
    assert!(stream.current().unwrap().is_none());
    assert!(stream.next().unwrap().is_none());
}

#[test]
fn stream_expands_a_span_to_the_last_token() {
    let mut stream = TokenStream::new("a + 1", true);
    let (_, start) = stream.next().unwrap().unwrap();
    stream.next().unwrap();
    stream.current().unwrap();
    assert_eq!(stream.expand_span(start), span(1, 0, 1, 3));
    stream.next().unwrap();
    assert_eq!(stream.expand_span(start), span(1, 0, 1, 5));
}

#[test]
fn stream_hands_a_failure_on_once() {
    let mut stream = TokenStream::new("a ?", true);
    assert_eq!(stream.next().unwrap().unwrap().0, ident("a"));
    let e = stream.current().unwrap_err();
    assert_eq!(e.message(), "unexpected character");
    assert!(stream.current().unwrap().is_none());
    assert!(stream.next().unwrap().is_none());

    let mut stream = TokenStream::new("?", true);
    assert_eq!(stream.next().unwrap_err().message(), "unexpected character");
    assert!(stream.next().unwrap().is_none());
}
