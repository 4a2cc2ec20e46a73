use template_syntax::ast::{Expr, Stmt};
use template_syntax::error::{Error, ErrorKind};
use template_syntax::grammar::Terminator;
use template_syntax::parser::{parse, Parser};
use template_syntax::tokens::Span;
use template_syntax::value::Value;

fn span(start_line: usize, start_col: usize, end_line: usize, end_col: usize) -> Span {
    Span { start_line, start_col, end_line, end_col }
}

/// The expression without its spans. Only the forms these tests use.
fn expr_shape(e: &Expr) -> String {
    match e {
        Expr::Var { id, .. } => id.clone(),
        Expr::Const { value: Value::Int(i), .. } => format!("{}", i),
        Expr::Const { value: Value::Bool(b), .. } => format!("{}", b),
        Expr::Const { value: Value::Str(text), .. } => format!("{:?}", text),
        Expr::BinOp { op, left, right, .. } => {
            format!("({:?} {} {})", op, expr_shape(left), expr_shape(right))
        }
        Expr::Filter { name, expr, .. } => format!("(Filter {} {})", name, expr_shape(expr)),
        other => format!("{:?}", other),
    }
}

fn body_shape(body: &[Stmt]) -> String {
    let parts: Vec<String> = body.iter().map(shape).collect();
    format!("[{}]", parts.join(" "))
}

/// The statement without its spans, written with parentheses.
fn shape(s: &Stmt) -> String {
    match s {
        Stmt::Template { children, .. } => format!("(Template {})", body_shape(children)),
        Stmt::EmitExpr { expr, .. } => format!("(Emit {})", expr_shape(expr)),
        Stmt::EmitRaw { raw, .. } => format!("{:?}", raw),
        Stmt::ForLoop { target, iter, body, .. } => {
            format!("(For {} {} {})", target, expr_shape(iter), body_shape(body))
        }
        Stmt::IfCond { expr, true_body, false_body, .. } => format!(
            "(If {} {} {})",
            expr_shape(expr),
            body_shape(true_body),
            body_shape(false_body)
        ),
        Stmt::WithBlock { assignments, body, .. } => {
            let parts: Vec<String> = assignments
                .iter()
                .map(|(name, value)| format!("{}={}", name, expr_shape(value)))
                .collect();
            format!("(With {{{}}} {})", parts.join(" "), body_shape(body))
        }
        Stmt::Block { name, body, .. } => format!("(Block {} {})", name, body_shape(body)),
        Stmt::Extends { name, .. } => format!("(Extends {})", expr_shape(name)),
        Stmt::AutoEscape { enabled, body, .. } => {
            format!("(AutoEscape {} {})", expr_shape(enabled), body_shape(body))
        }
    }
}

fn parsed(source: &str) -> String {
    shape(&parse(source, "test.html").unwrap())
}

fn failed(source: &str) -> Error {
    let e = parse(source, "test.html").unwrap_err();
    assert_eq!(e.kind(), ErrorKind::SyntaxError);
    assert_eq!(e.filename(), Some("test.html"));
    assert!(e.line().is_some());
    e
}

fn le(a: (usize, usize), b: (usize, usize)) -> bool {
    a.0 < b.0 || (a.0 == b.0 && a.1 <= b.1)
}

fn contains(outer: Span, inner: Span) -> bool {
    le((outer.start_line, outer.start_col), (inner.start_line, inner.start_col))
        && le((inner.end_line, inner.end_col), (outer.end_line, outer.end_col))
}

fn exprs_of(s: &Stmt) -> Vec<&Expr> {
    match s {
        Stmt::EmitExpr { expr, .. } | Stmt::IfCond { expr, .. } => vec![expr],
        Stmt::ForLoop { iter, .. } => vec![iter],
        Stmt::WithBlock { assignments, .. } => assignments.iter().map(|a| &a.1).collect(),
        Stmt::Extends { name, .. } => vec![name],
        Stmt::AutoEscape { enabled, .. } => vec![enabled],
        _ => vec![],
    }
}

fn stmts_of(s: &Stmt) -> Vec<&Stmt> {
    match s {
        Stmt::Template { children, .. } => children.iter().collect(),
        Stmt::ForLoop { body, .. }
        | Stmt::WithBlock { body, .. }
        | Stmt::Block { body, .. }
        | Stmt::AutoEscape { body, .. } => body.iter().collect(),
        Stmt::IfCond { true_body, false_body, .. } => {
            true_body.iter().chain(false_body.iter()).collect()
        }
        _ => vec![],
    }
}

fn nested(s: &Stmt) -> bool {
    let own = s.span();
    le((own.start_line, own.start_col), (own.end_line, own.end_col))
        && exprs_of(s).iter().all(|e| contains(own, e.span()))
        && stmts_of(s).iter().all(|c| contains(own, c.span()) && nested(c))
}

#[test]
fn a_printed_expression_spans_both_its_markers() {
    let tree = parse("{{ a }}", "test.html").unwrap();
    assert_eq!(
        tree,
        Stmt::Template {
            children: vec![Stmt::EmitExpr {
                expr: Expr::Var { id: "a".to_string(), span: span(1, 3, 1, 4) },
                span: span(1, 0, 1, 7),
            }],
            span: span(1, 0, 1, 7),
        }
    );
    let tree = parse("{{-\n a + 1\n-}}", "test.html").unwrap();
    match &tree {
        Stmt::Template { children, .. } => assert_eq!(children[0].span(), span(1, 0, 3, 3)),
        other => panic!("unexpected node {:?}", other),
    }
}

#[test]
fn a_body_stops_in_front_of_its_keyword() {
    let mut parser = Parser::new("a{{ b }}{% endfor %}c", "t", false);
    let body = parser.subparse(Terminator::EndFor).unwrap();
    assert_eq!(body_shape(&body), "[\"a\" (Emit b)]");
    assert_eq!(parser.last_span(), span(1, 8, 1, 10));
    assert_eq!(expr_shape(&parser.parse_expr().unwrap()), "endfor");

    let mut parser = Parser::new("a{% else %}b{% endif %}", "t", false);
    assert_eq!(parser.subparse(Terminator::EndIf).unwrap_err().message(), "unknown block");

    let mut parser = Parser::new("a{% else %}b{% endif %}", "t", false);
    assert_eq!(body_shape(&parser.subparse(Terminator::Branch).unwrap()), "[\"a\"]");
    assert_eq!(expr_shape(&parser.parse_expr().unwrap()), "else");

    let mut parser = Parser::new("a{{ b }}", "t", false);
    assert_eq!(body_shape(&parser.subparse(Terminator::EndFor).unwrap()), "[\"a\" (Emit b)]");
    assert_eq!(parser.last_span(), span(1, 6, 1, 8));
    assert_eq!(
        parser.parse_expr().unwrap_err().message(),
        "unexpected end of input, expected expression"
    );
}

#[test]
fn empty_template() {
    assert_eq!(
        parse("", "test.html").unwrap(),
        Stmt::Template { children: vec![], span: Span::default() }
    );
}

#[test]
fn raw_text_and_printed_expressions() {
    let tree = parse("a{{ b }}c", "test.html").unwrap();
    assert_eq!(
        tree,
        Stmt::Template {
            children: vec![
                Stmt::EmitRaw { raw: "a".to_string(), span: span(1, 0, 1, 1) },
                Stmt::EmitExpr {
                    expr: Expr::Var { id: "b".to_string(), span: span(1, 4, 1, 5) },
                    span: span(1, 1, 1, 8),
                },
                Stmt::EmitRaw { raw: "c".to_string(), span: span(1, 8, 1, 9) },
            ],
            span: span(1, 0, 1, 9),
        }
    );
}

#[test]
fn for_loop() {
    assert_eq!(
        parsed("{% for i in x %}{{ i }}{% endfor %}"),
        "(Template [(For i x [(Emit i)])])"
    );
    assert_eq!(parsed("{% for i in x %}{% endfor %}"), "(Template [(For i x [])])");
    let tree = parse("{% for i in x %}{% endfor %}", "test.html").unwrap();
    match &tree {
        Stmt::Template { children, .. } => assert_eq!(children[0].span(), span(1, 3, 1, 25)),
        other => panic!("unexpected node {:?}", other),
    }
}

#[test]
fn reserved_names_cannot_be_assigned_to() {
    let e = failed("{% for true in x %}{% endfor %}");
    assert_eq!(e.message(), "cannot assign to reserved variable name true");
    assert_eq!(e.line(), Some(1));
    for name in ["true", "True", "false", "False", "none", "None", "loop"] {
        assert_eq!(
            failed(&format!("{{% for {} in x %}}{{% endfor %}}", name)).message(),
            format!("cannot assign to reserved variable name {}", name)
        );
        assert_eq!(
            failed(&format!("{{% with {} = 1 %}}{{% endwith %}}", name)).message(),
            format!("cannot assign to reserved variable name {}", name)
        );
    }
    for name in ["TRUE", "Loop", "nONE", "i"] {
        assert!(parse(&format!("{{% for {} in x %}}{{% endfor %}}", name), "t").is_ok());
    }
}

#[test]
fn for_needs_a_name_and_in() {
    assert_eq!(failed("{% for 1 in x %}").message(), "unexpected integer, expected identifier");
    assert_eq!(failed("{% for i of x %}").message(), "unexpected identifier, expected in");
    assert_eq!(failed("{% for i in %}").message(), "unexpected end of block");
    assert_eq!(
        failed("{% for i in x y %}").message(),
        "unexpected identifier, expected end of block"
    );
}

#[test]
fn block_names_must_match() {
    let e = failed("{% block a %}hi{% endblock b %}");
    assert_eq!(e.message(), "mismatching name on block. Got `b`, expected `a`");
    let named = parse("{% block a %}hi{% endblock a %}", "test.html").unwrap();
    let bare = parse("{% block a %}hi{% endblock %}", "test.html").unwrap();
    assert_eq!(shape(&named), "(Template [(Block a [\"hi\"])])");
    assert_eq!(shape(&named), shape(&bare));
    match (&named, &bare) {
        (Stmt::Template { children: n, .. }, Stmt::Template { children: b, .. }) => {
            assert_eq!(n[0].span(), span(1, 3, 1, 28));
            assert_eq!(b[0].span(), span(1, 3, 1, 26));
        }
        other => panic!("unexpected nodes {:?}", other),
    }
}

#[test]
fn if_elif_else_nest() {
    let tree = parse("{% if a %}x{% elif b %}y{% else %}z{% endif %}", "test.html").unwrap();
    assert_eq!(shape(&tree), "(Template [(If a [\"x\"] [(If b [\"y\"] [\"z\"])])])");
    let outer = match &tree {
        Stmt::Template { children, .. } => &children[0],
        other => panic!("unexpected node {:?}", other),
    };
    match outer {
        Stmt::IfCond { false_body, span: outer_span, .. } => {
            assert_eq!(false_body.len(), 1);
            assert_eq!(*outer_span, span(1, 3, 1, 43));
            match &false_body[0] {
                Stmt::IfCond { false_body: innermost, span: inner_span, .. } => {
                    assert_eq!(*inner_span, span(1, 14, 1, 43));
                    assert_eq!(
                        innermost,
                        &vec![Stmt::EmitRaw { raw: "z".to_string(), span: span(1, 34, 1, 35) }]
                    );
                }
                other => panic!("unexpected node {:?}", other),
            }
        }
        other => panic!("unexpected node {:?}", other),
    }
}

#[test]
fn if_without_else_has_no_false_branch() {
    assert_eq!(parsed("{% if a %}x{% endif %}"), "(Template [(If a [\"x\"] [])])");
    assert_eq!(parsed("{% if a %}x{% else %}{% endif %}"), "(Template [(If a [\"x\"] [])])");
    assert_eq!(
        parsed("{% if a %}{% if b %}x{% endif %}{% else %}y{% endif %}"),
        "(Template [(If a [(If b [\"x\"] [])] [\"y\"])])"
    );
    assert_eq!(
        parsed("{% if a %}1{% elif b %}2{% elif c %}3{% endif %}"),
        "(Template [(If a [\"1\"] [(If b [\"2\"] [(If c [\"3\"] [])])])])"
    );
}

#[test]
fn with_block() {
    assert_eq!(
        parsed("{% with a = 1, b = x|f %}{{ a }}{% endwith %}"),
        "(Template [(With {a=1 b=(Filter f x)} [(Emit a)])])"
    );
    assert_eq!(parsed("{% with %}x{% endwith %}"), "(Template [(With {} [\"x\"])])");
    assert_eq!(
        failed("{% with a = 1 b = 2 %}{% endwith %}").message(),
        "unexpected identifier, expected comma"
    );
    assert_eq!(
        failed("{% with a 1 %}{% endwith %}").message(),
        "unexpected integer, expected assignment operator"
    );
    assert_eq!(
        failed("{% with a = 1, %}{% endwith %}").message(),
        "unexpected end of block, expected identifier"
    );
    assert_eq!(failed("{% with a = 1").message(), "unexpected end of input, expected comma");
}

#[test]
fn extends_and_autoescape() {
    assert_eq!(parsed("{% extends 'base.html' %}"), "(Template [(Extends \"base.html\")])");
    assert_eq!(
        parsed("{% autoescape true %}{{ x }}{% endautoescape %}"),
        "(Template [(AutoEscape true [(Emit x)])])"
    );
    assert_eq!(
        parsed("{% extends a ~ b %}tail"),
        "(Template [(Extends (Concat a b)) \"tail\"])"
    );
}

#[test]
fn statements_nest() {
    assert_eq!(
        parsed(
            "{% block main %}{% for i in xs %}{% if i %}{{ i }}{% endif %}{% endfor %}{% endblock main %}"
        ),
        "(Template [(Block main [(For i xs [(If i [(Emit i)] [])])])])"
    );
}

#[test]
fn a_missing_operand_is_reported() {
    let e = failed("{{ 1 + }}");
    assert_eq!(e.message(), "unexpected end of variable block");
    assert!(e.message().contains("end of variable block"));
    assert_eq!(e.filename(), Some("test.html"));
    assert_eq!(e.line(), Some(1));
}

#[test]
fn unknown_tags_fail() {
    assert_eq!(failed("{% frobnicate %}").message(), "unknown block");
    assert_eq!(failed("{% 1 %}").message(), "unknown block");
    assert_eq!(failed("{% endfor %}").message(), "unknown block");
    assert_eq!(failed("{% %}").message(), "unknown block");
}

#[test]
fn unfinished_tags_fail() {
    assert_eq!(failed("{%").message(), "unexpected end of input, expected keyword");
    assert_eq!(
        failed("{{ 1").message(),
        "unexpected end of input, expected end of variable block"
    );
    assert_eq!(failed("{{ 1 %}").message(), "unexpected `}`");
    assert_eq!(
        failed("{% if a %}x").message(),
        "unexpected end of input, expected end of block"
    );
    assert_eq!(
        failed("{% for i in x %}{% endfor").message(),
        "unexpected end of input, expected end of block"
    );
    assert_eq!(
        failed("{% block a %}{% endblock 1 %}").message(),
        "unexpected integer, expected end of block"
    );
    assert_eq!(
        failed("{% if a %}{% else x %}{% endif %}").message(),
        "unexpected identifier, expected end of block"
    );
}

#[test]
fn failures_carry_file_and_line() {
    let e = failed("line one\n{{ 1 + }}");
    assert_eq!(e.line(), Some(2));
    let e = failed("a\nb\n{% for loop in x %}");
    assert_eq!(e.line(), Some(3));
    let e = failed("a\n{# open");
    assert_eq!(e.message(), "unexpected end of comment");
    assert_eq!(e.line(), Some(1));
    let e = failed("{# open");
    assert_eq!(e.line(), Some(0));
    let e = parse("{{ ( }}", "other.txt").unwrap_err();
    assert_eq!(e.filename(), Some("other.txt"));
}

#[test]
fn spans_nest_in_every_template() {
    for source in [
        "a{{ b + c }}d",
        "{% for i in x|f %}\n  {{ i }}\n{% endfor %}",
        "{% if a %}x{% elif b %}y{% else %}z{% endif %}",
        "{% with a = 1,\n b = [2, 3] %}{{ a }}{% endwith %}tail",
        "{% block a %}{% autoescape false %}hi{% endautoescape %}{% endblock a %}",
        "{% extends 'x' %}\n{# note #}\n{% block b %}{% endblock %}",
    ] {
        assert!(nested(&parse(source, "test.html").unwrap()), "{}", source);
    }
}

#[test]
fn the_same_template_gives_the_same_tree() {
    let source = "{% for i in x %}{{ i|f }}{% endfor %}{% if a %}b{% endif %}";
    assert_eq!(parse(source, "a").unwrap(), parse(source, "a").unwrap());
    assert_eq!(parse(source, "a").unwrap(), parse(source, "b").unwrap());
    assert_eq!(parse("{{", "a").unwrap_err(), parse("{{", "a").unwrap_err());
}

#[test]
fn templates_parse_alike_alone_and_in_a_row() {
    let first = "{% if a %}x{% endif %}";
    let second = "{{ y }}tail";
    let alone_first = parse(first, "t").unwrap();
    let alone_second = parse(second, "t").unwrap();
    let in_a_row = (parse(first, "t").unwrap(), parse(second, "t").unwrap());
    assert_eq!(in_a_row, (alone_first, alone_second));
}

#[test]
fn joined_templates_have_the_statements_of_both() {
    let cases = [
        ("{% if a %}x{% endif %}", "{{ y }}tail"),
        ("{{ a }}", "b{% for i in x %}{{ i }}{% endfor %}"),
        ("", "{{ a|f }}"),
        ("{% block a %}{% endblock a %}", ""),
        ("one{# note #}", "{% extends 'x' %}"),
    ];
    for (first, second) in cases {
        let alone_first = parse(first, "t").unwrap();
        let alone_second = parse(second, "t").unwrap();
        let joined = parse(&format!("{}{}", first, second), "t").unwrap();
        match (&alone_first, &alone_second, &joined) {
            (
                Stmt::Template { children: a, .. },
                Stmt::Template { children: b, .. },
                Stmt::Template { children: both, .. },
            ) => {
                let mut expected: Vec<String> = a.iter().map(shape).collect();
                expected.extend(b.iter().map(shape));
                let found: Vec<String> = both.iter().map(shape).collect();
                assert_eq!(found, expected, "{} + {}", first, second);
            }
            other => panic!("unexpected nodes {:?}", other),
        }
    }
}

#[test]
fn a_brace_at_the_seam_can_open_a_tag() {
    assert!(parse("a{", "t").is_ok());
    assert!(parse("{{ x }}", "t").is_ok());
    assert_eq!(parse("a{{{ x }}", "t").unwrap_err().message(), "unexpected end of variable block, expected `:`");
}

#[test]
fn a_body_leaves_its_closing_keyword_to_the_caller() {
    let mut parser = Parser::new("a{% endfor %}", "t", false);
    assert_eq!(parser.parse().unwrap_err().message(), "unknown block");
    assert_eq!(parser.last_span(), span(1, 4, 1, 10));
}

#[test]
fn code_where_text_should_be_is_refused() {
    let mut parser = Parser::new("a + b", "t", true);
    assert_eq!(parser.parse().unwrap_err().message(), "unexpected identifier");
}
