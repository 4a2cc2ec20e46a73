use template_syntax::ast::{BinOpKind, Expr, UnaryOpKind};
use template_syntax::error::{Error, ErrorKind};
use template_syntax::parser::{parse_expr, Parser};
use template_syntax::tokens::Span;
use template_syntax::value::Value;

fn span(start_line: usize, start_col: usize, end_line: usize, end_col: usize) -> Span {
    Span { start_line, start_col, end_line, end_col }
}

fn list(items: &[Expr]) -> String {
    let mut out = String::new();
    for item in items {
        out.push(' ');
        out.push_str(&shape(item));
    }
    out
}

/// The tree without its spans, written with parentheses.
fn shape(e: &Expr) -> String {
    match e {
        Expr::Var { id, .. } => id.clone(),
        Expr::Const { value, .. } => match value {
            Value::Null => "none".to_string(),
            Value::Bool(b) => format!("{}", b),
            Value::Int(i) => format!("{}", i),
            Value::Float(text) => format!("float:{}", text),
            Value::Str(text) => format!("{:?}", text),
        },
        Expr::UnaryOp { op, expr, .. } => format!("({:?} {})", op, shape(expr)),
        Expr::BinOp { op, left, right, .. } => {
            format!("({:?} {} {})", op, shape(left), shape(right))
        }
        Expr::Filter { name, expr, args, .. } => {
            format!("(Filter {} {}{})", name, shape(expr), list(args))
        }
        Expr::Test { name, expr, args, .. } => {
            format!("(Test {} {}{})", name, shape(expr), list(args))
        }
        Expr::GetAttr { name, expr, .. } => format!("(GetAttr {} {})", shape(expr), name),
        Expr::GetItem { expr, subscript_expr, .. } => {
            format!("(GetItem {} {})", shape(expr), shape(subscript_expr))
        }
        Expr::Call { expr, args, .. } => format!("(Call {}{})", shape(expr), list(args)),
        Expr::List { items, .. } => format!("[{}]", list(items).trim_start()),
        Expr::Dict { keys, values, .. } => {
            let mut out = String::new();
            for (k, v) in keys.iter().zip(values.iter()) {
                out.push_str(&format!(" {}: {}", shape(k), shape(v)));
            }
            format!("{{{}}}", out.trim_start())
        }
    }
}

fn parsed(source: &str) -> String {
    shape(&parse_expr(source).unwrap())
}

fn failed(source: &str) -> Error {
    let e = parse_expr(source).unwrap_err();
    assert_eq!(e.kind(), ErrorKind::SyntaxError);
    assert_eq!(e.filename(), Some("<expression>"));
    e
}

fn le(a: (usize, usize), b: (usize, usize)) -> bool {
    a.0 < b.0 || (a.0 == b.0 && a.1 <= b.1)
}

fn contains(outer: Span, inner: Span) -> bool {
    le((outer.start_line, outer.start_col), (inner.start_line, inner.start_col))
        && le((inner.end_line, inner.end_col), (outer.end_line, outer.end_col))
}

fn children(e: &Expr) -> Vec<&Expr> {
    match e {
        Expr::Var { .. } | Expr::Const { .. } => vec![],
        Expr::UnaryOp { expr, .. } | Expr::GetAttr { expr, .. } => vec![&**expr],
        Expr::BinOp { left, right, .. } => vec![&**left, &**right],
        Expr::Filter { expr, args, .. }
        | Expr::Test { expr, args, .. }
        | Expr::Call { expr, args, .. } => {
            let mut all = vec![&**expr];
            all.extend(args.iter());
            all
        }
        Expr::GetItem { expr, subscript_expr, .. } => vec![&**expr, &**subscript_expr],
        Expr::List { items, .. } => items.iter().collect(),
        Expr::Dict { keys, values, .. } => keys.iter().chain(values.iter()).collect(),
    }
}

fn nested(e: &Expr) -> bool {
    let own = e.span();
    le((own.start_line, own.start_col), (own.end_line, own.end_col))
        && children(e).iter().all(|c| contains(own, c.span()) && nested(c))
}

#[test]
fn subtraction_folds_to_the_left() {
    let tree = parse_expr("1 - 2 - 3").unwrap();
    let int = |value: i64, col: usize| Expr::Const {
        value: Value::Int(value),
        span: span(1, col, 1, col + 1),
    };
    assert_eq!(
        tree,
        Expr::BinOp {
            op: BinOpKind::Sub,
            left: Box::new(Expr::BinOp {
                op: BinOpKind::Sub,
                left: Box::new(int(1, 0)),
                right: Box::new(int(2, 4)),
                span: span(1, 0, 1, 5),
            }),
            right: Box::new(int(3, 8)),
            span: span(1, 0, 1, 9),
        }
    );
}

#[test]
fn multiplication_binds_tighter_than_addition() {
    assert_eq!(parsed("1 + 2 * 3"), "(Add 1 (Mul 2 3))");
    assert_eq!(parsed("1 * 2 + 3"), "(Add (Mul 1 2) 3)");
}

#[test]
fn filters_bind_tighter_than_addition() {
    assert_eq!(parsed("a|f + 1"), "(Add (Filter f a) 1)");
    assert_eq!(parsed("1 + 2|f"), "(Add 1 (Filter f 2))");
}

#[test]
fn power_folds_to_the_left() {
    assert_eq!(parsed("2 ** 3 ** 2"), "(Pow (Pow 2 3) 2)");
}

#[test]
fn comparisons_fold_as_plain_binary_operators() {
    assert_eq!(parsed("a < b < c"), "(Lt (Lt a b) c)");
    assert_eq!(parsed("a == b"), "(Eq a b)");
    assert_eq!(parsed("a != b"), "(Ne a b)");
    assert_eq!(parsed("a <= b"), "(Lte a b)");
    assert_eq!(parsed("a > b"), "(Gt a b)");
    assert_eq!(parsed("a >= b"), "(Gte a b)");
}

#[test]
fn every_level_in_its_place() {
    assert_eq!(
        parsed("a or b and not c == d + e ~ f * g ** -h"),
        "(ScOr a (ScAnd b (Not (Eq c (Add d (Concat e (Mul f (Pow g (Neg h)))))))))"
    );
    assert_eq!(parsed("a and b or c"), "(ScOr (ScAnd a b) c)");
    assert_eq!(parsed("a ~ b + c"), "(Add (Concat a b) c)");
    assert_eq!(parsed("a * b ~ c"), "(Concat (Mul a b) c)");
    assert_eq!(parsed("a - b + c"), "(Add (Sub a b) c)");
    assert_eq!(parsed("a / b // c % d"), "(Rem (FloorDiv (Div a b) c) d)");
}

#[test]
fn prefix_operators_nest() {
    assert_eq!(parsed("not not x"), "(Not (Not x))");
    assert_eq!(parsed("- - x"), "(Neg (Neg x))");
    assert_eq!(parsed("not a == b"), "(Not (Eq a b))");
    assert_eq!(parsed("-x.y"), "(Neg (GetAttr x y))");
    assert_eq!(
        parse_expr("not x").unwrap(),
        Expr::UnaryOp {
            op: UnaryOpKind::Not,
            expr: Box::new(Expr::Var { id: "x".to_string(), span: span(1, 4, 1, 5) }),
            span: span(1, 0, 1, 5),
        }
    );
}

#[test]
fn minus_binds_looser_than_what_is_applied_to_an_operand() {
    assert_eq!(
        parse_expr("-a.b").unwrap(),
        Expr::UnaryOp {
            op: UnaryOpKind::Neg,
            expr: Box::new(Expr::GetAttr {
                name: "b".to_string(),
                expr: Box::new(Expr::Var { id: "a".to_string(), span: span(1, 1, 1, 2) }),
                span: span(1, 1, 1, 4),
            }),
            span: span(1, 0, 1, 4),
        }
    );
    assert_eq!(parsed("-f(x)[0]"), "(Neg (GetItem (Call f x) 0))");
    assert_eq!(parsed("- -a.b.c"), "(Neg (Neg (GetAttr (GetAttr a b) c)))");
    assert_eq!(parsed("-(a + b).c"), "(Neg (GetAttr (Add a b) c))");
    assert_eq!(parsed("2 ** -a.b"), "(Pow 2 (Neg (GetAttr a b)))");
}

#[test]
fn filters_apply_to_the_negated_operand() {
    assert_eq!(parsed("-a|f"), "(Filter f (Neg a))");
    assert_eq!(parsed("-a.b|f"), "(Filter f (Neg (GetAttr a b)))");
    assert_eq!(parsed("-a is odd"), "(Test odd (Neg a))");
    let tree = parse_expr("-a.b|f").unwrap();
    assert_eq!(tree.span(), span(1, 0, 1, 6));
    match &tree {
        Expr::Filter { expr, .. } => assert_eq!(expr.span(), span(1, 0, 1, 4)),
        other => panic!("unexpected node {:?}", other),
    }
}

#[test]
fn postfix_operators_chain() {
    assert_eq!(parsed("a.b[0](x).c"), "(GetAttr (Call (GetItem (GetAttr a b) 0) x) c)");
    assert_eq!(parsed("f()"), "(Call f)");
    assert_eq!(parsed("f(1, 2)(3)"), "(Call (Call f 1 2) 3)");
    assert_eq!(parsed("a[b][c]"), "(GetItem (GetItem a b) c)");
}

#[test]
fn filters_and_tests_chain() {
    assert_eq!(parsed("x|a|b is c"), "(Test c (Filter b (Filter a x)))");
    assert_eq!(parsed("a.b|f"), "(Filter f (GetAttr a b))");
    assert_eq!(parsed("x|f(1, y)"), "(Filter f x 1 y)");
    assert_eq!(parsed("x is divisibleby(3)"), "(Test divisibleby x 3)");
    assert_eq!(parsed("x is odd|string"), "(Filter string (Test odd x))");
}

#[test]
fn literals() {
    assert_eq!(parsed("true"), "true");
    assert_eq!(parsed("True"), "true");
    assert_eq!(parsed("false"), "false");
    assert_eq!(parsed("False"), "false");
    assert_eq!(parsed("none"), "none");
    assert_eq!(parsed("None"), "none");
    assert_eq!(parsed("TRUE"), "TRUE");
    assert_eq!(parsed("nOne"), "nOne");
    assert_eq!(parsed("42"), "42");
    assert_eq!(parsed("1.5"), "float:1.5");
    assert_eq!(parsed("'hi'"), "\"hi\"");
    assert_eq!(
        parse_expr("none").unwrap(),
        Expr::Const { value: Value::Null, span: span(1, 0, 1, 4) }
    );
    assert_eq!(
        parse_expr(" 'hi'").unwrap(),
        Expr::Const { value: Value::Str("hi".to_string()), span: span(1, 1, 1, 5) }
    );
}

#[test]
fn parentheses_group_and_leave_no_node() {
    assert_eq!(parsed("(1 + 2) * 3"), "(Mul (Add 1 2) 3)");
    assert_eq!(parsed("((x))"), "x");
    assert_eq!(
        parse_expr("(x)").unwrap(),
        Expr::Var { id: "x".to_string(), span: span(1, 1, 1, 2) }
    );
}

#[test]
fn lists_and_dictionaries() {
    assert_eq!(parsed("[]"), "[]");
    assert_eq!(parsed("[1]"), "[1]");
    assert_eq!(parsed("[1, a, [2]]"), "[1 a [2]]");
    assert_eq!(parsed("{}"), "{}");
    assert_eq!(parsed("{'a': 1}"), "{\"a\": 1}");
    assert_eq!(parsed("{'a': 1, b: {c: 2}, 'a': 3}"), "{\"a\": 1 b: {c: 2} \"a\": 3}");
    assert_eq!(
        parse_expr("[1, 2]").unwrap().span(),
        span(1, 0, 1, 6)
    );
}

#[test]
fn spans_cover_the_whole_production() {
    let tree = parse_expr("(a + b).c|f(1)").unwrap();
    assert_eq!(shape(&tree), "(Filter f (GetAttr (Add a b) c) 1)");
    assert_eq!(tree.span(), span(1, 0, 1, 14));
    match &tree {
        Expr::Filter { expr, args, .. } => {
            assert_eq!(expr.span(), span(1, 0, 1, 9));
            assert_eq!(args[0].span(), span(1, 12, 1, 13));
            match &**expr {
                Expr::GetAttr { expr, .. } => assert_eq!(expr.span(), span(1, 1, 1, 6)),
                other => panic!("unexpected node {:?}", other),
            }
        }
        other => panic!("unexpected node {:?}", other),
    }
}

#[test]
fn spans_nest_in_every_tree() {
    for source in [
        "1 - 2 - 3",
        "a or b and not c == d + e ~ f * g ** -h",
        "a.b[0](x).c",
        "x|a|b is c(1, 2)",
        "[1, (2 + 3), {'k': v|f, 4: [5]}]",
        "(a\n + b)\n * -(c.d)",
        "not (a < b) is odd",
    ] {
        assert!(nested(&parse_expr(source).unwrap()), "{}", source);
    }
}

#[test]
fn the_same_source_gives_the_same_tree() {
    for source in ["1 - 2 - 3", "x|a|b is c", "{'a': [1, 2.5, none]}", "f(x)(y).z[0]"] {
        assert_eq!(parse_expr(source).unwrap(), parse_expr(source).unwrap());
    }
    assert_eq!(parse_expr("1 +").unwrap_err(), parse_expr("1 +").unwrap_err());
}

#[test]
fn parses_do_not_affect_each_other() {
    let alone_a = parse_expr("a + b").unwrap();
    let alone_b = parse_expr("c|d").unwrap();
    let again_a = parse_expr("a + b").unwrap();
    let again_b = parse_expr("c|d").unwrap();
    assert_eq!(alone_a, again_a);
    assert_eq!(alone_b, again_b);
}

#[test]
fn an_expression_stops_where_it_ends() {
    let mut parser = Parser::new("a + b c", "x", true);
    assert_eq!(shape(&parser.parse_expr().unwrap()), "(Add a b)");
    assert_eq!(parser.last_span(), span(1, 4, 1, 5));
    assert_eq!(shape(&parser.parse_expr().unwrap()), "c");
    assert_eq!(parser.parse_expr().unwrap_err().message(), "unexpected end of input, expected expression");
}

#[test]
fn missing_operand() {
    let e = failed("1 +");
    assert_eq!(e.message(), "unexpected end of input, expected expression");
    assert_eq!(e.line(), Some(1));
    assert_eq!(failed("").message(), "unexpected end of input, expected expression");
    assert_eq!(failed("").line(), Some(0));
    assert_eq!(failed("1 + )").message(), "unexpected `)`");
    assert_eq!(failed("not").message(), "unexpected end of input, expected expression");
    assert_eq!(failed("* 2").message(), "unexpected `*`");
}

#[test]
fn unclosed_brackets() {
    assert_eq!(failed("(1").message(), "unexpected end of input, expected `)`");
    assert_eq!(failed("(1 2").message(), "unexpected integer, expected `)`");
    assert_eq!(failed("a[1").message(), "unexpected end of input, expected `]`");
    assert_eq!(failed("a[1)").message(), "unexpected `)`, expected `]`");
    assert_eq!(failed("[1").message(), "unexpected end of input, expected `,`");
    assert_eq!(failed("[1 2]").message(), "unexpected integer, expected `,`");
    assert_eq!(failed("{1: 2").message(), "unexpected end of input, expected `,`");
    assert_eq!(failed("{1 2}").message(), "unexpected integer, expected `:`");
    assert_eq!(failed("{1: 2 3: 4}").message(), "unexpected integer, expected `,`");
}

#[test]
fn commas_in_argument_lists() {
    assert_eq!(failed("f(,1)").message(), "unexpected `,`");
    assert_eq!(failed("f(1,)").message(), "unexpected `)`");
    assert_eq!(failed("f(1 2)").message(), "unexpected integer, expected `,`");
    assert_eq!(failed("[1,]").message(), "unexpected `]`");
    assert_eq!(failed("x|f(1").message(), "unexpected end of input, expected `,`");
}

#[test]
fn names_are_required_after_dot_pipe_and_is() {
    assert_eq!(failed("a.").message(), "unexpected end of input, expected identifier");
    assert_eq!(failed("a.1").message(), "unexpected integer, expected identifier");
    assert_eq!(failed("a|").message(), "unexpected end of input, expected identifier");
    assert_eq!(failed("a|'f'").message(), "unexpected string, expected identifier");
    assert_eq!(failed("a is 1.5").message(), "unexpected float, expected identifier");
}

#[test]
fn tokenizer_failures_are_handed_on() {
    let e = failed("1 + 'abc");
    assert_eq!(e.message(), "unexpected end of string");
    assert_eq!(e.line(), Some(1));
    assert_eq!(failed("?").message(), "unexpected character");
    assert_eq!(failed("?").line(), Some(0));
    assert_eq!(failed("a\n+\n99999999999999999999").message(), "invalid integer");
    assert_eq!(failed("a\n+\n99999999999999999999").line(), Some(2));
}

#[test]
fn failures_carry_the_line_of_the_last_token() {
    assert_eq!(failed("a +\n\n  )").line(), Some(3));
    assert_eq!(failed("a +\n\n").line(), Some(1));
}

#[test]
fn error_values() {
    let mut e = Error::new(ErrorKind::SyntaxError, "boom".to_string());
    assert_eq!(e.kind(), ErrorKind::SyntaxError);
    assert_eq!(e.message(), "boom");
    assert_eq!(e.line(), None);
    assert_eq!(e.filename(), None);
    e.set_location("a.html", 3);
    assert_eq!(e.line(), Some(3));
    assert_eq!(e.filename(), Some("a.html"));
    let kept = e.locate("b.html", 9);
    assert_eq!(kept.filename(), Some("a.html"));
    assert_eq!(kept.line(), Some(3));
    let placed = Error::syntax("x").locate("b.html", 9);
    assert_eq!(placed.filename(), Some("b.html"));
    assert_eq!(placed.line(), Some(9));
    assert_eq!(Error::unexpected("`)`", "`]`").message(), "unexpected `)`, expected `]`");
    assert_eq!(Error::unexpected_end("in").message(), "unexpected end of input, expected in");
    assert_eq!(Error::unexpected_bare("`,`").message(), "unexpected `,`");
    assert_eq!(
        Error::reserved("loop").message(),
        "cannot assign to reserved variable name loop"
    );
    assert_eq!(
        Error::mismatch("b", "a").message(),
        "mismatching name on block. Got `b`, expected `a`"
    );
}
