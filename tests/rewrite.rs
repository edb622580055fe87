use safe_attr::{safe, Delimiter, Spacing, Token};

fn ident(s: &str) -> Token {
    Token::Ident(s.to_string())
}

fn punct(c: char) -> Token {
    Token::Punct(c, Spacing::Alone)
}

fn joint(c: char) -> Token {
    Token::Punct(c, Spacing::Joint)
}

fn lit(s: &str) -> Token {
    Token::Literal(s.to_string())
}

fn group(d: Delimiter, items: Vec<Token>) -> Token {
    Token::Group(d, items)
}

fn brace(items: Vec<Token>) -> Token {
    group(Delimiter::Brace, items)
}

fn parens(items: Vec<Token>) -> Token {
    group(Delimiter::Parenthesis, items)
}

fn marked(items: Vec<Token>) -> Token {
    brace(vec![ident("unsafe"), brace(items)])
}

fn let_x_body() -> Vec<Token> {
    vec![ident("let"), ident("x"), punct('='), lit("1"), punct(';')]
}

#[test]
fn wraps_body_of_unit_function() {
    let input = vec![ident("fn"), ident("f"), parens(vec![]), brace(let_x_body())];
    let expected = vec![ident("fn"), ident("f"), parens(vec![]), marked(let_x_body())];
    assert_eq!(safe(input), expected);
}

#[test]
fn wraps_body_after_return_type() {
    let input = vec![
        ident("fn"),
        ident("g"),
        parens(vec![]),
        joint('-'),
        punct('>'),
        ident("i32"),
        brace(vec![lit("0")]),
    ];
    let expected = vec![
        ident("fn"),
        ident("g"),
        parens(vec![]),
        joint('-'),
        punct('>'),
        ident("i32"),
        marked(vec![lit("0")]),
    ];
    assert_eq!(safe(input), expected);
}

#[test]
fn stream_without_braces_is_unchanged() {
    let make = || vec![ident("a"), punct('+'), lit("2"), parens(vec![ident("b")])];
    assert_eq!(safe(make()), make());
}

#[test]
fn empty_stream_is_unchanged() {
    assert_eq!(safe(vec![]), vec![]);
}

#[test]
fn brace_inside_parentheses_is_not_a_body() {
    let make = || vec![ident("fn"), parens(vec![brace(vec![lit("1")])])];
    assert_eq!(safe(make()), make());
}

#[test]
fn empty_body_is_wrapped() {
    let input = vec![ident("fn"), ident("h"), parens(vec![]), brace(vec![])];
    let expected = vec![ident("fn"), ident("h"), parens(vec![]), marked(vec![])];
    assert_eq!(safe(input), expected);
}

#[test]
fn only_first_brace_group_is_wrapped() {
    let input = vec![brace(vec![lit("1")]), brace(vec![lit("2")])];
    let expected = vec![marked(vec![lit("1")]), brace(vec![lit("2")])];
    assert_eq!(safe(input), expected);
}

#[test]
fn tokens_after_body_are_kept() {
    let input = vec![ident("fn"), brace(vec![]), punct(';'), ident("tail")];
    let expected = vec![ident("fn"), marked(vec![]), punct(';'), ident("tail")];
    assert_eq!(safe(input), expected);
}

#[test]
fn bracket_and_invisible_groups_are_not_bodies() {
    let make = || {
        vec![
            group(Delimiter::Bracket, vec![lit("1")]),
            group(Delimiter::Invisible, vec![ident("x")]),
        ]
    };
    assert_eq!(safe(make()), make());
}

#[test]
fn nested_groups_inside_body_are_kept() {
    let body = || vec![ident("if"), ident("c"), brace(vec![lit("1")])];
    let input = vec![ident("fn"), brace(body())];
    let expected = vec![ident("fn"), marked(body())];
    assert_eq!(safe(input), expected);
}

#[test]
fn second_application_wraps_again() {
    let input = vec![ident("fn"), ident("f"), parens(vec![]), brace(let_x_body())];
    let once = safe(input);
    let twice = safe(once);
    let expected = vec![
        ident("fn"),
        ident("f"),
        parens(vec![]),
        brace(vec![ident("unsafe"), marked(let_x_body())]),
    ];
    assert_eq!(twice, expected);
    let once_again = safe(vec![ident("fn"), ident("f"), parens(vec![]), brace(let_x_body())]);
    assert_ne!(twice, once_again);
}
