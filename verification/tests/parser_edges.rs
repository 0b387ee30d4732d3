use galvanic::ast::{Expr, Item, Stmt, Ty};
use galvanic::lexer::{token_text, tokenize, Token};
use galvanic::parser::{parse, try_parse};

#[test]
fn parse_empty_source_has_no_items() {
    let tokens = tokenize("");
    let sf = parse(&tokens, "");
    assert!(sf.items.is_empty());
}

#[test]
fn parse_items_in_declaration_order() {
    let src = "fn a() {} fn b() {} fn c() {}";
    let tokens = tokenize(src);
    let sf = parse(&tokens, src);
    let names: Vec<&str> = sf
        .items
        .iter()
        .map(|item| {
            let Item::Fn(f) = item;
            token_text(f.name, src)
        })
        .collect();
    assert_eq!(names, vec!["a", "b", "c"]);
}

#[test]
fn parse_skips_tokens_that_begin_no_item() {
    let src = "; } 42 fn a() {} let";
    let tokens = tokenize(src);
    let sf = parse(&tokens, src);
    assert_eq!(sf.items.len(), 1);
    let Item::Fn(f) = &sf.items[0];
    assert_eq!(token_text(f.name, src), "a");
}

#[test]
fn parse_params_with_commas() {
    let src = "fn f(a: i32, b: i32,) {}";
    let tokens = tokenize(src);
    let sf = parse(&tokens, src);
    let Item::Fn(f) = &sf.items[0];
    assert_eq!(f.params.len(), 2);
    assert_eq!(token_text(f.params[0].name, src), "a");
    assert_eq!(token_text(f.params[1].name, src), "b");
    assert_eq!(f.params[1].ty, Ty::I32);
}

#[test]
fn parse_params_without_commas() {
    let src = "fn f(a: i32 b: i32) {}";
    let tokens = tokenize(src);
    let sf = parse(&tokens, src);
    let Item::Fn(f) = &sf.items[0];
    assert_eq!(f.params.len(), 2);
}

#[test]
fn parse_bare_return_statement() {
    let src = "fn f() { return; }";
    let tokens = tokenize(src);
    let sf = parse(&tokens, src);
    let Item::Fn(f) = &sf.items[0];
    assert_eq!(f.body.stmts.len(), 1);
    let Stmt::Expr(e) = &f.body.stmts[0];
    assert!(matches!(e.as_ref(), Expr::Return(None)));
    assert!(f.body.tail.is_none());
}

#[test]
fn parse_bare_return_as_tail() {
    let src = "fn f() { return }";
    let tokens = tokenize(src);
    let sf = parse(&tokens, src);
    let Item::Fn(f) = &sf.items[0];
    assert!(f.body.stmts.is_empty());
    assert!(matches!(f.body.tail.as_deref(), Some(Expr::Return(None))));
}

#[test]
fn parse_nested_return() {
    let src = "fn f() { return return 7 }";
    let tokens = tokenize(src);
    let sf = parse(&tokens, src);
    let Item::Fn(f) = &sf.items[0];
    match f.body.tail.as_deref() {
        Some(Expr::Return(Some(inner))) => match inner.as_ref() {
            Expr::Return(Some(v)) => match v.as_ref() {
                Expr::IntLit(s) => assert_eq!(token_text(*s, src), "7"),
                other => panic!("expected IntLit, got {other:?}"),
            },
            other => panic!("expected inner Return, got {other:?}"),
        },
        other => panic!("expected Return, got {other:?}"),
    }
}

#[test]
fn parse_statements_then_tail() {
    let src = "fn f() { true; 1; false }";
    let tokens = tokenize(src);
    let sf = parse(&tokens, src);
    let Item::Fn(f) = &sf.items[0];
    assert_eq!(f.body.stmts.len(), 2);
    let Stmt::Expr(a) = &f.body.stmts[0];
    assert!(matches!(a.as_ref(), Expr::BoolLit(true)));
    let Stmt::Expr(b) = &f.body.stmts[1];
    assert!(matches!(b.as_ref(), Expr::IntLit(_)));
    assert!(matches!(f.body.tail.as_deref(), Some(Expr::BoolLit(false))));
}

#[test]
fn parsed_spans_resolve_to_source_text() {
    let src = "fn add(lhs: i32, rhs: i32) -> i32 { 1; 22 }";
    let tokens = tokenize(src);
    let sf = parse(&tokens, src);
    let Item::Fn(f) = &sf.items[0];
    assert_eq!(token_text(f.name, src), "add");
    assert_eq!(token_text(f.params[0].name, src), "lhs");
    assert_eq!(token_text(f.params[1].name, src), "rhs");
    let Stmt::Expr(one) = &f.body.stmts[0];
    match one.as_ref() {
        Expr::IntLit(s) => assert_eq!(token_text(*s, src), "1"),
        other => panic!("expected IntLit, got {other:?}"),
    }
    match f.body.tail.as_deref() {
        Some(Expr::IntLit(s)) => assert_eq!(token_text(*s, src), "22"),
        other => panic!("expected IntLit, got {other:?}"),
    }
}

#[test]
fn try_parse_agrees_with_parse() {
    let src = "fn f(a: i32) -> i32 { return 1; 2 }";
    let tokens = tokenize(src);
    let sf = try_parse(&tokens, src).expect("fits the grammar");
    assert_eq!(sf.items.len(), 1);
    let Item::Fn(f) = &sf.items[0];
    assert_eq!(token_text(f.name, src), "f");
    assert_eq!(f.params.len(), 1);
    assert_eq!(f.body.stmts.len(), 1);
    assert!(f.body.tail.is_some());
}

#[test]
fn try_parse_refuses_streams_outside_the_grammar() {
    for src in ["fn f() { x }", "fn 1() {}", "fn f(1: i32) {}", "fn f() -> i64 {}", "fn f() { 1 2 }", "fn f("] {
        let tokens = tokenize(src);
        assert!(try_parse(&tokens, src).is_none(), "{src}");
    }
}

#[test]
fn try_parse_needs_an_eof() {
    assert!(try_parse(&[], "").is_none());
    assert!(try_parse(&[Token::Semicolon], ";").is_none());
}

#[test]
fn parse_stops_at_the_first_eof() {
    let tokens = [Token::Semicolon, Token::Eof, Token::Fn, Token::RParen];
    let sf = parse(&tokens, "");
    assert!(sf.items.is_empty());
}

#[test]
fn dropping_a_leading_non_item_token_keeps_the_items() {
    let src = "; fn f() { 1 }";
    let tokens = tokenize(src);
    let with = parse(&tokens, src);
    let without = parse(&tokens[1..], src);
    assert_eq!(with.items.len(), 1);
    assert_eq!(without.items.len(), 1);
    let (Item::Fn(a), Item::Fn(b)) = (&with.items[0], &without.items[0]);
    assert_eq!(a.name, b.name);
}
