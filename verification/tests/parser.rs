use galvanic::ast::{Expr, Item, Stmt, Ty};
use galvanic::lexer::{token_text, tokenize};
use galvanic::parser::parse;

#[test]
fn parse_fn_main_tail_expr() {
    let src = "fn main() -> i32 { 42 }";
    let tokens = tokenize(src);
    let sf = parse(&tokens, src);

    assert_eq!(sf.items.len(), 1);
    let Item::Fn(f) = &sf.items[0];

    assert_eq!(token_text(f.name, src), "main");
    assert_eq!(f.ret, Some(Ty::I32));
    assert!(f.params.is_empty());
    assert!(f.body.stmts.is_empty());

    match f.body.tail.as_deref() {
        Some(Expr::IntLit(span)) => {
            assert_eq!(token_text(*span, src), "42");
        }
        other => panic!("expected IntLit tail expression, got {other:?}"),
    }
}

#[test]
fn parse_fn_main_return_stmt() {
    let src = "fn main() -> i32 { return 42; }";
    let tokens = tokenize(src);
    let sf = parse(&tokens, src);

    assert_eq!(sf.items.len(), 1);
    let Item::Fn(f) = &sf.items[0];

    assert_eq!(f.body.stmts.len(), 1);
    assert!(f.body.tail.is_none(), "return stmt must not become tail expr");

    let Stmt::Expr(inner) = &f.body.stmts[0];
    match inner.as_ref() {
        Expr::Return(Some(val)) => match val.as_ref() {
            Expr::IntLit(span) => assert_eq!(token_text(*span, src), "42"),
            other => panic!("expected IntLit inside return, got {other:?}"),
        },
        other => panic!("expected Return expression, got {other:?}"),
    }
}

#[test]
fn parse_fn_no_ret_empty_body() {
    let src = "fn noop() {}";
    let tokens = tokenize(src);
    let sf = parse(&tokens, src);

    assert_eq!(sf.items.len(), 1);
    let Item::Fn(f) = &sf.items[0];

    assert_eq!(token_text(f.name, src), "noop");
    assert_eq!(f.ret, None, "absent annotation should parse as None (unit)");
    assert!(f.params.is_empty());
    assert!(f.body.stmts.is_empty());
    assert!(f.body.tail.is_none());
}

#[test]
fn parse_fn_with_param() {
    let src = "fn id(x: i32) -> i32 { 0 }";
    let tokens = tokenize(src);
    let sf = parse(&tokens, src);

    assert_eq!(sf.items.len(), 1);
    let Item::Fn(f) = &sf.items[0];

    assert_eq!(f.params.len(), 1);
    assert_eq!(token_text(f.params[0].name, src), "x");
    assert_eq!(f.params[0].ty, Ty::I32);
}
