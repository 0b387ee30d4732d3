use galvanic::lexer::{pack_span, token_text, tokenize, Token};

#[test]
fn token_is_eight_bytes() {
    assert_eq!(
        core::mem::size_of::<Token>(),
        8,
        "Token grew past 8 bytes — fix the variant or update the cache-line claim"
    );
}

#[test]
fn fn_main_returns_i32() {
    let src = "fn main() -> i32 { 42 }";
    let tokens = tokenize(src);
    assert_eq!(tokens[0], Token::Fn);
    assert_eq!(tokens[1], Token::Ident(pack_span(3, 4)));
    assert_eq!(tokens[2], Token::LParen);
    assert_eq!(tokens[3], Token::RParen);
    assert_eq!(tokens[4], Token::Arrow);
    assert_eq!(tokens[5], Token::Ident(pack_span(13, 3)));
    assert_eq!(tokens[6], Token::LBrace);
    assert_eq!(tokens[7], Token::IntLit(pack_span(19, 2)));
    assert_eq!(tokens[8], Token::RBrace);
    assert_eq!(tokens[9], Token::Eof);
}

#[test]
fn keyword_recognition() {
    let tokens = tokenize("fn let mut if else while for in true false return");
    assert_eq!(tokens[0], Token::Fn);
    assert_eq!(tokens[1], Token::Let);
    assert_eq!(tokens[2], Token::Mut);
    assert_eq!(tokens[3], Token::If);
    assert_eq!(tokens[4], Token::Else);
    assert_eq!(tokens[5], Token::While);
    assert_eq!(tokens[6], Token::For);
    assert_eq!(tokens[7], Token::In);
    assert_eq!(tokens[8], Token::True);
    assert_eq!(tokens[9], Token::False);
    assert_eq!(tokens[10], Token::Return);
    assert_eq!(tokens[11], Token::Eof);
}

#[test]
fn keyword_prefix_is_ident() {
    let tokens = tokenize("function");
    assert_eq!(tokens[0], Token::Ident(pack_span(0, 8)));
    assert_eq!(tokens[1], Token::Eof);
}

#[test]
fn token_text_extraction() {
    let src = "hello_world";
    let tokens = tokenize(src);
    match tokens[0] {
        Token::Ident(span) => {
            assert_eq!(token_text(span, src), "hello_world");
        }
        other => panic!("expected Ident, got {other:?}"),
    }
}

#[test]
fn line_comment_skipped() {
    let src = "fn // this is a comment\nmain";
    let tokens = tokenize(src);
    assert_eq!(tokens[0], Token::Fn);
    assert_eq!(tokens[1], Token::Ident(pack_span(24, 4)));
    assert_eq!(tokens[2], Token::Eof);
}

#[test]
fn two_char_operators() {
    let tokens = tokenize("-> => :: == != <= >= && ||");
    assert_eq!(tokens[0], Token::Arrow);
    assert_eq!(tokens[1], Token::FatArrow);
    assert_eq!(tokens[2], Token::ColonColon);
    assert_eq!(tokens[3], Token::EqEq);
    assert_eq!(tokens[4], Token::Ne);
    assert_eq!(tokens[5], Token::Le);
    assert_eq!(tokens[6], Token::Ge);
    assert_eq!(tokens[7], Token::AmpAmp);
    assert_eq!(tokens[8], Token::PipePipe);
    assert_eq!(tokens[9], Token::Eof);
}

#[test]
fn empty_input_yields_only_eof() {
    let tokens = tokenize("");
    assert_eq!(tokens.len(), 1);
    assert_eq!(tokens[0], Token::Eof);
}
