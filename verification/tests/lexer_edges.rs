use galvanic::lexer::{pack_span, span_len, span_start, token_text, tokenize, try_tokenize, Token};

#[test]
fn span_pack_and_unpack_roundtrip() {
    let p = pack_span(5, 7);
    assert_eq!(p, 5 * 256 + 7);
    assert_eq!(span_start(p), 5);
    assert_eq!(span_len(p), 7);
    let max = pack_span(0xFF_FFFF, 255);
    assert_eq!(max, u32::MAX);
    assert_eq!(span_start(max), 0xFF_FFFF);
    assert_eq!(span_len(max), 255);
}

#[test]
fn unknown_bytes_are_skipped() {
    let tokens = tokenize("@ # $ ~ ? fn");
    assert_eq!(tokens, vec![Token::Fn, Token::Eof]);
}

#[test]
fn non_ascii_text_is_skipped_and_offsets_are_bytes() {
    let src = "é x";
    let tokens = tokenize(src);
    assert_eq!(tokens, vec![Token::Ident(pack_span(3, 1)), Token::Eof]);
    assert_eq!(token_text(pack_span(3, 1), src), "x");
}

#[test]
fn all_ascii_whitespace_is_skipped() {
    let tokens = tokenize(" \t\r\n\x0c fn \n");
    assert_eq!(tokens, vec![Token::Fn, Token::Eof]);
}

#[test]
fn comment_at_end_without_newline() {
    let tokens = tokenize("a // trailing");
    assert_eq!(tokens, vec![Token::Ident(pack_span(0, 1)), Token::Eof]);
}

#[test]
fn single_slash_is_division() {
    let tokens = tokenize("a / b");
    assert_eq!(
        tokens,
        vec![Token::Ident(pack_span(0, 1)), Token::Slash, Token::Ident(pack_span(4, 1)), Token::Eof]
    );
}

#[test]
fn single_char_operators() {
    let tokens = tokenize("( ) { } [ ] ; , . ^ % * + - = ! < > & | :");
    assert_eq!(
        tokens,
        vec![
            Token::LParen,
            Token::RParen,
            Token::LBrace,
            Token::RBrace,
            Token::LBracket,
            Token::RBracket,
            Token::Semicolon,
            Token::Comma,
            Token::Dot,
            Token::Caret,
            Token::Percent,
            Token::Star,
            Token::Plus,
            Token::Minus,
            Token::Eq,
            Token::Bang,
            Token::Lt,
            Token::Gt,
            Token::Amp,
            Token::Pipe,
            Token::Colon,
            Token::Eof,
        ]
    );
}

#[test]
fn operators_without_spaces_take_longest_match() {
    let tokens = tokenize("a->b==c:::d");
    assert_eq!(
        tokens,
        vec![
            Token::Ident(pack_span(0, 1)),
            Token::Arrow,
            Token::Ident(pack_span(3, 1)),
            Token::EqEq,
            Token::Ident(pack_span(6, 1)),
            Token::ColonColon,
            Token::Colon,
            Token::Ident(pack_span(10, 1)),
            Token::Eof,
        ]
    );
}

#[test]
fn digits_then_letters_split() {
    let tokens = tokenize("12ab");
    assert_eq!(
        tokens,
        vec![Token::IntLit(pack_span(0, 2)), Token::Ident(pack_span(2, 2)), Token::Eof]
    );
}

#[test]
fn keyword_with_suffix_or_prefix_is_ident() {
    let tokens = tokenize("fn1 _if returns");
    assert_eq!(
        tokens,
        vec![
            Token::Ident(pack_span(0, 3)),
            Token::Ident(pack_span(4, 3)),
            Token::Ident(pack_span(8, 7)),
            Token::Eof,
        ]
    );
}

#[test]
fn eof_only_at_end() {
    let tokens = tokenize("fn main() { return 1; }");
    assert_eq!(tokens.last(), Some(&Token::Eof));
    assert_eq!(tokens.iter().filter(|t| **t == Token::Eof).count(), 1);
}

#[test]
fn identifier_of_255_bytes_fits() {
    let src = "a".repeat(255);
    let tokens = try_tokenize(&src).expect("fits");
    assert_eq!(tokens, vec![Token::Ident(pack_span(0, 255)), Token::Eof]);
    assert_eq!(tokenize(&src), tokens);
    assert_eq!(token_text(pack_span(0, 255), &src), src.as_str());
}

#[test]
fn identifier_of_256_bytes_is_refused() {
    let src = format!("fn {}", "a".repeat(256));
    assert_eq!(try_tokenize(&src), None);
}

#[test]
fn literal_of_256_digits_is_refused() {
    let src = "7".repeat(256);
    assert_eq!(try_tokenize(&src), None);
}

#[test]
fn long_comment_is_not_a_token() {
    let src = format!("// {}\nfn", "a".repeat(300));
    let tokens = try_tokenize(&src).expect("comment text is not a span");
    assert_eq!(tokens, vec![Token::Fn, Token::Eof]);
}

#[test]
fn every_identifier_text_is_a_whole_non_keyword_word() {
    let src = "fn alpha(beta: i32) -> i32 { 1234 } gamma_9";
    let tokens = tokenize(src);
    let mut words = Vec::new();
    for t in &tokens {
        match t {
            Token::Ident(s) => words.push(token_text(*s, src).to_string()),
            Token::IntLit(s) => words.push(token_text(*s, src).to_string()),
            _ => {}
        }
    }
    assert_eq!(words, vec!["alpha", "beta", "i32", "i32", "1234", "gamma_9"]);
}

#[test]
fn unrecognised_byte_lexes_like_a_space() {
    assert_eq!(tokenize("a@b#1?fn"), tokenize("a b 1 fn"));
    assert_eq!(tokenize("x // c@mment\ny"), tokenize("x // c mment\ny"));
}
