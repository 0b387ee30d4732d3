//! Parser: from the lexer's token stream to a [`SourceFile`] syntax tree.
//!
//! Grammar:
//!
//! ```text
//! file   := item*                       (other tokens at item position are skipped)
//! item   := 'fn' IDENT '(' param* ')' ('->' ty)? block
//! param  := IDENT ':' ty ','?
//! ty     := IDENT                       (whose text is "i32")
//! block  := '{' (expr ';')* expr? '}'
//! expr   := 'return' expr? | INT | 'true' | 'false'
//! ```
use vstd::prelude::*;
use vstd::string::StringSliceAdditionalSpecFns;
use crate::ast::{Block, BlockView, Expr, FnDef, FnDefView, Item, ItemView, Param, SourceFile, Stmt, Ty};
use crate::lexer::{len_of, sliceable, span_len, span_start, start_of, token_text, Token};

verus! {

// ---------------------------------------------------------------------------
// The grammar, as functions from a token position to the parsed node and the
// position after it; `None` where the token stream does not fit the grammar.
// ---------------------------------------------------------------------------

/// A token stream that the parser can walk: it holds an `Eof`, as the
/// lexer's output does at its end. The parser never reads past the first
/// `Eof`.
pub open spec fn tokens_wf(toks: Seq<Token>) -> bool {
    toks.contains(Token::Eof)
}

/// The token at position `i`, with `Eof` past either end.
pub open spec fn tok(toks: Seq<Token>, i: int) -> Token {
    if 0 <= i < toks.len() {
        toks[i]
    } else {
        Token::Eof
    }
}

/// A type at `pos`: an identifier whose source text is `i32`.
pub open spec fn parse_ty_at(toks: Seq<Token>, src: Seq<u8>, pos: int) -> Option<(Ty, int)> {
    match tok(toks, pos) {
        Token::Ident(s) => {
            let a = start_of(s);
            let e = start_of(s) + len_of(s);
            if sliceable(src, a, e) && src.subrange(a, e) =~= seq![0x69u8, 0x33, 0x32] {
                Some((Ty::I32, pos + 1))
            } else {
                None
            }
        },
        _ => None,
    }
}

/// An expression at `pos`.
pub open spec fn parse_expr_at(toks: Seq<Token>, src: Seq<u8>, pos: int) -> Option<(Expr, int)>
    decreases toks.len() - pos,
{
    match tok(toks, pos) {
        Token::Return => {
            let q = pos + 1;
            let t = tok(toks, q);
            if t == Token::Semicolon || t == Token::RBrace || t == Token::Eof {
                Some((Expr::Return(None), q))
            } else {
                match parse_expr_at(toks, src, q) {
                    Some((e, r)) => Some((Expr::Return(Some(Box::new(e))), r)),
                    None => None,
                }
            }
        },
        Token::IntLit(s) => Some((Expr::IntLit(s), pos + 1)),
        Token::True => Some((Expr::BoolLit(true), pos + 1)),
        Token::False => Some((Expr::BoolLit(false), pos + 1)),
        _ => None,
    }
}

/// An expression that parses ends after its first token and within the
/// stream.
pub proof fn lemma_expr_advances(toks: Seq<Token>, src: Seq<u8>, pos: int)
    ensures
        parse_expr_at(toks, src, pos) matches Some((_, q)) ==> 0 <= pos < q <= toks.len(),
    decreases toks.len() - pos,
{
    if tok(toks, pos) == Token::Return {
        lemma_expr_advances(toks, src, pos + 1);
    }
}

/// The statements and optional tail expression of a block body at `pos`,
/// and the position where they end.
pub open spec fn parse_stmts_at(toks: Seq<Token>, src: Seq<u8>, pos: int) -> Option<
    (Seq<Stmt>, Option<Box<Expr>>, int),
>
    decreases toks.len() - pos,
{
    let t = tok(toks, pos);
    if t == Token::RBrace || t == Token::Eof {
        Some((seq![], None, pos))
    } else {
        match parse_expr_at(toks, src, pos) {
            Some((e, q)) => {
                if tok(toks, q) == Token::Semicolon {
                    proof {
                        lemma_expr_advances(toks, src, pos);
                    }
                    match parse_stmts_at(toks, src, q + 1) {
                        Some((ss, tail, r)) => Some((seq![Stmt::Expr(Box::new(e))] + ss, tail, r)),
                        None => None,
                    }
                } else {
                    Some((seq![], Some(Box::new(e)), q))
                }
            },
            None => None,
        }
    }
}

/// A block at `pos`: `{`, statements and tail, `}`.
pub open spec fn parse_block_at(toks: Seq<Token>, src: Seq<u8>, pos: int) -> Option<(BlockView, int)> {
    if tok(toks, pos) == Token::LBrace {
        match parse_stmts_at(toks, src, pos + 1) {
            Some((stmts, tail, r)) => {
                if tok(toks, r) == Token::RBrace {
                    Some((BlockView { stmts, tail }, r + 1))
                } else {
                    None
                }
            },
            None => None,
        }
    } else {
        None
    }
}

/// A parameter list at `pos`, up to (not including) the closing `)`.
pub open spec fn parse_params_at(toks: Seq<Token>, src: Seq<u8>, pos: int) -> Option<(Seq<Param>, int)>
    decreases toks.len() - pos,
{
    let t = tok(toks, pos);
    if t == Token::RParen || t == Token::Eof {
        Some((seq![], pos))
    } else {
        match t {
            Token::Ident(name) => {
                if tok(toks, pos + 1) == Token::Colon {
                    match parse_ty_at(toks, src, pos + 2) {
                        Some((ty, p)) => {
                            let q = if tok(toks, p) == Token::Comma { p + 1 } else { p };
                            match parse_params_at(toks, src, q) {
                                Some((rest, r)) => Some((seq![Param { name, ty }] + rest, r)),
                                None => None,
                            }
                        },
                        None => None,
                    }
                } else {
                    None
                }
            },
            _ => None,
        }
    }
}

/// An optional return type annotation `-> ty` at `pos`.
pub open spec fn parse_ret_at(toks: Seq<Token>, src: Seq<u8>, pos: int) -> Option<(Option<Ty>, int)> {
    if tok(toks, pos) == Token::Arrow {
        match parse_ty_at(toks, src, pos + 1) {
            Some((ty, q)) => Some((Some(ty), q)),
            None => None,
        }
    } else {
        Some((None, pos))
    }
}

/// A function definition at `pos`.
pub open spec fn parse_fn_at(toks: Seq<Token>, src: Seq<u8>, pos: int) -> Option<(FnDefView, int)> {
    if tok(toks, pos) == Token::Fn && tok(toks, pos + 2) == Token::LParen {
        match tok(toks, pos + 1) {
            Token::Ident(name) => match parse_params_at(toks, src, pos + 3) {
                Some((params, p)) => {
                    if tok(toks, p) == Token::RParen {
                        match parse_ret_at(toks, src, p + 1) {
                            Some((ret, q)) => match parse_block_at(toks, src, q) {
                                Some((body, r)) => Some((FnDefView { name, params, ret, body }, r)),
                                None => None,
                            },
                            None => None,
                        }
                    } else {
                        None
                    }
                },
                None => None,
            },
            _ => None,
        }
    } else {
        None
    }
}

/// The statements of a block that parse end at or after where they begin.
proof fn lemma_stmts_advance(toks: Seq<Token>, src: Seq<u8>, pos: int)
    ensures
        parse_stmts_at(toks, src, pos) matches Some((_, _, r)) ==> pos <= r,
    decreases toks.len() - pos,
{
    lemma_expr_advances(toks, src, pos);
    let t = tok(toks, pos);
    if !(t == Token::RBrace || t == Token::Eof) {
        if let Some((_, q)) = parse_expr_at(toks, src, pos) {
            if tok(toks, q) == Token::Semicolon {
                lemma_stmts_advance(toks, src, q + 1);
            }
        }
    }
}

/// A function definition that parses ends after it begins and within the
/// stream.
pub proof fn lemma_fn_advances(toks: Seq<Token>, src: Seq<u8>, pos: int)
    ensures
        parse_fn_at(toks, src, pos) matches Some((_, r)) ==> pos < r <= toks.len(),
{
    if let Some((params, p)) = parse_params_at(toks, src, pos + 3) {
        lemma_params_advance(toks, src, pos + 3);
        if let Some((ret, q)) = parse_ret_at(toks, src, p + 1) {
            lemma_stmts_advance(toks, src, q + 1);
        }
    }
}

proof fn lemma_params_advance(toks: Seq<Token>, src: Seq<u8>, pos: int)
    ensures
        parse_params_at(toks, src, pos) matches Some((_, r)) ==> pos <= r,
    decreases toks.len() - pos,
{
    let t = tok(toks, pos);
    if !(t == Token::RParen || t == Token::Eof) {
        if let Token::Ident(_) = t {
            if let Some((_, p)) = parse_ty_at(toks, src, pos + 2) {
                let q = if tok(toks, p) == Token::Comma { p + 1 } else { p };
                lemma_params_advance(toks, src, q);
            }
        }
    }
}

/// No `Eof` lies at the positions `a..b`.
pub open spec fn eof_free(toks: Seq<Token>, a: int, b: int) -> bool {
    forall|k: int| a <= k < b ==> tok(toks, k) != Token::Eof
}

proof fn lemma_eof_free_join(toks: Seq<Token>, a: int, b: int, c: int)
    requires
        eof_free(toks, a, b),
        eof_free(toks, b, c),
    ensures
        eof_free(toks, a, c),
{
    assert forall|k: int| a <= k < c implies tok(toks, k) != Token::Eof by {
        if k < b {
            assert(tok(toks, k) != Token::Eof);
        } else {
            assert(tok(toks, k) != Token::Eof);
        }
    }
}

proof fn lemma_expr_eof_free(toks: Seq<Token>, src: Seq<u8>, pos: int)
    ensures
        parse_expr_at(toks, src, pos) matches Some((_, q)) ==> eof_free(toks, pos, q),
    decreases toks.len() - pos,
{
    if let Some((_, q)) = parse_expr_at(toks, src, pos) {
        if tok(toks, pos) == Token::Return && q != pos + 1 {
            lemma_expr_eof_free(toks, src, pos + 1);
            lemma_eof_free_join(toks, pos, pos + 1, q);
        }
    }
}

proof fn lemma_stmts_eof_free(toks: Seq<Token>, src: Seq<u8>, pos: int)
    ensures
        parse_stmts_at(toks, src, pos) matches Some((_, _, r)) ==> eof_free(toks, pos, r),
    decreases toks.len() - pos,
{
    let t = tok(toks, pos);
    if !(t == Token::RBrace || t == Token::Eof) {
        lemma_expr_advances(toks, src, pos);
        lemma_expr_eof_free(toks, src, pos);
        if let Some((_, q)) = parse_expr_at(toks, src, pos) {
            if tok(toks, q) == Token::Semicolon {
                lemma_stmts_eof_free(toks, src, q + 1);
                if let Some((_, _, r)) = parse_stmts_at(toks, src, q + 1) {
                    lemma_eof_free_join(toks, pos, q, q + 1);
                    lemma_eof_free_join(toks, pos, q + 1, r);
                }
            }
        }
    }
}

proof fn lemma_params_eof_free(toks: Seq<Token>, src: Seq<u8>, pos: int)
    ensures
        parse_params_at(toks, src, pos) matches Some((_, r)) ==> eof_free(toks, pos, r),
    decreases toks.len() - pos,
{
    let t = tok(toks, pos);
    if parse_params_at(toks, src, pos) is Some && !(t == Token::RParen || t == Token::Eof) {
        if let Token::Ident(_) = t {
            if let Some((_, p)) = parse_ty_at(toks, src, pos + 2) {
                let q = if tok(toks, p) == Token::Comma { p + 1 } else { p };
                lemma_params_eof_free(toks, src, q);
                if let Some((_, r)) = parse_params_at(toks, src, q) {
                    assert(p == pos + 3);
                    assert forall|k: int| pos <= k < q implies tok(toks, k) != Token::Eof by {
                        if k == pos {
                            assert(tok(toks, pos) is Ident);
                        } else if k == pos + 1 {
                            assert(tok(toks, pos + 1) == Token::Colon);
                        } else if k == pos + 2 {
                            assert(tok(toks, pos + 2) is Ident);
                        } else {
                            assert(tok(toks, p) == Token::Comma);
                        }
                    }
                    lemma_eof_free_join(toks, pos, q, r);
                }
            }
        }
    }
}

/// A function definition that parses holds no `Eof`.
proof fn lemma_fn_eof_free(toks: Seq<Token>, src: Seq<u8>, pos: int)
    ensures
        parse_fn_at(toks, src, pos) matches Some((_, r)) ==> eof_free(toks, pos, r),
{
    if let Some((_, r)) = parse_fn_at(toks, src, pos) {
        lemma_params_eof_free(toks, src, pos + 3);
        lemma_params_advance(toks, src, pos + 3);
        let (_, p) = parse_params_at(toks, src, pos + 3).unwrap();
        let (_, q) = parse_ret_at(toks, src, p + 1).unwrap();
        lemma_stmts_eof_free(toks, src, q + 1);
        lemma_stmts_advance(toks, src, q + 1);
        let (_, _, b) = parse_stmts_at(toks, src, q + 1).unwrap();
        assert(eof_free(toks, pos, pos + 3));
        lemma_eof_free_join(toks, pos, pos + 3, p);
        assert(eof_free(toks, p, q + 1));
        lemma_eof_free_join(toks, pos, p, q + 1);
        lemma_eof_free_join(toks, pos, q + 1, b);
        assert(eof_free(toks, b, r));
        lemma_eof_free_join(toks, pos, b, r);
    }
}

/// The items of a source file from `pos` up to the first `Eof`; tokens that
/// begin no item are skipped.
pub open spec fn parse_items_at(toks: Seq<Token>, src: Seq<u8>, pos: int) -> Option<Seq<ItemView>>
    decreases toks.len() - pos,
{
    let t = tok(toks, pos);
    if t == Token::Eof {
        Some(seq![])
    } else if t == Token::Fn {
        match parse_fn_at(toks, src, pos) {
            Some((f, q)) => {
                proof {
                    lemma_fn_advances(toks, src, pos);
                }
                match parse_items_at(toks, src, q) {
                    Some(rest) => Some(seq![ItemView::Fn(f)] + rest),
                    None => None,
                }
            },
            None => None,
        }
    } else {
        parse_items_at(toks, src, pos + 1)
    }
}

/// The syntax tree of the token stream `toks` over the source bytes `src`,
/// or `None` where the stream does not fit the grammar.
pub open spec fn parse_source(toks: Seq<Token>, src: Seq<u8>) -> Option<Seq<ItemView>> {
    parse_items_at(toks, src, 0)
}

// ---------------------------------------------------------------------------
// The parser.
// ---------------------------------------------------------------------------

/// Parse `tokens` into a [`SourceFile`] syntax tree.
///
/// `source` is the source text, needed to resolve identifier spans to type
/// names (`i32`). Items are parsed in declaration order. The token stream
/// must hold an `Eof` (the lexer's ends with one) and fit the grammar up to
/// its first `Eof`.
pub fn parse(tokens: &[Token], source: &str) -> (sf: SourceFile)
    requires
        tokens_wf(tokens@),
        parse_source(tokens@, source.spec_bytes()) is Some,
    ensures
        sf@ == parse_source(tokens@, source.spec_bytes()).unwrap(),
{
    let mut p = Parser { tokens, source, pos: 0 };
    match p.parse_source_file() {
        Some(sf) => sf,
        None => {
            proof {
                assert(false);
            }
            SourceFile { items: Vec::new() }
        },
    }
}

/// Parse `tokens` into a [`SourceFile`] syntax tree, or `None` where the
/// stream holds no `Eof` or does not fit the grammar up to its first `Eof`
/// (the streams that [`parse`] does not take).
pub fn try_parse(tokens: &[Token], source: &str) -> (r: Option<SourceFile>)
    ensures
        r is Some <==> tokens_wf(tokens@) && parse_source(tokens@, source.spec_bytes()) is Some,
        r matches Some(sf) ==> sf@ == parse_source(tokens@, source.spec_bytes()).unwrap(),
{
    let mut k: usize = 0;
    while k < tokens.len() && tokens[k] != Token::Eof
        invariant
            k <= tokens@.len(),
            forall|j: int| 0 <= j < k ==> tokens@[j] != Token::Eof,
        decreases tokens.len() - k,
    {
        k = k + 1;
    }
    if k == tokens.len() {
        return None;
    }
    assert(tokens@[k as int] == Token::Eof);
    let mut p = Parser { tokens, source, pos: 0 };
    p.parse_source_file()
}

/// The parser state: the token stream, the source text and the current
/// position. Each `parse_*` method returns `None` where the tokens at the
/// current position do not fit its rule of the grammar.
struct Parser<'src> {
    tokens: &'src [Token],
    source: &'src str,
    pos: usize,
}

impl<'src> Parser<'src> {
    /// An `Eof` lies at or after the current position.
    spec fn wf(self) -> bool {
        exists|k: int| self.pos <= k < self.tokens@.len() && self.tokens@[k] == Token::Eof
    }

    /// A state over the same input as `before`.
    spec fn continues(self, before: Parser<'src>) -> bool {
        &&& self.tokens == before.tokens
        &&& self.source == before.source
    }

    spec fn toks(self) -> Seq<Token> {
        self.tokens@
    }

    spec fn src(self) -> Seq<u8> {
        self.source.spec_bytes()
    }

    /// The current token, without advancing.
    fn peek(&self) -> (t: Token)
        requires
            self.wf(),
        ensures
            t == self.tokens@[self.pos as int],
    {
        self.tokens[self.pos]
    }

    /// Consume and return the current token; at the last token the position
    /// stays.
    fn bump(&mut self) -> (t: Token)
        requires
            old(self).wf(),
        ensures
            final(self).continues(*old(self)),
            t == old(self).tokens@[old(self).pos as int],
            final(self).pos == if old(self).pos + 1 < old(self).tokens@.len() {
                old(self).pos + 1
            } else {
                old(self).pos as int
            },
            t != Token::Eof ==> final(self).pos == old(self).pos + 1 && final(self).wf(),
    {
        let ghost k = choose|k: int|
            old(self).pos <= k < old(self).tokens@.len() && old(self).tokens@[k] == Token::Eof;
        let t = self.tokens[self.pos];
        if self.pos < self.tokens.len() - 1 {
            self.pos = self.pos + 1;
        }
        t
    }

    /// Whether the current token is `t`.
    fn at(&self, t: Token) -> (r: bool)
        requires
            self.wf(),
        ensures
            r == (self.tokens@[self.pos as int] == t),
    {
        self.peek() == t
    }

    /// Consume the current token, as [`Parser::bump`] does, and report
    /// whether it was `t`. A `false` means the grammar does not allow the
    /// token there; the callers then give up.
    fn expect(&mut self, t: Token) -> (ok: bool)
        requires
            old(self).wf(),
        ensures
            final(self).continues(*old(self)),
            ok == (old(self).tokens@[old(self).pos as int] == t),
            final(self).pos == if old(self).pos + 1 < old(self).tokens@.len() {
                old(self).pos + 1
            } else {
                old(self).pos as int
            },
            old(self).tokens@[old(self).pos as int] != Token::Eof ==> final(self).pos == old(self).pos
                + 1 && final(self).wf(),
    {
        let found = self.bump();
        found == t
    }

    /// Parse an expression.
    fn parse_expr(&mut self) -> (r: Option<Expr>)
        requires
            old(self).wf(),
        ensures
            final(self).continues(*old(self)),
            r is None <==> parse_expr_at(old(self).toks(), old(self).src(), old(self).pos as int) is None,
            r is Some ==> final(self).wf(),
            r matches Some(e) ==> parse_expr_at(old(self).toks(), old(self).src(), old(self).pos as int)
                == Some((e, final(self).pos as int)),
        decreases old(self).tokens@.len() - old(self).pos,
    {
        match self.peek() {
            Token::Return => {
                self.bump();
                if self.at(Token::Semicolon) || self.at(Token::RBrace) || self.at(Token::Eof) {
                    Some(Expr::Return(None))
                } else {
                    match self.parse_expr() {
                        Some(e) => Some(Expr::Return(Some(Box::new(e)))),
                        None => None,
                    }
                }
            },
            Token::IntLit(span) => {
                self.bump();
                Some(Expr::IntLit(span))
            },
            Token::True => {
                self.bump();
                Some(Expr::BoolLit(true))
            },
            Token::False => {
                self.bump();
                Some(Expr::BoolLit(false))
            },
            _ => None,
        }
    }

    /// Parse a block: `{`, statements, an optional tail expression, `}`.
    fn parse_block(&mut self) -> (r: Option<Block>)
        requires
            old(self).wf(),
        ensures
            final(self).continues(*old(self)),
            r is None <==> parse_block_at(old(self).toks(), old(self).src(), old(self).pos as int) is None,
            r is Some ==> final(self).wf(),
            r matches Some(b) ==> parse_block_at(old(self).toks(), old(self).src(), old(self).pos as int)
                == Some((b@, final(self).pos as int)),
    {
        let ghost toks = self.toks();
        let ghost src = self.src();
        let ghost entry = *self;
        if !self.expect(Token::LBrace) {
            return None;
        }
        let ghost start = self.pos as int;
        let mut stmts: Vec<Stmt> = Vec::new();
        let mut tail: Option<Box<Expr>> = None;
        while !self.at(Token::RBrace) && !self.at(Token::Eof)
            invariant_except_break
                tail is None,
                parse_stmts_at(toks, src, start) == match parse_stmts_at(toks, src, self.pos as int) {
                    Some((ss, t, r)) => Some((stmts@ + ss, t, r)),
                    None => None,
                },
            invariant
                entry == *old(self),
                self.continues(entry),
                self.wf(),
                toks == self.toks(),
                src == self.src(),
                start == entry.pos + 1,
                toks[entry.pos as int] == Token::LBrace,
            ensures
                parse_stmts_at(toks, src, start) == Some((stmts@, tail, self.pos as int)),
            decreases toks.len() - self.pos,
        {
            let ghost here = self.pos as int;
            let expr = match self.parse_expr() {
                Some(e) => e,
                None => return None,
            };
            proof {
                lemma_expr_advances(toks, src, here);
            }
            if self.at(Token::Semicolon) {
                self.bump();
                let ghost before = stmts@;
                stmts.push(Stmt::Expr(Box::new(expr)));
                assert(stmts@ == before + seq![Stmt::Expr(Box::new(expr))]);
                assert forall|ss: Seq<Stmt>| #![auto] before + (seq![Stmt::Expr(Box::new(expr))] + ss) == stmts@ + ss by {
                    assert(before + (seq![Stmt::Expr(Box::new(expr))] + ss) =~= stmts@ + ss);
                }
            } else {
                tail = Some(Box::new(expr));
                assert(stmts@ + seq![] =~= stmts@);
                break;
            }
        }
        if !self.expect(Token::RBrace) {
            return None;
        }
        Some(Block { stmts, tail })
    }

    /// Parse a parameter list, up to (not including) the closing `)`.
    fn parse_params(&mut self) -> (r: Option<Vec<Param>>)
        requires
            old(self).wf(),
        ensures
            final(self).continues(*old(self)),
            r is None <==> parse_params_at(old(self).toks(), old(self).src(), old(self).pos as int) is None,
            r is Some ==> final(self).wf(),
            r matches Some(ps) ==> parse_params_at(old(self).toks(), old(self).src(), old(self).pos as int)
                == Some((ps@, final(self).pos as int)),
    {
        let ghost toks = self.toks();
        let ghost src = self.src();
        let ghost entry = *self;
        let ghost start = self.pos as int;
        let mut params: Vec<Param> = Vec::new();
        while !self.at(Token::RParen) && !self.at(Token::Eof)
            invariant
                entry == *old(self),
                self.continues(entry),
                self.wf(),
                toks == self.toks(),
                src == self.src(),
                start == entry.pos,
                parse_params_at(toks, src, start) == match parse_params_at(toks, src, self.pos as int) {
                    Some((rest, r)) => Some((params@ + rest, r)),
                    None => None,
                },
            decreases toks.len() - self.pos,
        {
            let name = match self.bump() {
                Token::Ident(span) => span,
                _ => return None,
            };
            if !self.expect(Token::Colon) {
                return None;
            }
            let ty = match self.parse_ty() {
                Some(t) => t,
                None => return None,
            };
            let ghost before = params@;
            params.push(Param { name, ty });
            assert forall|rest: Seq<Param>| #![auto] before + (seq![Param { name, ty }] + rest) == params@ + rest by {
                assert(before + (seq![Param { name, ty }] + rest) =~= params@ + rest);
            }
            if self.at(Token::Comma) {
                self.bump();
            }
        }
        assert(params@ + seq![] =~= params@);
        Some(params)
    }

    /// Parse a function definition: `fn` name `(` params `)` (`->` type)?
    /// block.
    fn parse_fn(&mut self) -> (r: Option<FnDef>)
        requires
            old(self).wf(),
        ensures
            final(self).continues(*old(self)),
            r is None <==> parse_fn_at(old(self).toks(), old(self).src(), old(self).pos as int) is None,
            r is Some ==> final(self).wf(),
            r matches Some(f) ==> parse_fn_at(old(self).toks(), old(self).src(), old(self).pos as int)
                == Some((f@, final(self).pos as int)),
    {
        if !self.expect(Token::Fn) {
            return None;
        }
        let name = match self.bump() {
            Token::Ident(span) => span,
            _ => return None,
        };
        if !self.expect(Token::LParen) {
            return None;
        }
        let params = match self.parse_params() {
            Some(ps) => ps,
            None => return None,
        };
        if !self.expect(Token::RParen) {
            return None;
        }
        let ret = if self.at(Token::Arrow) {
            self.bump();
            match self.parse_ty() {
                Some(ty) => Some(ty),
                None => return None,
            }
        } else {
            None
        };
        let body = match self.parse_block() {
            Some(b) => b,
            None => return None,
        };
        Some(FnDef { name, params, ret, body })
    }

    /// Parse one item, `Ok(None)` where the current token begins no item
    /// (the position is then unchanged), `Err` where an item begins but does
    /// not fit the grammar.
    fn parse_item(&mut self) -> (r: Result<Option<Item>, ()>)
        requires
            old(self).wf(),
        ensures
            final(self).continues(*old(self)),
            old(self).toks()[old(self).pos as int] != Token::Fn ==> r == Ok::<Option<Item>, ()>(None)
                && final(self).pos == old(self).pos,
            old(self).toks()[old(self).pos as int] == Token::Fn ==> {
                &&& r is Err <==> parse_fn_at(old(self).toks(), old(self).src(), old(self).pos as int) is None
                &&& r matches Ok(Some(item)) ==> parse_fn_at(old(self).toks(), old(self).src(), old(self).pos as int)
                    matches Some((f, q)) && item@ == ItemView::Fn(f) && q == final(self).pos
            },
            r matches Ok(x) ==> (x is Some <==> old(self).toks()[old(self).pos as int] == Token::Fn),
            r is Ok ==> final(self).wf(),
    {
        match self.peek() {
            Token::Fn => match self.parse_fn() {
                Some(f) => Ok(Some(Item::Fn(Box::new(f)))),
                None => Err(()),
            },
            _ => Ok(None),
        }
    }

    /// Parse the top-level item list, skipping tokens that begin no item.
    fn parse_source_file(&mut self) -> (r: Option<SourceFile>)
        requires
            old(self).wf(),
        ensures
            r is None <==> parse_items_at(old(self).toks(), old(self).src(), old(self).pos as int) is None,
            r matches Some(sf) ==> parse_items_at(old(self).toks(), old(self).src(), old(self).pos as int)
                == Some(sf@),
            final(self).continues(*old(self)),
            r is Some ==> {
                &&& final(self).wf()
                &&& old(self).pos <= final(self).pos
                &&& final(self).toks()[final(self).pos as int] == Token::Eof
                &&& eof_free(old(self).toks(), old(self).pos as int, final(self).pos as int)
            },
    {
        let ghost toks = self.toks();
        let ghost src = self.src();
        let ghost entry = *self;
        let ghost start = self.pos as int;
        let mut items: Vec<Item> = Vec::new();
        while !self.at(Token::Eof)
            invariant
                entry == *old(self),
                self.continues(entry),
                self.wf(),
                toks == self.toks(),
                src == self.src(),
                start == entry.pos,
                start <= self.pos,
                eof_free(toks, start, self.pos as int),
                parse_items_at(toks, src, start) == match parse_items_at(toks, src, self.pos as int) {
                    Some(rest) => Some(items@.map_values(|item: Item| item@) + rest),
                    None => None,
                },
            decreases toks.len() - self.pos,
        {
            let ghost here = self.pos as int;
            match self.parse_item() {
                Ok(Some(item)) => {
                    proof {
                        lemma_fn_advances(toks, src, here);
                        lemma_fn_eof_free(toks, src, here);
                        lemma_eof_free_join(toks, start, here, self.pos as int);
                    }
                    let ghost before = items@.map_values(|item: Item| item@);
                    items.push(item);
                    let ghost after = items@.map_values(|item: Item| item@);
                    assert(after =~= before + seq![item@]);
                    assert forall|rest: Seq<ItemView>| #![auto] before + (seq![item@] + rest) == after + rest by {
                        assert(before + (seq![item@] + rest) =~= after + rest);
                    }
                },
                Ok(None) => {
                    self.bump();
                    proof {
                        assert(eof_free(toks, here, self.pos as int));
                        lemma_eof_free_join(toks, start, here, self.pos as int);
                    }
                },
                Err(()) => {
                    return None;
                },
            }
        }
        let sf = SourceFile { items };
        assert(sf@ =~= items@.map_values(|item: Item| item@) + seq![]);
        Some(sf)
    }

    /// Parse a type.
    fn parse_ty(&mut self) -> (r: Option<Ty>)
        requires
            old(self).wf(),
        ensures
            final(self).continues(*old(self)),
            r is None <==> parse_ty_at(old(self).toks(), old(self).src(), old(self).pos as int) is None,
            r is Some ==> final(self).wf(),
            r matches Some(ty) ==> parse_ty_at(old(self).toks(), old(self).src(), old(self).pos as int)
                == Some((ty, final(self).pos as int)),
    {
        match self.bump() {
            Token::Ident(span) => {
                let start = span_start(span);
                let end = start + span_len(span);
                proof {
                    vstd::utf8::encode_utf8_valid_utf8(self.source@);
                }
                if self.source.is_char_boundary(start) && self.source.is_char_boundary(end) {
                    let text = token_text(span, self.source);
                    let b = text.as_bytes();
                    if b.len() == 3 && b[0] == 0x69 && b[1] == 0x33 && b[2] == 0x32 {
                        assert(b@ =~= seq![0x69u8, 0x33, 0x32]);
                        Some(Ty::I32)
                    } else {
                        None
                    }
                } else {
                    None
                }
            },
            _ => None,
        }
    }
}

// ---------------------------------------------------------------------------
// Properties of the grammar.
// ---------------------------------------------------------------------------

/// The lexer's output always has the shape the parser needs: it ends with
/// `Eof`.
pub proof fn lemma_lexed_tokens_wf(src: Seq<u8>)
    ensures
        tokens_wf(crate::lexer::lex(src)),
{
    crate::lexer::lemma_lex_shape(src, 0);
}

/// Every span-carrying token behind the expression `e` (its integer
/// literals) satisfies `p`.
pub open spec fn expr_spans_satisfy(e: Expr, p: spec_fn(Token) -> bool) -> bool
    decreases e,
{
    match e {
        Expr::IntLit(s) => p(Token::IntLit(s)),
        Expr::BoolLit(_) => true,
        Expr::Return(None) => true,
        Expr::Return(Some(inner)) => expr_spans_satisfy(*inner, p),
    }
}

/// Every span-carrying token behind the function `f` (its name, its
/// parameter names and the integer literals of its body) satisfies `p`.
pub open spec fn fn_spans_satisfy(f: FnDefView, p: spec_fn(Token) -> bool) -> bool {
    &&& p(Token::Ident(f.name))
    &&& forall|i: int| 0 <= i < f.params.len() ==> p(Token::Ident(#[trigger] f.params[i].name))
    &&& forall|i: int|
        0 <= i < f.body.stmts.len() ==> match #[trigger] f.body.stmts[i] {
            Stmt::Expr(e) => expr_spans_satisfy(*e, p),
        }
    &&& (f.body.tail matches Some(e) ==> expr_spans_satisfy(*e, p))
}

/// Every span-carrying token behind the items `items` satisfies `p`.
pub open spec fn items_spans_satisfy(items: Seq<ItemView>, p: spec_fn(Token) -> bool) -> bool {
    forall|i: int| 0 <= i < items.len() ==> match #[trigger] items[i] {
        ItemView::Fn(f) => fn_spans_satisfy(f, p),
    }
}

/// The token `t` occurs in the stream `toks`.
pub open spec fn in_stream(toks: Seq<Token>) -> spec_fn(Token) -> bool {
    |t: Token| toks.contains(t)
}

proof fn lemma_expr_spans(toks: Seq<Token>, src: Seq<u8>, pos: int)
    ensures
        parse_expr_at(toks, src, pos) matches Some((e, _)) ==> expr_spans_satisfy(e, in_stream(toks)),
    decreases toks.len() - pos,
{
    match tok(toks, pos) {
        Token::Return => {
            lemma_expr_advances(toks, src, pos + 1);
            lemma_expr_spans(toks, src, pos + 1);
        },
        Token::IntLit(s) => {
            assert(toks[pos] == Token::IntLit(s));
        },
        _ => {},
    }
}

proof fn lemma_stmts_spans(toks: Seq<Token>, src: Seq<u8>, pos: int)
    ensures
        parse_stmts_at(toks, src, pos) matches Some((ss, tail, _)) ==> {
            &&& forall|i: int|
                0 <= i < ss.len() ==> match #[trigger] ss[i] {
                    Stmt::Expr(e) => expr_spans_satisfy(*e, in_stream(toks)),
                }
            &&& (tail matches Some(e) ==> expr_spans_satisfy(*e, in_stream(toks)))
        },
    decreases toks.len() - pos,
{
    let t = tok(toks, pos);
    if !(t == Token::RBrace || t == Token::Eof) {
        lemma_expr_advances(toks, src, pos);
        lemma_expr_spans(toks, src, pos);
        if let Some((e, q)) = parse_expr_at(toks, src, pos) {
            if tok(toks, q) == Token::Semicolon {
                lemma_stmts_spans(toks, src, q + 1);
                if let Some((ss, tail, r)) = parse_stmts_at(toks, src, q + 1) {
                    let all = seq![Stmt::Expr(Box::new(e))] + ss;
                    assert forall|i: int| 0 <= i < all.len() implies match #[trigger] all[i] {
                        Stmt::Expr(e) => expr_spans_satisfy(*e, in_stream(toks)),
                    } by {
                        if i > 0 {
                            assert(all[i] == ss[i - 1]);
                        }
                    }
                }
            }
        }
    }
}

proof fn lemma_params_spans(toks: Seq<Token>, src: Seq<u8>, pos: int)
    ensures
        parse_params_at(toks, src, pos) matches Some((ps, _)) ==> forall|i: int|
            0 <= i < ps.len() ==> in_stream(toks)(Token::Ident(#[trigger] ps[i].name)),
    decreases toks.len() - pos,
{
    let t = tok(toks, pos);
    if !(t == Token::RParen || t == Token::Eof) {
        if let Token::Ident(name) = t {
            if let Some((ty, p)) = parse_ty_at(toks, src, pos + 2) {
                let q = if tok(toks, p) == Token::Comma { p + 1 } else { p };
                lemma_params_spans(toks, src, q);
                if let Some((rest, r)) = parse_params_at(toks, src, q) {
                    assert(toks[pos] == Token::Ident(name));
                    let all = seq![Param { name, ty }] + rest;
                    assert forall|i: int| 0 <= i < all.len() implies in_stream(toks)(
                        Token::Ident(#[trigger] all[i].name),
                    ) by {
                        if i > 0 {
                            assert(all[i] == rest[i - 1]);
                        }
                    }
                }
            }
        }
    }
}

proof fn lemma_fn_spans(toks: Seq<Token>, src: Seq<u8>, pos: int)
    ensures
        parse_fn_at(toks, src, pos) matches Some((f, _)) ==> fn_spans_satisfy(f, in_stream(toks)),
{
    if let Some((f, _)) = parse_fn_at(toks, src, pos) {
        assert(toks[pos + 1] == Token::Ident(f.name));
        lemma_params_spans(toks, src, pos + 3);
        let (_, p) = parse_params_at(toks, src, pos + 3).unwrap();
        let (_, q) = parse_ret_at(toks, src, p + 1).unwrap();
        lemma_stmts_spans(toks, src, q + 1);
    }
}

proof fn lemma_items_spans(toks: Seq<Token>, src: Seq<u8>, pos: int)
    ensures
        parse_items_at(toks, src, pos) matches Some(items) ==> items_spans_satisfy(items, in_stream(toks)),
    decreases toks.len() - pos,
{
    let t = tok(toks, pos);
    if t == Token::Fn {
        lemma_fn_advances(toks, src, pos);
        lemma_fn_spans(toks, src, pos);
        if let Some((f, q)) = parse_fn_at(toks, src, pos) {
            lemma_items_spans(toks, src, q);
            if let Some(rest) = parse_items_at(toks, src, q) {
                let all = seq![ItemView::Fn(f)] + rest;
                assert forall|i: int| 0 <= i < all.len() implies match #[trigger] all[i] {
                    ItemView::Fn(f) => fn_spans_satisfy(f, in_stream(toks)),
                } by {
                    if i > 0 {
                        assert(all[i] == rest[i - 1]);
                    }
                }
            }
        }
    } else if t != Token::Eof {
        lemma_items_spans(toks, src, pos + 1);
    }
}

proof fn lemma_expr_spans_weaken(e: Expr, p: spec_fn(Token) -> bool, q: spec_fn(Token) -> bool)
    requires
        expr_spans_satisfy(e, p),
        forall|t: Token| #[trigger] p(t) ==> q(t),
    ensures
        expr_spans_satisfy(e, q),
    decreases e,
{
    if let Expr::Return(Some(inner)) = e {
        lemma_expr_spans_weaken(*inner, p, q);
    }
}

/// Every name and literal span of a parsed tree comes from a token of the
/// stream that was parsed.
pub proof fn lemma_parsed_spans_from_stream(toks: Seq<Token>, src: Seq<u8>)
    requires
        parse_source(toks, src) is Some,
    ensures
        items_spans_satisfy(parse_source(toks, src).unwrap(), in_stream(toks)),
{
    lemma_items_spans(toks, src, 0);
}

/// The name and literal spans of the tree that [`parse`] builds from the
/// tokens of [`crate::lexer::tokenize`] (for a source of fewer than 2^32
/// bytes) can all be resolved with [`token_text`]: each lies on character
/// boundaries within the source and covers a whole word (for names, not a
/// keyword) or run of digits.
pub proof fn lemma_parsed_spans_resolve(source: &str)
    requires
        crate::lexer::lexable(source.spec_bytes()),
        source.spec_bytes().len() <= u32::MAX,
        parse_source(crate::lexer::lex(source.spec_bytes()), source.spec_bytes()) is Some,
    ensures
        items_spans_satisfy(
            parse_source(crate::lexer::lex(source.spec_bytes()), source.spec_bytes()).unwrap(),
            |t: Token|
                crate::lexer::span_sliceable(source.spec_bytes(), t) && crate::lexer::locates_word(
                    source.spec_bytes(),
                    t,
                ),
        ),
{
    let src = source.spec_bytes();
    let toks = crate::lexer::lex(src);
    let items = parse_source(toks, src).unwrap();
    let p = in_stream(toks);
    let q = |t: Token| crate::lexer::span_sliceable(src, t) && crate::lexer::locates_word(src, t);
    assert forall|t: Token| #[trigger] p(t) implies q(t) by {
        let k = choose|k: int| 0 <= k < toks.len() && toks[k] == t;
        crate::lexer::lemma_token_text_sliceable(source, k);
    }
    lemma_parsed_spans_from_stream(toks, src);
    assert forall|i: int| 0 <= i < items.len() implies match #[trigger] items[i] {
        ItemView::Fn(f) => fn_spans_satisfy(f, q),
    } by {
        let ItemView::Fn(f) = items[i];
        assert(fn_spans_satisfy(f, p));
        assert forall|j: int| 0 <= j < f.body.stmts.len() implies match #[trigger] f.body.stmts[j] {
            Stmt::Expr(e) => expr_spans_satisfy(*e, q),
        } by {
            let Stmt::Expr(e) = f.body.stmts[j];
            lemma_expr_spans_weaken(*e, p, q);
        }
        if let Some(e) = f.body.tail {
            lemma_expr_spans_weaken(*e, p, q);
        }
    }
}

/// Past its first token, the stream `toks.drop_first()` reads as `toks`
/// one position later.
proof fn lemma_tok_shift(toks: Seq<Token>)
    requires
        toks.len() >= 1,
    ensures
        forall|i: int| i >= 0 ==> #[trigger] tok(toks.drop_first(), i) == tok(toks, i + 1),
{
}

proof fn lemma_ty_shift(toks: Seq<Token>, src: Seq<u8>, pos: int)
    requires
        toks.len() >= 1,
        pos >= 0,
    ensures
        parse_ty_at(toks.drop_first(), src, pos) == match parse_ty_at(toks, src, pos + 1) {
            Some((ty, q)) => Some((ty, q - 1)),
            None => None,
        },
{
    lemma_tok_shift(toks);
    assert(tok(toks.drop_first(), pos) == tok(toks, pos + 1));
}

proof fn lemma_expr_shift(toks: Seq<Token>, src: Seq<u8>, pos: int)
    requires
        toks.len() >= 1,
        pos >= 0,
    ensures
        parse_expr_at(toks.drop_first(), src, pos) == match parse_expr_at(toks, src, pos + 1) {
            Some((e, q)) => Some((e, q - 1)),
            None => None,
        },
    decreases toks.len() - pos,
{
    lemma_tok_shift(toks);
    assert(tok(toks.drop_first(), pos) == tok(toks, pos + 1));
    assert(tok(toks.drop_first(), pos + 1) == tok(toks, pos + 2));
    if tok(toks, pos + 1) == Token::Return && pos + 1 < toks.len() {
        lemma_expr_shift(toks, src, pos + 1);
    }
}

proof fn lemma_stmts_shift(toks: Seq<Token>, src: Seq<u8>, pos: int)
    requires
        toks.len() >= 1,
        pos >= 0,
    ensures
        parse_stmts_at(toks.drop_first(), src, pos) == match parse_stmts_at(toks, src, pos + 1) {
            Some((ss, tail, r)) => Some((ss, tail, r - 1)),
            None => None,
        },
    decreases toks.len() - pos,
{
    let t2 = toks.drop_first();
    lemma_tok_shift(toks);
    assert(tok(t2, pos) == tok(toks, pos + 1));
    lemma_expr_shift(toks, src, pos);
    lemma_expr_advances(toks, src, pos + 1);
    if let Some((e, q)) = parse_expr_at(toks, src, pos + 1) {
        assert(tok(t2, q - 1) == tok(toks, q));
        if tok(toks, q) == Token::Semicolon && q < toks.len() {
            lemma_stmts_shift(toks, src, q);
        }
    }
}

proof fn lemma_params_shift(toks: Seq<Token>, src: Seq<u8>, pos: int)
    requires
        toks.len() >= 1,
        pos >= 0,
    ensures
        parse_params_at(toks.drop_first(), src, pos) == match parse_params_at(toks, src, pos + 1) {
            Some((ps, r)) => Some((ps, r - 1)),
            None => None,
        },
    decreases toks.len() - pos,
{
    let t2 = toks.drop_first();
    lemma_tok_shift(toks);
    assert(tok(t2, pos) == tok(toks, pos + 1));
    assert(tok(t2, pos + 1) == tok(toks, pos + 2));
    lemma_ty_shift(toks, src, pos + 2);
    if let Some((ty, p)) = parse_ty_at(toks, src, pos + 3) {
        assert(tok(t2, p - 1) == tok(toks, p));
        let q = if tok(toks, p) == Token::Comma { p + 1 } else { p };
        if tok(toks, pos + 1) is Ident {
            lemma_params_shift(toks, src, q - 1);
        }
    }
}

proof fn lemma_block_shift(toks: Seq<Token>, src: Seq<u8>, pos: int)
    requires
        toks.len() >= 1,
        pos >= 0,
    ensures
        parse_block_at(toks.drop_first(), src, pos) == match parse_block_at(toks, src, pos + 1) {
            Some((b, r)) => Some((b, r - 1)),
            None => None,
        },
{
    let t2 = toks.drop_first();
    lemma_tok_shift(toks);
    assert(tok(t2, pos) == tok(toks, pos + 1));
    lemma_stmts_shift(toks, src, pos + 1);
    lemma_stmts_advance(toks, src, pos + 2);
    if let Some((_, _, r)) = parse_stmts_at(toks, src, pos + 2) {
        assert(tok(t2, r - 1) == tok(toks, r));
    }
}

proof fn lemma_fn_shift(toks: Seq<Token>, src: Seq<u8>, pos: int)
    requires
        toks.len() >= 1,
        pos >= 0,
    ensures
        parse_fn_at(toks.drop_first(), src, pos) == match parse_fn_at(toks, src, pos + 1) {
            Some((f, r)) => Some((f, r - 1)),
            None => None,
        },
{
    let t2 = toks.drop_first();
    lemma_tok_shift(toks);
    assert(tok(t2, pos) == tok(toks, pos + 1));
    assert(tok(t2, pos + 1) == tok(toks, pos + 2));
    assert(tok(t2, pos + 2) == tok(toks, pos + 3));
    lemma_params_shift(toks, src, pos + 3);
    lemma_params_advance(toks, src, pos + 4);
    if let Some((_, p)) = parse_params_at(toks, src, pos + 4) {
        assert(tok(t2, p - 1) == tok(toks, p));
        assert(tok(t2, p) == tok(toks, p + 1));
        lemma_ty_shift(toks, src, p + 1);
        if let Some((ret, q)) = parse_ret_at(toks, src, p + 1) {
            lemma_block_shift(toks, src, q - 1);
        }
    }
}

proof fn lemma_items_shift(toks: Seq<Token>, src: Seq<u8>, pos: int)
    requires
        toks.len() >= 1,
        pos >= 0,
    ensures
        parse_items_at(toks.drop_first(), src, pos) == parse_items_at(toks, src, pos + 1),
    decreases toks.len() - pos,
{
    let t2 = toks.drop_first();
    lemma_tok_shift(toks);
    assert(tok(t2, pos) == tok(toks, pos + 1));
    let t = tok(toks, pos + 1);
    if t == Token::Fn {
        lemma_fn_shift(toks, src, pos);
        lemma_fn_advances(toks, src, pos + 1);
        if let Some((f, q)) = parse_fn_at(toks, src, pos + 1) {
            lemma_items_shift(toks, src, q - 1);
        }
    } else if t != Token::Eof {
        lemma_items_shift(toks, src, pos + 1);
    }
}

/// A token at item position that begins no item is skipped: dropping a
/// first token other than `fn` and `Eof` leaves the parse (and whether the
/// stream holds an `Eof`) unchanged.
pub proof fn lemma_parse_skips_leading_token(toks: Seq<Token>, src: Seq<u8>)
    requires
        toks.len() >= 1,
        toks[0] != Token::Fn,
        toks[0] != Token::Eof,
    ensures
        parse_source(toks.drop_first(), src) == parse_source(toks, src),
        tokens_wf(toks.drop_first()) == tokens_wf(toks),
{
    lemma_items_shift(toks, src, 0);
    assert(tok(toks, 0) == toks[0]);
    if tokens_wf(toks) {
        let k = choose|k: int| 0 <= k < toks.len() && toks[k] == Token::Eof;
        assert(toks.drop_first()[k - 1] == Token::Eof);
    }
    if tokens_wf(toks.drop_first()) {
        let k = choose|k: int| 0 <= k < toks.drop_first().len() && toks.drop_first()[k] == Token::Eof;
        assert(toks[k + 1] == Token::Eof);
    }
}

/// The source bytes that the span `s` covers.
pub open spec fn span_bytes(src: Seq<u8>, s: u32) -> Seq<u8> {
    src.subrange(start_of(s), start_of(s) + len_of(s))
}

/// A type parses exactly when its token is an identifier whose source text
/// is, byte for byte, `i32` (and can be sliced out); it is then `Ty::I32`
/// and takes that one token.
pub proof fn lemma_ty_is_exactly_i32(toks: Seq<Token>, src: Seq<u8>, pos: int)
    ensures
        parse_ty_at(toks, src, pos) is Some ==> {
            &&& tok(toks, pos) is Ident
            &&& span_bytes(src, tok(toks, pos)->Ident_0) == seq!['i' as u8, '3' as u8, '2' as u8]
            &&& parse_ty_at(toks, src, pos) == Some((Ty::I32, pos + 1))
        },
        (tok(toks, pos) matches Token::Ident(s) && sliceable(src, start_of(s), start_of(s) + len_of(s))
            && span_bytes(src, s) == seq!['i' as u8, '3' as u8, '2' as u8]) ==> parse_ty_at(toks, src, pos)
            == Some((Ty::I32, pos + 1)),
{
    if let Token::Ident(s) = tok(toks, pos) {
        if parse_ty_at(toks, src, pos) is Some {
            assert(span_bytes(src, s) =~= seq!['i' as u8, '3' as u8, '2' as u8]);
        }
        if span_bytes(src, s) == seq!['i' as u8, '3' as u8, '2' as u8] {
            assert(span_bytes(src, s) =~= seq![0x69u8, 0x33, 0x32]);
        }
    }
}

/// `return` takes the expression that follows it whenever one parses there,
/// and is bare exactly before `;`, `}` or the end of the stream.
pub proof fn lemma_return_takes_following_expr(toks: Seq<Token>, src: Seq<u8>, pos: int)
    requires
        tok(toks, pos) == Token::Return,
    ensures
        ({
            let t = tok(toks, pos + 1);
            t == Token::Semicolon || t == Token::RBrace || t == Token::Eof
        }) ==> parse_expr_at(toks, src, pos) == Some((Expr::Return(None), pos + 1)),
        parse_expr_at(toks, src, pos + 1) matches Some((e, q)) ==> parse_expr_at(toks, src, pos)
            == Some((Expr::Return(Some(Box::new(e))), q)),
        parse_expr_at(toks, src, pos) matches Some((Expr::Return(None), _)) ==> ({
            let t = tok(toks, pos + 1);
            t == Token::Semicolon || t == Token::RBrace || t == Token::Eof
        }),
{
    let t = tok(toks, pos + 1);
    if t == Token::Semicolon || t == Token::RBrace || t == Token::Eof {
        assert(parse_expr_at(toks, src, pos + 1) is None);
    }
}

proof fn lemma_params_no_rparen(toks: Seq<Token>, src: Seq<u8>, pos: int)
    ensures
        parse_params_at(toks, src, pos) matches Some((_, r)) ==> {
            &&& pos <= r
            &&& forall|k: int| pos <= k < r ==> tok(toks, k) != Token::RParen
        },
    decreases toks.len() - pos,
{
    let t = tok(toks, pos);
    if parse_params_at(toks, src, pos) is Some && !(t == Token::RParen || t == Token::Eof) {
        if let Token::Ident(_) = t {
            if let Some((_, p)) = parse_ty_at(toks, src, pos + 2) {
                let q = if tok(toks, p) == Token::Comma { p + 1 } else { p };
                lemma_params_no_rparen(toks, src, q);
                if let Some((_, r)) = parse_params_at(toks, src, q) {
                    assert forall|k: int| pos <= k < r implies tok(toks, k) != Token::RParen by {
                        if k == pos {
                            assert(tok(toks, pos) is Ident);
                        } else if k == pos + 1 {
                            assert(tok(toks, pos + 1) == Token::Colon);
                        } else if k == pos + 2 {
                            assert(tok(toks, pos + 2) is Ident);
                        } else if k < q {
                            assert(tok(toks, p) == Token::Comma);
                        }
                    }
                }
            }
        }
    }
}

/// The return type of a parsed function follows from the tokens alone,
/// whatever its parameter list: with `p` the first `)` after the `fn`, the
/// function has return type `i32` exactly when `->` follows that `)`, and
/// none otherwise.
pub proof fn lemma_fn_ret_follows_arrow(toks: Seq<Token>, src: Seq<u8>, pos: int, p: int)
    requires
        parse_fn_at(toks, src, pos) is Some,
        pos < p,
        tok(toks, p) == Token::RParen,
        forall|k: int| pos <= k < p ==> tok(toks, k) != Token::RParen,
    ensures
        parse_fn_at(toks, src, pos).unwrap().0.ret == if tok(toks, p + 1) == Token::Arrow {
            Some(Ty::I32)
        } else {
            None
        },
{
    lemma_params_no_rparen(toks, src, pos + 3);
    let (_, p2) = parse_params_at(toks, src, pos + 3).unwrap();
    assert(tok(toks, p2) == Token::RParen);
    if p2 < p {
        assert(tok(toks, p2) != Token::RParen);
    }
    if p < p2 {
        assert(p >= pos + 3) by {
            assert(tok(toks, pos) == Token::Fn);
            assert(tok(toks, pos + 1) is Ident);
            assert(tok(toks, pos + 2) == Token::LParen);
        }
        assert(tok(toks, p) != Token::RParen);
    }
    assert(p == p2);
}

} // verus!
