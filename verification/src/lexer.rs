//! Lexer: converts source text into a flat sequence of [`Token`] values.
//! The entry points are [`tokenize`] and [`try_tokenize`].
use vstd::prelude::*;
use vstd::string::StringSliceAdditionalSpecFns;
use vstd::utf8::is_char_boundary;

verus! {

/// A lexical token produced by [`tokenize`].
///
/// Keywords and punctuation carry no payload. Identifiers and literals carry
/// a packed span: bits 31..8 hold the start byte offset in the source and
/// bits 7..0 the byte length (see [`pack_span`], [`span_start`],
/// [`span_len`] and [`token_text`]). The type is 8 bytes: a one-byte tag and
/// a `u32` payload.
#[derive(Clone, Copy, Debug, PartialEq, Eq, Structural)]
pub enum Token {
    // Strict keywords.
    Fn,
    Return,
    Let,
    Mut,
    If,
    Else,
    While,
    For,
    In,
    /// The boolean literal `true`.
    True,
    /// The boolean literal `false`.
    False,
    // Punctuation and operators.
    /// `(`
    LParen,
    /// `)`
    RParen,
    /// `{`
    LBrace,
    /// `}`
    RBrace,
    /// `[`
    LBracket,
    /// `]`
    RBracket,
    /// `;`
    Semicolon,
    /// `:`
    Colon,
    /// `::`
    ColonColon,
    /// `,`
    Comma,
    /// `.`
    Dot,
    /// `->`
    Arrow,
    /// `=>`
    FatArrow,
    /// `=`
    Eq,
    /// `==`
    EqEq,
    /// `!=`
    Ne,
    /// `<`
    Lt,
    /// `<=`
    Le,
    /// `>`
    Gt,
    /// `>=`
    Ge,
    /// `+`
    Plus,
    /// `-`
    Minus,
    /// `*`
    Star,
    /// `/`
    Slash,
    /// `%`
    Percent,
    /// `&`
    Amp,
    /// `&&`
    AmpAmp,
    /// `|`
    Pipe,
    /// `||`
    PipePipe,
    /// `^`
    Caret,
    /// `!`
    Bang,
    // Tokens with a packed span.
    /// An identifier or path segment.
    Ident(u32),
    /// A decimal integer literal.
    IntLit(u32),
    /// A floating-point literal (never produced by the current lexer).
    FloatLit(u32),
    /// End of input.
    Eof,
}


/// The packed form of a span: the start offset in the high 24 bits and the
/// byte length in the low 8 bits.
pub open spec fn packed(start: int, len: int) -> int {
    start * 256 + len
}

/// The start offset held in a packed span.
pub open spec fn start_of(packed: u32) -> int {
    packed as int / 256
}

/// The byte length held in a packed span.
pub open spec fn len_of(packed: u32) -> int {
    packed as int % 256
}

/// Pack a byte offset and byte length into the span `u32` used by
/// identifier and literal tokens.
pub fn pack_span(start: u32, len: u32) -> (r: u32)
    requires
        start < 0x100_0000,
        len < 256,
    ensures
        r == packed(start as int, len as int),
{
    assert((start << 8u32) | len == start * 256 + len) by (bit_vector)
        requires
            start < 0x100_0000u32,
            len < 256u32,
    ;
    (start << 8) | len
}

/// Extract the start byte offset from a packed span.
pub fn span_start(packed: u32) -> (r: usize)
    ensures
        r == start_of(packed),
{
    assert(packed >> 8u32 == packed / 256) by (bit_vector);
    (packed >> 8) as usize
}

/// Extract the byte length from a packed span.
pub fn span_len(packed: u32) -> (r: usize)
    ensures
        r == len_of(packed),
{
    assert(packed & 0xFFu32 == packed % 256) by (bit_vector);
    (packed & 0xFF) as usize
}

/// `index` falls on a character boundary of the UTF-8 bytes `bytes` and lies
/// within them.
pub open spec fn boundary_in(bytes: Seq<u8>, index: int) -> bool {
    0 <= index <= bytes.len() && is_char_boundary(bytes, index)
}

/// A byte range `start..end` of the UTF-8 text `bytes` that slicing accepts: in bounds, in
/// order, and on character boundaries at both ends.
pub open spec fn sliceable(bytes: Seq<u8>, start: int, end: int) -> bool {
    &&& start <= end
    &&& boundary_in(bytes, start)
    &&& boundary_in(bytes, end)
}

/// A character boundary at `end` of the UTF-8 text is also one of its
/// suffix starting at the boundary `start`.
proof fn lemma_boundary_in_suffix(bytes: Seq<u8>, start: int, end: int)
    requires
        vstd::utf8::valid_utf8(bytes),
        sliceable(bytes, start, end),
    ensures
        ({
            let suffix = bytes.subrange(start, bytes.len() as int);
            &&& vstd::utf8::valid_utf8(suffix)
            &&& is_char_boundary(suffix, end - start)
        }),
{
    let suffix = bytes.subrange(start, bytes.len() as int);
    vstd::utf8::valid_utf8_split(bytes, start);
    if end < bytes.len() {
        vstd::utf8::is_char_boundary_iff_not_is_continuation_byte(bytes, end);
        vstd::utf8::is_char_boundary_iff_not_is_continuation_byte(suffix, end - start);
        assert(suffix[end - start] == bytes[end]);
    } else {
        vstd::utf8::is_char_boundary_start_end_of_seq(suffix);
    }
}

/// Return the source slice corresponding to a packed span.
pub fn token_text(packed: u32, source: &str) -> (r: &str)
    requires
        sliceable(source.spec_bytes(), start_of(packed), start_of(packed) + len_of(packed)),
    ensures
        r.spec_bytes() == source.spec_bytes().subrange(
            start_of(packed),
            start_of(packed) + len_of(packed),
        ),
{
    let start = span_start(packed);
    let len = span_len(packed);
    proof {
        vstd::utf8::encode_utf8_valid_utf8(source@);
        lemma_boundary_in_suffix(source.spec_bytes(), start as int, start + len);
    }
    let (_, rest) = source.split_at(start);
    let (text, _) = rest.split_at(len);
    assert(text.spec_bytes() =~= source.spec_bytes().subrange(start as int, start + len));
    text
}

// ---------------------------------------------------------------------------
// The lexical grammar, over the UTF-8 bytes of the source.
// ---------------------------------------------------------------------------

/// ASCII whitespace: space, tab, line feed, form feed, carriage return.
pub open spec fn is_whitespace(b: u8) -> bool {
    b == 0x20 || b == 0x09 || b == 0x0A || b == 0x0C || b == 0x0D
}

/// An ASCII letter.
pub open spec fn is_alpha(b: u8) -> bool {
    (0x41 <= b <= 0x5A) || (0x61 <= b <= 0x7A)
}

/// An ASCII decimal digit.
pub open spec fn is_digit(b: u8) -> bool {
    0x30 <= b <= 0x39
}

/// A byte that can begin an identifier or keyword: a letter or `_`.
pub open spec fn is_word_start(b: u8) -> bool {
    is_alpha(b) || b == 0x5F
}

/// A byte that can continue an identifier or keyword: a letter, a digit or `_`.
pub open spec fn is_word_byte(b: u8) -> bool {
    is_alpha(b) || is_digit(b) || b == 0x5F
}

/// The end of the longest run of word bytes that starts at `i`.
pub open spec fn word_end(src: Seq<u8>, i: int) -> int
    decreases src.len() - i,
{
    if 0 <= i < src.len() && is_word_byte(src[i]) {
        word_end(src, i + 1)
    } else {
        i
    }
}

/// The end of the longest run of digits that starts at `i`.
pub open spec fn digits_end(src: Seq<u8>, i: int) -> int
    decreases src.len() - i,
{
    if 0 <= i < src.len() && is_digit(src[i]) {
        digits_end(src, i + 1)
    } else {
        i
    }
}

/// The position of the first line feed at or after `i`, or the end of input.
pub open spec fn line_end(src: Seq<u8>, i: int) -> int
    decreases src.len() - i,
{
    if 0 <= i < src.len() && src[i] != 0x0A {
        line_end(src, i + 1)
    } else {
        i
    }
}

/// The byte after position `i` exists and is `c`.
pub open spec fn next_is(src: Seq<u8>, i: int, c: u8) -> bool {
    0 <= i + 1 < src.len() && src[i + 1] == c
}

/// The keyword spelled by the bytes `w`, if it is one.
pub open spec fn keyword(w: Seq<u8>) -> Option<Token> {
    if w =~= seq![0x66u8, 0x6E] {
        Some(Token::Fn)  // fn
    } else if w =~= seq![0x72u8, 0x65, 0x74, 0x75, 0x72, 0x6E] {
        Some(Token::Return)  // return
    } else if w =~= seq![0x6Cu8, 0x65, 0x74] {
        Some(Token::Let)  // let
    } else if w =~= seq![0x6Du8, 0x75, 0x74] {
        Some(Token::Mut)  // mut
    } else if w =~= seq![0x69u8, 0x66] {
        Some(Token::If)  // if
    } else if w =~= seq![0x65u8, 0x6C, 0x73, 0x65] {
        Some(Token::Else)  // else
    } else if w =~= seq![0x77u8, 0x68, 0x69, 0x6C, 0x65] {
        Some(Token::While)  // while
    } else if w =~= seq![0x66u8, 0x6F, 0x72] {
        Some(Token::For)  // for
    } else if w =~= seq![0x69u8, 0x6E] {
        Some(Token::In)  // in
    } else if w =~= seq![0x74u8, 0x72, 0x75, 0x65] {
        Some(Token::True)  // true
    } else if w =~= seq![0x66u8, 0x61, 0x6C, 0x73, 0x65] {
        Some(Token::False)  // false
    } else {
        None
    }
}

/// The punctuation token at position `i` and its length in bytes, taking
/// the longest match; `None` for a byte that begins no token.
pub open spec fn punct(src: Seq<u8>, i: int) -> Option<(Token, int)> {
    let b = src[i];
    if b == 0x28 {
        Some((Token::LParen, 1))
    } else if b == 0x29 {
        Some((Token::RParen, 1))
    } else if b == 0x7B {
        Some((Token::LBrace, 1))
    } else if b == 0x7D {
        Some((Token::RBrace, 1))
    } else if b == 0x5B {
        Some((Token::LBracket, 1))
    } else if b == 0x5D {
        Some((Token::RBracket, 1))
    } else if b == 0x3B {
        Some((Token::Semicolon, 1))
    } else if b == 0x2C {
        Some((Token::Comma, 1))
    } else if b == 0x2E {
        Some((Token::Dot, 1))
    } else if b == 0x5E {
        Some((Token::Caret, 1))
    } else if b == 0x25 {
        Some((Token::Percent, 1))
    } else if b == 0x2A {
        Some((Token::Star, 1))
    } else if b == 0x2B {
        Some((Token::Plus, 1))
    } else if b == 0x2F {
        Some((Token::Slash, 1))
    } else if b == 0x2D {
        if next_is(src, i, 0x3E) { Some((Token::Arrow, 2)) } else { Some((Token::Minus, 1)) }
    } else if b == 0x3D {
        if next_is(src, i, 0x3E) {
            Some((Token::FatArrow, 2))
        } else if next_is(src, i, 0x3D) {
            Some((Token::EqEq, 2))
        } else {
            Some((Token::Eq, 1))
        }
    } else if b == 0x21 {
        if next_is(src, i, 0x3D) { Some((Token::Ne, 2)) } else { Some((Token::Bang, 1)) }
    } else if b == 0x3C {
        if next_is(src, i, 0x3D) { Some((Token::Le, 2)) } else { Some((Token::Lt, 1)) }
    } else if b == 0x3E {
        if next_is(src, i, 0x3D) { Some((Token::Ge, 2)) } else { Some((Token::Gt, 1)) }
    } else if b == 0x26 {
        if next_is(src, i, 0x26) { Some((Token::AmpAmp, 2)) } else { Some((Token::Amp, 1)) }
    } else if b == 0x7C {
        if next_is(src, i, 0x7C) { Some((Token::PipePipe, 2)) } else { Some((Token::Pipe, 1)) }
    } else if b == 0x3A {
        if next_is(src, i, 0x3A) {
            Some((Token::ColonColon, 2))
        } else {
            Some((Token::Colon, 1))
        }
    } else {
        None
    }
}

/// The span that the lexer packs for a word or literal of `len` bytes at
/// offset `start`: both are first cut to `u32`, as the lexer does.
pub open spec fn span_of(start: int, len: int) -> u32 {
    packed((start as u32) as int, (len as u32) as int) as u32
}

/// The span of a word or literal at `start` fits the packed form: its start
/// (cut to `u32`) is below 2^24 and its length below 256.
pub open spec fn span_fits(start: int, len: int) -> bool {
    &&& ((start as u32) as int) < 0x100_0000
    &&& ((len as u32) as int) < 256
}

/// The token for the word `src[start..end]`: a keyword, or an identifier.
pub open spec fn word_token(src: Seq<u8>, start: int, end: int) -> Token {
    match keyword(src.subrange(start, end)) {
        Some(k) => k,
        None => Token::Ident(span_of(start, end - start)),
    }
}

/// One step of the lexer at position `i` (with `0 <= i < src.len()`): the
/// token that begins there, if any, and the position after it. Whitespace, a
/// line comment (from `//` up to the line feed) and a byte that begins no
/// token produce no token.
pub open spec fn step(src: Seq<u8>, i: int) -> (Option<Token>, int) {
    let b = src[i];
    if is_whitespace(b) {
        (None, i + 1)
    } else if b == 0x2F && next_is(src, i, 0x2F) {
        (None, line_end(src, i))
    } else if is_word_start(b) {
        let e = word_end(src, i);
        (Some(word_token(src, i, e)), e)
    } else if is_digit(b) {
        let e = digits_end(src, i);
        (Some(Token::IntLit(span_of(i, e - i))), e)
    } else {
        match punct(src, i) {
            Some((t, n)) => (Some(t), i + n),
            None => (None, i + 1),
        }
    }
}

/// Whether the token that begins at `i`, if it carries a span, has one that
/// fits the packed form.
pub open spec fn step_fits(src: Seq<u8>, i: int) -> bool {
    let b = src[i];
    if is_whitespace(b) || (b == 0x2F && next_is(src, i, 0x2F)) {
        true
    } else if is_word_start(b) {
        span_fits(i, word_end(src, i) - i)
    } else if is_digit(b) {
        span_fits(i, digits_end(src, i) - i)
    } else {
        true
    }
}

proof fn lemma_scan_ends(src: Seq<u8>, i: int)
    requires
        0 <= i <= src.len(),
    ensures
        i <= word_end(src, i) <= src.len(),
        i <= digits_end(src, i) <= src.len(),
        i <= line_end(src, i) <= src.len(),
    decreases src.len() - i,
{
    if i < src.len() {
        lemma_scan_ends(src, i + 1);
    }
}

/// Each step of the lexer moves forward and stays within the input.
pub proof fn lemma_step_advances(src: Seq<u8>, i: int)
    requires
        0 <= i < src.len(),
    ensures
        i < step(src, i).1 <= src.len(),
{
    lemma_scan_ends(src, i);
    lemma_scan_ends(src, i + 1);
}

/// The tokens of `src` from position `i` on, ending with `Eof`.
pub open spec fn lex_from(src: Seq<u8>, i: int) -> Seq<Token>
    decreases src.len() - i,
{
    if 0 <= i < src.len() {
        let (t, n) = step(src, i);
        proof {
            lemma_step_advances(src, i);
        }
        match t {
            Some(t) => seq![t] + lex_from(src, n),
            None => lex_from(src, n),
        }
    } else {
        seq![Token::Eof]
    }
}

/// Whether every span that the lexer packs from position `i` on fits.
pub open spec fn lexable_from(src: Seq<u8>, i: int) -> bool
    decreases src.len() - i,
{
    if 0 <= i < src.len() {
        proof {
            lemma_step_advances(src, i);
        }
        step_fits(src, i) && lexable_from(src, step(src, i).1)
    } else {
        true
    }
}

/// The token sequence of the source bytes `src`.
pub open spec fn lex(src: Seq<u8>) -> Seq<Token> {
    lex_from(src, 0)
}

/// Whether the source bytes `src` lex without a span that overflows its
/// packed form.
pub open spec fn lexable(src: Seq<u8>) -> bool {
    lexable_from(src, 0)
}

// ---------------------------------------------------------------------------
// The lexer.
// ---------------------------------------------------------------------------

fn is_ws_byte(b: u8) -> (r: bool)
    ensures
        r == is_whitespace(b),
{
    b == 0x20 || b == 0x09 || b == 0x0A || b == 0x0C || b == 0x0D
}

fn is_digit_byte(b: u8) -> (r: bool)
    ensures
        r == is_digit(b),
{
    0x30 <= b && b <= 0x39
}

fn is_word_start_byte(b: u8) -> (r: bool)
    ensures
        r == is_word_start(b),
{
    (0x41 <= b && b <= 0x5A) || (0x61 <= b && b <= 0x7A) || b == 0x5F
}

fn is_word_continue_byte(b: u8) -> (r: bool)
    ensures
        r == is_word_byte(b),
{
    is_word_start_byte(b) || is_digit_byte(b)
}

/// The keyword spelled by `src[start..end]`, if it is one.
fn keyword_token(src: &[u8], start: usize, end: usize) -> (r: Option<Token>)
    requires
        start <= end <= src@.len(),
    ensures
        r == keyword(src@.subrange(start as int, end as int)),
{
    let ghost w = src@.subrange(start as int, end as int);
    let n = end - start;
    if n == 2 {
        let a = src[start];
        let b = src[start + 1];
        assert(w[0] == a && w[1] == b);
        if a == 0x66 && b == 0x6E {
            assert(w =~= seq![0x66u8, 0x6E]);
            Some(Token::Fn)
        } else if a == 0x69 && b == 0x66 {
            assert(w =~= seq![0x69u8, 0x66]);
            Some(Token::If)
        } else if a == 0x69 && b == 0x6E {
            assert(w =~= seq![0x69u8, 0x6E]);
            Some(Token::In)
        } else {
            None
        }
    } else if n == 3 {
        let a = src[start];
        let b = src[start + 1];
        let c = src[start + 2];
        assert(w[0] == a && w[1] == b && w[2] == c);
        if a == 0x6C && b == 0x65 && c == 0x74 {
            assert(w =~= seq![0x6Cu8, 0x65, 0x74]);
            Some(Token::Let)
        } else if a == 0x6D && b == 0x75 && c == 0x74 {
            assert(w =~= seq![0x6Du8, 0x75, 0x74]);
            Some(Token::Mut)
        } else if a == 0x66 && b == 0x6F && c == 0x72 {
            assert(w =~= seq![0x66u8, 0x6F, 0x72]);
            Some(Token::For)
        } else {
            None
        }
    } else if n == 4 {
        let a = src[start];
        let b = src[start + 1];
        let c = src[start + 2];
        let d = src[start + 3];
        assert(w[0] == a && w[1] == b && w[2] == c && w[3] == d);
        if a == 0x65 && b == 0x6C && c == 0x73 && d == 0x65 {
            assert(w =~= seq![0x65u8, 0x6C, 0x73, 0x65]);
            Some(Token::Else)
        } else if a == 0x74 && b == 0x72 && c == 0x75 && d == 0x65 {
            assert(w =~= seq![0x74u8, 0x72, 0x75, 0x65]);
            Some(Token::True)
        } else {
            None
        }
    } else if n == 5 {
        let a = src[start];
        let b = src[start + 1];
        let c = src[start + 2];
        let d = src[start + 3];
        let e = src[start + 4];
        assert(w[0] == a && w[1] == b && w[2] == c && w[3] == d && w[4] == e);
        if a == 0x77 && b == 0x68 && c == 0x69 && d == 0x6C && e == 0x65 {
            assert(w =~= seq![0x77u8, 0x68, 0x69, 0x6C, 0x65]);
            Some(Token::While)
        } else if a == 0x66 && b == 0x61 && c == 0x6C && d == 0x73 && e == 0x65 {
            assert(w =~= seq![0x66u8, 0x61, 0x6C, 0x73, 0x65]);
            Some(Token::False)
        } else {
            None
        }
    } else if n == 6 {
        let a = src[start];
        let b = src[start + 1];
        let c = src[start + 2];
        let d = src[start + 3];
        let e = src[start + 4];
        let f = src[start + 5];
        assert(w[0] == a && w[1] == b && w[2] == c && w[3] == d && w[4] == e && w[5] == f);
        if a == 0x72 && b == 0x65 && c == 0x74 && d == 0x75 && e == 0x72 && f == 0x6E {
            assert(w =~= seq![0x72u8, 0x65, 0x74, 0x75, 0x72, 0x6E]);
            Some(Token::Return)
        } else {
            None
        }
    } else {
        None
    }
}

/// The byte after position `i` exists and is `c`.
fn next_byte_is(src: &[u8], i: usize, c: u8) -> (r: bool)
    requires
        i < src@.len(),
    ensures
        r == next_is(src@, i as int, c),
{
    src.len() - i > 1 && src[i + 1] == c
}

/// The punctuation token at position `i` and its length, longest match
/// first.
fn punct_at(src: &[u8], i: usize) -> (r: Option<(Token, usize)>)
    requires
        i < src@.len(),
    ensures
        r is None <==> punct(src@, i as int) is None,
        r matches Some((t, n)) ==> punct(src@, i as int) == Some((t, n as int)),
{
    let b = src[i];
    if b == 0x28 {
        Some((Token::LParen, 1))
    } else if b == 0x29 {
        Some((Token::RParen, 1))
    } else if b == 0x7B {
        Some((Token::LBrace, 1))
    } else if b == 0x7D {
        Some((Token::RBrace, 1))
    } else if b == 0x5B {
        Some((Token::LBracket, 1))
    } else if b == 0x5D {
        Some((Token::RBracket, 1))
    } else if b == 0x3B {
        Some((Token::Semicolon, 1))
    } else if b == 0x2C {
        Some((Token::Comma, 1))
    } else if b == 0x2E {
        Some((Token::Dot, 1))
    } else if b == 0x5E {
        Some((Token::Caret, 1))
    } else if b == 0x25 {
        Some((Token::Percent, 1))
    } else if b == 0x2A {
        Some((Token::Star, 1))
    } else if b == 0x2B {
        Some((Token::Plus, 1))
    } else if b == 0x2F {
        Some((Token::Slash, 1))
    } else if b == 0x2D {
        if next_byte_is(src, i, 0x3E) {
            Some((Token::Arrow, 2))
        } else {
            Some((Token::Minus, 1))
        }
    } else if b == 0x3D {
        if next_byte_is(src, i, 0x3E) {
            Some((Token::FatArrow, 2))
        } else if next_byte_is(src, i, 0x3D) {
            Some((Token::EqEq, 2))
        } else {
            Some((Token::Eq, 1))
        }
    } else if b == 0x21 {
        if next_byte_is(src, i, 0x3D) {
            Some((Token::Ne, 2))
        } else {
            Some((Token::Bang, 1))
        }
    } else if b == 0x3C {
        if next_byte_is(src, i, 0x3D) {
            Some((Token::Le, 2))
        } else {
            Some((Token::Lt, 1))
        }
    } else if b == 0x3E {
        if next_byte_is(src, i, 0x3D) {
            Some((Token::Ge, 2))
        } else {
            Some((Token::Gt, 1))
        }
    } else if b == 0x26 {
        if next_byte_is(src, i, 0x26) {
            Some((Token::AmpAmp, 2))
        } else {
            Some((Token::Amp, 1))
        }
    } else if b == 0x7C {
        if next_byte_is(src, i, 0x7C) {
            Some((Token::PipePipe, 2))
        } else {
            Some((Token::Pipe, 1))
        }
    } else if b == 0x3A {
        if next_byte_is(src, i, 0x3A) {
            Some((Token::ColonColon, 2))
        } else {
            Some((Token::Colon, 1))
        }
    } else {
        None
    }
}

/// Lex `source` into a flat token sequence, or `None` where a word or
/// literal has a span that does not fit the packed form (a start offset of
/// 2^24 or more, or a length of 256 bytes or more), where [`tokenize`]
/// would stop.
///
/// The returned tokens always end with `Token::Eof`. Whitespace, line
/// comments and unrecognised bytes produce no token.
pub fn try_tokenize(source: &str) -> (r: Option<Vec<Token>>)
    ensures
        r is Some <==> lexable(source.spec_bytes()),
        r matches Some(tokens) ==> tokens@ == lex(source.spec_bytes()),
{
    let src = source.as_bytes();
    let ghost bytes = src@;
    let mut tokens: Vec<Token> = Vec::new();
    let mut i: usize = 0;
    while i < src.len()
        invariant
            src@ == bytes,
            bytes == source.spec_bytes(),
            i <= bytes.len(),
            lex(bytes) == tokens@ + lex_from(bytes, i as int),
            lexable(bytes) == lexable_from(bytes, i as int),
        decreases src.len() - i,
    {
        let ghost at = i as int;
        let ghost old_tokens = tokens@;
        let b = src[i];
        if is_ws_byte(b) {
            i = i + 1;
        } else if b == 0x2F && next_byte_is(src, i, 0x2F) {
            while i < src.len() && src[i] != 0x0A
                invariant
                    src@ == bytes,
                    at <= i <= bytes.len(),
                    line_end(bytes, i as int) == line_end(bytes, at),
                decreases src.len() - i,
            {
                i = i + 1;
            }
        } else if is_word_start_byte(b) {
            let start = i;
            while i < src.len() && is_word_continue_byte(src[i])
                invariant
                    src@ == bytes,
                    start <= i <= bytes.len(),
                    word_end(bytes, i as int) == word_end(bytes, start as int),
                decreases src.len() - i,
            {
                i = i + 1;
            }
            let s32 = start as u32;
            let l32 = (i - start) as u32;
            if s32 >= 0x100_0000 || l32 >= 256 {
                return None;
            }
            let span = pack_span(s32, l32);
            let tok = match keyword_token(src, start, i) {
                Some(k) => k,
                None => Token::Ident(span),
            };
            tokens.push(tok);
        } else if is_digit_byte(b) {
            let start = i;
            while i < src.len() && is_digit_byte(src[i])
                invariant
                    src@ == bytes,
                    start <= i <= bytes.len(),
                    digits_end(bytes, i as int) == digits_end(bytes, start as int),
                decreases src.len() - i,
            {
                i = i + 1;
            }
            let s32 = start as u32;
            let l32 = (i - start) as u32;
            if s32 >= 0x100_0000 || l32 >= 256 {
                return None;
            }
            let span = pack_span(s32, l32);
            tokens.push(Token::IntLit(span));
        } else {
            match punct_at(src, i) {
                Some((t, n)) => {
                    tokens.push(t);
                    i = i + n;
                },
                None => {
                    i = i + 1;
                },
            }
        }
        assert(step(bytes, at).1 == i as int);
        assert(lex(bytes) == tokens@ + lex_from(bytes, i as int)) by {
            if tokens@.len() > old_tokens.len() {
                assert(tokens@ == old_tokens + seq![step(bytes, at).0.unwrap()]);
            }
        }
    }
    tokens.push(Token::Eof);
    Some(tokens)
}

/// Lex `source` into a flat token sequence.
///
/// The returned tokens always end with `Token::Eof`, and `Eof` appears
/// nowhere else. Whitespace, line comments and unrecognised bytes produce no
/// token.
pub fn tokenize(source: &str) -> (tokens: Vec<Token>)
    requires
        lexable(source.spec_bytes()),
    ensures
        tokens@ == lex(source.spec_bytes()),
        tokens@.len() >= 1,
        tokens@.last() == Token::Eof,
        forall|k: int| 0 <= k < tokens@.len() - 1 ==> tokens@[k] != Token::Eof,
{
    proof {
        lemma_lex_shape(source.spec_bytes(), 0);
    }
    match try_tokenize(source) {
        Some(tokens) => tokens,
        None => {
            proof {
                assert(false);
            }
            Vec::new()
        },
    }
}

// ---------------------------------------------------------------------------
// Properties of the lexical grammar.
// ---------------------------------------------------------------------------

/// The token stream from any position is nonempty, ends with `Eof`, and
/// holds `Eof` nowhere else.
pub proof fn lemma_lex_shape(src: Seq<u8>, i: int)
    ensures
        lex_from(src, i).len() >= 1,
        lex_from(src, i).last() == Token::Eof,
        forall|k: int| 0 <= k < lex_from(src, i).len() - 1 ==> lex_from(src, i)[k] != Token::Eof,
    decreases src.len() - i,
{
    if 0 <= i < src.len() {
        lemma_step_advances(src, i);
        let (t, n) = step(src, i);
        lemma_lex_shape(src, n);
        let rest = lex_from(src, n);
        if let Some(tok) = t {
            assert(tok != Token::Eof);
            let all = seq![tok] + rest;
            assert(lex_from(src, i) == all);
            assert forall|k: int| 0 <= k < all.len() - 1 implies all[k] != Token::Eof by {
                if k > 0 {
                    assert(all[k] == rest[k - 1]);
                }
            }
        }
    }
}

/// Packing a start offset below 2^24 and a length below 256 and unpacking
/// them again gives back the two.
pub proof fn lemma_span_roundtrip(start: int, len: int)
    requires
        0 <= start < 0x100_0000,
        0 <= len < 256,
    ensures
        0 <= packed(start, len) <= u32::MAX,
        start_of(packed(start, len) as u32) == start,
        len_of(packed(start, len) as u32) == len,
{
    vstd::arithmetic::div_mod::lemma_fundamental_div_mod_converse_div(packed(start, len), 256, start, len);
    vstd::arithmetic::div_mod::lemma_fundamental_div_mod_converse_mod(packed(start, len), 256, start, len);
}

/// What a span token of the stream says of the source bytes `src`: an
/// identifier's span covers a whole word (a maximal run of word bytes that
/// begins with a letter or `_`) that is not a keyword; an integer literal's
/// span covers a whole run of digits. Floating-point literals do not occur.
pub open spec fn locates_word(src: Seq<u8>, t: Token) -> bool {
    match t {
        Token::Ident(s) => {
            let a = start_of(s);
            let e = start_of(s) + len_of(s);
            &&& 0 <= a < e <= src.len()
            &&& is_word_start(src[a])
            &&& word_end(src, a) == e
            &&& keyword(src.subrange(a, e)) is None
        },
        Token::IntLit(s) => {
            let a = start_of(s);
            let e = start_of(s) + len_of(s);
            &&& 0 <= a < e <= src.len()
            &&& is_digit(src[a])
            &&& digits_end(src, a) == e
        },
        Token::FloatLit(_) => false,
        _ => true,
    }
}

proof fn lemma_word_end_bytes(src: Seq<u8>, i: int, j: int)
    requires
        0 <= i <= j < word_end(src, i),
    ensures
        is_word_byte(src[j]),
        word_end(src, j) == word_end(src, i),
        word_end(src, i) <= src.len(),
    decreases j - i,
{
    if i < j {
        lemma_word_end_bytes(src, i + 1, j);
    } else {
        lemma_scan_ends(src, i);
    }
}

/// Every identifier and integer literal in the stream of a lexable source
/// of fewer than 2^32 bytes locates its word in the source.
pub proof fn lemma_lex_locates_words(src: Seq<u8>, i: int)
    requires
        0 <= i,
        lexable_from(src, i),
        src.len() <= u32::MAX,
    ensures
        forall|k: int| 0 <= k < lex_from(src, i).len() ==> locates_word(src, #[trigger] lex_from(src, i)[k]),
    decreases src.len() - i,
{
    if i < src.len() {
        lemma_step_advances(src, i);
        lemma_scan_ends(src, i);
        let (t, n) = step(src, i);
        lemma_lex_locates_words(src, n);
        let rest = lex_from(src, n);
        if let Some(tok) = t {
            let b = src[i];
            if is_word_start(b) || is_digit(b) {
                let len = n - i;
                assert((i as u32) as int == i);
                assert((len as u32) as int == len);
                lemma_span_roundtrip(i, len);
            }
            assert(locates_word(src, tok));
            let all = seq![tok] + rest;
            assert(lex_from(src, i) == all);
            assert forall|k: int| 0 <= k < all.len() implies locates_word(src, #[trigger] all[k]) by {
                if k > 0 {
                    assert(all[k] == rest[k - 1]);
                }
            }
        }
    }
}

/// The span of an identifier or integer literal can be sliced out of `src`.
pub open spec fn span_sliceable(src: Seq<u8>, t: Token) -> bool {
    match t {
        Token::Ident(s) => sliceable(src, start_of(s), start_of(s) + len_of(s)),
        Token::IntLit(s) => sliceable(src, start_of(s), start_of(s) + len_of(s)),
        _ => true,
    }
}

proof fn lemma_digits_end_bytes(src: Seq<u8>, i: int, j: int)
    requires
        0 <= i <= j < digits_end(src, i),
    ensures
        is_digit(src[j]),
        digits_end(src, j) == digits_end(src, i),
        digits_end(src, i) <= src.len(),
    decreases j - i,
{
    if i < j {
        lemma_digits_end_bytes(src, i + 1, j);
    } else {
        lemma_scan_ends(src, i);
    }
}

/// In UTF-8 text, the position right after an ASCII byte that begins a
/// character also begins one (or is the end).
proof fn lemma_boundary_after_ascii(bytes: Seq<u8>, j: int)
    requires
        vstd::utf8::valid_utf8(bytes),
        0 <= j < bytes.len(),
        bytes[j] < 0x80,
        is_char_boundary(bytes, j),
    ensures
        is_char_boundary(bytes, j + 1),
    decreases bytes.len(),
{
    let l = vstd::utf8::length_of_first_scalar(bytes);
    let tail = vstd::utf8::pop_first_scalar(bytes);
    if j == 0 {
        assert(l == 1);
        assert(is_char_boundary(tail, 0));
    } else {
        assert(l <= j);
        assert(tail[j - l] == bytes[j]);
        lemma_boundary_after_ascii(tail, j - l);
    }
}

/// In UTF-8 text, an ASCII byte begins a character.
proof fn lemma_boundary_at_ascii(bytes: Seq<u8>, j: int)
    requires
        vstd::utf8::valid_utf8(bytes),
        0 <= j < bytes.len(),
        bytes[j] < 0x80,
    ensures
        is_char_boundary(bytes, j),
        is_char_boundary(bytes, j + 1),
{
    vstd::utf8::is_char_boundary_iff_not_is_continuation_byte(bytes, j);
    lemma_boundary_after_ascii(bytes, j);
}

/// The text of every identifier and integer literal that the lexer yields
/// for `source` (of fewer than 2^32 bytes) can be sliced out of it with
/// [`token_text`], and is a whole word or run of digits there.
pub proof fn lemma_token_text_sliceable(source: &str, k: int)
    requires
        lexable(source.spec_bytes()),
        source.spec_bytes().len() <= u32::MAX,
        0 <= k < lex(source.spec_bytes()).len(),
    ensures
        locates_word(source.spec_bytes(), lex(source.spec_bytes())[k]),
        span_sliceable(source.spec_bytes(), lex(source.spec_bytes())[k]),
{
    let src = source.spec_bytes();
    vstd::utf8::encode_utf8_valid_utf8(source@);
    lemma_lex_locates_words(src, 0);
    let t = lex(src)[k];
    assert(locates_word(src, t));
    match t {
        Token::Ident(s) => {
            let a = start_of(s);
            let e = a + len_of(s);
            lemma_word_end_bytes(src, a, e - 1);
            lemma_boundary_at_ascii(src, a);
            lemma_boundary_at_ascii(src, e - 1);
        },
        Token::IntLit(s) => {
            let a = start_of(s);
            let e = a + len_of(s);
            lemma_digits_end_bytes(src, a, e - 1);
            lemma_boundary_at_ascii(src, a);
            lemma_boundary_at_ascii(src, e - 1);
        },
        _ => {},
    }
}

/// A byte that begins no token: not whitespace, not a word byte, and not
/// the first byte of any punctuation (nor of a line comment).
pub open spec fn is_unrecognised(b: u8) -> bool {
    !is_whitespace(b) && !is_word_byte(b) && punct(seq![b], 0) is None
}

proof fn lemma_scans_ignore_unrecognised(src: Seq<u8>, k: int, i: int)
    requires
        0 <= k < src.len(),
        is_unrecognised(src[k]),
        0 <= i <= src.len(),
    ensures
        word_end(src.update(k, 0x20), i) == word_end(src, i),
        digits_end(src.update(k, 0x20), i) == digits_end(src, i),
        line_end(src.update(k, 0x20), i) == line_end(src, i),
    decreases src.len() - i,
{
    let b = src[k];
    assert(punct(seq![b], 0) is None);
    assert(b != 0x0A);
    if i < src.len() {
        lemma_scans_ignore_unrecognised(src, k, i + 1);
    }
}

proof fn lemma_step_ignores_unrecognised(src: Seq<u8>, k: int, i: int)
    requires
        0 <= k < src.len(),
        is_unrecognised(src[k]),
        0 <= i < src.len(),
    ensures
        step(src.update(k, 0x20), i) == step(src, i),
        step_fits(src.update(k, 0x20), i) == step_fits(src, i),
{
    let s2 = src.update(k, 0x20);
    let b = src[k];
    assert(punct(seq![b], 0) is None);
    lemma_scans_ignore_unrecognised(src, k, i);
    if i != k {
        assert(s2[i] == src[i]);
        if i + 1 < src.len() {
            assert(s2[i + 1] == src[i + 1] || i + 1 == k);
        }
        if is_word_start(src[i]) {
            let e = word_end(src, i);
            lemma_scan_ends(src, i);
            if i <= k < e {
                lemma_word_end_bytes(src, i, k);
            }
            assert(s2.subrange(i, e) =~= src.subrange(i, e));
        }
        assert(punct(s2, i) == punct(src, i));
    }
}

proof fn lemma_lex_ignores_unrecognised(src: Seq<u8>, k: int, i: int)
    requires
        0 <= k < src.len(),
        is_unrecognised(src[k]),
        0 <= i,
    ensures
        lex_from(src.update(k, 0x20), i) == lex_from(src, i),
        lexable_from(src.update(k, 0x20), i) == lexable_from(src, i),
    decreases src.len() - i,
{
    if i < src.len() {
        lemma_step_ignores_unrecognised(src, k, i);
        lemma_step_advances(src, i);
        lemma_lex_ignores_unrecognised(src, k, step(src, i).1);
    }
}

/// An unrecognised byte is skipped exactly like a space: replacing it by a
/// space changes neither the tokens (spans included) nor whether the source
/// lexes.
pub proof fn lemma_unrecognised_byte_is_skipped(src: Seq<u8>, k: int)
    requires
        0 <= k < src.len(),
        is_unrecognised(src[k]),
    ensures
        lex(src.update(k, 0x20)) == lex(src),
        lexable(src.update(k, 0x20)) == lexable(src),
{
    lemma_lex_ignores_unrecognised(src, k, 0);
}

/// The exact lowercase spelling of a keyword token; empty for every other
/// token.
pub open spec fn spelling(t: Token) -> Seq<u8> {
    match t {
        Token::Fn => seq![('f' as u8), ('n' as u8)],
        Token::Return => seq![('r' as u8), ('e' as u8), ('t' as u8), ('u' as u8), ('r' as u8), ('n' as u8)],
        Token::Let => seq![('l' as u8), ('e' as u8), ('t' as u8)],
        Token::Mut => seq![('m' as u8), ('u' as u8), ('t' as u8)],
        Token::If => seq![('i' as u8), ('f' as u8)],
        Token::Else => seq![('e' as u8), ('l' as u8), ('s' as u8), ('e' as u8)],
        Token::While => seq![('w' as u8), ('h' as u8), ('i' as u8), ('l' as u8), ('e' as u8)],
        Token::For => seq![('f' as u8), ('o' as u8), ('r' as u8)],
        Token::In => seq![('i' as u8), ('n' as u8)],
        Token::True => seq![('t' as u8), ('r' as u8), ('u' as u8), ('e' as u8)],
        Token::False => seq![('f' as u8), ('a' as u8), ('l' as u8), ('s' as u8), ('e' as u8)],
        _ => seq![],
    }
}

/// A word is a keyword exactly when it is, byte for byte, the lowercase
/// spelling of that keyword: `keyword(w) == Some(t)` if and only if `t` is a
/// keyword token spelled `w`.
pub proof fn lemma_keyword_exact(w: Seq<u8>, t: Token)
    ensures
        keyword(w) == Some(t) <==> (spelling(t).len() > 0 && w == spelling(t)),
        keyword(w) is None <==> forall|k: Token| #[trigger] spelling(k).len() == 0 || w != spelling(k),
{
    if keyword(w) == Some(t) {
        assert(w =~= spelling(t));
    }
    if spelling(t).len() > 0 && w == spelling(t) {
        assert(w =~= spelling(t));
    }
    if keyword(w) is None {
        assert forall|k: Token| #[trigger] spelling(k).len() == 0 || w != spelling(k) by {
            if spelling(k).len() > 0 && w == spelling(k) {
                assert(w =~= spelling(k));
            }
        }
    } else {
        let k = keyword(w).unwrap();
        assert(w =~= spelling(k));
    }
}

/// An ASCII letter (either case) or `_`.
pub open spec fn ascii_letter_or_underscore(b: u8) -> bool {
    (('A' as u8) <= b <= ('Z' as u8)) || (('a' as u8) <= b <= ('z' as u8)) || b == ('_' as u8)
}

proof fn lemma_word_end_whole(src: Seq<u8>, i: int)
    requires
        0 <= i <= src.len(),
        forall|j: int| 0 <= j < src.len() ==> ascii_letter_or_underscore(#[trigger] src[j])
            || (('0' as u8) <= src[j] <= ('9' as u8)),
    ensures
        word_end(src, i) == src.len(),
    decreases src.len() - i,
{
    if i < src.len() {
        assert(ascii_letter_or_underscore(src[i]) || (('0' as u8) <= src[i] <= ('9' as u8)));
        lemma_word_end_whole(src, i + 1);
    }
}

/// A source that is one word (a letter of either case or `_`, then letters,
/// digits and `_`, fewer than 256 bytes) lexes to one token that covers all
/// of it, then `Eof`: the keyword spelled by it, byte for byte, or else an
/// identifier at offset 0 of the source's length.
pub proof fn lemma_word_lexes_whole(src: Seq<u8>)
    requires
        1 <= src.len() < 256,
        ascii_letter_or_underscore(src[0]),
        forall|j: int| 0 <= j < src.len() ==> ascii_letter_or_underscore(#[trigger] src[j])
            || (('0' as u8) <= src[j] <= ('9' as u8)),
    ensures
        lexable(src),
        lex(src).len() == 2,
        lex(src)[1] == Token::Eof,
        lex(src)[0] == Token::Ident(src.len() as u32) || spelling(lex(src)[0]) == src,
        forall|t: Token| spelling(t).len() > 0 && #[trigger] spelling(t) == src ==> lex(src)[0] == t,
        (forall|t: Token| #[trigger] spelling(t) != src) ==> lex(src)[0] == Token::Ident(
            src.len() as u32,
        ),
{
    lemma_word_end_whole(src, 0);
    let n = src.len() as int;
    assert(src.subrange(0, n) =~= src);
    assert((0int as u32) as int == 0);
    assert((n as u32) as int == n);
    assert(span_of(0, n) == n as u32);
    assert(lex_from(src, n) == seq![Token::Eof]);
    assert(lexable_from(src, n));
    assert(span_fits(0, n));
    assert(step_fits(src, 0));
    let tok0 = word_token(src, 0, n);
    assert(lex(src) =~= seq![tok0, Token::Eof]);
    match keyword(src) {
        Some(k) => {
            lemma_keyword_exact(src, k);
        },
        None => {
            lemma_keyword_exact(src, Token::Eof);
        },
    }
    assert forall|t: Token| spelling(t).len() > 0 && #[trigger] spelling(t) == src implies lex(src)[0] == t by {
        lemma_keyword_exact(src, t);
    }
}

/// The exact spelling of a punctuation or operator token; empty for every
/// other token.
pub open spec fn punct_spelling(t: Token) -> Seq<u8> {
    match t {
        Token::LParen => seq!['(' as u8],
        Token::RParen => seq![')' as u8],
        Token::LBrace => seq!['{' as u8],
        Token::RBrace => seq!['}' as u8],
        Token::LBracket => seq!['[' as u8],
        Token::RBracket => seq![']' as u8],
        Token::Semicolon => seq![';' as u8],
        Token::Colon => seq![':' as u8],
        Token::ColonColon => seq![':' as u8, ':' as u8],
        Token::Comma => seq![',' as u8],
        Token::Dot => seq!['.' as u8],
        Token::Arrow => seq!['-' as u8, '>' as u8],
        Token::FatArrow => seq!['=' as u8, '>' as u8],
        Token::Eq => seq!['=' as u8],
        Token::EqEq => seq!['=' as u8, '=' as u8],
        Token::Ne => seq!['!' as u8, '=' as u8],
        Token::Lt => seq!['<' as u8],
        Token::Le => seq!['<' as u8, '=' as u8],
        Token::Gt => seq!['>' as u8],
        Token::Ge => seq!['>' as u8, '=' as u8],
        Token::Plus => seq!['+' as u8],
        Token::Minus => seq!['-' as u8],
        Token::Star => seq!['*' as u8],
        Token::Slash => seq!['/' as u8],
        Token::Percent => seq!['%' as u8],
        Token::Amp => seq!['&' as u8],
        Token::AmpAmp => seq!['&' as u8, '&' as u8],
        Token::Pipe => seq!['|' as u8],
        Token::PipePipe => seq!['|' as u8, '|' as u8],
        Token::Caret => seq!['^' as u8],
        Token::Bang => seq!['!' as u8],
        _ => seq![],
    }
}

/// Every punctuation and operator token, spelled alone, lexes to exactly
/// that token and `Eof` (two-byte operators are taken whole).
pub proof fn lemma_punct_spelling_lexes(t: Token)
    requires
        punct_spelling(t).len() > 0,
    ensures
        lex(punct_spelling(t)) == seq![t, Token::Eof],
        lexable(punct_spelling(t)),
{
    let w = punct_spelling(t);
    reveal_with_fuel(lex_from, 2);
    reveal_with_fuel(lexable_from, 2);
    assert(lex(w) =~= seq![t, Token::Eof]);
}

/// Every keyword, spelled alone, lexes to exactly that keyword token and
/// `Eof`.
pub proof fn lemma_keyword_spelling_lexes(t: Token)
    requires
        spelling(t).len() > 0,
    ensures
        lex(spelling(t)) == seq![t, Token::Eof],
{
    let w = spelling(t);
    assert forall|j: int| 0 <= j < w.len() implies ascii_letter_or_underscore(#[trigger] w[j]) || ('0' as u8 <= w[j] <= '9' as u8) by {
    }
    lemma_word_lexes_whole(w);
}

} // verus!
