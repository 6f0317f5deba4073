//! A tokenizer for arithmetic expressions: numbers, the four operators,
//! parentheses, and blanks between them.
use vstd::prelude::*;
use vstd::string::StringSliceAdditionalSpecFns;

verus! {

/// The bytes that the tokenizer tells apart.
pub const ZERO: u8 = 48;
pub const NINE: u8 = 57;
pub const SPACE: u8 = 32;
pub const LINE_FEED: u8 = 10;
pub const TAB: u8 = 9;
pub const PLUS: u8 = 43;
pub const MINUS: u8 = 45;
pub const ASTERISK: u8 = 42;
pub const SLASH: u8 = 47;
pub const LPAREN: u8 = 40;
pub const RPAREN: u8 = 41;

/// A range of byte offsets into the input: from, to.
#[derive(Debug, Clone, PartialEq, Eq, Hash)]
pub struct Loc(pub usize, pub usize);

/// A value with the place in the input where it was found.
#[derive(Debug, Clone, PartialEq, Eq, Hash)]
pub struct Annot<T> {
    pub value: T,
    pub loc: Loc,
}

impl<T> Annot<T> {
    pub fn new(value: T, loc: Loc) -> (r: Self)
        ensures
            r.value == value,
            r.loc == loc,
    {
        Self { value, loc }
    }
}

/// What a token is.
#[derive(Debug, Clone, Copy, PartialEq, Eq, Hash)]
pub enum TokenKind {
    Number(u64),
    Plus,
    Minus,
    Asterisk,
    Slash,
    LParen,
    RParen,
}

pub type Token = Annot<TokenKind>;

/// Why the input could not be split into tokens.
#[derive(Debug, Clone, PartialEq, Eq)]
pub enum LexErrorKind {
    InvalidChar(char),
    Eof,
}

pub type LexError = Annot<LexErrorKind>;

/// A token of kind `kind` found from `from` to `to`.
pub open spec fn token_at(kind: TokenKind, from: int, to: int) -> Token {
    Annot { value: kind, loc: Loc(from as usize, to as usize) }
}

/// An error of kind `kind` found from `from` to `to`.
pub open spec fn error_at(kind: LexErrorKind, from: int, to: int) -> LexError {
    Annot { value: kind, loc: Loc(from as usize, to as usize) }
}

pub open spec fn is_digit(b: u8) -> bool {
    ZERO <= b <= NINE
}

/// A space, a line feed or a tab.
pub open spec fn is_blank(b: u8) -> bool {
    b == SPACE || b == LINE_FEED || b == TAB
}

/// The token that a single byte stands for, if any.
pub open spec fn symbol_kind(b: u8) -> Option<TokenKind> {
    if b == PLUS {
        Some(TokenKind::Plus)
    } else if b == MINUS {
        Some(TokenKind::Minus)
    } else if b == ASTERISK {
        Some(TokenKind::Asterisk)
    } else if b == SLASH {
        Some(TokenKind::Slash)
    } else if b == LPAREN {
        Some(TokenKind::LParen)
    } else if b == RPAREN {
        Some(TokenKind::RParen)
    } else {
        None
    }
}

/// The end of the run of digits (or of blanks) of `s` that starts at `pos`.
pub open spec fn run_end(s: Seq<u8>, pos: int, digits: bool) -> int
    decreases s.len() - pos,
{
    if 0 <= pos < s.len() && (if digits {
        is_digit(s[pos])
    } else {
        is_blank(s[pos])
    }) {
        run_end(s, pos + 1, digits)
    } else {
        pos
    }
}

/// The number that the decimal digits of `s` from `lo` to `hi` write.
pub open spec fn digits_value(s: Seq<u8>, lo: int, hi: int) -> nat
    decreases hi - lo,
{
    if hi <= lo {
        0
    } else {
        digits_value(s, lo, hi - 1) * 10 + (s[hi - 1] - ZERO) as nat
    }
}

pub proof fn lemma_run_end(s: Seq<u8>, pos: int, digits: bool)
    requires
        0 <= pos <= s.len(),
    ensures
        pos <= run_end(s, pos, digits) <= s.len(),
        forall|i: int|
            pos <= i < run_end(s, pos, digits) ==> (if digits {
                is_digit(#[trigger] s[i])
            } else {
                is_blank(s[i])
            }),
    decreases s.len() - pos,
{
    if pos < s.len() && (if digits {
        is_digit(s[pos])
    } else {
        is_blank(s[pos])
    }) {
        lemma_run_end(s, pos + 1, digits);
    }
}

/// Tokens lexed from `s` from `pos` on, placed after `front`.
pub open spec fn after(front: Seq<Token>, r: Result<Seq<Token>, LexError>) -> Result<
    Seq<Token>,
    LexError,
> {
    match r {
        Ok(rest) => Ok(front + rest),
        Err(e) => Err(e),
    }
}

/// The tokens of `s` from `pos` on, or the first error.
pub open spec fn lex_from(s: Seq<u8>, pos: int) -> Result<Seq<Token>, LexError>
    decreases s.len() - pos,
{
    if pos < 0 || pos >= s.len() {
        Ok(seq![])
    } else if is_digit(s[pos]) {
        let end = run_end(s, pos, true);
        proof {
            lemma_run_end(s, pos + 1, true);
        }
        after(
            seq![token_at(TokenKind::Number(#[verifier::truncate] (digits_value(s, pos, end) as u64)), pos, end)],
            lex_from(s, end),
        )
    } else if symbol_kind(s[pos]) is Some {
        after(seq![token_at(symbol_kind(s[pos])->0, pos, pos + 1)], lex_from(s, pos + 1))
    } else if is_blank(s[pos]) {
        let end = run_end(s, pos, false);
        proof {
            lemma_run_end(s, pos + 1, false);
        }
        lex_from(s, end)
    } else {
        Err(error_at(LexErrorKind::InvalidChar(s[pos] as char), pos, pos + 1))
    }
}

/// Every number that lexing `s` from `pos` on reaches fits in a `u64`.
pub open spec fn lex_fits(s: Seq<u8>, pos: int) -> bool
    decreases s.len() - pos,
{
    if pos < 0 || pos >= s.len() {
        true
    } else if is_digit(s[pos]) {
        let end = run_end(s, pos, true);
        proof {
            lemma_run_end(s, pos + 1, true);
        }
        digits_value(s, pos, end) <= u64::MAX && lex_fits(s, end)
    } else if symbol_kind(s[pos]) is Some {
        lex_fits(s, pos + 1)
    } else if is_blank(s[pos]) {
        let end = run_end(s, pos, false);
        proof {
            lemma_run_end(s, pos + 1, false);
        }
        lex_fits(s, end)
    } else {
        true
    }
}

/// What consuming the byte `expected` at `pos` of `s` gives.
pub open spec fn consumed(s: Seq<u8>, pos: int, expected: u8) -> Result<(u8, usize), LexError> {
    if s.len() <= pos {
        Err(error_at(LexErrorKind::Eof, pos, pos))
    } else if s[pos] == expected {
        Ok((s[pos], (pos + 1) as usize))
    } else {
        Err(error_at(LexErrorKind::InvalidChar(s[pos] as char), pos, pos + 1))
    }
}

/// What lexing the one-byte token `kind`, written `expected`, at `start` gives.
pub open spec fn symbol_lexed(s: Seq<u8>, start: int, expected: u8, kind: TokenKind) -> Result<
    (Token, usize),
    LexError,
> {
    match consumed(s, start, expected) {
        Ok((_, end)) => Ok((token_at(kind, start, end as int), end)),
        Err(e) => Err(e),
    }
}

proof fn lemma_run_end_at(s: Seq<u8>, pos: int, r: int, digits: bool)
    requires
        0 <= pos <= r <= s.len(),
        forall|i: int|
            pos <= i < r ==> (if digits {
                is_digit(#[trigger] s[i])
            } else {
                is_blank(s[i])
            }),
        r < s.len() ==> !(if digits {
            is_digit(s[r])
        } else {
            is_blank(s[r])
        }),
    ensures
        run_end(s, pos, digits) == r,
    decreases r - pos,
{
    if pos < r {
        assert(if digits {
            is_digit(s[pos])
        } else {
            is_blank(s[pos])
        });
        lemma_run_end_at(s, pos + 1, r, digits);
    }
}

proof fn lemma_digits_value_grows(s: Seq<u8>, lo: int, k: int, hi: int)
    requires
        lo <= k <= hi,
        forall|i: int| lo <= i < hi ==> is_digit(#[trigger] s[i]),
    ensures
        digits_value(s, lo, k) <= digits_value(s, lo, hi),
    decreases hi - k,
{
    if k < hi {
        lemma_digits_value_grows(s, lo, k, hi - 1);
        assert(is_digit(s[hi - 1]));
    }
}

impl Annot<TokenKind> {
    pub fn number(n: u64, loc: Loc) -> (r: Self)
        ensures
            r.value == TokenKind::Number(n),
            r.loc == loc,
    {
        Self::new(TokenKind::Number(n), loc)
    }

    pub fn plus(loc: Loc) -> (r: Self)
        ensures
            r.value == TokenKind::Plus,
            r.loc == loc,
    {
        Self::new(TokenKind::Plus, loc)
    }

    pub fn minus(loc: Loc) -> (r: Self)
        ensures
            r.value == TokenKind::Minus,
            r.loc == loc,
    {
        Self::new(TokenKind::Minus, loc)
    }

    pub fn asterisk(loc: Loc) -> (r: Self)
        ensures
            r.value == TokenKind::Asterisk,
            r.loc == loc,
    {
        Self::new(TokenKind::Asterisk, loc)
    }

    pub fn slash(loc: Loc) -> (r: Self)
        ensures
            r.value == TokenKind::Slash,
            r.loc == loc,
    {
        Self::new(TokenKind::Slash, loc)
    }

    pub fn lparen(loc: Loc) -> (r: Self)
        ensures
            r.value == TokenKind::LParen,
            r.loc == loc,
    {
        Self::new(TokenKind::LParen, loc)
    }

    pub fn rparen(loc: Loc) -> (r: Self)
        ensures
            r.value == TokenKind::RParen,
            r.loc == loc,
    {
        Self::new(TokenKind::RParen, loc)
    }
}

impl Annot<LexErrorKind> {
    pub fn invalid_char(c: char, loc: Loc) -> (r: Self)
        ensures
            r.value == LexErrorKind::InvalidChar(c),
            r.loc == loc,
    {
        Self::new(LexErrorKind::InvalidChar(c), loc)
    }

    pub fn eof(loc: Loc) -> (r: Self)
        ensures
            r.value == LexErrorKind::Eof,
            r.loc == loc,
    {
        Self::new(LexErrorKind::Eof, loc)
    }
}

fn digit_byte(b: u8) -> (r: bool)
    ensures
        r == is_digit(b),
{
    ZERO <= b && b <= NINE
}

fn blank_byte(b: u8) -> (r: bool)
    ensures
        r == is_blank(b),
{
    b == SPACE || b == LINE_FEED || b == TAB
}

/// The end of the run of bytes from `pos` on that `f` accepts.
fn recognize_many<F: Fn(u8) -> bool>(input: &[u8], pos: usize, f: F) -> (r: usize)
    requires
        pos <= input@.len(),
        forall|b: u8| #[trigger] f.requires((b,)),
    ensures
        pos <= r <= input@.len(),
        forall|i: int| pos <= i < r ==> f.ensures((#[trigger] input@[i],), true),
        r < input@.len() ==> f.ensures((input@[r as int],), false),
{
    let mut ret = pos;
    while ret < input.len()
        invariant
            pos <= ret <= input@.len(),
            forall|b: u8| #[trigger] f.requires((b,)),
            forall|i: int| pos <= i < ret ==> f.ensures((#[trigger] input@[i],), true),
        decreases input@.len() - ret,
    {
        if !f(input[ret]) {
            return ret;
        }
        ret = ret + 1;
    }
    ret
}

fn lex_number(input: &[u8], pos: usize) -> (r: Result<(Token, usize), LexError>)
    requires
        pos < input@.len(),
        is_digit(input@[pos as int]),
        digits_value(input@, pos as int, run_end(input@, pos as int, true)) <= u64::MAX,
    ensures
        r == Ok::<(Token, usize), LexError>(
            (
                token_at(
                    TokenKind::Number(
                        digits_value(input@, pos as int, run_end(input@, pos as int, true)) as u64,
                    ),
                    pos as int,
                    run_end(input@, pos as int, true),
                ),
                run_end(input@, pos as int, true) as usize,
            ),
        ),
{
    let next_pos = recognize_many(input, pos, digit_byte);
    let ghost end = next_pos as int;
    proof {
        lemma_run_end_at(input@, pos as int, end, true);
    }
    let mut n: u64 = 0;
    let mut i = pos;
    while i < next_pos
        invariant
            pos <= i <= next_pos,
            next_pos == end,
            end <= input@.len(),
            forall|k: int| pos <= k < end ==> is_digit(#[trigger] input@[k]),
            digits_value(input@, pos as int, end) <= u64::MAX,
            n == digits_value(input@, pos as int, i as int),
        decreases next_pos - i,
    {
        proof {
            lemma_digits_value_grows(input@, pos as int, i + 1, end);
            assert(is_digit(input@[i as int]));
        }
        n = n * 10 + (input[i] - ZERO) as u64;
        i = i + 1;
    }
    let token = Token::number(n, Loc(pos, next_pos));
    Ok((token, next_pos))
}

fn skip_spaces(input: &[u8], pos: usize) -> (r: Result<((), usize), LexError>)
    requires
        pos <= input@.len(),
    ensures
        r == Ok::<((), usize), LexError>(((), run_end(input@, pos as int, false) as usize)),
{
    let next_pos = recognize_many(input, pos, blank_byte);
    proof {
        lemma_run_end_at(input@, pos as int, next_pos as int, false);
    }
    Ok(((), next_pos))
}

fn consume_byte(input: &[u8], pos: usize, expected: u8) -> (r: Result<(u8, usize), LexError>)
    ensures
        r == consumed(input@, pos as int, expected),
{
    if input.len() <= pos {
        return Err(LexError::eof(Loc(pos, pos)));
    }
    if input[pos] == expected {
        Ok((input[pos], pos + 1))
    } else {
        Err(LexError::invalid_char(input[pos] as char, Loc(pos, pos + 1)))
    }
}

fn lex_plus(input: &[u8], start: usize) -> (r: Result<(Token, usize), LexError>)
    ensures
        r == symbol_lexed(input@, start as int, PLUS, TokenKind::Plus),
{
    match consume_byte(input, start, PLUS) {
        Ok((_, end)) => Ok((Token::plus(Loc(start, end)), end)),
        Err(e) => Err(e),
    }
}

fn lex_minus(input: &[u8], start: usize) -> (r: Result<(Token, usize), LexError>)
    ensures
        r == symbol_lexed(input@, start as int, MINUS, TokenKind::Minus),
{
    match consume_byte(input, start, MINUS) {
        Ok((_, end)) => Ok((Token::minus(Loc(start, end)), end)),
        Err(e) => Err(e),
    }
}

fn lex_asterisk(input: &[u8], start: usize) -> (r: Result<(Token, usize), LexError>)
    ensures
        r == symbol_lexed(input@, start as int, ASTERISK, TokenKind::Asterisk),
{
    match consume_byte(input, start, ASTERISK) {
        Ok((_, end)) => Ok((Token::asterisk(Loc(start, end)), end)),
        Err(e) => Err(e),
    }
}

fn lex_slash(input: &[u8], start: usize) -> (r: Result<(Token, usize), LexError>)
    ensures
        r == symbol_lexed(input@, start as int, SLASH, TokenKind::Slash),
{
    match consume_byte(input, start, SLASH) {
        Ok((_, end)) => Ok((Token::slash(Loc(start, end)), end)),
        Err(e) => Err(e),
    }
}

fn lex_lparen(input: &[u8], start: usize) -> (r: Result<(Token, usize), LexError>)
    ensures
        r == symbol_lexed(input@, start as int, LPAREN, TokenKind::LParen),
{
    match consume_byte(input, start, LPAREN) {
        Ok((_, end)) => Ok((Token::lparen(Loc(start, end)), end)),
        Err(e) => Err(e),
    }
}

fn lex_rparen(input: &[u8], start: usize) -> (r: Result<(Token, usize), LexError>)
    ensures
        r == symbol_lexed(input@, start as int, RPAREN, TokenKind::RParen),
{
    match consume_byte(input, start, RPAREN) {
        Ok((_, end)) => Ok((Token::rparen(Loc(start, end)), end)),
        Err(e) => Err(e),
    }
}

proof fn lemma_after_push(front: Seq<Token>, tok: Token, r: Result<Seq<Token>, LexError>)
    ensures
        after(front, after(seq![tok], r)) == after(front.push(tok), r),
{
    if let Ok(rest) = r {
        assert(front + (seq![tok] + rest) =~= front.push(tok) + rest);
    }
}

/// Splits `input` into tokens, or reports the first byte that starts none.
pub fn lex(input: &str) -> (r: Result<Vec<Token>, LexError>)
    requires
        lex_fits(input.spec_bytes(), 0),
    ensures
        r is Ok ==> lex_from(input.spec_bytes(), 0) == Ok::<Seq<Token>, LexError>(r->Ok_0@),
        r is Err ==> lex_from(input.spec_bytes(), 0) == Err::<Seq<Token>, LexError>(r->Err_0),
{
    let mut tokens: Vec<Token> = Vec::new();
    let bytes = input.as_bytes();
    let ghost s = bytes@;
    let mut pos: usize = 0;
    proof {
        assert(tokens@ + seq![] =~= tokens@);
        assert(after(tokens@, lex_from(s, 0)) =~= lex_from(s, 0)) by {
            if let Ok(rest) = lex_from(s, 0) {
                assert(tokens@ + rest =~= rest);
            }
        }
    }
    while pos < bytes.len()
        invariant
            s == bytes@,
            s == input.spec_bytes(),
            pos <= s.len(),
            lex_fits(s, pos as int),
            lex_from(s, 0) == after(tokens@, lex_from(s, pos as int)),
        decreases s.len() - pos,
    {
        let b = bytes[pos];
        proof {
            lemma_run_end(s, pos + 1, true);
            lemma_run_end(s, pos + 1, false);
        }
        if b == SPACE || b == LINE_FEED || b == TAB {
            match skip_spaces(bytes, pos) {
                Ok(((), p)) => {
                    pos = p;
                },
                Err(e) => {
                    return Err(e);
                },
            }
        } else if (ZERO <= b && b <= NINE) || b == PLUS || b == MINUS || b == ASTERISK || b == SLASH
            || b == LPAREN || b == RPAREN {
            let lexed = if ZERO <= b && b <= NINE {
                lex_number(bytes, pos)
            } else if b == PLUS {
                lex_plus(bytes, pos)
            } else if b == MINUS {
                lex_minus(bytes, pos)
            } else if b == ASTERISK {
                lex_asterisk(bytes, pos)
            } else if b == SLASH {
                lex_slash(bytes, pos)
            } else if b == LPAREN {
                lex_lparen(bytes, pos)
            } else {
                lex_rparen(bytes, pos)
            };
            match lexed {
                Ok((tok, p)) => {
                    proof {
                        lemma_after_push(tokens@, tok, lex_from(s, p as int));
                    }
                    tokens.push(tok);
                    pos = p;
                },
                Err(e) => {
                    return Err(e);
                },
            }
        } else {
            return Err(LexError::invalid_char(b as char, Loc(pos, pos + 1)));
        }
    }
    proof {
        assert(tokens@ + seq![] =~= tokens@);
    }
    Ok(tokens)
}

} // verus!
