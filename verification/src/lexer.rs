//! The lexer: turns the input byte buffer into tokens, restartable from any
//! position. `spec_next_token` states the whole lexer as a function of the
//! input, and `next_token` is proved to return exactly that token.
//!
//! The format is ASCII: any byte outside the allowed character classes
//! (including any non-ASCII byte, so any multi-byte encoding) is rejected
//! with `InvalidCharacter`. Strings are double-quoted with the escapes
//! `\"`, `\\`, `\n`, `\t`, `\r`. A numeric literal with a fractional or
//! exponent marker is handed on as a decimal-literal span; an integer
//! literal is evaluated here, and one whose magnitude exceeds the signed
//! 64-bit range fails with `Overflow` at this stage.

use vstd::prelude::*;

use crate::MochaError;

verus! {

/// One lexical token. Spans index the source buffer.
pub enum Token {
    LBrace,
    RBrace,
    LBrack,
    RBrack,
    Colon,
    Comma,
    At,
    Ident { start: usize, len: usize },
    Str { bytes: Vec<u8> },
    Int { v: i64 },
    FloatLit { start: usize, len: usize },
    True,
    False,
    Nil,
    Eof,
}

pub open spec fn is_ws(b: u8) -> bool {
    b == 32 || b == 9 || b == 10 || b == 13
}

pub open spec fn is_digit(b: u8) -> bool {
    48 <= b <= 57
}

pub open spec fn is_ident_start(b: u8) -> bool {
    (65 <= b <= 90) || (97 <= b <= 122) || b == 95
}

pub open spec fn is_ident_char(b: u8) -> bool {
    is_ident_start(b) || is_digit(b)
}

/// Numeric value of a digit run (meaningful when all bytes are digits).
pub open spec fn digits_val(s: Seq<u8>) -> int
    decreases s.len(),
{
    if s.len() == 0 {
        0
    } else {
        digits_val(s.drop_last()) * 10 + (s.last() - 48)
    }
}

/// First position at or after `i` that does not hold a digit.
pub open spec fn digit_run_end(s: Seq<u8>, i: int) -> int
    decreases s.len() - i,
{
    if i < 0 || i >= s.len() {
        i
    } else if is_digit(s[i]) {
        digit_run_end(s, i + 1)
    } else {
        i
    }
}

/// `a` starts an integer literal: an optional minus sign, then at least one
/// digit, and the digit run is not followed by a fractional or exponent
/// marker.
pub open spec fn int_literal_at(s: Seq<u8>, a: int) -> bool {
    let ds = if s[a] == 45 {
        a + 1
    } else {
        a
    };
    let e = digit_run_end(s, ds);
    &&& 0 <= a < s.len()
    &&& ds < s.len()
    &&& is_digit(s[ds])
    &&& (e == s.len() || (s[e] != 46 && s[e] != 101 && s[e] != 69))
}

/// End position of the integer literal starting at `a`.
pub open spec fn int_lit_end(s: Seq<u8>, a: int) -> int {
    digit_run_end(
        s,
        if s[a] == 45 {
            a + 1
        } else {
            a
        },
    )
}

/// Signed value of the integer literal starting at `a`.
pub open spec fn int_lit_value(s: Seq<u8>, a: int) -> int {
    if s[a] == 45 {
        -digits_val(s.subrange(a + 1, int_lit_end(s, a)))
    } else {
        digits_val(s.subrange(a, int_lit_end(s, a)))
    }
}

pub open spec fn int_fits(s: Seq<u8>, a: int) -> bool {
    i64::MIN <= int_lit_value(s, a) <= i64::MAX
}

/// The escape letters the format accepts after a backslash.
pub open spec fn is_escape(b: u8) -> bool {
    b == 34 || b == 92 || b == 110 || b == 116 || b == 114
}

/// The byte an escape letter stands for.
pub open spec fn escape_val(b: u8) -> u8 {
    if b == 34 {
        34
    } else if b == 92 {
        92
    } else if b == 110 {
        10
    } else if b == 116 {
        9
    } else {
        13
    }
}

/// A string body is well-formed: printable ASCII without a bare quote, and
/// every backslash starts a valid escape pair.
pub open spec fn str_body_ok(s: Seq<u8>) -> bool
    decreases s.len(),
{
    if s.len() == 0 {
        true
    } else if s[0] == 92 {
        s.len() >= 2 && is_escape(s[1]) && str_body_ok(s.skip(2))
    } else {
        32 <= s[0] < 127 && s[0] != 34 && str_body_ok(s.skip(1))
    }
}

/// The bytes a well-formed string body denotes, escapes applied.
pub open spec fn unescaped(s: Seq<u8>) -> Seq<u8>
    decreases s.len(),
{
    if s.len() == 0 {
        Seq::empty()
    } else if s[0] == 92 {
        if s.len() >= 2 {
            seq![escape_val(s[1])] + unescaped(s.skip(2))
        } else {
            Seq::empty()
        }
    } else {
        seq![s[0]] + unescaped(s.skip(1))
    }
}

/// Unescaping distributes over splitting a body after a whole escape pair.
proof fn lemma_unescaped_app(s: Seq<u8>, t: Seq<u8>)
    requires
        str_body_ok(s),
    ensures
        unescaped(s + t) == unescaped(s) + unescaped(t),
        str_body_ok(t) ==> str_body_ok(s + t),
    decreases s.len(),
{
    if s.len() == 0 {
        assert(s + t =~= t);
        assert(unescaped(s) + unescaped(t) =~= unescaped(t));
    } else if s[0] == 92 {
        assert((s + t).skip(2) =~= s.skip(2) + t);
        lemma_unescaped_app(s.skip(2), t);
        assert(unescaped(s + t) =~= unescaped(s) + unescaped(t));
    } else {
        assert((s + t).skip(1) =~= s.skip(1) + t);
        lemma_unescaped_app(s.skip(1), t);
        assert(unescaped(s + t) =~= unescaped(s) + unescaped(t));
    }
}

/// A byte outside every character class the format accepts anywhere:
/// a control byte, delete, or anything beyond ASCII.
pub open spec fn bad_byte(s: Seq<u8>, a: int, b: int) -> bool {
    exists|k: int| a <= k < b && ((#[trigger] s[k]) >= 127 || s[k] < 32)
}


/// First position at or after `i` that does not hold whitespace.
pub open spec fn ws_end(s: Seq<u8>, i: int) -> int
    decreases s.len() - i,
{
    if i < 0 || i >= s.len() {
        i
    } else if is_ws(s[i]) {
        ws_end(s, i + 1)
    } else {
        i
    }
}

/// First position at or after `i` that does not hold an identifier byte.
pub open spec fn ident_end(s: Seq<u8>, i: int) -> int
    decreases s.len() - i,
{
    if i < 0 || i >= s.len() {
        i
    } else if is_ident_char(s[i]) {
        ident_end(s, i + 1)
    } else {
        i
    }
}

/// Position after the closing quote of the string body starting at `i`, or
/// the error that stops the scan.
pub open spec fn str_end(s: Seq<u8>, i: int) -> Result<int, MochaError>
    decreases s.len() - i,
{
    if i < 0 || i >= s.len() {
        Err(MochaError::EndOfStream)
    } else if s[i] == 34 {
        Ok(i + 1)
    } else if s[i] == 92 {
        if i + 1 >= s.len() {
            Err(MochaError::EndOfStream)
        } else if is_escape(s[i + 1]) {
            str_end(s, i + 2)
        } else {
            Err(MochaError::UnexpectedCharacter)
        }
    } else if 32 <= s[i] < 127 {
        str_end(s, i + 1)
    } else {
        Err(MochaError::InvalidCharacter)
    }
}

/// A token as a mathematical value over the input sequence.
pub enum Lexeme {
    LBrace,
    RBrace,
    LBrack,
    RBrack,
    Colon,
    Comma,
    At,
    Ident { start: int, len: int },
    Str { bytes: Seq<u8> },
    Int { v: int },
    FloatLit { start: int, len: int },
    True,
    False,
    Nil,
    Eof,
}

/// The keyword or identifier token for the ident span `[a, b)`.
pub open spec fn keyword_token(s: Seq<u8>, a: int, b: int) -> Lexeme {
    if s.subrange(a, b) == seq![110u8, 105u8, 108u8] {
        Lexeme::Nil
    } else if s.subrange(a, b) == seq![116u8, 114u8, 117u8, 101u8] {
        Lexeme::True
    } else if s.subrange(a, b) == seq![102u8, 97u8, 108u8, 115u8, 101u8] {
        Lexeme::False
    } else {
        Lexeme::Ident { start: a, len: b - a }
    }
}

/// The error kind for a byte the current lexical state rejects.
pub open spec fn reject_kind(b: u8) -> MochaError {
    if b >= 127 || b < 32 {
        MochaError::InvalidCharacter
    } else {
        MochaError::UnexpectedCharacter
    }
}

/// End of the fraction digits after the dot at `de`, or the stopping error.
pub open spec fn frac_end(s: Seq<u8>, de: int) -> Result<int, MochaError> {
    let q = de + 1;
    if q >= s.len() {
        Err(MochaError::EndOfStream)
    } else if !is_digit(s[q]) {
        Err(reject_kind(s[q]))
    } else {
        Ok(digit_run_end(s, q))
    }
}

/// End of an exponent part starting at `q`; an absent one passes through.
pub open spec fn exp_end(s: Seq<u8>, q: int) -> Result<int, MochaError> {
    if q < s.len() && (s[q] == 101 || s[q] == 69) {
        let q1 = q + 1;
        let q2 = if q1 < s.len() && (s[q1] == 43 || s[q1] == 45) {
            q1 + 1
        } else {
            q1
        };
        if q2 >= s.len() {
            Err(MochaError::EndOfStream)
        } else if !is_digit(s[q2]) {
            Err(reject_kind(s[q2]))
        } else {
            Ok(digit_run_end(s, q2))
        }
    } else {
        Ok(q)
    }
}

/// The decimal-literal token at `a` whose digit run ends at the marker `de`.
pub open spec fn float_token(s: Seq<u8>, a: int, de: int) -> Result<(Lexeme, int), MochaError> {
    let fr = if s[de] == 46 {
        frac_end(s, de)
    } else {
        Ok(de)
    };
    match fr {
        Err(e) => Err(e),
        Ok(q) => match exp_end(s, q) {
            Err(e) => Err(e),
            Ok(p) => Ok((Lexeme::FloatLit { start: a, len: p - a }, p)),
        },
    }
}

/// The numeric token at `a` (a digit or minus sign stands there).
pub open spec fn number_token(s: Seq<u8>, a: int) -> Result<(Lexeme, int), MochaError> {
    let ds = if s[a] == 45 {
        a + 1
    } else {
        a
    };
    if ds >= s.len() {
        Err(MochaError::EndOfStream)
    } else if !is_digit(s[ds]) {
        Err(reject_kind(s[ds]))
    } else {
        let de = digit_run_end(s, ds);
        if de < s.len() && (s[de] == 46 || s[de] == 101 || s[de] == 69) {
            float_token(s, a, de)
        } else if int_fits(s, a) {
            Ok((Lexeme::Int { v: int_lit_value(s, a) }, de))
        } else {
            Err(MochaError::Overflow)
        }
    }
}

/// The string token whose opening quote stands at `a`.
pub open spec fn string_token(s: Seq<u8>, a: int) -> Result<(Lexeme, int), MochaError> {
    match str_end(s, a + 1) {
        Ok(p) => Ok((Lexeme::Str { bytes: unescaped(s.subrange(a + 1, p - 1)) }, p)),
        Err(e) => Err(e),
    }
}

/// The token at or after `pos`, as a function of the input alone: the
/// lexer's complete specification.
pub open spec fn spec_next_token(s: Seq<u8>, pos: int) -> Result<(Lexeme, int), MochaError> {
    let p0 = ws_end(s, pos);
    if p0 >= s.len() {
        Ok((Lexeme::Eof, p0))
    } else {
        let b = s[p0];
        if b == 123 {
            Ok((Lexeme::LBrace, p0 + 1))
        } else if b == 125 {
            Ok((Lexeme::RBrace, p0 + 1))
        } else if b == 91 {
            Ok((Lexeme::LBrack, p0 + 1))
        } else if b == 93 {
            Ok((Lexeme::RBrack, p0 + 1))
        } else if b == 58 {
            Ok((Lexeme::Colon, p0 + 1))
        } else if b == 44 {
            Ok((Lexeme::Comma, p0 + 1))
        } else if b == 64 {
            Ok((Lexeme::At, p0 + 1))
        } else if b == 34 {
            string_token(s, p0)
        } else if is_digit(b) || b == 45 {
            number_token(s, p0)
        } else if is_ident_start(b) {
            Ok((keyword_token(s, p0, ident_end(s, p0 + 1)), ident_end(s, p0 + 1)))
        } else if b >= 127 || b < 32 {
            Err(MochaError::InvalidCharacter)
        } else {
            Err(MochaError::UnexpectedCharacter)
        }
    }
}

/// The executable token projects the mathematical one.
pub open spec fn token_is(t: Token, lx: Lexeme) -> bool {
    match t {
        Token::LBrace => lx is LBrace,
        Token::RBrace => lx is RBrace,
        Token::LBrack => lx is LBrack,
        Token::RBrack => lx is RBrack,
        Token::Colon => lx is Colon,
        Token::Comma => lx is Comma,
        Token::At => lx is At,
        Token::Ident { start, len } => (lx matches Lexeme::Ident { start: a, len: l } && a
            == start as int && l == len as int),
        Token::Str { bytes } => (lx matches Lexeme::Str { bytes: q } && q == bytes@),
        Token::Int { v } => (lx matches Lexeme::Int { v: w } && w == v as int),
        Token::FloatLit { start, len } => (lx matches Lexeme::FloatLit { start: a, len: l } && a
            == start as int && l == len as int),
        Token::True => lx is True,
        Token::False => lx is False,
        Token::Nil => lx is Nil,
        Token::Eof => lx is Eof,
    }
}

/// The executable result projects the mathematical one: same error, or the
/// same position and corresponding token.
pub open spec fn lex_result_is(
    r: Result<(Token, usize), MochaError>,
    sr: Result<(Lexeme, int), MochaError>,
) -> bool {
    match r {
        Ok(tp) => (sr matches Ok(sp) && token_is(tp.0, sp.0) && tp.1 as int == sp.1),
        Err(e) => sr == Err::<(Lexeme, int), MochaError>(e),
    }
}

/// Spans of a returned token end exactly where the lexer stopped.
pub open spec fn token_wf(t: Token, p: int) -> bool {
    match t {
        Token::Ident { start, len } => 0 <= start && len >= 1 && start + len == p,
        Token::FloatLit { start, len } => 0 <= start && len >= 1 && start + len == p,
        _ => true,
    }
}

/// A digit run's value is never negative.
proof fn lemma_digits_nonneg(s: Seq<u8>, a: int, b: int)
    requires
        0 <= a <= b <= s.len(),
        forall|k: int| a <= k < b ==> is_digit(#[trigger] s[k]),
    ensures
        digits_val(s.subrange(a, b)) >= 0,
    decreases b - a,
{
    if b == a {
        assert(s.subrange(a, a).len() == 0);
    } else {
        assert(s.subrange(a, b).drop_last() =~= s.subrange(a, b - 1));
        assert(s.subrange(a, b).last() == s[b - 1]);
        lemma_digits_nonneg(s, a, b - 1);
    }
}

/// A digit run's value only grows as the run extends.
proof fn lemma_digits_extend(s: Seq<u8>, a: int, b: int, c: int)
    requires
        0 <= a <= b <= c <= s.len(),
        forall|k: int| a <= k < c ==> is_digit(#[trigger] s[k]),
    ensures
        digits_val(s.subrange(a, b)) <= digits_val(s.subrange(a, c)),
    decreases c - b,
{
    lemma_digits_nonneg(s, a, b);
    if b < c {
        lemma_digits_extend(s, a, b + 1, c);
        assert(s.subrange(a, b + 1).drop_last() =~= s.subrange(a, b));
        assert(s.subrange(a, b + 1).last() == s[b]);
    }
}

fn is_ws_x(b: u8) -> (r: bool)
    ensures
        r == is_ws(b),
{
    b == 32 || b == 9 || b == 10 || b == 13
}

fn is_digit_x(b: u8) -> (r: bool)
    ensures
        r == is_digit(b),
{
    48 <= b && b <= 57
}

fn is_ident_start_x(b: u8) -> (r: bool)
    ensures
        r == is_ident_start(b),
{
    (65 <= b && b <= 90) || (97 <= b && b <= 122) || b == 95
}

fn is_ident_char_x(b: u8) -> (r: bool)
    ensures
        r == is_ident_char(b),
{
    is_ident_start_x(b) || is_digit_x(b)
}

/// Skips whitespace; stops at the first non-whitespace byte or at the end.
fn skip_ws(src: &[u8], pos: usize) -> (p: usize)
    requires
        pos <= src@.len(),
    ensures
        pos <= p <= src@.len(),
        p < src@.len() ==> !is_ws(src@[p as int]),
        forall|i: int| pos <= i < p ==> is_ws(#[trigger] src@[i]),
        p == ws_end(src@, pos as int),
{
    let mut p = pos;
    while p < src.len() && is_ws_x(src[p])
        invariant
            pos <= p <= src@.len(),
            forall|i: int| pos <= i < p ==> is_ws(#[trigger] src@[i]),
            ws_end(src@, pos as int) == ws_end(src@, p as int),
        decreases src@.len() - p,
    {
        p = p + 1;
    }
    p
}

/// Reads the next token at or after `pos`. On `Ok`, the new position is
/// past the token, a non-`Eof` token consumed at least one byte, and an
/// `Int` token carries exactly the value of the integer literal it consumed.
/// `Overflow` is returned only when the input really holds an integer
/// literal whose value does not fit in a signed 64-bit integer.
pub(crate) fn next_token(src: &[u8], pos: usize) -> (r: Result<(Token, usize), MochaError>)
    requires
        pos <= src@.len(),
    ensures
        (r matches Ok(tp) ==> pos <= tp.1 <= src@.len() && (!(tp.0 is Eof) ==> tp.1 > pos)
            && token_wf(tp.0, tp.1 as int)),
        pos == src@.len() ==> (r matches Ok(tp) && tp.0 is Eof),
        (r matches Ok(tp) && tp.0 is Eof ==> forall|i: int|
            pos <= i < src@.len() ==> is_ws(#[trigger] src@[i])),
        (r matches Err(e) && e == MochaError::InvalidCharacter ==> bad_byte(
            src@,
            pos as int,
            src@.len() as int,
        )),
        (r matches Err(e) && e == MochaError::Overflow ==> exists|a: int|
            0 <= a < src@.len() && #[trigger] int_literal_at(src@, a) && !int_fits(src@, a)),
        lex_result_is(r, spec_next_token(src@, pos as int)),
{
    let p0 = skip_ws(src, pos);
    if p0 >= src.len() {
        return Ok((Token::Eof, p0));
    }
    let b = src[p0];
    if b == 123 {
        Ok((Token::LBrace, p0 + 1))
    } else if b == 125 {
        Ok((Token::RBrace, p0 + 1))
    } else if b == 91 {
        Ok((Token::LBrack, p0 + 1))
    } else if b == 93 {
        Ok((Token::RBrack, p0 + 1))
    } else if b == 58 {
        Ok((Token::Colon, p0 + 1))
    } else if b == 44 {
        Ok((Token::Comma, p0 + 1))
    } else if b == 64 {
        Ok((Token::At, p0 + 1))
    } else if b == 34 {
        lex_string(src, p0)
    } else if is_digit_x(b) || b == 45 {
        lex_number(src, p0)
    } else if is_ident_start_x(b) {
        Ok(lex_ident(src, p0))
    } else if b >= 127 || b < 32 {
        Err(MochaError::InvalidCharacter)
    } else {
        Err(MochaError::UnexpectedCharacter)
    }
}

/// Reads an identifier or keyword starting at `pos`.
fn lex_ident(src: &[u8], pos: usize) -> (r: (Token, usize))
    requires
        pos < src@.len(),
        is_ident_start(src@[pos as int]),
    ensures
        pos < r.1 <= src@.len(),
        token_wf(r.0, r.1 as int),
        !(r.0 is Eof),
        r.1 == ident_end(src@, pos + 1),
        token_is(r.0, keyword_token(src@, pos as int, r.1 as int)),
{
    let _n = src.len();
    let mut p = pos + 1;
    while p < src.len() && is_ident_char_x(src[p])
        invariant
            pos < p <= src@.len(),
            ident_end(src@, pos + 1) == ident_end(src@, p as int),
        decreases src@.len() - p,
    {
        p = p + 1;
    }
    let len = p - pos;
    let ghost sub = src@.subrange(pos as int, p as int);
    proof {
        assert(sub.len() == len);
    }
    if len == 3 && src[pos] == 110 && src[pos + 1] == 105 && src[pos + 2] == 108 {
        proof {
            assert(sub =~= seq![110u8, 105u8, 108u8]);
        }
        (Token::Nil, p)
    } else if len == 4 && src[pos] == 116 && src[pos + 1] == 114 && src[pos + 2] == 117 && src[pos
        + 3] == 101 {
        proof {
            assert(sub =~= seq![116u8, 114u8, 117u8, 101u8]);
            assert(sub != seq![110u8, 105u8, 108u8]);
        }
        (Token::True, p)
    } else if len == 5 && src[pos] == 102 && src[pos + 1] == 97 && src[pos + 2] == 108 && src[pos
        + 3] == 115 && src[pos + 4] == 101 {
        proof {
            assert(sub =~= seq![102u8, 97u8, 108u8, 115u8, 101u8]);
            assert(sub != seq![110u8, 105u8, 108u8]);
            assert(sub != seq![116u8, 114u8, 117u8, 101u8]);
        }
        (Token::False, p)
    } else {
        proof {
            lemma_not_keyword(src@, pos as int, p as int);
        }
        (Token::Ident { start: pos, len }, p)
    }
}

/// An ident span that fails the byte-for-byte keyword comparisons is no
/// keyword.
proof fn lemma_not_keyword(s: Seq<u8>, a: int, b: int)
    requires
        0 <= a <= b <= s.len(),
        !(b - a == 3 && s[a] == 110 && s[a + 1] == 105 && s[a + 2] == 108),
        !(b - a == 4 && s[a] == 116 && s[a + 1] == 114 && s[a + 2] == 117 && s[a + 3] == 101),
        !(b - a == 5 && s[a] == 102 && s[a + 1] == 97 && s[a + 2] == 108 && s[a + 3] == 115 && s[a
            + 4] == 101),
    ensures
        keyword_token(s, a, b) == (Lexeme::Ident { start: a, len: b - a }),
{
    let sub = s.subrange(a, b);
    assert(sub != seq![110u8, 105u8, 108u8]) by {
        if sub.len() == 3 {
            assert(sub[0] == s[a] && sub[1] == s[a + 1] && sub[2] == s[a + 2]);
            if sub == seq![110u8, 105u8, 108u8] {
                assert(sub[0] == 110 && sub[1] == 105 && sub[2] == 108);
            }
        } else {
            if sub == seq![110u8, 105u8, 108u8] {
                assert(sub.len() == 3);
            }
        }
    }
    assert(sub != seq![116u8, 114u8, 117u8, 101u8]) by {
        if sub.len() == 4 {
            assert(sub[0] == s[a] && sub[1] == s[a + 1] && sub[2] == s[a + 2] && sub[3] == s[a
                + 3]);
            if sub == seq![116u8, 114u8, 117u8, 101u8] {
                assert(sub[0] == 116 && sub[1] == 114 && sub[2] == 117 && sub[3] == 101);
            }
        } else {
            if sub == seq![116u8, 114u8, 117u8, 101u8] {
                assert(sub.len() == 4);
            }
        }
    }
    assert(sub != seq![102u8, 97u8, 108u8, 115u8, 101u8]) by {
        if sub.len() == 5 {
            assert(sub[0] == s[a] && sub[1] == s[a + 1] && sub[2] == s[a + 2] && sub[3] == s[a + 3]
                && sub[4] == s[a + 4]);
            if sub == seq![102u8, 97u8, 108u8, 115u8, 101u8] {
                assert(sub[0] == 102 && sub[1] == 97 && sub[2] == 108 && sub[3] == 115 && sub[4]
                    == 101);
            }
        } else {
            if sub == seq![102u8, 97u8, 108u8, 115u8, 101u8] {
                assert(sub.len() == 5);
            }
        }
    }
}

/// Reads a double-quoted string starting at `pos`, handling escapes: the
/// returned bytes are exactly the unescaped content between the quotes.
fn lex_string(src: &[u8], pos: usize) -> (r: Result<(Token, usize), MochaError>)
    requires
        pos < src@.len(),
        src@[pos as int] == 34,
    ensures
        (r matches Ok(tp) ==> pos < tp.1 <= src@.len() && token_wf(tp.0, tp.1 as int) && !(tp.0
            is Eof) && (tp.0 matches Token::Str { bytes } ==> src@[tp.1 - 1] == 34
            && str_body_ok(src@.subrange(pos + 1, tp.1 - 1)) && bytes@ == unescaped(
            src@.subrange(pos + 1, tp.1 - 1),
        ))),
        !(r matches Err(e) && e == MochaError::Overflow),
        (r matches Err(e) && e == MochaError::InvalidCharacter ==> bad_byte(
            src@,
            pos as int,
            src@.len() as int,
        )),
        lex_result_is(r, string_token(src@, pos as int)),
{
    let _n = src.len();
    let mut out: Vec<u8> = Vec::new();
    let mut i = pos + 1;
    loop
        invariant
            pos < i <= src@.len(),
            str_body_ok(src@.subrange(pos + 1, i as int)),
            out@ == unescaped(src@.subrange(pos + 1, i as int)),
            str_end(src@, pos + 1) == str_end(src@, i as int),
        decreases src@.len() - i,
    {
        if i >= src.len() {
            return Err(MochaError::EndOfStream);
        }
        let b = src[i];
        if b == 34 {
            return Ok((Token::Str { bytes: out }, i + 1));
        } else if b == 92 {
            if i + 1 >= src.len() {
                return Err(MochaError::EndOfStream);
            }
            let e = src[i + 1];
            if e == 34 {
                out.push(34);
            } else if e == 92 {
                out.push(92);
            } else if e == 110 {
                out.push(10);
            } else if e == 116 {
                out.push(9);
            } else if e == 114 {
                out.push(13);
            } else {
                return Err(MochaError::UnexpectedCharacter);
            }
            proof {
                let body = src@.subrange(pos + 1, i as int);
                let pair = seq![src@[i as int], src@[i + 1]];
                assert(pair.len() == 2);
                assert(pair[0] == 92);
                assert(is_escape(pair[1]));
                assert(pair.skip(2).len() == 0);
                assert(str_body_ok(pair.skip(2)));
                assert(str_body_ok(pair));
                assert(unescaped(pair.skip(2)) =~= Seq::<u8>::empty());
                assert(unescaped(pair) =~= seq![escape_val(src@[i + 1])]);
                lemma_unescaped_app(body, pair);
                assert(src@.subrange(pos + 1, i + 2) =~= body + pair);
            }
            i = i + 2;
        } else if b >= 32 && b < 127 {
            out.push(b);
            proof {
                let body = src@.subrange(pos + 1, i as int);
                let one = seq![src@[i as int]];
                assert(one.len() == 1);
                assert(one[0] == src@[i as int] && one[0] != 92 && one[0] != 34);
                assert(one.skip(1).len() == 0);
                assert(str_body_ok(one.skip(1)));
                assert(str_body_ok(one));
                assert(unescaped(one.skip(1)) =~= Seq::<u8>::empty());
                assert(unescaped(one) =~= seq![src@[i as int]]);
                lemma_unescaped_app(body, one);
                assert(src@.subrange(pos + 1, i + 1) =~= body + one);
            }
            i = i + 1;
        } else {
            return Err(MochaError::InvalidCharacter);
        }
    }
}

/// Reads a numeric literal starting at `pos`. An integer literal is
/// evaluated exactly: the token carries its value when it fits in `i64`,
/// and the parse fails with `Overflow` when and only when it does not.
/// A literal with a fractional or exponent marker is returned as its span.
fn lex_number(src: &[u8], pos: usize) -> (r: Result<(Token, usize), MochaError>)
    requires
        pos < src@.len(),
        is_digit(src@[pos as int]) || src@[pos as int] == 45,
    ensures
        (int_literal_at(src@, pos as int) ==> (match r {
            Ok(tp) => tp.1 == int_lit_end(src@, pos as int) && (tp.0 matches Token::Int { v }
                && v == int_lit_value(src@, pos as int)),
            Err(e) => e == MochaError::Overflow && !int_fits(src@, pos as int),
        })),
        (r matches Err(e) && e == MochaError::Overflow ==> int_literal_at(src@, pos as int)
            && !int_fits(src@, pos as int)),
        (r matches Ok(tp) ==> (tp.0 matches Token::Int { v } ==> int_literal_at(
            src@,
            pos as int,
        ))),
        (r matches Ok(tp) ==> pos < tp.1 <= src@.len() && token_wf(tp.0, tp.1 as int) && !(tp.0
            is Eof)),
        (r matches Err(e) && e == MochaError::InvalidCharacter ==> bad_byte(
            src@,
            pos as int,
            src@.len() as int,
        )),
        lex_result_is(r, number_token(src@, pos as int)),
{
    let neg = src[pos] == 45;
    let ds = if neg {
        pos + 1
    } else {
        pos
    };
    if ds >= src.len() {
        return Err(MochaError::EndOfStream);
    }
    if !is_digit_x(src[ds]) {
        if src[ds] >= 127 || src[ds] < 32 {
            return Err(MochaError::InvalidCharacter);
        }
        return Err(MochaError::UnexpectedCharacter);
    }
    // find the end of the digit run
    let mut de = ds;
    while de < src.len() && is_digit_x(src[de])
        invariant
            pos <= ds <= de <= src@.len(),
            pos < src@.len(),
            neg == (src@[pos as int] == 45),
            ds == pos + (if neg {
                1int
            } else {
                0int
            }),
            is_digit(src@[ds as int]),
            forall|k: int| ds <= k < de ==> is_digit(#[trigger] src@[k]),
            digit_run_end(src@, ds as int) == digit_run_end(src@, de as int),
        decreases src@.len() - de,
    {
        de = de + 1;
    }
    assert(digit_run_end(src@, ds as int) == de);
    if de < src.len() && (src[de] == 46 || src[de] == 101 || src[de] == 69) {
        return lex_float(src, pos, de);
    }
    // integer literal: evaluate with an exact overflow bound
    let limit: u64 = if neg {
        9223372036854775808
    } else {
        9223372036854775807
    };
    let mut v: u64 = 0;
    let mut i = ds;
    while i < de
        invariant
            pos <= ds <= i <= de <= src@.len(),
            pos < src@.len(),
            neg == (src@[pos as int] == 45),
            ds == pos + (if neg {
                1int
            } else {
                0int
            }),
            is_digit(src@[ds as int]),
            forall|k: int| ds <= k < de ==> is_digit(#[trigger] src@[k]),
            digit_run_end(src@, ds as int) == de,
            de == src@.len() || (src@[de as int] != 46 && src@[de as int] != 101 && src@[de as int]
                != 69),
            v == digits_val(src@.subrange(ds as int, i as int)),
            v <= limit,
            limit == (if neg {
                9223372036854775808u64
            } else {
                9223372036854775807u64
            }),
        decreases de - i,
    {
        let d = (src[i] - 48) as u64;
        proof {
            assert(src@.subrange(ds as int, i + 1).drop_last() =~= src@.subrange(
                ds as int,
                i as int,
            ));
            assert(src@.subrange(ds as int, i + 1).last() == src@[i as int]);
            assert(digits_val(src@.subrange(ds as int, i + 1)) == v * 10 + d);
        }
        // 922337203685477580 is the quotient of both bounds by ten, so past
        // it one more digit exceeds the magnitude bound either way
        if v > 922337203685477580 {
            proof {
                assert(v * 10 + d > limit);
                lemma_digits_extend(src@, ds as int, i + 1, de as int);
                assert(digits_val(src@.subrange(ds as int, de as int)) > limit);
                assert(int_literal_at(src@, pos as int));
                assert(!int_fits(src@, pos as int));
            }
            return Err(MochaError::Overflow);
        }
        let w = v * 10;
        if d > limit - w {
            proof {
                assert(v * 10 + d > limit);
                lemma_digits_extend(src@, ds as int, i + 1, de as int);
                assert(digits_val(src@.subrange(ds as int, de as int)) > limit);
                assert(int_literal_at(src@, pos as int));
                assert(!int_fits(src@, pos as int));
            }
            return Err(MochaError::Overflow);
        }
        v = w + d;
        i = i + 1;
    }
    proof {
        assert(int_literal_at(src@, pos as int));
        assert(int_lit_end(src@, pos as int) == de);
    }
    let t = if neg {
        if v == 9223372036854775808 {
            Token::Int { v: i64::MIN }
        } else {
            Token::Int { v: -(v as i64) }
        }
    } else {
        Token::Int { v: v as i64 }
    };
    Ok((t, de))
}

/// Reads the rest of a decimal literal whose digit run ends at `de`, where
/// a fractional or exponent marker stands.
fn lex_float(src: &[u8], pos: usize, de: usize) -> (r: Result<(Token, usize), MochaError>)
    requires
        pos < de < src@.len(),
        src@[de as int] == 46 || src@[de as int] == 101 || src@[de as int] == 69,
    ensures
        (r matches Ok(tp) ==> pos < tp.1 <= src@.len() && token_wf(tp.0, tp.1 as int) && tp.0
            is FloatLit),
        (r matches Err(e) ==> e != MochaError::Overflow),
        (r matches Err(e) && e == MochaError::InvalidCharacter ==> bad_byte(
            src@,
            pos as int,
            src@.len() as int,
        )),
        lex_result_is(r, float_token(src@, pos as int, de as int)),
{
    let _n = src.len();
    let mut p = de;
    if src[p] == 46 {
        p = p + 1;
        if p >= src.len() {
            return Err(MochaError::EndOfStream);
        }
        if !is_digit_x(src[p]) {
            if src[p] >= 127 || src[p] < 32 {
                return Err(MochaError::InvalidCharacter);
            }
            return Err(MochaError::UnexpectedCharacter);
        }
        while p < src.len() && is_digit_x(src[p])
            invariant
                pos < de + 1 <= p <= src@.len(),
                de < src@.len(),
                src@[de as int] == 46,
                is_digit(src@[de + 1]),
                digit_run_end(src@, de + 1) == digit_run_end(src@, p as int),
            decreases src@.len() - p,
        {
            p = p + 1;
        }
        proof {
            assert(frac_end(src@, de as int) == Ok::<int, MochaError>(p as int));
        }
    }
    let ghost q = p as int;
    proof {
        assert((if src@[de as int] == 46 {
            frac_end(src@, de as int)
        } else {
            Ok::<int, MochaError>(de as int)
        }) == Ok::<int, MochaError>(q));
    }
    if p < src.len() && (src[p] == 101 || src[p] == 69) {
        p = p + 1;
        if p < src.len() && (src[p] == 43 || src[p] == 45) {
            p = p + 1;
        }
        if p >= src.len() {
            return Err(MochaError::EndOfStream);
        }
        if !is_digit_x(src[p]) {
            if src[p] >= 127 || src[p] < 32 {
                return Err(MochaError::InvalidCharacter);
            }
            return Err(MochaError::UnexpectedCharacter);
        }
        let ghost q2 = p as int;
        while p < src.len() && is_digit_x(src[p])
            invariant
                pos < q2 <= p <= src@.len(),
                q2 <= src@.len(),
                digit_run_end(src@, q2) == digit_run_end(src@, p as int),
            decreases src@.len() - p,
        {
            p = p + 1;
        }
        proof {
            assert(exp_end(src@, q) == Ok::<int, MochaError>(p as int));
        }
    } else {
        proof {
            assert(exp_end(src@, q) == Ok::<int, MochaError>(p as int));
        }
    }
    Ok((Token::FloatLit { start: pos, len: p - pos }, p))
}

} // verus!
