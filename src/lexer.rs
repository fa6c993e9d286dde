//! Splitting characters into tokens.
use vstd::prelude::*;

use crate::text::chars_to_string;
use crate::value::{tokens_view, LexError, Number, NumberView, Token, TokenView};

verus! {

/// Unicode's White_Space characters, the set that `char::is_whitespace` tests.
pub open spec fn white_space(c: char) -> bool {
    ||| '\u{9}' <= c <= '\u{d}'
    ||| c == ' '
    ||| c == '\u{85}'
    ||| c == '\u{a0}'
    ||| c == '\u{1680}'
    ||| '\u{2000}' <= c <= '\u{200a}'
    ||| c == '\u{2028}'
    ||| c == '\u{2029}'
    ||| c == '\u{202f}'
    ||| c == '\u{205f}'
    ||| c == '\u{3000}'
}

/// Whether `c` is white space.
pub fn is_whitespace(c: char) -> (r: bool)
    ensures
        r == white_space(c),
{
    ('\u{9}' <= c && c <= '\u{d}') || c == ' ' || c == '\u{85}' || c == '\u{a0}' || c == '\u{1680}'
        || ('\u{2000}' <= c && c <= '\u{200a}') || c == '\u{2028}' || c == '\u{2029}' || c
        == '\u{202f}' || c == '\u{205f}' || c == '\u{3000}'
}

/// The first index at or after `i` whose character is not white space
/// (`s.len()` where there is none).
pub open spec fn ws_end(s: Seq<char>, i: int) -> int
    decreases s.len() - i,
{
    if i < 0 || i >= s.len() || !white_space(s[i]) {
        i
    } else {
        ws_end(s, i + 1)
    }
}

/// What is left of `s` after its leading white space.
pub open spec fn skip_ws(s: Seq<char>) -> Seq<char> {
    s.subrange(ws_end(s, 0), s.len() as int)
}

/// Drops the leading white space of `data`.
pub fn skip_whitespace(data: &[char]) -> (r: &[char])
    ensures
        r@ == skip_ws(data@),
{
    let mut i: usize = 0;
    while i < data.len() && is_whitespace(data[i])
        invariant
            0 <= i <= data@.len(),
            ws_end(data@, i as int) == ws_end(data@, 0),
        decreases data@.len() - i,
    {
        i += 1;
    }
    &data[i..data.len()]
}

/// The index of the first unescaped `"` at or after `i` (`s.len()` where
/// there is none): a backslash takes the character after it into the text,
/// so a quote right after a backslash does not close the string.
pub open spec fn quote_end(s: Seq<char>, i: int) -> int
    decreases s.len() - i,
{
    if i < 0 || i >= s.len() || s[i] == '"' {
        i
    } else if s[i] == '\\' && i + 1 < s.len() {
        quote_end(s, i + 2)
    } else {
        quote_end(s, i + 1)
    }
}

/// A string literal at the start of `s` (whose first character is the opening
/// quote): its text up to the first unescaped quote, kept verbatim (escape
/// sequences stay as written), and the number of characters it takes.
pub open spec fn lex_string(s: Seq<char>) -> Result<(Seq<char>, int), LexError> {
    let j = quote_end(s, 1);
    if j >= s.len() {
        Err(LexError::UnterminatedString)
    } else {
        Ok((s.subrange(1, j), j + 1))
    }
}

/// Reads the string literal that opens `data` and returns its text and what
/// follows the closing quote. A backslash keeps the next character in the
/// text, so `\"` does not close the string; no escape sequence is
/// interpreted, and backslashes stay in the text.
pub fn tokenize_string(data: &[char]) -> (r: Result<(String, &[char]), LexError>)
    ensures
        match lex_string(data@) {
            Ok((text, n)) => r matches Ok((t, rest)) && t@ == text && rest@ == data@.subrange(
                n,
                data@.len() as int,
            ),
            Err(e) => r == Err::<(String, &[char]), LexError>(e),
        },
{
    let mut i: usize = 1;
    while i < data.len() && data[i] != '"'
        invariant
            1 <= i,
            i <= data@.len() || data@.len() == 0,
            quote_end(data@, i as int) == quote_end(data@, 1),
        decreases data@.len() - i,
    {
        if data[i] == '\\' && i + 1 < data.len() {
            i += 2;
        } else {
            i += 1;
        }
    }
    if i >= data.len() {
        return Err(LexError::UnterminatedString);
    }
    let s = chars_to_string(&data[1..i]);
    Ok((s, &data[i + 1..data.len()]))
}

/// `s` begins with the characters of `word`.
pub open spec fn starts_with(s: Seq<char>, word: Seq<char>) -> bool {
    s.len() >= word.len() && s.subrange(0, word.len() as int) == word
}

/// A boolean literal at the start of `s`: its value and its length.
pub open spec fn lex_bool(s: Seq<char>) -> Result<(bool, int), LexError> {
    if starts_with(s, seq!['t', 'r', 'u', 'e']) {
        Ok((true, 4))
    } else if starts_with(s, seq!['f', 'a', 'l', 's', 'e']) {
        Ok((false, 5))
    } else {
        Err(LexError::InvalidBoolean)
    }
}

/// `data[k..k + word.len()]` equals `word`.
fn matches_at(data: &[char], k: usize, word: &[char]) -> (r: bool)
    requires
        k <= data@.len(),
    ensures
        r == starts_with(data@.subrange(k as int, data@.len() as int), word@),
{
    if data.len() - k < word.len() {
        return false;
    }
    let mut i: usize = 0;
    while i < word.len()
        invariant
            i <= word@.len(),
            k + word@.len() <= data@.len(),
            data@.len() == data.len(),
            forall|j: int| 0 <= j < i ==> data@[k + j] == word@[j],
        decreases word@.len() - i,
    {
        if data[k + i] != word[i] {
            assert(data@.subrange(k as int, data@.len() as int).subrange(0, word@.len() as int)[i as int] != word@[i as int]);
            return false;
        }
        i += 1;
    }
    assert(data@.subrange(k as int, data@.len() as int).subrange(0, word@.len() as int) =~= word@);
    true
}

/// Reads `true` or `false` at the start of `data` (exact, case-sensitive) and
/// returns the value and what follows it.
pub fn tokenize_bool(data: &[char]) -> (r: Result<(bool, &[char]), LexError>)
    ensures
        match lex_bool(data@) {
            Ok((b, n)) => r matches Ok((v, rest)) && v == b && rest@ == data@.subrange(
                n,
                data@.len() as int,
            ),
            Err(e) => r == Err::<(bool, &[char]), LexError>(e),
        },
{
    let t: [char; 4] = ['t', 'r', 'u', 'e'];
    let f: [char; 5] = ['f', 'a', 'l', 's', 'e'];
    assert(t@ == seq!['t', 'r', 'u', 'e']);
    assert(f@ == seq!['f', 'a', 'l', 's', 'e']);
    assert(data@.subrange(0, data@.len() as int) == data@);
    if matches_at(data, 0, t.as_slice()) {
        Ok((true, &data[4..data.len()]))
    } else if matches_at(data, 0, f.as_slice()) {
        Ok((false, &data[5..data.len()]))
    } else {
        Err(LexError::InvalidBoolean)
    }
}

/// A `null` literal at the start of `s`: its length.
pub open spec fn lex_null(s: Seq<char>) -> Result<int, LexError> {
    if starts_with(s, seq!['n', 'u', 'l', 'l']) {
        Ok(4)
    } else {
        Err(LexError::InvalidNull)
    }
}

/// Reads `null` at the start of `data` and returns what follows it.
pub fn tokenize_null(data: &[char]) -> (r: Result<&[char], LexError>)
    ensures
        match lex_null(data@) {
            Ok(n) => r matches Ok(rest) && rest@ == data@.subrange(n, data@.len() as int),
            Err(e) => r == Err::<&[char], LexError>(e),
        },
{
    let w: [char; 4] = ['n', 'u', 'l', 'l'];
    assert(w@ == seq!['n', 'u', 'l', 'l']);
    assert(data@.subrange(0, data@.len() as int) == data@);
    if matches_at(data, 0, w.as_slice()) {
        Ok(&data[4..data.len()])
    } else {
        Err(LexError::InvalidNull)
    }
}

/// An ASCII decimal digit.
pub open spec fn is_digit(c: char) -> bool {
    '0' <= c <= '9'
}

/// The first index at or after `i` whose character is neither a digit nor `.`.
pub open spec fn num_end(s: Seq<char>, i: int) -> int
    decreases s.len() - i,
{
    if i < 0 || i >= s.len() || !(is_digit(s[i]) || s[i] == '.') {
        i
    } else {
        num_end(s, i + 1)
    }
}

/// How many `.` characters `s` holds.
pub open spec fn dot_count(s: Seq<char>) -> nat
    decreases s.len(),
{
    if s.len() == 0 {
        0
    } else {
        dot_count(s.drop_last()) + if s.last() == '.' {
            1nat
        } else {
            0nat
        }
    }
}

/// The number that the digits of `s` spell in base ten (other characters are
/// passed over).
pub open spec fn digits_value(s: Seq<char>) -> nat
    decreases s.len(),
{
    if s.len() == 0 {
        0
    } else if is_digit(s.last()) {
        digits_value(s.drop_last()) * 10 + (s.last() as nat - '0' as nat) as nat
    } else {
        digits_value(s.drop_last())
    }
}

/// A numeric literal at the start of `s`: an optional `-`, then the longest run
/// of digits and points. With a point it is a float, valid with exactly one
/// point and at least one digit; without, an integer, valid when it has a digit
/// and its value fits in 64 signed bits. Also gives the literal's length.
pub open spec fn lex_number(s: Seq<char>) -> Result<(NumberView, int), LexError> {
    let a: int = if s.len() > 0 && s[0] == '-' {
        1
    } else {
        0
    };
    let e = num_end(s, a);
    let body = s.subrange(a, e);
    if dot_count(body) > 0 {
        if dot_count(body) == 1 && body.len() >= 2 {
            Ok((NumberView::Float(s.subrange(0, e)), e))
        } else {
            Err(LexError::InvalidNumber)
        }
    } else {
        let v: int = if a == 1 {
            -digits_value(body)
        } else {
            digits_value(body) as int
        };
        if body.len() > 0 && i64::MIN <= v <= i64::MAX {
            Ok((NumberView::Integer(v), e))
        } else {
            Err(LexError::InvalidNumber)
        }
    }
}

/// Reads the numeric literal that opens `data` and returns it with what follows.
pub fn tokenize_number(data: &[char]) -> (r: Result<(Number, &[char]), LexError>)
    ensures
        match lex_number(data@) {
            Ok((num, n)) => r matches Ok((v, rest)) && v@ == num && rest@ == data@.subrange(
                n,
                data@.len() as int,
            ),
            Err(e) => r == Err::<(Number, &[char]), LexError>(e),
        },
{
    let mut i: usize = 0;
    if data.len() > 0 && data[0] == '-' {
        i = 1;
    }
    let start = i;
    let mut dots: usize = 0;
    let mut mag: u128 = 0;
    let mut big = false;
    while i < data.len() && (('0' <= data[i] && data[i] <= '9') || data[i] == '.')
        invariant
            start <= i <= data@.len(),
            start == (if data@.len() > 0 && data@[0] == '-' { 1int } else { 0int }),
            num_end(data@, i as int) == num_end(data@, start as int),
            dots == dot_count(data@.subrange(start as int, i as int)),
            dots <= i,
            big == (digits_value(data@.subrange(start as int, i as int)) > 0x8000_0000_0000_0000),
            !big ==> mag == digits_value(data@.subrange(start as int, i as int)),
        decreases data@.len() - i,
    {
        let c = data[i];
        let ghost prev = data@.subrange(start as int, i as int);
        assert(data@.subrange(start as int, i + 1).drop_last() == prev);
        assert(data@.subrange(start as int, i + 1).last() == c);
        if c == '.' {
            dots += 1;
        } else if !big {
            mag = mag * 10 + (c as u32 - '0' as u32) as u128;
            if mag > 0x8000_0000_0000_0000 {
                big = true;
            }
        }
        i += 1;
    }
    proof {
        reveal_with_fuel(num_end, 2);
    }
    assert(num_end(data@, i as int) == i);
    if dots > 0 {
        if dots == 1 && i - start >= 2 {
            let text = chars_to_string(&data[0..i]);
            return Ok((Number::Float(text), &data[i..data.len()]));
        }
        return Err(LexError::InvalidNumber);
    }
    if i == start || big {
        return Err(LexError::InvalidNumber);
    }
    if start == 1 {
        let v: i128 = 0i128 - mag as i128;
        Ok((Number::Integer(v as i64), &data[i..data.len()]))
    } else if mag > 0x7fff_ffff_ffff_ffff {
        Err(LexError::InvalidNumber)
    } else {
        Ok((Number::Integer(mag as i64), &data[i..data.len()]))
    }
}

/// The token at the start of `s` (which is not empty and does not start with
/// white space), with the number of characters it takes.
pub open spec fn lex_token(s: Seq<char>) -> Result<(TokenView, int), LexError>
    recommends
        s.len() > 0,
{
    let c = s[0];
    if c == '{' {
        Ok((TokenView::LeftBrace, 1))
    } else if c == '}' {
        Ok((TokenView::RightBrace, 1))
    } else if c == '[' {
        Ok((TokenView::LeftBracket, 1))
    } else if c == ']' {
        Ok((TokenView::RightBracket, 1))
    } else if c == ':' {
        Ok((TokenView::Colon, 1))
    } else if c == ',' {
        Ok((TokenView::Comma, 1))
    } else if c == '"' {
        match lex_string(s) {
            Ok((text, n)) => Ok((TokenView::Str(text), n)),
            Err(e) => Err(e),
        }
    } else if c == 't' || c == 'f' {
        match lex_bool(s) {
            Ok((b, n)) => Ok((TokenView::Bool(b), n)),
            Err(e) => Err(e),
        }
    } else if c == 'n' {
        match lex_null(s) {
            Ok(n) => Ok((TokenView::Null, n)),
            Err(e) => Err(e),
        }
    } else if c == '-' || is_digit(c) {
        match lex_number(s) {
            Ok((num, n)) => Ok((TokenView::Number(num), n)),
            Err(e) => Err(e),
        }
    } else {
        Err(LexError::UnexpectedCharacter(c))
    }
}

/// `head` followed by the tokens of `rest`, or the error of `rest`.
pub open spec fn prepend(head: Seq<TokenView>, rest: Result<Seq<TokenView>, LexError>) -> Result<
    Seq<TokenView>,
    LexError,
> {
    match rest {
        Ok(ts) => Ok(head + ts),
        Err(e) => Err(e),
    }
}

/// The tokens of `s`: white space is passed over between tokens; the first
/// token that cannot be read makes the whole result that token's error. (The
/// bounds tested on `n` always hold, by `lemma_lex_token_len`; they show the
/// recursion to end.)
pub open spec fn lex_tokens(s: Seq<char>) -> Result<Seq<TokenView>, LexError>
    decreases s.len(),
{
    let t = skip_ws(s);
    if t.len() == 0 {
        Ok(Seq::empty())
    } else {
        match lex_token(t) {
            Err(e) => Err(e),
            Ok((tok, n)) => if 0 < n <= t.len() <= s.len() {
                prepend(seq![tok], lex_tokens(t.subrange(n, t.len() as int)))
            } else {
                Ok(Seq::empty())
            },
        }
    }
}

proof fn lemma_ws_end_bounds(s: Seq<char>, i: int)
    requires
        0 <= i <= s.len(),
    ensures
        i <= ws_end(s, i) <= s.len(),
    decreases s.len() - i,
{
    if i < s.len() && white_space(s[i]) {
        lemma_ws_end_bounds(s, i + 1);
    }
}

proof fn lemma_quote_end_bounds(s: Seq<char>, i: int)
    requires
        0 <= i,
    ensures
        i <= quote_end(s, i),
        i <= s.len() ==> quote_end(s, i) <= s.len(),
    decreases s.len() - i,
{
    if i < s.len() && s[i] != '"' {
        if s[i] == '\\' && i + 1 < s.len() {
            lemma_quote_end_bounds(s, i + 2);
        } else {
            lemma_quote_end_bounds(s, i + 1);
        }
    }
}

proof fn lemma_num_end_bounds(s: Seq<char>, i: int)
    requires
        0 <= i <= s.len(),
    ensures
        i <= num_end(s, i) <= s.len(),
    decreases s.len() - i,
{
    if i < s.len() && (is_digit(s[i]) || s[i] == '.') {
        lemma_num_end_bounds(s, i + 1);
    }
}

/// A token that is read takes at least one character and no more than there are.
proof fn lemma_lex_token_len(s: Seq<char>)
    requires
        s.len() > 0,
    ensures
        lex_token(s) matches Ok((_, n)) ==> 0 < n <= s.len(),
{
    let c = s[0];
    if c == '"' {
        lemma_quote_end_bounds(s, 1);
    } else if c == '-' || is_digit(c) {
        let a: int = if s[0] == '-' { 1 } else { 0 };
        lemma_num_end_bounds(s, a);
        if a == 0 {
            lemma_num_end_bounds(s, 1);
        }
    }
}

/// The white space in front of `s` leaves no more than `s`.
proof fn lemma_skip_ws_len(s: Seq<char>)
    ensures
        skip_ws(s).len() <= s.len(),
{
    lemma_ws_end_bounds(s, 0);
}

/// Splits `data` into tokens.
pub fn tokenize(data: &[char]) -> (r: Result<Vec<Token>, LexError>)
    ensures
        match lex_tokens(data@) {
            Ok(ts) => r matches Ok(v) && tokens_view(v@) == ts,
            Err(e) => r == Err::<Vec<Token>, LexError>(e),
        },
{
    let mut tokens: Vec<Token> = Vec::new();
    let mut rest = data;
    loop
        invariant
            prepend(tokens_view(tokens@), lex_tokens(rest@)) == lex_tokens(data@),
        decreases rest@.len(),
    {
        let ghost before = rest@;
        rest = skip_whitespace(rest);
        proof {
            lemma_skip_ws_len(before);
        }
        if rest.is_empty() {
            assert(tokens_view(tokens@) + Seq::empty() =~= tokens_view(tokens@));
            return Ok(tokens);
        }
        let ghost t = rest@;
        proof {
            lemma_lex_token_len(t);
        }
        let tok: Token;
        match rest[0] {
            '{' => {
                tok = Token::LeftBrace;
                rest = &rest[1..rest.len()];
            },
            '}' => {
                tok = Token::RightBrace;
                rest = &rest[1..rest.len()];
            },
            '[' => {
                tok = Token::LeftBracket;
                rest = &rest[1..rest.len()];
            },
            ']' => {
                tok = Token::RightBracket;
                rest = &rest[1..rest.len()];
            },
            ':' => {
                tok = Token::Colon;
                rest = &rest[1..rest.len()];
            },
            ',' => {
                tok = Token::Comma;
                rest = &rest[1..rest.len()];
            },
            '"' => {
                match tokenize_string(rest) {
                    Ok((s, remaining)) => {
                        tok = Token::String(s);
                        rest = remaining;
                    },
                    Err(e) => return Err(e),
                }
            },
            't' | 'f' => {
                match tokenize_bool(rest) {
                    Ok((b, remaining)) => {
                        tok = Token::Bool(b);
                        rest = remaining;
                    },
                    Err(e) => return Err(e),
                }
            },
            'n' => {
                match tokenize_null(rest) {
                    Ok(remaining) => {
                        tok = Token::Null;
                        rest = remaining;
                    },
                    Err(e) => return Err(e),
                }
            },
            '-' | '0'..='9' => {
                match tokenize_number(rest) {
                    Ok((num, remaining)) => {
                        tok = Token::Number(num);
                        rest = remaining;
                    },
                    Err(e) => return Err(e),
                }
            },
            c => return Err(LexError::UnexpectedCharacter(c)),
        }
        proof {
            let old_view = tokens_view(tokens@);
            assert(lex_token(t) matches Ok((tv, n)) && tv == tok@ && rest@ == t.subrange(
                n,
                t.len() as int,
            ));
            assert(lex_tokens(before) == prepend(seq![tok@], lex_tokens(rest@)));
            assert(tokens_view(tokens@.push(tok)) =~= old_view.push(tok@));
            assert(old_view + seq![tok@] =~= old_view.push(tok@));
            match lex_tokens(rest@) {
                Ok(x) => {
                    assert(old_view + (seq![tok@] + x) =~= old_view.push(tok@) + x);
                },
                Err(_) => {},
            }
        }
        tokens.push(tok);
    }
}

} // verus!
