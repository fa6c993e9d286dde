//! Text forms of numbers and tokens, as used in messages.
use vstd::prelude::*;

use vstd::std_specs::iter::IteratorSpec;

use crate::value::{Number, NumberView, Token, TokenView};

verus! {

broadcast use vstd::string::axiom_spec_iter, vstd::string::next_postcondition;

/// The character of a decimal digit.
pub open spec fn digit_char(n: nat) -> char {
    if n == 0 {
        '0'
    } else if n == 1 {
        '1'
    } else if n == 2 {
        '2'
    } else if n == 3 {
        '3'
    } else if n == 4 {
        '4'
    } else if n == 5 {
        '5'
    } else if n == 6 {
        '6'
    } else if n == 7 {
        '7'
    } else if n == 8 {
        '8'
    } else {
        '9'
    }
}

/// `n` in base ten, without leading zeros.
pub open spec fn decimal(n: nat) -> Seq<char>
    decreases n,
{
    if n < 10 {
        seq![digit_char(n)]
    } else {
        decimal(n / 10).push(digit_char(n % 10))
    }
}

/// A number as text: an integer in base ten with a `-` when negative, a
/// decimal as it was written.
pub open spec fn number_text(n: NumberView) -> Seq<char> {
    match n {
        NumberView::Integer(i) => if i < 0 {
            seq!['-'] + decimal((-i) as nat)
        } else {
            decimal(i as nat)
        },
        NumberView::Float(t) => t,
    }
}

/// A token as text: its name, with its content where it has one; a number
/// is its text alone.
pub open spec fn token_text(t: TokenView) -> Seq<char> {
    match t {
        TokenView::LeftBrace => "LeftBrace"@,
        TokenView::LeftBracket => "LeftBracket"@,
        TokenView::Number(n) => number_text(n),
        TokenView::RightBrace => "RightBrace"@,
        TokenView::RightBracket => "RightBracket"@,
        TokenView::Str(s) => "String("@ + s + ")"@,
        TokenView::Colon => "Colon"@,
        TokenView::Comma => "Comma"@,
        TokenView::Bool(b) => "Bool("@ + (if b {
            "true"@
        } else {
            "false"@
        }) + ")"@,
        TokenView::Null => "Null"@,
    }
}

/// The characters of `s`, in order.
fn str_chars(s: &str) -> (r: Vec<char>)
    ensures
        r@ == s@,
{
    let mut it = s.chars();
    let mut v: Vec<char> = Vec::new();
    assert(v@ + it.remaining() =~= s@);
    loop
        invariant
            v@ + it.remaining() == s@,
            it.obeys_prophetic_iter_laws(),
            it.decrease() is Some,
        decreases it.decrease()->0,
    {
        let ghost before = it.remaining();
        match it.next() {
            Some(c) => {
                v.push(c);
                assert(v@ + it.remaining() =~= s@) by {
                    assert(before =~= seq![c] + before.drop_first());
                }
            },
            None => {
                assert(v@ =~= s@);
                return v;
            },
        }
    }
}

/// Relies on `String`'s `FromIterator<&char>`: the string of the characters,
/// in order.
#[verifier::external_body]
pub(crate) fn chars_to_string(cs: &[char]) -> (r: String)
    ensures
        r@ == cs@,
{
    String::from_iter(cs)
}

fn digit(d: u64) -> (r: char)
    requires
        d < 10,
    ensures
        r == digit_char(d as nat),
{
    if d == 0 {
        '0'
    } else if d == 1 {
        '1'
    } else if d == 2 {
        '2'
    } else if d == 3 {
        '3'
    } else if d == 4 {
        '4'
    } else if d == 5 {
        '5'
    } else if d == 6 {
        '6'
    } else if d == 7 {
        '7'
    } else if d == 8 {
        '8'
    } else {
        '9'
    }
}

/// The base-ten digits of `n`.
fn decimal_chars(n: u64) -> (r: Vec<char>)
    ensures
        r@ == decimal(n as nat),
    decreases n,
{
    if n < 10 {
        let mut v: Vec<char> = Vec::new();
        v.push(digit(n));
        assert(v@ =~= seq![digit_char(n as nat)]);
        v
    } else {
        let mut v = decimal_chars(n / 10);
        v.push(digit(n % 10));
        v
    }
}

fn number_chars(n: &Number) -> (r: Vec<char>)
    ensures
        r@ == number_text(n@),
{
    match n {
        Number::Integer(i) => {
            if *i < 0 {
                let m: u64 = (0i128 - *i as i128) as u64;
                let mut v = str_chars("-");
                proof {
                    reveal_strlit("-");
                }
                let mut d = decimal_chars(m);
                v.append(&mut d);
                assert(v@ =~= seq!['-'] + decimal((-(*i as int)) as nat));
                v
            } else {
                decimal_chars(*i as u64)
            }
        },
        Number::Float(t) => str_chars(t.as_str()),
    }
}

impl Number {
    /// The number as text: an integer in base ten, a decimal as written.
    pub fn to_string(&self) -> (r: String)
        ensures
            r@ == number_text(self@),
    {
        let v = number_chars(self);
        chars_to_string(v.as_slice())
    }
}

impl Token {
    /// The token as text: `LeftBrace`, `String(abc)`, `Bool(true)`, `12`, ...
    pub fn to_string(&self) -> (r: String)
        ensures
            r@ == token_text(self@),
    {
        let v: Vec<char> = match self {
            Token::LeftBrace => str_chars("LeftBrace"),
            Token::LeftBracket => str_chars("LeftBracket"),
            Token::Number(n) => number_chars(n),
            Token::RightBrace => str_chars("RightBrace"),
            Token::RightBracket => str_chars("RightBracket"),
            Token::String(s) => {
                let mut v = str_chars("String(");
                let mut body = str_chars(s.as_str());
                let mut close = str_chars(")");
                v.append(&mut body);
                v.append(&mut close);
                v
            },
            Token::Colon => str_chars("Colon"),
            Token::Comma => str_chars("Comma"),
            Token::Bool(b) => {
                let mut v = str_chars("Bool(");
                let mut word = if *b {
                    str_chars("true")
                } else {
                    str_chars("false")
                };
                let mut close = str_chars(")");
                v.append(&mut word);
                v.append(&mut close);
                v
            },
            Token::Null => str_chars("Null"),
        };
        chars_to_string(v.as_slice())
    }
}

} // verus!
