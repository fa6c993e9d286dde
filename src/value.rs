//! The data model: numbers, tokens, parsed values, errors, and their views.
use vstd::prelude::*;

verus! {

/// A numeric literal. Which variant a literal becomes depends only on whether
/// a decimal point appeared in it. A float keeps the literal's text (an
/// optional `-`, digits and exactly one `.`); turning it into binary floating
/// point is left to the caller.
#[derive(Debug, Clone, PartialEq)]
pub enum Number {
    Float(String),
    Integer(i64),
}

/// Mathematical view of a `Number`.
pub enum NumberView {
    Float(Seq<char>),
    Integer(int),
}

impl View for Number {
    type V = NumberView;

    open spec fn view(&self) -> NumberView {
        match self {
            Number::Float(s) => NumberView::Float(s@),
            Number::Integer(i) => NumberView::Integer(*i as int),
        }
    }
}

/// A lexical token. Tokens carry no position.
#[derive(Debug, Clone, PartialEq)]
pub enum Token {
    LeftBrace,
    LeftBracket,
    Number(Number),
    RightBrace,
    RightBracket,
    String(String),
    Colon,
    Comma,
    Bool(bool),
    Null,
}

/// Mathematical view of a `Token`.
pub enum TokenView {
    LeftBrace,
    LeftBracket,
    Number(NumberView),
    RightBrace,
    RightBracket,
    Str(Seq<char>),
    Colon,
    Comma,
    Bool(bool),
    Null,
}

impl View for Token {
    type V = TokenView;

    open spec fn view(&self) -> TokenView {
        match self {
            Token::LeftBrace => TokenView::LeftBrace,
            Token::LeftBracket => TokenView::LeftBracket,
            Token::Number(n) => TokenView::Number(n@),
            Token::RightBrace => TokenView::RightBrace,
            Token::RightBracket => TokenView::RightBracket,
            Token::String(s) => TokenView::Str(s@),
            Token::Colon => TokenView::Colon,
            Token::Comma => TokenView::Comma,
            Token::Bool(b) => TokenView::Bool(*b),
            Token::Null => TokenView::Null,
        }
    }
}

/// The views of a sequence of tokens.
pub open spec fn tokens_view(ts: Seq<Token>) -> Seq<TokenView> {
    ts.map_values(|t: Token| t@)
}

/// Why the characters could not be split into tokens.
#[derive(Debug, Clone, Copy, PartialEq, Eq)]
pub enum LexError {
    UnterminatedString,
    InvalidBoolean,
    InvalidNull,
    UnexpectedCharacter(char),
    InvalidNumber,
}

/// A parsed JSON value. An object holds its entries with unique keys; the
/// order of entries carries no meaning, and `==` compares objects as maps.
#[derive(Debug)]
pub enum JsonObject {
    Array(Vec<JsonObject>),
    Bool(bool),
    Null,
    Number(Number),
    Object(Vec<(String, JsonObject)>),
    String(String),
}

/// Mathematical view of a parsed value: an object is a map from key to value.
pub enum JsonValue {
    Array(Seq<JsonValue>),
    Bool(bool),
    Null,
    Number(NumberView),
    Object(Map<Seq<char>, JsonValue>),
    String(Seq<char>),
}

/// The view of one value.
pub open spec fn value_view(o: JsonObject) -> JsonValue
    decreases o,
{
    match o {
        JsonObject::Array(v) => JsonValue::Array(values_view(v@)),
        JsonObject::Bool(b) => JsonValue::Bool(b),
        JsonObject::Null => JsonValue::Null,
        JsonObject::Number(n) => JsonValue::Number(n@),
        JsonObject::Object(es) => JsonValue::Object(entries_map(es@)),
        JsonObject::String(s) => JsonValue::String(s@),
    }
}

/// The views of a sequence of values, in order.
pub open spec fn values_view(s: Seq<JsonObject>) -> Seq<JsonValue>
    decreases s,
{
    if s.len() == 0 {
        Seq::empty()
    } else {
        values_view(s.subrange(0, s.len() - 1)).push(value_view(s[s.len() - 1]))
    }
}

/// The map that a sequence of entries spells, a later entry overriding an
/// earlier one with the same key.
pub open spec fn entries_map(s: Seq<(String, JsonObject)>) -> Map<Seq<char>, JsonValue>
    decreases s,
{
    if s.len() == 0 {
        Map::empty()
    } else {
        entries_map(s.subrange(0, s.len() - 1)).insert(
            s[s.len() - 1].0@,
            value_view(s[s.len() - 1].1),
        )
    }
}

impl View for JsonObject {
    type V = JsonValue;

    open spec fn view(&self) -> JsonValue {
        value_view(*self)
    }
}

/// No two entries have the same key.
pub open spec fn keys_distinct(s: Seq<(String, JsonObject)>) -> bool {
    forall|i: int, j: int| 0 <= i < j < s.len() ==> s[i].0@ != s[j].0@
}

/// Every object in the tree has unique keys.
pub open spec fn value_wf(o: JsonObject) -> bool
    decreases o,
{
    match o {
        JsonObject::Array(v) => values_wf(v@),
        JsonObject::Object(es) => keys_distinct(es@) && entries_wf(es@),
        _ => true,
    }
}

/// Every value of the sequence is well formed.
pub open spec fn values_wf(s: Seq<JsonObject>) -> bool
    decreases s,
{
    s.len() == 0 || (values_wf(s.subrange(0, s.len() - 1)) && value_wf(s[s.len() - 1]))
}

/// Every value of the entries is well formed.
pub open spec fn entries_wf(s: Seq<(String, JsonObject)>) -> bool
    decreases s,
{
    s.len() == 0 || (entries_wf(s.subrange(0, s.len() - 1)) && value_wf(s[s.len() - 1].1))
}

impl JsonObject {
    /// Every object in the tree has unique keys.
    pub open spec fn wf(&self) -> bool {
        value_wf(*self)
    }
}

/// Why a sequence of tokens, or the text it came from, is not a value.
#[derive(Debug, Clone, Copy, PartialEq, Eq)]
pub enum ParseError {
    /// The text could not be split into tokens.
    Lex(LexError),
    EmptyInput,
    UnexpectedEndOfTokens,
    /// A token that cannot start a value; it is named by its character.
    UnexpectedToken(char),
    ExpectedColon,
    ExpectedStringKey,
    UnterminatedArray,
    UnterminatedObject,
}

} // verus!
