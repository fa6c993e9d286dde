//! Recursive descent from tokens to a tree of values.
use vstd::prelude::*;

use crate::lexer::{lex_tokens, tokenize};
use crate::value::{
    entries_map, entries_wf, keys_distinct, tokens_view, value_view, value_wf, values_view, values_wf,
    JsonObject, JsonValue, Number, ParseError, Token, TokenView,
};

verus! {

/// The value that starts at token `pos`, and the position just after it.
pub open spec fn value_at(ts: Seq<TokenView>, pos: int) -> Result<(JsonValue, int), ParseError>
    decreases ts.len() - pos, 0int,
{
    if pos < 0 || pos >= ts.len() {
        Err(ParseError::UnexpectedEndOfTokens)
    } else {
        match ts[pos] {
            TokenView::LeftBrace => object_from(ts, pos + 1, Map::empty()),
            TokenView::LeftBracket => array_from(ts, pos + 1, Seq::empty()),
            TokenView::Str(s) => Ok((JsonValue::String(s), pos + 1)),
            TokenView::Number(n) => Ok((JsonValue::Number(n), pos + 1)),
            TokenView::Bool(b) => Ok((JsonValue::Bool(b), pos + 1)),
            TokenView::Null => Ok((JsonValue::Null, pos + 1)),
            TokenView::RightBrace => Err(ParseError::UnexpectedToken('}')),
            TokenView::RightBracket => Err(ParseError::UnexpectedToken(']')),
            TokenView::Colon => Err(ParseError::UnexpectedToken(':')),
            TokenView::Comma => Err(ParseError::UnexpectedToken(',')),
        }
    }
}

/// The rest of an array whose elements so far are `acc`, read from token
/// `pos` on: `]` closes it, a comma is passed over, anything else is an
/// element. (A value that is read always ends after `pos` and within the
/// tokens, as `parse_value` shows; the test on `p` makes the recursion end.)
pub open spec fn array_from(ts: Seq<TokenView>, pos: int, acc: Seq<JsonValue>) -> Result<
    (JsonValue, int),
    ParseError,
>
    decreases ts.len() - pos, 1int,
{
    if pos < 0 || pos >= ts.len() {
        Err(ParseError::UnterminatedArray)
    } else {
        match ts[pos] {
            TokenView::RightBracket => Ok((JsonValue::Array(acc), pos + 1)),
            TokenView::Comma => array_from(ts, pos + 1, acc),
            _ => match value_at(ts, pos) {
                Err(e) => Err(e),
                Ok((v, p)) => if pos < p <= ts.len() {
                    array_from(ts, p, acc.push(v))
                } else {
                    Err(ParseError::UnterminatedArray)
                },
            },
        }
    }
}

/// The rest of an object whose entries so far are `acc`, read from token
/// `pos` on: `}` closes it, a comma is passed over, a string is a key that a
/// colon and a value follow; a later entry overrides an earlier one.
pub open spec fn object_from(
    ts: Seq<TokenView>,
    pos: int,
    acc: Map<Seq<char>, JsonValue>,
) -> Result<(JsonValue, int), ParseError>
    decreases ts.len() - pos, 1int,
{
    if pos < 0 || pos >= ts.len() {
        Err(ParseError::UnterminatedObject)
    } else {
        match ts[pos] {
            TokenView::RightBrace => Ok((JsonValue::Object(acc), pos + 1)),
            TokenView::Comma => object_from(ts, pos + 1, acc),
            TokenView::Str(k) => if pos + 1 >= ts.len() || !(ts[pos + 1] is Colon) {
                Err(ParseError::ExpectedColon)
            } else {
                match value_at(ts, pos + 2) {
                    Err(e) => Err(e),
                    Ok((v, p)) => if pos < p <= ts.len() {
                        object_from(ts, p, acc.insert(k, v))
                    } else {
                        Err(ParseError::UnterminatedObject)
                    },
                }
            },
            _ => Err(ParseError::ExpectedStringKey),
        }
    }
}

/// The value that a text holds: its tokens, which must not be none, read as
/// one value from the first token on; tokens after that value are ignored.
pub open spec fn parse_text(cs: Seq<char>) -> Result<JsonValue, ParseError> {
    match lex_tokens(cs) {
        Err(e) => Err(ParseError::Lex(e)),
        Ok(ts) => if ts.len() == 0 {
            Err(ParseError::EmptyInput)
        } else {
            match value_at(ts, 0) {
                Ok((v, _)) => Ok(v),
                Err(e) => Err(e),
            }
        },
    }
}

/// `r` is what reading the text `cs` gives: the value that `parse_text`
/// names, well formed, or exactly its error.
pub open spec fn parses_to(cs: Seq<char>, r: Result<JsonObject, ParseError>) -> bool {
    match parse_text(cs) {
        Ok(v) => r matches Ok(o) && o@ == v && o.wf(),
        Err(e) => r == Err::<JsonObject, ParseError>(e),
    }
}

/// Reading one text twice gives equal trees (equal as maps where objects are
/// concerned, whatever the order of their entries), or the same error.
pub proof fn lemma_parse_idempotent(
    cs: Seq<char>,
    r1: Result<JsonObject, ParseError>,
    r2: Result<JsonObject, ParseError>,
)
    requires
        parses_to(cs, r1),
        parses_to(cs, r2),
    ensures
        r1 is Ok <==> r2 is Ok,
        r1 is Ok ==> r1->Ok_0@ == r2->Ok_0@,
        r1 is Err ==> r1 == r2,
{
}

proof fn lemma_values_view_push(s: Seq<JsonObject>, x: JsonObject)
    ensures
        values_view(s.push(x)) == values_view(s).push(value_view(x)),
        values_wf(s.push(x)) == (values_wf(s) && value_wf(x)),
{
    assert(s.push(x).subrange(0, s.len() as int) =~= s);
}

/// Parses the array whose `[` stands at `*pos`, leaving `*pos` after its `]`.
pub fn parse_json_array(tokens: &[Token], pos: &mut usize) -> (r: Result<JsonObject, ParseError>)
    requires
        *old(pos) < tokens@.len(),
    ensures
        match array_from(tokens_view(tokens@), *old(pos) + 1, Seq::empty()) {
            Ok((v, p)) => r matches Ok(o) && o@ == v && o.wf() && *final(pos) == p,
            Err(e) => r == Err::<JsonObject, ParseError>(e),
        },
        r is Ok ==> *old(pos) < *final(pos) <= tokens@.len(),
    decreases tokens@.len() - *old(pos), 0int,
{
    let ghost ts = tokens_view(tokens@);
    let ghost start: int = *pos as int;
    let mut arr: Vec<JsonObject> = Vec::new();
    assert(tokens@.len() == tokens.len());
    *pos += 1;
    while *pos < tokens.len()
        invariant
            start < *pos <= tokens@.len(),
            start == *old(pos),
            ts == tokens_view(tokens@),
            array_from(ts, *pos as int, values_view(arr@)) == array_from(ts, start + 1, Seq::empty()),
            values_wf(arr@),
        decreases tokens@.len() - *pos,
    {
        let ghost here: int = *pos as int;
        assert(ts[here] == tokens@[here]@);
        match &tokens[*pos] {
            Token::RightBracket => {
                *pos += 1;
                return Ok(JsonObject::Array(arr));
            },
            Token::Comma => {
                *pos += 1;
            },
            _ => {
                let val = match parse_value(tokens, pos) {
                    Ok(v) => v,
                    Err(e) => return Err(e),
                };
                proof {
                    lemma_values_view_push(arr@, val);
                }
                arr.push(val);
            },
        }
    }
    Err(ParseError::UnterminatedArray)
}

proof fn lemma_entries_push(s: Seq<(String, JsonObject)>, e: (String, JsonObject))
    ensures
        entries_map(s.push(e)) == entries_map(s).insert(e.0@, value_view(e.1)),
        entries_wf(s.push(e)) == (entries_wf(s) && value_wf(e.1)),
{
    assert(s.push(e).subrange(0, s.len() as int) =~= s);
}

/// Replacing the value of an entry whose key is `e.0` is inserting `e` into
/// the map, where keys are distinct.
proof fn lemma_entries_update(s: Seq<(String, JsonObject)>, i: int, e: (String, JsonObject))
    requires
        0 <= i < s.len(),
        s[i].0@ == e.0@,
        keys_distinct(s),
    ensures
        entries_map(s.update(i, e)) == entries_map(s).insert(e.0@, value_view(e.1)),
        keys_distinct(s.update(i, e)),
        entries_wf(s) && value_wf(e.1) ==> entries_wf(s.update(i, e)),
    decreases s.len(),
{
    let n = s.len() - 1;
    let pre = s.subrange(0, n);
    let u = s.update(i, e);
    if i == n {
        assert(u.subrange(0, n) =~= pre);
        assert(entries_map(u) =~= entries_map(s).insert(e.0@, value_view(e.1)));
    } else {
        assert(u.subrange(0, n) =~= pre.update(i, e));
        lemma_entries_update(pre, i, e);
        assert(s[n].0@ != e.0@);
        assert(entries_map(u) =~= entries_map(s).insert(e.0@, value_view(e.1)));
    }
}

/// Puts `val` under `key`, replacing the value that the key had.
fn insert_entry(entries: &mut Vec<(String, JsonObject)>, key: String, val: JsonObject)
    requires
        keys_distinct(old(entries)@),
        entries_wf(old(entries)@),
        value_wf(val),
    ensures
        keys_distinct(final(entries)@),
        entries_wf(final(entries)@),
        entries_map(final(entries)@) == entries_map(old(entries)@).insert(key@, value_view(val)),
{
    let mut i: usize = 0;
    while i < entries.len()
        invariant
            i <= entries@.len(),
            entries@ == old(entries)@,
            keys_distinct(entries@),
            entries_wf(entries@),
            value_wf(val),
            forall|j: int| 0 <= j < i ==> entries@[j].0@ != key@,
        decreases entries@.len() - i,
    {
        if entries[i].0 == key {
            proof {
                lemma_entries_update(entries@, i as int, (key, val));
            }
            entries.set(i, (key, val));
            return;
        }
        i += 1;
    }
    proof {
        lemma_entries_push(entries@, (key, val));
    }
    entries.push((key, val));
}

/// Parses the object whose `{` stands at `*pos`, leaving `*pos` after its `}`.
pub fn parse_json_object(tokens: &[Token], pos: &mut usize) -> (r: Result<JsonObject, ParseError>)
    requires
        *old(pos) < tokens@.len(),
    ensures
        match object_from(tokens_view(tokens@), *old(pos) + 1, Map::empty()) {
            Ok((v, p)) => r matches Ok(o) && o@ == v && o.wf() && *final(pos) == p,
            Err(e) => r == Err::<JsonObject, ParseError>(e),
        },
        r is Ok ==> *old(pos) < *final(pos) <= tokens@.len(),
    decreases tokens@.len() - *old(pos), 0int,
{
    let ghost ts = tokens_view(tokens@);
    let ghost start: int = *pos as int;
    let mut obj: Vec<(String, JsonObject)> = Vec::new();
    assert(tokens@.len() == tokens.len());
    assert(entries_map(obj@) =~= Map::empty());
    *pos += 1;
    while *pos < tokens.len()
        invariant
            start < *pos <= tokens@.len(),
            start == *old(pos),
            ts == tokens_view(tokens@),
            object_from(ts, *pos as int, entries_map(obj@)) == object_from(ts, start + 1, Map::empty()),
            keys_distinct(obj@),
            entries_wf(obj@),
        decreases tokens@.len() - *pos,
    {
        let ghost here: int = *pos as int;
        assert(ts[here] == tokens@[here]@);
        match &tokens[*pos] {
            Token::RightBrace => {
                *pos += 1;
                return Ok(JsonObject::Object(obj));
            },
            Token::Comma => {
                *pos += 1;
            },
            Token::String(key) => {
                let key = key.clone();
                *pos += 1;
                if *pos >= tokens.len() {
                    return Err(ParseError::ExpectedColon);
                }
                assert(ts[here + 1] == tokens@[here + 1]@);
                match &tokens[*pos] {
                    Token::Colon => {},
                    _ => return Err(ParseError::ExpectedColon),
                }
                *pos += 1;
                let val = match parse_value(tokens, pos) {
                    Ok(v) => v,
                    Err(e) => return Err(e),
                };
                insert_entry(&mut obj, key, val);
            },
            _ => return Err(ParseError::ExpectedStringKey),
        }
    }
    Err(ParseError::UnterminatedObject)
}

/// A copy of `n` with the same view.
fn copy_number(n: &Number) -> (r: Number)
    ensures
        r@ == n@,
{
    match n {
        Number::Float(s) => Number::Float(s.clone()),
        Number::Integer(i) => Number::Integer(*i),
    }
}

/// Parses the value that starts at token `*pos`, leaving `*pos` after it.
pub fn parse_value(tokens: &[Token], pos: &mut usize) -> (r: Result<JsonObject, ParseError>)
    ensures
        match value_at(tokens_view(tokens@), *old(pos) as int) {
            Ok((v, p)) => r matches Ok(o) && o@ == v && o.wf() && *final(pos) == p,
            Err(e) => r == Err::<JsonObject, ParseError>(e),
        },
        r is Ok ==> *old(pos) < *final(pos) <= tokens@.len(),
    decreases tokens@.len() - *old(pos), 1int,
{
    if *pos >= tokens.len() {
        return Err(ParseError::UnexpectedEndOfTokens);
    }
    assert(tokens_view(tokens@)[*pos as int] == tokens@[*pos as int]@);
    match &tokens[*pos] {
        Token::LeftBrace => parse_json_object(tokens, pos),
        Token::LeftBracket => parse_json_array(tokens, pos),
        Token::String(s) => {
            *pos += 1;
            Ok(JsonObject::String(s.clone()))
        },
        Token::Number(n) => {
            *pos += 1;
            Ok(JsonObject::Number(copy_number(n)))
        },
        Token::Bool(b) => {
            *pos += 1;
            Ok(JsonObject::Bool(*b))
        },
        Token::Null => {
            *pos += 1;
            Ok(JsonObject::Null)
        },
        Token::RightBrace => Err(ParseError::UnexpectedToken('}')),
        Token::RightBracket => Err(ParseError::UnexpectedToken(']')),
        Token::Colon => Err(ParseError::UnexpectedToken(':')),
        Token::Comma => Err(ParseError::UnexpectedToken(',')),
    }
}

/// Reads the text `data` as one JSON value: it is split into tokens, which
/// must not be none, and one value is read from the first token on. Tokens
/// after that value are ignored.
pub fn parse_object(data: &[char]) -> (r: Result<JsonObject, ParseError>)
    ensures
        parses_to(data@, r),
{
    let tokens = match tokenize(data) {
        Ok(ts) => ts,
        Err(e) => return Err(ParseError::Lex(e)),
    };
    if tokens.is_empty() {
        return Err(ParseError::EmptyInput);
    }
    let mut pos: usize = 0;
    parse_value(tokens.as_slice(), &mut pos)
}

} // verus!
