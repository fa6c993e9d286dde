//! Documents built from punctuation, strings without quotes in them, integer
//! and decimal literals, `true`, `false` and `null`; how they are written as
//! text, with or without white space between tokens, and the proof that
//! reading such a text gives the document's tree.
use vstd::prelude::*;

use crate::lexer::{
    digits_value, dot_count, is_digit, lex_number, lex_token, lex_tokens, num_end, prepend,
    quote_end, skip_ws, white_space, ws_end,
};
use crate::parser::{array_from, object_from, parse_text, value_at};
use crate::text::{decimal, digit_char};
use crate::value::{JsonValue, NumberView, TokenView};

verus! {

/// A document: a JSON value as it is written, objects with their entries in
/// the order written (keys may repeat).
pub enum Doc {
    Array(Seq<Doc>),
    Object(Seq<(Seq<char>, Doc)>),
    Str(Seq<char>),
    Integer(int),
    Float(Seq<char>),
    Bool(bool),
    Null,
}

/// Strings and keys hold no quote or backslash, integers fit in 64 signed bits, and a
/// decimal is a valid literal with a point.
pub open spec fn doc_ok(d: Doc) -> bool
    decreases d,
{
    match d {
        Doc::Array(items) => items_ok(items),
        Doc::Object(es) => entries_ok(es),
        Doc::Str(s) => plain_text(s),
        Doc::Integer(i) => i64::MIN <= i <= i64::MAX,
        Doc::Float(t) => float_literal_ok(t),
        _ => true,
    }
}

/// Text that holds neither a quote nor a backslash.
pub open spec fn plain_text(s: Seq<char>) -> bool {
    !s.contains('"') && !s.contains('\\')
}

pub open spec fn items_ok(s: Seq<Doc>) -> bool
    decreases s,
{
    s.len() == 0 || (doc_ok(s[0]) && items_ok(s.subrange(1, s.len() as int)))
}

pub open spec fn entries_ok(s: Seq<(Seq<char>, Doc)>) -> bool
    decreases s,
{
    s.len() == 0 || (plain_text(s[0].0) && doc_ok(s[0].1) && entries_ok(
        s.subrange(1, s.len() as int),
    ))
}

/// A decimal literal as the reader takes it: a `-` or a digit first, then,
/// after the optional `-`, only digits and points, exactly one point and at
/// least one digit.
pub open spec fn float_literal_ok(t: Seq<char>) -> bool {
    let a: int = if t.len() > 0 && t[0] == '-' {
        1
    } else {
        0
    };
    &&& t.len() > 0
    &&& (t[0] == '-' || is_digit(t[0]))
    &&& forall|k: int| a <= k < t.len() ==> is_digit(t[k]) || t[k] == '.'
    &&& dot_count(t.subrange(a, t.len() as int)) == 1
    &&& t.len() - a >= 2
}

/// The text of a single-token document.
pub open spec fn atom_text(d: Doc) -> Seq<char> {
    match d {
        Doc::Str(s) => seq!['"'] + s + seq!['"'],
        Doc::Integer(i) => if i < 0 {
            seq!['-'] + decimal((-i) as nat)
        } else {
            decimal(i as nat)
        },
        Doc::Float(t) => t,
        Doc::Bool(b) => if b {
            seq!['t', 'r', 'u', 'e']
        } else {
            seq!['f', 'a', 'l', 's', 'e']
        },
        _ => seq!['n', 'u', 'l', 'l'],
    }
}

/// Every character of `w` is white space.
pub open spec fn all_white(w: Seq<char>) -> bool {
    forall|k: int| 0 <= k < w.len() ==> white_space(#[trigger] w[k])
}

/// Every gap holds only white space.
pub open spec fn white_gaps(g: spec_fn(int) -> Seq<char>) -> bool {
    forall|k: int| all_white(#[trigger] g(k))
}

/// The text of a document whose first token is token `k` of the whole text,
/// with `g(i)` written just before token `i` (all gaps empty give the compact
/// text).
pub open spec fn render(d: Doc, g: spec_fn(int) -> Seq<char>, k: int) -> Seq<char>
    decreases d,
{
    match d {
        Doc::Array(items) => g(k) + seq!['['] + render_items(items, g, k + 1) + g(
            k + 1 + items_tokens(items).len(),
        ) + seq![']'],
        Doc::Object(es) => g(k) + seq!['{'] + render_entries(es, g, k + 1) + g(
            k + 1 + entries_tokens(es).len(),
        ) + seq!['}'],
        _ => g(k) + atom_text(d),
    }
}

/// Elements written one after another, separated by commas.
pub open spec fn render_items(s: Seq<Doc>, g: spec_fn(int) -> Seq<char>, k: int) -> Seq<char>
    decreases s,
{
    if s.len() == 0 {
        Seq::empty()
    } else if s.len() == 1 {
        render(s[0], g, k)
    } else {
        let n = doc_tokens(s[0]).len() as int;
        render(s[0], g, k) + (g(k + n) + (seq![','] + render_items(
            s.subrange(1, s.len() as int),
            g,
            k + n + 1,
        )))
    }
}

/// A key in quotes and its colon.
pub open spec fn entry_head(key: Seq<char>, g: spec_fn(int) -> Seq<char>, k: int) -> Seq<char> {
    g(k) + (seq!['"'] + key + seq!['"']) + (g(k + 1) + seq![':'])
}

/// Entries written `"key":value`, separated by commas.
pub open spec fn render_entries(
    s: Seq<(Seq<char>, Doc)>,
    g: spec_fn(int) -> Seq<char>,
    k: int,
) -> Seq<char>
    decreases s,
{
    if s.len() == 0 {
        Seq::empty()
    } else if s.len() == 1 {
        entry_head(s[0].0, g, k) + render(s[0].1, g, k + 2)
    } else {
        let n = doc_tokens(s[0].1).len() as int;
        entry_head(s[0].0, g, k) + (render(s[0].1, g, k + 2) + (g(k + 2 + n) + (seq![','] + render_entries(
            s.subrange(1, s.len() as int),
            g,
            k + 3 + n,
        ))))
    }
}

/// The tokens of a document.
pub open spec fn doc_tokens(d: Doc) -> Seq<TokenView>
    decreases d,
{
    match d {
        Doc::Array(items) => seq![TokenView::LeftBracket] + items_tokens(items) + seq![
            TokenView::RightBracket,
        ],
        Doc::Object(es) => seq![TokenView::LeftBrace] + entries_tokens(es) + seq![
            TokenView::RightBrace,
        ],
        Doc::Str(s) => seq![TokenView::Str(s)],
        Doc::Integer(i) => seq![TokenView::Number(NumberView::Integer(i))],
        Doc::Float(t) => seq![TokenView::Number(NumberView::Float(t))],
        Doc::Bool(b) => seq![TokenView::Bool(b)],
        Doc::Null => seq![TokenView::Null],
    }
}

pub open spec fn items_tokens(s: Seq<Doc>) -> Seq<TokenView>
    decreases s,
{
    if s.len() == 0 {
        Seq::empty()
    } else if s.len() == 1 {
        doc_tokens(s[0])
    } else {
        doc_tokens(s[0]) + (seq![TokenView::Comma] + items_tokens(s.subrange(1, s.len() as int)))
    }
}

pub open spec fn entries_tokens(s: Seq<(Seq<char>, Doc)>) -> Seq<TokenView>
    decreases s,
{
    if s.len() == 0 {
        Seq::empty()
    } else if s.len() == 1 {
        seq![TokenView::Str(s[0].0), TokenView::Colon] + doc_tokens(s[0].1)
    } else {
        seq![TokenView::Str(s[0].0), TokenView::Colon] + (doc_tokens(s[0].1) + (seq![
            TokenView::Comma,
        ] + entries_tokens(s.subrange(1, s.len() as int))))
    }
}

/// The tree a document stands for: an object maps each key to the value of
/// its last entry.
pub open spec fn doc_value(d: Doc) -> JsonValue
    decreases d,
{
    match d {
        Doc::Array(items) => JsonValue::Array(items_values(items)),
        Doc::Object(es) => JsonValue::Object(entries_fold(Map::empty(), es)),
        Doc::Str(s) => JsonValue::String(s),
        Doc::Integer(i) => JsonValue::Number(NumberView::Integer(i)),
        Doc::Float(t) => JsonValue::Number(NumberView::Float(t)),
        Doc::Bool(b) => JsonValue::Bool(b),
        Doc::Null => JsonValue::Null,
    }
}

pub open spec fn items_values(s: Seq<Doc>) -> Seq<JsonValue>
    decreases s,
{
    if s.len() == 0 {
        Seq::empty()
    } else {
        seq![doc_value(s[0])] + items_values(s.subrange(1, s.len() as int))
    }
}

/// `m` with the entries of `s` put in, in order.
pub open spec fn entries_fold(m: Map<Seq<char>, JsonValue>, s: Seq<(Seq<char>, Doc)>) -> Map<
    Seq<char>,
    JsonValue,
>
    decreases s,
{
    if s.len() == 0 {
        m
    } else {
        entries_fold(m.insert(s[0].0, doc_value(s[0].1)), s.subrange(1, s.len() as int))
    }
}

/// What may follow a value: anything that does not go on with a number.
pub open spec fn boundary(rest: Seq<char>) -> bool {
    rest.len() == 0 || !(is_digit(rest[0]) || rest[0] == '.')
}

proof fn lemma_quote_end_at(s: Seq<char>, i: int, j: int)
    requires
        0 <= i <= j < s.len(),
        s[j] == '"',
        forall|k: int| i <= k < j ==> s[k] != '"' && s[k] != '\\',
    ensures
        quote_end(s, i) == j,
    decreases j - i,
{
    if i < j {
        lemma_quote_end_at(s, i + 1, j);
    }
}

proof fn lemma_num_end_at(s: Seq<char>, i: int, j: int)
    requires
        0 <= i <= j <= s.len(),
        j == s.len() || !(is_digit(s[j]) || s[j] == '.'),
        forall|k: int| i <= k < j ==> is_digit(s[k]) || s[k] == '.',
    ensures
        num_end(s, i) == j,
    decreases j - i,
{
    if i < j {
        lemma_num_end_at(s, i + 1, j);
    }
}

proof fn lemma_decimal(n: nat)
    ensures
        decimal(n).len() > 0,
        forall|k: int| 0 <= k < decimal(n).len() ==> is_digit(#[trigger] decimal(n)[k]),
        dot_count(decimal(n)) == 0,
        digits_value(decimal(n)) == n,
    decreases n,
{
    assert(dot_count(Seq::<char>::empty()) == 0);
    assert(digits_value(Seq::<char>::empty()) == 0);
    let c = digit_char(n % 10);
    assert(is_digit(c) && c != '.' && c as nat - '0' as nat == n % 10);
    let d = decimal(n);
    if n >= 10 {
        lemma_decimal(n / 10);
        assert(d.drop_last() =~= decimal(n / 10));
        assert(d.last() == c);
        assert(n == (n / 10) * 10 + n % 10);
    } else {
        assert(d.drop_last() =~= Seq::<char>::empty());
        assert(d.last() == c);
        assert(n % 10 == n);
    }
}

/// One token read from the front of a text that does not start with white space.
proof fn lemma_lex_step(s: Seq<char>)
    requires
        s.len() > 0,
        !white_space(s[0]),
        lex_token(s) matches Ok((_, n)) && 0 < n <= s.len(),
    ensures
        lex_token(s) matches Ok((t, n)) && lex_tokens(s) == prepend(
            seq![t],
            lex_tokens(s.subrange(n, s.len() as int)),
        ),
{
    assert(ws_end(s, 0) == 0);
    assert(skip_ws(s) =~= s);
}

proof fn lemma_prepend_assoc(
    a: Seq<TokenView>,
    b: Seq<TokenView>,
    r: Result<Seq<TokenView>, crate::value::LexError>,
)
    ensures
        prepend(a, prepend(b, r)) == prepend(a + b, r),
{
    if let Ok(x) = r {
        assert(a + (b + x) =~= (a + b) + x);
    }
}

/// Reading a single-character token.
proof fn lemma_lex_punct(c: char, t: TokenView, rest: Seq<char>)
    requires
        c == '{' || c == '}' || c == '[' || c == ']' || c == ':' || c == ',',
        lex_token(seq![c] + rest) == Ok::<(TokenView, int), crate::value::LexError>((t, 1)),
    ensures
        lex_tokens(seq![c] + rest) == prepend(seq![t], lex_tokens(rest)),
{
    let s = seq![c] + rest;
    lemma_lex_step(s);
    assert(s.subrange(1, s.len() as int) =~= rest);
}

/// White space in front of a text that starts with a token changes nothing.
proof fn lemma_lex_ws(w: Seq<char>, s: Seq<char>)
    requires
        all_white(w),
        s.len() == 0 || !white_space(s[0]),
    ensures
        lex_tokens(w + s) == lex_tokens(s),
{
    lemma_ws_prefix(w, s, 0);
    lemma_ws_prefix(Seq::empty(), s, 0);
    assert(Seq::<char>::empty() + s =~= s);
    assert(skip_ws(w + s) =~= s);
    assert(skip_ws(s) =~= s);
}

proof fn lemma_ws_prefix(w: Seq<char>, s: Seq<char>, i: int)
    requires
        all_white(w),
        s.len() == 0 || !white_space(s[0]),
        0 <= i <= w.len(),
    ensures
        ws_end(w + s, i) == w.len(),
    decreases w.len() - i,
{
    if i < w.len() {
        assert((w + s)[i] == w[i]);
        lemma_ws_prefix(w, s, i + 1);
    } else if s.len() > 0 {
        assert((w + s)[i] == s[0]);
    }
}

/// Reading a single-token document, followed by what may follow a value.
proof fn lemma_lex_atom(d: Doc, rest: Seq<char>)
    requires
        doc_ok(d),
        boundary(rest),
        !(d is Array || d is Object),
    ensures
        lex_tokens(atom_text(d) + rest) == prepend(doc_tokens(d), lex_tokens(rest)),
        !white_space((atom_text(d) + rest)[0]),
        atom_text(d).len() > 0,
{
    let s = atom_text(d) + rest;
    match d {
        Doc::Str(t) => {
            let j: int = t.len() as int + 1;
            assert(s[j] == '"');
            assert forall|k: int| 1 <= k < j implies s[k] != '"' && s[k] != '\\' by {
                assert(s[k] == t[k - 1]);
            }
            lemma_quote_end_at(s, 1, j);
            assert(s.subrange(1, j) =~= t);
            lemma_lex_step(s);
            assert(s.subrange(j + 1, s.len() as int) =~= rest);
        },
        Doc::Integer(i) => {
            let m: nat = if i < 0 { (-i) as nat } else { i as nat };
            lemma_decimal(m);
            let a: int = if i < 0 { 1 } else { 0 };
            let e = atom_text(d).len() as int;
            assert(s[0] == '-' <==> i < 0);
            assert forall|k: int| a <= k < e implies is_digit(s[k]) || s[k] == '.' by {
                assert(s[k] == decimal(m)[k - a]);
            }
            lemma_num_end_at(s, a, e);
            assert(s.subrange(a, e) =~= decimal(m));
            assert(lex_number(s) == Ok::<(NumberView, int), crate::value::LexError>((NumberView::Integer(i), e)));
            lemma_lex_step(s);
            assert(s.subrange(e, s.len() as int) =~= rest);
        },
        Doc::Float(t) => {
            let a: int = if t[0] == '-' { 1 } else { 0 };
            let e = t.len() as int;
            lemma_num_end_at(s, a, e);
            assert(s.subrange(a, e) =~= t.subrange(a, e));
            assert(s.subrange(0, e) =~= t);
            lemma_lex_step(s);
            assert(s.subrange(e, s.len() as int) =~= rest);
        },
        Doc::Bool(b) => {
            if b {
                assert(s.subrange(0, 4) =~= seq!['t', 'r', 'u', 'e']);
                lemma_lex_step(s);
                assert(s.subrange(4, s.len() as int) =~= rest);
            } else {
                assert(s.subrange(0, 5) =~= seq!['f', 'a', 'l', 's', 'e']);
                assert(s.subrange(0, 4) != seq!['t', 'r', 'u', 'e']);
                lemma_lex_step(s);
                assert(s.subrange(5, s.len() as int) =~= rest);
            }
        },
        Doc::Null => {
            assert(s.subrange(0, 4) =~= seq!['n', 'u', 'l', 'l']);
            lemma_lex_step(s);
            assert(s.subrange(4, s.len() as int) =~= rest);
        },
        _ => {},
    }
}

/// Reading the text of a document, followed by what may follow a value.
proof fn lemma_lex_doc(d: Doc, g: spec_fn(int) -> Seq<char>, k: int, rest: Seq<char>)
    requires
        doc_ok(d),
        white_gaps(g),
        boundary(rest),
    ensures
        lex_tokens(render(d, g, k) + rest) == prepend(doc_tokens(d), lex_tokens(rest)),
    decreases d, 0int,
{
    let s = render(d, g, k) + rest;
    let w = g(k);
    assert(all_white(w));
    match d {
        Doc::Array(items) => {
            let w2 = g(k + 1 + items_tokens(items).len());
            assert(all_white(w2));
            let r1 = w2 + (seq![']'] + rest);
            let inner = render_items(items, g, k + 1) + r1;
            assert(s =~= w + (seq!['['] + inner));
            lemma_lex_ws(w, seq!['['] + inner);
            lemma_lex_punct('[', TokenView::LeftBracket, inner);
            lemma_lex_items(items, g, k + 1, r1);
            lemma_lex_ws(w2, seq![']'] + rest);
            lemma_lex_punct(']', TokenView::RightBracket, rest);
            lemma_prepend_assoc(items_tokens(items), seq![TokenView::RightBracket], lex_tokens(rest));
            lemma_prepend_assoc(
                seq![TokenView::LeftBracket],
                items_tokens(items) + seq![TokenView::RightBracket],
                lex_tokens(rest),
            );
            assert(doc_tokens(d) =~= seq![TokenView::LeftBracket] + (items_tokens(items) + seq![
                TokenView::RightBracket,
            ]));
        },
        Doc::Object(es) => {
            let w2 = g(k + 1 + entries_tokens(es).len());
            assert(all_white(w2));
            let r1 = w2 + (seq!['}'] + rest);
            let inner = render_entries(es, g, k + 1) + r1;
            assert(s =~= w + (seq!['{'] + inner));
            lemma_lex_ws(w, seq!['{'] + inner);
            lemma_lex_punct('{', TokenView::LeftBrace, inner);
            lemma_lex_entries(es, g, k + 1, r1);
            lemma_lex_ws(w2, seq!['}'] + rest);
            lemma_lex_punct('}', TokenView::RightBrace, rest);
            lemma_prepend_assoc(entries_tokens(es), seq![TokenView::RightBrace], lex_tokens(rest));
            lemma_prepend_assoc(
                seq![TokenView::LeftBrace],
                entries_tokens(es) + seq![TokenView::RightBrace],
                lex_tokens(rest),
            );
            assert(doc_tokens(d) =~= seq![TokenView::LeftBrace] + (entries_tokens(es) + seq![
                TokenView::RightBrace,
            ]));
        },
        _ => {
            lemma_lex_atom(d, rest);
            assert(s =~= w + (atom_text(d) + rest));
            lemma_lex_ws(w, atom_text(d) + rest);
        },
    }
}

/// Reading the elements of an array, followed by what may follow a value.
proof fn lemma_lex_items(items: Seq<Doc>, g: spec_fn(int) -> Seq<char>, k: int, rest: Seq<char>)
    requires
        items_ok(items),
        white_gaps(g),
        boundary(rest),
    ensures
        lex_tokens(render_items(items, g, k) + rest) == prepend(
            items_tokens(items),
            lex_tokens(rest),
        ),
    decreases items, 1int,
{
    if items.len() == 0 {
        assert(render_items(items, g, k) + rest =~= rest);
        if let Ok(x) = lex_tokens(rest) {
            assert(Seq::<TokenView>::empty() + x =~= x);
        }
    } else if items.len() == 1 {
        lemma_lex_doc(items[0], g, k, rest);
    } else {
        let tail = items.subrange(1, items.len() as int);
        let n = doc_tokens(items[0]).len() as int;
        let w = g(k + n);
        assert(all_white(w));
        let after = render_items(tail, g, k + n + 1) + rest;
        assert(render_items(items, g, k) + rest =~= render(items[0], g, k) + (w + (seq![',']
            + after)));
        lemma_lex_doc(items[0], g, k, w + (seq![','] + after));
        lemma_lex_ws(w, seq![','] + after);
        lemma_lex_punct(',', TokenView::Comma, after);
        lemma_lex_items(tail, g, k + n + 1, rest);
        lemma_prepend_assoc(seq![TokenView::Comma], items_tokens(tail), lex_tokens(rest));
        lemma_prepend_assoc(
            doc_tokens(items[0]),
            seq![TokenView::Comma] + items_tokens(tail),
            lex_tokens(rest),
        );
    }
}

/// Reading a key and its colon.
proof fn lemma_lex_key(key: Seq<char>, g: spec_fn(int) -> Seq<char>, k: int, value_text: Seq<char>)
    requires
        plain_text(key),
        white_gaps(g),
    ensures
        lex_tokens(entry_head(key, g, k) + value_text) == prepend(
            seq![TokenView::Str(key)],
            prepend(seq![TokenView::Colon], lex_tokens(value_text)),
        ),
{
    let w = g(k);
    let w1 = g(k + 1);
    assert(all_white(w));
    assert(all_white(w1));
    let r1 = w1 + (seq![':'] + value_text);
    let s = seq!['"'] + key + seq!['"'] + r1;
    assert(entry_head(key, g, k) + value_text =~= w + s);
    lemma_lex_ws(w, s);
    let j: int = key.len() as int + 1;
    assert(s[j] == '"');
    assert forall|q: int| 1 <= q < j implies s[q] != '"' && s[q] != '\\' by {
        assert(s[q] == key[q - 1]);
    }
    lemma_quote_end_at(s, 1, j);
    assert(s.subrange(1, j) =~= key);
    lemma_lex_step(s);
    assert(s.subrange(j + 1, s.len() as int) =~= r1);
    lemma_lex_ws(w1, seq![':'] + value_text);
    lemma_lex_punct(':', TokenView::Colon, value_text);
}

/// Reading the entries of an object, followed by what may follow a value.
proof fn lemma_lex_entries(
    es: Seq<(Seq<char>, Doc)>,
    g: spec_fn(int) -> Seq<char>,
    k: int,
    rest: Seq<char>,
)
    requires
        entries_ok(es),
        white_gaps(g),
        boundary(rest),
    ensures
        lex_tokens(render_entries(es, g, k) + rest) == prepend(
            entries_tokens(es),
            lex_tokens(rest),
        ),
    decreases es, 1int,
{
    if es.len() == 0 {
        assert(render_entries(es, g, k) + rest =~= rest);
        if let Ok(x) = lex_tokens(rest) {
            assert(Seq::<TokenView>::empty() + x =~= x);
        }
    } else {
        let key = es[0].0;
        let v = es[0].1;
        let tail = es.subrange(1, es.len() as int);
        let n = doc_tokens(v).len() as int;
        let w = g(k + 2 + n);
        assert(all_white(w));
        let after: Seq<char> = if es.len() == 1 {
            rest
        } else {
            w + (seq![','] + (render_entries(tail, g, k + 3 + n) + rest))
        };
        let value_text = render(v, g, k + 2) + after;
        assert(render_entries(es, g, k) + rest =~= entry_head(key, g, k) + value_text);
        lemma_lex_key(key, g, k, value_text);
        lemma_lex_doc(v, g, k + 2, after);
        let head = seq![TokenView::Str(key), TokenView::Colon];
        assert(head =~= seq![TokenView::Str(key)] + seq![TokenView::Colon]);
        if es.len() == 1 {
            lemma_prepend_assoc(
                seq![TokenView::Str(key)],
                seq![TokenView::Colon],
                prepend(doc_tokens(v), lex_tokens(rest)),
            );
            lemma_prepend_assoc(head, doc_tokens(v), lex_tokens(rest));
            assert(entries_tokens(es) == head + doc_tokens(v));
        } else {
            let after2 = render_entries(tail, g, k + 3 + n) + rest;
            lemma_lex_ws(w, seq![','] + after2);
            lemma_lex_punct(',', TokenView::Comma, after2);
            lemma_lex_entries(tail, g, k + 3 + n, rest);
            let r = lex_tokens(rest);
            lemma_prepend_assoc(seq![TokenView::Comma], entries_tokens(tail), r);
            let more = seq![TokenView::Comma] + entries_tokens(tail);
            lemma_prepend_assoc(doc_tokens(v), more, r);
            lemma_prepend_assoc(
                seq![TokenView::Str(key)],
                seq![TokenView::Colon],
                prepend(doc_tokens(v) + more, r),
            );
            lemma_prepend_assoc(head, doc_tokens(v) + more, r);
            assert(tail == es.subrange(1, es.len() as int));
            assert(entries_tokens(es) == head + (doc_tokens(v) + more));
        }
    }
}

/// A document's first token can start a value.
proof fn lemma_first_token(d: Doc)
    ensures
        doc_tokens(d).len() > 0,
        !(doc_tokens(d)[0] is RightBracket || doc_tokens(d)[0] is RightBrace || doc_tokens(
            d,
        )[0] is Comma || doc_tokens(d)[0] is Colon),
{
    match d {
        Doc::Array(items) => {
            assert(doc_tokens(d)[0] == TokenView::LeftBracket);
        },
        Doc::Object(es) => {
            assert(doc_tokens(d)[0] == TokenView::LeftBrace);
        },
        _ => {},
    }
}

proof fn lemma_split(ts: Seq<TokenView>, q: int, a: Seq<TokenView>, b: Seq<TokenView>)
    requires
        0 <= q,
        q + a.len() + b.len() <= ts.len(),
        ts.subrange(q, q + a.len() + b.len()) == a + b,
    ensures
        ts.subrange(q, q + a.len()) == a,
        ts.subrange(q + a.len(), q + a.len() + b.len()) == b,
{
    let whole = ts.subrange(q, q + a.len() + b.len());
    assert forall|i: int| 0 <= i < a.len() implies ts.subrange(q, q + a.len())[i] == a[i] by {
        assert(whole[i] == (a + b)[i]);
    }
    assert forall|i: int| 0 <= i < b.len() implies ts.subrange(
        q + a.len(),
        q + a.len() + b.len(),
    )[i] == b[i] by {
        assert(whole[a.len() + i] == (a + b)[a.len() + i]);
    }
    assert(ts.subrange(q, q + a.len()) =~= a);
    assert(ts.subrange(q + a.len(), q + a.len() + b.len()) =~= b);
}

/// The tokens of a document, found at position `p`, read as its tree.
proof fn lemma_parse_doc(d: Doc, ts: Seq<TokenView>, p: int)
    requires
        0 <= p,
        p + doc_tokens(d).len() <= ts.len(),
        ts.subrange(p, p + doc_tokens(d).len()) == doc_tokens(d),
    ensures
        value_at(ts, p) == Ok::<(JsonValue, int), crate::value::ParseError>(
            (doc_value(d), p + doc_tokens(d).len()),
        ),
    decreases d, 0int,
{
    let n = doc_tokens(d).len();
    assert(ts[p] == ts.subrange(p, p + n)[0]);
    match d {
        Doc::Array(items) => {
            let inner = items_tokens(items);
            let m = inner.len();
            assert(doc_tokens(d) == seq![TokenView::LeftBracket] + (inner + seq![TokenView::RightBracket]));
            lemma_split(ts, p, seq![TokenView::LeftBracket], inner + seq![TokenView::RightBracket]);
            lemma_split(ts, p + 1, inner, seq![TokenView::RightBracket]);
            assert(ts[p + 1 + m] == ts.subrange(p + 1 + m, p + 1 + m + 1)[0]);
            lemma_parse_items(items, ts, p + 1, Seq::empty());
            assert(Seq::<JsonValue>::empty() + items_values(items) =~= items_values(items));
        },
        Doc::Object(es) => {
            let inner = entries_tokens(es);
            let m = inner.len();
            assert(doc_tokens(d) == seq![TokenView::LeftBrace] + (inner + seq![TokenView::RightBrace]));
            lemma_split(ts, p, seq![TokenView::LeftBrace], inner + seq![TokenView::RightBrace]);
            lemma_split(ts, p + 1, inner, seq![TokenView::RightBrace]);
            assert(ts[p + 1 + m] == ts.subrange(p + 1 + m, p + 1 + m + 1)[0]);
            lemma_parse_entries(es, ts, p + 1, Map::empty());
        },
        _ => {},
    }
}

/// The tokens of an array's elements, followed by `]`, read onto `acc`.
proof fn lemma_parse_items(items: Seq<Doc>, ts: Seq<TokenView>, q: int, acc: Seq<JsonValue>)
    requires
        0 <= q,
        q + items_tokens(items).len() < ts.len(),
        ts.subrange(q, q + items_tokens(items).len()) == items_tokens(items),
        ts[q + items_tokens(items).len()] is RightBracket,
    ensures
        array_from(ts, q, acc) == Ok::<(JsonValue, int), crate::value::ParseError>(
            (JsonValue::Array(acc + items_values(items)), q + items_tokens(items).len() + 1),
        ),
    decreases items, 1int,
{
    let m = items_tokens(items).len();
    if items.len() == 0 {
        assert(acc + items_values(items) =~= acc);
    } else {
        let x = items[0];
        let tail = items.subrange(1, items.len() as int);
        let nx = doc_tokens(x).len();
        lemma_first_token(x);
        if items.len() == 1 {
            assert(items_tokens(items) == doc_tokens(x));
        } else {
            assert(items_tokens(items) == doc_tokens(x) + (seq![TokenView::Comma] + items_tokens(tail)));
            lemma_split(ts, q, doc_tokens(x), seq![TokenView::Comma] + items_tokens(tail));
        }
        assert(ts[q] == ts.subrange(q, q + nx)[0]);
        lemma_parse_doc(x, ts, q);
        let v0 = doc_value(x);
        assert(items_values(items) == seq![v0] + items_values(tail));
        assert(array_from(ts, q, acc) == array_from(ts, q + nx, acc.push(v0)));
        if items.len() == 1 {
            assert(items_values(tail) =~= Seq::<JsonValue>::empty());
            assert(acc.push(v0) =~= acc + items_values(items));
        } else {
            lemma_split(ts, q + nx, seq![TokenView::Comma], items_tokens(tail));
            assert(ts[q + nx] == ts.subrange(q + nx, q + nx + 1)[0]);
            assert(array_from(ts, q + nx, acc.push(v0)) == array_from(ts, q + nx + 1, acc.push(v0)));
            lemma_parse_items(tail, ts, q + nx + 1, acc.push(v0));
            assert(acc.push(v0) + items_values(tail) =~= acc + items_values(items));
        }
    }
}

/// The tokens of an object's entries, followed by `}`, read into `acc`.
proof fn lemma_parse_entries(
    es: Seq<(Seq<char>, Doc)>,
    ts: Seq<TokenView>,
    q: int,
    acc: Map<Seq<char>, JsonValue>,
)
    requires
        0 <= q,
        q + entries_tokens(es).len() < ts.len(),
        ts.subrange(q, q + entries_tokens(es).len()) == entries_tokens(es),
        ts[q + entries_tokens(es).len()] is RightBrace,
    ensures
        object_from(ts, q, acc) == Ok::<(JsonValue, int), crate::value::ParseError>(
            (JsonValue::Object(entries_fold(acc, es)), q + entries_tokens(es).len() + 1),
        ),
    decreases es, 1int,
{
    let m = entries_tokens(es).len();
    if es.len() > 0 {
        let k = es[0].0;
        let v = es[0].1;
        let tail = es.subrange(1, es.len() as int);
        let head = seq![TokenView::Str(k), TokenView::Colon];
        let nv = doc_tokens(v).len();
        let more = seq![TokenView::Comma] + entries_tokens(tail);
        if es.len() == 1 {
            assert(entries_tokens(es) == head + doc_tokens(v));
            lemma_split(ts, q, head, doc_tokens(v));
        } else {
            assert(entries_tokens(es) == head + (doc_tokens(v) + more));
            lemma_split(ts, q, head, doc_tokens(v) + more);
            lemma_split(ts, q + 2, doc_tokens(v), more);
        }
        assert(ts[q] == ts.subrange(q, q + 2)[0]);
        assert(ts[q + 1] == ts.subrange(q, q + 2)[1]);
        lemma_parse_doc(v, ts, q + 2);
        let acc2 = acc.insert(k, doc_value(v));
        assert(entries_fold(acc, es) == entries_fold(acc2, tail));
        assert(object_from(ts, q, acc) == object_from(ts, q + 2 + nv, acc2));
        if es.len() == 1 {
            assert(entries_fold(acc2, tail) == acc2);
        } else {
            lemma_split(ts, q + 2 + nv, seq![TokenView::Comma], entries_tokens(tail));
            assert(ts[q + 2 + nv] == ts.subrange(q + 2 + nv, q + 2 + nv + 1)[0]);
            assert(object_from(ts, q + 2 + nv, acc2) == object_from(ts, q + 2 + nv + 1, acc2));
            lemma_parse_entries(tail, ts, q + 2 + nv + 1, acc2);
        }
    }
}

/// Reading the text of a valid document gives the document's tree: strings
/// without quotes or backslashes, integer and decimal literals, `true`,
/// `false` and `null`, nested in arrays and objects, all parse, and to the
/// expected shape, whatever white space (none, or any, and different in each
/// place) stands before each token and at the end.
pub proof fn lemma_rendered_document_parses(d: Doc, g: spec_fn(int) -> Seq<char>)
    requires
        doc_ok(d),
        white_gaps(g),
    ensures
        parse_text(render(d, g, 0) + g(doc_tokens(d).len() as int))
            == Ok::<JsonValue, crate::value::ParseError>(doc_value(d)),
{
    let e = Seq::<char>::empty();
    let w = g(doc_tokens(d).len() as int);
    assert(all_white(w));
    lemma_lex_doc(d, g, 0, w);
    lemma_lex_ws(w, e);
    assert(w + e =~= w);
    assert(skip_ws(e).len() == 0);
    assert(lex_tokens(e) == Ok::<Seq<TokenView>, crate::value::LexError>(Seq::empty()));
    let ts = doc_tokens(d);
    assert(ts + Seq::<TokenView>::empty() =~= ts);
    lemma_first_token(d);
    assert(ts.subrange(0, ts.len() as int) =~= ts);
    lemma_parse_doc(d, ts, 0);
}

/// Two texts of one document that differ only in the white space around
/// their tokens read as equal trees.
pub proof fn lemma_white_space_insensitive(
    d: Doc,
    g1: spec_fn(int) -> Seq<char>,
    g2: spec_fn(int) -> Seq<char>,
)
    requires
        doc_ok(d),
        white_gaps(g1),
        white_gaps(g2),
    ensures
        parse_text(render(d, g1, 0) + g1(doc_tokens(d).len() as int)) == parse_text(
            render(d, g2, 0) + g2(doc_tokens(d).len() as int),
        ),
{
    lemma_rendered_document_parses(d, g1);
    lemma_rendered_document_parses(d, g2);
}

} // verus!
