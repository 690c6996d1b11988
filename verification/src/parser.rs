use vstd::prelude::*;

use crate::token::{kind_of_char, kind_text, KindView, Token, TokenKind, TokenView};
use crate::lexer::{chars_of, lemma_lex_statement, spec_filter, spec_tokenize, tokens_view};
use crate::literal::{
    int_literal_value, int_text_bytes, is_float_literal, is_int_literal, is_float_text,
    lemma_int_text_bytes, parse_i64,
};
use crate::node::{
    entries_view, entries_wf, insert_entry, keys_unique, lemma_nodes_view_push,
    lemma_nodes_wf_index, merge_entries, nodes_view, nodes_wf, path_view, spec_chain, spec_merge,
    Ast, Node, Value,
};

verus! {

/// Mathematical model of a parse error, over token models and plain text.
pub enum ErrorView {
    MissingValueAfterDeclaration(TokenView),
    MissingToken(KindView, TokenView),
    MismatchedTokenType(KindView, TokenView),
    InvalidToken(TokenView),
    InvalidSymbol(Seq<char>),
    BrokenString(TokenView),
    UnclosedString(TokenView),
    TrailingComma(TokenView),
    ScopeInsideDict(TokenView),
    UnexpectedEOF(TokenView),
    UnreachableToken(TokenView),
}

/// A parse error, carrying the offending token or text for diagnostics.
#[derive(Debug)]
pub enum ParserError {
    MissingValueAfterDeclaration(Token),
    MissingToken(TokenKind, Token),
    MismatchedTokenType(TokenKind, Token),
    InvalidToken(Token),
    InvalidSymbol(String),
    BrokenString(Token),
    UnclosedString(Token),
    TrailingComma(Token),
    ScopeInsideDict(Token),
    UnexpectedEOF(Token),
    UnreachableToken(Token),
}

impl ParserError {
    /// The model of this error.
    pub open spec fn view(&self) -> ErrorView {
        match self {
            ParserError::MissingValueAfterDeclaration(t) => ErrorView::MissingValueAfterDeclaration(
                t.view(),
            ),
            ParserError::MissingToken(k, t) => ErrorView::MissingToken(k.view(), t.view()),
            ParserError::MismatchedTokenType(k, t) => ErrorView::MismatchedTokenType(
                k.view(),
                t.view(),
            ),
            ParserError::InvalidToken(t) => ErrorView::InvalidToken(t.view()),
            ParserError::InvalidSymbol(s) => ErrorView::InvalidSymbol(s@),
            ParserError::BrokenString(t) => ErrorView::BrokenString(t.view()),
            ParserError::UnclosedString(t) => ErrorView::UnclosedString(t.view()),
            ParserError::TrailingComma(t) => ErrorView::TrailingComma(t.view()),
            ParserError::ScopeInsideDict(t) => ErrorView::ScopeInsideDict(t.view()),
            ParserError::UnexpectedEOF(t) => ErrorView::UnexpectedEOF(t.view()),
            ParserError::UnreachableToken(t) => ErrorView::UnreachableToken(t.view()),
        }
    }
}

/// The stand-in token reported when input runs out where a token was
/// expected and none exists to point at.
pub open spec fn no_token() -> TokenView {
    TokenView { kind: KindView::Symbol(Seq::empty()), line: 0, character: 0, length: 0 }
}

/// Resolves a symbol's text as a literal: the three keywords first, then a
/// signed 64-bit integer, then a float literal kept as its text; anything
/// else is an invalid symbol.
pub open spec fn spec_resolve(s: Seq<char>) -> Result<Value, ErrorView> {
    if s == seq!['t', 'r', 'u', 'e'] {
        Ok(Value::Bool(true))
    } else if s == seq!['f', 'a', 'l', 's', 'e'] {
        Ok(Value::Bool(false))
    } else if s == seq!['n', 'u', 'l', 'l'] {
        Ok(Value::Null)
    } else if is_int_literal(s) {
        Ok(Value::Integer(int_literal_value(s)))
    } else if is_float_literal(s) {
        Ok(Value::Float(s))
    } else {
        Err(ErrorView::InvalidSymbol(s))
    }
}

/// Parses one symbol value. When a dot with one more token follows the
/// leading token, the two texts are glued with a literal dot between them
/// and the glued text is resolved; otherwise the leading token must be a
/// symbol and its own text is resolved.
pub open spec fn spec_parse_symbol(ts: Seq<TokenView>) -> Result<
    (Value, Seq<TokenView>),
    ErrorView,
> {
    if ts.len() == 0 {
        Err(ErrorView::UnexpectedEOF(no_token()))
    } else if ts.len() >= 2 && ts[1].kind is Dot {
        if ts.len() == 2 {
            Err(ErrorView::MissingToken(KindView::Symbol(Seq::empty()), ts[1]))
        } else {
            let text = kind_text(ts[0].kind) + seq!['.'] + kind_text(ts[2].kind);
            match spec_resolve(text) {
                Ok(v) => Ok((v, ts.skip(3))),
                Err(e) => Err(e),
            }
        }
    } else {
        match ts[0].kind {
            KindView::Symbol(s) => match spec_resolve(s) {
                Ok(v) => Ok((v, ts.skip(1))),
                Err(e) => Err(e),
            },
            _ => Err(ErrorView::InvalidToken(ts[0])),
        }
    }
}

/// Scans a string body at the parser level: tokens are appended verbatim, a
/// backslash appends the following token's text, a quote closes the string,
/// and a raw newline breaks it. A body token with nothing after it leaves
/// the string unclosed; input that simply runs out yields what has been
/// gathered.
pub open spec fn spec_string_body(ts: Seq<TokenView>, acc: Seq<char>) -> Result<
    (Value, Seq<TokenView>),
    ErrorView,
>
    decreases ts.len(),
{
    if ts.len() == 0 {
        Ok((Value::String(acc), Seq::empty()))
    } else {
        let t = ts[0];
        if t.kind is Quote {
            Ok((Value::String(acc), ts.skip(1)))
        } else if t.kind is NewLine {
            Err(ErrorView::BrokenString(t))
        } else if ts.len() == 1 {
            Err(ErrorView::UnclosedString(t))
        } else if t.kind is BackSlash {
            spec_string_body(ts.skip(2), acc + kind_text(ts[1].kind))
        } else {
            spec_string_body(ts.skip(1), acc + kind_text(t.kind))
        }
    }
}

/// Parses one string value: the leading quote is skipped, then the body is
/// scanned.
pub open spec fn spec_parse_string(ts: Seq<TokenView>) -> Result<
    (Value, Seq<TokenView>),
    ErrorView,
> {
    if ts.len() == 0 {
        Ok((Value::String(Seq::empty()), Seq::empty()))
    } else {
        spec_string_body(ts.skip(1), Seq::empty())
    }
}

/// Parses the items of an array after its opening bracket: separators are
/// skipped, a closing bracket ends the array, and any token that can start
/// a value starts one item. Input that runs out ends the array.
pub open spec fn spec_array_items(ts: Seq<TokenView>, acc: Seq<Value>) -> Result<
    (Value, Seq<TokenView>),
    ErrorView,
>
    decreases ts.len(), 4int,
{
    if ts.len() == 0 {
        Ok((Value::Array(acc), Seq::empty()))
    } else {
        let t = ts[0];
        match t.kind {
            KindView::CloseBracket => Ok((Value::Array(acc), ts.skip(1))),
            KindView::NewLine => spec_array_items(ts.skip(1), acc),
            KindView::Space => spec_array_items(ts.skip(1), acc),
            KindView::Tab => spec_array_items(ts.skip(1), acc),
            KindView::Comma => spec_array_items(ts.skip(1), acc),
            KindView::Symbol(_) => spec_array_value(ts, acc),
            KindView::Quote => spec_array_value(ts, acc),
            KindView::OpenBracket => spec_array_value(ts, acc),
            KindView::OpenCurly => spec_array_value(ts, acc),
            _ => Err(ErrorView::InvalidToken(t)),
        }
    }
}

/// One array item: parse a value and continue with the rest of the items.
pub open spec fn spec_array_value(ts: Seq<TokenView>, acc: Seq<Value>) -> Result<
    (Value, Seq<TokenView>),
    ErrorView,
>
    decreases ts.len(), 3int,
{
    match spec_parse_value(ts) {
        Ok((v, rest)) => if rest.len() < ts.len() {
            spec_array_items(rest, acc.push(v))
        } else {
            // a parsed value always consumes input; see the consumption
            // lemma below
            arbitrary()
        },
        Err(e) => Err(e),
    }
}

/// Parses one array value: the opening bracket is skipped, then the items.
pub open spec fn spec_parse_array(ts: Seq<TokenView>) -> Result<(Value, Seq<TokenView>), ErrorView>
    decreases ts.len(), 1int,
{
    if ts.len() == 0 {
        Ok((Value::Array(Seq::empty()), Seq::empty()))
    } else {
        spec_array_items(ts.skip(1), Seq::empty())
    }
}

/// Parses the entries of an inline dictionary after its opening brace:
/// separators are skipped, a closing brace ends it, and each entry is a
/// leading dot, a symbol key, a colon and a value. Scope syntax is illegal
/// inside an inline dictionary: a second colon right after an entry's
/// colon fails, and so does a colon met at entry position once some
/// entry's value has been parsed (`seen` records that).
pub open spec fn spec_dict_items(
    ts: Seq<TokenView>,
    acc: Map<Seq<char>, Value>,
    seen: bool,
) -> Result<(Value, Seq<TokenView>), ErrorView>
    decreases ts.len(), 4int,
{
    if ts.len() == 0 {
        Ok((Value::Dict(acc), Seq::empty()))
    } else {
        let t = ts[0];
        match t.kind {
            KindView::CloseCurly => Ok((Value::Dict(acc), ts.skip(1))),
            KindView::NewLine => spec_dict_items(ts.skip(1), acc, seen),
            KindView::Space => spec_dict_items(ts.skip(1), acc, seen),
            KindView::Tab => spec_dict_items(ts.skip(1), acc, seen),
            KindView::Comma => spec_dict_items(ts.skip(1), acc, seen),
            KindView::Colon => if seen {
                Err(ErrorView::ScopeInsideDict(t))
            } else {
                Err(ErrorView::InvalidToken(t))
            },
            KindView::Dot => {
                if ts.len() == 1 {
                    Err(ErrorView::UnexpectedEOF(t))
                } else {
                    let kt = ts[1];
                    match kt.kind {
                        KindView::Symbol(key) => {
                            if ts.len() == 2 {
                                Err(ErrorView::UnexpectedEOF(kt))
                            } else {
                                let ct = ts[2];
                                if ct.kind is Colon {
                                    if ts.len() == 3 {
                                        Err(ErrorView::UnexpectedEOF(ct))
                                    } else if ts[3].kind is Colon {
                                        Err(ErrorView::ScopeInsideDict(ts[3]))
                                    } else {
                                        spec_dict_value(ts, key, acc)
                                    }
                                } else {
                                    Err(ErrorView::MismatchedTokenType(KindView::Colon, kt))
                                }
                            }
                        },
                        _ => Err(
                            ErrorView::MismatchedTokenType(KindView::Symbol(Seq::empty()), kt),
                        ),
                    }
                }
            },
            _ => Err(ErrorView::InvalidToken(t)),
        }
    }
}

/// One dictionary entry's value: parse it after the dot, key and colon, and
/// continue with the remaining entries, the entry bound in the mapping.
pub open spec fn spec_dict_value(
    ts: Seq<TokenView>,
    key: Seq<char>,
    acc: Map<Seq<char>, Value>,
) -> Result<(Value, Seq<TokenView>), ErrorView>
    decreases ts.len(), 3int,
    when ts.len() > 3
{
    match spec_parse_value(ts.skip(3)) {
        Ok((v, rest)) => if rest.len() < ts.len() {
            spec_dict_items(rest, acc.insert(key, v), true)
        } else {
            // a parsed value always consumes input; see the consumption
            // lemma below
            arbitrary()
        },
        Err(e) => Err(e),
    }
}

/// Parses one inline dictionary value: the opening brace is skipped, then
/// the entries.
pub open spec fn spec_parse_dict(ts: Seq<TokenView>) -> Result<(Value, Seq<TokenView>), ErrorView>
    decreases ts.len(), 1int,
{
    if ts.len() == 0 {
        Ok((Value::Dict(Map::empty()), Seq::empty()))
    } else {
        spec_dict_items(ts.skip(1), Map::empty(), false)
    }
}

/// Parses one value, dispatching on the first token: a symbol literal, a
/// quoted string, an array or an inline dictionary.
pub open spec fn spec_parse_value(ts: Seq<TokenView>) -> Result<(Value, Seq<TokenView>), ErrorView>
    decreases ts.len(), 2int,
{
    if ts.len() == 0 {
        Err(ErrorView::UnexpectedEOF(no_token()))
    } else {
        match ts[0].kind {
            KindView::Symbol(_) => spec_parse_symbol(ts),
            KindView::Quote => spec_parse_string(ts),
            KindView::OpenBracket => spec_parse_array(ts),
            KindView::OpenCurly => spec_parse_dict(ts),
            _ => Err(ErrorView::UnreachableToken(ts[0])),
        }
    }
}

proof fn lemma_consume_body(ts: Seq<TokenView>, acc: Seq<char>)
    ensures
        spec_string_body(ts, acc) matches Ok(p) ==> p.1.len() <= ts.len(),
    decreases ts.len(),
{
    if ts.len() > 0 {
        let t = ts[0];
        if t.kind is Quote || t.kind is NewLine || ts.len() == 1 {
        } else if t.kind is BackSlash {
            lemma_consume_body(ts.skip(2), acc + kind_text(ts[1].kind));
        } else {
            lemma_consume_body(ts.skip(1), acc + kind_text(t.kind));
        }
    }
}

proof fn lemma_consume_array_items(ts: Seq<TokenView>, acc: Seq<Value>)
    ensures
        spec_array_items(ts, acc) matches Ok(p) ==> p.1.len() <= ts.len(),
    decreases ts.len(), 4int,
{
    if ts.len() > 0 {
        let t = ts[0];
        match t.kind {
            KindView::NewLine => lemma_consume_array_items(ts.skip(1), acc),
            KindView::Space => lemma_consume_array_items(ts.skip(1), acc),
            KindView::Tab => lemma_consume_array_items(ts.skip(1), acc),
            KindView::Comma => lemma_consume_array_items(ts.skip(1), acc),
            KindView::Symbol(_) => lemma_consume_array_value(ts, acc),
            KindView::Quote => lemma_consume_array_value(ts, acc),
            KindView::OpenBracket => lemma_consume_array_value(ts, acc),
            KindView::OpenCurly => lemma_consume_array_value(ts, acc),
            _ => {},
        }
    }
}

proof fn lemma_consume_array_value(ts: Seq<TokenView>, acc: Seq<Value>)
    ensures
        spec_array_value(ts, acc) matches Ok(p) ==> p.1.len() <= ts.len(),
    decreases ts.len(), 3int,
{
    lemma_consume_value(ts);
    match spec_parse_value(ts) {
        Ok((v, rest)) => {
            if rest.len() < ts.len() {
                lemma_consume_array_items(rest, acc.push(v));
            }
        },
        Err(_) => {},
    }
}

proof fn lemma_consume_dict_items(ts: Seq<TokenView>, acc: Map<Seq<char>, Value>, seen: bool)
    ensures
        spec_dict_items(ts, acc, seen) matches Ok(p) ==> p.1.len() <= ts.len(),
    decreases ts.len(), 4int,
{
    if ts.len() > 0 {
        let t = ts[0];
        match t.kind {
            KindView::NewLine => lemma_consume_dict_items(ts.skip(1), acc, seen),
            KindView::Space => lemma_consume_dict_items(ts.skip(1), acc, seen),
            KindView::Tab => lemma_consume_dict_items(ts.skip(1), acc, seen),
            KindView::Comma => lemma_consume_dict_items(ts.skip(1), acc, seen),
            KindView::Dot => {
                if ts.len() > 3 && ts[1].kind is Symbol && ts[2].kind is Colon && !(ts[3].kind
                    is Colon) {
                    lemma_consume_dict_value(ts, ts[1].kind->Symbol_0, acc);
                }
            },
            _ => {},
        }
    }
}

proof fn lemma_consume_dict_value(ts: Seq<TokenView>, key: Seq<char>, acc: Map<Seq<char>, Value>)
    requires
        ts.len() > 3,
    ensures
        spec_dict_value(ts, key, acc) matches Ok(p) ==> p.1.len() <= ts.len(),
    decreases ts.len(), 3int,
{
    lemma_consume_value(ts.skip(3));
    match spec_parse_value(ts.skip(3)) {
        Ok((v, rest)) => {
            if rest.len() < ts.len() {
                lemma_consume_dict_items(rest, acc.insert(key, v), true);
            }
        },
        Err(_) => {},
    }
}

/// A successful value parse always consumes at least one token.
pub proof fn lemma_consume_value(ts: Seq<TokenView>)
    ensures
        spec_parse_value(ts) matches Ok(p) ==> p.1.len() < ts.len(),
    decreases ts.len(), 2int,
{
    if ts.len() > 0 {
        match ts[0].kind {
            KindView::Symbol(_) => {},
            KindView::Quote => {
                lemma_consume_body(ts.skip(1), Seq::empty());
            },
            KindView::OpenBracket => {
                lemma_consume_array_items(ts.skip(1), Seq::empty());
            },
            KindView::OpenCurly => {
                lemma_consume_dict_items(ts.skip(1), Map::empty(), false);
            },
            _ => {},
        }
    }
}

/// Parses the statements of a document. A newline between statements is
/// skipped. A symbol followed by an equals sign binds the parsed value: at
/// the top level when no scope path is pending, or merged along the pending
/// path extended by the key, after which the path is cleared. A symbol
/// followed by two colons pushes the key onto the pending scope path.
pub open spec fn spec_parse_doc(
    ts: Seq<TokenView>,
    scopes: Option<Seq<Seq<char>>>,
    acc: Map<Seq<char>, Value>,
) -> Result<Map<Seq<char>, Value>, ErrorView>
    decreases ts.len(),
{
    if ts.len() == 0 {
        Ok(acc)
    } else {
        let t = ts[0];
        match t.kind {
            KindView::NewLine => spec_parse_doc(ts.skip(1), scopes, acc),
            KindView::Symbol(sym) => {
                if ts.len() == 1 {
                    Err(ErrorView::UnexpectedEOF(t))
                } else {
                    let n = ts[1];
                    match n.kind {
                        KindView::Equals => {
                            if ts.len() == 2 {
                                Err(ErrorView::MissingValueAfterDeclaration(t))
                            } else {
                                match spec_parse_value(ts.skip(2)) {
                                    Ok((v, rest)) => if rest.len() < ts.len() {
                                        let acc2 = match scopes {
                                            Option::None => acc.insert(sym, v),
                                            Option::Some(path) => spec_merge(
                                                acc,
                                                path.push(sym),
                                                v,
                                            ),
                                        };
                                        spec_parse_doc(rest, Option::None, acc2)
                                    } else {
                                        // a parsed value always consumes
                                        // input; see the consumption lemma
                                        arbitrary()
                                    },
                                    Err(e) => Err(e),
                                }
                            }
                        },
                        KindView::Colon => {
                            if ts.len() == 2 {
                                Err(ErrorView::UnexpectedEOF(n))
                            } else if ts[2].kind is Colon {
                                let scopes2 = match scopes {
                                    Option::None => seq![sym],
                                    Option::Some(p) => p.push(sym),
                                };
                                spec_parse_doc(ts.skip(3), Option::Some(scopes2), acc)
                            } else {
                                Err(ErrorView::MismatchedTokenType(KindView::Colon, t))
                            }
                        },
                        _ => Err(ErrorView::UnreachableToken(t)),
                    }
                }
            },
            KindView::Dot => Err(ErrorView::InvalidToken(t)),
            _ => Err(ErrorView::UnreachableToken(t)),
        }
    }
}

/// The whole document: statements over an empty mapping, no scope path
/// pending.
pub open spec fn spec_parse(ts: Seq<TokenView>) -> Result<Map<Seq<char>, Value>, ErrorView> {
    spec_parse_doc(ts, Option::None, Map::empty())
}

/// Law: scalar integer literals round-trip through a whole statement. For
/// every signed 64-bit value, a document of one statement that binds the
/// value's canonical decimal text parses to the mapping holding exactly
/// that integer under the key.
pub proof fn lemma_parse_integer_statement(ts: Seq<TokenView>, key: Seq<char>, v: int)
    requires
        i64::MIN <= v <= i64::MAX,
        ts.len() == 3,
        ts[0].kind == KindView::Symbol(key),
        ts[1].kind is Equals,
        ts[2].kind == KindView::Symbol(crate::literal::int_text(v)),
    ensures
        spec_parse(ts) == Ok::<Map<Seq<char>, Value>, ErrorView>(
            Map::<Seq<char>, Value>::empty().insert(key, Value::Integer(v)),
        ),
{
    let text = crate::literal::int_text(v);
    crate::literal::lemma_int_round_trip(v);
    assert(text.len() >= 1 && (text[0] == '-' || crate::literal::is_digit(text[0]))) by {
        if v >= 0 {
            crate::literal::lemma_nat_text(v);
        } else {
            crate::literal::lemma_nat_text(-v);
        }
    }
    assert(text != seq!['t', 'r', 'u', 'e'] && text != seq!['f', 'a', 'l', 's', 'e'] && text
        != seq!['n', 'u', 'l', 'l']) by {
        assert(seq!['t', 'r', 'u', 'e'][0] == 't');
        assert(seq!['f', 'a', 'l', 's', 'e'][0] == 'f');
        assert(seq!['n', 'u', 'l', 'l'][0] == 'n');
    }
    assert(spec_resolve(text) == Ok::<Value, ErrorView>(Value::Integer(v)));
    let tail = ts.skip(2);
    assert(tail.len() == 1 && tail[0] == ts[2]);
    assert(tail.skip(1) =~= Seq::<TokenView>::empty());
    assert(spec_parse_symbol(tail) == Ok::<(Value, Seq<TokenView>), ErrorView>(
        (Value::Integer(v), tail.skip(1)),
    ));
    assert(spec_parse_value(tail) == Ok::<(Value, Seq<TokenView>), ErrorView>(
        (Value::Integer(v), tail.skip(1)),
    ));
    let acc2 = Map::<Seq<char>, Value>::empty().insert(key, Value::Integer(v));
    assert(spec_parse_doc(tail.skip(1), Option::None, acc2) == Ok::<
        Map<Seq<char>, Value>,
        ErrorView,
    >(acc2));
}

/// Law: scalar integer literals round-trip through the whole pipeline. For
/// every signed 64-bit value, a buffer holding a symbol key, a space, an
/// equals sign, a space and the value's canonical decimal text lexes and
/// parses to the mapping that binds exactly that integer under the key.
pub proof fn lemma_pipeline_integer_statement(key: Seq<u8>, v: int)
    requires
        i64::MIN <= v <= i64::MAX,
        key.len() > 0,
        forall|j: int|
            0 <= j < key.len() ==> kind_of_char((#[trigger] key[j]) as char) is Symbol,
    ensures
        ({
            let buffer = key + seq![32u8] + seq![61u8] + seq![32u8] + int_text_bytes(v);
            spec_parse(spec_filter(spec_tokenize(buffer))) == Ok::<
                Map<Seq<char>, Value>,
                ErrorView,
            >(Map::<Seq<char>, Value>::empty().insert(chars_of(key), Value::Integer(v)))
        }),
{
    let text = int_text_bytes(v);
    lemma_int_text_bytes(v);
    assert(chars_of(text) =~= crate::literal::int_text(v));
    assert forall|j: int| 0 <= j < text.len() implies kind_of_char(
        (#[trigger] text[j]) as char,
    ) is Symbol by {
        assert((text[j] as char) == crate::literal::int_text(v)[j]);
        crate::literal::lemma_nat_text(if v < 0 {
            -v
        } else {
            v
        });
        if v < 0 && j == 0 {
            assert((text[j] as char) == '-');
        } else {
            if v < 0 {
                assert(crate::literal::int_text(v)[j] == crate::literal::nat_text(-v)[j - 1]);
            }
            assert(crate::literal::is_digit(text[j] as char));
        }
    }
    lemma_lex_statement(key, text);
    let buffer = key + seq![32u8] + seq![61u8] + seq![32u8] + text;
    let out = spec_filter(spec_tokenize(buffer));
    lemma_parse_integer_statement(out, chars_of(key), v);
}

impl Node {
    /// Resolves a symbol's text as a literal node: true, false and null
    /// exactly, else a signed 64-bit integer, else a float literal kept as
    /// its text, else an invalid-symbol error carrying the text.
    pub fn from_text(text: String) -> (r: Result<Node, ParserError>)
        ensures
            match spec_resolve(text@) {
                Ok(v) => r matches Ok(n) && n.view() == v && n.wf(),
                Err(e) => r matches Err(pe) && pe.view() == e,
            },
    {
        proof {
            reveal_strlit("true");
            reveal_strlit("false");
            reveal_strlit("null");
        }
        let word_true: String = String::from_str("true");
        let word_false: String = String::from_str("false");
        let word_null: String = String::from_str("null");
        proof {
            assert("true"@ =~= seq!['t', 'r', 'u', 'e']);
            assert("false"@ =~= seq!['f', 'a', 'l', 's', 'e']);
            assert("null"@ =~= seq!['n', 'u', 'l', 'l']);
        }
        if text.eq(&word_true) {
            Ok(Node::Bool(true))
        } else if text.eq(&word_false) {
            Ok(Node::Bool(false))
        } else if text.eq(&word_null) {
            Ok(Node::Null)
        } else {
            match parse_i64(text.as_str()) {
                Some(v) => Ok(Node::Integer(v)),
                None => {
                    if is_float_text(text.as_str()) {
                        Ok(Node::Float(text))
                    } else {
                        Err(ParserError::InvalidSymbol(text))
                    }
                },
            }
        }
    }
}

/// A cursor over a cleaned token stream, from which the value grammar is
/// parsed.
pub struct ParseTokens<'a> {
    pub tokens: &'a [Token],
    pub cursor: usize,
}

impl<'a> ParseTokens<'a> {
    /// The tokens not yet consumed.
    pub open spec fn rem(self) -> Seq<TokenView> {
        tokens_view(self.tokens@).skip(self.cursor as int)
    }

    /// The cursor lies within the stream.
    pub open spec fn valid(self) -> bool {
        self.cursor <= self.tokens@.len()
    }

    /// A cursor at the start of a stream.
    pub fn new(tokens: &'a [Token]) -> (r: ParseTokens<'a>)
        ensures
            r.tokens@ == tokens@,
            r.cursor == 0,
            r.valid(),
            r.rem() == tokens_view(tokens@),
    {
        proof {
            assert(tokens_view(tokens@).skip(0) =~= tokens_view(tokens@));
        }
        ParseTokens { tokens, cursor: 0 }
    }

    proof fn lemma_rem_index(self, k: int)
        requires
            self.valid(),
            0 <= k < self.rem().len(),
        ensures
            self.rem()[k] == self.tokens@[self.cursor + k].view(),
    {
        assert(self.rem()[k] == tokens_view(self.tokens@)[self.cursor + k]);
    }

    proof fn lemma_rem_skip(self, other: ParseTokens<'a>, n: int)
        requires
            self.valid(),
            other.valid(),
            other.tokens@ == self.tokens@,
            0 <= n,
            other.cursor == self.cursor + n,
        ensures
            other.rem() =~= self.rem().skip(n),
    {
    }

    /// Parses one symbol literal, gluing a dotted pair of tokens into one
    /// text when a dot follows.
    pub fn parse_symbol(&mut self) -> (r: Result<Node, ParserError>)
        requires
            old(self).valid(),
            old(self).rem().len() > 0,
        ensures
            final(self).valid(),
            final(self).tokens == old(self).tokens,
            match spec_parse_symbol(old(self).rem()) {
                Ok(p) => r matches Ok(n) && n.view() == p.0 && n.wf() && final(self).rem() == p.1,
                Err(e) => r matches Err(pe) && pe.view() == e,
            },
    {
        let ghost ts = old(self).rem();
        let c = self.cursor;
        let n = self.tokens.len();
        proof {
            self.lemma_rem_index(0);
            if ts.len() >= 2 {
                self.lemma_rem_index(1);
            }
            if ts.len() >= 3 {
                self.lemma_rem_index(2);
            }
        }
        let has_dot = c + 1 < n && matches!(self.tokens[c + 1].kind, TokenKind::Dot);
        if has_dot {
            if c + 2 >= n {
                let dot = self.tokens[c + 1].clone();
                self.cursor = c + 2;
                return Err(ParserError::MissingToken(TokenKind::Symbol(String::new()), dot));
            }
            let left = self.tokens[c].kind.as_str();
            let right = self.tokens[c + 2].kind.as_str();
            let mut glued = String::from_str(left);
            proof {
                reveal_strlit(".");
            }
            glued.append(".");
            glued.append(right);
            proof {
                assert("."@ =~= seq!['.']);
                assert(glued@ == kind_text(ts[0].kind) + seq!['.'] + kind_text(ts[2].kind));
            }
            self.cursor = c + 3;
            proof {
                old(self).lemma_rem_skip(*self, 3);
            }
            Node::from_text(glued)
        } else {
            match &self.tokens[c].kind {
                TokenKind::Symbol(s) => {
                    let text = s.clone();
                    self.cursor = c + 1;
                    proof {
                        old(self).lemma_rem_skip(*self, 1);
                    }
                    Node::from_text(text)
                },
                _ => {
                    let bad = self.tokens[c].clone();
                    self.cursor = c + 1;
                    Err(ParserError::InvalidToken(bad))
                },
            }
        }
    }

    /// Parses one quoted string: the opening quote is skipped, the body is
    /// gathered until the closing quote, a backslash takes the following
    /// token's text verbatim, and a raw newline breaks the string.
    pub fn parse_string(&mut self) -> (r: Result<Node, ParserError>)
        requires
            old(self).valid(),
        ensures
            final(self).valid(),
            final(self).tokens == old(self).tokens,
            match spec_parse_string(old(self).rem()) {
                Ok(p) => r matches Ok(n) && n.view() == p.0 && n.wf() && final(self).rem() == p.1,
                Err(e) => r matches Err(pe) && pe.view() == e,
            },
    {
        let ghost ts = old(self).rem();
        let n = self.tokens.len();
        if self.cursor >= n {
            proof {
                assert(final(self).rem() =~= Seq::<TokenView>::empty());
            }
            return Ok(Node::String(String::new()));
        }
        // skip the opening quote position
        self.cursor = self.cursor + 1;
        proof {
            old(self).lemma_rem_skip(*self, 1);
        }
        let mut text = String::new();
        while self.cursor < n
            invariant
                self.valid(),
                n == self.tokens@.len(),
                self.tokens == old(self).tokens,
                ts == old(self).rem(),
                ts.len() > 0,
                spec_parse_string(ts) == spec_string_body(self.rem(), text@),
            decreases n - self.cursor,
        {
            let c = self.cursor;
            let ghost cur = self.rem();
            proof {
                self.lemma_rem_index(0);
                if cur.len() >= 2 {
                    self.lemma_rem_index(1);
                }
            }
            if matches!(self.tokens[c].kind, TokenKind::Quote) {
                self.cursor = c + 1;
                proof {
                    ParseTokens { tokens: self.tokens, cursor: c }.lemma_rem_skip(*self, 1);
                }
                return Ok(Node::String(text));
            }
            if matches!(self.tokens[c].kind, TokenKind::NewLine) {
                return Err(ParserError::BrokenString(self.tokens[c].clone()));
            }
            if c + 1 >= n {
                proof {
                    assert(cur.len() == 1);
                }
                return Err(ParserError::UnclosedString(self.tokens[c].clone()));
            }
            if matches!(self.tokens[c].kind, TokenKind::BackSlash) {
                let piece = self.tokens[c + 1].kind.as_str();
                text.append(piece);
                self.cursor = c + 2;
                proof {
                    ParseTokens { tokens: self.tokens, cursor: c }.lemma_rem_skip(*self, 2);
                }
            } else {
                let piece = self.tokens[c].kind.as_str();
                text.append(piece);
                self.cursor = c + 1;
                proof {
                    ParseTokens { tokens: self.tokens, cursor: c }.lemma_rem_skip(*self, 1);
                }
            }
        }
        proof {
            assert(self.rem() =~= Seq::<TokenView>::empty());
        }
        Ok(Node::String(text))
    }

    /// Parses one value, dispatching on the token under the cursor.
    pub fn parse_value(&mut self) -> (r: Result<Node, ParserError>)
        requires
            old(self).valid(),
        ensures
            final(self).valid(),
            final(self).tokens == old(self).tokens,
            match spec_parse_value(old(self).rem()) {
                Ok(p) => r matches Ok(n) && n.view() == p.0 && n.wf() && final(self).rem() == p.1,
                Err(e) => r matches Err(pe) && pe.view() == e,
            },
        decreases self.tokens@.len() - self.cursor, 2int,
    {
        let c = self.cursor;
        if c >= self.tokens.len() {
            proof {
                assert(old(self).rem().len() == 0);
            }
            return Err(
                ParserError::UnexpectedEOF(
                    Token::new(
                        TokenKind::Symbol(String::new()),
                        crate::token::TokenPosition { line: 0, character: 0, length: 0 },
                    ),
                ),
            );
        }
        proof {
            self.lemma_rem_index(0);
        }
        if matches!(self.tokens[c].kind, TokenKind::Symbol(_)) {
            self.parse_symbol()
        } else if matches!(self.tokens[c].kind, TokenKind::Quote) {
            self.parse_string()
        } else if matches!(self.tokens[c].kind, TokenKind::OpenBracket) {
            self.parse_array()
        } else if matches!(self.tokens[c].kind, TokenKind::OpenCurly) {
            self.parse_dict()
        } else {
            Err(ParserError::UnreachableToken(self.tokens[c].clone()))
        }
    }

    /// Parses one array: the opening bracket is skipped, separators are
    /// dropped, values are gathered until the closing bracket.
    pub fn parse_array(&mut self) -> (r: Result<Node, ParserError>)
        requires
            old(self).valid(),
        ensures
            final(self).valid(),
            final(self).tokens == old(self).tokens,
            match spec_parse_array(old(self).rem()) {
                Ok(p) => r matches Ok(n) && n.view() == p.0 && n.wf() && final(self).rem() == p.1,
                Err(e) => r matches Err(pe) && pe.view() == e,
            },
        decreases self.tokens@.len() - self.cursor, 1int,
    {
        let ghost ts = old(self).rem();
        let n = self.tokens.len();
        let mut arr: Vec<Node> = Vec::new();
        proof {
            assert(nodes_view(arr@) =~= Seq::<Value>::empty());
        }
        if self.cursor >= n {
            proof {
                assert(ts.len() == 0);
                assert(final(self).rem() =~= Seq::<TokenView>::empty());
            }
            return Ok(Node::Array(arr));
        }
        self.cursor = self.cursor + 1;
        proof {
            old(self).lemma_rem_skip(*self, 1);
        }
        while self.cursor < n
            invariant
                self.valid(),
                n == self.tokens@.len(),
                self.tokens == old(self).tokens,
                old(self).cursor < self.cursor,
                ts == old(self).rem(),
                ts.len() > 0,
                nodes_wf(arr@),
                spec_parse_array(ts) == spec_array_items(self.rem(), nodes_view(arr@)),
            decreases n - self.cursor,
        {
            let c = self.cursor;
            let ghost cur = self.rem();
            proof {
                self.lemma_rem_index(0);
            }
            if matches!(self.tokens[c].kind, TokenKind::CloseBracket) {
                self.cursor = c + 1;
                proof {
                    ParseTokens { tokens: self.tokens, cursor: c }.lemma_rem_skip(*self, 1);
                }
                return Ok(Node::Array(arr));
            } else if matches!(
                self.tokens[c].kind,
                TokenKind::NewLine | TokenKind::Space | TokenKind::Tab | TokenKind::Comma,
            ) {
                self.cursor = c + 1;
                proof {
                    ParseTokens { tokens: self.tokens, cursor: c }.lemma_rem_skip(*self, 1);
                }
            } else if matches!(
                self.tokens[c].kind,
                TokenKind::Symbol(_) | TokenKind::Quote | TokenKind::OpenBracket
                    | TokenKind::OpenCurly,
            ) {
                proof {
                    lemma_consume_value(cur);
                    assert(spec_array_items(cur, nodes_view(arr@)) == spec_array_value(
                        cur,
                        nodes_view(arr@),
                    ));
                }
                let ghost acc0 = nodes_view(arr@);
                let rv = self.parse_value();
                match rv {
                    Ok(node) => {
                        proof {
                            assert(spec_parse_value(cur) is Ok);
                            let p = spec_parse_value(cur)->Ok_0;
                            assert(node.view() == p.0 && self.rem() == p.1);
                            assert(p.1.len() < cur.len());
                            assert(spec_array_value(cur, acc0) == spec_array_items(
                                p.1,
                                acc0.push(p.0),
                            ));
                            lemma_nodes_view_push(arr@, node);
                            lemma_nodes_wf_index(arr@);
                            lemma_nodes_wf_index(arr@.push(node));
                            assert(forall|p: int|
                                0 <= p < arr@.len() ==> arr@.push(node)[p] == (
                                #[trigger] arr@[p]));
                            assert(arr@.push(node)[arr@.len() as int] == node);
                        }
                        arr.push(node);
                    },
                    Err(e) => {
                        proof {
                            assert(spec_parse_value(cur) is Err);
                            assert(spec_array_value(cur, acc0) == spec_parse_value(cur));
                        }
                        return Err(e);
                    },
                }
            } else {
                return Err(ParserError::InvalidToken(self.tokens[c].clone()));
            }
        }
        proof {
            assert(self.rem() =~= Seq::<TokenView>::empty());
        }
        Ok(Node::Array(arr))
    }

    /// Parses one inline dictionary: the opening brace is skipped,
    /// separators are dropped, and each entry is a dot, a symbol key, a
    /// colon and a value; scope syntax inside the braces is refused, both
    /// as a second colon after an entry's colon and as a colon met at
    /// entry position after some entry's value.
    pub fn parse_dict(&mut self) -> (r: Result<Node, ParserError>)
        requires
            old(self).valid(),
        ensures
            final(self).valid(),
            final(self).tokens == old(self).tokens,
            match spec_parse_dict(old(self).rem()) {
                Ok(p) => r matches Ok(n) && n.view() == p.0 && n.wf() && final(self).rem() == p.1,
                Err(e) => r matches Err(pe) && pe.view() == e,
            },
        decreases self.tokens@.len() - self.cursor, 1int,
    {
        let ghost ts = old(self).rem();
        let n = self.tokens.len();
        let mut entries: Vec<(String, Node)> = Vec::new();
        proof {
            assert(entries_view(entries@) =~= Map::<Seq<char>, Value>::empty());
        }
        if self.cursor >= n {
            proof {
                assert(ts.len() == 0);
                assert(final(self).rem() =~= Seq::<TokenView>::empty());
            }
            return Ok(Node::Dict(entries));
        }
        self.cursor = self.cursor + 1;
        proof {
            old(self).lemma_rem_skip(*self, 1);
        }
        let mut seen = false;
        while self.cursor < n
            invariant
                self.valid(),
                n == self.tokens@.len(),
                self.tokens == old(self).tokens,
                old(self).cursor < self.cursor,
                ts == old(self).rem(),
                ts.len() > 0,
                keys_unique(entries@),
                entries_wf(entries@),
                spec_parse_dict(ts) == spec_dict_items(self.rem(), entries_view(entries@), seen),
            decreases n - self.cursor,
        {
            let c = self.cursor;
            let ghost cur = self.rem();
            proof {
                self.lemma_rem_index(0);
                if cur.len() >= 2 {
                    self.lemma_rem_index(1);
                }
                if cur.len() >= 3 {
                    self.lemma_rem_index(2);
                }
                if cur.len() >= 4 {
                    self.lemma_rem_index(3);
                }
            }
            if matches!(self.tokens[c].kind, TokenKind::CloseCurly) {
                self.cursor = c + 1;
                proof {
                    ParseTokens { tokens: self.tokens, cursor: c }.lemma_rem_skip(*self, 1);
                }
                return Ok(Node::Dict(entries));
            } else if matches!(
                self.tokens[c].kind,
                TokenKind::NewLine | TokenKind::Space | TokenKind::Tab | TokenKind::Comma,
            ) {
                self.cursor = c + 1;
                proof {
                    ParseTokens { tokens: self.tokens, cursor: c }.lemma_rem_skip(*self, 1);
                }
            } else if matches!(self.tokens[c].kind, TokenKind::Dot) {
                if c + 1 >= n {
                    return Err(ParserError::UnexpectedEOF(self.tokens[c].clone()));
                }
                match &self.tokens[c + 1].kind {
                    TokenKind::Symbol(s) => {
                        if c + 2 >= n {
                            return Err(ParserError::UnexpectedEOF(self.tokens[c + 1].clone()));
                        }
                        if !matches!(self.tokens[c + 2].kind, TokenKind::Colon) {
                            return Err(
                                ParserError::MismatchedTokenType(
                                    TokenKind::Colon,
                                    self.tokens[c + 1].clone(),
                                ),
                            );
                        }
                        if c + 3 >= n {
                            return Err(ParserError::UnexpectedEOF(self.tokens[c + 2].clone()));
                        }
                        if matches!(self.tokens[c + 3].kind, TokenKind::Colon) {
                            return Err(ParserError::ScopeInsideDict(self.tokens[c + 3].clone()));
                        }
                        let key = s.clone();
                        self.cursor = c + 3;
                        proof {
                            ParseTokens { tokens: self.tokens, cursor: c }.lemma_rem_skip(
                                *self,
                                3,
                            );
                            lemma_consume_value(cur.skip(3));
                            assert(spec_dict_items(cur, entries_view(entries@), seen)
                                == spec_dict_value(cur, key@, entries_view(entries@)));
                        }
                        let ghost acc0 = entries_view(entries@);
                        let rv = self.parse_value();
                        match rv {
                            Ok(node) => {
                                proof {
                                    assert(spec_parse_value(cur.skip(3)) is Ok);
                                    let p = spec_parse_value(cur.skip(3))->Ok_0;
                                    assert(node.view() == p.0 && self.rem() == p.1);
                                    assert(p.1.len() < cur.len());
                                    assert(spec_dict_value(cur, key@, acc0) == spec_dict_items(
                                        p.1,
                                        acc0.insert(key@, p.0),
                                        true,
                                    ));
                                }
                                entries = insert_entry(entries, &key, node);
                                seen = true;
                            },
                            Err(e) => {
                                proof {
                                    assert(spec_parse_value(cur.skip(3)) is Err);
                                    assert(spec_dict_value(cur, key@, acc0) == spec_parse_value(
                                        cur.skip(3),
                                    ));
                                }
                                return Err(e);
                            },
                        }
                    },
                    _ => {
                        return Err(
                            ParserError::MismatchedTokenType(
                                TokenKind::Symbol(String::new()),
                                self.tokens[c + 1].clone(),
                            ),
                        );
                    },
                }
            } else if matches!(self.tokens[c].kind, TokenKind::Colon) {
                // scoping syntax is only legal at the top level: a colon at
                // entry position after some entry's value is scope syntax
                // inside the braces
                if seen {
                    return Err(ParserError::ScopeInsideDict(self.tokens[c].clone()));
                } else {
                    return Err(ParserError::InvalidToken(self.tokens[c].clone()));
                }
            } else {
                return Err(ParserError::InvalidToken(self.tokens[c].clone()));
            }
        }
        proof {
            assert(self.rem() =~= Seq::<TokenView>::empty());
        }
        Ok(Node::Dict(entries))
    }
}

/// The model of a pending scope path.
pub open spec fn scopes_view(s: Option<Vec<String>>) -> Option<Seq<Seq<char>>> {
    match s {
        Option::None => Option::None,
        Option::Some(v) => Option::Some(path_view(v@)),
    }
}

/// Parses a cleaned token stream into the top-level mapping: statements
/// bind values at the top level, and chains of scope declarations place a
/// value into its nested dictionary by a deep upsert.
pub fn parse(tokens: &[Token]) -> (r: Result<Ast, ParserError>)
    ensures
        match spec_parse(tokens_view(tokens@)) {
            Ok(m) => r matches Ok(ast) && ast.view() == m && ast.wf(),
            Err(e) => r matches Err(pe) && pe.view() == e,
        },
{
    let ghost ts0 = tokens_view(tokens@);
    let mut st = ParseTokens::new(tokens);
    let mut ast = Ast::default();
    let mut scopes: Option<Vec<String>> = None;
    let n = tokens.len();
    while st.cursor < n
        invariant
            st.valid(),
            st.tokens@ == tokens@,
            n == tokens@.len(),
            ast.wf(),
            ts0 == tokens_view(tokens@),
            spec_parse(ts0) == spec_parse_doc(st.rem(), scopes_view(scopes), ast.view()),
        decreases n - st.cursor,
    {
        let c = st.cursor;
        let ghost cur = st.rem();
        proof {
            st.lemma_rem_index(0);
            if cur.len() >= 2 {
                st.lemma_rem_index(1);
            }
            if cur.len() >= 3 {
                st.lemma_rem_index(2);
            }
        }
        match &st.tokens[c].kind {
            TokenKind::NewLine => {
                st.cursor = c + 1;
                proof {
                    ParseTokens { tokens: st.tokens, cursor: c }.lemma_rem_skip(st, 1);
                }
            },
            TokenKind::Symbol(sym) => {
                if c + 1 >= n {
                    return Err(ParserError::UnexpectedEOF(st.tokens[c].clone()));
                }
                if matches!(st.tokens[c + 1].kind, TokenKind::Equals) {
                    if c + 2 >= n {
                        return Err(
                            ParserError::MissingValueAfterDeclaration(st.tokens[c].clone()),
                        );
                    }
                    let key = sym.clone();
                    st.cursor = c + 2;
                    proof {
                        ParseTokens { tokens: st.tokens, cursor: c }.lemma_rem_skip(st, 2);
                        lemma_consume_value(cur.skip(2));
                    }
                    let ghost acc0 = ast.view();
                    let ghost sc0 = scopes_view(scopes);
                    let rv = st.parse_value();
                    match rv {
                        Ok(node) => {
                            proof {
                                assert(spec_parse_value(cur.skip(2)) is Ok);
                                let p = spec_parse_value(cur.skip(2))->Ok_0;
                                assert(node.view() == p.0 && st.rem() == p.1);
                                assert(p.1.len() < cur.len());
                            }
                            let sc = scopes;
                            scopes = None;
                            match sc {
                                None => {
                                    ast = Ast(insert_entry(ast.0, &key, node));
                                },
                                Some(mut path) => {
                                    let ghost pv0 = path_view(path@);
                                    path.push(key);
                                    proof {
                                        assert(path_view(path@) =~= pv0.push(sym@));
                                        assert(path_view(path@).skip(0) =~= path_view(path@));
                                    }
                                    ast = Ast(merge_entries(ast.0, &path, 0, node));
                                },
                            }
                        },
                        Err(e) => {
                            return Err(e);
                        },
                    }
                } else if matches!(st.tokens[c + 1].kind, TokenKind::Colon) {
                    if c + 2 >= n {
                        return Err(ParserError::UnexpectedEOF(st.tokens[c + 1].clone()));
                    }
                    if matches!(st.tokens[c + 2].kind, TokenKind::Colon) {
                        let key = sym.clone();
                        let sc = scopes;
                        match sc {
                            None => {
                                let mut path: Vec<String> = Vec::new();
                                path.push(key);
                                proof {
                                    assert(path_view(path@) =~= seq![sym@]);
                                }
                                scopes = Some(path);
                            },
                            Some(mut path) => {
                                let ghost pv0 = path_view(path@);
                                path.push(key);
                                proof {
                                    assert(path_view(path@) =~= pv0.push(sym@));
                                }
                                scopes = Some(path);
                            },
                        }
                        st.cursor = c + 3;
                        proof {
                            ParseTokens { tokens: st.tokens, cursor: c }.lemma_rem_skip(st, 3);
                        }
                    } else {
                        return Err(
                            ParserError::MismatchedTokenType(
                                TokenKind::Colon,
                                st.tokens[c].clone(),
                            ),
                        );
                    }
                } else {
                    return Err(ParserError::UnreachableToken(st.tokens[c].clone()));
                }
            },
            TokenKind::Dot => {
                return Err(ParserError::InvalidToken(st.tokens[c].clone()));
            },
            _ => {
                return Err(ParserError::UnreachableToken(st.tokens[c].clone()));
            },
        }
    }
    proof {
        assert(st.rem() =~= Seq::<TokenView>::empty());
    }
    Ok(ast)
}

} // verus!
