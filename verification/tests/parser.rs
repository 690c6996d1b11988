use kfg::parser::parse;
use kfg::{Ast, Kfg, Node, ParserError, Token, TokenKind, TokenPosition};
use kfg::TokenKind::{Asterisk, BackSlash, CloseBracket, CloseCurly, Colon, Comma, Dot,
    Equals, NewLine, OpenBracket, OpenCurly, Quote, Slash, Space, Symbol};

fn at0() -> TokenPosition {
    TokenPosition { line: 0, character: 0, length: 0 }
}

fn toks(kinds: Vec<TokenKind>) -> Vec<Token> {
    kinds.into_iter().map(|kind| Token::new(kind, at0())).collect()
}

#[test]
fn test_parse() {
    let tokens: Vec<Token> = toks(vec![
        Symbol("var1".to_string()), Equals, Symbol("null".to_string()), NewLine,
        Symbol("var2".to_string()), Equals, Symbol("1234".to_string()), NewLine,
        Symbol("var3".to_string()), Equals, Symbol("01234".to_string()), NewLine,
        Symbol("var4".to_string()), Equals, Symbol("12.34".to_string()), NewLine,
        Symbol("var5".to_string()), Equals, Symbol("012.34".to_string()), NewLine,
        Symbol("var6".to_string()), Equals, Quote, Symbol("str".to_string()), Quote, NewLine,
        Symbol("var7".to_string()), Equals, Quote, Symbol(" s  t  r ".to_string()), Quote, NewLine,
        Symbol("var9".to_string()), Equals, Symbol("true".to_string()), NewLine,
        Symbol("var0".to_string()), Equals, Symbol("false".to_string()), NewLine,
        Symbol("vara".to_string()), Equals, OpenBracket, Symbol("null".to_string()), Comma,
        Symbol("null".to_string()), CloseBracket, NewLine,
        Symbol("varb".to_string()), Equals, OpenCurly, Dot, Symbol("entry".to_string()), Colon,
        Symbol("null".to_string()), CloseCurly, NewLine,
        Symbol("varc".to_string()), Colon, Colon, Symbol("nested".to_string()), Equals,
        Symbol("null".to_string()), NewLine,
    ]);

    let expected = Ast(vec![
        ("var1".to_string(), Node::Null),
        ("var2".to_string(), Node::Integer(1234)),
        ("var3".to_string(), Node::Integer(1234)),
        ("var4".to_string(), Node::Float("12.34".to_string())),
        ("var5".to_string(), Node::Float("012.34".to_string())),
        ("var6".to_string(), Node::String("str".to_string())),
        ("var7".to_string(), Node::String(" s  t  r ".to_string())),
        ("var9".to_string(), Node::Bool(true)),
        ("var0".to_string(), Node::Bool(false)),
        ("vara".to_string(), Node::Array(vec![Node::Null, Node::Null])),
        ("varb".to_string(), Node::Dict(vec![("entry".to_string(), Node::Null)])),
        ("varc".to_string(), Node::Dict(vec![("nested".to_string(), Node::Null)])),
    ]);

    let ast = parse(&tokens).unwrap();
    assert!(ast.equivalent(&expected));

    // the two float bindings both name the same number
    for key in ["var4", "var5"] {
        let found = ast.0.iter().find(|(k, _)| k.as_str() == key).unwrap();
        match &found.1 {
            Node::Float(text) => assert_eq!(text.parse::<f64>().unwrap(), 12.34),
            other => panic!("expected a float, got {other:?}"),
        }
    }
}

#[test]
fn scalar_round_trip() {
    // parsing the decimal text of an integer yields that integer back
    let samples: [i64; 9] = [
        0,
        1,
        -1,
        42,
        -9223372036854775808,
        9223372036854775807,
        1000000007,
        -123456789,
        7,
    ];
    for value in samples {
        let source = format!("key = {value}");
        let ast = Kfg::parse(source.as_bytes()).unwrap();
        assert!(ast.equivalent(&Ast(vec![("key".to_string(), Node::Integer(value))])));
    }
}

#[test]
fn leading_zeros_parse_as_integer() {
    let ast = Kfg::parse(b"key = 00042").unwrap();
    assert!(ast.equivalent(&Ast(vec![("key".to_string(), Node::Integer(42))])));
}

#[test]
fn out_of_range_integer_becomes_float() {
    let ast = Kfg::parse(b"key = 9223372036854775808").unwrap();
    match &ast.0[0].1 {
        Node::Float(text) => assert_eq!(text, "9223372036854775808"),
        other => panic!("expected a float, got {other:?}"),
    }
}

#[test]
fn float_with_leading_zero() {
    let ast = Kfg::parse(b"key = 012.34").unwrap();
    match &ast.0[0].1 {
        Node::Float(text) => assert_eq!(text.parse::<f64>().unwrap(), 12.34),
        other => panic!("expected a float, got {other:?}"),
    }
}

#[test]
fn float_words_and_exponents() {
    for (source, value) in [
        (&b"k = inf"[..], f64::INFINITY),
        (&b"k = 1e3"[..], 1000.0),
        (&b"k = 2.5e-1"[..], 0.25),
    ] {
        let ast = Kfg::parse(source).unwrap();
        match &ast.0[0].1 {
            Node::Float(text) => assert_eq!(text.parse::<f64>().unwrap(), value),
            other => panic!("expected a float, got {other:?}"),
        }
    }
}

#[test]
fn string_escape_fidelity() {
    let ast = Kfg::parse(b"text = 'abcd\\nefg\\thijk\\r\\nlmn\\'opq'").unwrap();
    assert!(ast.equivalent(&Ast(vec![(
        "text".to_string(),
        Node::String("abcd\nefg\thijk\r\nlmn'opq".to_string()),
    )])));
}

#[test]
fn scope_merge_extends_existing_dict() {
    // a::b::c = 1 then a::b::d = 2 equals the directly constructed tree
    let ast = Kfg::parse(b"a::b::c = 1\na::b::d = 2\n").unwrap();
    let expected = Ast(vec![(
        "a".to_string(),
        Node::Dict(vec![(
            "b".to_string(),
            Node::Dict(vec![
                ("c".to_string(), Node::Integer(1)),
                ("d".to_string(), Node::Integer(2)),
            ]),
        )]),
    )]);
    assert!(ast.equivalent(&expected));

    // and the order of the two statements does not change the tree
    let reversed = Kfg::parse(b"a::b::d = 2\na::b::c = 1\n").unwrap();
    assert!(reversed.equivalent(&expected));
    assert!(ast.equivalent(&reversed));
}

#[test]
fn scope_same_path_twice_is_once() {
    let once = Kfg::parse(b"a::b = 5\n").unwrap();
    let twice = Kfg::parse(b"a::b = 5\na::b = 5\n").unwrap();
    assert!(once.equivalent(&twice));
}

#[test]
fn dict_literal_parses() {
    let ast = Kfg::parse(b"k = { .x: 1, .y: 2 }").unwrap();
    let expected = Ast(vec![(
        "k".to_string(),
        Node::Dict(vec![
            ("x".to_string(), Node::Integer(1)),
            ("y".to_string(), Node::Integer(2)),
        ]),
    )]);
    assert!(ast.equivalent(&expected));
}

#[test]
fn scope_inside_dict_is_refused() {
    let err = Kfg::parse(b"k = { .x:: 1 }").unwrap_err();
    assert!(matches!(err, ParserError::ScopeInsideDict(_)));
}

#[test]
fn scope_after_value_inside_dict_is_refused() {
    // a colon met after an entry's value is scope syntax inside the braces
    let err = Kfg::parse(b"k = { .x: 1:: }").unwrap_err();
    assert!(matches!(err, ParserError::ScopeInsideDict(_)));

    let err = Kfg::parse(b"k = { .x: 1 :: 2 }").unwrap_err();
    assert!(matches!(err, ParserError::ScopeInsideDict(_)));
}

#[test]
fn stray_colon_before_any_entry_is_invalid() {
    // with no value before it, a colon inside the braces is just an
    // invalid token
    let err = Kfg::parse(b"k = { : 1 }").unwrap_err();
    assert!(matches!(err, ParserError::InvalidToken(_)));
}

#[test]
fn end_to_end_scenario() {
    let source = b"name = 'kfg'\nversion::major = 1\nversion::minor = 2\nflags = [true, false, null]\n";
    let ast = Kfg::parse(source).unwrap();
    let expected = Ast(vec![
        ("name".to_string(), Node::String("kfg".to_string())),
        (
            "version".to_string(),
            Node::Dict(vec![
                ("major".to_string(), Node::Integer(1)),
                ("minor".to_string(), Node::Integer(2)),
            ]),
        ),
        (
            "flags".to_string(),
            Node::Array(vec![Node::Bool(true), Node::Bool(false), Node::Null]),
        ),
    ]);
    assert!(ast.equivalent(&expected));
    assert_eq!(ast.assignments(), 5);
}

#[test]
fn empty_array_and_dict() {
    let ast = Kfg::parse(b"a = []\nb = {}\n").unwrap();
    let expected = Ast(vec![
        ("a".to_string(), Node::Array(vec![])),
        ("b".to_string(), Node::Dict(vec![])),
    ]);
    assert!(ast.equivalent(&expected));
}

#[test]
fn nested_values() {
    let ast = Kfg::parse(b"a = [[1, 2], { .k: 'v' }]").unwrap();
    let expected = Ast(vec![(
        "a".to_string(),
        Node::Array(vec![
            Node::Array(vec![Node::Integer(1), Node::Integer(2)]),
            Node::Dict(vec![("k".to_string(), Node::String("v".to_string()))]),
        ]),
    )]);
    assert!(ast.equivalent(&expected));
}

#[test]
fn rebinding_overwrites() {
    let ast = Kfg::parse(b"x = 1\nx = 2\n").unwrap();
    assert!(ast.equivalent(&Ast(vec![("x".to_string(), Node::Integer(2))])));
}

#[test]
fn equivalence_is_variant_sensitive() {
    let a = Node::String("1".to_string());
    let b = Node::Integer(1);
    assert!(!a.equivalent(&b));
    assert!(a.equivalent(&a));
}

#[test]
fn dict_equivalence_ignores_order() {
    let a = Node::Dict(vec![
        ("x".to_string(), Node::Integer(1)),
        ("y".to_string(), Node::Integer(2)),
    ]);
    let b = Node::Dict(vec![
        ("y".to_string(), Node::Integer(2)),
        ("x".to_string(), Node::Integer(1)),
    ]);
    assert!(a.equivalent(&b));
}

#[test]
fn error_unexpected_eof() {
    let err = Kfg::parse(b"lonely").unwrap_err();
    assert!(matches!(err, ParserError::UnexpectedEOF(_)));
}

#[test]
fn error_missing_value() {
    let err = Kfg::parse(b"x =").unwrap_err();
    assert!(matches!(err, ParserError::MissingValueAfterDeclaration(_)));
}

#[test]
fn error_missing_token_after_dot() {
    let err = Kfg::parse(b"x = 1.").unwrap_err();
    assert!(matches!(err, ParserError::MissingToken(_, _)));
}

#[test]
fn error_mismatched_single_colon() {
    let err = Kfg::parse(b"x : y").unwrap_err();
    assert!(matches!(err, ParserError::MismatchedTokenType(_, _)));
}

#[test]
fn error_invalid_token_leading_dot() {
    let err = Kfg::parse(b". = 1").unwrap_err();
    assert!(matches!(err, ParserError::InvalidToken(_)));
}

#[test]
fn error_invalid_symbol() {
    let err = Kfg::parse(b"x = 1z").unwrap_err();
    match err {
        ParserError::InvalidSymbol(text) => assert_eq!(text, "1z"),
        other => panic!("expected an invalid symbol, got {other:?}"),
    }
}

#[test]
fn error_unreachable_token() {
    let err = Kfg::parse(b"= 1").unwrap_err();
    assert!(matches!(err, ParserError::UnreachableToken(_)));
}

#[test]
fn error_broken_string() {
    // a raw newline token inside a string body breaks it; such a stream
    // reaches the parser only when built directly
    let tokens = toks(vec![
        Symbol("x".to_string()),
        Equals,
        Quote,
        NewLine,
        Quote,
    ]);
    let err = parse(&tokens).unwrap_err();
    assert!(matches!(err, ParserError::BrokenString(_)));
}

#[test]
fn error_unclosed_string() {
    let tokens = toks(vec![
        Symbol("x".to_string()),
        Equals,
        Quote,
        Symbol("body".to_string()),
    ]);
    let err = parse(&tokens).unwrap_err();
    assert!(matches!(err, ParserError::UnclosedString(_)));
}

#[test]
fn from_text_resolves_literals() {
    assert!(matches!(Node::from_text("true".to_string()), Ok(Node::Bool(true))));
    assert!(matches!(Node::from_text("false".to_string()), Ok(Node::Bool(false))));
    assert!(matches!(Node::from_text("null".to_string()), Ok(Node::Null)));
    assert!(matches!(Node::from_text("-17".to_string()), Ok(Node::Integer(-17))));
    assert!(matches!(Node::from_text("+3".to_string()), Ok(Node::Integer(3))));
    assert!(matches!(Node::from_text("bogus".to_string()), Err(ParserError::InvalidSymbol(_))));
    match Node::from_text("1.5".to_string()) {
        Ok(Node::Float(text)) => assert_eq!(text, "1.5"),
        other => panic!("expected a float, got {other:?}"),
    }
}

#[test]
fn dotted_symbol_glues_across_tokens() {
    let ast = Kfg::parse(b"pi = 3.14159").unwrap();
    match &ast.0[0].1 {
        Node::Float(text) => assert_eq!(text, "3.14159"),
        other => panic!("expected a float, got {other:?}"),
    }
}

#[test]
fn assignments_counts_nested_entries() {
    let ast = Kfg::parse(b"a = 1\nb::c = 2\nb::d = 3\n").unwrap();
    // a, b at the top level plus c and d inside b
    assert_eq!(ast.assignments(), 4);
}

#[test]
fn comments_are_not_semantic() {
    let plain = Kfg::parse(b"x = 1\ny = 2\n").unwrap();
    let noisy = Kfg::parse(b"// head\nx = 1 /* mid */\ny = 2\n").unwrap();
    assert!(plain.equivalent(&noisy));
}
