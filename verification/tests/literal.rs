use kfg::{Node, ParserError};

#[test]
fn integer_bounds_resolve() {
    assert!(matches!(
        Node::from_text("9223372036854775807".to_string()),
        Ok(Node::Integer(9223372036854775807))
    ));
    assert!(matches!(
        Node::from_text("-9223372036854775808".to_string()),
        Ok(Node::Integer(-9223372036854775808))
    ));
}

#[test]
fn bare_sign_is_invalid() {
    assert!(matches!(
        Node::from_text("+".to_string()),
        Err(ParserError::InvalidSymbol(_))
    ));
    assert!(matches!(
        Node::from_text("-".to_string()),
        Err(ParserError::InvalidSymbol(_))
    ));
}

#[test]
fn float_special_words_any_case() {
    for word in ["inf", "Infinity", "NAN", "-inf", "+nan"] {
        match Node::from_text(word.to_string()) {
            Ok(Node::Float(text)) => assert_eq!(text, word),
            other => panic!("expected a float for {word}, got {other:?}"),
        }
    }
}

#[test]
fn float_shapes() {
    for text in ["1.", "1.5", "1e9", "1.5E-3", "-0.25"] {
        assert!(
            matches!(Node::from_text(text.to_string()), Ok(Node::Float(_))),
            "{text} should be a float literal"
        );
    }
    for text in ["", ".", "1e", "e5", "1.2.3", "0x10", "1..2", "infx"] {
        assert!(
            matches!(
                Node::from_text(text.to_string()),
                Err(ParserError::InvalidSymbol(_))
            ),
            "{text} should be invalid"
        );
    }
}

#[test]
fn keywords_win_over_numbers() {
    assert!(matches!(Node::from_text("null".to_string()), Ok(Node::Null)));
    // a keyword with other letters around it is not a keyword
    assert!(matches!(
        Node::from_text("nullx".to_string()),
        Err(ParserError::InvalidSymbol(_))
    ));
}
