use kfg::lexer::{filter, lex, tokenize};
use kfg::{Token, TokenKind, TokenPosition};
use kfg::TokenKind::{Asterisk, BackSlash, CloseBracket, CloseCurly, Colon, Comma, Dot,
    Equals, NewLine, OpenBracket, OpenCurly, Quote, Slash, Space, Symbol};

fn at(line: usize, character: usize, length: usize) -> TokenPosition {
    TokenPosition { line, character, length }
}

#[test]
fn test_tokenize() {
    let buffer: &[u8] = b"abcdefghijklmnopqrstuvwxyz0123456789,.\n:/' *=[]{}\\a";

    let expect: Vec<Token> = vec![
        Token::new(
            Symbol("abcdefghijklmnopqrstuvwxyz0123456789".to_string()),
            at(1, 0, 36),
        ),
        Token::new(Comma, at(1, 36, 1)),
        Token::new(Dot, at(1, 37, 1)),
        Token::new(NewLine, at(1, 38, 1)),
        Token::new(Colon, at(2, 0, 1)),
        Token::new(Slash, at(2, 1, 1)),
        Token::new(Quote, at(2, 2, 1)),
        Token::new(Space, at(2, 3, 1)),
        Token::new(Asterisk, at(2, 4, 1)),
        Token::new(Equals, at(2, 5, 1)),
        Token::new(OpenBracket, at(2, 6, 1)),
        Token::new(CloseBracket, at(2, 7, 1)),
        Token::new(OpenCurly, at(2, 8, 1)),
        Token::new(CloseCurly, at(2, 9, 1)),
        Token::new(BackSlash, at(2, 10, 1)),
        Token::new(Symbol("a".to_string()), at(2, 11, 1)),
    ];

    assert_eq!(tokenize(buffer), expect);
}

#[test]
fn test_filter() {
    let tokens: Vec<Token> = vec![
        Slash,
        Slash,
        Symbol("comment".to_string()),
        NewLine,
        Symbol("var".to_string()),
        Equals,
        Symbol("null".to_string()),
        NewLine,
        Slash,
        Asterisk,
        Symbol("comment".to_string()),
        Space,
        Symbol("block".to_string()),
        Asterisk,
        Slash,
    ]
    .into_iter()
    .map(|kind| Token::new(kind, at(0, 0, 0)))
    .collect();

    let expect: &[Token] = &tokens[4..8];

    assert_eq!(filter(&tokens), expect);
}

#[test]
fn test_escape() {
    let tokens: Vec<Token> = vec![
        Symbol("var".to_string()),
        Equals,
        Quote,
        Symbol("abcd".to_string()),
        BackSlash,
        Symbol("n".to_string()),
        Symbol("efg".to_string()),
        BackSlash,
        Symbol("t".to_string()),
        Symbol("hijk".to_string()),
        BackSlash,
        Symbol("r".to_string()),
        BackSlash,
        Symbol("n".to_string()),
        Symbol("lmn".to_string()),
        BackSlash,
        Symbol("'".to_string()),
        Symbol("opq".to_string()),
        BackSlash,
        Symbol("'".to_string()),
        Symbol("rstuv".to_string()),
        BackSlash,
        Symbol("n".to_string()),
        Symbol("wxyz".to_string()),
        Quote,
    ]
    .into_iter()
    .map(|kind| Token::new(kind, at(0, 0, 0)))
    .collect();

    let expect: Vec<Token> = vec![
        Symbol("var".to_string()),
        Equals,
        Quote,
        Symbol("abcd\nefg\thijk\r\nlmn'opq'rstuv\nwxyz".to_string()),
        Quote,
    ]
    .into_iter()
    .map(|kind| Token::new(kind, at(0, 0, 0)))
    .collect();

    assert_eq!(filter(&tokens), expect);
}

#[test]
fn tokenizer_covers_source() {
    // concatenating every token's text reconstructs the buffer, and line
    // numbers follow the newlines seen so far
    let buffer: &[u8] = b"alpha = 1\nbeta::gamma = 'x'\n// note\ndelta = [1, 2]";
    let tokens = tokenize(buffer);
    let mut rebuilt = String::new();
    for token in &tokens {
        rebuilt.push_str(token.kind.as_str());
    }
    let original: String = buffer.iter().map(|&b| b as char).collect();
    assert_eq!(rebuilt, original);

    let mut line = 1usize;
    for token in &tokens {
        assert_eq!(token.position.line, line);
        if matches!(token.kind, TokenKind::NewLine) {
            line += 1;
        }
    }
}

#[test]
fn tokenizer_positions_chain() {
    let buffer: &[u8] = b"key = value\nnext = 2";
    let tokens = tokenize(buffer);
    for pair in tokens.windows(2) {
        let (prev, next) = (&pair[0], &pair[1]);
        if matches!(prev.kind, TokenKind::NewLine) {
            assert_eq!(next.position.line, prev.position.line + 1);
            assert_eq!(next.position.character, 0);
        } else {
            assert_eq!(next.position.line, prev.position.line);
            assert_eq!(
                next.position.character,
                prev.position.character + prev.position.length
            );
        }
    }
}

#[test]
fn backslash_stops_symbol_run() {
    let tokens = tokenize(b"\\nefg");
    assert_eq!(tokens.len(), 3);
    assert_eq!(tokens[0].kind, TokenKind::BackSlash);
    assert_eq!(tokens[1].kind, TokenKind::Symbol("n".to_string()));
    assert_eq!(tokens[2].kind, TokenKind::Symbol("efg".to_string()));
}

#[test]
fn line_comment_at_end_of_input() {
    // a line comment followed immediately by the end of input is dropped
    // without trouble
    assert_eq!(lex(b"// nothing after this"), vec![]);
}

#[test]
fn block_comment_hides_line_markers() {
    // line-comment markers inside a block comment are inert
    assert_eq!(lex(b"/* a // b */"), vec![]);
}

#[test]
fn block_comment_takes_following_newline() {
    let tokens = lex(b"/* note */\nx = 1");
    assert_eq!(tokens[0].kind, TokenKind::Symbol("x".to_string()));
}

#[test]
fn unterminated_block_comment_consumes_rest() {
    assert_eq!(lex(b"/* never closed"), vec![]);
}

#[test]
fn filter_twice_is_filter_once() {
    // stripping comments twice is the same as once
    let tokens = tokenize(b"a = 1 // one\n/* two */\nb = 2\n");
    let once = filter(&tokens);
    let twice = filter(&once);
    assert_eq!(twice, once);
}

#[test]
fn string_escapes_filtered() {
    // the escape sequences collapse to their control characters
    let tokens = lex(b"var = 'abcd\\nefg\\thijk\\r\\nlmn\\'opq'");
    assert_eq!(tokens.len(), 5);
    assert_eq!(
        tokens[3].kind,
        TokenKind::Symbol("abcd\nefg\thijk\r\nlmn'opq".to_string())
    );
}

#[test]
fn unknown_escape_is_dropped() {
    let tokens = lex(b"var = 'a\\qb'");
    assert_eq!(tokens[3].kind, TokenKind::Symbol("ab".to_string()));
}

#[test]
fn join_extends_symbol() {
    let mut token = Token::new(TokenKind::Symbol("ab".to_string()), at(1, 0, 2));
    let other = Token::new(TokenKind::Symbol("cd".to_string()), at(1, 2, 2));
    assert!(token.join(&other).is_ok());
    assert_eq!(token.kind, TokenKind::Symbol("abcd".to_string()));
    assert_eq!(token.position, at(1, 0, 4));
}

#[test]
fn join_refuses_non_symbol() {
    let mut token = Token::new(TokenKind::Comma, at(1, 0, 1));
    let other = Token::new(TokenKind::Symbol("x".to_string()), at(1, 1, 1));
    assert!(token.join(&other).is_err());
    assert_eq!(token.kind, TokenKind::Comma);
}

#[test]
fn kind_texts() {
    assert_eq!(TokenKind::Dot.as_str(), ".");
    assert_eq!(TokenKind::Comma.as_str(), ",");
    assert_eq!(TokenKind::Colon.as_str(), ":");
    assert_eq!(TokenKind::Quote.as_str(), "'");
    assert_eq!(TokenKind::Slash.as_str(), "/");
    assert_eq!(TokenKind::Asterisk.as_str(), "*");
    assert_eq!(TokenKind::Space.as_str(), " ");
    assert_eq!(TokenKind::Tab.as_str(), "\t");
    assert_eq!(TokenKind::Equals.as_str(), "=");
    assert_eq!(TokenKind::NewLine.as_str(), "\n");
    assert_eq!(TokenKind::OpenBracket.as_str(), "[");
    assert_eq!(TokenKind::CloseBracket.as_str(), "]");
    assert_eq!(TokenKind::OpenCurly.as_str(), "{");
    assert_eq!(TokenKind::CloseCurly.as_str(), "}");
    assert_eq!(TokenKind::BackSlash.as_str(), "\\");
    assert_eq!(TokenKind::Symbol("word".to_string()).as_str(), "word");
}

#[test]
fn kind_classification() {
    assert_eq!(TokenKind::from_char('.'), TokenKind::Dot);
    assert_eq!(TokenKind::from_char('\\'), TokenKind::BackSlash);
    assert_eq!(TokenKind::from_char('x'), TokenKind::Symbol("x".to_string()));
    assert!(TokenKind::is_symbol_char('x'));
    assert!(!TokenKind::is_symbol_char('='));
}
