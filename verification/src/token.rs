use vstd::prelude::*;

verus! {

/// Mathematical model of a token kind: the text of a symbol run, or one
/// of the fixed punctuation markers.
pub enum KindView {
    Symbol(Seq<char>),
    Dot,
    Comma,
    Colon,
    Quote,
    Slash,
    Asterisk,
    Space,
    Tab,
    Equals,
    NewLine,
    OpenBracket,
    CloseBracket,
    OpenCurly,
    CloseCurly,
    BackSlash,
}

/// Mathematical model of a token: its kind together with its position.
pub struct TokenView {
    pub kind: KindView,
    pub line: int,
    pub character: int,
    pub length: int,
}

/// The classification of one character, used by the tokenizer: each
/// punctuation character maps to its own kind, everything else is a
/// one-character symbol.
pub open spec fn kind_of_char(c: char) -> KindView {
    if c == '.' {
        KindView::Dot
    } else if c == ',' {
        KindView::Comma
    } else if c == ':' {
        KindView::Colon
    } else if c == '\'' {
        KindView::Quote
    } else if c == '/' {
        KindView::Slash
    } else if c == '*' {
        KindView::Asterisk
    } else if c == ' ' {
        KindView::Space
    } else if c == '\t' {
        KindView::Tab
    } else if c == '=' {
        KindView::Equals
    } else if c == '\n' {
        KindView::NewLine
    } else if c == '[' {
        KindView::OpenBracket
    } else if c == ']' {
        KindView::CloseBracket
    } else if c == '{' {
        KindView::OpenCurly
    } else if c == '}' {
        KindView::CloseCurly
    } else if c == '\\' {
        KindView::BackSlash
    } else {
        KindView::Symbol(seq![c])
    }
}

/// The text a kind stands for: the symbol's own text, or the single
/// punctuation character of the variant.
pub open spec fn kind_text(k: KindView) -> Seq<char> {
    match k {
        KindView::Symbol(s) => s,
        KindView::Dot => seq!['.'],
        KindView::Comma => seq![','],
        KindView::Colon => seq![':'],
        KindView::Quote => seq!['\''],
        KindView::Slash => seq!['/'],
        KindView::Asterisk => seq!['*'],
        KindView::Space => seq![' '],
        KindView::Tab => seq!['\t'],
        KindView::Equals => seq!['='],
        KindView::NewLine => seq!['\n'],
        KindView::OpenBracket => seq!['['],
        KindView::CloseBracket => seq![']'],
        KindView::OpenCurly => seq!['{'],
        KindView::CloseCurly => seq!['}'],
        KindView::BackSlash => seq!['\\'],
    }
}

/// Relies on String::push: appends the given character to the end of the
/// string.
#[verifier::external_body]
pub(crate) fn push_char(s: &mut String, c: char)
    ensures
        final(s)@ == old(s)@.push(c),
{
    s.push(c);
}

/// A token kind: a run of ordinary characters, or one punctuation mark.
#[derive(Debug, PartialEq, Eq)]
pub enum TokenKind {
    Symbol(String),
    Dot,
    Comma,
    Colon,
    Quote,
    Slash,
    Asterisk,
    Space,
    Tab,
    Equals,
    NewLine,
    OpenBracket,
    CloseBracket,
    OpenCurly,
    CloseCurly,
    BackSlash,
}

impl TokenKind {
    /// The model of this kind.
    pub open spec fn view(&self) -> KindView {
        match self {
            TokenKind::Symbol(s) => KindView::Symbol(s@),
            TokenKind::Dot => KindView::Dot,
            TokenKind::Comma => KindView::Comma,
            TokenKind::Colon => KindView::Colon,
            TokenKind::Quote => KindView::Quote,
            TokenKind::Slash => KindView::Slash,
            TokenKind::Asterisk => KindView::Asterisk,
            TokenKind::Space => KindView::Space,
            TokenKind::Tab => KindView::Tab,
            TokenKind::Equals => KindView::Equals,
            TokenKind::NewLine => KindView::NewLine,
            TokenKind::OpenBracket => KindView::OpenBracket,
            TokenKind::CloseBracket => KindView::CloseBracket,
            TokenKind::OpenCurly => KindView::OpenCurly,
            TokenKind::CloseCurly => KindView::CloseCurly,
            TokenKind::BackSlash => KindView::BackSlash,
        }
    }

    /// The kind of one character: the punctuation variant it maps to, or a
    /// one-character symbol.
    pub fn from_char(c: char) -> (r: TokenKind)
        ensures
            r.view() == kind_of_char(c),
    {
        match c {
            '.' => TokenKind::Dot,
            ',' => TokenKind::Comma,
            ':' => TokenKind::Colon,
            '\'' => TokenKind::Quote,
            '/' => TokenKind::Slash,
            '*' => TokenKind::Asterisk,
            ' ' => TokenKind::Space,
            '\t' => TokenKind::Tab,
            '=' => TokenKind::Equals,
            '\n' => TokenKind::NewLine,
            '[' => TokenKind::OpenBracket,
            ']' => TokenKind::CloseBracket,
            '{' => TokenKind::OpenCurly,
            '}' => TokenKind::CloseCurly,
            '\\' => TokenKind::BackSlash,
            _ => {
                let mut text = String::new();
                push_char(&mut text, c);
                TokenKind::Symbol(text)
            },
        }
    }

    /// Whether one character belongs to a symbol run.
    pub fn is_symbol_char(c: char) -> (r: bool)
        ensures
            r == (kind_of_char(c) is Symbol),
    {
        match c {
            '.' | ',' | ':' | '\'' | '/' | '*' | ' ' | '\t' | '=' | '\n' | '[' | ']' | '{'
                | '}' | '\\' => false,
            _ => true,
        }
    }

    /// The text this kind covers in the source.
    pub fn as_str(&self) -> (r: &str)
        ensures
            r@ == kind_text(self.view()),
    {
        proof {
            reveal_strlit(".");
            reveal_strlit(",");
            reveal_strlit(":");
            reveal_strlit("'");
            reveal_strlit("/");
            reveal_strlit("*");
            reveal_strlit(" ");
            reveal_strlit("\t");
            reveal_strlit("=");
            reveal_strlit("\n");
            reveal_strlit("[");
            reveal_strlit("]");
            reveal_strlit("{");
            reveal_strlit("}");
            reveal_strlit("\\");
        }
        match self {
            TokenKind::Symbol(s) => s.as_str(),
            TokenKind::Dot => ".",
            TokenKind::Comma => ",",
            TokenKind::Colon => ":",
            TokenKind::Quote => "'",
            TokenKind::Slash => "/",
            TokenKind::Asterisk => "*",
            TokenKind::Space => " ",
            TokenKind::Tab => "\t",
            TokenKind::Equals => "=",
            TokenKind::NewLine => "\n",
            TokenKind::OpenBracket => "[",
            TokenKind::CloseBracket => "]",
            TokenKind::OpenCurly => "{",
            TokenKind::CloseCurly => "}",
            TokenKind::BackSlash => "\\",
        }
    }
}

impl Default for TokenKind {
    /// An empty symbol.
    fn default() -> (r: Self)
        ensures
            r.view() == KindView::Symbol(Seq::<char>::empty()),
    {
        TokenKind::Symbol(String::new())
    }
}

impl Clone for TokenKind {
    /// A copy with the same model.
    fn clone(&self) -> (r: Self)
        ensures
            r.view() == self.view(),
    {
        match self {
            TokenKind::Symbol(s) => TokenKind::Symbol(s.clone()),
            TokenKind::Dot => TokenKind::Dot,
            TokenKind::Comma => TokenKind::Comma,
            TokenKind::Colon => TokenKind::Colon,
            TokenKind::Quote => TokenKind::Quote,
            TokenKind::Slash => TokenKind::Slash,
            TokenKind::Asterisk => TokenKind::Asterisk,
            TokenKind::Space => TokenKind::Space,
            TokenKind::Tab => TokenKind::Tab,
            TokenKind::Equals => TokenKind::Equals,
            TokenKind::NewLine => TokenKind::NewLine,
            TokenKind::OpenBracket => TokenKind::OpenBracket,
            TokenKind::CloseBracket => TokenKind::CloseBracket,
            TokenKind::OpenCurly => TokenKind::OpenCurly,
            TokenKind::CloseCurly => TokenKind::CloseCurly,
            TokenKind::BackSlash => TokenKind::BackSlash,
        }
    }
}

/// A token's position: 1-based line, 0-based starting column, and the
/// number of characters the token covers.
#[derive(Debug, Clone, Copy, PartialEq, Eq)]
pub struct TokenPosition {
    pub line: usize,
    pub character: usize,
    pub length: usize,
}

impl Default for TokenPosition {
    /// The start of a source: line 1, column 0, nothing covered yet.
    fn default() -> (r: Self)
        ensures
            r.line == 1 && r.character == 0 && r.length == 0,
    {
        TokenPosition { line: 1, character: 0, length: 0 }
    }
}

/// A token: a kind at a position.
#[derive(Debug, PartialEq, Eq)]
pub struct Token {
    pub kind: TokenKind,
    pub position: TokenPosition,
}

impl Default for Token {
    /// An empty symbol at the start of a source.
    fn default() -> (r: Self)
        ensures
            r.view().kind == KindView::Symbol(Seq::<char>::empty()),
            r.position.line == 1 && r.position.character == 0 && r.position.length == 0,
    {
        Token { kind: TokenKind::default(), position: TokenPosition::default() }
    }
}

impl Clone for Token {
    /// A copy with the same model.
    fn clone(&self) -> (r: Self)
        ensures
            r.view() == self.view(),
    {
        Token { kind: self.kind.clone(), position: self.position }
    }
}

impl Token {
    /// The model of this token.
    pub open spec fn view(&self) -> TokenView {
        TokenView {
            kind: self.kind.view(),
            line: self.position.line as int,
            character: self.position.character as int,
            length: self.position.length as int,
        }
    }

    pub fn new(kind: TokenKind, position: TokenPosition) -> (r: Token)
        ensures
            r.kind == kind,
            r.position == position,
    {
        Token { kind, position }
    }

    /// Appends another token's text to this symbol token and extends its
    /// length accordingly; a non-symbol receiver is refused.
    pub fn join(&mut self, rhs: &Token) -> (r: Result<(), &'static str>)
        requires
            old(self).position.length + rhs.position.length <= usize::MAX,
        ensures
            old(self).kind is Symbol ==> {
                &&& r is Ok
                &&& final(self).view().kind == KindView::Symbol(
                    kind_text(old(self).view().kind) + kind_text(rhs.view().kind),
                )
                &&& final(self).position.length == old(self).position.length
                    + rhs.position.length
                &&& final(self).position.line == old(self).position.line
                &&& final(self).position.character == old(self).position.character
            },
            !(old(self).kind is Symbol) ==> (r matches Err(m) && m@ == "token is not a symbol"@
                && *final(self) == *old(self)),
    {
        if let TokenKind::Symbol(ref mut symbol) = self.kind {
            symbol.append(rhs.kind.as_str());
            self.position.length = self.position.length + rhs.position.length;
        } else {
            return Err("token is not a symbol");
        }
        Ok(())
    }
}

} // verus!
