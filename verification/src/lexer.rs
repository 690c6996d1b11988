use vstd::prelude::*;

use crate::token::{kind_of_char, kind_text, KindView, Token, TokenKind, TokenPosition, TokenView};
use crate::token::push_char;
use vstd::string::StrSliceExecFns;
use vstd::string::StringExecFns;

verus! {

/// The characters a byte buffer stands for, byte by byte.
pub open spec fn chars_of(bytes: Seq<u8>) -> Seq<char> {
    bytes.map_values(|b: u8| b as char)
}

/// The models of a sequence of tokens.
pub open spec fn tokens_view(ts: Seq<Token>) -> Seq<TokenView> {
    ts.map_values(|t: Token| t.view())
}

/// How many leading bytes of `bytes` belong to a symbol run.
pub open spec fn run_len(bytes: Seq<u8>) -> nat
    decreases bytes.len(),
{
    if bytes.len() == 0 {
        0
    } else if kind_of_char(bytes[0] as char) is Symbol {
        1 + run_len(bytes.skip(1))
    } else {
        0
    }
}

pub proof fn lemma_run_len_le(bytes: Seq<u8>)
    ensures
        run_len(bytes) <= bytes.len(),
    decreases bytes.len(),
{
    if bytes.len() > 0 && kind_of_char(bytes[0] as char) is Symbol {
        lemma_run_len_le(bytes.skip(1));
    }
}

/// A symbol run covers exactly the leading symbol-class bytes.
proof fn lemma_run_len_exact(bytes: Seq<u8>, n: int)
    requires
        0 <= n <= bytes.len(),
        forall|j: int| 0 <= j < n ==> kind_of_char(#[trigger] bytes[j] as char) is Symbol,
        n == bytes.len() || !(kind_of_char(bytes[n] as char) is Symbol),
    ensures
        run_len(bytes) == n,
    decreases bytes.len(),
{
    if n > 0 {
        assert(kind_of_char(bytes[0] as char) is Symbol);
        let rest = bytes.skip(1);
        assert forall|j: int| 0 <= j < n - 1 implies kind_of_char(
            #[trigger] rest[j] as char,
        ) is Symbol by {
            assert(rest[j] == bytes[j + 1]);
        }
        if n - 1 < rest.len() {
            assert(rest[n - 1] == bytes[n]);
        }
        lemma_run_len_exact(rest, n - 1);
    }
}

/// The token stream produced from `bytes`, starting at the given line and
/// column; `prev_bs` records whether the token just before was a backslash,
/// after which a symbol run is not extended past its first character.
pub open spec fn spec_tokenize_from(
    bytes: Seq<u8>,
    line: int,
    col: int,
    prev_bs: bool,
) -> Seq<TokenView>
    decreases bytes.len(),
    via spec_tokenize_from_dec
{
    if bytes.len() == 0 {
        Seq::empty()
    } else {
        let c = bytes[0] as char;
        let k = kind_of_char(c);
        if k is Symbol && !prev_bs {
            let n = 1 + run_len(bytes.skip(1)) as int;
            let tok = TokenView {
                kind: KindView::Symbol(chars_of(bytes.take(n))),
                line,
                character: col,
                length: n,
            };
            seq![tok] + spec_tokenize_from(bytes.skip(n), line, col + n, false)
        } else {
            let tok = TokenView { kind: k, line, character: col, length: 1 };
            if k is NewLine {
                seq![tok] + spec_tokenize_from(bytes.skip(1), line + 1, 0, false)
            } else {
                seq![tok] + spec_tokenize_from(bytes.skip(1), line, col + 1, k is BackSlash)
            }
        }
    }
}

#[via_fn]
proof fn spec_tokenize_from_dec(bytes: Seq<u8>, line: int, col: int, prev_bs: bool) {
    if bytes.len() > 0 {
        lemma_run_len_le(bytes.skip(1));
    }
}

/// The token stream of a whole buffer.
pub open spec fn spec_tokenize(bytes: Seq<u8>) -> Seq<TokenView> {
    spec_tokenize_from(bytes, 1, 0, false)
}

/// The concatenation of the texts of a stream of tokens.
pub open spec fn tokens_text(ts: Seq<TokenView>) -> Seq<char>
    decreases ts.len(),
{
    if ts.len() == 0 {
        Seq::empty()
    } else {
        kind_text(ts[0].kind) + tokens_text(ts.skip(1))
    }
}

/// Positions chain: each token starts where the one before it ended, columns
/// advance by token length within a line, and a newline token moves to
/// column 0 of the next line.
pub open spec fn positions_chain(ts: Seq<TokenView>, line: int, col: int) -> bool
    decreases ts.len(),
{
    if ts.len() == 0 {
        true
    } else {
        &&& ts[0].line == line
        &&& ts[0].character == col
        &&& if ts[0].kind is NewLine {
            positions_chain(ts.skip(1), line + 1, 0)
        } else {
            positions_chain(ts.skip(1), line, col + ts[0].length)
        }
    }
}

proof fn lemma_tokenize_from_text(bytes: Seq<u8>, line: int, col: int, prev_bs: bool)
    ensures
        tokens_text(spec_tokenize_from(bytes, line, col, prev_bs)) == chars_of(bytes),
        forall|k: int|
            0 <= k < spec_tokenize_from(bytes, line, col, prev_bs).len() ==> kind_text(
                #[trigger] spec_tokenize_from(bytes, line, col, prev_bs)[k].kind,
            ).len() == spec_tokenize_from(bytes, line, col, prev_bs)[k].length,
    decreases bytes.len(),
{
    let ts = spec_tokenize_from(bytes, line, col, prev_bs);
    if bytes.len() > 0 {
        let c = bytes[0] as char;
        let k = kind_of_char(c);
        if k is Symbol && !prev_bs {
            let n = 1 + run_len(bytes.skip(1)) as int;
            lemma_run_len_le(bytes.skip(1));
            let rest = spec_tokenize_from(bytes.skip(n), line, col + n, false);
            lemma_tokenize_from_text(bytes.skip(n), line, col + n, false);
            assert(ts.skip(1) =~= rest);
            assert(tokens_text(ts) =~= chars_of(bytes.take(n)) + tokens_text(rest));
            assert(chars_of(bytes.take(n)) + chars_of(bytes.skip(n)) =~= chars_of(bytes));
        } else {
            let line2 = if k is NewLine { line + 1 } else { line };
            let col2 = if k is NewLine { 0 } else { col + 1 };
            let rest = spec_tokenize_from(bytes.skip(1), line2, col2, k is BackSlash && !(k
                is NewLine));
            lemma_tokenize_from_text(bytes.skip(1), line2, col2, k is BackSlash && !(k
                is NewLine));
            assert(ts.skip(1) =~= rest);
            assert(kind_text(k) + chars_of(bytes.skip(1)) =~= chars_of(bytes));
        }
    }
}

proof fn lemma_tokenize_from_positions(bytes: Seq<u8>, line: int, col: int, prev_bs: bool)
    ensures
        positions_chain(spec_tokenize_from(bytes, line, col, prev_bs), line, col),
    decreases bytes.len(),
{
    let ts = spec_tokenize_from(bytes, line, col, prev_bs);
    if bytes.len() > 0 {
        let c = bytes[0] as char;
        let k = kind_of_char(c);
        if k is Symbol && !prev_bs {
            let n = 1 + run_len(bytes.skip(1)) as int;
            lemma_run_len_le(bytes.skip(1));
            lemma_tokenize_from_positions(bytes.skip(n), line, col + n, false);
            assert(ts.skip(1) =~= spec_tokenize_from(bytes.skip(n), line, col + n, false));
        } else if k is NewLine {
            lemma_tokenize_from_positions(bytes.skip(1), line + 1, 0, false);
            assert(ts.skip(1) =~= spec_tokenize_from(bytes.skip(1), line + 1, 0, false));
        } else {
            lemma_tokenize_from_positions(bytes.skip(1), line, col + 1, k is BackSlash);
            assert(ts.skip(1) =~= spec_tokenize_from(bytes.skip(1), line, col + 1, k
                is BackSlash));
        }
    }
}

/// The number of newline bytes in a buffer.
pub open spec fn newline_bytes(bs: Seq<u8>) -> int
    decreases bs.len(),
{
    if bs.len() == 0 {
        0
    } else {
        (if bs[0] == 10 {
            1int
        } else {
            0int
        }) + newline_bytes(bs.skip(1))
    }
}

proof fn lemma_newline_bytes_zero(bs: Seq<u8>)
    requires
        forall|j: int| 0 <= j < bs.len() ==> (#[trigger] bs[j]) != 10,
    ensures
        newline_bytes(bs) == 0,
    decreases bs.len(),
{
    if bs.len() > 0 {
        assert(forall|j: int| 0 <= j < bs.skip(1).len() ==> bs.skip(1)[j] == (#[trigger] bs[j
            + 1]));
        lemma_newline_bytes_zero(bs.skip(1));
    }
}

proof fn lemma_newline_bytes_split(bs: Seq<u8>, n: int)
    requires
        0 <= n <= bs.len(),
    ensures
        newline_bytes(bs) == newline_bytes(bs.take(n)) + newline_bytes(bs.skip(n)),
    decreases n,
{
    if n == 0 {
        assert(bs.take(0) =~= Seq::<u8>::empty());
        assert(bs.skip(0) =~= bs);
    } else {
        lemma_newline_bytes_split(bs.skip(1), n - 1);
        assert(bs.take(n)[0] == bs[0]);
        assert(bs.take(n).skip(1) =~= bs.skip(1).take(n - 1));
        assert(bs.skip(n) =~= bs.skip(1).skip(n - 1));
    }
}

/// The bytes inside a symbol run all classify as symbol characters.
proof fn lemma_run_len_sound(bs: Seq<u8>)
    ensures
        forall|j: int|
            0 <= j < run_len(bs) ==> kind_of_char(#[trigger] bs[j] as char) is Symbol,
    decreases bs.len(),
{
    lemma_run_len_le(bs);
    if bs.len() > 0 && kind_of_char(bs[0] as char) is Symbol {
        lemma_run_len_sound(bs.skip(1));
        assert forall|j: int| 0 <= j < run_len(bs) implies kind_of_char(
            #[trigger] bs[j] as char,
        ) is Symbol by {
            if j > 0 {
                assert(bs.skip(1)[j - 1] == bs[j]);
            }
        }
    }
}

proof fn lemma_tokenize_from_lines(bytes: Seq<u8>, line: int, col: int, prev_bs: bool)
    ensures
        forall|k: int|
            0 <= k < spec_tokenize_from(bytes, line, col, prev_bs).len() ==> (
            #[trigger] spec_tokenize_from(bytes, line, col, prev_bs)[k]).line == line
                + newline_bytes(
                bytes.take(
                    lengths_sum(spec_tokenize_from(bytes, line, col, prev_bs).take(k)),
                ),
            ),
    decreases bytes.len(),
{
    let ts = spec_tokenize_from(bytes, line, col, prev_bs);
    if bytes.len() > 0 {
        lemma_tokenize_from_text(bytes, line, col, prev_bs);
        assert(lengths_nonneg(ts)) by {
            assert forall|p: int| 0 <= p < ts.len() implies (#[trigger] ts[p].length) >= 0 by {
                assert(kind_text(ts[p].kind).len() == ts[p].length);
            }
        }
        lemma_tokens_lengths(ts, bytes);
        let c = bytes[0] as char;
        let kd = kind_of_char(c);
        let n: int = if kd is Symbol && !prev_bs {
            1 + run_len(bytes.skip(1)) as int
        } else {
            1
        };
        let line2: int = if !(kd is Symbol && !prev_bs) && kd is NewLine {
            line + 1
        } else {
            line
        };
        let col2: int = if kd is Symbol && !prev_bs {
            col + n
        } else if kd is NewLine {
            0
        } else {
            col + 1
        };
        let pb2 = !(kd is Symbol && !prev_bs) && !(kd is NewLine) && kd is BackSlash;
        lemma_run_len_le(bytes.skip(1));
        let rest = spec_tokenize_from(bytes.skip(n), line2, col2, pb2);
        assert(ts == seq![ts[0]] + rest);
        assert(ts[0].length == n);
        lemma_tokenize_from_lines(bytes.skip(n), line2, col2, pb2);
        lemma_tokenize_from_text(bytes.skip(n), line2, col2, pb2);
        assert(lengths_nonneg(rest)) by {
            assert forall|p: int| 0 <= p < rest.len() implies (#[trigger] rest[p].length)
                >= 0 by {
                assert(kind_text(rest[p].kind).len() == rest[p].length);
            }
        }
        lemma_tokens_lengths(rest, bytes.skip(n));
        // the head token's bytes hold a newline exactly when it is one
        let head_nl: int = if kd is NewLine {
            1
        } else {
            0
        };
        assert(newline_bytes(bytes.take(n)) == head_nl) by {
            if kd is Symbol && !prev_bs {
                lemma_run_len_sound(bytes.skip(1));
                assert forall|j: int| 0 <= j < n implies (#[trigger] bytes.take(n)[j])
                    != 10 by {
                    assert(bytes.take(n)[j] == bytes[j]);
                    if j == 0 {
                        assert(kind_of_char(bytes[0] as char) is Symbol);
                    } else {
                        assert(bytes.skip(1)[j - 1] == bytes[j]);
                        assert(kind_of_char(bytes[j] as char) is Symbol);
                    }
                    assert(bytes[j] as char != '\n');
                    if bytes[j] == 10 {
                        assert(bytes[j] as char == '\n');
                    }
                }
                lemma_newline_bytes_zero(bytes.take(n));
            } else {
                assert(bytes.take(1)[0] == bytes[0]);
                assert(bytes.take(1).skip(1) =~= Seq::<u8>::empty());
                assert(newline_bytes(Seq::<u8>::empty()) == 0);
                if kd is NewLine {
                    assert(c == '\n');
                    assert(bytes[0] == 10) by {
                        if bytes[0] != 10 {
                            assert(bytes[0] as char != '\n');
                        }
                    }
                } else {
                    assert(c != '\n');
                    assert(bytes[0] != 10) by {
                        if bytes[0] == 10 {
                            assert(bytes[0] as char == '\n');
                        }
                    }
                }
                assert(newline_bytes(bytes.take(1)) == head_nl);
            }
        }
        assert forall|k: int| 0 <= k < ts.len() implies (#[trigger] ts[k]).line == line
            + newline_bytes(bytes.take(lengths_sum(ts.take(k)))) by {
            if k == 0 {
                assert(ts.take(0) =~= Seq::<TokenView>::empty());
                assert(bytes.take(0) =~= Seq::<u8>::empty());
                assert(ts[0].line == line);
            } else {
                assert(ts[k] == rest[k - 1]);
                let off = lengths_sum(rest.take(k - 1));
                assert(rest[k - 1].line == line2 + newline_bytes(bytes.skip(n).take(off)));
                assert(lengths_sum(ts.take(k)) == n + off) by {
                    assert(ts.take(k)[0] == ts[0]);
                    assert(ts.take(k).skip(1) =~= rest.take(k - 1));
                }
                assert(0 <= off <= bytes.skip(n).len()) by {
                    assert(lengths_nonneg(rest.take(k - 1))) by {
                        assert forall|p: int| 0 <= p < rest.take(k - 1).len() implies (
                        #[trigger] rest.take(k - 1)[p].length) >= 0 by {
                            assert(rest.take(k - 1)[p] == rest[p]);
                        }
                    }
                    lemma_lengths_nonneg(rest.take(k - 1));
                    lemma_lengths_split(rest, k - 1);
                    lemma_lengths_suffix(rest, k - 1);
                }
                assert(newline_bytes(bytes.take(n + off)) == head_nl + newline_bytes(
                    bytes.skip(n).take(off),
                )) by {
                    lemma_newline_bytes_split(bytes.take(n + off), n);
                    assert(bytes.take(n + off).take(n) =~= bytes.take(n));
                    assert(bytes.take(n + off).skip(n) =~= bytes.skip(n).take(off));
                }
                assert(line2 == line + head_nl);
            }
        }
    }
}

/// Law: the tokenizer covers its input exactly. Concatenating the texts of
/// the produced tokens reconstructs the buffer's characters, each token's
/// recorded length is the length of its text, the positions chain from
/// line 1, column 0 (within a line every token starts where the previous one
/// ended, and a newline moves to column 0 of the next line), and each
/// token's line is one more than the number of newline bytes strictly
/// before its first covered byte, that byte's offset being the summed
/// lengths of the tokens before it.
pub proof fn lemma_tokenizer_covers_input(bytes: Seq<u8>)
    ensures
        tokens_text(spec_tokenize(bytes)) == chars_of(bytes),
        forall|k: int|
            0 <= k < spec_tokenize(bytes).len() ==> kind_text(
                #[trigger] spec_tokenize(bytes)[k].kind,
            ).len() == spec_tokenize(bytes)[k].length,
        positions_chain(spec_tokenize(bytes), 1, 0),
        forall|k: int|
            0 <= k < spec_tokenize(bytes).len() ==> (#[trigger] spec_tokenize(bytes)[k]).line
                == 1 + newline_bytes(bytes.take(lengths_sum(spec_tokenize(bytes).take(k)))),
{
    lemma_tokenize_from_text(bytes, 1, 0, false);
    lemma_tokenize_from_positions(bytes, 1, 0, false);
    lemma_tokenize_from_lines(bytes, 1, 0, false);
}

/// Lexing one binding statement — a symbol key, a space, an equals sign, a
/// space, and a symbol text — yields exactly the three cleaned tokens:
/// the key symbol, the equals sign, the text symbol.
pub proof fn lemma_lex_statement(key: Seq<u8>, text: Seq<u8>)
    requires
        key.len() > 0,
        text.len() > 0,
        forall|j: int|
            0 <= j < key.len() ==> kind_of_char((#[trigger] key[j]) as char) is Symbol,
        forall|j: int|
            0 <= j < text.len() ==> kind_of_char((#[trigger] text[j]) as char) is Symbol,
    ensures
        ({
            let buffer = key + seq![32u8] + seq![61u8] + seq![32u8] + text;
            let out = spec_filter(spec_tokenize(buffer));
            &&& out.len() == 3
            &&& out[0].kind == KindView::Symbol(chars_of(key))
            &&& out[1].kind is Equals
            &&& out[2].kind == KindView::Symbol(chars_of(text))
        }),
{
    let b = key + seq![32u8] + seq![61u8] + seq![32u8] + text;
    let klen = key.len() as int;
    let tlen = text.len() as int;
    assert(b.len() == klen + 3 + tlen);
    assert(forall|j: int| 0 <= j < klen ==> b[j] == (#[trigger] key[j]));
    assert(b[klen] == 32 && b[klen + 1] == 61 && b[klen + 2] == 32);
    assert(forall|j: int| 0 <= j < tlen ==> b[klen + 3 + j] == (#[trigger] text[j]));
    assert((32u8 as char) == ' ' && (61u8 as char) == '=');

    // the key is one maximal symbol run, stopped by the space
    let s1 = b.skip(1);
    assert forall|j: int| 0 <= j < klen - 1 implies kind_of_char(
        (#[trigger] s1[j]) as char,
    ) is Symbol by {
        assert(s1[j] == b[j + 1]);
    }
    assert(s1[klen - 1] == b[klen]);
    lemma_run_len_exact(s1, klen - 1);
    assert(b.take(klen) =~= key);
    assert(chars_of(b.take(klen)) =~= chars_of(key));
    let tok_key = TokenView {
        kind: KindView::Symbol(chars_of(key)),
        line: 1,
        character: 0,
        length: klen,
    };
    assert(spec_tokenize(b) == seq![tok_key] + spec_tokenize_from(b.skip(klen), 1, klen, false));

    // the space before the equals sign
    let b1 = b.skip(klen);
    assert(b1[0] == b[klen]);
    let tok_sp1 = TokenView { kind: KindView::Space, line: 1, character: klen, length: 1 };
    assert(b1.skip(1) =~= b.skip(klen + 1));
    assert(spec_tokenize_from(b1, 1, klen, false) == seq![tok_sp1] + spec_tokenize_from(
        b.skip(klen + 1),
        1,
        klen + 1,
        false,
    ));

    // the equals sign
    let b2 = b.skip(klen + 1);
    assert(b2[0] == b[klen + 1]);
    let tok_eq = TokenView { kind: KindView::Equals, line: 1, character: klen + 1, length: 1 };
    assert(b2.skip(1) =~= b.skip(klen + 2));
    assert(spec_tokenize_from(b2, 1, klen + 1, false) == seq![tok_eq] + spec_tokenize_from(
        b.skip(klen + 2),
        1,
        klen + 2,
        false,
    ));

    // the space after the equals sign
    let b3 = b.skip(klen + 2);
    assert(b3[0] == b[klen + 2]);
    let tok_sp2 = TokenView { kind: KindView::Space, line: 1, character: klen + 2, length: 1 };
    assert(b3.skip(1) =~= b.skip(klen + 3));
    assert(spec_tokenize_from(b3, 1, klen + 2, false) == seq![tok_sp2] + spec_tokenize_from(
        b.skip(klen + 3),
        1,
        klen + 3,
        false,
    ));

    // the text is one symbol run to the end of the buffer
    let b4 = b.skip(klen + 3);
    assert(b4 =~= text);
    let s2 = text.skip(1);
    assert forall|j: int| 0 <= j < tlen - 1 implies kind_of_char(
        (#[trigger] s2[j]) as char,
    ) is Symbol by {
        assert(s2[j] == text[j + 1]);
    }
    lemma_run_len_exact(s2, tlen - 1);
    assert(text.take(tlen) =~= text);
    assert(chars_of(text.take(tlen)) =~= chars_of(text));
    let tok_text = TokenView {
        kind: KindView::Symbol(chars_of(text)),
        line: 1,
        character: klen + 3,
        length: tlen,
    };
    assert(text.skip(tlen) =~= Seq::<u8>::empty());
    assert(spec_tokenize_from(Seq::<u8>::empty(), 1, klen + 3 + tlen, false) =~= Seq::<
        TokenView,
    >::empty());
    assert(spec_tokenize_from(text, 1, klen + 3, false) == seq![tok_text] + spec_tokenize_from(
        text.skip(tlen),
        1,
        klen + 3 + tlen,
        false,
    ));

    let raw = seq![tok_key, tok_sp1, tok_eq, tok_sp2, tok_text];
    assert(spec_tokenize(b) =~= raw);

    // the filter keeps the symbols and the equals sign, dropping the spaces
    assert(raw.skip(1) =~= seq![tok_sp1, tok_eq, tok_sp2, tok_text]);
    assert(spec_filter(raw) == seq![tok_key] + spec_filter(raw.skip(1)));
    let r1 = seq![tok_sp1, tok_eq, tok_sp2, tok_text];
    assert(raw.skip(1) == r1);
    assert(r1.skip(1) =~= seq![tok_eq, tok_sp2, tok_text]);
    assert(spec_filter(r1) == spec_filter(r1.skip(1)));
    let r2 = seq![tok_eq, tok_sp2, tok_text];
    assert(r2.skip(1) =~= seq![tok_sp2, tok_text]);
    assert(spec_filter(r2) == seq![tok_eq] + spec_filter(r2.skip(1)));
    let r3 = seq![tok_sp2, tok_text];
    assert(r3.skip(1) =~= seq![tok_text]);
    assert(spec_filter(r3) == spec_filter(r3.skip(1)));
    let r4 = seq![tok_text];
    assert(r4.skip(1) =~= Seq::<TokenView>::empty());
    assert(spec_filter(Seq::<TokenView>::empty()) =~= Seq::<TokenView>::empty());
    assert(spec_filter(r4) == seq![tok_text] + spec_filter(r4.skip(1)));
    assert(spec_filter(raw) =~= seq![tok_key, tok_eq, tok_text]);
}

/// Splits a byte buffer into positioned tokens: every punctuation character
/// becomes its own token, and every maximal run of other characters becomes
/// one symbol token, except that the token right after a backslash is never
/// extended past one character.
pub fn tokenize(buffer: &[u8]) -> (r: Vec<Token>)
    requires
        buffer@.len() < usize::MAX,
    ensures
        tokens_view(r@) == spec_tokenize(buffer@),
{
    let mut tokens: Vec<Token> = Vec::new();
    let mut i: usize = 0;
    let mut line: usize = 1;
    let mut col: usize = 0;
    let mut prev_bs: bool = false;

    proof {
        assert(buffer@.skip(0) =~= buffer@);
        assert(tokens_view(tokens@) + spec_tokenize(buffer@) =~= spec_tokenize(buffer@));
    }
    while i < buffer.len()
        invariant
            buffer@.len() < usize::MAX,
            i <= buffer.len(),
            1 <= line <= i + 1,
            col <= i,
            spec_tokenize(buffer@) == tokens_view(tokens@) + spec_tokenize_from(
                buffer@.skip(i as int),
                line as int,
                col as int,
                prev_bs,
            ),
        decreases buffer@.len() - i,
    {
        let ghost pre = buffer@.skip(i as int);
        let c = buffer[i] as char;
        assert(pre[0] == buffer@[i as int]);
        if TokenKind::is_symbol_char(c) && !prev_bs {
            let start = i;
            let mut text = String::new();
            push_char(&mut text, c);
            i = i + 1;
            while i < buffer.len() && TokenKind::is_symbol_char(buffer[i] as char)
                invariant
                    start < i <= buffer.len(),
                    text@ == chars_of(buffer@.subrange(start as int, i as int)),
                    forall|j: int|
                        start <= j < i ==> kind_of_char(#[trigger] buffer@[j] as char) is Symbol,
                decreases buffer@.len() - i,
            {
                push_char(&mut text, buffer[i] as char);
                assert(text@ =~= chars_of(buffer@.subrange(start as int, i + 1)));
                i = i + 1;
            }
            proof {
                let suf = buffer@.skip(start as int);
                assert forall|j: int| 0 <= j < i - start implies kind_of_char(
                    #[trigger] suf[j] as char,
                ) is Symbol by {
                    assert(suf[j] == buffer@[start + j]);
                }
                if i - start < suf.len() {
                    assert(suf[i - start] == buffer@[i as int]);
                }
                lemma_run_len_exact(suf, i - start);
                lemma_run_len_exact(suf.skip(1), i - start - 1);
                assert(suf.skip(1) =~= buffer@.skip(start + 1));
                assert(suf.take(i - start) =~= buffer@.subrange(start as int, i as int));
                assert(suf.skip(i - start) =~= buffer@.skip(i as int));
            }
            let token = Token::new(
                TokenKind::Symbol(text),
                TokenPosition { line, character: col, length: i - start },
            );
            proof {
                assert(tokens_view(tokens@.push(token)) =~= tokens_view(tokens@) + seq![
                    token.view(),
                ]);
            }
            tokens.push(token);
            col = col + (i - start);
            prev_bs = false;
        } else {
            let kind = TokenKind::from_char(c);
            let is_nl = c == '\n';
            let is_bs = c == '\\';
            let token = Token::new(kind, TokenPosition { line, character: col, length: 1 });
            proof {
                assert(tokens_view(tokens@.push(token)) =~= tokens_view(tokens@) + seq![
                    token.view(),
                ]);
                assert(pre.skip(1) =~= buffer@.skip(i + 1));
            }
            tokens.push(token);
            if is_nl {
                line = line + 1;
                col = 0;
            } else {
                col = col + 1;
            }
            prev_bs = is_bs;
            i = i + 1;
        }
    }
    proof {
        assert(buffer@.skip(i as int) =~= Seq::<u8>::empty());
        assert(spec_tokenize(buffer@) =~= tokens_view(tokens@));
    }
    tokens
}

/// The sum of the recorded lengths of a stream of tokens.
pub open spec fn lengths_sum(ts: Seq<TokenView>) -> int
    decreases ts.len(),
{
    if ts.len() == 0 {
        0
    } else {
        ts[0].length + lengths_sum(ts.skip(1))
    }
}

/// Whether every recorded length in the stream is nonnegative.
pub open spec fn lengths_nonneg(ts: Seq<TokenView>) -> bool {
    forall|k: int| 0 <= k < ts.len() ==> (#[trigger] ts[k].length) >= 0
}

proof fn lemma_lengths_split(ts: Seq<TokenView>, n: int)
    requires
        0 <= n <= ts.len(),
    ensures
        lengths_sum(ts) == lengths_sum(ts.take(n)) + lengths_sum(ts.skip(n)),
    decreases n,
{
    if n == 0 {
        assert(ts.take(0) =~= Seq::empty());
        assert(ts.skip(0) =~= ts);
    } else {
        lemma_lengths_split(ts.skip(1), n - 1);
        assert(ts.skip(1).take(n - 1) =~= ts.take(n).skip(1));
        assert(ts.skip(1).skip(n - 1) =~= ts.skip(n));
        assert(lengths_sum(ts.take(n)) == ts.take(n)[0].length + lengths_sum(
            ts.take(n).skip(1),
        ));
    }
}

proof fn lemma_lengths_nonneg(ts: Seq<TokenView>)
    requires
        lengths_nonneg(ts),
    ensures
        lengths_sum(ts) >= 0,
    decreases ts.len(),
{
    if ts.len() > 0 {
        assert(lengths_nonneg(ts.skip(1))) by {
            assert forall|k: int| 0 <= k < ts.skip(1).len() implies (#[trigger] ts.skip(
                1,
            )[k].length) >= 0 by {
                assert(ts.skip(1)[k] == ts[k + 1]);
            }
        }
        lemma_lengths_nonneg(ts.skip(1));
    }
}

/// The remainder of the stream after a line comment: everything through the
/// next newline token is dropped, the newline included.
pub open spec fn skip_line(ts: Seq<TokenView>) -> Seq<TokenView>
    decreases ts.len(),
{
    if ts.len() == 0 {
        Seq::empty()
    } else if ts[0].kind is NewLine {
        ts.skip(1)
    } else {
        skip_line(ts.skip(1))
    }
}

proof fn lemma_skip_line_le(ts: Seq<TokenView>)
    ensures
        skip_line(ts).len() <= ts.len(),
    decreases ts.len(),
{
    if ts.len() > 0 && !(ts[0].kind is NewLine) {
        lemma_skip_line_le(ts.skip(1));
    }
}

/// The remainder of the stream after a block comment body: tokens are
/// dropped up to the first asterisk-slash pair, that pair included, and a
/// newline right after the pair is dropped too. A block comment never closed
/// consumes the rest of the stream.
pub open spec fn skip_block(ts: Seq<TokenView>) -> Seq<TokenView>
    decreases ts.len(),
{
    if ts.len() == 0 {
        Seq::empty()
    } else if ts[0].kind is Asterisk && ts.len() >= 2 && ts[1].kind is Slash {
        let after = ts.skip(2);
        if after.len() > 0 && after[0].kind is NewLine {
            after.skip(1)
        } else {
            after
        }
    } else {
        skip_block(ts.skip(1))
    }
}

proof fn lemma_skip_block_le(ts: Seq<TokenView>)
    ensures
        skip_block(ts).len() <= ts.len(),
    decreases ts.len(),
{
    if ts.len() == 0 {
    } else if ts[0].kind is Asterisk && ts.len() >= 2 && ts[1].kind is Slash {
    } else {
        lemma_skip_block_le(ts.skip(1));
    }
}

/// The character an escape stands for inside a quoted string: the token
/// after a backslash is mapped through its text, and only the five known
/// escapes produce a character.
pub open spec fn escape_char(k: KindView) -> Option<char> {
    match k {
        KindView::BackSlash => Some('\\'),
        KindView::Quote => Some('\''),
        KindView::Symbol(s) => if s == seq!['\\'] {
            Some('\\')
        } else if s == seq!['r'] {
            Some('\r')
        } else if s == seq!['n'] {
            Some('\n')
        } else if s == seq!['t'] {
            Some('\t')
        } else if s == seq!['\''] {
            Some('\'')
        } else {
            Option::None
        },
        _ => Option::None,
    }
}

/// How a string scan ends: with the closing quote found, carrying the
/// assembled body text, the length the body token grows by, the closing
/// quote itself and the remaining stream; or never closed, in which case
/// the whole remaining stream is consumed.
pub enum StringScan {
    Closed { body: Seq<char>, extra: int, close: TokenView, rest: Seq<TokenView> },
    Unterminated,
}

/// Scans a quoted string body: tokens are appended verbatim to the body and
/// their lengths to `extra`, a backslash consumes the following token and
/// appends only the character its escape stands for, and the first plain
/// quote token closes the string. A backslash with nothing after it leaves
/// the string unterminated.
pub open spec fn scan_string_from(ts: Seq<TokenView>, body: Seq<char>, extra: int) -> StringScan
    decreases ts.len(),
{
    if ts.len() == 0 {
        StringScan::Unterminated
    } else {
        let t = ts[0];
        match t.kind {
            KindView::Quote => StringScan::Closed {
                body,
                extra: extra + t.length,
                close: t,
                rest: ts.skip(1),
            },
            KindView::BackSlash => {
                if ts.len() == 1 {
                    StringScan::Unterminated
                } else {
                    match escape_char(ts[1].kind) {
                        Some(c) => scan_string_from(ts.skip(2), body.push(c), extra),
                        Option::None => scan_string_from(ts.skip(2), body, extra),
                    }
                }
            },
            _ => scan_string_from(ts.skip(1), body + kind_text(t.kind), extra + t.length),
        }
    }
}

proof fn lemma_scan_rest_le(ts: Seq<TokenView>, body: Seq<char>, extra: int)
    ensures
        scan_string_from(ts, body, extra) matches StringScan::Closed { rest, close, .. }
            ==> rest.len() < ts.len() && close.kind is Quote,
    decreases ts.len(),
{
    if ts.len() > 0 {
        match ts[0].kind {
            KindView::Quote => {},
            KindView::BackSlash => {
                if ts.len() > 1 {
                    match escape_char(ts[1].kind) {
                        Some(c) => lemma_scan_rest_le(ts.skip(2), body.push(c), extra),
                        Option::None => lemma_scan_rest_le(ts.skip(2), body, extra),
                    }
                }
            },
            _ => {
                lemma_scan_rest_le(ts.skip(1), body + kind_text(ts[0].kind), extra
                    + ts[0].length);
            },
        }
    }
}

/// The cleaned token stream: line and block comments are dropped (a line
/// comment takes its newline with it, a block comment takes a newline right
/// after its close), standalone spaces and tabs are dropped, a quoted string
/// becomes the triple quote, assembled body symbol, quote (or just the
/// opening quote when the closing one never comes), and every other token
/// passes through unchanged.
pub open spec fn spec_filter(ts: Seq<TokenView>) -> Seq<TokenView>
    decreases ts.len(),
    via spec_filter_dec
{
    if ts.len() == 0 {
        Seq::empty()
    } else {
        let t = ts[0];
        if t.kind is Slash && ts.len() >= 2 && ts[1].kind is Slash {
            spec_filter(skip_line(ts.skip(1)))
        } else if t.kind is Slash && ts.len() >= 2 && ts[1].kind is Asterisk {
            spec_filter(skip_block(ts.skip(1)))
        } else if t.kind is Quote {
            match scan_string_from(ts.skip(1), Seq::empty(), 0) {
                StringScan::Closed { body, extra, close, rest } => {
                    let body_tok = TokenView {
                        kind: KindView::Symbol(body),
                        line: t.line,
                        character: t.character,
                        length: t.length + extra,
                    };
                    seq![t, body_tok, close] + spec_filter(rest)
                },
                StringScan::Unterminated => seq![t],
            }
        } else if t.kind is Space || t.kind is Tab {
            spec_filter(ts.skip(1))
        } else {
            seq![t] + spec_filter(ts.skip(1))
        }
    }
}

#[via_fn]
proof fn spec_filter_dec(ts: Seq<TokenView>) {
    if ts.len() > 0 {
        lemma_skip_line_le(ts.skip(1));
        lemma_skip_block_le(ts.skip(1));
        lemma_scan_rest_le(ts.skip(1), Seq::empty(), 0);
    }
}

/// No token of the stream is a standalone space or tab.
pub open spec fn whitespace_free(ts: Seq<TokenView>) -> bool {
    forall|k: int|
        0 <= k < ts.len() ==> !((#[trigger] ts[k].kind) is Space) && !(ts[k].kind is Tab)
}

/// No token of the stream is a quote, and no slash is directly followed by
/// a slash or an asterisk: nothing in the stream opens a string or a
/// comment.
pub open spec fn nothing_opens(ts: Seq<TokenView>) -> bool {
    &&& forall|k: int| 0 <= k < ts.len() ==> !((#[trigger] ts[k].kind) is Quote)
    &&& forall|k: int|
        0 <= k && k + 1 < ts.len() && (#[trigger] ts[k].kind) is Slash ==> !(ts[k + 1].kind
            is Slash) && !(ts[k + 1].kind is Asterisk)
}

/// The filter never leaves a standalone space or tab in its output.
pub proof fn lemma_filter_whitespace_free(ts: Seq<TokenView>)
    ensures
        whitespace_free(spec_filter(ts)),
    decreases ts.len(),
{
    if ts.len() > 0 {
        lemma_skip_line_le(ts.skip(1));
        lemma_skip_block_le(ts.skip(1));
        lemma_scan_rest_le(ts.skip(1), Seq::empty(), 0);
        let t = ts[0];
        let out = spec_filter(ts);
        if t.kind is Slash && ts.len() >= 2 && ts[1].kind is Slash {
            lemma_filter_whitespace_free(skip_line(ts.skip(1)));
        } else if t.kind is Slash && ts.len() >= 2 && ts[1].kind is Asterisk {
            lemma_filter_whitespace_free(skip_block(ts.skip(1)));
        } else if t.kind is Quote {
            match scan_string_from(ts.skip(1), Seq::empty(), 0) {
                StringScan::Closed { body, extra, close, rest } => {
                    lemma_filter_whitespace_free(rest);
                    let fr = spec_filter(rest);
                    assert forall|k: int| 0 <= k < out.len() implies !((#[trigger] out[k].kind)
                        is Space) && !(out[k].kind is Tab) by {
                        if k >= 3 {
                            assert(out[k] == fr[k - 3]);
                        }
                    }
                },
                StringScan::Unterminated => {},
            }
        } else if t.kind is Space || t.kind is Tab {
            lemma_filter_whitespace_free(ts.skip(1));
        } else {
            lemma_filter_whitespace_free(ts.skip(1));
            let fr = spec_filter(ts.skip(1));
            assert forall|k: int| 0 <= k < out.len() implies !((#[trigger] out[k].kind)
                is Space) && !(out[k].kind is Tab) by {
                if k >= 1 {
                    assert(out[k] == fr[k - 1]);
                }
            }
        }
    }
}

/// On a stream with no whitespace tokens and nothing that opens a string or
/// a comment, the filter changes nothing.
pub proof fn lemma_filter_fixpoint(ts: Seq<TokenView>)
    requires
        whitespace_free(ts),
        nothing_opens(ts),
    ensures
        spec_filter(ts) == ts,
    decreases ts.len(),
{
    if ts.len() > 0 {
        let t = ts[0];
        let rest = ts.skip(1);
        assert(!(t.kind is Quote) && !(t.kind is Space) && !(t.kind is Tab));
        if ts.len() >= 2 && t.kind is Slash {
            assert(!(ts[1].kind is Slash) && !(ts[1].kind is Asterisk));
        }
        assert(whitespace_free(rest) && nothing_opens(rest)) by {
            assert forall|k: int| 0 <= k < rest.len() implies !((#[trigger] rest[k].kind)
                is Space) && !(rest[k].kind is Tab) && !(rest[k].kind is Quote) by {
                assert(rest[k] == ts[k + 1]);
            }
            assert forall|k: int|
                0 <= k && k + 1 < rest.len() && (#[trigger] rest[k].kind)
                    is Slash implies !(rest[k + 1].kind is Slash) && !(rest[k + 1].kind
                is Asterisk) by {
                assert(rest[k] == ts[k + 1] && rest[k + 1] == ts[k + 2]);
            }
        }
        lemma_filter_fixpoint(rest);
        assert(spec_filter(ts) =~= ts);
    }
}

/// Law: stripping twice is the same as stripping once. Whenever one pass of
/// the filter leaves a stream in which nothing opens a string or a comment,
/// a second pass returns that stream unchanged.
pub proof fn lemma_filter_idempotent(ts: Seq<TokenView>)
    requires
        nothing_opens(spec_filter(ts)),
    ensures
        spec_filter(spec_filter(ts)) == spec_filter(ts),
{
    lemma_filter_whitespace_free(ts);
    lemma_filter_fixpoint(spec_filter(ts));
}

/// The character a token stands for as an escape, if any.
fn escape_of(k: &TokenKind) -> (r: Option<char>)
    ensures
        r == escape_char(k.view()),
{
    match k {
        TokenKind::BackSlash => Some('\\'),
        TokenKind::Quote => Some('\''),
        TokenKind::Symbol(s) => {
            let a = s.as_str();
            if a.unicode_len() == 1 {
                let c = a.get_char(0);
                proof {
                    if c == '\\' || c == 'r' || c == 'n' || c == 't' || c == '\'' {
                        assert(s@ =~= seq![c]);
                    } else {
                        assert(s@ != seq!['\\'] && s@ != seq!['r'] && s@ != seq!['n'] && s@
                            != seq!['t'] && s@ != seq!['\'']) by {
                            assert(s@[0] == c);
                        }
                    }
                }
                match c {
                    '\\' => Some('\\'),
                    'r' => Some('\r'),
                    'n' => Some('\n'),
                    't' => Some('\t'),
                    '\'' => Some('\''),
                    _ => Option::None,
                }
            } else {
                proof {
                    assert(s@ != seq!['\\'] && s@ != seq!['r'] && s@ != seq!['n'] && s@
                        != seq!['t'] && s@ != seq!['\'']) by {
                        assert(seq!['\\'].len() == 1 && seq!['r'].len() == 1 && seq![
                            'n',
                        ].len() == 1 && seq!['t'].len() == 1 && seq!['\''].len() == 1);
                    }
                }
                Option::None
            }
        },
        _ => Option::None,
    }
}

proof fn lemma_view_push(v: Seq<Token>, t: Token)
    ensures
        tokens_view(v.push(t)) == tokens_view(v).push(t.view()),
{
    assert(tokens_view(v.push(t)) =~= tokens_view(v).push(t.view()));
}

proof fn lemma_lengths_suffix(ts: Seq<TokenView>, n: int)
    requires
        lengths_nonneg(ts),
        0 <= n <= ts.len(),
    ensures
        lengths_nonneg(ts.skip(n)),
        lengths_sum(ts.skip(n)) >= 0,
        lengths_sum(ts.skip(n)) <= lengths_sum(ts),
{
    assert(lengths_nonneg(ts.skip(n))) by {
        assert forall|k: int| 0 <= k < ts.skip(n).len() implies (#[trigger] ts.skip(
            n,
        )[k].length) >= 0 by {
            assert(ts.skip(n)[k] == ts[k + n]);
        }
    }
    assert(lengths_nonneg(ts.take(n))) by {
        assert forall|k: int| 0 <= k < ts.take(n).len() implies (#[trigger] ts.take(
            n,
        )[k].length) >= 0 by {
            assert(ts.take(n)[k] == ts[k]);
        }
    }
    lemma_lengths_split(ts, n);
    lemma_lengths_nonneg(ts.skip(n));
    lemma_lengths_nonneg(ts.take(n));
}

/// Cleans a raw token stream: drops comments and standalone whitespace, and
/// collapses each quoted string into the triple quote, body symbol, quote,
/// the body assembled with its escapes resolved. A string whose closing
/// quote never comes is left as just its opening quote, its partial body
/// dropped; the token after a trailing lone backslash inside such a string
/// does not exist, and the scan simply ends there.
pub fn filter(tokens: &[Token]) -> (r: Vec<Token>)
    requires
        lengths_sum(tokens_view(tokens@)) <= usize::MAX,
    ensures
        tokens_view(r@) == spec_filter(tokens_view(tokens@)),
{
    let ghost ts = tokens_view(tokens@);
    proof {
        assert(lengths_nonneg(ts)) by {
            assert forall|k: int| 0 <= k < ts.len() implies (#[trigger] ts[k].length) >= 0 by {
                assert(ts[k] == tokens@[k].view());
            }
        }
    }
    let mut out: Vec<Token> = Vec::new();
    let mut i: usize = 0;
    proof {
        assert(ts.skip(0) =~= ts);
        assert(tokens_view(out@) + spec_filter(ts) =~= spec_filter(ts));
    }
    while i < tokens.len()
        invariant
            i <= tokens.len(),
            ts == tokens_view(tokens@),
            lengths_nonneg(ts),
            lengths_sum(ts) <= usize::MAX,
            spec_filter(ts) == tokens_view(out@) + spec_filter(ts.skip(i as int)),
        decreases tokens@.len() - i,
    {
        let ghost pre = ts.skip(i as int);
        proof {
            assert(pre[0] == ts[i as int]);
            if i + 1 < ts.len() {
                assert(pre[1] == ts[i + 1]);
            }
            assert(pre.skip(1) =~= ts.skip(i + 1));
        }
        let slash = matches!(tokens[i].kind, TokenKind::Slash);
        let next_slash = i + 1 < tokens.len() && matches!(tokens[i + 1].kind, TokenKind::Slash);
        let next_ast = i + 1 < tokens.len() && matches!(tokens[i + 1].kind, TokenKind::Asterisk);
        if slash && next_slash {
            // Line comment: consume through the next newline, newline included.
            let mut j = i + 1;
            loop
                invariant_except_break
                    i + 1 <= j <= tokens@.len(),
                    ts == tokens_view(tokens@),
                    skip_line(ts.skip(i + 1)) == skip_line(ts.skip(j as int)),
                ensures
                    i + 1 <= j <= tokens@.len(),
                    ts == tokens_view(tokens@),
                    j < tokens@.len() ==> skip_line(ts.skip(i + 1)) == ts.skip(j + 1),
                    j == tokens@.len() ==> skip_line(ts.skip(i + 1)) =~= Seq::<
                        TokenView,
                    >::empty(),
                decreases tokens@.len() - j,
            {
                if j >= tokens.len() {
                    proof {
                        assert(ts.skip(j as int) =~= Seq::<TokenView>::empty());
                    }
                    break;
                }
                proof {
                    assert(ts.skip(j as int)[0] == ts[j as int]);
                    assert(ts[j as int] == tokens@[j as int].view());
                    assert(ts.skip(j as int).skip(1) =~= ts.skip(j + 1));
                }
                if matches!(tokens[j].kind, TokenKind::NewLine) {
                    break;
                }
                j = j + 1;
            }
            if j < tokens.len() {
                i = j + 1;
            } else {
                proof {
                    assert(ts.skip(tokens@.len() as int) =~= Seq::<TokenView>::empty());
                    assert(skip_line(ts.skip(i + 1)) =~= ts.skip(tokens@.len() as int));
                }
                i = j;
            }
        } else if slash && next_ast {
            // Block comment: consume through the first asterisk-slash pair,
            // and one newline right after it; never closed, it consumes the
            // rest of the stream.
            let mut j = i + 1;
            let mut closed = false;
            loop
                invariant_except_break
                    i + 1 <= j <= tokens@.len(),
                    !closed,
                    ts == tokens_view(tokens@),
                    skip_block(ts.skip(i + 1)) == skip_block(ts.skip(j as int)),
                ensures
                    i + 1 <= j <= tokens@.len(),
                    ts == tokens_view(tokens@),
                    closed ==> j + 1 < tokens@.len() && ts[j as int].kind is Asterisk && ts[j
                        + 1].kind is Slash && skip_block(ts.skip(i + 1)) == skip_block(
                        ts.skip(j as int),
                    ),
                    !closed ==> skip_block(ts.skip(i + 1)) =~= Seq::<TokenView>::empty(),
                decreases tokens@.len() - j,
            {
                if j >= tokens.len() {
                    proof {
                        assert(ts.skip(j as int) =~= Seq::<TokenView>::empty());
                    }
                    break;
                }
                proof {
                    assert(ts.skip(j as int)[0] == ts[j as int]);
                    assert(ts[j as int] == tokens@[j as int].view());
                    if j + 1 < ts.len() {
                        assert(ts.skip(j as int)[1] == ts[j + 1]);
                        assert(ts[j + 1] == tokens@[j + 1].view());
                    }
                    assert(ts.skip(j as int).skip(1) =~= ts.skip(j + 1));
                }
                if matches!(tokens[j].kind, TokenKind::Asterisk) && j + 1 < tokens.len()
                    && matches!(tokens[j + 1].kind, TokenKind::Slash) {
                    proof {
                        assert(ts[j as int].kind is Asterisk);
                        assert(ts[j + 1].kind is Slash);
                    }
                    closed = true;
                    break;
                }
                j = j + 1;
            }
            if closed {
                proof {
                    assert(ts.skip(j as int).skip(2) =~= ts.skip(j + 2));
                    if j + 2 < ts.len() {
                        assert(ts.skip(j + 2)[0] == ts[j + 2]);
                        assert(ts[j + 2] == tokens@[j + 2].view());
                        assert(ts.skip(j + 2).skip(1) =~= ts.skip(j + 3));
                    }
                }
                if j + 2 < tokens.len() && matches!(tokens[j + 2].kind, TokenKind::NewLine) {
                    i = j + 3;
                } else {
                    i = j + 2;
                }
            } else {
                proof {
                    assert(ts.skip(tokens@.len() as int) =~= Seq::<TokenView>::empty());
                    assert(skip_block(ts.skip(i + 1)) =~= ts.skip(tokens@.len() as int));
                }
                i = tokens.len();
            }
        } else if matches!(tokens[i].kind, TokenKind::Quote) {
            // Quoted string: emit the quote, then assemble the body until the
            // closing quote.
            let qpos = tokens[i].position;
            let ghost qv = ts[i as int];
            let opening = tokens[i].clone();
            proof {
                lemma_view_push(out@, opening);
            }
            out.push(opening);
            let mut text = String::new();
            let mut blen: usize = qpos.length;
            let mut j = i + 1;
            let mut closed = false;
            let mut jc: usize = 0;
            proof {
                lemma_lengths_suffix(ts, i as int);
                assert(lengths_sum(ts.skip(i as int)) == pre[0].length + lengths_sum(
                    pre.skip(1),
                ));
                lemma_lengths_suffix(ts, i + 1);
            }
            loop
                invariant_except_break
                    i + 1 <= j <= tokens@.len(),
                    !closed,
                    ts == tokens_view(tokens@),
                    lengths_nonneg(ts),
                    blen >= qv.length,
                    blen + lengths_sum(ts.skip(j as int)) <= usize::MAX,
                    scan_string_from(ts.skip(i + 1), Seq::empty(), 0) == scan_string_from(
                        ts.skip(j as int),
                        text@,
                        blen - qv.length,
                    ),
                ensures
                    ts == tokens_view(tokens@),
                    closed ==> i + 1 <= jc && jc < tokens@.len() && ts[jc as int].kind is Quote
                        && scan_string_from(ts.skip(i + 1), Seq::empty(), 0)
                        == (StringScan::Closed {
                        body: text@,
                        extra: blen - qv.length,
                        close: ts[jc as int],
                        rest: ts.skip(jc + 1),
                    }),
                    !closed ==> scan_string_from(ts.skip(i + 1), Seq::empty(), 0)
                        is Unterminated,
                decreases tokens@.len() - j,
            {
                if j >= tokens.len() {
                    proof {
                        assert(ts.skip(j as int) =~= Seq::<TokenView>::empty());
                    }
                    break;
                }
                proof {
                    assert(ts.skip(j as int)[0] == ts[j as int]);
                    assert(ts[j as int] == tokens@[j as int].view());
                    assert(ts.skip(j as int).skip(1) =~= ts.skip(j + 1));
                    assert(lengths_sum(ts.skip(j as int)) == ts[j as int].length + lengths_sum(
                        ts.skip(j + 1),
                    ));
                    lemma_lengths_suffix(ts, j + 1);
                }
                if matches!(tokens[j].kind, TokenKind::Quote) {
                    proof {
                        assert(ts[j as int].kind is Quote);
                        assert(scan_string_from(ts.skip(j as int), text@, blen - qv.length)
                            == (StringScan::Closed {
                            body: text@,
                            extra: blen - qv.length + ts[j as int].length,
                            close: ts[j as int],
                            rest: ts.skip(j + 1),
                        }));
                    }
                    blen = blen + tokens[j].position.length;
                    jc = j;
                    closed = true;
                    break;
                } else if matches!(tokens[j].kind, TokenKind::BackSlash) {
                    if j + 1 >= tokens.len() {
                        proof {
                            assert(ts.skip(j as int).len() == 1);
                            assert(ts[j as int].kind is BackSlash);
                            assert(scan_string_from(ts.skip(j as int), text@, blen - qv.length)
                                is Unterminated);
                        }
                        break;
                    }
                    proof {
                        assert(ts.skip(j as int)[1] == ts[j + 1]);
                        assert(ts[j + 1] == tokens@[j + 1].view());
                        assert(ts.skip(j as int).skip(2) =~= ts.skip(j + 2));
                        assert(ts.skip(j + 1)[0] == ts[j + 1]);
                        assert(ts.skip(j + 1).skip(1) =~= ts.skip(j + 2));
                        assert(lengths_sum(ts.skip(j + 1)) == ts[j + 1].length + lengths_sum(
                            ts.skip(j + 2),
                        ));
                        lemma_lengths_suffix(ts, j + 2);
                    }
                    match escape_of(&tokens[j + 1].kind) {
                        Some(c) => {
                            push_char(&mut text, c);
                        },
                        Option::None => {},
                    }
                    j = j + 2;
                } else {
                    let piece = tokens[j].kind.as_str();
                    text.append(piece);
                    blen = blen + tokens[j].position.length;
                    j = j + 1;
                }
            }
            if closed {
                let body = Token::new(
                    TokenKind::Symbol(text),
                    TokenPosition { line: qpos.line, character: qpos.character, length: blen },
                );
                let close = tokens[jc].clone();
                proof {
                    lemma_view_push(out@, body);
                }
                out.push(body);
                proof {
                    lemma_view_push(out@, close);
                }
                out.push(close);
                proof {
                    assert(tokens_view(out@) =~= (tokens_view(out@).subrange(
                        0,
                        tokens_view(out@).len() - 3,
                    ) + seq![qv, body.view(), close.view()]));
                }
                i = jc + 1;
            } else {
                i = tokens.len();
                proof {
                    assert(spec_filter(ts.skip(tokens@.len() as int)) =~= Seq::<
                        TokenView,
                    >::empty());
                }
            }
        } else if matches!(tokens[i].kind, TokenKind::Space) || matches!(
            tokens[i].kind,
            TokenKind::Tab,
        ) {
            i = i + 1;
        } else {
            let t = tokens[i].clone();
            proof {
                lemma_view_push(out@, t);
            }
            out.push(t);
            i = i + 1;
        }
        proof {
            assert(spec_filter(ts) == tokens_view(out@) + spec_filter(ts.skip(i as int)));
        }
    }
    proof {
        assert(ts.skip(i as int) =~= Seq::<TokenView>::empty());
        assert(tokens_view(out@) + spec_filter(ts.skip(i as int)) =~= tokens_view(out@));
    }
    out
}

/// Tokenizes and then filters a byte buffer.
pub fn lex(buffer: &[u8]) -> (r: Vec<Token>)
    requires
        buffer@.len() < usize::MAX,
    ensures
        tokens_view(r@) == spec_filter(spec_tokenize(buffer@)),
{
    let toks = tokenize(buffer);
    proof {
        lemma_tokenizer_covers_input(buffer@);
        lemma_tokens_lengths(spec_tokenize(buffer@), buffer@);
    }
    filter(toks.as_slice())
}

/// The recorded lengths of a tokenizer output sum to the buffer's length.
proof fn lemma_tokens_lengths(ts: Seq<TokenView>, bytes: Seq<u8>)
    requires
        tokens_text(ts) == chars_of(bytes),
        forall|k: int|
            0 <= k < ts.len() ==> kind_text(#[trigger] ts[k].kind).len() == ts[k].length,
    ensures
        lengths_sum(ts) == bytes.len(),
    decreases ts.len(),
{
    if ts.len() == 0 {
        assert(tokens_text(ts).len() == 0);
        assert(chars_of(bytes).len() == bytes.len());
    } else {
        let t0 = kind_text(ts[0].kind);
        let rest_text = tokens_text(ts.skip(1));
        assert(t0.len() == ts[0].length);
        assert(chars_of(bytes).len() == bytes.len());
        let m = t0.len() as int;
        assert(rest_text =~= chars_of(bytes).skip(m));
        assert(chars_of(bytes).skip(m) =~= chars_of(bytes.skip(m)));
        assert forall|k: int| 0 <= k < ts.skip(1).len() implies kind_text(
            #[trigger] ts.skip(1)[k].kind,
        ).len() == ts.skip(1)[k].length by {
            assert(ts.skip(1)[k] == ts[k + 1]);
        }
        lemma_tokens_lengths(ts.skip(1), bytes.skip(m));
        assert(ts[0].length == m);
        assert(bytes.skip(m).len() == bytes.len() - m) by {
            assert(chars_of(bytes).len() == bytes.len());
            assert(t0.len() + rest_text.len() == chars_of(bytes).len());
        }
        assert(lengths_sum(ts) == ts[0].length + lengths_sum(ts.skip(1)));
    }
}

} // verus!
