use vstd::prelude::*;
use vstd::string::StrSliceExecFns;

verus! {

/// Whether a character is a decimal digit.
pub open spec fn is_digit(c: char) -> bool {
    '0' <= c <= '9'
}

/// The numeric value of a decimal digit.
pub open spec fn digit_val(c: char) -> int {
    c as int - '0' as int
}

/// Whether every character of the text is a decimal digit.
pub open spec fn all_digits(s: Seq<char>) -> bool {
    forall|k: int| 0 <= k < s.len() ==> is_digit(#[trigger] s[k])
}

/// The value of a run of decimal digits, most significant first.
pub open spec fn digits_value(s: Seq<char>) -> int
    decreases s.len(),
{
    if s.len() == 0 {
        0
    } else {
        digits_value(s.drop_last()) * 10 + digit_val(s.last())
    }
}

/// The text with one leading sign character removed, if present.
pub open spec fn sign_body(s: Seq<char>) -> Seq<char> {
    if s.len() > 0 && (s[0] == '+' || s[0] == '-') {
        s.skip(1)
    } else {
        s
    }
}

/// The sign a literal carries: -1 under a leading minus, else 1.
pub open spec fn sign_of(s: Seq<char>) -> int {
    if s.len() > 0 && s[0] == '-' {
        -1
    } else {
        1
    }
}

/// Whether the text has the shape of a decimal integer: an optional sign
/// followed by one or more digits. Leading zeros are permitted.
pub open spec fn is_int_shape(s: Seq<char>) -> bool {
    sign_body(s).len() > 0 && all_digits(sign_body(s))
}

/// The signed value a decimal integer text stands for.
pub open spec fn int_literal_value(s: Seq<char>) -> int {
    sign_of(s) * digits_value(sign_body(s))
}

/// Whether the text is a signed 64-bit integer literal: integer shape, and
/// the value fits.
pub open spec fn is_int_literal(s: Seq<char>) -> bool {
    is_int_shape(s) && i64::MIN <= int_literal_value(s) <= i64::MAX
}

/// The lower-case counterpart of an upper-case ASCII letter; any other
/// character is left alone.
pub open spec fn to_lower(c: char) -> char {
    if 'A' <= c <= 'Z' {
        ((c as u8) + 32) as char
    } else {
        c
    }
}

/// The text mapped to lower case, ASCII letters only.
pub open spec fn lower_of(s: Seq<char>) -> Seq<char> {
    s.map_values(|c: char| to_lower(c))
}

/// Whether the unsigned part of a float literal is one of the special
/// words: inf, infinity or nan, in any letter case.
pub open spec fn is_inf_nan(s: Seq<char>) -> bool {
    ||| lower_of(s) == seq!['i', 'n', 'f']
    ||| lower_of(s) == seq!['i', 'n', 'f', 'i', 'n', 'i', 't', 'y']
    ||| lower_of(s) == seq!['n', 'a', 'n']
}

/// Whether the text is a float mantissa: digits with at most one decimal
/// point somewhere among them, and at least one digit.
pub open spec fn is_mantissa(s: Seq<char>) -> bool {
    ||| (s.len() > 0 && all_digits(s))
    ||| (s.len() >= 2 && exists|d: int|
        0 <= d < s.len() && s[d] == '.' && all_digits(s.take(d)) && all_digits(#[trigger] s.skip(
            d + 1,
        )))
}

/// Whether the unsigned part of a float literal is a number: a mantissa,
/// optionally followed by an exponent marker e or E with a signed run of
/// digits after it.
pub open spec fn is_number(s: Seq<char>) -> bool {
    ||| is_mantissa(s)
    ||| exists|e: int|
        0 <= e < s.len() && (s[e] == 'e' || s[e] == 'E') && is_mantissa(s.take(e)) && is_int_shape(
            #[trigger] s.skip(e + 1),
        )
}

/// Whether the text is a 64-bit float literal: an optional sign followed by
/// inf, infinity or nan in any letter case, or by a number with an optional
/// exponent. This is the literal grammar that the standard library's float
/// parsing documents.
pub open spec fn is_float_literal(s: Seq<char>) -> bool {
    is_inf_nan(sign_body(s)) || is_number(sign_body(s))
}

proof fn lemma_digits_nonneg(s: Seq<char>)
    requires
        all_digits(s),
    ensures
        digits_value(s) >= 0,
    decreases s.len(),
{
    if s.len() > 0 {
        assert(all_digits(s.drop_last())) by {
            assert(forall|k: int| 0 <= k < s.len() - 1 ==> s.drop_last()[k] == s[k]);
        }
        lemma_digits_nonneg(s.drop_last());
    }
}

/// A longer digit run never has a smaller value.
proof fn lemma_digits_prefix_le(s: Seq<char>, k: int)
    requires
        all_digits(s),
        0 <= k <= s.len(),
    ensures
        digits_value(s.take(k)) <= digits_value(s),
    decreases s.len() - k,
{
    if k < s.len() {
        lemma_digits_prefix_le(s, k + 1);
        let p = s.take(k + 1);
        assert(p.drop_last() =~= s.take(k));
        assert(p.last() == s[k]);
        assert(all_digits(s.take(k))) by {
            assert(forall|j: int| 0 <= j < k ==> s.take(k)[j] == s[j]);
        }
        lemma_digits_nonneg(s.take(k));
        assert(digits_value(p) == digits_value(s.take(k)) * 10 + digit_val(s[k]));
        assert(digits_value(s.take(k)) * 10 >= digits_value(s.take(k))) by (nonlinear_arith)
            requires
                digits_value(s.take(k)) >= 0,
        ;
    } else {
        assert(s.take(k) =~= s);
    }
}

/// Parses a run of decimal digits with one optional leading sign as a
/// signed 64-bit integer: Some exactly on texts of integer shape whose
/// value fits, and then the value is the text's.
pub fn parse_i64(s: &str) -> (r: Option<i64>)
    ensures
        r is Some <==> is_int_literal(s@),
        r matches Some(v) ==> v as int == int_literal_value(s@),
{
    let n = s.unicode_len();
    let mut i: usize = 0;
    let mut neg = false;
    if n > 0 {
        let c0 = s.get_char(0);
        if c0 == '+' || c0 == '-' {
            i = 1;
            neg = c0 == '-';
        }
    }
    let ghost body = sign_body(s@);
    proof {
        assert(body =~= s@.skip(i as int));
    }
    if i >= n {
        // no digits at all
        proof {
            assert(body.len() == 0);
        }
        return None;
    }
    let mut acc: u128 = 0;
    let mut j = i;
    while j < n
        invariant
            i <= j <= n,
            n == s@.len(),
            body == s@.skip(i as int),
            body == sign_body(s@),
            neg == (sign_of(s@) == -1),
            acc <= 0x8000_0000_0000_0000u128,
            acc as int == digits_value(body.take(j - i)),
            all_digits(body.take(j - i)),
        decreases n - j,
    {
        let c = s.get_char(j);
        proof {
            assert(body[j - i] == s@[j as int]);
        }
        if !(c >= '0' && c <= '9') {
            proof {
                assert(!is_digit(body[j - i]));
            }
            return None;
        }
        let d: u128 = (c as u32 as u128) - 48;
        proof {
            assert('0' as int == 48 && c as int <= '9' as int);
            assert(body.take(j - i + 1).drop_last() =~= body.take(j - i));
            assert(body.take(j - i + 1).last() == body[j - i]);
        }
        let next = acc * 10 + d;
        if next > 0x8000_0000_0000_0000u128 {
            // the magnitude is already past the 64-bit range, and further
            // digits can only grow it
            proof {
                if is_int_literal(s@) {
                    assert(all_digits(body));
                    lemma_digits_prefix_le(body, j - i + 1);
                    lemma_digits_nonneg(body);
                    assert(digits_value(body) >= next);
                    assert(int_literal_value(s@) == sign_of(s@) * digits_value(body));
                    if sign_of(s@) == 1 {
                        assert(int_literal_value(s@) > i64::MAX);
                    } else {
                        assert(sign_of(s@) == -1);
                        assert(int_literal_value(s@) == -1 * digits_value(body));
                        assert(digits_value(body) > 0x8000_0000_0000_0000);
                        assert(int_literal_value(s@) < i64::MIN);
                    }
                }
            }
            return None;
        }
        acc = next;
        proof {
            assert(all_digits(body.take(j - i + 1))) by {
                assert forall|k: int| 0 <= k < j - i + 1 implies is_digit(
                    #[trigger] body.take(j - i + 1)[k],
                ) by {
                    assert(body.take(j - i + 1)[k] == body[k]);
                    if k < j - i {
                        assert(body.take(j - i)[k] == body[k]);
                    }
                }
            }
        }
        j = j + 1;
    }
    proof {
        assert(body.take(n - i) =~= body);
        lemma_digits_nonneg(body);
    }
    if neg {
        proof {
            assert(sign_of(s@) == -1);
        }
        let v: i64 = (-(acc as i128)) as i64;
        Some(v)
    } else {
        if acc > 0x7fff_ffff_ffff_ffffu128 {
            proof {
                assert(sign_of(s@) == 1);
                assert(int_literal_value(s@) > i64::MAX);
            }
            return None;
        }
        let v: i64 = acc as i64;
        Some(v)
    }
}

/// The character of one decimal digit value.
pub open spec fn digit_char(d: int) -> char {
    ((48 + d) as u8) as char
}

/// The canonical decimal text of a nonnegative number.
pub open spec fn nat_text(n: int) -> Seq<char>
    decreases n,
{
    if n < 10 {
        seq![digit_char(n)]
    } else {
        nat_text(n / 10).push(digit_char(n % 10))
    }
}

/// The canonical decimal text of a signed number.
pub open spec fn int_text(v: int) -> Seq<char> {
    if v < 0 {
        seq!['-'] + nat_text(-v)
    } else {
        nat_text(v)
    }
}

/// The canonical decimal text of a nonnegative number is a nonempty run
/// of digits carrying that value.
pub proof fn lemma_nat_text(n: int)
    requires
        n >= 0,
    ensures
        all_digits(nat_text(n)),
        nat_text(n).len() >= 1,
        digits_value(nat_text(n)) == n,
    decreases n,
{
    if n < 10 {
        let c = digit_char(n);
        assert(c as int == 48 + n);
        assert(is_digit(c));
        assert(nat_text(n) =~= seq![c]);
        assert(seq![c].drop_last() =~= Seq::<char>::empty());
        assert(digits_value(Seq::<char>::empty()) == 0);
        assert(seq![c].last() == c);
        assert(digits_value(seq![c]) == digit_val(c));
    } else {
        lemma_nat_text(n / 10);
        let t = nat_text(n);
        let h = nat_text(n / 10);
        let c = digit_char(n % 10);
        assert(0 <= n % 10 < 10);
        assert(c as int == 48 + n % 10);
        assert(is_digit(c));
        assert(t == h.push(c));
        assert(t.drop_last() =~= h);
        assert(t.last() == c);
        assert(digits_value(t) == n) by {
            assert(digits_value(t) == digits_value(h) * 10 + digit_val(c));
            assert(n == (n / 10) * 10 + n % 10) by (nonlinear_arith)
                requires
                    n >= 10,
            ;
        }
        assert(all_digits(t)) by {
            assert forall|k: int| 0 <= k < t.len() implies is_digit(#[trigger] t[k]) by {
                if k < t.len() - 1 {
                    assert(t[k] == h[k]);
                }
            }
        }
    }
}

/// Law: scalar integer literals round-trip. For every signed 64-bit value,
/// the canonical decimal text of the value is an integer literal, and
/// resolving that literal gives the value back.
pub proof fn lemma_int_round_trip(v: int)
    requires
        i64::MIN <= v <= i64::MAX,
    ensures
        is_int_literal(int_text(v)),
        int_literal_value(int_text(v)) == v,
{
    if v < 0 {
        lemma_nat_text(-v);
        let t = int_text(v);
        let b = nat_text(-v);
        assert(t == seq!['-'] + b);
        assert(t[0] == '-');
        assert(sign_body(t) =~= b);
        assert(sign_of(t) == -1);
        assert(int_literal_value(t) == -1 * digits_value(b));
    } else {
        lemma_nat_text(v);
        let t = int_text(v);
        assert(is_digit(t[0]));
        assert(t[0] != '+' && t[0] != '-');
        assert(sign_body(t) == t);
        assert(sign_of(t) == 1);
        assert(int_literal_value(t) == 1 * digits_value(t));
    }
}

/// The canonical decimal text of a signed number, as bytes.
pub open spec fn int_text_bytes(v: int) -> Seq<u8> {
    int_text(v).map_values(|c: char| c as u8)
}

/// The byte form of a canonical decimal text reads back as the same
/// characters: every character of it is a digit or a leading minus, all
/// within the byte range.
pub proof fn lemma_int_text_bytes(v: int)
    requires
        i64::MIN <= v <= i64::MAX,
    ensures
        int_text_bytes(v).len() == int_text(v).len(),
        int_text_bytes(v).len() > 0,
        forall|j: int|
            0 <= j < int_text(v).len() ==> ((#[trigger] int_text_bytes(v)[j]) as char)
                == int_text(v)[j],
{
    let t = int_text(v);
    if v < 0 {
        lemma_nat_text(-v);
        assert(t == seq!['-'] + nat_text(-v));
        assert(t[0] == '-');
    } else {
        lemma_nat_text(v);
    }
    assert forall|j: int| 0 <= j < t.len() implies ((#[trigger] int_text_bytes(v)[j]) as char)
        == t[j] by {
        assert(int_text_bytes(v)[j] == t[j] as u8);
        if v < 0 && j == 0 {
            assert(t[j] == '-');
        } else {
            if v < 0 {
                assert(t[j] == nat_text(-v)[j - 1]);
            }
            assert(is_digit(t[j]));
        }
        assert((t[j] as int) < 256);
    }
}

/// The lower-case counterpart of one character.
fn lower(c: char) -> (r: char)
    ensures
        r == to_lower(c),
{
    if c >= 'A' && c <= 'Z' {
        ((c as u8) + 32) as char
    } else {
        c
    }
}

/// Whether the text from position `from` on is inf, infinity or nan in any
/// letter case.
fn word_inf_nan(s: &str, from: usize) -> (r: bool)
    requires
        from <= s@.len(),
    ensures
        r == is_inf_nan(s@.skip(from as int)),
{
    let ghost body = s@.skip(from as int);
    let n = s.unicode_len();
    let m = n - from;
    proof {
        assert(lower_of(body).len() == m);
        assert(seq!['i', 'n', 'f'].len() == 3);
        assert(seq!['i', 'n', 'f', 'i', 'n', 'i', 't', 'y'].len() == 8);
        assert(seq!['n', 'a', 'n'].len() == 3);
    }
    if m == 3 {
        let a = lower(s.get_char(from));
        let b = lower(s.get_char(from + 1));
        let c = lower(s.get_char(from + 2));
        proof {
            assert(body[0] == s@[from as int]);
            assert(body[1] == s@[from + 1]);
            assert(body[2] == s@[from + 2]);
            assert(lower_of(body)[0] == to_lower(body[0]));
            assert(lower_of(body)[1] == to_lower(body[1]));
            assert(lower_of(body)[2] == to_lower(body[2]));
        }
        if a == 'i' && b == 'n' && c == 'f' {
            proof {
                assert(lower_of(body) =~= seq!['i', 'n', 'f']);
            }
            true
        } else if a == 'n' && b == 'a' && c == 'n' {
            proof {
                assert(lower_of(body) =~= seq!['n', 'a', 'n']);
            }
            true
        } else {
            false
        }
    } else if m == 8 {
        let c0 = lower(s.get_char(from));
        let c1 = lower(s.get_char(from + 1));
        let c2 = lower(s.get_char(from + 2));
        let c3 = lower(s.get_char(from + 3));
        let c4 = lower(s.get_char(from + 4));
        let c5 = lower(s.get_char(from + 5));
        let c6 = lower(s.get_char(from + 6));
        let c7 = lower(s.get_char(from + 7));
        proof {
            assert forall|k: int| 0 <= k < 8 implies #[trigger] body[k] == s@[from + k] by {}
            assert forall|k: int| 0 <= k < 8 implies #[trigger] lower_of(body)[k] == to_lower(
                body[k],
            ) by {}
        }
        if c0 == 'i' && c1 == 'n' && c2 == 'f' && c3 == 'i' && c4 == 'n' && c5 == 'i' && c6 == 't'
            && c7 == 'y' {
            proof {
                assert(lower_of(body) =~= seq!['i', 'n', 'f', 'i', 'n', 'i', 't', 'y']);
            }
            true
        } else {
            false
        }
    } else {
        false
    }
}

/// Whether the region of the text between `from` and `to` is a float
/// mantissa: digits with at most one decimal point, and at least one digit.
fn mantissa_ok(s: &str, from: usize, to: usize) -> (r: bool)
    requires
        from <= to <= s@.len(),
    ensures
        r == is_mantissa(s@.subrange(from as int, to as int)),
{
    let ghost reg = s@.subrange(from as int, to as int);
    let mut dots: usize = 0;
    let mut dot_pos: usize = 0;
    let mut k = from;
    while k < to
        invariant
            from <= k <= to <= s@.len(),
            reg == s@.subrange(from as int, to as int),
            dots <= 1,
            forall|p: int| 0 <= p < k - from ==> is_digit(#[trigger] reg[p]) || reg[p] == '.',
            dots == 1 ==> from <= dot_pos < k && reg[dot_pos - from] == '.',
            forall|p: int|
                0 <= p < k - from && (dots == 0 || p != dot_pos - from) ==> is_digit(
                    #[trigger] reg[p],
                ),
        decreases to - k,
    {
        let c = s.get_char(k);
        proof {
            assert(reg[k - from] == s@[k as int]);
        }
        if c == '.' {
            if dots == 1 {
                // a second decimal point: no split can make this a mantissa
                proof {
                    let p1 = dot_pos - from;
                    let p2 = k - from;
                    assert(reg[p1] == '.' && reg[p2] == '.' && p1 < p2);
                    assert(!is_digit('.'));
                    assert forall|d: int|
                        0 <= d < reg.len() && reg[d] == '.' implies !(all_digits(reg.take(d))
                        && all_digits(#[trigger] reg.skip(d + 1))) by {
                        if p1 < d {
                            assert(reg.take(d)[p1] == reg[p1]);
                        } else if d < p2 {
                            assert(reg.skip(d + 1)[p2 - d - 1] == reg[p2]);
                        }
                    }
                    assert(!all_digits(reg));
                }
                return false;
            }
            dots = 1;
            dot_pos = k;
        } else if c >= '0' && c <= '9' {
        } else {
            // a character that is neither digit nor point
            proof {
                let pb = k - from;
                assert(!is_digit(reg[pb]) && reg[pb] != '.');
                assert forall|d: int|
                    0 <= d < reg.len() && reg[d] == '.' implies !(all_digits(reg.take(d))
                    && all_digits(#[trigger] reg.skip(d + 1))) by {
                    if pb < d {
                        assert(reg.take(d)[pb] == reg[pb]);
                    } else if d < pb {
                        assert(reg.skip(d + 1)[pb - d - 1] == reg[pb]);
                    }
                }
                assert(!all_digits(reg));
            }
            return false;
        }
        k = k + 1;
    }
    if dots == 0 {
        if to - from >= 1 {
            proof {
                assert(all_digits(reg));
            }
            true
        } else {
            proof {
                assert(reg.len() == 0);
            }
            false
        }
    } else {
        if to - from >= 2 {
            proof {
                let d = dot_pos - from;
                assert(reg[d] == '.');
                assert(all_digits(reg.take(d))) by {
                    assert forall|p: int| 0 <= p < d implies is_digit(
                        #[trigger] reg.take(d)[p],
                    ) by {
                        assert(reg.take(d)[p] == reg[p]);
                    }
                }
                assert(all_digits(reg.skip(d + 1))) by {
                    assert forall|p: int| 0 <= p < reg.len() - d - 1 implies is_digit(
                        #[trigger] reg.skip(d + 1)[p],
                    ) by {
                        assert(reg.skip(d + 1)[p] == reg[p + d + 1]);
                    }
                }
            }
            true
        } else {
            // just the decimal point alone
            proof {
                assert(reg.len() == 1);
                assert(!is_digit(reg[0]));
            }
            false
        }
    }
}

/// Whether the text from position `from` on has the shape of a signed run
/// of digits.
fn int_shape_ok(s: &str, from: usize) -> (r: bool)
    requires
        from <= s@.len(),
    ensures
        r == is_int_shape(s@.skip(from as int)),
{
    let ghost reg = s@.skip(from as int);
    let n = s.unicode_len();
    let mut k = from;
    if k < n {
        let c0 = s.get_char(k);
        proof {
            assert(reg[0] == s@[from as int]);
        }
        if c0 == '+' || c0 == '-' {
            k = 1 + from;
        }
    }
    let ghost body = sign_body(reg);
    proof {
        assert(body =~= s@.skip(k as int));
    }
    if k >= n {
        proof {
            assert(body.len() == 0);
        }
        return false;
    }
    let mut j = k;
    while j < n
        invariant
            k <= j <= n,
            n == s@.len(),
            body == s@.skip(k as int),
            body == sign_body(s@.skip(from as int)),
            forall|p: int| 0 <= p < j - k ==> is_digit(#[trigger] body[p]),
        decreases n - j,
    {
        let c = s.get_char(j);
        proof {
            assert(body[j - k] == s@[j as int]);
        }
        if !(c >= '0' && c <= '9') {
            proof {
                assert(!is_digit(body[j - k]));
            }
            return false;
        }
        j = j + 1;
    }
    proof {
        assert(all_digits(body));
        assert(body.len() == n - k >= 1);
    }
    true
}

/// Whether the text is a 64-bit float literal, following the documented
/// grammar: optional sign, then inf, infinity or nan in any case, or a
/// mantissa with an optional e-exponent.
pub fn is_float_text(s: &str) -> (r: bool)
    ensures
        r == is_float_literal(s@),
{
    let n = s.unicode_len();
    let mut i: usize = 0;
    if n > 0 {
        let c0 = s.get_char(0);
        if c0 == '+' || c0 == '-' {
            i = 1;
        }
    }
    let ghost body = sign_body(s@);
    proof {
        assert(body =~= s@.skip(i as int));
    }
    if word_inf_nan(s, i) {
        return true;
    }
    // find the first exponent marker
    let mut k = i;
    let mut has_e = false;
    while k < n
        invariant_except_break
            i <= k <= n,
            n == s@.len(),
            !has_e,
            forall|p: int| i <= p < k ==> s@[p] != 'e' && (#[trigger] s@[p]) != 'E',
        ensures
            i <= k <= n,
            n == s@.len(),
            forall|p: int| i <= p < k ==> s@[p] != 'e' && (#[trigger] s@[p]) != 'E',
            has_e ==> k < n && (s@[k as int] == 'e' || s@[k as int] == 'E'),
            !has_e ==> k == n,
        decreases n - k,
    {
        let c = s.get_char(k);
        if c == 'e' || c == 'E' {
            has_e = true;
            break;
        }
        k = k + 1;
    }
    if !has_e {
        let r = mantissa_ok(s, i, n);
        proof {
            assert(body =~= s@.subrange(i as int, n as int));
            assert(!(exists|e: int|
                0 <= e < body.len() && (body[e] == 'e' || body[e] == 'E') && is_mantissa(
                    body.take(e),
                ) && is_int_shape(#[trigger] body.skip(e + 1)))) by {
                assert forall|e: int| 0 <= e < body.len() implies body[e] != 'e' && body[e]
                    != 'E' by {
                    assert(body[e] == s@[e + i]);
                }
            }
        }
        return r;
    }
    // the first marker is at k
    let mant = mantissa_ok(s, i, k);
    let expo = int_shape_ok(s, k + 1);
    proof {
        let e0 = k - i;
        assert(s@[k as int] == 'e' || s@[k as int] == 'E');
        assert(body[e0] == s@[k as int]);
        assert(body.take(e0) =~= s@.subrange(i as int, k as int));
        assert(body.skip(e0 + 1) =~= s@.skip(k + 1));
        if mant && expo {
            assert(is_number(body));
        } else {
            // the only viable split is at the first marker
            assert forall|e: int|
                0 <= e < body.len() && (body[e] == 'e' || body[e] == 'E') implies !(is_mantissa(
                body.take(e),
            ) && is_int_shape(#[trigger] body.skip(e + 1))) by {
                if e < e0 {
                    assert(body[e] == s@[e + i]);
                } else if e > e0 {
                    let m = body.take(e);
                    assert(m[e0] == body[e0]);
                    assert(!is_digit(m[e0]) && m[e0] != '.');
                    assert forall|d: int|
                        0 <= d < m.len() && m[d] == '.' implies !(all_digits(m.take(d))
                        && all_digits(#[trigger] m.skip(d + 1))) by {
                        if e0 < d {
                            assert(m.take(d)[e0] == m[e0]);
                        } else if d < e0 {
                            assert(m.skip(d + 1)[e0 - d - 1] == m[e0]);
                        }
                    }
                    assert(!all_digits(m));
                    assert(!is_mantissa(m));
                }
            }
            assert(!is_mantissa(body)) by {
                assert(!is_digit(body[e0]) && body[e0] != '.');
                assert forall|d: int|
                    0 <= d < body.len() && body[d] == '.' implies !(all_digits(body.take(d))
                    && all_digits(#[trigger] body.skip(d + 1))) by {
                    if e0 < d {
                        assert(body.take(d)[e0] == body[e0]);
                    } else if d < e0 {
                        assert(body.skip(d + 1)[e0 - d - 1] == body[e0]);
                    }
                }
            }
            assert(!is_number(body));
        }
    }
    mant && expo
}

} // verus!

