use vstd::prelude::*;
use vstd::string::*;
use vstd::utf8::{decode_utf8, encode_utf8, is_ascii_chars, is_char_boundary};

verus! {

/// The character for a decimal digit `d` (`0 <= d < 10`).
pub open spec fn digit_char(d: int) -> char {
    (('0' as int) + d) as char
}

/// The decimal digits of `n`, most significant first, with no leading zeros.
pub open spec fn digits_text(n: nat) -> Seq<char>
    decreases n,
{
    if n < 10 {
        seq![digit_char(n as int)]
    } else {
        digits_text(n / 10).push(digit_char((n % 10) as int))
    }
}

/// The decimal rendering of an integer, as `Display` writes it: a `-` sign
/// for negative values, then the digits of the magnitude.
pub open spec fn decimal_text(n: int) -> Seq<char> {
    if n < 0 {
        seq!['-'] + digits_text((-n) as nat)
    } else {
        digits_text(n as nat)
    }
}

fn digit_str(d: u128) -> (r: &'static str)
    requires
        d < 10,
    ensures
        r@ == seq![digit_char(d as int)],
{
    match d {
        0 => { proof { reveal_strlit("0"); } "0" },
        1 => { proof { reveal_strlit("1"); } "1" },
        2 => { proof { reveal_strlit("2"); } "2" },
        3 => { proof { reveal_strlit("3"); } "3" },
        4 => { proof { reveal_strlit("4"); } "4" },
        5 => { proof { reveal_strlit("5"); } "5" },
        6 => { proof { reveal_strlit("6"); } "6" },
        7 => { proof { reveal_strlit("7"); } "7" },
        8 => { proof { reveal_strlit("8"); } "8" },
        _ => { proof { reveal_strlit("9"); } "9" },
    }
}

/// Appends the decimal digits of `n` to `s`.
pub fn push_digits(n: u128, s: &mut String)
    ensures
        final(s)@ == old(s)@ + digits_text(n as nat),
    decreases n,
{
    if n >= 10 {
        push_digits(n / 10, s);
    }
    s.append(digit_str(n % 10));
    proof {
        if n >= 10 {
            assert(old(s)@ + digits_text(n as nat) =~= old(s)@ + digits_text((n / 10) as nat)
                + seq![digit_char((n % 10) as int)]);
        }
    }
}

/// Appends the decimal rendering of `n` to `s`.
pub fn push_decimal(n: i64, s: &mut String)
    ensures
        final(s)@ == old(s)@ + decimal_text(n as int),
{
    if n < 0 {
        proof { reveal_strlit("-"); }
        s.append("-");
        let magnitude: u128 = (0i128 - n as i128) as u128;
        push_digits(magnitude, s);
        assert(final(s)@ =~= old(s)@ + decimal_text(n as int));
    } else {
        push_digits(n as u128, s);
    }
}

/// The decimal rendering of `n`.
pub fn decimal_string(n: i64) -> (r: String)
    ensures
        r@ == decimal_text(n as int),
{
    let mut s = String::new();
    push_decimal(n, &mut s);
    assert(s@ =~= decimal_text(n as int));
    s
}

/// `a`, a space, then `b`.
pub open spec fn spaced(a: Seq<char>, b: Seq<char>) -> Seq<char> {
    a + seq![' '] + b
}

/// Concatenates `a`, a space and `b` into a new string.
pub fn join_spaced(a: &str, b: &str) -> (r: String)
    ensures
        r@ == spaced(a@, b@),
{
    let mut s = String::new();
    s.append(a);
    proof { reveal_strlit(" "); }
    s.append(" ");
    s.append(b);
    assert(s@ =~= spaced(a@, b@));
    s
}

/// Concatenates `a` and `b` into a new string.
pub fn joined(a: &str, b: &str) -> (r: String)
    ensures
        r@ == a@ + b@,
{
    let mut s = String::new();
    s.append(a);
    s.append(b);
    assert(s@ =~= a@ + b@);
    s
}

pub open spec fn is_decimal_digit(c: char) -> bool {
    '0' <= c <= '9'
}

/// The value of a string of decimal digits.
pub open spec fn digits_value(s: Seq<char>) -> nat
    decreases s.len(),
{
    if s.len() == 0 {
        0
    } else {
        digits_value(s.drop_last()) * 10 + (s.last() as int - '0' as int) as nat
    }
}

/// `s` without one leading `+`, if it has one.
pub open spec fn unsigned_part(s: Seq<char>) -> Seq<char> {
    if s.len() > 0 && s[0] == '+' {
        s.drop_first()
    } else {
        s
    }
}

pub open spec fn all_decimal_digits(d: Seq<char>) -> bool {
    forall|i: int| 0 <= i < d.len() ==> is_decimal_digit(#[trigger] d[i])
}

/// What `u16::from_str` accepts and returns: an optional `+`, then one or more
/// decimal digits whose value fits in a `u16`.
pub open spec fn parse_u16_text(s: Seq<char>) -> Option<u16> {
    let d = unsigned_part(s);
    if d.len() > 0 && all_decimal_digits(d) && digits_value(d) <= u16::MAX {
        Some(digits_value(d) as u16)
    } else {
        None
    }
}

proof fn lemma_digits_value_grows(s: Seq<char>, k: int)
    requires
        0 <= k <= s.len(),
        forall|i: int| 0 <= i < s.len() ==> is_decimal_digit(#[trigger] s[i]),
    ensures
        digits_value(s.subrange(0, k)) <= digits_value(s),
    decreases s.len() - k,
{
    if k < s.len() {
        lemma_digits_value_grows(s, k + 1);
        assert(s.subrange(0, k + 1).drop_last() =~= s.subrange(0, k));
    } else {
        assert(s.subrange(0, k) =~= s);
    }
}

/// Parses a decimal `u16` exactly as `u16::from_str` does.
pub fn parse_u16(s: &str) -> (r: Option<u16>)
    ensures
        r == parse_u16_text(s@),
{
    let n = s.unicode_len();
    let start: usize = if n > 0 && s.get_char(0) == '+' { 1 } else { 0 };
    let ghost d = unsigned_part(s@);
    assert(d =~= s@.subrange(start as int, n as int));
    if start >= n {
        return None;
    }
    let mut value: u32 = 0;
    let mut i: usize = start;
    while i < n
        invariant
            start <= i <= n,
            n == s@.len(),
            d == s@.subrange(start as int, n as int),
            d == unsigned_part(s@),
            value <= u16::MAX,
            forall|j: int| start <= j < i ==> is_decimal_digit(#[trigger] s@[j]),
            value == digits_value(s@.subrange(start as int, i as int)),
        decreases n - i,
    {
        let c = s.get_char(i);
        if !('0' <= c && c <= '9') {
            assert(d[i - start] == c);
            assert(!is_decimal_digit(d[i - start]));
            return None;
        }
        let digit: u32 = (c as u32) - ('0' as u32);
        assert(s@.subrange(start as int, i + 1).drop_last() =~= s@.subrange(start as int, i as int));
        let next: u32 = value * 10 + digit;
        if next > 65535 {
            proof {
                assert(digits_value(s@.subrange(start as int, i + 1)) == next);
                if all_decimal_digits(d) {
                    lemma_digits_value_grows(d, (i + 1 - start) as int);
                    assert(d.subrange(0, (i + 1 - start) as int) =~= s@.subrange(
                        start as int,
                        i + 1,
                    ));
                    assert(digits_value(d) > u16::MAX);
                }
            }
            return None;
        }
        value = next;
        i = i + 1;
    }
    assert(s@.subrange(start as int, n as int) =~= d);
    Some(value as u16)
}

/// The model number in a schema file name of the form `model_X`: what
/// `u16::from_str` makes of the text after its sixth byte, where that byte
/// offset falls on a character boundary.
pub open spec fn model_number_of(file_name: Seq<char>) -> Option<u16> {
    let bytes = encode_utf8(file_name);
    if is_char_boundary(bytes, 6) {
        parse_u16_text(decode_utf8(bytes.subrange(6, bytes.len() as int)))
    } else {
        None
    }
}

/// The model number in the schema file name `file_name`.
pub fn model_number(file_name: &str) -> (r: Option<u16>)
    ensures
        r == model_number_of(file_name@),
{
    if file_name.is_char_boundary(6) {
        let (_, digits) = file_name.split_at(6);
        proof {
            vstd::utf8::encode_utf8_decode_utf8(digits@);
        }
        parse_u16(digits)
    } else {
        None
    }
}

/// The digits of `n` are decimal digits, at least one, ASCII, and read back as `n`.
pub proof fn lemma_digits_text(n: nat)
    ensures
        digits_text(n).len() > 0,
        all_decimal_digits(digits_text(n)),
        digits_value(digits_text(n)) == n,
        is_ascii_chars(digits_text(n)),
    decreases n,
{
    if n >= 10 {
        lemma_digits_text(n / 10);
        let s = digits_text(n / 10);
        let d = (n % 10) as int;
        assert(digits_text(n).drop_last() =~= s);
        assert(digit_char(d) as int == '0' as int + d);
        vstd::arithmetic::div_mod::lemma_fundamental_div_mod(n as int, 10);
        let t = digits_text(n);
        assert(t.last() == digit_char(d));
        assert(digits_value(t) == digits_value(s) * 10 + d);
        assert(digits_value(s) * 10 == 10 * (n / 10)) by (nonlinear_arith)
            requires
                digits_value(s) == n / 10,
        ;
        assert(digits_value(t) == n);
    } else {
        assert(digit_char(n as int) as int == '0' as int + n);
        assert(digits_text(n).drop_last() =~= Seq::<char>::empty());
        assert(digits_value(Seq::<char>::empty()) == 0);
        assert(digits_value(digits_text(n)) == n);
    }
}

/// A decimal number parses back to itself.
pub proof fn lemma_parse_decimal(n: u16)
    ensures
        parse_u16_text(decimal_text(n as int)) == Some(n),
{
    lemma_digits_text(n as nat);
    assert(unsigned_part(digits_text(n as nat)) == digits_text(n as nat));
}

/// A schema file named `model_` followed by a model number in decimal
/// yields that model number.
pub proof fn lemma_model_number_roundtrip(n: u16)
    ensures
        model_number_of("model_"@ + decimal_text(n as int)) == Some(n),
{
    reveal_strlit("model_");
    let d = decimal_text(n as int);
    let name = "model_"@ + d;
    lemma_digits_text(n as nat);
    lemma_parse_decimal(n);
    assert(is_ascii_chars(name)) by {
        assert forall|i: int| 0 <= i < name.len() implies '\0' <= #[trigger] name[i] <= '\u{7f}' by {
            if i >= 6 {
                assert(name[i] == d[i - 6]);
            }
        }
    }
    let bytes = encode_utf8(name);
    vstd::utf8::is_ascii_chars_encode_utf8(name);
    vstd::utf8::is_ascii_chars_encode_utf8(d);
    vstd::utf8::encode_utf8_valid_utf8(name);
    vstd::utf8::is_char_boundary_iff_is_leading_byte(bytes, 6);
    assert(bytes[6] == name[6] as u8);
    assert(encode_utf8(d) =~= bytes.subrange(6, bytes.len() as int)) by {
        assert forall|i: int| 0 <= i < d.len() implies encode_utf8(d)[i] == bytes.subrange(
            6,
            bytes.len() as int,
        )[i] by {
            assert(name[i + 6] == d[i]);
        }
    }
    vstd::utf8::encode_utf8_decode_utf8(d);
}

} // verus!
