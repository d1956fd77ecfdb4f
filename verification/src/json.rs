use vstd::prelude::*;
use vstd::string::StrSliceExecFns;

use crate::item::ItemView;
use crate::item::WaygateItem;
use crate::item::items_view;

verus! {

// The list body accepted by the gateway is a JSON array of objects, each
// carrying the three item fields, in any order and each exactly once: "id"
// with an integer that fits a signed 64-bit value, and "item" and "title"
// with strings. A member under any other key is checked for form and passed
// over, whatever its value. Strings take the single-character backslash
// escapes and \uXXXX, with surrogate pairs joined; the items' own numbers are
// plain decimal integers, an optional minus sign and digits with no
// superfluous leading zero. Whitespace may stand between any two tokens.
//
// Each spec parsing function below takes the text and a position and yields
// the parsed value together with the position just past it, or nothing where
// the text does not conform from that position on.

/// JSON insignificant whitespace.
pub open spec fn is_json_ws(c: char) -> bool {
    c == ' ' || c == '\t' || c == '\n' || c == '\r'
}

/// The first position at or after `i` holding no whitespace.
pub open spec fn skip_ws(s: Seq<char>, i: int) -> int
    decreases s.len() - i,
{
    if 0 <= i < s.len() && is_json_ws(s[i]) {
        skip_ws(s, i + 1)
    } else {
        i
    }
}

/// Skipping whitespace never moves backward nor past the end.
pub proof fn lemma_skip_ws_bounds(s: Seq<char>, i: int)
    requires
        0 <= i <= s.len(),
    ensures
        i <= skip_ws(s, i) <= s.len(),
    decreases s.len() - i,
{
    if i < s.len() && is_json_ws(s[i]) {
        lemma_skip_ws_bounds(s, i + 1);
    }
}

/// A decimal digit character.
pub open spec fn is_digit(c: char) -> bool {
    '0' as int <= c as int <= '9' as int
}

/// The value of one decimal digit character.
pub open spec fn digit_val(c: char) -> int {
    c as int - '0' as int
}

/// The first position at or after `i` holding no digit.
pub open spec fn digits_end(s: Seq<char>, i: int) -> int
    decreases s.len() - i,
{
    if 0 <= i < s.len() && is_digit(s[i]) {
        digits_end(s, i + 1)
    } else {
        i
    }
}

/// Every position in `[i, j)` holds a digit.
pub open spec fn all_digits(s: Seq<char>, i: int, j: int) -> bool {
    forall|m: int| i <= m < j ==> is_digit(s[m])
}

/// The value of the digit run `s[i..j)`, most significant digit first.
pub open spec fn digits_val(s: Seq<char>, i: int, j: int) -> int
    decreases j - i,
{
    if i < j {
        digits_val(s, i, j - 1) * 10 + digit_val(s[j - 1])
    } else {
        0
    }
}

proof fn lemma_digits_end_props(s: Seq<char>, i: int)
    requires
        0 <= i <= s.len(),
    ensures
        i <= digits_end(s, i) <= s.len(),
        all_digits(s, i, digits_end(s, i)),
        digits_end(s, i) == s.len() || !is_digit(s[digits_end(s, i)]),
    decreases s.len() - i,
{
    if i < s.len() && is_digit(s[i]) {
        lemma_digits_end_props(s, i + 1);
    }
}

/// Ten to the given power.
pub open spec fn pow10(k: nat) -> int
    decreases k,
{
    if k == 0 {
        1
    } else {
        10 * pow10((k - 1) as nat)
    }
}

proof fn lemma_pow10_mono(a: nat, b: nat)
    requires
        a <= b,
    ensures
        0 < pow10(a) <= pow10(b),
    decreases b,
{
    if b > 0 {
        if a == b {
            lemma_pow10_mono((b - 1) as nat, (b - 1) as nat);
        } else {
            lemma_pow10_mono(a, (b - 1) as nat);
        }
    }
}

proof fn lemma_digits_val_upper(s: Seq<char>, i: int, j: int)
    requires
        i <= j,
        all_digits(s, i, j),
    ensures
        0 <= digits_val(s, i, j) < pow10((j - i) as nat),
    decreases j - i,
{
    if i < j {
        lemma_digits_val_upper(s, i, j - 1);
        lemma_pow10_mono((j - 1 - i) as nat, (j - 1 - i) as nat);
        assert(digits_val(s, i, j) == digits_val(s, i, j - 1) * 10 + digit_val(s[j - 1]));
        assert(digit_val(s[j - 1]) <= 9);
        assert(digits_val(s, i, j - 1) * 10 <= (pow10((j - 1 - i) as nat) - 1) * 10) by (nonlinear_arith)
            requires
                digits_val(s, i, j - 1) <= pow10((j - 1 - i) as nat) - 1,
        ;
        assert(pow10((j - i) as nat) == 10 * pow10((j - 1 - i) as nat));
    }
}

proof fn lemma_digits_val_lower(s: Seq<char>, i: int, j: int)
    requires
        i < j,
        all_digits(s, i, j),
        s[i] != '0',
    ensures
        digits_val(s, i, j) >= pow10((j - 1 - i) as nat),
    decreases j - i,
{
    if i == j - 1 {
        assert(digits_val(s, i, j) == digit_val(s[i]));
        assert(is_digit(s[i]) && s[i] != '0' ==> digit_val(s[i]) >= 1);
    } else {
        lemma_digits_val_lower(s, i, j - 1);
        lemma_pow10_mono(0, (j - 2 - i) as nat);
        assert(digits_val(s, i, j - 1) * 10 >= pow10((j - 2 - i) as nat) * 10) by (nonlinear_arith)
            requires
                digits_val(s, i, j - 1) >= pow10((j - 2 - i) as nat),
                pow10((j - 2 - i) as nat) > 0,
        ;
        lemma_pow10_mono(0, (j - 2 - i) as nat);
        assert(pow10((j - 1 - i) as nat) == 10 * pow10((j - 2 - i) as nat));
        assert(digit_val(s[j - 1]) >= 0);
    }
}

/// An integer literal: an optional minus sign and a digit run without a
/// superfluous leading zero, whose value fits a signed 64-bit integer.
pub open spec fn parse_int(s: Seq<char>, i: int) -> Option<(int, int)> {
    let neg = 0 <= i < s.len() && s[i] == '-';
    let d0 = if neg {
        i + 1
    } else {
        i
    };
    let j = digits_end(s, d0);
    if j == d0 {
        None
    } else if s[d0] == '0' && j > d0 + 1 {
        None
    } else {
        let v = if neg {
            -digits_val(s, d0, j)
        } else {
            digits_val(s, d0, j)
        };
        if -0x8000000000000000 <= v <= 0x7fffffffffffffff {
            Some((v, j))
        } else {
            None
        }
    }
}

proof fn lemma_parse_int_bounds(s: Seq<char>, i: int)
    requires
        0 <= i <= s.len(),
    ensures
        parse_int(s, i) matches Some((v, j)) ==> i < j <= s.len(),
{
    let neg = 0 <= i < s.len() && s[i] == '-';
    let d0 = if neg {
        i + 1
    } else {
        i
    };
    if d0 <= s.len() {
        lemma_digits_end_props(s, d0);
    }
}

/// The character that a backslash escape stands for.
pub open spec fn escape_char(c: char) -> Option<char> {
    if c == '"' {
        Some('"')
    } else if c == '\\' {
        Some('\\')
    } else if c == '/' {
        Some('/')
    } else if c == 'b' {
        Some('\u{8}')
    } else if c == 'f' {
        Some('\u{c}')
    } else if c == 'n' {
        Some('\n')
    } else if c == 'r' {
        Some('\r')
    } else if c == 't' {
        Some('\t')
    } else {
        None
    }
}

/// A unicode scalar value: any code point outside the surrogate range.
pub open spec fn is_unicode_scalar(code: u32) -> bool {
    code < 0xD800 || (0xE000 <= code && code < 0x110000)
}

/// The value of one hexadecimal digit character, either case.
pub open spec fn hex_val(c: char) -> Option<int> {
    if '0' as u32 <= c as u32 && c as u32 <= '9' as u32 {
        Some(c as u32 - '0' as u32)
    } else if 'a' as u32 <= c as u32 && c as u32 <= 'f' as u32 {
        Some(c as u32 - 'a' as u32 + 10)
    } else if 'A' as u32 <= c as u32 && c as u32 <= 'F' as u32 {
        Some(c as u32 - 'A' as u32 + 10)
    } else {
        None
    }
}

/// The value of the four hexadecimal digits at `i`.
pub open spec fn hex4(s: Seq<char>, i: int) -> Option<int> {
    if 0 <= i && i + 4 <= s.len() && hex_val(s[i]) is Some && hex_val(s[i + 1]) is Some && hex_val(
        s[i + 2],
    ) is Some && hex_val(s[i + 3]) is Some {
        Some(
            hex_val(s[i]).unwrap() * 4096 + hex_val(s[i + 1]).unwrap() * 256 + hex_val(
                s[i + 2],
            ).unwrap() * 16 + hex_val(s[i + 3]).unwrap(),
        )
    } else {
        None
    }
}

pub open spec fn is_high_surrogate(code: int) -> bool {
    0xD800 <= code < 0xDC00
}

pub open spec fn is_low_surrogate(code: int) -> bool {
    0xDC00 <= code < 0xE000
}

/// The code point that a surrogate pair stands for.
pub open spec fn combine_surrogates(hi: int, lo: int) -> int {
    0x10000 + (hi - 0xD800) * 0x400 + (lo - 0xDC00)
}

/// The character with the given unicode scalar value.
pub open spec fn char_from_code(code: int) -> char
    recommends
        0 <= code < 0x110000,
        is_unicode_scalar(code as u32),
{
    (code as u32) as char
}

/// One backslash escape, from the character after the backslash: the decoded
/// character and the position just past the escape. A \u escape holding a
/// high surrogate must be followed by one holding a low surrogate, and the
/// pair is joined; an unpaired surrogate does not conform.
pub open spec fn parse_escape(s: Seq<char>, i: int) -> Option<(char, int)> {
    if !(0 <= i < s.len()) {
        None
    } else if s[i] == 'u' {
        match hex4(s, i + 1) {
            None => None,
            Some(code) => if is_high_surrogate(code) {
                if i + 6 < s.len() && s[i + 5] == '\\' && s[i + 6] == 'u' {
                    match hex4(s, i + 7) {
                        None => None,
                        Some(lo) => if is_low_surrogate(lo) {
                            Some((char_from_code(combine_surrogates(code, lo)), i + 11))
                        } else {
                            None
                        },
                    }
                } else {
                    None
                }
            } else if is_low_surrogate(code) {
                None
            } else {
                Some((char_from_code(code), i + 5))
            },
        }
    } else {
        match escape_char(s[i]) {
            Some(c) => Some((c, i + 1)),
            None => None,
        }
    }
}

/// A parsed escape ends past where it began and within the text.
pub proof fn lemma_parse_escape_bounds(s: Seq<char>, i: int)
    requires
        0 <= i <= s.len(),
    ensures
        parse_escape(s, i) matches Some((c, j)) ==> i < j <= s.len(),
{
}

/// The contents of a string literal from just after its opening quote:
/// the decoded characters and the position just past the closing quote.
pub open spec fn parse_string_body(s: Seq<char>, i: int) -> Option<(Seq<char>, int)>
    decreases s.len() - i,
{
    if !(0 <= i < s.len()) {
        None
    } else if s[i] == '"' {
        Some((Seq::empty(), i + 1))
    } else if s[i] == '\\' {
        match parse_escape(s, i + 1) {
            None => None,
            Some((c, j2)) => {
                proof {
                    lemma_parse_escape_bounds(s, i + 1);
                }
                match parse_string_body(s, j2) {
                    Some((tail, j)) => Some((seq![c] + tail, j)),
                    None => None,
                }
            },
        }
    } else if (s[i] as u32) < 32 {
        None
    } else {
        match parse_string_body(s, i + 1) {
            Some((tail, j)) => Some((seq![s[i]] + tail, j)),
            None => None,
        }
    }
}

/// A string literal, quotes included.
pub open spec fn parse_string(s: Seq<char>, i: int) -> Option<(Seq<char>, int)> {
    if 0 <= i < s.len() && s[i] == '"' {
        parse_string_body(s, i + 1)
    } else {
        None
    }
}

proof fn lemma_parse_string_body_bounds(s: Seq<char>, i: int)
    requires
        0 <= i <= s.len(),
    ensures
        parse_string_body(s, i) matches Some((t, j)) ==> i < j <= s.len(),
    decreases s.len() - i,
{
    if 0 <= i < s.len() {
        if s[i] == '\\' {
            lemma_parse_escape_bounds(s, i + 1);
            match parse_escape(s, i + 1) {
                Some((c, j2)) => {
                    lemma_parse_string_body_bounds(s, j2);
                },
                None => {},
            }
        } else if s[i] != '"' {
            lemma_parse_string_body_bounds(s, i + 1);
        }
    }
}

/// A parsed string literal ends past where it began and within the text.
pub proof fn lemma_parse_string_bounds(s: Seq<char>, i: int)
    requires
        0 <= i <= s.len(),
    ensures
        parse_string(s, i) matches Some((t, j)) ==> i + 1 < j <= s.len(),
{
    if 0 <= i < s.len() && s[i] == '"' {
        lemma_parse_string_body_bounds(s, i + 1);
    }
}

/// The end of the given literal word (`true`, `false` or `null`) at `i`.
pub open spec fn skip_literal(s: Seq<char>, i: int, word: Seq<char>) -> Option<int> {
    if 0 <= i && i + word.len() <= s.len() && s.subrange(i, i + word.len() as int) == word {
        Some(i + word.len() as int)
    } else {
        None
    }
}

/// The end of an optional fraction part: a dot and at least one digit.
pub open spec fn skip_frac(s: Seq<char>, i: int) -> Option<int> {
    if 0 <= i < s.len() && s[i] == '.' {
        let j = digits_end(s, i + 1);
        if j == i + 1 {
            None
        } else {
            Some(j)
        }
    } else {
        Some(i)
    }
}

/// The end of an optional exponent part: e or E, an optional sign, digits.
pub open spec fn skip_exp(s: Seq<char>, i: int) -> Option<int> {
    if 0 <= i < s.len() && (s[i] == 'e' || s[i] == 'E') {
        let d0 = if i + 1 < s.len() && (s[i + 1] == '+' || s[i + 1] == '-') {
            i + 2
        } else {
            i + 1
        };
        let j = digits_end(s, d0);
        if j == d0 {
            None
        } else {
            Some(j)
        }
    } else {
        Some(i)
    }
}

/// The end of a JSON number of any kind: an optional minus sign, an integer
/// part with no superfluous leading zero, an optional fraction and exponent.
/// The value is not kept: an ignored member's number is checked for form only.
pub open spec fn skip_number(s: Seq<char>, i: int) -> Option<int> {
    let d0 = if 0 <= i < s.len() && s[i] == '-' {
        i + 1
    } else {
        i
    };
    let j = digits_end(s, d0);
    if j == d0 {
        None
    } else if s[d0] == '0' && j > d0 + 1 {
        None
    } else {
        match skip_frac(s, j) {
            None => None,
            Some(k) => skip_exp(s, k),
        }
    }
}

proof fn lemma_skip_number_bounds(s: Seq<char>, i: int)
    requires
        0 <= i <= s.len(),
    ensures
        skip_number(s, i) matches Some(j) ==> i < j <= s.len(),
{
    let d0 = if 0 <= i < s.len() && s[i] == '-' {
        i + 1
    } else {
        i
    };
    if d0 <= s.len() {
        lemma_digits_end_props(s, d0);
        let j = digits_end(s, d0);
        if 0 <= j < s.len() && s[j] == '.' {
            lemma_digits_end_props(s, j + 1);
        }
        match skip_frac(s, j) {
            None => {},
            Some(k) => {
                if 0 <= k < s.len() && (s[k] == 'e' || s[k] == 'E') {
                    let e0 = if k + 1 < s.len() && (s[k + 1] == '+' || s[k + 1] == '-') {
                        k + 2
                    } else {
                        k + 1
                    };
                    lemma_digits_end_props(s, e0);
                }
            },
        }
    }
}

/// The end of one ignored JSON value of any kind. The gateway keeps nothing
/// of it: a member under an unknown key is checked for form and passed over,
/// as the original's decoder ignored unknown fields.
pub open spec fn skip_value(s: Seq<char>, i: int) -> Option<int>
    decreases s.len() - i, 0int,
{
    if !(0 <= i < s.len()) {
        None
    } else if s[i] == '"' {
        match parse_string(s, i) {
            Some((t, j)) => Some(j),
            None => None,
        }
    } else if s[i] == 't' {
        skip_literal(s, i, seq!['t', 'r', 'u', 'e'])
    } else if s[i] == 'f' {
        skip_literal(s, i, seq!['f', 'a', 'l', 's', 'e'])
    } else if s[i] == 'n' {
        skip_literal(s, i, seq!['n', 'u', 'l', 'l'])
    } else if s[i] == '[' {
        proof {
            lemma_skip_ws_bounds(s, i + 1);
        }
        skip_array_rest(s, skip_ws(s, i + 1))
    } else if s[i] == '{' {
        proof {
            lemma_skip_ws_bounds(s, i + 1);
        }
        skip_object_rest(s, skip_ws(s, i + 1))
    } else {
        skip_number(s, i)
    }
}

/// The rest of an ignored array, from its first element or closing bracket.
/// An element always ends past where it began; stating that before each
/// further element keeps the recursion visibly finite.
pub open spec fn skip_array_rest(s: Seq<char>, i: int) -> Option<int>
    decreases s.len() - i, 1int,
{
    if !(0 <= i < s.len()) {
        None
    } else if s[i] == ']' {
        Some(i + 1)
    } else {
        match skip_value(s, i) {
            None => None,
            Some(p) => {
                let q = skip_ws(s, p);
                if 0 <= q < s.len() && s[q] == ']' {
                    Some(q + 1)
                } else if 0 <= q < s.len() && s[q] == ',' {
                    let m = skip_ws(s, q + 1);
                    if i < m <= s.len() {
                        skip_array_rest(s, m)
                    } else {
                        None
                    }
                } else {
                    None
                }
            },
        }
    }
}

/// The rest of an ignored object, from its first key or closing brace.
pub open spec fn skip_object_rest(s: Seq<char>, i: int) -> Option<int>
    decreases s.len() - i, 1int,
{
    if !(0 <= i < s.len()) {
        None
    } else if s[i] == '}' {
        Some(i + 1)
    } else {
        match parse_string(s, i) {
            None => None,
            Some((key, j)) => {
                let k = skip_ws(s, j);
                if !(0 <= k < s.len() && s[k] == ':') {
                    None
                } else {
                    let m = skip_ws(s, k + 1);
                    proof {
                        lemma_parse_string_bounds(s, i);
                        lemma_skip_ws_bounds(s, j);
                        lemma_skip_ws_bounds(s, k + 1);
                    }
                    match skip_value(s, m) {
                        None => None,
                        Some(p) => {
                            let q = skip_ws(s, p);
                            if 0 <= q < s.len() && s[q] == '}' {
                                Some(q + 1)
                            } else if 0 <= q < s.len() && s[q] == ',' {
                                let m2 = skip_ws(s, q + 1);
                                if i < m2 <= s.len() {
                                    skip_object_rest(s, m2)
                                } else {
                                    None
                                }
                            } else {
                                None
                            }
                        },
                    }
                }
            },
        }
    }
}

/// An ignored value ends past where it began and within the text.
pub proof fn lemma_skip_value_bounds(s: Seq<char>, i: int)
    requires
        0 <= i <= s.len(),
    ensures
        skip_value(s, i) matches Some(j) ==> i < j <= s.len(),
    decreases s.len() - i, 0int,
{
    if 0 <= i < s.len() {
        if s[i] == '"' {
            lemma_parse_string_bounds(s, i);
        } else if s[i] == '[' || s[i] == '{' {
            lemma_skip_ws_bounds(s, i + 1);
            if s[i] == '[' {
                lemma_skip_array_rest_bounds(s, skip_ws(s, i + 1));
            } else {
                lemma_skip_object_rest_bounds(s, skip_ws(s, i + 1));
            }
        } else if s[i] != 't' && s[i] != 'f' && s[i] != 'n' {
            lemma_skip_number_bounds(s, i);
        }
    }
}

proof fn lemma_skip_array_rest_bounds(s: Seq<char>, i: int)
    requires
        0 <= i <= s.len(),
    ensures
        skip_array_rest(s, i) matches Some(j) ==> i < j <= s.len(),
    decreases s.len() - i, 1int,
{
    if 0 <= i < s.len() && s[i] != ']' {
        lemma_skip_value_bounds(s, i);
        match skip_value(s, i) {
            None => {},
            Some(p) => {
                lemma_skip_ws_bounds(s, p);
                let q = skip_ws(s, p);
                if 0 <= q < s.len() && s[q] == ',' {
                    lemma_skip_ws_bounds(s, q + 1);
                    let m = skip_ws(s, q + 1);
                    if i < m <= s.len() {
                        lemma_skip_array_rest_bounds(s, m);
                    }
                }
            },
        }
    }
}

proof fn lemma_skip_object_rest_bounds(s: Seq<char>, i: int)
    requires
        0 <= i <= s.len(),
    ensures
        skip_object_rest(s, i) matches Some(j) ==> i < j <= s.len(),
    decreases s.len() - i, 1int,
{
    if 0 <= i < s.len() && s[i] != '}' {
        lemma_parse_string_bounds(s, i);
        match parse_string(s, i) {
            None => {},
            Some((key, j)) => {
                lemma_skip_ws_bounds(s, j);
                let k = skip_ws(s, j);
                if 0 <= k < s.len() && s[k] == ':' {
                    lemma_skip_ws_bounds(s, k + 1);
                    let m = skip_ws(s, k + 1);
                    lemma_skip_value_bounds(s, m);
                    match skip_value(s, m) {
                        None => {},
                        Some(p) => {
                            lemma_skip_ws_bounds(s, p);
                            let q = skip_ws(s, p);
                            if 0 <= q < s.len() && s[q] == ',' {
                                lemma_skip_ws_bounds(s, q + 1);
                                let m2 = skip_ws(s, q + 1);
                                if i < m2 <= s.len() {
                                    lemma_skip_object_rest_bounds(s, m2);
                                }
                            }
                        },
                    }
                }
            },
        }
    }
}

/// Parse the value that follows one `"key":`. A key naming one of the three
/// item fields fills that field; one whose field is already filled does not
/// conform; any other key has its value checked for form and passed over.
pub open spec fn parse_field_value(
    s: Seq<char>,
    i: int,
    key: Seq<char>,
    id: Option<int>,
    item: Option<Seq<char>>,
    title: Option<Seq<char>>,
) -> Option<((Option<int>, Option<Seq<char>>, Option<Seq<char>>), int)> {
    if key == seq!['i', 'd'] {
        if id is Some {
            None
        } else {
            match parse_int(s, i) {
                Some((v, j)) => Some(((Some(v), item, title), j)),
                None => None,
            }
        }
    } else if key == seq!['i', 't', 'e', 'm'] {
        if item is Some {
            None
        } else {
            match parse_string(s, i) {
                Some((t, j)) => Some(((id, Some(t), title), j)),
                None => None,
            }
        }
    } else if key == seq!['t', 'i', 't', 'l', 'e'] {
        if title is Some {
            None
        } else {
            match parse_string(s, i) {
                Some((t, j)) => Some(((id, item, Some(t)), j)),
                None => None,
            }
        }
    } else {
        match skip_value(s, i) {
            Some(j) => Some(((id, item, title), j)),
            None => None,
        }
    }
}

/// A parsed member value ends past where it began and within the text.
pub proof fn lemma_parse_field_value_bounds(
    s: Seq<char>,
    i: int,
    key: Seq<char>,
    id: Option<int>,
    item: Option<Seq<char>>,
    title: Option<Seq<char>>,
)
    requires
        0 <= i <= s.len(),
    ensures
        parse_field_value(s, i, key, id, item, title) matches Some((fields, p)) ==> i < p
            <= s.len(),
{
    lemma_parse_int_bounds(s, i);
    lemma_parse_string_bounds(s, i);
    lemma_skip_value_bounds(s, i);
}

/// The members of an object from the first key onward: `"key": value`,
/// separated by commas, closed by a brace, all three item fields present at
/// the close and none given twice.
pub open spec fn parse_fields(
    s: Seq<char>,
    i: int,
    id: Option<int>,
    item: Option<Seq<char>>,
    title: Option<Seq<char>>,
) -> Option<(ItemView, int)>
    decreases s.len() - i,
{
    match parse_string(s, i) {
        None => None,
        Some((key, j)) => {
            let k = skip_ws(s, j);
            if !(0 <= k < s.len() && s[k] == ':') {
                None
            } else {
                match parse_field_value(s, skip_ws(s, k + 1), key, id, item, title) {
                    None => None,
                    Some(((id2, item2, title2), p)) => {
                        let q = skip_ws(s, p);
                        if 0 <= q < s.len() && s[q] == '}' {
                            if id2 is Some && item2 is Some && title2 is Some {
                                Some(
                                    (
                                        ItemView {
                                            id: id2.unwrap(),
                                            item: item2.unwrap(),
                                            title: title2.unwrap(),
                                        },
                                        q + 1,
                                    ),
                                )
                            } else {
                                None
                            }
                        } else if 0 <= q < s.len() && s[q] == ',' {
                            proof {
                                lemma_parse_string_bounds(s, i);
                                lemma_skip_ws_bounds(s, j);
                                lemma_skip_ws_bounds(s, k + 1);
                                lemma_parse_field_value_bounds(
                                    s,
                                    skip_ws(s, k + 1),
                                    key,
                                    id,
                                    item,
                                    title,
                                );
                                lemma_skip_ws_bounds(s, p);
                                lemma_skip_ws_bounds(s, q + 1);
                            }
                            parse_fields(s, skip_ws(s, q + 1), id2, item2, title2)
                        } else {
                            None
                        }
                    },
                }
            }
        },
    }
}

/// One item object, from its opening brace.
pub open spec fn parse_item(s: Seq<char>, i: int) -> Option<(ItemView, int)> {
    if 0 <= i < s.len() && s[i] == '{' {
        parse_fields(s, skip_ws(s, i + 1), None, None, None)
    } else {
        None
    }
}

proof fn lemma_parse_fields_bounds(
    s: Seq<char>,
    i: int,
    id: Option<int>,
    item: Option<Seq<char>>,
    title: Option<Seq<char>>,
)
    requires
        0 <= i <= s.len(),
    ensures
        parse_fields(s, i, id, item, title) matches Some((it, p)) ==> i < p <= s.len(),
    decreases s.len() - i,
{
    lemma_parse_string_bounds(s, i);
    match parse_string(s, i) {
        None => {},
        Some((key, j)) => {
            lemma_skip_ws_bounds(s, j);
            let k = skip_ws(s, j);
            if 0 <= k < s.len() && s[k] == ':' {
                lemma_skip_ws_bounds(s, k + 1);
                let m = skip_ws(s, k + 1);
                lemma_parse_field_value_bounds(s, m, key, id, item, title);
                match parse_field_value(s, m, key, id, item, title) {
                    None => {},
                    Some(((id2, item2, title2), p)) => {
                        lemma_skip_ws_bounds(s, p);
                        let q = skip_ws(s, p);
                        if 0 <= q < s.len() && s[q] == ',' {
                            lemma_skip_ws_bounds(s, q + 1);
                            lemma_parse_fields_bounds(s, skip_ws(s, q + 1), id2, item2, title2);
                        }
                    },
                }
            }
        },
    }
}

/// A parsed item ends past where it began and within the text.
pub proof fn lemma_parse_item_bounds(s: Seq<char>, i: int)
    requires
        0 <= i <= s.len(),
    ensures
        parse_item(s, i) matches Some((it, p)) ==> i < p <= s.len(),
{
    if 0 <= i < s.len() && s[i] == '{' {
        lemma_skip_ws_bounds(s, i + 1);
        lemma_parse_fields_bounds(s, skip_ws(s, i + 1), None, None, None);
    }
}

/// After one array element: either the closing bracket, or a comma and the
/// remaining elements.
pub open spec fn parse_rest_items(s: Seq<char>, i: int) -> Option<(Seq<ItemView>, int)>
    decreases s.len() - i,
{
    let j = skip_ws(s, i);
    if !(0 <= j < s.len()) {
        None
    } else if s[j] == ']' {
        Some((Seq::empty(), j + 1))
    } else if s[j] == ',' {
        let m = skip_ws(s, j + 1);
        match parse_item(s, m) {
            None => None,
            Some((it, p)) => {
                proof {
                    if 0 <= i <= s.len() {
                        lemma_skip_ws_bounds(s, i);
                    } else {
                        assert(skip_ws(s, i) == i);
                    }
                    lemma_skip_ws_bounds(s, j + 1);
                    lemma_parse_item_bounds(s, skip_ws(s, j + 1));
                }
                match parse_rest_items(s, p) {
                    None => None,
                    Some((rest, q)) => Some((seq![it] + rest, q)),
                }
            },
        }
    } else {
        None
    }
}

/// The whole list body: one array of items and nothing but whitespace
/// around it.
pub open spec fn decode_spec(s: Seq<char>) -> Option<Seq<ItemView>> {
    let i = skip_ws(s, 0);
    if i < s.len() && s[i] == '[' {
        let j = skip_ws(s, i + 1);
        if j < s.len() && s[j] == ']' {
            if skip_ws(s, j + 1) == s.len() {
                Some(Seq::empty())
            } else {
                None
            }
        } else {
            match parse_item(s, j) {
                None => None,
                Some((it, p)) => match parse_rest_items(s, p) {
                    None => None,
                    Some((rest, q)) => if skip_ws(s, q) == s.len() {
                        Some(seq![it] + rest)
                    } else {
                        None
                    },
                },
            }
        }
    } else {
        None
    }
}

/// Relies on String's FromIterator impl over char: collecting characters
/// yields the string holding exactly those characters in that order.
#[verifier::external_body]
fn chars_to_string(v: &Vec<char>) -> (r: String)
    ensures
        r@ == v@,
{
    v.iter().collect()
}

/// The characters of a text, in order.
fn str_to_chars(s: &str) -> (r: Vec<char>)
    ensures
        r@ == s@,
{
    let n = s.unicode_len();
    let mut v: Vec<char> = Vec::new();
    let mut i: usize = 0;
    while i < n
        invariant
            i <= n,
            n == s@.len(),
            v@ == s@.subrange(0, i as int),
        decreases n - i,
    {
        let c = s.get_char(i);
        v.push(c);
        i = i + 1;
        proof {
            assert(v@ =~= s@.subrange(0, i as int));
        }
    }
    proof {
        assert(v@ =~= s@);
    }
    v
}

fn is_ws_char(c: char) -> (r: bool)
    ensures
        r == is_json_ws(c),
{
    c == ' ' || c == '\t' || c == '\n' || c == '\r'
}

fn is_digit_char(c: char) -> (r: bool)
    ensures
        r == is_digit(c),
{
    let u = c as u32;
    48 <= u && u <= 57
}

fn skip_ws_exec(s: &Vec<char>, i: usize) -> (r: usize)
    requires
        i <= s@.len(),
    ensures
        r == skip_ws(s@, i as int),
        i <= r <= s@.len(),
{
    let mut k = i;
    while k < s.len() && is_ws_char(s[k])
        invariant
            i <= k <= s@.len(),
            skip_ws(s@, i as int) == skip_ws(s@, k as int),
        decreases s@.len() - k,
    {
        k = k + 1;
    }
    proof {
        assert(skip_ws(s@, k as int) == k as int);
    }
    k
}

#[verifier::rlimit(80)]
fn parse_string_exec(s: &Vec<char>, i: usize) -> (r: Option<(Vec<char>, usize)>)
    requires
        i <= s@.len(),
    ensures
        match r {
            Some((t, j)) => parse_string(s@, i as int) == Some((t@, j as int)) && i < j
                <= s@.len(),
            None => parse_string(s@, i as int) is None,
        },
{
    if i == s.len() {
        return None;
    }
    if s[i] != '"' {
        return None;
    }
    let mut k = i + 1;
    let mut acc: Vec<char> = Vec::new();
    loop
        invariant
            i + 1 <= k <= s@.len(),
            i < s@.len() && s@[i as int] == '"',
            (match parse_string_body(s@, k as int) {
                Some((tail, j)) => parse_string_body(s@, (i + 1) as int) == Some(
                    (acc@ + tail, j),
                ),
                None => parse_string_body(s@, (i + 1) as int) is None,
            }),
        decreases s@.len() - k,
    {
        if k == s.len() {
            return None;
        }
        let c = s[k];
        if c == '"' {
            proof {
                assert(acc@ + Seq::<char>::empty() =~= acc@);
            }
            return Some((acc, k + 1));
        } else if c == '\\' {
            if k + 1 == s.len() {
                return None;
            }
            let e = s[k + 1];
            if e == 'u' {
                let code = match hex4_exec(s, k + 2) {
                    None => {
                        return None;
                    },
                    Some(v) => v,
                };
                if 0xD800 <= code && code < 0xDC00 {
                    if s.len() - k < 8 {
                        return None;
                    }
                    if s[k + 6] != '\\' || s[k + 7] != 'u' {
                        return None;
                    }
                    let lo = match hex4_exec(s, k + 8) {
                        None => {
                            return None;
                        },
                        Some(v) => v,
                    };
                    if !(0xDC00 <= lo && lo < 0xE000) {
                        return None;
                    }
                    let combined = 0x10000 + (code - 0xD800) * 0x400 + (lo - 0xDC00);
                    let dc = char_from_u32(combined).unwrap();
                    let ghost acc0 = acc@;
                    acc.push(dc);
                    k = k + 12;
                    proof {
                        vstd::utf8::char_u32_cast(dc, combined);
                        match parse_string_body(s@, k as int) {
                            Some((tail, j)) => {
                                assert(acc0 + (seq![dc] + tail) =~= acc@ + tail);
                            },
                            None => {},
                        }
                    }
                } else if 0xDC00 <= code && code < 0xE000 {
                    return None;
                } else {
                    let dc = char_from_u32(code).unwrap();
                    let ghost acc0 = acc@;
                    acc.push(dc);
                    k = k + 6;
                    proof {
                        vstd::utf8::char_u32_cast(dc, code);
                        match parse_string_body(s@, k as int) {
                            Some((tail, j)) => {
                                assert(acc0 + (seq![dc] + tail) =~= acc@ + tail);
                            },
                            None => {},
                        }
                    }
                }
                continue;
            }
            let dc_opt: Option<char> = if e == '"' {
                Some('"')
            } else if e == '\\' {
                Some('\\')
            } else if e == '/' {
                Some('/')
            } else if e == 'b' {
                Some('\u{8}')
            } else if e == 'f' {
                Some('\u{c}')
            } else if e == 'n' {
                Some('\n')
            } else if e == 'r' {
                Some('\r')
            } else if e == 't' {
                Some('\t')
            } else {
                None
            };
            match dc_opt {
                None => {
                    return None;
                },
                Some(dc) => {
                    let ghost acc0 = acc@;
                    acc.push(dc);
                    k = k + 2;
                    proof {
                        match parse_string_body(s@, k as int) {
                            Some((tail, j)) => {
                                assert(acc0 + (seq![dc] + tail) =~= acc@ + tail);
                            },
                            None => {},
                        }
                    }
                },
            }
        } else if (c as u32) < 32 {
            return None;
        } else {
            let ghost acc0 = acc@;
            acc.push(c);
            k = k + 1;
            proof {
                match parse_string_body(s@, k as int) {
                    Some((tail, j)) => {
                        assert(acc0 + (seq![c] + tail) =~= acc@ + tail);
                    },
                    None => {},
                }
            }
        }
    }
}

proof fn lemma_pow10_values()
    ensures
        pow10(18) == 1000000000000000000,
        pow10(19) == 10000000000000000000,
{
    reveal_with_fuel(pow10, 21);
}

fn parse_int_exec(s: &Vec<char>, i: usize) -> (r: Option<(i64, usize)>)
    requires
        i <= s@.len(),
    ensures
        match r {
            Some((v, j)) => parse_int(s@, i as int) == Some((v as int, j as int)) && i < j
                <= s@.len(),
            None => parse_int(s@, i as int) is None,
        },
{
    let neg = if i < s.len() {
        s[i] == '-'
    } else {
        false
    };
    let d0 = if neg {
        i + 1
    } else {
        i
    };
    proof {
        lemma_digits_end_props(s@, d0 as int);
    }
    let mut k = d0;
    while k < s.len() && is_digit_char(s[k])
        invariant
            d0 <= k <= s@.len(),
            digits_end(s@, d0 as int) == digits_end(s@, k as int),
        decreases s@.len() - k,
    {
        k = k + 1;
    }
    proof {
        assert(digits_end(s@, k as int) == k as int);
    }
    let j = k;
    if j == d0 {
        return None;
    }
    if s[d0] == '0' {
        if j > d0 + 1 {
            return None;
        }
        proof {
            assert(digits_val(s@, d0 as int, d0 as int) == 0);
            assert(digits_val(s@, d0 as int, j as int) == 0);
        }
        return Some((0i64, j));
    }
    proof {
        lemma_pow10_values();
        lemma_digits_val_upper(s@, d0 as int, j as int);
        lemma_digits_val_lower(s@, d0 as int, j as int);
    }
    if j - d0 > 19 {
        proof {
            lemma_pow10_mono(19, (j - d0 - 1) as nat);
        }
        return None;
    }
    let mut acc: u64 = 0;
    let mut m = d0;
    while m < j
        invariant
            d0 <= m <= j <= s@.len(),
            j - d0 <= 19,
            all_digits(s@, d0 as int, j as int),
            acc == digits_val(s@, d0 as int, m as int),
        decreases j - m,
    {
        proof {
            lemma_pow10_values();
            lemma_digits_val_upper(s@, d0 as int, m as int);
            lemma_pow10_mono((m - d0) as nat, 18);
        }
        let u = s[m] as u32;
        let d = (u - 48) as u64;
        acc = acc * 10 + d;
        m = m + 1;
    }
    if neg {
        if acc > 9223372036854775808u64 {
            return None;
        }
        let v: i64 = if acc == 9223372036854775808u64 {
            i64::MIN
        } else {
            -(acc as i64)
        };
        Some((v, j))
    } else {
        if acc > 9223372036854775807u64 {
            return None;
        }
        Some((acc as i64, j))
    }
}

/// Relies on char::from_u32: it returns the character with the given code
/// exactly when the code is a unicode scalar value, and nothing otherwise.
#[verifier::external_body]
fn char_from_u32(code: u32) -> (r: Option<char>)
    ensures
        (match r {
            Some(c) => c as u32 == code,
            None => !is_unicode_scalar(code),
        }),
        is_unicode_scalar(code) ==> r is Some,
{
    char::from_u32(code)
}

fn hex_digit_exec(c: char) -> (r: Option<u32>)
    ensures
        (match r {
            Some(v) => hex_val(c) == Some(v as int) && v < 16,
            None => hex_val(c) is None,
        }),
{
    let u = c as u32;
    if 48 <= u && u <= 57 {
        Some(u - 48)
    } else if 97 <= u && u <= 102 {
        Some(u - 87)
    } else if 65 <= u && u <= 70 {
        Some(u - 55)
    } else {
        None
    }
}

fn hex4_exec(s: &Vec<char>, i: usize) -> (r: Option<u32>)
    requires
        i <= s@.len(),
    ensures
        (match r {
            Some(v) => hex4(s@, i as int) == Some(v as int) && v < 0x10000,
            None => hex4(s@, i as int) is None,
        }),
{
    if s.len() < 4 || i > s.len() - 4 {
        return None;
    }
    let h0 = match hex_digit_exec(s[i]) {
        Some(v) => v,
        None => {
            return None;
        },
    };
    let h1 = match hex_digit_exec(s[i + 1]) {
        Some(v) => v,
        None => {
            return None;
        },
    };
    let h2 = match hex_digit_exec(s[i + 2]) {
        Some(v) => v,
        None => {
            return None;
        },
    };
    let h3 = match hex_digit_exec(s[i + 3]) {
        Some(v) => v,
        None => {
            return None;
        },
    };
    Some(h0 * 4096 + h1 * 256 + h2 * 16 + h3)
}

fn digits_end_exec(s: &Vec<char>, i: usize) -> (r: usize)
    requires
        i <= s@.len(),
    ensures
        r == digits_end(s@, i as int),
        i <= r <= s@.len(),
{
    let mut k = i;
    while k < s.len() && is_digit_char(s[k])
        invariant
            i <= k <= s@.len(),
            digits_end(s@, i as int) == digits_end(s@, k as int),
        decreases s@.len() - k,
    {
        k = k + 1;
    }
    proof {
        assert(digits_end(s@, k as int) == k as int);
    }
    k
}

fn skip_number_exec(s: &Vec<char>, i: usize) -> (r: Option<usize>)
    requires
        i <= s@.len(),
    ensures
        (match r {
            Some(j) => skip_number(s@, i as int) == Some(j as int) && i < j <= s@.len(),
            None => skip_number(s@, i as int) is None,
        }),
{
    proof {
        lemma_skip_number_bounds(s@, i as int);
    }
    let neg = i < s.len() && s[i] == '-';
    let d0 = if neg {
        i + 1
    } else {
        i
    };
    let j = digits_end_exec(s, d0);
    if j == d0 {
        return None;
    }
    if s[d0] == '0' && j > d0 + 1 {
        return None;
    }
    let k = if j < s.len() && s[j] == '.' {
        let j2 = digits_end_exec(s, j + 1);
        if j2 == j + 1 {
            return None;
        }
        j2
    } else {
        j
    };
    if k < s.len() && (s[k] == 'e' || s[k] == 'E') {
        let d2 = if k + 1 < s.len() && (s[k + 1] == '+' || s[k + 1] == '-') {
            k + 2
        } else {
            k + 1
        };
        let j3 = digits_end_exec(s, d2);
        if j3 == d2 {
            return None;
        }
        Some(j3)
    } else {
        Some(k)
    }
}

fn skip_value_exec(s: &Vec<char>, i: usize) -> (r: Option<usize>)
    requires
        i <= s@.len(),
    ensures
        (match r {
            Some(j) => skip_value(s@, i as int) == Some(j as int) && i < j <= s@.len(),
            None => skip_value(s@, i as int) is None,
        }),
    decreases s@.len() - i, 0int,
{
    proof {
        lemma_skip_value_bounds(s@, i as int);
    }
    if i == s.len() {
        return None;
    }
    let c = s[i];
    if c == '"' {
        match parse_string_exec(s, i) {
            Some((t, j)) => Some(j),
            None => None,
        }
    } else if c == 't' {
        if s.len() - i >= 4 && s[i + 1] == 'r' && s[i + 2] == 'u' && s[i + 3] == 'e' {
            proof {
                assert(s@.subrange(i as int, i as int + 4) =~= seq!['t', 'r', 'u', 'e']);
            }
            Some(i + 4)
        } else {
            proof {
                if i + 4 <= s@.len() {
                    assert(s@.subrange(i as int, i as int + 4)[1] == s@[i as int + 1]);
                    assert(s@.subrange(i as int, i as int + 4)[2] == s@[i as int + 2]);
                    assert(s@.subrange(i as int, i as int + 4)[3] == s@[i as int + 3]);
                }
            }
            None
        }
    } else if c == 'f' {
        if s.len() - i >= 5 && s[i + 1] == 'a' && s[i + 2] == 'l' && s[i + 3] == 's' && s[i + 4]
            == 'e' {
            proof {
                assert(s@.subrange(i as int, i as int + 5) =~= seq!['f', 'a', 'l', 's', 'e']);
            }
            Some(i + 5)
        } else {
            proof {
                if i + 5 <= s@.len() {
                    assert(s@.subrange(i as int, i as int + 5)[1] == s@[i as int + 1]);
                    assert(s@.subrange(i as int, i as int + 5)[2] == s@[i as int + 2]);
                    assert(s@.subrange(i as int, i as int + 5)[3] == s@[i as int + 3]);
                    assert(s@.subrange(i as int, i as int + 5)[4] == s@[i as int + 4]);
                }
            }
            None
        }
    } else if c == 'n' {
        if s.len() - i >= 4 && s[i + 1] == 'u' && s[i + 2] == 'l' && s[i + 3] == 'l' {
            proof {
                assert(s@.subrange(i as int, i as int + 4) =~= seq!['n', 'u', 'l', 'l']);
            }
            Some(i + 4)
        } else {
            proof {
                if i + 4 <= s@.len() {
                    assert(s@.subrange(i as int, i as int + 4)[1] == s@[i as int + 1]);
                    assert(s@.subrange(i as int, i as int + 4)[2] == s@[i as int + 2]);
                    assert(s@.subrange(i as int, i as int + 4)[3] == s@[i as int + 3]);
                }
            }
            None
        }
    } else if c == '[' {
        let m = skip_ws_exec(s, i + 1);
        skip_array_rest_exec(s, m)
    } else if c == '{' {
        let m = skip_ws_exec(s, i + 1);
        skip_object_rest_exec(s, m)
    } else {
        skip_number_exec(s, i)
    }
}

fn skip_array_rest_exec(s: &Vec<char>, i: usize) -> (r: Option<usize>)
    requires
        i <= s@.len(),
    ensures
        (match r {
            Some(j) => skip_array_rest(s@, i as int) == Some(j as int) && i < j <= s@.len(),
            None => skip_array_rest(s@, i as int) is None,
        }),
    decreases s@.len() - i, 1int,
{
    proof {
        lemma_skip_array_rest_bounds(s@, i as int);
    }
    if i == s.len() {
        return None;
    }
    if s[i] == ']' {
        return Some(i + 1);
    }
    match skip_value_exec(s, i) {
        None => None,
        Some(p) => {
            let q = skip_ws_exec(s, p);
            if q < s.len() && s[q] == ']' {
                Some(q + 1)
            } else if q < s.len() && s[q] == ',' {
                let m = skip_ws_exec(s, q + 1);
                skip_array_rest_exec(s, m)
            } else {
                None
            }
        },
    }
}

fn skip_object_rest_exec(s: &Vec<char>, i: usize) -> (r: Option<usize>)
    requires
        i <= s@.len(),
    ensures
        (match r {
            Some(j) => skip_object_rest(s@, i as int) == Some(j as int) && i < j <= s@.len(),
            None => skip_object_rest(s@, i as int) is None,
        }),
    decreases s@.len() - i, 1int,
{
    proof {
        lemma_skip_object_rest_bounds(s@, i as int);
    }
    if i == s.len() {
        return None;
    }
    if s[i] == '}' {
        return Some(i + 1);
    }
    match parse_string_exec(s, i) {
        None => None,
        Some((_, j)) => {
            let k = skip_ws_exec(s, j);
            if k == s.len() {
                return None;
            }
            if s[k] != ':' {
                return None;
            }
            let m = skip_ws_exec(s, k + 1);
            match skip_value_exec(s, m) {
                None => None,
                Some(p) => {
                    let q = skip_ws_exec(s, p);
                    if q < s.len() && s[q] == '}' {
                        Some(q + 1)
                    } else if q < s.len() && s[q] == ',' {
                        let m2 = skip_ws_exec(s, q + 1);
                        skip_object_rest_exec(s, m2)
                    } else {
                        None
                    }
                },
            }
        },
    }
}

spec fn oiv(o: Option<i64>) -> Option<int> {
    match o {
        Some(v) => Some(v as int),
        None => None,
    }
}

spec fn osv(o: Option<String>) -> Option<Seq<char>> {
    match o {
        Some(t) => Some(t@),
        None => None,
    }
}

fn parse_item_exec(s: &Vec<char>, i: usize) -> (r: Option<(WaygateItem, usize)>)
    requires
        i <= s@.len(),
    ensures
        match r {
            Some((it, j)) => parse_item(s@, i as int) == Some((it@, j as int)) && i < j
                <= s@.len(),
            None => parse_item(s@, i as int) is None,
        },
{
    if i == s.len() {
        return None;
    }
    if s[i] != '{' {
        return None;
    }
    let mut pos = skip_ws_exec(s, i + 1);
    let mut id: Option<i64> = None;
    let mut item_f: Option<String> = None;
    let mut title_f: Option<String> = None;
    loop
        invariant
            pos <= s@.len(),
            parse_fields(s@, pos as int, oiv(id), osv(item_f), osv(title_f)) == parse_item(
                s@,
                i as int,
            ),
        decreases s@.len() - pos,
    {
        let key = match parse_string_exec(s, pos) {
            None => {
                return None;
            },
            Some((kv, j)) => {
                pos = j;
                kv
            },
        };
        let k2 = skip_ws_exec(s, pos);
        if k2 == s.len() {
            return None;
        }
        if s[k2] != ':' {
            return None;
        }
        let m = skip_ws_exec(s, k2 + 1);
        if key.len() == 2 && key[0] == 'i' && key[1] == 'd' {
            proof {
                assert(key@ =~= seq!['i', 'd']);
            }
            if id.is_some() {
                return None;
            }
            match parse_int_exec(s, m) {
                None => {
                    return None;
                },
                Some((v, p)) => {
                    id = Some(v);
                    pos = p;
                },
            }
        } else if key.len() == 4 && key[0] == 'i' && key[1] == 't' && key[2] == 'e' && key[3]
            == 'm' {
            proof {
                assert(key@ =~= seq!['i', 't', 'e', 'm']);
            }
            if item_f.is_some() {
                return None;
            }
            match parse_string_exec(s, m) {
                None => {
                    return None;
                },
                Some((t, p)) => {
                    item_f = Some(chars_to_string(&t));
                    pos = p;
                },
            }
        } else if key.len() == 5 && key[0] == 't' && key[1] == 'i' && key[2] == 't' && key[3]
            == 'l' && key[4] == 'e' {
            proof {
                assert(key@ =~= seq!['t', 'i', 't', 'l', 'e']);
            }
            if title_f.is_some() {
                return None;
            }
            match parse_string_exec(s, m) {
                None => {
                    return None;
                },
                Some((t, p)) => {
                    title_f = Some(chars_to_string(&t));
                    pos = p;
                },
            }
        } else {
            match skip_value_exec(s, m) {
                None => {
                    return None;
                },
                Some(p) => {
                    pos = p;
                },
            }
        }
        let q = skip_ws_exec(s, pos);
        if q == s.len() {
            return None;
        }
        let cq = s[q];
        if cq == '}' {
            if id.is_some() && item_f.is_some() && title_f.is_some() {
                proof {
                    lemma_parse_item_bounds(s@, i as int);
                }
                let it = WaygateItem {
                    id: id.unwrap(),
                    item: item_f.unwrap(),
                    title: title_f.unwrap(),
                };
                return Some((it, q + 1));
            } else {
                return None;
            }
        } else if cq == ',' {
            pos = skip_ws_exec(s, q + 1);
        } else {
            return None;
        }
    }
}

fn parse_rest_exec(s: &Vec<char>, start: usize, items: &mut Vec<WaygateItem>) -> (r: Option<
    usize,
>)
    requires
        start <= s@.len(),
    ensures
        match r {
            Some(q) => parse_rest_items(s@, start as int) matches Some((rest, qq)) && qq
                == q as int && q <= s@.len() && items_view(final (items)@) == items_view(
                old(items)@,
            ) + rest,
            None => parse_rest_items(s@, start as int) is None,
        },
{
    let ghost items0 = items@;
    let ghost n0 = items@.len() as int;
    let mut pos = start;
    loop
        invariant
            pos <= s@.len(),
            n0 == items0.len(),
            items@.len() >= n0,
            items@.subrange(0, n0) == items0,
            items0 == old(items)@,
            (match parse_rest_items(s@, pos as int) {
                Some((rest, q)) => parse_rest_items(s@, start as int) == Some(
                    (items_view(items@.skip(n0)) + rest, q),
                ),
                None => parse_rest_items(s@, start as int) is None,
            }),
        decreases s@.len() - pos,
    {
        let q = skip_ws_exec(s, pos);
        if q == s.len() {
            return None;
        }
        let cq = s[q];
        if cq == ']' {
            proof {
                assert(items_view(items@.skip(n0)) + Seq::<ItemView>::empty() =~= items_view(
                    items@.skip(n0),
                ));
                assert(items@ =~= items0 + items@.skip(n0));
                assert(items_view(items@) =~= items_view(items0) + items_view(items@.skip(n0)));
            }
            return Some(q + 1);
        }
        if cq != ',' {
            return None;
        }
        let m = skip_ws_exec(s, q + 1);
        match parse_item_exec(s, m) {
            None => {
                return None;
            },
            Some((it, p)) => {
                let ghost itemsb = items@;
                items.push(it);
                pos = p;
                proof {
                    assert(items@.subrange(0, n0) =~= items0);
                    match parse_rest_items(s@, pos as int) {
                        Some((rest, qq)) => {
                            assert(items_view(itemsb.skip(n0)) + (seq![it@] + rest) =~= items_view(
                                items@.skip(n0),
                            ) + rest);
                        },
                        None => {},
                    }
                }
            },
        }
    }
}

/// Decode a list-response body: the items of the JSON array it holds, in
/// order, or nothing where the text does not conform to the grammar above.
pub fn decode_items(body: &str) -> (r: Option<Vec<WaygateItem>>)
    ensures
        match r {
            Some(v) => decode_spec(body@) == Some(items_view(v@)),
            None => decode_spec(body@) is None,
        },
{
    let s = str_to_chars(body);
    let i = skip_ws_exec(&s, 0);
    if i == s.len() {
        return None;
    }
    if s[i] != '[' {
        return None;
    }
    let j = skip_ws_exec(&s, i + 1);
    if j < s.len() && s[j] == ']' {
        let e = skip_ws_exec(&s, j + 1);
        if e == s.len() {
            let empty: Vec<WaygateItem> = Vec::new();
            proof {
                assert(items_view(empty@) =~= Seq::<ItemView>::empty());
            }
            return Some(empty);
        } else {
            return None;
        }
    }
    match parse_item_exec(&s, j) {
        None => {
            return None;
        },
        Some((first, p)) => {
            let mut items: Vec<WaygateItem> = Vec::new();
            items.push(first);
            let ghost items1 = items@;
            match parse_rest_exec(&s, p, &mut items) {
                None => {
                    return None;
                },
                Some(q) => {
                    let e = skip_ws_exec(&s, q);
                    if e == s.len() {
                        proof {
                            match parse_rest_items(s@, p as int) {
                                Some((rest, qq)) => {
                                    assert(items_view(items1) =~= seq![first@]);
                                    assert(seq![first@] + rest =~= items_view(items@));
                                },
                                None => {},
                            }
                        }
                        return Some(items);
                    } else {
                        return None;
                    }
                },
            }
        },
    }
}

} // verus!
