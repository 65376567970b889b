//! The JSON grammar, written down as specification functions.
//!
//! Each function takes the input character sequence and a cursor position and
//! yields `None` for a failed match, or the parsed model together with the
//! position just past the consumed characters. The executable parser is
//! proved to return exactly these results.

use vstd::prelude::*;
use crate::chars::{is_ws, is_digit, digit_val, escape_char};
use crate::model::{JsonModel, NumberModel, obj_insert};

verus! {

/// The length of the maximal run of whitespace characters starting at `i`.
pub open spec fn ws_run(s: Seq<char>, i: int) -> nat
    decreases s.len() - i,
{
    if 0 <= i < s.len() && is_ws(s[i]) {
        (1 + ws_run(s, i + 1)) as nat
    } else {
        0
    }
}

/// The position of the first non-whitespace character at or after `i`.
pub open spec fn skip_ws_idx(s: Seq<char>, i: int) -> int {
    i + ws_run(s, i)
}

/// The decoded content of a string body starting at `i` (just past the
/// opening quote): the characters up to an unescaped closing quote, with
/// each backslash escape replaced by its decoded character. Fails on an
/// unsupported escape or when the input ends before a closing quote.
pub open spec fn spec_string_rest(s: Seq<char>, i: int) -> Option<(Seq<char>, int)>
    decreases s.len() - i,
{
    if !(0 <= i < s.len()) {
        None
    } else if s[i] == '"' {
        Some((Seq::empty(), i + 1))
    } else if s[i] == '\\' {
        if i + 1 >= s.len() {
            None
        } else {
            match escape_char(s[i + 1]) {
                Some(c) => match spec_string_rest(s, i + 2) {
                    Some(p) => Some((seq![c] + p.0, p.1)),
                    None => None,
                },
                None => None,
            }
        }
    } else {
        match spec_string_rest(s, i + 1) {
            Some(p) => Some((seq![s[i]] + p.0, p.1)),
            None => None,
        }
    }
}

/// A quoted string at `i`: an opening quote, then the decoded body.
pub open spec fn spec_string(s: Seq<char>, i: int) -> Option<(Seq<char>, int)> {
    if 0 <= i < s.len() && s[i] == '"' {
        spec_string_rest(s, i + 1)
    } else {
        None
    }
}

/// The value accumulated from the maximal digit run starting at `i`, folded
/// left into a 32-bit quantity with wrap-around (the documented overflow
/// behaviour), starting from `acc`; paired with the position past the run.
pub open spec fn spec_digits_rec(s: Seq<char>, i: int, acc: u32) -> (u32, int)
    decreases s.len() - i,
{
    if 0 <= i < s.len() && is_digit(s[i]) {
        spec_digits_rec(s, i + 1, ((acc * 10 + digit_val(s[i])) % 0x1_0000_0000) as u32)
    } else {
        (acc, i)
    }
}

/// One-or-more decimal digits at `i`; fails when none is present.
pub open spec fn spec_digits(s: Seq<char>, i: int) -> Option<(u32, int)> {
    if 0 <= i < s.len() && is_digit(s[i]) {
        Some(spec_digits_rec(s, i, 0))
    } else {
        None
    }
}

/// The signed 32-bit reading of an unsigned 32-bit quantity.
pub open spec fn wrap_to_i32(n: u32) -> i32 {
    if n < 0x8000_0000 {
        n as i32
    } else {
        (n - 0x1_0000_0000) as i32
    }
}

/// 32-bit negation with wrap-around: the minimum value is its own negation.
pub open spec fn neg_wrap_i32(v: i32) -> i32 {
    if v as int == -0x8000_0000 {
        v
    } else {
        (-(v as int)) as i32
    }
}

/// A sign applied to a 32-bit quantity, with wrap-around.
pub open spec fn apply_sign(neg: bool, v: i32) -> i32 {
    if neg {
        neg_wrap_i32(v)
    } else {
        v
    }
}

/// The integer part at `i`: an optional `-` sign, then one-or-more digits,
/// read as a signed 32-bit quantity with wrap-around.
pub open spec fn spec_integer(s: Seq<char>, i: int) -> Option<(i32, int)> {
    if !(0 <= i < s.len()) {
        None
    } else {
        let neg = s[i] == '-';
        let j = if neg { i + 1 } else { i };
        match spec_digits(s, j) {
            Some(p) => Some((apply_sign(neg, wrap_to_i32(p.0)), p.1)),
            None => None,
        }
    }
}

/// The digits of the maximal digit run starting at `i`, appended to `acc`;
/// paired with the position past the run.
pub open spec fn spec_frac_rec(s: Seq<char>, i: int, acc: Seq<u8>) -> (Seq<u8>, int)
    decreases s.len() - i,
{
    if 0 <= i < s.len() && is_digit(s[i]) {
        spec_frac_rec(s, i + 1, acc.push(digit_val(s[i]) as u8))
    } else {
        (acc, i)
    }
}

/// The fraction part at `i`: absent (an empty digit sequence) unless a `.`
/// is present, in which case at least one digit must follow and the maximal
/// digit run is taken.
pub open spec fn spec_fraction(s: Seq<char>, i: int) -> Option<(Seq<u8>, int)> {
    if 0 <= i < s.len() && s[i] == '.' {
        if i + 1 < s.len() && is_digit(s[i + 1]) {
            Some(spec_frac_rec(s, i + 1, Seq::empty()))
        } else {
            None
        }
    } else {
        Some((Seq::empty(), i))
    }
}

/// An optional sign at `i`: `-` reads as negative, `+` as positive, anything
/// else as positive without consuming; paired with the position after it.
pub open spec fn spec_sign(s: Seq<char>, i: int) -> (bool, int) {
    if 0 <= i < s.len() && s[i] == '-' {
        (true, i + 1)
    } else if 0 <= i < s.len() && s[i] == '+' {
        (false, i + 1)
    } else {
        (false, i)
    }
}

/// The exponent part at `i`: absent (zero) unless `e` or `E` is present, in
/// which case an optional sign and one-or-more digits follow, read as a
/// signed 32-bit quantity with wrap-around.
pub open spec fn spec_exponent(s: Seq<char>, i: int) -> Option<(i32, int)> {
    if 0 <= i < s.len() && (s[i] == 'e' || s[i] == 'E') {
        let sgn = spec_sign(s, i + 1);
        match spec_digits(s, sgn.1) {
            Some(p) => Some((apply_sign(sgn.0, wrap_to_i32(p.0)), p.1)),
            None => None,
        }
    } else {
        Some((0, i))
    }
}

/// A number at `i`: integer part, then fraction part, then exponent part.
pub open spec fn spec_number(s: Seq<char>, i: int) -> Option<(JsonModel, int)> {
    match spec_integer(s, i) {
        None => None,
        Some(ip) => match spec_fraction(s, ip.1) {
            None => None,
            Some(fp) => match spec_exponent(s, fp.1) {
                None => None,
                Some(ep) => Some(
                    (
                        JsonModel::Number(
                            NumberModel { int_part: ip.0, frac_digits: fp.0, exp: ep.0 },
                        ),
                        ep.1,
                    ),
                ),
            },
        },
    }
}

/// The fixed character sequence `w` at `i`: the position past it when every
/// character matches, `None` on any mismatch or end of input.
pub open spec fn spec_literal(s: Seq<char>, i: int, w: Seq<char>) -> Option<int> {
    if 0 <= i && i + w.len() <= s.len() && s.subrange(i, i + w.len() as int) == w {
        Some(i + w.len())
    } else {
        None
    }
}

/// A value at `i`, chosen by a single character of lookahead: a string,
/// number, object, array, or one of the literals `true`, `false`, `null`.
/// Anything else, or end of input, fails.
pub open spec fn spec_value(s: Seq<char>, i: int) -> Option<(JsonModel, int)>
    decreases s.len() - i, 2int,
{
    if !(0 <= i < s.len()) {
        None
    } else {
        let c = s[i];
        if c == '"' {
            match spec_string(s, i) {
                Some(p) => Some((JsonModel::Str(p.0), p.1)),
                None => None,
            }
        } else if is_digit(c) || c == '-' {
            spec_number(s, i)
        } else if c == '{' {
            spec_object(s, i)
        } else if c == '[' {
            spec_array(s, i)
        } else if c == 't' {
            match spec_literal(s, i, seq!['t', 'r', 'u', 'e']) {
                Some(e) => Some((JsonModel::True, e)),
                None => None,
            }
        } else if c == 'f' {
            match spec_literal(s, i, seq!['f', 'a', 'l', 's', 'e']) {
                Some(e) => Some((JsonModel::False, e)),
                None => None,
            }
        } else if c == 'n' {
            match spec_literal(s, i, seq!['n', 'u', 'l', 'l']) {
                Some(e) => Some((JsonModel::Null, e)),
                None => None,
            }
        } else {
            None
        }
    }
}

/// An element at `i`: a value with insignificant whitespace skipped before
/// and after it.
pub open spec fn spec_element(s: Seq<char>, i: int) -> Option<(JsonModel, int)>
    decreases s.len() - i, 3int,
{
    let j = skip_ws_idx(s, i);
    if j <= s.len() {
        match spec_value(s, j) {
            Some(p) => Some((p.0, skip_ws_idx(s, p.1))),
            None => None,
        }
    } else {
        // whitespace never runs past the end of the input; this branch only
        // keeps the recursion well-founded
        None
    }
}

/// An object at `i`: an opening brace, then members accumulated with
/// last-write-wins insertion until a closing brace.
pub open spec fn spec_object(s: Seq<char>, i: int) -> Option<(JsonModel, int)>
    decreases s.len() - i, 1int,
{
    if 0 <= i < s.len() && s[i] == '{' {
        let j = skip_ws_idx(s, i + 1);
        if j <= s.len() {
            match spec_object_items(s, j, Seq::empty()) {
                Some(p) => Some((JsonModel::Object(p.0), p.1)),
                None => None,
            }
        } else {
            None
        }
    } else {
        None
    }
}

/// The member loop of an object, carrying the entries accumulated so far: a
/// closing brace ends the object; otherwise one comma is consumed when
/// present (stray and trailing commas are deliberately tolerated), then a
/// member is parsed and inserted. End of input before a closing brace fails.
pub open spec fn spec_object_items(
    s: Seq<char>,
    i: int,
    acc: Seq<(Seq<char>, JsonModel)>,
) -> Option<(Seq<(Seq<char>, JsonModel)>, int)>
    decreases s.len() - i, 4int,
{
    if !(0 <= i < s.len()) {
        None
    } else if s[i] == '}' {
        Some((acc, i + 1))
    } else {
        let j: int = if s[i] == ',' {
            i + 1
        } else {
            i
        };
        match spec_member(s, j) {
            Some((k, v, m)) => {
                let m2 = skip_ws_idx(s, m);
                if i < m2 <= s.len() {
                    spec_object_items(s, m2, obj_insert(acc, k, v))
                } else {
                    // a member always consumes characters; this branch only
                    // keeps the recursion well-founded
                    None
                }
            },
            None => None,
        }
    }
}

/// A member: whitespace, a quoted key, whitespace, a mandatory `:`, then an
/// element; yields the key, the value and the position past the element.
pub open spec fn spec_member(s: Seq<char>, i: int) -> Option<(Seq<char>, JsonModel, int)>
    decreases s.len() - i, 0int,
{
    let j = skip_ws_idx(s, i);
    match spec_string(s, j) {
        None => None,
        Some((k, e1)) => {
            let e2 = skip_ws_idx(s, e1);
            if 0 <= e2 < s.len() && s[e2] == ':' {
                let j2 = skip_ws_idx(s, e2 + 1);
                if i < j2 <= s.len() {
                    match spec_element(s, j2) {
                        Some((v, e3)) => Some((k, v, e3)),
                        None => None,
                    }
                } else {
                    // the key and the colon were already consumed; this
                    // branch only keeps the recursion well-founded
                    None
                }
            } else {
                None
            }
        },
    }
}

/// An array at `i`: an opening bracket, then elements until a closing
/// bracket.
pub open spec fn spec_array(s: Seq<char>, i: int) -> Option<(JsonModel, int)>
    decreases s.len() - i, 1int,
{
    if 0 <= i < s.len() && s[i] == '[' {
        let j = skip_ws_idx(s, i + 1);
        if j <= s.len() {
            match spec_array_items(s, j, Seq::empty()) {
                Some(p) => Some((JsonModel::Array(p.0), p.1)),
                None => None,
            }
        } else {
            None
        }
    } else {
        None
    }
}

/// The element loop of an array, carrying the elements accumulated so far: a
/// closing bracket ends the array; otherwise one comma is consumed when
/// present (stray and trailing commas are deliberately tolerated), then an
/// element is parsed and appended. End of input before a closing bracket
/// fails.
pub open spec fn spec_array_items(s: Seq<char>, i: int, acc: Seq<JsonModel>) -> Option<
    (Seq<JsonModel>, int),
>
    decreases s.len() - i, 4int,
{
    if !(0 <= i < s.len()) {
        None
    } else if s[i] == ']' {
        Some((acc, i + 1))
    } else {
        let j: int = if s[i] == ',' {
            i + 1
        } else {
            i
        };
        match spec_element(s, j) {
            Some((v, m)) => {
                let m2 = skip_ws_idx(s, m);
                if i < m2 <= s.len() {
                    spec_array_items(s, m2, acc.push(v))
                } else {
                    // an element always consumes characters; this branch
                    // only keeps the recursion well-founded
                    None
                }
            },
            None => None,
        }
    }
}

/// A whole parse: the element at the start of the input. Characters after
/// the element are not consumed and not rejected.
pub open spec fn spec_parse(s: Seq<char>) -> Option<JsonModel> {
    match spec_element(s, 0) {
        Some(p) => Some(p.0),
        None => None,
    }
}

} // verus!
