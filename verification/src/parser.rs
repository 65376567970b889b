//! The executable recursive-descent parser.
//!
//! All sub-parsers share one forward-only cursor, an index into the input
//! character sequence, passed down the call chain by mutable borrow. Each
//! sub-parser either consumes the characters of its production and advances
//! the cursor, or fails; a failure anywhere aborts the whole parse. Every
//! function is proved to return exactly what the corresponding grammar
//! function in [`crate::grammar`] describes.

use vstd::prelude::*;
use crate::chars::{is_digit, is_ws_char, is_digit_char, digit_value, decode_escape};
use crate::grammar::{skip_ws_idx, spec_string_rest, spec_string, spec_digits_rec, spec_digits,
    wrap_to_i32, neg_wrap_i32, spec_integer, spec_frac_rec, spec_fraction, spec_sign,
    spec_exponent, spec_number, spec_literal, spec_value, spec_element, spec_object,
    spec_object_items, spec_member, spec_array, spec_array_items, spec_parse};
use crate::model::{Value, Number, JsonModel, entry_models, elem_models, lemma_entry_models,
    lemma_elem_models_push, obj_key_idx, obj_insert, lemma_obj_key_idx};

verus! {

/// Consumes the maximal run of whitespace characters at the cursor.
pub fn skip_whitespace(s: &Vec<char>, i: &mut usize)
    requires
        *old(i) <= s@.len(),
    ensures
        *final(i) as int == skip_ws_idx(s@, *old(i) as int),
        *old(i) <= *final(i) <= s@.len(),
{
    let n = s.len();
    let mut j: usize = *i;
    loop
        invariant
            *old(i) <= j <= n,
            n == s@.len(),
            skip_ws_idx(s@, *old(i) as int) == skip_ws_idx(s@, j as int),
        decreases n - j,
    {
        if j >= n {
            *i = j;
            return ;
        }
        if !is_ws_char(s[j]) {
            *i = j;
            return ;
        }
        j += 1;
    }
}

/// Consumes a quoted string and yields its escape-decoded content.
pub fn parse_string(s: &Vec<char>, i: &mut usize) -> (r: Option<Vec<char>>)
    requires
        *old(i) <= s@.len(),
    ensures
        *old(i) <= *final(i) <= s@.len(),
        match r {
            Some(t) => spec_string(s@, *old(i) as int) == Some((t@, *final(i) as int)) && *old(i)
                < *final(i),
            None => spec_string(s@, *old(i) as int) is None,
        },
{
    let n = s.len();
    let mut j: usize = *i;
    if j >= n {
        return None;
    }
    if s[j] != '"' {
        return None;
    }
    j += 1;
    let mut acc: Vec<char> = Vec::new();
    loop
        invariant
            *i == *old(i),
            *old(i) < j <= n,
            n == s@.len(),
            0 <= *old(i) < n && s@[*old(i) as int] == '"',
            (match spec_string_rest(s@, j as int) {
                Some(p) => spec_string_rest(s@, *old(i) + 1 as int) == Some((acc@ + p.0, p.1)),
                None => spec_string_rest(s@, *old(i) + 1 as int) is None,
            }),
        decreases n - j,
    {
        if j >= n {
            return None;
        }
        let c = s[j];
        if c == '"' {
            proof {
                assert(spec_string_rest(s@, j as int) == Some(
                    (Seq::<char>::empty(), j + 1 as int),
                ));
                assert(acc@ + Seq::<char>::empty() =~= acc@);
            }
            *i = j + 1;
            return Some(acc);
        }
        if c == '\\' {
            if j + 1 >= n {
                return None;
            }
            let e = s[j + 1];
            match decode_escape(e) {
                Some(d) => {
                    proof {
                        match spec_string_rest(s@, j + 2 as int) {
                            Some(p) => {
                                assert(acc@ + (seq![d] + p.0) =~= acc@.push(d) + p.0);
                            },
                            None => {},
                        }
                    }
                    acc.push(d);
                    j += 2;
                },
                None => {
                    return None;
                },
            }
        } else {
            proof {
                match spec_string_rest(s@, j + 1 as int) {
                    Some(p) => {
                        assert(acc@ + (seq![c] + p.0) =~= acc@.push(c) + p.0);
                    },
                    None => {},
                }
            }
            acc.push(c);
            j += 1;
        }
    }
}

/// Consumes one-or-more decimal digits, folding them into a 32-bit quantity
/// with wrap-around.
pub fn parse_digits(s: &Vec<char>, i: &mut usize) -> (r: Option<u32>)
    requires
        *old(i) <= s@.len(),
    ensures
        *old(i) <= *final(i) <= s@.len(),
        match r {
            Some(v) => spec_digits(s@, *old(i) as int) == Some((v, *final(i) as int)) && *old(i)
                < *final(i),
            None => spec_digits(s@, *old(i) as int) is None && *final(i) == *old(i),
        },
{
    let n = s.len();
    let mut j: usize = *i;
    if j >= n {
        return None;
    }
    if !is_digit_char(s[j]) {
        return None;
    }
    let mut num: u32 = 0;
    loop
        invariant
            *old(i) <= j <= n,
            n == s@.len(),
            spec_digits_rec(s@, *old(i) as int, 0) == spec_digits_rec(s@, j as int, num),
            0 <= *old(i) < n && is_digit(s@[*old(i) as int]),
        decreases n - j,
    {
        if j >= n {
            *i = j;
            return Some(num);
        }
        let c = s[j];
        if !is_digit_char(c) {
            *i = j;
            return Some(num);
        }
        let d = digit_value(c);
        let wide: u64 = (num as u64) * 10 + (d as u64);
        num = (wide % 0x1_0000_0000) as u32;
        j += 1;
    }
}

/// The signed 32-bit reading of an unsigned 32-bit quantity.
pub fn wrap_u32_to_i32(n: u32) -> (r: i32)
    ensures
        r == wrap_to_i32(n),
{
    if n < 0x8000_0000 {
        n as i32
    } else {
        ((n - 0x8000_0000) as i32) - 0x7fff_ffff - 1
    }
}

/// 32-bit negation with wrap-around.
pub fn negate_wrap(v: i32) -> (r: i32)
    ensures
        r == neg_wrap_i32(v),
{
    if v == i32::MIN {
        v
    } else {
        -v
    }
}

/// Consumes the integer part of a number: an optional `-` sign and
/// one-or-more digits, read with wrap-around.
pub fn parse_integer(s: &Vec<char>, i: &mut usize) -> (r: Option<i32>)
    requires
        *old(i) <= s@.len(),
    ensures
        *old(i) <= *final(i) <= s@.len(),
        match r {
            Some(v) => spec_integer(s@, *old(i) as int) == Some((v, *final(i) as int)) && *old(i)
                < *final(i),
            None => spec_integer(s@, *old(i) as int) is None,
        },
{
    if *i >= s.len() {
        return None;
    }
    let neg = s[*i] == '-';
    if neg {
        *i = *i + 1;
    }
    match parse_digits(s, i) {
        Some(num) => {
            let v = wrap_u32_to_i32(num);
            if neg {
                Some(negate_wrap(v))
            } else {
                Some(v)
            }
        },
        None => None,
    }
}

/// Consumes the fraction part of a number: nothing unless a `.` is present,
/// else the `.` and one-or-more digits, yielded as written.
pub fn parse_fraction(s: &Vec<char>, i: &mut usize) -> (r: Option<Vec<u8>>)
    requires
        *old(i) <= s@.len(),
    ensures
        *old(i) <= *final(i) <= s@.len(),
        match r {
            Some(ds) => spec_fraction(s@, *old(i) as int) == Some((ds@, *final(i) as int)),
            None => spec_fraction(s@, *old(i) as int) is None,
        },
{
    let n = s.len();
    if *i >= n {
        return Some(Vec::new());
    }
    if s[*i] != '.' {
        return Some(Vec::new());
    }
    let mut j: usize = *i + 1;
    if j >= n {
        return None;
    }
    if !is_digit_char(s[j]) {
        return None;
    }
    let mut acc: Vec<u8> = Vec::new();
    loop
        invariant
            *old(i) + 1 <= j <= n,
            n == s@.len(),
            spec_frac_rec(s@, *old(i) + 1 as int, Seq::empty()) == spec_frac_rec(
                s@,
                j as int,
                acc@,
            ),
            0 <= *old(i) < n && s@[*old(i) as int] == '.',
            *old(i) + 1 < n && is_digit(s@[*old(i) + 1 as int]),
        decreases n - j,
    {
        if j >= n {
            *i = j;
            return Some(acc);
        }
        let c = s[j];
        if !is_digit_char(c) {
            *i = j;
            return Some(acc);
        }
        let d = digit_value(c);
        acc.push(d as u8);
        j += 1;
    }
}

/// Reads an optional sign: `-` yields -1, `+` yields 1, anything else yields
/// 1 without consuming. Never fails.
pub fn parse_sign(s: &Vec<char>, i: &mut usize) -> (r: Option<i32>)
    requires
        *old(i) <= s@.len(),
    ensures
        *old(i) <= *final(i) <= s@.len(),
        ({
            let sg = spec_sign(s@, *old(i) as int);
            r == Some(if sg.0 { -1i32 } else { 1i32 }) && *final(i) as int == sg.1
        }),
{
    if *i < s.len() {
        let c = s[*i];
        if c == '-' {
            *i = *i + 1;
            return Some(-1);
        }
        if c == '+' {
            *i = *i + 1;
            return Some(1);
        }
    }
    Some(1)
}

/// Consumes the exponent part of a number: nothing unless `e` or `E` is
/// present, else an optional sign and one-or-more digits, read with
/// wrap-around.
pub fn parse_exponent(s: &Vec<char>, i: &mut usize) -> (r: Option<i32>)
    requires
        *old(i) <= s@.len(),
    ensures
        *old(i) <= *final(i) <= s@.len(),
        match r {
            Some(v) => spec_exponent(s@, *old(i) as int) == Some((v, *final(i) as int)),
            None => spec_exponent(s@, *old(i) as int) is None,
        },
{
    if *i >= s.len() {
        return Some(0);
    }
    let c = s[*i];
    if c != 'e' && c != 'E' {
        return Some(0);
    }
    *i = *i + 1;
    let sign = match parse_sign(s, i) {
        Some(sg) => sg,
        None => {
            return None;
        },
    };
    match parse_digits(s, i) {
        Some(num) => {
            let v = wrap_u32_to_i32(num);
            if sign < 0 {
                Some(negate_wrap(v))
            } else {
                Some(v)
            }
        },
        None => None,
    }
}

/// Consumes a number: integer part, fraction part, exponent part.
pub fn parse_number(s: &Vec<char>, i: &mut usize) -> (r: Option<Value>)
    requires
        *old(i) <= s@.len(),
    ensures
        *old(i) <= *final(i) <= s@.len(),
        match r {
            Some(v) => spec_number(s@, *old(i) as int) == Some((v.model(), *final(i) as int))
                && *old(i) < *final(i),
            None => spec_number(s@, *old(i) as int) is None,
        },
{
    let int_part = match parse_integer(s, i) {
        Some(v) => v,
        None => {
            return None;
        },
    };
    let frac_digits = match parse_fraction(s, i) {
        Some(ds) => ds,
        None => {
            return None;
        },
    };
    let exp = match parse_exponent(s, i) {
        Some(v) => v,
        None => {
            return None;
        },
    };
    Some(Value::Number(Number { int_part, frac_digits, exp }))
}

/// Consumes the literal `true`, one character at a time.
pub fn parse_true(s: &Vec<char>, i: &mut usize) -> (r: Option<Value>)
    requires
        *old(i) <= s@.len(),
    ensures
        *old(i) <= *final(i) <= s@.len(),
        match r {
            Some(v) => spec_literal(s@, *old(i) as int, seq!['t', 'r', 'u', 'e']) == Some(
                *final(i) as int,
            ) && v.model() == JsonModel::True && *old(i) < *final(i),
            None => spec_literal(s@, *old(i) as int, seq!['t', 'r', 'u', 'e']) is None,
        },
{
    let ghost w = seq!['t', 'r', 'u', 'e'];
    let n = s.len();
    let j = *i;
    if j >= n || s[j] != 't' {
        proof {
            if j + 4 <= n {
                assert(s@.subrange(j as int, j as int + 4)[0] == s@[j as int]);
            }
        }
        return None;
    }
    if j + 1 >= n || s[j + 1] != 'r' {
        proof {
            if j + 4 <= n {
                assert(s@.subrange(j as int, j as int + 4)[1] == s@[j as int + 1]);
            }
        }
        return None;
    }
    if j + 2 >= n || s[j + 2] != 'u' {
        proof {
            if j + 4 <= n {
                assert(s@.subrange(j as int, j as int + 4)[2] == s@[j as int + 2]);
            }
        }
        return None;
    }
    if j + 3 >= n || s[j + 3] != 'e' {
        proof {
            if j + 4 <= n {
                assert(s@.subrange(j as int, j as int + 4)[3] == s@[j as int + 3]);
            }
        }
        return None;
    }
    proof {
        assert(s@.subrange(j as int, j as int + 4) =~= w);
    }
    *i = j + 4;
    Some(Value::True)
}

/// Consumes the literal `false`, one character at a time.
pub fn parse_false(s: &Vec<char>, i: &mut usize) -> (r: Option<Value>)
    requires
        *old(i) <= s@.len(),
    ensures
        *old(i) <= *final(i) <= s@.len(),
        match r {
            Some(v) => spec_literal(s@, *old(i) as int, seq!['f', 'a', 'l', 's', 'e']) == Some(
                *final(i) as int,
            ) && v.model() == JsonModel::False && *old(i) < *final(i),
            None => spec_literal(s@, *old(i) as int, seq!['f', 'a', 'l', 's', 'e']) is None,
        },
{
    let ghost w = seq!['f', 'a', 'l', 's', 'e'];
    let n = s.len();
    let j = *i;
    if j >= n || s[j] != 'f' {
        proof {
            if j + 5 <= n {
                assert(s@.subrange(j as int, j as int + 5)[0] == s@[j as int]);
            }
        }
        return None;
    }
    if j + 1 >= n || s[j + 1] != 'a' {
        proof {
            if j + 5 <= n {
                assert(s@.subrange(j as int, j as int + 5)[1] == s@[j as int + 1]);
            }
        }
        return None;
    }
    if j + 2 >= n || s[j + 2] != 'l' {
        proof {
            if j + 5 <= n {
                assert(s@.subrange(j as int, j as int + 5)[2] == s@[j as int + 2]);
            }
        }
        return None;
    }
    if j + 3 >= n || s[j + 3] != 's' {
        proof {
            if j + 5 <= n {
                assert(s@.subrange(j as int, j as int + 5)[3] == s@[j as int + 3]);
            }
        }
        return None;
    }
    if j + 4 >= n || s[j + 4] != 'e' {
        proof {
            if j + 5 <= n {
                assert(s@.subrange(j as int, j as int + 5)[4] == s@[j as int + 4]);
            }
        }
        return None;
    }
    proof {
        assert(s@.subrange(j as int, j as int + 5) =~= w);
    }
    *i = j + 5;
    Some(Value::False)
}

/// Consumes the literal `null`, one character at a time.
pub fn parse_null(s: &Vec<char>, i: &mut usize) -> (r: Option<Value>)
    requires
        *old(i) <= s@.len(),
    ensures
        *old(i) <= *final(i) <= s@.len(),
        match r {
            Some(v) => spec_literal(s@, *old(i) as int, seq!['n', 'u', 'l', 'l']) == Some(
                *final(i) as int,
            ) && v.model() == JsonModel::Null && *old(i) < *final(i),
            None => spec_literal(s@, *old(i) as int, seq!['n', 'u', 'l', 'l']) is None,
        },
{
    let ghost w = seq!['n', 'u', 'l', 'l'];
    let n = s.len();
    let j = *i;
    if j >= n || s[j] != 'n' {
        proof {
            if j + 4 <= n {
                assert(s@.subrange(j as int, j as int + 4)[0] == s@[j as int]);
            }
        }
        return None;
    }
    if j + 1 >= n || s[j + 1] != 'u' {
        proof {
            if j + 4 <= n {
                assert(s@.subrange(j as int, j as int + 4)[1] == s@[j as int + 1]);
            }
        }
        return None;
    }
    if j + 2 >= n || s[j + 2] != 'l' {
        proof {
            if j + 4 <= n {
                assert(s@.subrange(j as int, j as int + 4)[2] == s@[j as int + 2]);
            }
        }
        return None;
    }
    if j + 3 >= n || s[j + 3] != 'l' {
        proof {
            if j + 4 <= n {
                assert(s@.subrange(j as int, j as int + 4)[3] == s@[j as int + 3]);
            }
        }
        return None;
    }
    proof {
        assert(s@.subrange(j as int, j as int + 4) =~= w);
    }
    *i = j + 4;
    Some(Value::Null)
}

/// The index of the first entry whose key equals `k`, or the length when no
/// entry matches.
fn find_key(entries: &Vec<(Vec<char>, Value)>, k: &Vec<char>) -> (r: usize)
    ensures
        r <= entries@.len(),
        r < entries@.len() ==> entries@[r as int].0@ == k@,
        forall|q: int| 0 <= q < r ==> entries@[q].0@ != k@,
{
    let n = entries.len();
    let mut idx: usize = 0;
    loop
        invariant
            idx <= n,
            n == entries@.len(),
            forall|q: int| 0 <= q < idx ==> entries@[q].0@ != k@,
        decreases n - idx,
    {
        if idx >= n {
            return idx;
        }
        if crate::chars::chars_eq(&entries[idx].0, k) {
            return idx;
        }
        idx += 1;
    }
}

/// Inserts a member with last-write-wins semantics: an existing entry with
/// the same key is overwritten in place, otherwise the pair is appended.
pub fn object_insert(entries: &mut Vec<(Vec<char>, Value)>, k: Vec<char>, v: Value)
    ensures
        entry_models(final(entries)@) == obj_insert(entry_models(old(entries)@), k@, v.model()),
{
    let idx = find_key(&*entries, &k);
    proof {
        lemma_entry_models(entries@);
        lemma_obj_key_idx(entry_models(entries@), k@);
        let ms = entry_models(entries@);
        let m = obj_key_idx(ms, k@);
        if idx < entries@.len() {
            assert(ms[idx as int] == (entries@[idx as int].0@, entries@[idx as int].1.model()));
            if m < idx as int {
                assert(ms[m] == (entries@[m].0@, entries@[m].1.model()));
                assert(false);
            }
        } else {
            if m < ms.len() {
                assert(ms[m] == (entries@[m].0@, entries@[m].1.model()));
                assert(false);
            }
        }
        assert(m == idx as int);
    }
    let ghost before = entries@;
    if idx < entries.len() {
        entries.remove(idx);
        entries.insert(idx, (k, v));
        proof {
            assert(entries@ =~= before.update(idx as int, (k, v)));
            lemma_entry_models(entries@);
            assert(entry_models(entries@) =~= obj_insert(
                entry_models(before),
                k@,
                v.model(),
            ));
        }
    } else {
        entries.push((k, v));
        proof {
            lemma_entry_models(entries@);
            assert(entry_models(entries@) =~= obj_insert(
                entry_models(before),
                k@,
                v.model(),
            ));
        }
    }
}

/// Consumes a value, chosen by a single character of lookahead: a string,
/// number, object, array, or one of the literals `true`, `false`, `null`.
pub fn parse_value(s: &Vec<char>, i: &mut usize) -> (r: Option<Value>)
    requires
        *old(i) <= s@.len(),
    ensures
        *old(i) <= *final(i) <= s@.len(),
        match r {
            Some(v) => spec_value(s@, *old(i) as int) == Some((v.model(), *final(i) as int))
                && *old(i) < *final(i),
            None => spec_value(s@, *old(i) as int) is None,
        },
    decreases s@.len() - *i, 2int,
{
    if *i >= s.len() {
        return None;
    }
    let c = s[*i];
    if c == '"' {
        match parse_string(s, i) {
            Some(t) => Some(Value::Str(t)),
            None => None,
        }
    } else if is_digit_char(c) || c == '-' {
        parse_number(s, i)
    } else if c == '{' {
        parse_object(s, i)
    } else if c == '[' {
        parse_array(s, i)
    } else if c == 't' {
        parse_true(s, i)
    } else if c == 'f' {
        parse_false(s, i)
    } else if c == 'n' {
        parse_null(s, i)
    } else {
        None
    }
}

/// Consumes an element: a value with insignificant whitespace skipped before
/// and after it.
pub fn parse_element(s: &Vec<char>, i: &mut usize) -> (r: Option<Value>)
    requires
        *old(i) <= s@.len(),
    ensures
        *old(i) <= *final(i) <= s@.len(),
        match r {
            Some(v) => spec_element(s@, *old(i) as int) == Some((v.model(), *final(i) as int))
                && *old(i) < *final(i),
            None => spec_element(s@, *old(i) as int) is None,
        },
    decreases s@.len() - *i, 3int,
{
    skip_whitespace(s, i);
    let ret = parse_value(s, i);
    skip_whitespace(s, i);
    ret
}

/// Consumes an object: the opening brace was already seen by the caller;
/// members are accumulated with last-write-wins insertion until a closing
/// brace.
pub fn parse_object(s: &Vec<char>, i: &mut usize) -> (r: Option<Value>)
    requires
        *old(i) < s@.len(),
        s@[*old(i) as int] == '{',
    ensures
        *old(i) <= *final(i) <= s@.len(),
        match r {
            Some(v) => spec_object(s@, *old(i) as int) == Some((v.model(), *final(i) as int))
                && *old(i) < *final(i),
            None => spec_object(s@, *old(i) as int) is None,
        },
    decreases s@.len() - *i, 1int,
{
    let n = s.len();
    *i = *i + 1;
    skip_whitespace(s, i);
    let mut j: usize = *i;
    let mut entries: Vec<(Vec<char>, Value)> = Vec::new();
    loop
        invariant
            n == s@.len(),
            0 <= *old(i) < n && s@[*old(i) as int] == '{',
            *i as int == skip_ws_idx(s@, *old(i) + 1 as int),
            *i <= j <= n,
            *old(i) < *i,
            (match spec_object_items(s@, j as int, entry_models(entries@)) {
                Some(p) => spec_object_items(s@, *i as int, Seq::empty()) == Some(p),
                None => spec_object_items(s@, *i as int, Seq::empty()) is None,
            }),
        decreases n - j,
    {
        if j >= n {
            return None;
        }
        let c = s[j];
        if c == '}' {
            let ghost acc = entry_models(entries@);
            proof {
                assert(spec_object_items(s@, j as int, acc) == Some((acc, j + 1 as int)));
            }
            *i = j + 1;
            return Some(Value::Object(entries));
        }
        if c == ',' {
            j += 1;
        }
        match parse_member(s, &mut j) {
            None => {
                return None;
            },
            Some((k, v)) => {
                object_insert(&mut entries, k, v);
                skip_whitespace(s, &mut j);
            },
        }
    }
}

/// Consumes one member: whitespace, a quoted key, whitespace, a mandatory
/// `:`, then an element.
pub fn parse_member(s: &Vec<char>, i: &mut usize) -> (r: Option<(Vec<char>, Value)>)
    requires
        *old(i) <= s@.len(),
    ensures
        *old(i) <= *final(i) <= s@.len(),
        match r {
            Some(p) => spec_member(s@, *old(i) as int) == Some(
                (p.0@, p.1.model(), *final(i) as int),
            ) && *old(i) < *final(i),
            None => spec_member(s@, *old(i) as int) is None,
        },
    decreases s@.len() - *i, 0int,
{
    skip_whitespace(s, i);
    let k = match parse_string(s, i) {
        Some(k) => k,
        None => {
            return None;
        },
    };
    skip_whitespace(s, i);
    if *i >= s.len() {
        return None;
    }
    if s[*i] != ':' {
        return None;
    }
    *i = *i + 1;
    skip_whitespace(s, i);
    let v = match parse_element(s, i) {
        Some(v) => v,
        None => {
            return None;
        },
    };
    Some((k, v))
}

/// Consumes an array: the opening bracket is checked here; elements are
/// appended until a closing bracket.
pub fn parse_array(s: &Vec<char>, i: &mut usize) -> (r: Option<Value>)
    requires
        *old(i) <= s@.len(),
    ensures
        *old(i) <= *final(i) <= s@.len(),
        match r {
            Some(v) => spec_array(s@, *old(i) as int) == Some((v.model(), *final(i) as int))
                && *old(i) < *final(i),
            None => spec_array(s@, *old(i) as int) is None,
        },
    decreases s@.len() - *i, 1int,
{
    let n = s.len();
    if *i >= n {
        return None;
    }
    if s[*i] != '[' {
        return None;
    }
    *i = *i + 1;
    skip_whitespace(s, i);
    let mut j: usize = *i;
    let mut elems: Vec<Value> = Vec::new();
    loop
        invariant
            n == s@.len(),
            0 <= *old(i) < n && s@[*old(i) as int] == '[',
            *i as int == skip_ws_idx(s@, *old(i) + 1 as int),
            *i <= j <= n,
            *old(i) < *i,
            (match spec_array_items(s@, j as int, elem_models(elems@)) {
                Some(p) => spec_array_items(s@, *i as int, Seq::empty()) == Some(p),
                None => spec_array_items(s@, *i as int, Seq::empty()) is None,
            }),
        decreases n - j,
    {
        if j >= n {
            return None;
        }
        let c = s[j];
        if c == ']' {
            let ghost acc = elem_models(elems@);
            proof {
                assert(spec_array_items(s@, j as int, acc) == Some((acc, j + 1 as int)));
            }
            *i = j + 1;
            return Some(Value::Array(elems));
        }
        if c == ',' {
            j += 1;
        }
        match parse_element(s, &mut j) {
            None => {
                return None;
            },
            Some(v) => {
                proof {
                    lemma_elem_models_push(elems@, v);
                }
                elems.push(v);
                skip_whitespace(s, &mut j);
            },
        }
    }
}

/// Parses a whole input: the element at the start of the character sequence.
/// Characters after the element are not consumed and not rejected.
pub fn parse(input: &Vec<char>) -> (r: Option<Value>)
    ensures
        match r {
            Some(v) => spec_parse(input@) == Some(v.model()),
            None => spec_parse(input@) is None,
        },
{
    let mut i: usize = 0;
    parse_element(input, &mut i)
}

} // verus!
