//! Properties of the grammar, stated and proved once for all inputs.

use vstd::prelude::*;
use crate::chars::{is_digit, digit_val, is_ws};
use crate::grammar::{spec_digits_rec, spec_digits, spec_frac_rec, spec_fraction, spec_literal,
    spec_value, spec_element, spec_object, spec_object_items, spec_member, spec_array,
    spec_array_items, spec_string, spec_parse, ws_run, skip_ws_idx};
use crate::grammar::{spec_integer, spec_exponent, spec_number, spec_sign, apply_sign,
    wrap_to_i32};
use crate::model::{JsonModel, NumberModel, obj_key_idx, obj_insert, obj_lookup, obj_keys_unique,
    wf_model, lemma_obj_key_idx};

verus! {

/// Wherever the characters `true` stand in the input, the value production
/// yields the `True` variant and consumes exactly those four characters.
pub proof fn lemma_literal_true(s: Seq<char>, i: int)
    requires
        0 <= i,
        i + 4 <= s.len(),
        s.subrange(i, i + 4) == seq!['t', 'r', 'u', 'e'],
    ensures
        spec_value(s, i) == Some((JsonModel::True, i + 4)),
{
    assert(s[i] == 't') by {
        assert(s.subrange(i, i + 4)[0] == s[i]);
    }
    assert(spec_literal(s, i, seq!['t', 'r', 'u', 'e']) == Some(i + 4));
}

/// Wherever the characters `false` stand in the input, the value production
/// yields the `False` variant and consumes exactly those five characters.
pub proof fn lemma_literal_false(s: Seq<char>, i: int)
    requires
        0 <= i,
        i + 5 <= s.len(),
        s.subrange(i, i + 5) == seq!['f', 'a', 'l', 's', 'e'],
    ensures
        spec_value(s, i) == Some((JsonModel::False, i + 5)),
{
    assert(s[i] == 'f') by {
        assert(s.subrange(i, i + 5)[0] == s[i]);
    }
    assert(spec_literal(s, i, seq!['f', 'a', 'l', 's', 'e']) == Some(i + 5));
}

/// Wherever the characters `null` stand in the input, the value production
/// yields the `Null` variant and consumes exactly those four characters.
pub proof fn lemma_literal_null(s: Seq<char>, i: int)
    requires
        0 <= i,
        i + 4 <= s.len(),
        s.subrange(i, i + 4) == seq!['n', 'u', 'l', 'l'],
    ensures
        spec_value(s, i) == Some((JsonModel::Null, i + 4)),
{
    assert(s[i] == 'n') by {
        assert(s.subrange(i, i + 4)[0] == s[i]);
    }
    assert(spec_literal(s, i, seq!['n', 'u', 'l', 'l']) == Some(i + 4));
}

/// The standard, unbounded base-10 reading of the maximal digit run at `i`,
/// folded left onto `acc`.
pub open spec fn digits_val_rec(s: Seq<char>, i: int, acc: int) -> int
    decreases s.len() - i,
{
    if 0 <= i < s.len() && is_digit(s[i]) {
        digits_val_rec(s, i + 1, acc * 10 + digit_val(s[i]))
    } else {
        acc
    }
}

/// The digit accumulation stays on the digit run: it stops at the first
/// non-digit, and every consumed character is a digit.
proof fn lemma_digits_rec_range(s: Seq<char>, i: int, acc: u32)
    requires
        0 <= i <= s.len(),
    ensures
        i <= spec_digits_rec(s, i, acc).1 <= s.len(),
        forall|q: int| i <= q < spec_digits_rec(s, i, acc).1 ==> is_digit(s[q]),
        spec_digits_rec(s, i, acc).1 < s.len() ==> !is_digit(s[spec_digits_rec(s, i, acc).1]),
    decreases s.len() - i,
{
    if 0 <= i < s.len() && is_digit(s[i]) {
        lemma_digits_rec_range(s, i + 1, ((acc * 10 + digit_val(s[i])) % 0x1_0000_0000) as u32);
    }
}

/// Wrap-around accumulation reads the same digits as unbounded
/// accumulation, modulo 2^32.
proof fn lemma_digits_rec_wrap(s: Seq<char>, i: int, acc_w: u32, acc: int)
    requires
        acc >= 0,
        acc_w as int == acc % 0x1_0000_0000,
    ensures
        spec_digits_rec(s, i, acc_w).0 as int == digits_val_rec(s, i, acc) % 0x1_0000_0000,
    decreases s.len() - i,
{
    let m = 0x1_0000_0000int;
    if 0 <= i < s.len() && is_digit(s[i]) {
        let d = digit_val(s[i]);
        assert(0 <= d <= 9);
        vstd::arithmetic::div_mod::lemma_add_mod_noop((acc % m) * 10, d, m);
        vstd::arithmetic::div_mod::lemma_mul_mod_noop_left(acc, 10, m);
        vstd::arithmetic::div_mod::lemma_add_mod_noop(acc * 10, d, m);
        assert((acc_w * 10 + d) % m == (acc * 10 + d) % m);
        lemma_digits_rec_wrap(s, i + 1, ((acc_w * 10 + d) % m) as u32, acc * 10 + d);
    }
}

/// The digits production reads the standard base-10 value of the maximal
/// digit run, wrapped modulo 2^32, and consumes exactly that run.
pub proof fn lemma_digits_standard(s: Seq<char>, i: int)
    requires
        0 <= i <= s.len(),
    ensures
        spec_digits(s, i) matches Some(p) ==> {
            &&& i < p.1 <= s.len()
            &&& forall|q: int| i <= q < p.1 ==> is_digit(s[q])
            &&& (p.1 < s.len() ==> !is_digit(s[p.1]))
            &&& p.0 as int == digits_val_rec(s, i, 0) % 0x1_0000_0000
        },
{
    if spec_digits(s, i) is Some {
        lemma_digits_rec_range(s, i, 0);
        lemma_digits_rec_wrap(s, i, 0, 0);
    }
}

/// The fraction accumulation appends exactly the digit characters of the
/// run, in order, to the digits accumulated so far.
proof fn lemma_frac_rec_digits(s: Seq<char>, i: int, acc: Seq<u8>)
    requires
        0 <= i <= s.len(),
    ensures
        ({
            let p = spec_frac_rec(s, i, acc);
            &&& i <= p.1 <= s.len()
            &&& p.0.len() == acc.len() + (p.1 - i)
            &&& forall|q: int| 0 <= q < acc.len() ==> p.0[q] == acc[q]
            &&& forall|q: int|
                i <= q < p.1 ==> is_digit(s[q]) && p.0[acc.len() + (q - i)] == digit_val(s[q]) as u8
            &&& (p.1 < s.len() ==> !is_digit(s[p.1]))
        }),
    decreases s.len() - i,
{
    if 0 <= i < s.len() && is_digit(s[i]) {
        let dv = digit_val(s[i]) as u8;
        lemma_frac_rec_digits(s, i + 1, acc.push(dv));
        let p = spec_frac_rec(s, i, acc);
        assert(p == spec_frac_rec(s, i + 1, acc.push(dv)));
        assert forall|q: int| 0 <= q < acc.len() implies p.0[q] == acc[q] by {
            assert(p.0[q] == acc.push(dv)[q]);
        }
        assert forall|q: int| i <= q < p.1 implies is_digit(s[q]) && p.0[acc.len() + (q - i)]
            == digit_val(s[q]) as u8 by {
            if q == i {
                assert(p.0[acc.len() as int] == acc.push(dv)[acc.len() as int]);
            } else {
                assert(p.0[(acc.push(dv).len() as int) + (q - (i + 1))] == digit_val(s[q]) as u8);
            }
        }
    }
}

/// The fraction production yields exactly the digits written after the
/// decimal point, in order; without a decimal point it yields no digits and
/// consumes nothing.
pub proof fn lemma_fraction_digits(s: Seq<char>, i: int)
    requires
        0 <= i <= s.len(),
    ensures
        spec_fraction(s, i) matches Some(p) ==> {
            if 0 <= i < s.len() && s[i] == '.' {
                &&& i + 1 < p.1 <= s.len()
                &&& p.0.len() == p.1 - (i + 1)
                &&& forall|q: int|
                    i + 1 <= q < p.1 ==> is_digit(s[q]) && p.0[q - (i + 1)] == digit_val(s[q]) as u8
                &&& (p.1 < s.len() ==> !is_digit(s[p.1]))
            } else {
                &&& p.0 == Seq::<u8>::empty()
                &&& p.1 == i
            }
        },
{
    if 0 <= i < s.len() && s[i] == '.' && spec_fraction(s, i) is Some {
        lemma_frac_rec_digits(s, i + 1, Seq::empty());
    }
}

/// A whole input of decimal-number shape: an optional `-` sign and integer
/// digits up to `b`, an optional `.` and fraction digits up to `c`, and an
/// optional `e`/`E`, sign and exponent digits up to the end.
pub open spec fn decimal_string(s: Seq<char>, b: int, c: int) -> bool {
    &&& 0 < s.len()
    &&& b <= c <= s.len()
    &&& ({
        let di: int = if s[0] == '-' {
            1
        } else {
            0
        };
        di < b && forall|q: int| di <= q < b ==> is_digit(s[q])
    })
    &&& (b == c || (b + 1 < c && s[b] == '.' && forall|q: int| b + 1 <= q < c ==> is_digit(s[q])))
    &&& (c == s.len() || ({
        let e: int = if c + 1 < s.len() && (s[c + 1] == '+' || s[c + 1] == '-') {
            c + 2
        } else {
            c + 1
        };
        (s[c] == 'e' || s[c] == 'E') && e < s.len() && forall|q: int|
            e <= q < s.len() ==> is_digit(s[q])
    }))
}

/// Every input of decimal-number shape parses, to the number whose integer
/// part is the wrapped signed reading of the integer digits, whose fraction
/// digits are exactly those written, and whose exponent is the wrapped
/// signed reading of the exponent digits.
pub proof fn lemma_decimal_string_parses(s: Seq<char>, b: int, c: int)
    requires
        decimal_string(s, b, c),
    ensures
        ({
            let neg = s[0] == '-';
            let di: int = if neg {
                1
            } else {
                0
            };
            let e0: int = if c + 1 < s.len() && (s[c + 1] == '+' || s[c + 1] == '-') {
                c + 2
            } else {
                c + 1
            };
            spec_parse(s) == Some(
                JsonModel::Number(
                    NumberModel {
                        int_part: apply_sign(
                            neg,
                            wrap_to_i32((digits_val_rec(s, di, 0) % 0x1_0000_0000) as u32),
                        ),
                        frac_digits: Seq::new(
                            (if b == c {
                                0int
                            } else {
                                c - b - 1
                            }) as nat,
                            |q: int| digit_val(s[b + 1 + q]) as u8,
                        ),
                        exp: if c == s.len() {
                            0i32
                        } else {
                            apply_sign(
                                s[c + 1] == '-' && e0 == c + 2,
                                wrap_to_i32((digits_val_rec(s, e0, 0) % 0x1_0000_0000) as u32),
                            )
                        },
                    },
                ),
            )
        }),
{
    let neg = s[0] == '-';
    let di: int = if neg {
        1
    } else {
        0
    };
    let len = s.len() as int;
    // the integer digit run ends exactly at b
    lemma_digits_standard(s, di);
    assert(spec_digits(s, di) is Some);
    let pi = spec_digits_rec(s, di, 0);
    assert(pi.1 == b) by {
        if pi.1 < b {
            assert(is_digit(s[pi.1]));
        }
        if b < pi.1 {
            assert(is_digit(s[b]));
            if b < c {
                assert(s[b] == '.');
            }
        }
    }
    assert(spec_integer(s, 0) == Some((apply_sign(neg, wrap_to_i32(pi.0)), b)));
    // the fraction run ends exactly at c
    let fr = Seq::new(
        (if b == c {
            0int
        } else {
            c - b - 1
        }) as nat,
        |q: int| digit_val(s[b + 1 + q]) as u8,
    );
    assert(spec_fraction(s, b) == Some((fr, c))) by {
        if b == c {
            if b < len {
                assert(s[b] == 'e' || s[b] == 'E');
            }
            assert(fr =~= Seq::<u8>::empty());
        } else {
            lemma_frac_rec_digits(s, b + 1, Seq::empty());
            let pf = spec_frac_rec(s, b + 1, Seq::empty());
            assert(pf.1 == c) by {
                if pf.1 < c {
                    assert(is_digit(s[pf.1]));
                }
                if c < pf.1 {
                    assert(is_digit(s[c]));
                    if c < len {
                        assert(s[c] == 'e' || s[c] == 'E');
                    }
                }
            }
            assert(fr =~= pf.0);
        }
    }
    // the exponent run ends exactly at the end of the input
    let e0: int = if c + 1 < len && (s[c + 1] == '+' || s[c + 1] == '-') {
        c + 2
    } else {
        c + 1
    };
    let exp_val: i32 = if c == len {
        0i32
    } else {
        apply_sign(
            s[c + 1] == '-' && e0 == c + 2,
            wrap_to_i32((digits_val_rec(s, e0, 0) % 0x1_0000_0000) as u32),
        )
    };
    assert(spec_exponent(s, c) == Some((exp_val, len))) by {
        if c < len {
            assert(spec_sign(s, c + 1) == (s[c + 1] == '-' && e0 == c + 2, e0));
            lemma_digits_standard(s, e0);
            assert(spec_digits(s, e0) is Some);
            let pe = spec_digits_rec(s, e0, 0);
            assert(pe.1 == len) by {
                if pe.1 < len {
                    assert(is_digit(s[pe.1]));
                }
            }
        }
    }
    assert(spec_number(s, 0) == Some(
        (
            JsonModel::Number(
                NumberModel {
                    int_part: apply_sign(neg, wrap_to_i32(pi.0)),
                    frac_digits: fr,
                    exp: exp_val,
                },
            ),
            len,
        ),
    ));
    // the whole input is one element: no whitespace surrounds the number
    assert(skip_ws_idx(s, 0) == 0) by {
        assert(!is_ws(s[0]));
        assert(ws_run(s, 0) == 0);
    }
    assert(skip_ws_idx(s, len) == len) by {
        assert(ws_run(s, len) == 0);
    }
    assert(spec_value(s, 0) == spec_number(s, 0));
    lemma_digits_standard(s, di);
    lemma_digits_rec_wrap(s, di, 0, 0);
}

/// Parsing is deterministic: the result is a function of the input text
/// alone, so parsing the same input twice yields equal trees.
pub proof fn lemma_parse_deterministic(s1: Seq<char>, s2: Seq<char>)
    requires
        s1 == s2,
    ensures
        spec_parse(s1) == spec_parse(s2),
{
}

/// Empty input fails the parse.
pub proof fn lemma_empty_input_fails(s: Seq<char>)
    requires
        s.len() == 0,
    ensures
        spec_parse(s) is None,
{
    assert(ws_run(s, 0) == 0);
}

/// Last write wins: after inserting `k`, looking up `k` yields the new
/// value, and looking up any other key is unchanged.
pub proof fn lemma_obj_insert_lookup(
    entries: Seq<(Seq<char>, JsonModel)>,
    k: Seq<char>,
    v: JsonModel,
    k2: Seq<char>,
)
    ensures
        obj_lookup(obj_insert(entries, k, v), k2) == if k2 == k {
            Some(v)
        } else {
            obj_lookup(entries, k2)
        },
{
    lemma_obj_key_idx(entries, k);
    lemma_obj_key_idx(entries, k2);
    let r = obj_insert(entries, k, v);
    lemma_obj_key_idx(r, k2);
    let m = obj_key_idx(entries, k);
    let m2 = obj_key_idx(entries, k2);
    let mr = obj_key_idx(r, k2);
    if m < entries.len() {
        assert(r == entries.update(m, (k, v)));
        if k2 == k {
            assert(r[m].0 == k2);
            if mr < m {
                assert(r[mr].0 == entries[mr].0);
                assert(false);
            }
            assert(mr == m);
        } else {
            if m2 < entries.len() {
                assert(r[m2].0 == k2);
                if mr < m2 {
                    assert(r[mr].0 == if mr == m {
                        k
                    } else {
                        entries[mr].0
                    });
                    assert(false);
                }
                if m2 < mr {
                    assert(false);
                }
                assert(mr == m2);
                assert(r[mr].1 == entries[m2].1);
            } else {
                if mr < r.len() {
                    assert(r[mr].0 == if mr == m {
                        k
                    } else {
                        entries[mr].0
                    });
                    assert(false);
                }
            }
        }
    } else {
        assert(r == entries.push((k, v)));
        if k2 == k {
            assert(r[entries.len() as int].0 == k2);
            if mr < entries.len() {
                assert(r[mr].0 == entries[mr].0);
                assert(false);
            }
            assert(mr == entries.len());
        } else {
            if m2 < entries.len() {
                assert(r[m2].0 == k2);
                if mr < m2 {
                    assert(r[mr].0 == entries[mr].0);
                    assert(false);
                }
                if m2 < mr {
                    assert(false);
                }
                assert(mr == m2);
            } else {
                if mr < r.len() {
                    assert(r[mr].0 == if mr < entries.len() {
                        entries[mr].0
                    } else {
                        k
                    });
                    assert(false);
                }
            }
        }
    }
}

/// Insertion keeps the object's keys pairwise distinct.
pub proof fn lemma_obj_insert_unique(entries: Seq<(Seq<char>, JsonModel)>, k: Seq<char>, v: JsonModel)
    requires
        obj_keys_unique(entries),
    ensures
        obj_keys_unique(obj_insert(entries, k, v)),
{
    lemma_obj_key_idx(entries, k);
    let r = obj_insert(entries, k, v);
    let m = obj_key_idx(entries, k);
    if m < entries.len() {
        assert(entries[m].0 == k);
        assert forall|a: int, b: int| 0 <= a < b < r.len() implies r[a].0 != r[b].0 by {
            assert(r[a].0 == entries[a].0);
            assert(r[b].0 == entries[b].0);
        }
    } else {
        assert forall|a: int, b: int| 0 <= a < b < r.len() implies r[a].0 != r[b].0 by {
            if b < entries.len() {
                assert(r[a].0 == entries[a].0);
                assert(r[b].0 == entries[b].0);
            } else {
                assert(r[a].0 == entries[a].0);
                assert(r[b].0 == k);
            }
        }
    }
}

/// Insertion keeps every value in the object well-formed when the inserted
/// value is.
proof fn lemma_obj_insert_wf(entries: Seq<(Seq<char>, JsonModel)>, k: Seq<char>, v: JsonModel)
    requires
        obj_keys_unique(entries),
        forall|q: int| 0 <= q < entries.len() ==> wf_model(#[trigger] entries[q].1),
        wf_model(v),
    ensures
        obj_keys_unique(obj_insert(entries, k, v)),
        forall|q: int|
            0 <= q < obj_insert(entries, k, v).len() ==> wf_model(
                #[trigger] obj_insert(entries, k, v)[q].1,
            ),
{
    lemma_obj_insert_unique(entries, k, v);
    lemma_obj_key_idx(entries, k);
    let r = obj_insert(entries, k, v);
    assert forall|q: int| 0 <= q < r.len() implies wf_model(#[trigger] r[q].1) by {
        if q < entries.len() && r[q] == entries[q] {
            assert(wf_model(entries[q].1));
        }
    }
}

/// The member loop only accumulates well-formed entries.
proof fn lemma_object_items_wf(s: Seq<char>, i: int, acc: Seq<(Seq<char>, JsonModel)>)
    requires
        obj_keys_unique(acc),
        forall|q: int| 0 <= q < acc.len() ==> wf_model(#[trigger] acc[q].1),
    ensures
        spec_object_items(s, i, acc) matches Some(p) ==> obj_keys_unique(p.0) && forall|q: int|
            0 <= q < p.0.len() ==> wf_model(#[trigger] p.0[q].1),
    decreases s.len() - i, 4int,
{
    if !(0 <= i < s.len()) {
    } else if s[i] == '}' {
    } else {
        let j: int = if s[i] == ',' {
            i + 1
        } else {
            i
        };
        lemma_member_wf(s, j);
        match spec_member(s, j) {
            Some((k, v, m)) => {
                let m2 = skip_ws_idx(s, m);
                if i < m2 <= s.len() {
                    lemma_obj_insert_wf(acc, k, v);
                    lemma_object_items_wf(s, m2, obj_insert(acc, k, v));
                }
            },
            None => {},
        }
    }
}

/// A member's value is well-formed.
proof fn lemma_member_wf(s: Seq<char>, i: int)
    ensures
        spec_member(s, i) matches Some(p) ==> wf_model(p.1),
    decreases s.len() - i, 0int,
{
    let j = skip_ws_idx(s, i);
    match spec_string(s, j) {
        Some((k, e1)) => {
            let e2 = skip_ws_idx(s, e1);
            if 0 <= e2 < s.len() && s[e2] == ':' {
                let j2 = skip_ws_idx(s, e2 + 1);
                if i < j2 <= s.len() {
                    lemma_element_wf(s, j2);
                }
            }
        },
        None => {},
    }
}

/// The element loop only accumulates well-formed elements.
proof fn lemma_array_items_wf(s: Seq<char>, i: int, acc: Seq<JsonModel>)
    requires
        forall|q: int| 0 <= q < acc.len() ==> wf_model(#[trigger] acc[q]),
    ensures
        spec_array_items(s, i, acc) matches Some(p) ==> forall|q: int|
            0 <= q < p.0.len() ==> wf_model(#[trigger] p.0[q]),
    decreases s.len() - i, 4int,
{
    if !(0 <= i < s.len()) {
    } else if s[i] == ']' {
    } else {
        let j: int = if s[i] == ',' {
            i + 1
        } else {
            i
        };
        lemma_element_wf(s, j);
        match spec_element(s, j) {
            Some((v, m)) => {
                let m2 = skip_ws_idx(s, m);
                if i < m2 <= s.len() {
                    assert forall|q: int| 0 <= q < acc.push(v).len() implies wf_model(
                        #[trigger] acc.push(v)[q],
                    ) by {
                        if q < acc.len() {
                            assert(wf_model(acc[q]));
                        }
                    }
                    lemma_array_items_wf(s, m2, acc.push(v));
                }
            },
            None => {},
        }
    }
}

/// An object production yields a well-formed tree.
proof fn lemma_object_wf(s: Seq<char>, i: int)
    ensures
        spec_object(s, i) matches Some(p) ==> wf_model(p.0),
    decreases s.len() - i, 1int,
{
    if 0 <= i < s.len() && s[i] == '{' {
        let j = skip_ws_idx(s, i + 1);
        if j <= s.len() {
            lemma_object_items_wf(s, j, Seq::empty());
        }
    }
}

/// An array production yields a well-formed tree.
proof fn lemma_array_wf(s: Seq<char>, i: int)
    ensures
        spec_array(s, i) matches Some(p) ==> wf_model(p.0),
    decreases s.len() - i, 1int,
{
    if 0 <= i < s.len() && s[i] == '[' {
        let j = skip_ws_idx(s, i + 1);
        if j <= s.len() {
            lemma_array_items_wf(s, j, Seq::empty());
        }
    }
}

/// A value production yields a well-formed tree.
proof fn lemma_value_wf(s: Seq<char>, i: int)
    ensures
        spec_value(s, i) matches Some(p) ==> wf_model(p.0),
    decreases s.len() - i, 2int,
{
    if 0 <= i < s.len() {
        let c = s[i];
        if c == '{' {
            lemma_object_wf(s, i);
        } else if c == '[' {
            lemma_array_wf(s, i);
        }
    }
}

/// An element production yields a well-formed tree.
proof fn lemma_element_wf(s: Seq<char>, i: int)
    ensures
        spec_element(s, i) matches Some(p) ==> wf_model(p.0),
    decreases s.len() - i, 3int,
{
    let j = skip_ws_idx(s, i);
    if j <= s.len() {
        lemma_value_wf(s, j);
    }
}

/// Every tree a successful parse yields is well-formed: each object in it,
/// at any depth, has pairwise-distinct keys.
pub proof fn lemma_parse_wf(s: Seq<char>)
    ensures
        spec_parse(s) matches Some(m) ==> wf_model(m),
{
    lemma_element_wf(s, 0);
}

} // verus!

