use json_parser::model::{Number, Value};
use json_parser::parser::{parse, parse_digits, parse_sign, parse_true, skip_whitespace};

fn chars(s: &str) -> Vec<char> {
    s.chars().collect()
}

fn num(int_part: i32, frac: &[u8], exp: i32) -> Value {
    Value::Number(Number { int_part, frac_digits: frac.to_vec(), exp })
}

fn number_to_f64(n: &Number) -> f64 {
    let mut text = String::from("0.");
    for d in &n.frac_digits {
        text.push((b'0' + *d) as char);
    }
    let frac: f64 = if n.frac_digits.is_empty() { 0.0 } else { text.parse().unwrap() };
    ((n.int_part as f64) + frac) * 10f64.powi(n.exp)
}

fn parsed_f64(s: &str) -> f64 {
    match parse(&chars(s)) {
        Some(Value::Number(n)) => number_to_f64(&n),
        other => panic!("expected a number, got {:?}", other),
    }
}

#[test]
fn literal_true_parses() {
    assert_eq!(parse(&chars("true")), Some(Value::True));
}

#[test]
fn literal_false_parses() {
    assert_eq!(parse(&chars("false")), Some(Value::False));
}

#[test]
fn literal_null_parses() {
    assert_eq!(parse(&chars("null")), Some(Value::Null));
}

#[test]
fn literal_consumes_exactly_its_characters() {
    let input = chars("true");
    let mut i: usize = 0;
    assert_eq!(parse_true(&input, &mut i), Some(Value::True));
    assert_eq!(i, 4);
}

#[test]
fn truncated_literal_fails() {
    assert_eq!(parse(&chars("tru")), None);
    assert_eq!(parse(&chars("fals")), None);
    assert_eq!(parse(&chars("nul")), None);
}

#[test]
fn empty_input_fails() {
    assert_eq!(parse(&chars("")), None);
    assert_eq!(parse(&chars("   ")), None);
}

#[test]
fn simple_integers() {
    assert_eq!(parse(&chars("0")), Some(num(0, &[], 0)));
    assert_eq!(parse(&chars("42")), Some(num(42, &[], 0)));
    assert_eq!(parse(&chars("-12")), Some(num(-12, &[], 0)));
}

#[test]
fn fraction_digits_kept_as_written() {
    assert_eq!(parse(&chars("3.25")), Some(num(3, &[2, 5], 0)));
    assert_eq!(parse(&chars("0.500")), Some(num(0, &[5, 0, 0], 0)));
}

#[test]
fn exponents_signed_and_unsigned() {
    assert_eq!(parse(&chars("1e9")), Some(num(1, &[], 9)));
    assert_eq!(parse(&chars("1E+9")), Some(num(1, &[], 9)));
    assert_eq!(parse(&chars("2e-3")), Some(num(2, &[], -3)));
}

#[test]
fn numbers_equal_standard_interpretation() {
    assert_eq!(parsed_f64("0"), 0.0);
    assert_eq!(parsed_f64("42"), 42.0);
    assert_eq!(parsed_f64("-12"), -12.0);
    assert_eq!(parsed_f64("3.25"), 3.25);
    assert_eq!(parsed_f64("2e-3"), 2e-3);
    assert_eq!(parsed_f64("1E+9"), 1e9);
}

#[test]
fn fraction_is_value_additive() {
    // the fraction adds to the signed integer part rather than extending its
    // magnitude, so a negative number with a fraction gains half rather than
    // losing it
    assert_eq!(parsed_f64("-2.5"), -1.5);
    assert_eq!(parsed_f64("-0.5e2"), 50.0);
}

#[test]
fn integer_part_wraps_at_32_bits() {
    assert_eq!(parse(&chars("4294967296")), Some(num(0, &[], 0)));
    assert_eq!(parse(&chars("2147483648")), Some(num(i32::MIN, &[], 0)));
}

#[test]
fn malformed_numbers_fail() {
    assert_eq!(parse(&chars("-")), None);
    assert_eq!(parse(&chars("1.")), None);
    assert_eq!(parse(&chars("1e")), None);
    assert_eq!(parse(&chars("1e+")), None);
    assert_eq!(parse(&chars(".5")), None);
}

#[test]
fn digits_run_is_maximal() {
    let input = chars("0123x");
    let mut i: usize = 0;
    assert_eq!(parse_digits(&input, &mut i), Some(123));
    assert_eq!(i, 4);
}

#[test]
fn sign_is_consumed() {
    let input = chars("+7");
    let mut i: usize = 0;
    assert_eq!(parse_sign(&input, &mut i), Some(1));
    assert_eq!(i, 1);
    let input = chars("-7");
    let mut i: usize = 0;
    assert_eq!(parse_sign(&input, &mut i), Some(-1));
    assert_eq!(i, 1);
    let input = chars("7");
    let mut i: usize = 0;
    assert_eq!(parse_sign(&input, &mut i), Some(1));
    assert_eq!(i, 0);
}

#[test]
fn simple_object() {
    let expected = Value::Object(vec![
        (chars("a"), num(1, &[], 0)),
        (chars("b"), num(2, &[], 0)),
    ]);
    assert_eq!(parse(&chars("{\"a\":1,\"b\":2}")), Some(expected));
}

#[test]
fn empty_object() {
    assert_eq!(parse(&chars("{}")), Some(Value::Object(vec![])));
}

#[test]
fn duplicate_keys_last_write_wins() {
    let expected = Value::Object(vec![(chars("a"), num(2, &[], 0))]);
    assert_eq!(parse(&chars("{\"a\":1,\"a\":2}")), Some(expected));
}

#[test]
fn object_member_without_value_fails() {
    assert_eq!(parse(&chars("{\"a\":}")), None);
}

#[test]
fn object_without_colon_fails() {
    assert_eq!(parse(&chars("{\"a\" 1}")), None);
}

#[test]
fn unterminated_object_fails() {
    assert_eq!(parse(&chars("{\"a\":1")), None);
}

#[test]
fn simple_array() {
    let expected = Value::Array(vec![num(1, &[], 0), num(2, &[], 0), num(3, &[], 0)]);
    assert_eq!(parse(&chars("[1,2,3]")), Some(expected));
}

#[test]
fn empty_array() {
    assert_eq!(parse(&chars("[]")), Some(Value::Array(vec![])));
}

#[test]
fn unterminated_array_fails() {
    assert_eq!(parse(&chars("[1,2")), None);
}

#[test]
fn leading_comma_is_tolerated() {
    let expected = Value::Array(vec![num(1, &[], 0)]);
    assert_eq!(parse(&chars("[,1]")), Some(expected));
}

#[test]
fn missing_comma_is_tolerated() {
    let expected = Value::Array(vec![num(1, &[], 0), num(2, &[], 0)]);
    assert_eq!(parse(&chars("[1 2]")), Some(expected));
}

#[test]
fn doubled_comma_fails() {
    assert_eq!(parse(&chars("[1,,2]")), None);
}

#[test]
fn trailing_comma_fails() {
    assert_eq!(parse(&chars("[1,]")), None);
    assert_eq!(parse(&chars("{\"a\":1,}")), None);
}

#[test]
fn string_escapes_decode() {
    let expected = Value::Str(vec!['\n', '\t', '"']);
    assert_eq!(parse(&chars("\"\\n\\t\\\"\"")), Some(expected));
}

#[test]
fn string_escapes_b_f_r_slash() {
    let expected = Value::Str(vec!['\u{8}', '\u{12}', '\r', '/', '\\']);
    assert_eq!(parse(&chars("\"\\b\\f\\r\\/\\\\\"")), Some(expected));
}

#[test]
fn unicode_escape_fails() {
    assert_eq!(parse(&chars("\"\\u0041\"")), None);
}

#[test]
fn unknown_escape_fails() {
    assert_eq!(parse(&chars("\"\\x\"")), None);
}

#[test]
fn unterminated_string_fails() {
    assert_eq!(parse(&chars("\"abc")), None);
}

#[test]
fn surrounding_whitespace_is_skipped() {
    assert_eq!(parse(&chars("  true  ")), Some(Value::True));
    assert_eq!(parse(&chars(" [ 1 , 2 ] ")), Some(Value::Array(vec![
        num(1, &[], 0),
        num(2, &[], 0),
    ])));
}

#[test]
fn unicode_whitespace_is_skipped() {
    assert_eq!(parse(&chars("\u{2003}true\u{a0}")), Some(Value::True));
}

#[test]
fn skip_whitespace_advances_cursor() {
    let input = chars("  \t\nx");
    let mut i: usize = 0;
    skip_whitespace(&input, &mut i);
    assert_eq!(i, 4);
}

#[test]
fn trailing_content_is_not_rejected() {
    assert_eq!(parse(&chars("true xyz")), Some(Value::True));
}

#[test]
fn nested_structure() {
    let inner_object = Value::Object(vec![(chars("b"), Value::True)]);
    let array = Value::Array(vec![num(1, &[], 0), inner_object]);
    let expected = Value::Object(vec![(chars("a"), array)]);
    assert_eq!(parse(&chars("{\"a\":[1,{\"b\":true}]}")), Some(expected));
}

#[test]
fn reparsing_yields_equal_trees() {
    let input = chars("{\"a\":[1,{\"b\":true}],\"c\":\"x\\ny\",\"d\":-2.5e-1}");
    let first = parse(&input);
    let second = parse(&input);
    assert!(first.is_some());
    assert_eq!(first, second);
}

#[test]
fn bare_garbage_fails() {
    assert_eq!(parse(&chars("xyz")), None);
    assert_eq!(parse(&chars(",")), None);
}
