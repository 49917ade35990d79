use fnv::FnvHashMap as HashMap;
use mp4_json::json_parse::{
    array, checked_digits_to_i64, integer, json_char, json_string, json_value, lex, literal,
    number, object,
};
use mp4_json::json_value::{Label, NumberLit, ParseError, Value};

fn chars(s: &str) -> Vec<char> {
    s.chars().collect()
}

/// A failure inside a rule, or of a rule without a name.
fn err(position: usize) -> ParseError {
    ParseError { position, expected: None }
}

/// A failure of the rule named `label` where it began.
fn expecting(position: usize, label: Label) -> ParseError {
    ParseError { position, expected: Some(label) }
}

/// A value with numbers as floating point and objects as hash maps.
#[derive(PartialEq, Debug)]
enum FValue {
    Number(f64),
    String(String),
    Bool(bool),
    Null,
    Object(HashMap<String, FValue>),
    Array(Vec<FValue>),
}

fn int_of(d: &Vec<u8>) -> i64 {
    checked_digits_to_i64(d).expect("integer overflow")
}

fn to_f64(n: &NumberLit) -> f64 {
    let int = if n.int_digits == vec![0u8] { 0.0 } else { int_of(&n.int_digits) as f64 };
    let x = if n.negative { -int } else { int };
    let mut magnitude = 1.0;
    let y = n.frac_digits.iter().fold(0.0, |acc, d| {
        magnitude /= 10.0;
        acc + (*d as f64) * magnitude
    });
    let m = if x >= 0.0 { x + y } else { x - y };
    match &n.exponent {
        Some(e) => {
            let v = int_of(&e.digits);
            let v = if e.negative { -v } else { v };
            m * 10.0f64.powi(v as i32)
        }
        None => m,
    }
}

fn to_fvalue(v: &Value) -> FValue {
    match v {
        Value::Number(n) => FValue::Number(to_f64(n)),
        Value::String(s) => FValue::String(s.iter().collect()),
        Value::Bool(b) => FValue::Bool(*b),
        Value::Null => FValue::Null,
        Value::Object(m) => FValue::Object(
            m.iter().map(|(k, v)| (k.iter().collect::<String>(), to_fvalue(v))).collect(),
        ),
        Value::Array(a) => FValue::Array(a.iter().map(to_fvalue).collect()),
    }
}

/// Parses `input` from its start: the value and the unparsed rest.
fn parse(input: &str) -> Result<(FValue, String), ParseError> {
    let cs = chars(input);
    json_value(&cs, 0).map(|(v, q)| (to_fvalue(&v), cs[q..].iter().collect()))
}

#[test]
fn json_test() {
    let input = r#"{
    "array": [1, ""],
    "object": {},
    "number": 3.14,
    "small_number": 0.59,
    "int": -100,
    "exp": -1e2,
    "exp_neg": 23e-2,
    "true": true,
    "false"  : false,
    "null" : null
}"#;
    let result = parse(input);
    let expected = FValue::Object(
        vec![
            ("array", FValue::Array(vec![FValue::Number(1.0), FValue::String("".to_string())])),
            ("object", FValue::Object(HashMap::default())),
            ("number", FValue::Number(3.14)),
            ("small_number", FValue::Number(0.59)),
            ("int", FValue::Number(-100.)),
            ("exp", FValue::Number(-1e2)),
            ("exp_neg", FValue::Number(23E-2)),
            ("true", FValue::Bool(true)),
            ("false", FValue::Bool(false)),
            ("null", FValue::Null),
        ]
        .into_iter()
        .map(|(k, v)| (k.to_string(), v))
        .collect(),
    );
    match result {
        Ok(result) => assert_eq!(result, (expected, "".to_string())),
        Err(e) => {
            println!("{:?}", e);
            assert!(false);
        }
    }
}

#[test]
fn test() {
    let data = "  { \"a\"\t: 42,
  \"b\": [ \"x\", \"y\", 12 ] ,
  \"c\": { \"hello\" : \"world\"
  }
  }  ";
    assert_eq!(parse(data), Err(expecting(0, Label::Number)));
}

#[test]
fn basic_document_after_whitespace() {
    let cs = chars("  { \"a\"\t: 42,\n  \"b\": [ \"x\", \"y\", 12 ] ,\n  \"c\": { \"hello\" : \"world\"\n  }\n  }  ");
    let start = lex(&cs, 0);
    assert_eq!(start, 2);
    let (v, q) = json_value(&cs, start).unwrap();
    assert_eq!(q, cs.len());
    let mut c = HashMap::default();
    c.insert("hello".to_string(), FValue::String("world".to_string()));
    let mut m = HashMap::default();
    m.insert("a".to_string(), FValue::Number(42.0));
    m.insert(
        "b".to_string(),
        FValue::Array(vec![
            FValue::String("x".to_string()),
            FValue::String("y".to_string()),
            FValue::Number(12.0),
        ]),
    );
    m.insert("c".to_string(), FValue::Object(c));
    assert_eq!(to_fvalue(&v), FValue::Object(m));
}

#[test]
fn lex_skips_unicode_whitespace() {
    let cs = chars(" \t\n\r\u{a0}\u{3000}x ");
    assert_eq!(lex(&cs, 0), 6);
    assert_eq!(lex(&cs, 6), 6);
    assert_eq!(lex(&cs, 7), 8);
    assert_eq!(lex(&cs, 8), 8);
}

#[test]
fn integer_reads_digits_and_whitespace() {
    let cs = chars("1234  x");
    assert_eq!(integer(&cs, 0), Ok((1234, 6)));
    assert_eq!(integer(&cs, 2), Ok((34, 6)));
    assert_eq!(integer(&cs, 6), Err(expecting(6, Label::Integer)));
    let big = chars("9223372036854775807");
    assert_eq!(integer(&big, 0), Ok((i64::MAX, 19)));
}

#[test]
fn checked_digits_detects_overflow() {
    assert_eq!(checked_digits_to_i64(&vec![9, 2, 2, 3, 3, 7, 2, 0, 3, 6, 8, 5, 4, 7, 7, 5, 8, 0, 7]), Some(i64::MAX));
    assert_eq!(checked_digits_to_i64(&vec![9, 2, 2, 3, 3, 7, 2, 0, 3, 6, 8, 5, 4, 7, 7, 5, 8, 0, 8]), None);
    assert_eq!(checked_digits_to_i64(&vec![]), Some(0));
    assert_eq!(checked_digits_to_i64(&vec![0, 0, 4, 2]), Some(42));
}

#[test]
fn json_char_escapes() {
    let cs = chars(r#"a\n\t\"\\\/\b\f\r"#);
    assert_eq!(json_char(&cs, 0), Ok(('a', 1)));
    assert_eq!(json_char(&cs, 1), Ok(('\n', 3)));
    assert_eq!(json_char(&cs, 3), Ok(('\t', 5)));
    assert_eq!(json_char(&cs, 5), Ok(('"', 7)));
    assert_eq!(json_char(&cs, 7), Ok(('\\', 9)));
    assert_eq!(json_char(&cs, 9), Ok(('/', 11)));
    assert_eq!(json_char(&cs, 11), Ok(('\u{8}', 13)));
    assert_eq!(json_char(&cs, 13), Ok(('\u{c}', 15)));
    assert_eq!(json_char(&cs, 15), Ok(('\r', 17)));
    assert_eq!(json_char(&cs, 17), Err(err(17)));
}

#[test]
fn json_char_stops_and_rejects() {
    // at a closing quote the error lies just after the quote
    let quote = chars("\"");
    assert_eq!(json_char(&quote, 0), Err(err(1)));
    assert_eq!(json_char(&chars("a\"b"), 1), Err(err(2)));
    let bad = chars("\\u0041");
    assert_eq!(json_char(&bad, 0), Err(err(1)));
    let cut = chars("\\");
    assert_eq!(json_char(&cut, 0), Err(err(1)));
}

#[test]
fn json_string_reads_content() {
    let cs = chars("\"h\\u\" ");
    assert_eq!(json_string(&cs, 0), Err(err(3)));
    let cs = chars("\"héllo\\n\"  :");
    assert_eq!(json_string(&cs, 0), Ok((chars("héllo\n"), 11)));
    let cs = chars("\"open");
    assert_eq!(json_string(&cs, 0), Err(err(5)));
    let cs = chars("x\"\"");
    assert_eq!(json_string(&cs, 0), Err(expecting(0, Label::String)));
    assert_eq!(json_string(&cs, 1), Ok((vec![], 3)));
}

fn num(negative: bool, int: &[u8], frac: &[u8]) -> NumberLit {
    NumberLit { negative, int_digits: int.to_vec(), frac_digits: frac.to_vec(), exponent: None }
}

#[test]
fn number_grammar() {
    assert_eq!(number(&chars("12"), 0), Ok((num(false, &[1, 2], &[]), 2)));
    assert_eq!(number(&chars("-0.50 ,"), 0), Ok((num(true, &[0], &[5, 0]), 6)));
    // the fraction digits are read even without a point
    assert_eq!(number(&chars("0123"), 0), Ok((num(false, &[0], &[1, 2, 3]), 4)));
    // whitespace after the integer digits is skipped before the point
    assert_eq!(number(&chars("12 .5"), 0), Ok((num(false, &[1, 2], &[5]), 5)));
    assert_eq!(number(&chars("12 34"), 0), Ok((num(false, &[1, 2], &[3, 4]), 5)));
    assert_eq!(number(&chars("0 .5"), 0), Ok((num(false, &[0], &[]), 2)));
    assert_eq!(number(&chars("-"), 0), Err(expecting(1, Label::Integer)));
    assert_eq!(number(&chars("-x"), 0), Err(expecting(1, Label::Integer)));
    assert_eq!(number(&chars("x"), 0), Err(expecting(0, Label::Number)));
    assert_eq!(number(&chars("1e"), 0), Err(expecting(2, Label::Integer)));
    assert_eq!(number(&chars("1e+5"), 0), Err(expecting(2, Label::Integer)));
    assert_eq!(number(&chars("1E-"), 0), Err(expecting(3, Label::Integer)));
}

#[test]
fn number_values() {
    let f = |s: &str| to_f64(&number(&chars(s), 0).unwrap().0);
    assert_eq!(f("3.14"), 3.14);
    assert_eq!(f("-100"), -100.0);
    assert_eq!(f("-1e2"), -100.0);
    assert_eq!(f("23e-2"), 0.23);
    assert_eq!(f("1.5E1"), 15.0);
    // a negative zero integer part compares as non-negative, so the
    // fraction is added
    assert_eq!(f("-0.5"), 0.5);
    assert_eq!(f("-1.5"), -1.5);
}

#[test]
fn literals() {
    assert_eq!(parse("true"), Ok((FValue::Bool(true), "".to_string())));
    assert_eq!(parse("false ]"), Ok((FValue::Bool(false), "]".to_string())));
    assert_eq!(parse("null"), Ok((FValue::Null, "".to_string())));
    assert_eq!(parse("tru"), Err(err(0)));
    assert_eq!(parse("nul1"), Err(err(0)));
    assert_eq!(parse("fAlse"), Err(err(0)));
    assert_eq!(literal(&chars("nullx"), 0, &['n', 'u', 'l', 'l']), Ok(4));
    assert_eq!(literal(&chars("x"), 0, &['n', 'u', 'l', 'l']), Err(err(0)));
}

#[test]
fn values_fail_where_they_cannot_start() {
    assert_eq!(parse(""), Err(expecting(0, Label::Number)));
    assert_eq!(parse("x"), Err(expecting(0, Label::Number)));
    assert_eq!(parse("}"), Err(expecting(0, Label::Number)));
}

#[test]
fn arrays() {
    assert_eq!(parse("[]"), Ok((FValue::Array(vec![]), "".to_string())));
    assert_eq!(parse("[ ] x"), Ok((FValue::Array(vec![]), "x".to_string())));
    assert_eq!(
        parse("[1,[true],\"a\"]"),
        Ok((
            FValue::Array(vec![
                FValue::Number(1.0),
                FValue::Array(vec![FValue::Bool(true)]),
                FValue::String("a".to_string()),
            ]),
            "".to_string()
        ))
    );
    assert_eq!(parse("[1,]"), Err(expecting(3, Label::Number)));
    // whitespace after integer digits lets the next digits become a fraction
    assert_eq!(parse("[1 2]"), Ok((FValue::Array(vec![FValue::Number(1.2)]), "".to_string())));
    assert_eq!(parse("[x]"), Err(err(1)));
    assert_eq!(parse("[tru]"), Err(err(1)));
    assert_eq!(parse("[1"), Err(err(2)));
    assert_eq!(array(&chars("{}"), 0), Err(err(0)));
}

#[test]
fn objects() {
    assert_eq!(parse("{}"), Ok((FValue::Object(HashMap::default()), "".to_string())));
    assert_eq!(parse("{\"a\" 1}"), Err(err(5)));
    assert_eq!(parse("{\"a\":1,}"), Err(expecting(7, Label::String)));
    assert_eq!(parse("{a:1}"), Err(err(1)));
    assert_eq!(object(&chars("[]"), 0), Err(expecting(0, Label::Object)));
}

#[test]
fn object_keeps_first_place_and_last_value() {
    let cs = chars("{\"k\": 1, \"j\": 2, \"k\": 3}");
    let (v, q) = object(&cs, 0).unwrap();
    assert_eq!(q, cs.len());
    match v {
        Value::Object(m) => {
            assert_eq!(m.len(), 2);
            assert_eq!(m[0].0, chars("k"));
            assert_eq!(m[0].1, Value::Number(num(false, &[3], &[])));
            assert_eq!(m[1].0, chars("j"));
            assert_eq!(m[1].1, Value::Number(num(false, &[2], &[])));
        }
        _ => panic!("not an object"),
    }
}

#[test]
fn plain_string_reads_back_scenario() {
    let cs = chars("\"plain text\"  rest");
    assert_eq!(json_string(&cs, 0), Ok((chars("plain text"), 14)));
}

#[test]
fn value_ends_before_non_whitespace() {
    let cs = chars("[1] \t\n7");
    let (_, q) = json_value(&cs, 0).unwrap();
    assert_eq!(q, 6);
    assert_eq!(cs[q], '7');
}

#[test]
fn named_rules_report_their_name_where_they_begin() {
    for s in ["x", "", ".5", "+1", " 1"] {
        assert_eq!(number(&chars(s), 0), Err(expecting(0, Label::Number)), "{:?}", s);
    }
    for s in ["-5", "+5", " 5", "x", ""] {
        assert_eq!(integer(&chars(s), 0), Err(expecting(0, Label::Integer)), "{:?}", s);
    }
    for s in ["abc", " \"a\"", "x"] {
        assert_eq!(json_string(&chars(s), 0), Err(expecting(0, Label::String)), "{:?}", s);
    }
    assert_eq!(object(&chars(" {}"), 0), Err(expecting(0, Label::Object)));
    // where no value begins, the error names `number`
    for s in ["", "x", "}", " 1", "]"] {
        assert_eq!(parse(s), Err(expecting(0, Label::Number)), "{:?}", s);
    }
    // failures inside a rule name nothing ...
    assert_eq!(json_string(&chars("\"abc"), 0), Err(err(4)));
    assert_eq!(json_string(&chars("\"a\\q\""), 0), Err(err(3)));
    assert_eq!(parse("{x"), Err(err(1)));
    assert_eq!(parse("[x]"), Err(err(1)));
    // ... unless a named rule inside failed where it began
    assert_eq!(number(&chars("-x"), 0), Err(expecting(1, Label::Integer)));
    assert_eq!(object(&chars("{\"a\":1, x}"), 0), Err(expecting(8, Label::String)));
    assert_eq!(parse("{\"a\": }"), Err(expecting(6, Label::Number)));
    assert_eq!(parse("[1, x]"), Err(expecting(4, Label::Number)));
    assert_eq!(parse("[-]"), Err(expecting(2, Label::Integer)));
}

#[test]
fn whitespace_is_the_unicode_white_space_set() {
    for c in ['\t', '\n', '\u{b}', '\u{c}', '\r', ' ', '\u{85}', '\u{a0}', '\u{1680}', '\u{2000}',
        '\u{200a}', '\u{2028}', '\u{2029}', '\u{202f}', '\u{205f}', '\u{3000}'] {
        let s: Vec<char> = vec!['"', 'a', '"', c, 'x'];
        assert_eq!(json_string(&s, 0), Ok((vec!['a'], 4)), "{:?}", c);
    }
    for c in ['\u{200b}', '\u{180e}', '\u{feff}', 'x', '\u{0}'] {
        assert_eq!(lex(&[c], 0), 0, "{:?}", c);
    }
    assert_eq!(json_string(&chars("\"a\" "), 0), Ok((vec!['a'], 4)));
}

#[test]
fn nested_objects_hold_each_key_once() {
    let cs = chars("{\"a\": {\"b\": 1, \"b\": 2}, \"a\": [{\"c\": 1, \"c\": null, \"d\": true}]}");
    let (v, q) = json_value(&cs, 0).unwrap();
    assert_eq!(q, cs.len());
    match v {
        Value::Object(m) => {
            assert_eq!(m.len(), 1);
            assert_eq!(m[0].0, chars("a"));
            match &m[0].1 {
                Value::Array(items) => match &items[0] {
                    Value::Object(inner) => {
                        assert_eq!(inner.len(), 2);
                        assert_eq!(inner[0], (chars("c"), Value::Null));
                        assert_eq!(inner[1], (chars("d"), Value::Bool(true)));
                    }
                    other => panic!("{:?}", other),
                },
                other => panic!("{:?}", other),
            }
        }
        other => panic!("{:?}", other),
    }
}

#[test]
fn whitespace_agrees_with_char_is_whitespace() {
    for code in 0u32..0x11_0000 {
        if let Some(c) = char::from_u32(code) {
            let expected = if c.is_whitespace() { 1 } else { 0 };
            assert_eq!(lex(&[c], 0), expected, "{:?}", c);
        }
    }
}

/// `t` with each backslash and double quote escaped, between double quotes.
fn quote(t: &str) -> String {
    let mut q = String::from("\"");
    for c in t.chars() {
        if c == '\\' || c == '"' {
            q.push('\\');
        }
        q.push(c);
    }
    q.push('"');
    q
}

#[test]
fn escaped_strings_read_back() {
    let samples = [
        "", "a", "\\", "\"", "\\\"", "say \"hi\"", "c:\\dir\\", "\n\t", "é ü 日本",
        "trailing\\", "\"\"\"", "a\\\\b",
    ];
    for t in samples {
        let q = chars(&quote(t));
        assert_eq!(json_string(&q, 0), Ok((chars(t), q.len())), "{:?}", t);
        let mut with_space = q.clone();
        with_space.push(' ');
        with_space.push('x');
        assert_eq!(json_string(&with_space, 0), Ok((chars(t), q.len() + 1)), "{:?}", t);
    }
}
