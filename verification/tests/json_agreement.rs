//! Runs the verified JSON parser and a parser written with parser
//! combinators over many inputs and compares what they return.
use combine::error::{Commit, ParseError, StdParseResult};
use combine::parser::char::{char, digit, spaces, string};
use combine::parser::choice::{choice, optional};
use combine::parser::function::parser;
use combine::parser::repeat::{many, many1, sep_by};
use combine::parser::sequence::between;
use combine::parser::token::{any, satisfy, satisfy_map};
use combine::easy::{Error as EasyError, Info};
use combine::{EasyParser, Parser, Stream, StreamOnce};
use fnv::FnvHashMap as HashMap;
use mp4_json::json_parse::{
    checked_digits_to_i64, json_char as verified_char, literal as verified_literal, integer as verified_integer, json_string as verified_string,
    json_value as verified_value, number as verified_number, object as verified_object,
};
use mp4_json::json_value::{Label, NumberLit, ParseError as VerifiedError, Value};

#[derive(PartialEq, Debug)]
enum FValue {
    Number(f64),
    String(String),
    Bool(bool),
    Null,
    Object(HashMap<String, FValue>),
    Array(Vec<FValue>),
}

fn lex<Input, P>(p: P) -> impl Parser<Input, Output = P::Output>
where
    P: Parser<Input>,
    Input: Stream<Token = char>,
    <Input as StreamOnce>::Error: ParseError<
        <Input as StreamOnce>::Token,
        <Input as StreamOnce>::Range,
        <Input as StreamOnce>::Position,
    >,
{
    p.skip(spaces())
}

fn integer<Input>() -> impl Parser<Input, Output = i64>
where
    Input: Stream<Token = char>,
    Input::Error: ParseError<Input::Token, Input::Range, Input::Position>,
{
    lex(many1(digit())).map(|s: String| {
        let mut n = 0;
        for c in s.chars() {
            n = n * 10 + (c as i64 - '0' as i64);
        }
        n
    })
    .expected("integer")
}

fn number<Input>() -> impl Parser<Input, Output = f64>
where
    Input: Stream<Token = char>,
    Input::Error: ParseError<Input::Token, Input::Range, Input::Position>,
{
    let i = char('0').map(|_| 0.0).or(integer().map(|x| x as f64));
    let fractional = many(digit()).map(|digits: String| {
        let mut magnitude = 1.0;
        digits.chars().fold(0.0, |acc, d| {
            magnitude /= 10.0;
            match d.to_digit(10) {
                Some(d) => acc + (d as f64) * magnitude,
                None => panic!("Not a digit"),
            }
        })
    });
    let exp = satisfy(|c| c == 'e' || c == 'E').with(optional(char('-')).and(integer()));
    lex(optional(char('-'))
        .and(i)
        .map(|(sign, n)| if sign.is_some() { -n } else { n })
        .and(optional(char('.')).with(fractional))
        .map(|(x, y)| if x >= 0.0 { x + y } else { x - y })
        .and(optional(exp))
        .map(|(n, exp_option)| match exp_option {
            Some((sign, e)) => {
                let e = if sign.is_some() { -e } else { e };
                n * 10.0f64.powi(e as i32)
            }
            None => n,
        }))
    .expected("number")
}

fn json_char<Input>() -> impl Parser<Input, Output = char>
where
    Input: Stream<Token = char>,
    Input::Error: ParseError<Input::Token, Input::Range, Input::Position>,
{
    parser(|input: &mut Input| {
        let (c, committed) = any().parse_lazy(input).into_result()?;
        let mut back_slash_char = satisfy_map(|c| {
            Some(match c {
                '"' => '"',
                '\\' => '\\',
                '/' => '/',
                'b' => '\u{0008}',
                'f' => '\u{000c}',
                'n' => '\n',
                'r' => '\r',
                't' => '\t',
                _ => return None,
            })
        });
        match c {
            '\\' => committed.combine(|_| back_slash_char.parse_stream(input).into_result()),
            '"' => Err(Commit::Peek(Input::Error::empty(input.position()).into())),
            _ => Ok((c, committed)),
        }
    })
}

fn json_string<Input>() -> impl Parser<Input, Output = String>
where
    Input: Stream<Token = char>,
    Input::Error: ParseError<Input::Token, Input::Range, Input::Position>,
{
    between(char('"'), lex(char('"')), many(json_char())).expected("string")
}

fn object<Input>() -> impl Parser<Input, Output = FValue>
where
    Input: Stream<Token = char>,
    Input::Error: ParseError<Input::Token, Input::Range, Input::Position>,
{
    let field = (json_string(), lex(char(':')), json_value()).map(|t| (t.0, t.2));
    let fields = sep_by(field, lex(char(',')));
    between(lex(char('{')), lex(char('}')), fields).map(FValue::Object).expected("object")
}

fn json_value<Input>() -> impl Parser<Input, Output = FValue>
where
    Input: Stream<Token = char>,
    Input::Error: ParseError<Input::Token, Input::Range, Input::Position>,
{
    parser(json_value_step::<Input>)
}

fn json_value_step<Input>(input: &mut Input) -> StdParseResult<FValue, Input>
where
    Input: Stream<Token = char>,
    Input::Error: ParseError<Input::Token, Input::Range, Input::Position>,
{
    value_alternatives().parse_stream(input).into_result()
}

/// The choice of value forms, whose errors name each alternative.
fn value_alternatives<Input>() -> impl Parser<Input, Output = FValue>
where
    Input: Stream<Token = char>,
    Input::Error: ParseError<Input::Token, Input::Range, Input::Position>,
{
    let array = between(lex(char('[')), lex(char(']')), sep_by(json_value(), lex(char(','))))
        .map(FValue::Array);
    choice((
        json_string().map(FValue::String),
        object(),
        array,
        number().map(FValue::Number),
        lex(string("false").map(|_| FValue::Bool(false))),
        lex(string("true").map(|_| FValue::Bool(true))),
        lex(string("null").map(|_| FValue::Null)),
    ))
}

fn int_of(d: &Vec<u8>) -> i64 {
    checked_digits_to_i64(d).expect("integer overflow")
}

fn to_f64(n: &NumberLit) -> f64 {
    let int = if n.int_digits == vec![0u8] { 0.0 } else { int_of(&n.int_digits) as f64 };
    let x = if n.negative { -int } else { int };
    let mut magnitude = 1.0;
    let y = n.frac_digits.iter().fold(0.0, |acc, d| {
        magnitude /= 10.0;
        acc + (*d as f64) * magnitude
    });
    let m = if x >= 0.0 { x + y } else { x - y };
    match &n.exponent {
        Some(e) => {
            let v = int_of(&e.digits);
            let v = if e.negative { -v } else { v };
            m * 10.0f64.powi(v as i32)
        }
        None => m,
    }
}

fn to_fvalue(v: &Value) -> FValue {
    match v {
        Value::Number(n) => FValue::Number(to_f64(n)),
        Value::String(s) => FValue::String(s.iter().collect()),
        Value::Bool(b) => FValue::Bool(*b),
        Value::Null => FValue::Null,
        Value::Object(m) => FValue::Object(
            m.iter().map(|(k, v)| (k.iter().collect::<String>(), to_fvalue(v))).collect(),
        ),
        Value::Array(a) => FValue::Array(a.iter().map(to_fvalue).collect()),
    }
}

/// Both parsers on `s`: `Some((value, rest))` or `None` for a failure.
fn both(s: &str) -> (Option<(FValue, String)>, Option<(FValue, String)>) {
    let by_combinators = json_value().parse(s).ok().map(|(v, rest)| (v, rest.to_string()));
    let cs: Vec<char> = s.chars().collect();
    let verified = verified_value(&cs, 0).ok().map(|(v, q)| (to_fvalue(&v), cs[q..].iter().collect()));
    (by_combinators, verified)
}

struct Lcg(u64);

impl Lcg {
    fn next(&mut self, n: usize) -> usize {
        self.0 = self.0.wrapping_mul(6364136223846793005).wrapping_add(1442695040888963407);
        ((self.0 >> 33) % (n as u64)) as usize
    }
}

const PIECES: &[&str] = &[
    "{", "}", "[", "]", ",", ":", "\"", "\\", "\\n", "\\u", "\\\"", "a", "k", "true", "tru",
    "false", "null", "nul", "-", "0", "1", "23", "456", ".", "e", "E", "e-", " ", "\t", "\n",
    "\u{a0}", "x", "\"k\"", "\"k\":", "1.5", "-0.5", "0 ", "9 9", "é", "/",
];

fn random_value(g: &mut Lcg, depth: usize, out: &mut String) {
    let ws = |g: &mut Lcg, out: &mut String| {
        for _ in 0..g.next(3) {
            out.push_str([" ", "\t", "\n"][g.next(3)]);
        }
    };
    match if depth > 3 { g.next(5) } else { g.next(7) } {
        0 => out.push_str(["true", "false", "null"][g.next(3)]),
        1 => {
            if g.next(2) == 0 {
                out.push('-');
            }
            if g.next(3) == 0 {
                out.push('0');
            } else {
                out.push_str(["1", "42", "7", "123"][g.next(4)]);
            }
            if g.next(2) == 0 {
                out.push('.');
                out.push_str(["5", "25", "0", ""][g.next(4)]);
            }
            if g.next(3) == 0 {
                out.push_str(["e", "E", "e-"][g.next(3)]);
                out.push_str(["2", "10", "0"][g.next(3)]);
            }
        }
        2 | 3 => {
            out.push('"');
            for _ in 0..g.next(4) {
                out.push_str(["a", "\\n", "\\\"", "\\/", "é", " "][g.next(6)]);
            }
            out.push('"');
        }
        4 => out.push_str(["1", "\"s\"", "null"][g.next(3)]),
        5 => {
            out.push('[');
            ws(g, out);
            let n = g.next(4);
            for i in 0..n {
                if i > 0 {
                    out.push(',');
                    ws(g, out);
                }
                random_value(g, depth + 1, out);
                ws(g, out);
            }
            out.push(']');
        }
        _ => {
            out.push('{');
            ws(g, out);
            let n = g.next(4);
            for i in 0..n {
                if i > 0 {
                    out.push(',');
                    ws(g, out);
                }
                out.push_str(["\"a\"", "\"b\"", "\"a\""][g.next(3)]);
                ws(g, out);
                out.push(':');
                ws(g, out);
                random_value(g, depth + 1, out);
                ws(g, out);
            }
            out.push('}');
        }
    }
    ws(g, out);
}

#[test]
fn agrees_on_random_token_strings() {
    let mut g = Lcg(7);
    for _ in 0..20000 {
        let mut s = String::new();
        for _ in 0..1 + g.next(10) {
            s.push_str(PIECES[g.next(PIECES.len())]);
        }
        let (by_combinators, verified) = both(&s);
        assert_eq!(by_combinators, verified, "input {:?}", s);
    }
}

#[test]
fn agrees_on_random_documents() {
    let mut g = Lcg(11);
    let mut accepted = 0;
    for _ in 0..5000 {
        let mut s = String::new();
        random_value(&mut g, 0, &mut s);
        // sometimes break the document a little
        if g.next(4) == 0 && !s.is_empty() {
            let cut = g.next(s.len());
            if s.is_char_boundary(cut) {
                s.truncate(cut);
            }
        }
        let (by_combinators, verified) = both(&s);
        if by_combinators.is_some() {
            accepted += 1;
        }
        assert_eq!(by_combinators, verified, "input {:?}", s);
    }
    assert!(accepted > 1000);
}

/// Whether a combinator parse failed with `name` among the expected items.
fn lists<O, R>(r: &Result<O, combine::easy::Errors<char, R, combine::stream::PointerOffset<str>>>, name: &'static str) -> bool {
    match r {
        Ok(_) => false,
        Err(e) => e.errors.iter().any(|x| matches!(x, EasyError::Expected(Info::Static(n)) if *n == name)),
    }
}

/// Whether a verified parse failed naming `label`.
fn names<O>(r: &Result<O, VerifiedError>, label: Label) -> bool {
    matches!(r, Err(e) if e.expected == Some(label))
}

fn name(l: Label) -> &'static str {
    match l {
        Label::Integer => "integer",
        Label::Number => "number",
        Label::String => "string",
        Label::Object => "object",
    }
}

#[test]
fn error_names_agree() {
    let inputs = [
        "", "x", " 1", "+1", ".5", "-", "-x", "-5", "5", "12 x", "1e", "1e-", "0.5", "\"", "\"a",
        "\"a\"", "\"a\\q\"", " \"a\"", "abc", "{", "{}", " {}", "{x", "{\"a\"", "{\"a\":",
        "{\"a\":1,", "{\"a\":1, x}", "{\"a\": }", "{\"a\":-}", "[", "[1, x]", "[x]", "[-]",
        "[1,]", "tru", "null", "nul", "}", "]",
    ];
    for s in inputs {
        let cs: Vec<char> = s.chars().collect();
        // each named rule on its own: named exactly when the combinator parser names it
        assert_eq!(lists(&number().easy_parse(s), "number"), names(&verified_number(&cs, 0), Label::Number), "number {:?}", s);
        assert_eq!(lists(&integer().easy_parse(s), "integer"), names(&verified_integer(&cs, 0), Label::Integer), "integer {:?}", s);
        assert_eq!(lists(&json_string().easy_parse(s), "string"), names(&verified_string(&cs, 0), Label::String), "string {:?}", s);
        assert_eq!(lists(&object().easy_parse(s), "object"), names(&verified_object(&cs, 0), Label::Object), "object {:?}", s);
        // a whole value: every name given is among those the combinator parser lists
        let whole = value_alternatives().easy_parse(s);
        if let Err(e) = verified_value(&cs, 0) {
            assert!(whole.is_err(), "value {:?}", s);
            if let Some(l) = e.expected {
                assert!(lists(&whole, name(l)), "value {:?}: {:?}", s, l);
            }
        }
    }
}

/// Where a combinator parse of `s` failed, as an index into `s`.
fn fail_at<O>(r: Result<O, combine::easy::Errors<char, &str, combine::stream::PointerOffset<str>>>, s: &str) -> Option<usize> {
    r.err().map(|e| e.position.translate_position(s))
}

#[test]
fn error_positions_agree() {
    for s in ["\"", "\"a", "", "\\x", "\\", "a"] {
        let cs: Vec<char> = s.chars().collect();
        let ours = verified_char(&cs, 0).err().map(|e| e.position);
        let theirs = fail_at(json_char().easy_parse(s), s);
        assert_eq!(ours, theirs, "json_char {:?}", s);
    }
    let words: [(&'static str, &[char]); 3] =
        [("true", &['t', 'r', 'u', 'e']), ("false", &['f', 'a', 'l', 's', 'e']), ("null", &['n', 'u', 'l', 'l'])];
    for (w, wc) in words {
        for s in ["tru", "trux", "fAlse", "nul1", "x", "", "true", "null ", "false"] {
            let cs: Vec<char> = s.chars().collect();
            let ours = verified_literal(&cs, 0, wc).err().map(|e| e.position);
            let theirs = fail_at(lex(string(w)).easy_parse(s), s);
            assert_eq!(ours, theirs, "{} on {:?}", w, s);
        }
    }
}
