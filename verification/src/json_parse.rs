//! The JSON parsers. Each takes the input characters and a start position
//! and returns what the function of the same name in `json_spec` describes.
use vstd::prelude::*;
use crate::json_spec::{
    digit_run_end, digit_value, digits_of, digits_value, escape, is_digit, is_white_space,
    spec_integer, spec_json_char, spec_json_string, spec_lex, spec_string_body, spec_number,
    spec_literal, match_len, at, find_key, find_key_first_match, member_insert, members, spec_json_value, spec_object,
    spec_array, spec_object_fields, spec_array_elems, word_false, word_true, word_null,
};
use crate::json_laws::{parsed_values_well_formed, well_formed};
use crate::json_value::{Exponent, Failure, Label, NumberLit, ParseError, named, unnamed, Value, ValueModel, members_view, values_view};

verus! {

/// Whether `c` is whitespace in the sense of `char::is_whitespace`: the
/// Unicode `White_Space` characters that `is_white_space` lists.
fn char_is_whitespace(c: char) -> (r: bool)
    ensures
        r == is_white_space(c),
{
    ('\u{9}' <= c && c <= '\u{d}') || c == ' ' || c == '\u{85}' || c == '\u{a0}' || c == '\u{1680}'
        || ('\u{2000}' <= c && c <= '\u{200a}') || c == '\u{2028}' || c == '\u{2029}'
        || c == '\u{202f}' || c == '\u{205f}' || c == '\u{3000}'
}

/// The model of a parse result whose value has a view.
pub open spec fn result_model<T: View>(r: Result<(T, usize), ParseError>) -> Result<(T::V, int), Failure> {
    match r {
        Ok((v, q)) => Ok((v@, q as int)),
        Err(e) => Err(e@),
    }
}

/// Skips the whitespace that starts at `pos`: the first position after it.
pub fn lex(input: &[char], pos: usize) -> (r: usize)
    ensures
        r as int == spec_lex(input@, pos as int),
        pos <= r,
        pos <= input@.len() ==> r <= input@.len(),
{
    let mut p: usize = pos;
    while p < input.len() && char_is_whitespace(input[p])
        invariant
            pos <= p,
            pos <= input@.len() ==> p <= input@.len(),
            spec_lex(input@, p as int) == spec_lex(input@, pos as int),
        decreases input@.len() - p,
    {
        p = p + 1;
    }
    p
}

/// The end of the run of decimal digits that starts at `pos`.
pub fn digit_run(input: &[char], pos: usize) -> (r: usize)
    ensures
        r as int == digit_run_end(input@, pos as int),
        pos <= r,
        pos <= input@.len() ==> r <= input@.len(),
        forall|i: int| pos <= i < r ==> is_digit(#[trigger] input@[i]),
{
    let mut p: usize = pos;
    while p < input.len() && '0' <= input[p] && input[p] <= '9'
        invariant
            pos <= p,
            pos <= input@.len() ==> p <= input@.len(),
            digit_run_end(input@, p as int) == digit_run_end(input@, pos as int),
            forall|i: int| pos <= i < p ==> is_digit(#[trigger] input@[i]),
        decreases input@.len() - p,
    {
        p = p + 1;
    }
    p
}

/// The digit values of `input[p..q]`, which are all decimal digits.
pub fn digits(input: &[char], p: usize, q: usize) -> (r: Vec<u8>)
    requires
        p <= q <= input@.len(),
        forall|i: int| p <= i < q ==> is_digit(#[trigger] input@[i]),
    ensures
        r@ == digits_of(input@, p as int, q as int),
        forall|i: int| 0 <= i < r@.len() ==> #[trigger] r@[i] <= 9,
{
    let mut out: Vec<u8> = Vec::new();
    let mut i: usize = p;
    while i < q
        invariant
            p <= i <= q,
            q <= input@.len(),
            forall|j: int| p <= j < q ==> is_digit(#[trigger] input@[j]),
            out@ =~= digits_of(input@, p as int, i as int),
            forall|j: int| 0 <= j < out@.len() ==> #[trigger] out@[j] <= 9,
        decreases q - i,
    {
        let c: char = input[i];
        assert(is_digit(input@[i as int]));
        let d: u8 = (c as u32 - 48) as u8;
        out.push(d);
        assert(digits_of(input@, p as int, i + 1) =~= digits_of(input@, p as int, i as int).push(
            digit_value(c),
        ));
        i = i + 1;
    }
    out
}

proof fn lemma_digits_value_nonneg(d: Seq<u8>)
    ensures
        digits_value(d) >= 0,
    decreases d.len(),
{
    if d.len() > 0 {
        lemma_digits_value_nonneg(d.drop_last());
    }
}

/// A prefix of a digit sequence denotes no more than the whole.
proof fn lemma_digits_value_prefix(d: Seq<u8>, k: int)
    requires
        0 <= k <= d.len(),
    ensures
        digits_value(d.take(k)) <= digits_value(d),
    decreases d.len(),
{
    if k < d.len() {
        lemma_digits_value_prefix(d.drop_last(), k);
        assert(d.drop_last().take(k) =~= d.take(k));
        lemma_digits_value_nonneg(d.drop_last());
    } else {
        assert(d.take(k) =~= d);
    }
}

/// The number that the digits `d` (each at most 9) denote.
pub fn digits_to_i64(d: &Vec<u8>) -> (r: i64)
    requires
        forall|i: int| 0 <= i < d@.len() ==> #[trigger] d@[i] <= 9,
        digits_value(d@) <= i64::MAX,
    ensures
        r as int == digits_value(d@),
{
    let mut n: i64 = 0;
    let mut i: usize = 0;
    while i < d.len()
        invariant
            i <= d@.len(),
            forall|j: int| 0 <= j < d@.len() ==> #[trigger] d@[j] <= 9,
            digits_value(d@) <= i64::MAX,
            n as int == digits_value(d@.take(i as int)),
        decreases d@.len() - i,
    {
        proof {
            lemma_digits_value_prefix(d@, i + 1);
            assert(d@.take(i + 1).drop_last() =~= d@.take(i as int));
            lemma_digits_value_nonneg(d@.take(i as int));
        }
        n = n * 10 + d[i] as i64;
        i = i + 1;
    }
    assert(d@.take(i as int) =~= d@);
    n
}

/// The number that the digits `d` (each at most 9) denote, or `None` when it
/// exceeds `i64::MAX`.
pub fn checked_digits_to_i64(d: &Vec<u8>) -> (r: Option<i64>)
    requires
        forall|i: int| 0 <= i < d@.len() ==> #[trigger] d@[i] <= 9,
    ensures
        match r {
            Some(v) => v as int == digits_value(d@),
            None => digits_value(d@) > i64::MAX,
        },
{
    let mut n: i64 = 0;
    let mut i: usize = 0;
    while i < d.len()
        invariant
            i <= d@.len(),
            forall|j: int| 0 <= j < d@.len() ==> #[trigger] d@[j] <= 9,
            n as int == digits_value(d@.take(i as int)),
        decreases d@.len() - i,
    {
        proof {
            assert(d@.take(i + 1).drop_last() =~= d@.take(i as int));
            lemma_digits_value_nonneg(d@.take(i as int));
        }
        let digit: i64 = d[i] as i64;
        if n > (i64::MAX - digit) / 10 {
            proof {
                lemma_digits_value_prefix(d@, i + 1);
            }
            return None;
        }
        n = n * 10 + digit;
        i = i + 1;
    }
    assert(d@.take(i as int) =~= d@);
    Some(n)
}

/// One or more decimal digits, then whitespace: their value.
pub fn integer(input: &[char], pos: usize) -> (r: Result<(i64, usize), ParseError>)
    requires
        spec_integer(input@, pos as int) matches Ok((v, _)) ==> v <= i64::MAX,
    ensures
        match r {
            Ok((v, q)) => spec_integer(input@, pos as int) == Ok::<(int, int), Failure>((v as int, q as int)),
            Err(e) => spec_integer(input@, pos as int) == Err::<(int, int), Failure>(e@),
        },
{
    let q = digit_run(input, pos);
    if q == pos {
        return Err(ParseError { position: pos, expected: Some(Label::Integer) });
    }
    let d = digits(input, pos, q);
    let v = digits_to_i64(&d);
    Ok((v, lex(input, q)))
}

/// One character of a string body: any character but `"` and `\`, or a
/// backslash escape.
pub fn json_char(input: &[char], pos: usize) -> (r: Result<(char, usize), ParseError>)
    ensures
        result_model(r) == spec_json_char(input@, pos as int),
{
    if pos >= input.len() {
        return Err(ParseError { position: pos, expected: None });
    }
    let c = input[pos];
    if c == '"' {
        Err(ParseError { position: pos + 1, expected: None })
    } else if c == '\\' {
        if pos + 1 >= input.len() {
            return Err(ParseError { position: pos + 1, expected: None });
        }
        let e = input[pos + 1];
        let mapped: Option<char> = if e == '"' {
            Some('"')
        } else if e == '\\' {
            Some('\\')
        } else if e == '/' {
            Some('/')
        } else if e == 'b' {
            Some('\u{0008}')
        } else if e == 'f' {
            Some('\u{000c}')
        } else if e == 'n' {
            Some('\n')
        } else if e == 'r' {
            Some('\r')
        } else if e == 't' {
            Some('\t')
        } else {
            None
        };
        assert(mapped == escape(e));
        match mapped {
            Some(m) => Ok((m, pos + 2)),
            None => Err(ParseError { position: pos + 1, expected: None }),
        }
    } else {
        Ok((c, pos + 1))
    }
}

/// `pre` followed by the characters of a body parse.
pub open spec fn prepend_chars(pre: Seq<char>, r: Result<(Seq<char>, int), Failure>) -> Result<
    (Seq<char>, int),
    Failure,
> {
    match r {
        Ok((cs, q)) => Ok((pre + cs, q)),
        Err(e) => Err(e),
    }
}

/// A string literal between double quotes, then whitespace.
pub fn json_string(input: &[char], pos: usize) -> (r: Result<(Vec<char>, usize), ParseError>)
    ensures
        result_model(r) == spec_json_string(input@, pos as int),
        r matches Ok((_, q)) ==> pos + 2 <= q <= input@.len(),
{
    if !(pos < input.len() && input[pos] == '"') {
        return Err(ParseError { position: pos, expected: Some(Label::String) });
    }
    let mut cs: Vec<char> = Vec::new();
    let mut q: usize = pos + 1;
    assert(prepend_chars(cs@, spec_string_body(input@, q as int)) =~= spec_string_body(
        input@,
        q as int,
    )) by {
        assert(cs@ =~= Seq::<char>::empty());
        if let Ok((xs, _)) = spec_string_body(input@, q as int) {
            assert(cs@ + xs =~= xs);
        }
    }
    loop
        invariant
            pos + 1 <= q <= input@.len(),
            pos < input@.len() && input@[pos as int] == '"',
            spec_string_body(input@, pos + 1) == prepend_chars(cs@, spec_string_body(input@, q as int)),
        ensures
            pos + 1 <= q <= input@.len(),
            spec_string_body(input@, pos + 1) == Ok::<(Seq<char>, int), Failure>((cs@, q as int)),
        decreases input@.len() - q,
    {
        match json_char(input, q) {
            Ok((c, q2)) => {
                let ghost old_cs = cs@;
                cs.push(c);
                proof {
                    if let Ok((xs, _)) = spec_string_body(input@, q2 as int) {
                        assert(old_cs + (seq![c] + xs) =~= cs@ + xs);
                    }
                }
                q = q2;
            },
            Err(e) => {
                if q >= input.len() || input[q] == '"' {
                    assert(spec_string_body(input@, q as int) == Ok::<(Seq<char>, int), Failure>((seq![], q as int)));
                    assert(cs@ + Seq::<char>::empty() =~= cs@);
                    break;
                } else {
                    assert(spec_string_body(input@, q as int) == Err::<(Seq<char>, int), Failure>(e@));
                    return Err(e);
                }
            },
        }
    }
    assert(spec_string_body(input@, pos + 1) == Ok::<(Seq<char>, int), Failure>((cs@, q as int)));
    if q < input.len() && input[q] == '"' {
        let r = lex(input, q + 1);
        Ok((cs, r))
    } else {
        Err(ParseError { position: q, expected: None })
    }
}


/// A number literal (see `spec_number` for the exact grammar), then
/// whitespace.
pub fn number(input: &[char], pos: usize) -> (r: Result<(NumberLit, usize), ParseError>)
    ensures
        result_model(r) == spec_number(input@, pos as int),
        r matches Ok((_, q)) ==> pos < q <= input@.len(),
{
    let len: usize = input.len();
    let negative: bool = pos < len && input[pos] == '-';
    let q: usize = if negative { pos + 1 } else { pos };
    let zero: bool = q < len && input[q] == '0';
    let int_end: usize = if zero { q + 1 } else { digit_run(input, q) };
    if !zero && int_end == q {
        return Err(ParseError { position: q, expected: if negative { Some(Label::Integer) } else { Some(Label::Number) } });
    }
    let int_digits: Vec<u8> = if zero {
        let mut z: Vec<u8> = Vec::new();
        z.push(0u8);
        z
    } else {
        digits(input, q, int_end)
    };
    let q1: usize = if zero { q + 1 } else { lex(input, int_end) };
    let q2: usize = if q1 < len && input[q1] == '.' { q1 + 1 } else { q1 };
    let e2: usize = digit_run(input, q2);
    let frac_digits: Vec<u8> = digits(input, q2, e2);
    if e2 < len && (input[e2] == 'e' || input[e2] == 'E') {
        let eneg: bool = e2 + 1 < len && input[e2 + 1] == '-';
        let q5: usize = if eneg { e2 + 2 } else { e2 + 1 };
        let e3: usize = digit_run(input, q5);
        if e3 == q5 {
            return Err(ParseError { position: q5, expected: Some(Label::Integer) });
        }
        let ed: Vec<u8> = digits(input, q5, e3);
        let end: usize = lex(input, e3);
        let n = NumberLit {
            negative,
            int_digits,
            frac_digits,
            exponent: Some(Exponent { negative: eneg, digits: ed }),
        };
        proof {
            if zero {
                assert(n.int_digits@ =~= seq![0u8]);
            }
        }
        Ok((n, end))
    } else {
        let end: usize = lex(input, e2);
        let n = NumberLit { negative, int_digits, frac_digits, exponent: None };
        proof {
            if zero {
                assert(n.int_digits@ =~= seq![0u8]);
            }
        }
        Ok((n, end))
    }
}

/// The word `word`, then whitespace.
pub fn literal(input: &[char], pos: usize, word: &[char]) -> (r: Result<usize, ParseError>)
    ensures
        match r {
            Ok(q) => spec_literal(input@, pos as int, word@) == Ok::<int, Failure>(q as int),
            Err(e) => spec_literal(input@, pos as int, word@) == Err::<int, Failure>(e@),
        },
        r matches Ok(q) ==> pos + word@.len() <= q,
        r matches Ok(q) ==> (pos <= input@.len() ==> q <= input@.len()),
{
    let mut i: usize = 0;
    while i < word.len() && pos < input.len() && i < input.len() - pos && input[pos + i] == word[i]
        invariant
            i <= word@.len(),
            i == 0 || pos + i <= input.len(),
            match_len(input@, pos as int, word@, i as int) == match_len(input@, pos as int, word@, 0),
        decreases word@.len() - i,
    {
        i = i + 1;
    }
    if i == word.len() {
        Ok(lex(input, pos + i))
    } else {
        Err(ParseError { position: pos, expected: None })
    }
}


/// The model of the members of an object.
pub open spec fn members_model(m: Seq<(Vec<char>, Value)>) -> Seq<(Seq<char>, ValueModel)> {
    m.map_values(|e: (Vec<char>, Value)| (e.0@, e.1@))
}

/// The models of the elements of an array.
pub open spec fn values_model(v: Seq<Value>) -> Seq<ValueModel> {
    v.map_values(|x: Value| x@)
}

proof fn lemma_members_view(m: Seq<(Vec<char>, Value)>)
    ensures
        members_view(m) == members_model(m),
    decreases m.len(),
{
    if m.len() > 0 {
        lemma_members_view(m.drop_last());
        assert(members_model(m) =~= members_model(m.drop_last()).push((m.last().0@, m.last().1@)));
    } else {
        assert(members_model(m) =~= Seq::empty());
    }
}

proof fn lemma_values_view(v: Seq<Value>)
    ensures
        values_view(v) == values_model(v),
    decreases v.len(),
{
    if v.len() > 0 {
        lemma_values_view(v.drop_last());
        assert(values_model(v) =~= values_model(v.drop_last()).push(v.last()@));
    } else {
        assert(values_model(v) =~= Seq::empty());
    }
}

proof fn lemma_object_view(m: Vec<(Vec<char>, Value)>)
    ensures
        Value::Object(m)@ == ValueModel::Object(members_model(m@)),
{
    lemma_members_view(m@);
}

proof fn lemma_array_view(v: Vec<Value>)
    ensures
        Value::Array(v)@ == ValueModel::Array(values_model(v@)),
{
    lemma_values_view(v@);
}

/// Whether two character vectors are equal.
fn chars_eq(a: &Vec<char>, b: &Vec<char>) -> (r: bool)
    ensures
        r == (a@ == b@),
{
    if a.len() != b.len() {
        return false;
    }
    let mut i: usize = 0;
    while i < a.len()
        invariant
            i <= a@.len(),
            a@.len() == b@.len(),
            forall|j: int| 0 <= j < i ==> a@[j] == b@[j],
        decreases a@.len() - i,
    {
        if a[i] != b[i] {
            assert(a@[i as int] != b@[i as int]);
            return false;
        }
        i = i + 1;
    }
    assert(a@ =~= b@);
    true
}

/// The index of the member with key `k`, if any.
fn find_member(m: &Vec<(Vec<char>, Value)>, k: &Vec<char>) -> (r: Option<usize>)
    ensures
        match r {
            Some(i) => i < m@.len() && find_key(members_model(m@), k@) == i as int,
            None => find_key(members_model(m@), k@) == -1,
        },
{
    let mut i: usize = 0;
    while i < m.len()
        invariant
            i <= m@.len(),
            forall|j: int| 0 <= j < i ==> #[trigger] members_model(m@)[j].0 != k@,
        decreases m@.len() - i,
    {
        if chars_eq(&m[i].0, k) {
            proof {
                let mm = members_model(m@);
                find_key_first_match(mm, k@);
                assert(mm[i as int].0 == k@);
                let f = find_key(mm, k@);
                if f != i as int {
                    if f == -1 || f > i {
                        assert(mm[i as int].0 != k@);
                    } else {
                        assert(mm[f].0 != k@);
                    }
                }
            }
            return Some(i);
        }
        i = i + 1;
    }
    proof {
        find_key_first_match(members_model(m@), k@);
    }
    None
}

/// Adds the member `(k, v)`: replaces the value of key `k` where present,
/// appends the member otherwise.
fn insert_member(m: &mut Vec<(Vec<char>, Value)>, k: Vec<char>, v: Value)
    ensures
        members_model(final(m)@) == member_insert(members_model(old(m)@), k@, v@),
{
    let ghost old_model = members_model(m@);
    let ghost kv = (k@, v@);
    match find_member(m, &k) {
        Some(i) => {
            m.set(i, (k, v));
            assert(members_model(m@) =~= old_model.update(i as int, kv));
        },
        None => {
            m.push((k, v));
            assert(members_model(m@) =~= old_model.push(kv));
        },
    }
}

/// `pre` followed by the fields of a fields parse.
pub open spec fn prepend_fields(
    pre: Seq<(Seq<char>, ValueModel)>,
    r: Result<(Seq<(Seq<char>, ValueModel)>, int), Failure>,
) -> Result<(Seq<(Seq<char>, ValueModel)>, int), Failure> {
    match r {
        Ok((fs, q)) => Ok((pre + fs, q)),
        Err(e) => Err(e),
    }
}

/// `pre` followed by the values of an elements parse.
pub open spec fn prepend_values(pre: Seq<ValueModel>, r: Result<(Seq<ValueModel>, int), Failure>) -> Result<
    (Seq<ValueModel>, int),
    Failure,
> {
    match r {
        Ok((vs, q)) => Ok((pre + vs, q)),
        Err(e) => Err(e),
    }
}

/// A value at `pos`, chosen by its first character.
pub fn json_value(input: &[char], pos: usize) -> (r: Result<(Value, usize), ParseError>)
    ensures
        result_model(r) == spec_json_value(input@, pos as int),
        r matches Ok((_, q)) ==> pos < q <= input@.len(),
        r matches Ok((v, _)) ==> well_formed(v@),
    decreases input@.len() - pos, 2int,
{
    proof {
        parsed_values_well_formed(input@, pos as int);
    }
    if pos >= input.len() {
        return Err(ParseError { position: pos, expected: Some(Label::Number) });
    }
    let c: char = input[pos];
    if c == '"' {
        match json_string(input, pos) {
            Ok((cs, q)) => Ok((Value::String(cs), q)),
            Err(e) => Err(e),
        }
    } else if c == '{' {
        object(input, pos)
    } else if c == '[' {
        array(input, pos)
    } else if c == '-' || ('0' <= c && c <= '9') {
        match number(input, pos) {
            Ok((n, q)) => Ok((Value::Number(n), q)),
            Err(e) => Err(e),
        }
    } else if c == 'f' {
        let w: [char; 5] = ['f', 'a', 'l', 's', 'e'];
        assert(w@ =~= word_false());
        match literal(input, pos, &w) {
            Ok(q) => Ok((Value::Bool(false), q)),
            Err(e) => Err(e),
        }
    } else if c == 't' {
        let w: [char; 4] = ['t', 'r', 'u', 'e'];
        assert(w@ =~= word_true());
        match literal(input, pos, &w) {
            Ok(q) => Ok((Value::Bool(true), q)),
            Err(e) => Err(e),
        }
    } else if c == 'n' {
        let w: [char; 4] = ['n', 'u', 'l', 'l'];
        assert(w@ =~= word_null());
        match literal(input, pos, &w) {
            Ok(q) => Ok((Value::Null, q)),
            Err(e) => Err(e),
        }
    } else {
        Err(ParseError { position: pos, expected: Some(Label::Number) })
    }
}

/// An object: `{`, fields `"key" : value` separated by `,`, `}`, with
/// whitespace after each token. A repeated key keeps its first place and
/// its last value.
pub fn object(input: &[char], pos: usize) -> (r: Result<(Value, usize), ParseError>)
    ensures
        result_model(r) == spec_object(input@, pos as int),
        r matches Ok((_, q)) ==> pos < q <= input@.len(),
    decreases input@.len() - pos, 1int,
{
    if !(pos < input.len() && input[pos] == '{') {
        return Err(ParseError { position: pos, expected: Some(Label::Object) });
    }
    let t: usize = lex(input, pos + 1);
    let mut m: Vec<(Vec<char>, Value)> = Vec::new();
    let ghost mut fs: Seq<(Seq<char>, ValueModel)> = seq![];
    let mut end: usize = t;
    if t < input.len() && input[t] == '"' {
        let mut q: usize = t;
        assert(prepend_fields(fs, spec_object_fields(input@, q as int)) =~= spec_object_fields(
            input@,
            q as int,
        )) by {
            if let Ok((xs, _)) = spec_object_fields(input@, q as int) {
                assert(fs + xs =~= xs);
            }
        }
        loop
            invariant_except_break
                spec_object_fields(input@, t as int) == prepend_fields(
                    fs,
                    spec_object_fields(input@, q as int),
                ),
            invariant
                pos < t <= q <= input@.len(),
                at(input@, pos as int, '{'),
                at(input@, t as int, '"'),
                t as int == spec_lex(input@, pos + 1),
                members_model(m@) == members(fs),
            ensures
                pos < t <= end <= input@.len(),
                members_model(m@) == members(fs),
                spec_object_fields(input@, t as int) == Ok::<(Seq<(Seq<char>, ValueModel)>, int), Failure>((fs, end as int)),
            decreases input@.len() - q,
        {
            let (k, r1) = match json_string(input, q) {
                Ok(x) => x,
                Err(e) => {
                    assert(spec_object_fields(input@, q as int) == Err::<(Seq<(Seq<char>, ValueModel)>, int), Failure>(e@));
                    return Err(e);
                },
            };
            if !(r1 < input.len() && input[r1] == ':') {
                assert(spec_object_fields(input@, q as int) == Err::<(Seq<(Seq<char>, ValueModel)>, int), Failure>(unnamed(r1 as int)));
                return Err(ParseError { position: r1, expected: None });
            }
            let r2: usize = lex(input, r1 + 1);
            let (v, r3) = match json_value(input, r2) {
                Ok(x) => x,
                Err(e) => {
                    assert(spec_object_fields(input@, q as int) == Err::<(Seq<(Seq<char>, ValueModel)>, int), Failure>(e@));
                    return Err(e);
                },
            };
            let ghost kv = (k@, v@);
            let ghost old_fs = fs;
            insert_member(&mut m, k, v);
            proof {
                fs = fs.push(kv);
                assert(fs.drop_last() =~= old_fs);
            }
            if r3 < input.len() && input[r3] == ',' {
                let t2: usize = lex(input, r3 + 1);
                proof {
                    if let Ok((xs, _)) = spec_object_fields(input@, t2 as int) {
                        assert(old_fs + (seq![kv] + xs) =~= fs + xs);
                    }
                }
                q = t2;
            } else {
                assert(old_fs + seq![kv] =~= fs);
                end = r3;
                break;
            }
        }
    }
    if end < input.len() && input[end] == '}' {
        let after: usize = lex(input, end + 1);
        proof {
            lemma_object_view(m);
        }
        Ok((Value::Object(m), after))
    } else {
        Err(ParseError { position: end, expected: None })
    }
}

/// An array: `[`, values separated by `,`, `]`, with whitespace after each
/// token.
pub fn array(input: &[char], pos: usize) -> (r: Result<(Value, usize), ParseError>)
    ensures
        result_model(r) == spec_array(input@, pos as int),
        r matches Ok((_, q)) ==> pos < q <= input@.len(),
    decreases input@.len() - pos, 1int,
{
    if !(pos < input.len() && input[pos] == '[') {
        return Err(ParseError { position: pos, expected: None });
    }
    let t: usize = lex(input, pos + 1);
    let mut items: Vec<Value> = Vec::new();
    let mut q: usize = t;
    let mut first: bool = true;
    let mut end: usize = t;
    assert(prepend_values(values_model(items@), spec_array_elems(input@, q as int)) =~= spec_array_elems(
        input@,
        q as int,
    )) by {
        assert(values_model(items@) =~= Seq::<ValueModel>::empty());
        if let Ok((xs, _)) = spec_array_elems(input@, q as int) {
            assert(values_model(items@) + xs =~= xs);
        }
    }
    loop
        invariant_except_break
            first ==> q == t && items@.len() == 0,
            spec_array_elems(input@, t as int) == prepend_values(
                values_model(items@),
                spec_array_elems(input@, q as int),
            ),
        invariant
            pos < t <= q <= input@.len(),
            at(input@, pos as int, '['),
            t as int == spec_lex(input@, pos + 1),
            !first ==> spec_json_value(input@, t as int) is Ok,
        ensures
            pos < t <= end <= input@.len(),
            first ==> (end == t && items@.len() == 0 && spec_json_value(input@, t as int)
                == Err::<(ValueModel, int), Failure>(named(t as int, Label::Number))),
            !first ==> (spec_json_value(input@, t as int) is Ok && spec_array_elems(input@, t as int)
                == Ok::<(Seq<ValueModel>, int), Failure>((values_model(items@), end as int))),
        decreases input@.len() - q,
    {
        match json_value(input, q) {
            Err(e) => {
                if first && e.position == t && matches!(e.expected, Some(Label::Number)) {
                    end = t;
                    break;
                } else {
                    assert(spec_array_elems(input@, q as int) == Err::<(Seq<ValueModel>, int), Failure>(e@));
                    return Err(e);
                }
            },
            Ok((v, r)) => {
                let ghost vm = v@;
                let ghost old_vs = values_model(items@);
                items.push(v);
                assert(values_model(items@) =~= old_vs.push(vm));
                first = false;
                if r < input.len() && input[r] == ',' {
                    let t2: usize = lex(input, r + 1);
                    proof {
                        if let Ok((xs, _)) = spec_array_elems(input@, t2 as int) {
                            assert(old_vs + (seq![vm] + xs) =~= values_model(items@) + xs);
                        }
                    }
                    q = t2;
                } else {
                    assert(old_vs + seq![vm] =~= values_model(items@));
                    end = r;
                    break;
                }
            },
        }
    }
    if end < input.len() && input[end] == ']' {
        let after: usize = lex(input, end + 1);
        proof {
            lemma_array_view(items);
        }
        Ok((Value::Array(items), after))
    } else {
        Err(ParseError { position: end, expected: None })
    }
}

} // verus!
