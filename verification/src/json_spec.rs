//! What the JSON parsers compute, as functions on the input characters.
//!
//! Every parser starts at a position `p` of the input `s` and either
//! succeeds with a value and the position after it (trailing whitespace
//! skipped), or fails with a `Failure`: the position of the error and,
//! where a rule with a name failed where it began, that name. A list takes
//! an element as absent only where the element fails without taking any
//! input: a value where none begins (it fails at its start, naming
//! `number`), a string character at the end or at a closing quote.
use vstd::prelude::*;
use crate::json_value::{Failure, Label, NumberModel, ValueModel, named, unnamed};

verus! {

/// Whether `c` has the Unicode `White_Space` property, which is what
/// `char::is_whitespace` tests: U+0009 to U+000D, U+0020, U+0085, U+00A0,
/// U+1680, U+2000 to U+200A, U+2028, U+2029, U+202F, U+205F and U+3000.
pub open spec fn is_white_space(c: char) -> bool {
    ||| ('\u{9}' <= c && c <= '\u{d}')
    ||| c == ' '
    ||| c == '\u{85}'
    ||| c == '\u{a0}'
    ||| c == '\u{1680}'
    ||| ('\u{2000}' <= c && c <= '\u{200a}')
    ||| c == '\u{2028}'
    ||| c == '\u{2029}'
    ||| c == '\u{202f}'
    ||| c == '\u{205f}'
    ||| c == '\u{3000}'
}

/// Whether `c` is a decimal digit `0` to `9`.
pub open spec fn is_digit(c: char) -> bool {
    '0' <= c && c <= '9'
}

/// The value of a decimal digit.
pub open spec fn digit_value(c: char) -> u8 {
    (c as int - '0' as int) as u8
}

/// The position after the whitespace that starts at `p`.
pub open spec fn spec_lex(s: Seq<char>, p: int) -> int
    decreases s.len() - p,
{
    if 0 <= p < s.len() && is_white_space(s[p]) {
        spec_lex(s, p + 1)
    } else {
        p
    }
}

/// The position after the decimal digits that start at `p`.
pub open spec fn digit_run_end(s: Seq<char>, p: int) -> int
    decreases s.len() - p,
{
    if 0 <= p < s.len() && is_digit(s[p]) {
        digit_run_end(s, p + 1)
    } else {
        p
    }
}

/// The digit values of `s[p..q]`.
pub open spec fn digits_of(s: Seq<char>, p: int, q: int) -> Seq<u8> {
    s.subrange(p, q).map_values(|c: char| digit_value(c))
}

/// The number that a sequence of decimal digits denotes.
pub open spec fn digits_value(d: Seq<u8>) -> int
    decreases d.len(),
{
    if d.len() == 0 {
        0
    } else {
        digits_value(d.drop_last()) * 10 + d.last()
    }
}

/// One or more decimal digits and the whitespace after them: their value.
pub open spec fn spec_integer(s: Seq<char>, p: int) -> Result<(int, int), Failure> {
    let q = digit_run_end(s, p);
    if q == p {
        Err(named(p, Label::Integer))
    } else {
        Ok((digits_value(digits_of(s, p, q)), spec_lex(s, q)))
    }
}

/// The character that a backslash escape stands for.
pub open spec fn escape(c: char) -> Option<char> {
    if c == '"' {
        Some('"')
    } else if c == '\\' {
        Some('\\')
    } else if c == '/' {
        Some('/')
    } else if c == 'b' {
        Some('\u{0008}')
    } else if c == 'f' {
        Some('\u{000c}')
    } else if c == 'n' {
        Some('\n')
    } else if c == 'r' {
        Some('\r')
    } else if c == 't' {
        Some('\t')
    } else {
        None
    }
}

/// One character of a string body: any character but `"` and `\`, or a
/// backslash escape. At the end it fails at `p`; at `"` it fails just after
/// the quote (where it looked), though it takes nothing from the input there
/// either.
pub open spec fn spec_json_char(s: Seq<char>, p: int) -> Result<(char, int), Failure> {
    if p < 0 || p >= s.len() {
        Err(unnamed(p))
    } else if s[p] == '"' {
        Err(unnamed(p + 1))
    } else if s[p] == '\\' {
        if p + 1 >= s.len() {
            Err(unnamed(p + 1))
        } else {
            match escape(s[p + 1]) {
                Some(c) => Ok((c, p + 2)),
                None => Err(unnamed(p + 1)),
            }
        }
    } else {
        Ok((s[p], p + 1))
    }
}

/// Whether a string body ends at `p`: the end of the input or a `"`, where
/// `spec_json_char` fails without taking anything.
pub open spec fn body_ends(s: Seq<char>, p: int) -> bool {
    !(0 <= p < s.len()) || s[p] == '"'
}

/// String characters from `p` on, as many as there are.
pub open spec fn spec_string_body(s: Seq<char>, p: int) -> Result<(Seq<char>, int), Failure>
    decreases s.len() - p,
{
    match spec_json_char(s, p) {
        Ok((c, q)) => match spec_string_body(s, q) {
            Ok((cs, r)) => Ok((seq![c] + cs, r)),
            Err(e) => Err(e),
        },
        Err(e) => if body_ends(s, p) {
            Ok((seq![], p))
        } else {
            Err(e)
        },
    }
}

/// A string literal between double quotes, and the whitespace after it.
pub open spec fn spec_json_string(s: Seq<char>, p: int) -> Result<(Seq<char>, int), Failure> {
    if 0 <= p < s.len() && s[p] == '"' {
        match spec_string_body(s, p + 1) {
            Ok((cs, q)) => if q < s.len() && s[q] == '"' {
                Ok((cs, spec_lex(s, q + 1)))
            } else {
                Err(unnamed(q))
            },
            Err(e) => Err(e),
        }
    } else {
        Err(named(p, Label::String))
    }
}

/// Whether position `p` holds the character `c`.
pub open spec fn at(s: Seq<char>, p: int, c: char) -> bool {
    0 <= p < s.len() && s[p] == c
}

/// A number: optional `-`; either a lone `0` or digits followed by
/// whitespace; an optional `.`; fraction digits (possibly none, and read
/// even without a `.`); an optional exponent `e`/`E`, optional `-`, digits
/// and whitespace; then whitespace.
pub open spec fn spec_number(s: Seq<char>, p: int) -> Result<(NumberModel, int), Failure> {
    let negative = at(s, p, '-');
    let q = if negative { p + 1 } else { p };
    if !at(s, q, '0') && digit_run_end(s, q) == q {
        Err(if negative { named(q, Label::Integer) } else { named(q, Label::Number) })
    } else {
        let int_digits = if at(s, q, '0') { seq![0u8] } else { digits_of(s, q, digit_run_end(s, q)) };
        let q1 = if at(s, q, '0') { q + 1 } else { spec_lex(s, digit_run_end(s, q)) };
        let q2 = if at(s, q1, '.') { q1 + 1 } else { q1 };
        let e2 = digit_run_end(s, q2);
        let frac_digits = digits_of(s, q2, e2);
        if at(s, e2, 'e') || at(s, e2, 'E') {
            let eneg = at(s, e2 + 1, '-');
            let q5 = if eneg { e2 + 2 } else { e2 + 1 };
            let e3 = digit_run_end(s, q5);
            if e3 == q5 {
                Err(named(q5, Label::Integer))
            } else {
                Ok((
                    NumberModel {
                        negative,
                        int_digits,
                        frac_digits,
                        exponent: Some((eneg, digits_of(s, q5, e3))),
                    },
                    spec_lex(s, e3),
                ))
            }
        } else {
            Ok((
                NumberModel { negative, int_digits, frac_digits, exponent: None },
                spec_lex(s, e2),
            ))
        }
    }
}

/// How many characters of `w`, from index `i` on, match `s` at `p + i`
/// before the first mismatch (counted from the start of `w`).
pub open spec fn match_len(s: Seq<char>, p: int, w: Seq<char>, i: int) -> int
    decreases w.len() - i,
{
    if i >= w.len() || i < 0 {
        w.len() as int
    } else if 0 <= p + i < s.len() && s[p + i] == w[i] {
        match_len(s, p, w, i + 1)
    } else {
        i
    }
}

/// The word `w` and the whitespace after it. A mismatch fails at the start
/// of the word.
pub open spec fn spec_literal(s: Seq<char>, p: int, w: Seq<char>) -> Result<int, Failure> {
    let k = match_len(s, p, w, 0);
    if k == w.len() {
        Ok(spec_lex(s, p + w.len()))
    } else {
        Err(unnamed(p))
    }
}

pub open spec fn word_false() -> Seq<char> {
    seq!['f', 'a', 'l', 's', 'e']
}

pub open spec fn word_true() -> Seq<char> {
    seq!['t', 'r', 'u', 'e']
}

pub open spec fn word_null() -> Seq<char> {
    seq!['n', 'u', 'l', 'l']
}

/// The index of the member with key `k`, or -1.
pub open spec fn find_key(m: Seq<(Seq<char>, ValueModel)>, k: Seq<char>) -> int
    decreases m.len(),
{
    if m.len() == 0 {
        -1
    } else if m[0].0 == k {
        0
    } else {
        let r = find_key(m.drop_first(), k);
        if r < 0 {
            -1
        } else {
            r + 1
        }
    }
}

/// `find_key` gives the first index holding key `k`, or -1 when none does.
pub proof fn find_key_first_match(m: Seq<(Seq<char>, ValueModel)>, k: Seq<char>)
    ensures
        find_key(m, k) == -1 ==> forall|i: int| 0 <= i < m.len() ==> m[i].0 != k,
        find_key(m, k) != -1 ==> 0 <= find_key(m, k) < m.len() && m[find_key(m, k)].0 == k
            && forall|j: int| 0 <= j < find_key(m, k) ==> m[j].0 != k,
    decreases m.len(),
{
    if m.len() > 0 && m[0].0 != k {
        let t = m.drop_first();
        find_key_first_match(t, k);
        assert forall|i: int| 1 <= i < m.len() implies m[i] == t[i - 1] by {}
        if find_key(t, k) == -1 {
            assert forall|i: int| 0 <= i < m.len() implies m[i].0 != k by {
                if i > 0 {
                    assert(m[i] == t[i - 1]);
                }
            }
        } else {
            let r = find_key(t, k);
            assert forall|j: int| 0 <= j < r + 1 implies m[j].0 != k by {
                if j > 0 {
                    assert(m[j] == t[j - 1]);
                }
            }
        }
    }
}

/// Member `(k, v)` added: the value replaced where the key is present,
/// appended otherwise.
pub open spec fn member_insert(m: Seq<(Seq<char>, ValueModel)>, k: Seq<char>, v: ValueModel) -> Seq<
    (Seq<char>, ValueModel),
> {
    let i = find_key(m, k);
    if i >= 0 {
        m.update(i, (k, v))
    } else {
        m.push((k, v))
    }
}

/// The members of an object whose fields were `fs`, in order.
pub open spec fn members(fs: Seq<(Seq<char>, ValueModel)>) -> Seq<(Seq<char>, ValueModel)>
    decreases fs.len(),
{
    if fs.len() == 0 {
        seq![]
    } else {
        member_insert(members(fs.drop_last()), fs.last().0, fs.last().1)
    }
}

/// A value at `p`, chosen by its first character. Where no value begins,
/// the failure names `number`, as the choice among the forms of a value
/// reports it.
pub open spec fn spec_json_value(s: Seq<char>, p: int) -> Result<(ValueModel, int), Failure>
    decreases s.len() - p, 2int,
{
    if p < 0 || p >= s.len() {
        Err(named(p, Label::Number))
    } else if s[p] == '"' {
        match spec_json_string(s, p) {
            Ok((cs, q)) => Ok((ValueModel::String(cs), q)),
            Err(e) => Err(e),
        }
    } else if s[p] == '{' {
        spec_object(s, p)
    } else if s[p] == '[' {
        spec_array(s, p)
    } else if s[p] == '-' || is_digit(s[p]) {
        match spec_number(s, p) {
            Ok((n, q)) => Ok((ValueModel::Number(n), q)),
            Err(e) => Err(e),
        }
    } else if s[p] == 'f' {
        match spec_literal(s, p, word_false()) {
            Ok(q) => Ok((ValueModel::Bool(false), q)),
            Err(e) => Err(e),
        }
    } else if s[p] == 't' {
        match spec_literal(s, p, word_true()) {
            Ok(q) => Ok((ValueModel::Bool(true), q)),
            Err(e) => Err(e),
        }
    } else if s[p] == 'n' {
        match spec_literal(s, p, word_null()) {
            Ok(q) => Ok((ValueModel::Null, q)),
            Err(e) => Err(e),
        }
    } else {
        Err(named(p, Label::Number))
    }
}

/// `{`, whitespace, fields separated by `,` and whitespace, `}`, whitespace.
pub open spec fn spec_object(s: Seq<char>, p: int) -> Result<(ValueModel, int), Failure>
    decreases s.len() - p, 1int,
{
    let t = spec_lex(s, p + 1);
    if !at(s, p, '{') || !(p < t <= s.len()) {
        Err(named(p, Label::Object))
    } else if !at(s, t, '"') {
        object_close(s, t, seq![])
    } else {
        match spec_object_fields(s, t) {
            Ok((fs, r)) => object_close(s, r, fs),
            Err(e) => Err(e),
        }
    }
}

/// The closing brace of an object whose fields were `fs`.
pub open spec fn object_close(s: Seq<char>, r: int, fs: Seq<(Seq<char>, ValueModel)>) -> Result<
    (ValueModel, int),
    Failure,
> {
    if at(s, r, '}') {
        Ok((ValueModel::Object(members(fs)), spec_lex(s, r + 1)))
    } else {
        Err(unnamed(r))
    }
}

/// One or more fields `"key" : value` separated by `,` and whitespace.
pub open spec fn spec_object_fields(s: Seq<char>, q: int) -> Result<
    (Seq<(Seq<char>, ValueModel)>, int),
    Failure,
>
    decreases s.len() - q, 0int,
{
    match spec_json_string(s, q) {
        Ok((k, r1)) => if at(s, r1, ':') {
            let r2 = spec_lex(s, r1 + 1);
            if !(0 <= q < r2 <= s.len()) {
                Err(unnamed(r1))
            } else {
                match spec_json_value(s, r2) {
                    Ok((v, r3)) => if at(s, r3, ',') {
                        let t = spec_lex(s, r3 + 1);
                        if !(q < t <= s.len()) {
                            Err(unnamed(r3))
                        } else {
                            match spec_object_fields(s, t) {
                                Ok((fs, u)) => Ok((seq![(k, v)] + fs, u)),
                                Err(e) => Err(e),
                            }
                        }
                    } else {
                        Ok((seq![(k, v)], r3))
                    },
                    Err(e) => Err(e),
                }
            }
        } else {
            Err(unnamed(r1))
        },
        Err(e) => Err(e),
    }
}

/// `[`, whitespace, values separated by `,` and whitespace, `]`, whitespace.
pub open spec fn spec_array(s: Seq<char>, p: int) -> Result<(ValueModel, int), Failure>
    decreases s.len() - p, 1int,
{
    let t = spec_lex(s, p + 1);
    if !at(s, p, '[') || !(p < t <= s.len()) {
        Err(unnamed(p))
    } else if spec_json_value(s, t) == Err::<(ValueModel, int), Failure>(named(t, Label::Number)) {
        array_close(s, t, seq![])
    } else {
        match spec_array_elems(s, t) {
            Ok((vs, r)) => array_close(s, r, vs),
            Err(e) => Err(e),
        }
    }
}

/// The closing bracket of an array whose elements were `vs`.
pub open spec fn array_close(s: Seq<char>, r: int, vs: Seq<ValueModel>) -> Result<
    (ValueModel, int),
    Failure,
> {
    if at(s, r, ']') {
        Ok((ValueModel::Array(vs), spec_lex(s, r + 1)))
    } else {
        Err(unnamed(r))
    }
}

/// One or more values separated by `,` and whitespace.
pub open spec fn spec_array_elems(s: Seq<char>, q: int) -> Result<(Seq<ValueModel>, int), Failure>
    decreases s.len() - q, 3int,
{
    if !(0 <= q <= s.len()) {
        Err(unnamed(q))
    } else {
        match spec_json_value(s, q) {
            Ok((v, r)) => if at(s, r, ',') {
                let t = spec_lex(s, r + 1);
                if !(q < t <= s.len()) {
                    Err(unnamed(r))
                } else {
                    match spec_array_elems(s, t) {
                        Ok((vs, u)) => Ok((seq![v] + vs, u)),
                        Err(e) => Err(e),
                    }
                }
            } else {
                Ok((seq![v], r))
            },
            Err(e) => Err(e),
        }
    }
}

} // verus!
