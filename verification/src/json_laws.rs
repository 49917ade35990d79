//! Properties of the JSON parsers that hold for every input.
use vstd::prelude::*;
use crate::json_spec::{
    at, digit_run_end, digit_value, digits_of, is_digit, is_white_space, match_len, spec_array, spec_array_elems,
    spec_json_char, spec_json_string, spec_json_value, spec_lex, spec_literal, spec_number,
    spec_object, spec_object_fields, spec_string_body, word_false, word_null, word_true,
    find_key, find_key_first_match, member_insert, members,
};
use crate::json_value::{Failure, Label, NumberModel, ValueModel, named, unnamed};

verus! {

/// Whether position `q` is at the end of the input or at a character that is
/// not whitespace.
pub open spec fn lexed(s: Seq<char>, q: int) -> bool {
    q == s.len() || !is_white_space(s[q])
}

/// Whether a value can start at `p`: a quote, a brace, a bracket, a minus
/// sign, a digit, or the first letter of `false`, `true` or `null`.
pub open spec fn value_start(s: Seq<char>, p: int) -> bool {
    0 <= p < s.len() && {
        let c = s[p];
        c == '"' || c == '{' || c == '[' || c == '-' || is_digit(c) || c == 'f' || c == 't'
            || c == 'n'
    }
}

/// Skipping whitespace stops at the end or at a non-whitespace character,
/// never moves backwards, and skipping again changes nothing.
pub proof fn lex_skips_whitespace(s: Seq<char>, p: int)
    requires
        0 <= p <= s.len(),
    ensures
        p <= spec_lex(s, p) <= s.len(),
        lexed(s, spec_lex(s, p)),
        spec_lex(s, spec_lex(s, p)) == spec_lex(s, p),
        forall|i: int| p <= i < spec_lex(s, p) ==> is_white_space(#[trigger] s[i]),
    decreases s.len() - p,
{
    if p < s.len() && is_white_space(s[p]) {
        lex_skips_whitespace(s, p + 1);
    }
}

proof fn lemma_digit_run(s: Seq<char>, p: int)
    requires
        0 <= p <= s.len(),
    ensures
        p <= digit_run_end(s, p) <= s.len(),
    decreases s.len() - p,
{
    if p < s.len() && is_digit(s[p]) {
        lemma_digit_run(s, p + 1);
    }
}

proof fn lemma_string_body(s: Seq<char>, p: int)
    requires
        0 <= p <= s.len(),
    ensures
        spec_string_body(s, p) matches Ok((_, q)) ==> p <= q <= s.len() && (q == s.len() || s[q]
            == '"'),
        spec_string_body(s, p) matches Err(e) ==> p < e.at <= s.len(),
    decreases s.len() - p,
{
    if let Ok((c, q)) = spec_json_char(s, p) {
        lemma_string_body(s, q);
    }
}

proof fn lemma_string(s: Seq<char>, p: int)
    requires
        0 <= p <= s.len(),
    ensures
        spec_json_string(s, p) matches Ok((_, q)) ==> p + 2 <= q <= s.len() && lexed(s, q),
        spec_json_string(s, p) matches Err(e) ==> p <= e.at <= s.len() && (e.at == p <==> !at(
            s,
            p,
            '"',
        )),
{
    if at(s, p, '"') {
        lemma_string_body(s, p + 1);
        if let Ok((cs, q)) = spec_string_body(s, p + 1) {
            if q < s.len() {
                lex_skips_whitespace(s, q + 1);
            }
        }
    }
}

proof fn lemma_number(s: Seq<char>, p: int)
    requires
        0 <= p < s.len(),
        s[p] == '-' || is_digit(s[p]),
    ensures
        spec_number(s, p) matches Ok((_, q)) ==> p < q <= s.len() && lexed(s, q),
        spec_number(s, p) matches Err(e) ==> p < e.at <= s.len(),
{
    let negative = at(s, p, '-');
    let q = if negative { p + 1 } else { p };
    lemma_digit_run(s, q);
    if q < s.len() && is_digit(s[q]) {
        lemma_digit_run(s, q + 1);
    }
    if !(!at(s, q, '0') && digit_run_end(s, q) == q) {
        let q1 = if at(s, q, '0') { q + 1 } else { spec_lex(s, digit_run_end(s, q)) };
        if !at(s, q, '0') {
            lex_skips_whitespace(s, digit_run_end(s, q));
        }
        let q2 = if at(s, q1, '.') { q1 + 1 } else { q1 };
        lemma_digit_run(s, q2);
        let e2 = digit_run_end(s, q2);
        lex_skips_whitespace(s, e2);
        if at(s, e2, 'e') || at(s, e2, 'E') {
            let eneg = at(s, e2 + 1, '-');
            let q5 = if eneg { e2 + 2 } else { e2 + 1 };
            lemma_digit_run(s, q5);
            lex_skips_whitespace(s, digit_run_end(s, q5));
        }
    }
}

proof fn lemma_match_len(s: Seq<char>, p: int, w: Seq<char>, i: int)
    requires
        0 <= p,
        0 <= i <= w.len(),
        p + i <= s.len(),
    ensures
        i <= match_len(s, p, w, i) <= w.len(),
        p + match_len(s, p, w, i) <= s.len(),
    decreases w.len() - i,
{
    if i < w.len() && p + i < s.len() && s[p + i] == w[i] {
        lemma_match_len(s, p, w, i + 1);
    }
}

proof fn lemma_literal(s: Seq<char>, p: int, w: Seq<char>)
    requires
        0 <= p < s.len(),
        w.len() >= 1,
        s[p] == w[0],
    ensures
        spec_literal(s, p, w) matches Ok(q) ==> p < q <= s.len() && lexed(s, q),
        spec_literal(s, p, w) matches Err(e) ==> e == unnamed(p),
{
    lemma_match_len(s, p, w, 1);
    assert(match_len(s, p, w, 0) == match_len(s, p, w, 1));
    if match_len(s, p, w, 0) == w.len() {
        lex_skips_whitespace(s, p + w.len());
    }
}

/// A value parse always makes progress and leaves the position at the end of
/// the input or at a non-whitespace character; a failure lies between the
/// start and the end of the input, and it is a failure at the start naming
/// `number` exactly when no value can start there (so an optional value is
/// absent exactly then).
pub proof fn json_value_progress(s: Seq<char>, p: int)
    requires
        0 <= p <= s.len(),
    ensures
        spec_json_value(s, p) matches Ok((_, q)) ==> p < q <= s.len() && lexed(s, q),
        spec_json_value(s, p) matches Err(e) ==> p <= e.at <= s.len() && (e == named(p, Label::Number)
            <==> !value_start(s, p)),
    decreases s.len() - p, 2int,
{
    if p < s.len() {
        let c = s[p];
        if c == '"' {
            lemma_string(s, p);
        } else if c == '{' {
            object_progress(s, p);
        } else if c == '[' {
            array_progress(s, p);
        } else if c == '-' || is_digit(c) {
            lemma_number(s, p);
        } else if c == 'f' {
            lemma_literal(s, p, word_false());
        } else if c == 't' {
            lemma_literal(s, p, word_true());
        } else if c == 'n' {
            lemma_literal(s, p, word_null());
        }
    }
}

/// An object parse makes progress, ends at a non-whitespace position, and a
/// failure after the opening brace lies after the start.
pub proof fn object_progress(s: Seq<char>, p: int)
    requires
        0 <= p <= s.len(),
    ensures
        spec_object(s, p) matches Ok((_, q)) ==> p < q <= s.len() && lexed(s, q),
        spec_object(s, p) matches Err(e) ==> p <= e.at <= s.len() && (at(s, p, '{') ==> p < e.at),
    decreases s.len() - p, 1int,
{
    if at(s, p, '{') {
        lex_skips_whitespace(s, p + 1);
        let t = spec_lex(s, p + 1);
        if !at(s, t, '"') {
            if at(s, t, '}') {
                lex_skips_whitespace(s, t + 1);
            }
        } else {
            fields_progress(s, t);
            if let Ok((fs, r)) = spec_object_fields(s, t) {
                if at(s, r, '}') {
                    lex_skips_whitespace(s, r + 1);
                }
            }
        }
    }
}

proof fn fields_progress(s: Seq<char>, q: int)
    requires
        0 <= q <= s.len(),
    ensures
        spec_object_fields(s, q) matches Ok((_, u)) ==> q < u <= s.len(),
        spec_object_fields(s, q) matches Err(e) ==> q <= e.at <= s.len(),
    decreases s.len() - q, 0int,
{
    lemma_string(s, q);
    if let Ok((k, r1)) = spec_json_string(s, q) {
        if at(s, r1, ':') {
            lex_skips_whitespace(s, r1 + 1);
            let r2 = spec_lex(s, r1 + 1);
            json_value_progress(s, r2);
            if let Ok((v, r3)) = spec_json_value(s, r2) {
                if at(s, r3, ',') {
                    lex_skips_whitespace(s, r3 + 1);
                    let t = spec_lex(s, r3 + 1);
                    fields_progress(s, t);
                }
            }
        }
    }
}

/// An array parse makes progress, ends at a non-whitespace position, and a
/// failure after the opening bracket lies after the start.
pub proof fn array_progress(s: Seq<char>, p: int)
    requires
        0 <= p <= s.len(),
    ensures
        spec_array(s, p) matches Ok((_, q)) ==> p < q <= s.len() && lexed(s, q),
        spec_array(s, p) matches Err(e) ==> p <= e.at <= s.len() && (at(s, p, '[') ==> p < e.at),
    decreases s.len() - p, 1int,
{
    if at(s, p, '[') {
        lex_skips_whitespace(s, p + 1);
        let t = spec_lex(s, p + 1);
        if spec_json_value(s, t) == Err::<(ValueModel, int), Failure>(named(t, Label::Number)) {
            if at(s, t, ']') {
                lex_skips_whitespace(s, t + 1);
            }
        } else {
            elems_progress(s, t);
            if let Ok((vs, r)) = spec_array_elems(s, t) {
                if at(s, r, ']') {
                    lex_skips_whitespace(s, r + 1);
                }
            }
        }
    }
}

proof fn elems_progress(s: Seq<char>, q: int)
    requires
        0 <= q <= s.len(),
    ensures
        spec_array_elems(s, q) matches Ok((_, u)) ==> q < u <= s.len(),
        spec_array_elems(s, q) matches Err(e) ==> q <= e.at <= s.len(),
    decreases s.len() - q, 3int,
{
    json_value_progress(s, q);
    if let Ok((v, r)) = spec_json_value(s, q) {
        if at(s, r, ',') {
            lex_skips_whitespace(s, r + 1);
            let t = spec_lex(s, r + 1);
            elems_progress(s, t);
        }
    }
}


/// Whether `c` holds neither a double quote nor a backslash.
pub open spec fn plain(c: Seq<char>) -> bool {
    forall|i: int| 0 <= i < c.len() ==> c[i] != '"' && c[i] != '\\'
}

proof fn lemma_plain_body(s: Seq<char>, c: Seq<char>, rest: Seq<char>, i: int)
    requires
        s == seq!['"'] + c + seq!['"'] + rest,
        plain(c),
        0 <= i <= c.len(),
    ensures
        spec_string_body(s, 1 + i) == Ok::<(Seq<char>, int), Failure>((c.subrange(i, c.len() as int), c.len() + 1 as int)),
    decreases c.len() - i,
{
    if i < c.len() {
        assert(s[1 + i] == c[i]);
        lemma_plain_body(s, c, rest, i + 1);
        assert(seq![c[i]] + c.subrange(i + 1, c.len() as int) =~= c.subrange(i, c.len() as int));
    } else {
        assert(s[1 + i] == '"');
        assert(c.subrange(i, c.len() as int) =~= Seq::<char>::empty());
    }
}

/// A string literal whose content holds no double quote and no backslash
/// reads back as exactly that content, and the parse ends after the closing
/// quote and the whitespace that follows it.
pub proof fn plain_string_reads_back(c: Seq<char>, rest: Seq<char>)
    requires
        plain(c),
    ensures
        spec_json_string(seq!['"'] + c + seq!['"'] + rest, 0) == Ok::<(Seq<char>, int), Failure>((
            c,
            spec_lex(seq!['"'] + c + seq!['"'] + rest, c.len() + 2 as int),
        )),
{
    let s = seq!['"'] + c + seq!['"'] + rest;
    lemma_plain_body(s, c, rest, 0);
    assert(c.subrange(0, c.len() as int) =~= c);
    assert(s[c.len() + 1 as int] == '"');
}

/// How a character is written inside a string literal: a backslash and a
/// double quote each get a backslash in front, every other character stands
/// for itself.
pub open spec fn escape_char(c: char) -> Seq<char> {
    if c == '\\' || c == '"' {
        seq!['\\', c]
    } else {
        seq![c]
    }
}

/// The characters of `t`, each written as `escape_char` writes it.
pub open spec fn escaped(t: Seq<char>) -> Seq<char>
    decreases t.len(),
{
    if t.len() == 0 {
        seq![]
    } else {
        escape_char(t[0]) + escaped(t.drop_first())
    }
}

/// `t` as a string literal: escaped and between double quotes.
pub open spec fn quoted(t: Seq<char>) -> Seq<char> {
    seq!['"'] + escaped(t) + seq!['"']
}

proof fn lemma_escaped_body(pre: Seq<char>, t: Seq<char>, post: Seq<char>)
    requires
        post.len() > 0,
        post[0] == '"',
    ensures
        spec_string_body(pre + escaped(t) + post, pre.len() as int) == Ok::<(Seq<char>, int), Failure>(
            (t, pre.len() + escaped(t).len() as int),
        ),
    decreases t.len(),
{
    let s = pre + escaped(t) + post;
    let p = pre.len() as int;
    if t.len() == 0 {
        assert(escaped(t) =~= Seq::<char>::empty());
        assert(s[p] == post[0]);
        assert(t =~= Seq::<char>::empty());
    } else {
        let c = t[0];
        let rest = t.drop_first();
        let pre2 = pre + escape_char(c);
        assert(s =~= pre2 + escaped(rest) + post);
        lemma_escaped_body(pre2, rest, post);
        if c == '\\' || c == '"' {
            assert(s[p] == '\\' && s[p + 1] == c);
            assert(spec_json_char(s, p) == Ok::<(char, int), Failure>((c, p + 2)));
        } else {
            assert(s[p] == c);
            assert(spec_json_char(s, p) == Ok::<(char, int), Failure>((c, p + 1)));
        }
        assert(seq![c] + rest =~= t);
        assert(escaped(t).len() == escape_char(c).len() + escaped(rest).len());
        assert(pre2.len() == p + escape_char(c).len());
    }
}

/// Any string, written as a literal with each backslash and double quote
/// escaped and put between double quotes, reads back as exactly that string;
/// the parse ends after the closing quote and the whitespace that follows,
/// so with nothing after the literal, nothing is left over.
pub proof fn escaped_string_reads_back(t: Seq<char>, rest: Seq<char>)
    ensures
        spec_json_string(quoted(t) + rest, 0) == Ok::<(Seq<char>, int), Failure>((
            t,
            spec_lex(quoted(t) + rest, quoted(t).len() as int),
        )),
        spec_json_string(quoted(t), 0) == Ok::<(Seq<char>, int), Failure>((t, quoted(t).len() as int)),
{
    let s = quoted(t) + rest;
    lemma_escaped_body(seq!['"'], t, seq!['"'] + rest);
    assert(s =~= seq!['"'] + escaped(t) + (seq!['"'] + rest));
    assert(s[escaped(t).len() + 1 as int] == '"');
    let s2 = quoted(t);
    lemma_escaped_body(seq!['"'], t, seq!['"']);
    assert(s2 =~= seq!['"'] + escaped(t) + seq!['"']);
    assert(s2[escaped(t).len() + 1 as int] == '"');
    assert(spec_lex(s2, s2.len() as int) == s2.len());
}

/// Whether no two members share a key.
pub open spec fn distinct_keys(m: Seq<(Seq<char>, ValueModel)>) -> bool {
    forall|i: int, j: int| 0 <= i < j < m.len() ==> m[i].0 != m[j].0
}

/// With distinct keys, the index of a key is the one that holds it.
proof fn lemma_find_key_distinct(m: Seq<(Seq<char>, ValueModel)>, k: Seq<char>, i: int)
    requires
        distinct_keys(m),
        0 <= i < m.len(),
        m[i].0 == k,
    ensures
        find_key(m, k) == i,
{
    find_key_first_match(m, k);
    let f = find_key(m, k);
    if f != i {
        if f < i {
            assert(m[f].0 == m[i].0);
        } else {
            assert(m[i].0 != k);
        }
    }
}

/// The value of the last field with key `k`, if any.
pub open spec fn last_value(fs: Seq<(Seq<char>, ValueModel)>, k: Seq<char>) -> Option<ValueModel>
    decreases fs.len(),
{
    if fs.len() == 0 {
        None
    } else if fs.last().0 == k {
        Some(fs.last().1)
    } else {
        last_value(fs.drop_last(), k)
    }
}

/// The members of an object hold every key once.
pub proof fn object_members_distinct(fs: Seq<(Seq<char>, ValueModel)>)
    ensures
        distinct_keys(members(fs)),
    decreases fs.len(),
{
    if fs.len() > 0 {
        let m = members(fs.drop_last());
        object_members_distinct(fs.drop_last());
        let (k, v) = fs.last();
        find_key_first_match(m, k);
        let r = member_insert(m, k, v);
        if find_key(m, k) >= 0 {
            assert forall|i: int, j: int| 0 <= i < j < r.len() implies r[i].0 != r[j].0 by {
                assert(r[i].0 == m[i].0 && r[j].0 == m[j].0);
            }
        } else {
            assert forall|i: int, j: int| 0 <= i < j < r.len() implies r[i].0 != r[j].0 by {
                if j == m.len() {
                    assert(m[i].0 != k);
                }
            }
        }
    }
}

/// The members of an object are exactly the keys of its fields, each with
/// the value of the last field that has that key: a later field with the
/// same key replaces the value of an earlier one.
pub proof fn object_member_is_last_field(fs: Seq<(Seq<char>, ValueModel)>, k: Seq<char>)
    ensures
        last_value(fs, k) is None <==> find_key(members(fs), k) == -1,
        last_value(fs, k) matches Some(v) ==> members(fs)[find_key(members(fs), k)].1 == v,
    decreases fs.len(),
{
    find_key_first_match(members(fs), k);
    if fs.len() > 0 {
        let m = members(fs.drop_last());
        object_member_is_last_field(fs.drop_last(), k);
        object_members_distinct(fs.drop_last());
        object_members_distinct(fs);
        let (k0, v0) = fs.last();
        find_key_first_match(m, k0);
        find_key_first_match(m, k);
        let r = members(fs);
        assert(r == member_insert(m, k0, v0));
        if find_key(m, k0) >= 0 {
            let i = find_key(m, k0);
            if k == k0 {
                lemma_find_key_distinct(r, k, i);
            } else if find_key(m, k) >= 0 {
                let i2 = find_key(m, k);
                assert(i2 != i);
                lemma_find_key_distinct(r, k, i2);
            } else {
                assert forall|j: int| 0 <= j < r.len() implies r[j].0 != k by {
                    if j != i {
                        assert(r[j] == m[j]);
                    }
                }
            }
        } else {
            if k == k0 {
                lemma_find_key_distinct(r, k, m.len() as int);
            } else if find_key(m, k) >= 0 {
                lemma_find_key_distinct(r, k, find_key(m, k));
            } else {
                assert forall|j: int| 0 <= j < r.len() implies r[j].0 != k by {
                    if j < m.len() {
                        assert(r[j] == m[j]);
                    }
                }
            }
        }
    }
}

/// Every object within `v`, at any depth, holds each key once.
pub open spec fn well_formed(v: ValueModel) -> bool
    decreases v,
{
    match v {
        ValueModel::Object(m) => distinct_keys(m) && forall|i: int|
            0 <= i < m.len() ==> well_formed(#[trigger] m[i].1),
        ValueModel::Array(vs) => forall|i: int| 0 <= i < vs.len() ==> well_formed(#[trigger] vs[i]),
        _ => true,
    }
}

/// Whether every field holds a well-formed value.
pub open spec fn fields_well_formed(fs: Seq<(Seq<char>, ValueModel)>) -> bool {
    forall|i: int| 0 <= i < fs.len() ==> well_formed(#[trigger] fs[i].1)
}

/// Members built from well-formed fields hold well-formed values.
proof fn lemma_members_well_formed(fs: Seq<(Seq<char>, ValueModel)>)
    requires
        fields_well_formed(fs),
    ensures
        fields_well_formed(members(fs)),
    decreases fs.len(),
{
    if fs.len() > 0 {
        let pre = fs.drop_last();
        assert forall|i: int| 0 <= i < pre.len() implies well_formed(#[trigger] pre[i].1) by {
            assert(pre[i] == fs[i]);
        }
        lemma_members_well_formed(pre);
        let m = members(pre);
        assert(well_formed(fs[fs.len() - 1].1));
        let r = members(fs);
        find_key_first_match(m, fs.last().0);
        assert(r == member_insert(m, fs.last().0, fs.last().1));
        assert forall|i: int| 0 <= i < r.len() implies well_formed(#[trigger] r[i].1) by {
            if find_key(m, fs.last().0) >= 0 {
                if i != find_key(m, fs.last().0) {
                    assert(r[i] == m[i]);
                } else {
                    assert(r[i].1 == fs.last().1);
                }
            } else {
                if i < m.len() {
                    assert(r[i] == m[i]);
                } else {
                    assert(r[i].1 == fs.last().1);
                }
            }
        }
    }
}

/// Every value that parses is well formed: no object in it, at any depth,
/// holds a key twice.
pub proof fn parsed_values_well_formed(s: Seq<char>, p: int)
    ensures
        spec_json_value(s, p) matches Ok((v, _)) ==> well_formed(v),
    decreases s.len() - p, 2int,
{
    if 0 <= p < s.len() {
        if s[p] == '{' {
            object_well_formed(s, p);
        } else if s[p] == '[' {
            array_well_formed(s, p);
        }
    }
}

proof fn object_well_formed(s: Seq<char>, p: int)
    ensures
        spec_object(s, p) matches Ok((v, _)) ==> well_formed(v),
    decreases s.len() - p, 1int,
{
    let t = spec_lex(s, p + 1);
    if at(s, p, '{') && p < t <= s.len() {
        let fs: Seq<(Seq<char>, ValueModel)> = if at(s, t, '"') {
            fields_well_formed_lemma(s, t);
            match spec_object_fields(s, t) {
                Ok((fs, _)) => fs,
                Err(_) => seq![],
            }
        } else {
            seq![]
        };
        if let Ok((v, _)) = spec_object(s, p) {
            lemma_members_well_formed(fs);
            object_members_distinct(fs);
        }
    }
}

proof fn fields_well_formed_lemma(s: Seq<char>, q: int)
    ensures
        spec_object_fields(s, q) matches Ok((fs, _)) ==> fields_well_formed(fs),
    decreases s.len() - q, 0int,
{
    if let Ok((k, r1)) = spec_json_string(s, q) {
        if at(s, r1, ':') {
            let r2 = spec_lex(s, r1 + 1);
            if 0 <= q < r2 <= s.len() {
                parsed_values_well_formed(s, r2);
                if let Ok((v, r3)) = spec_json_value(s, r2) {
                    assert(well_formed((k, v).1));
                    if at(s, r3, ',') {
                        let t = spec_lex(s, r3 + 1);
                        if q < t <= s.len() {
                            fields_well_formed_lemma(s, t);
                            if let Ok((fs, u)) = spec_object_fields(s, t) {
                                let all = seq![(k, v)] + fs;
                                assert forall|i: int| 0 <= i < all.len() implies well_formed(#[trigger] all[i].1) by {
                                    if i > 0 {
                                        assert(all[i] == fs[i - 1]);
                                    }
                                }
                            }
                        }
                    } else {
                        assert(fields_well_formed(seq![(k, v)]));
                    }
                }
            }
        }
    }
}

proof fn array_well_formed(s: Seq<char>, p: int)
    ensures
        spec_array(s, p) matches Ok((v, _)) ==> well_formed(v),
    decreases s.len() - p, 1int,
{
    let t = spec_lex(s, p + 1);
    if at(s, p, '[') && p < t <= s.len() {
        if spec_json_value(s, t) != Err::<(ValueModel, int), Failure>(named(t, Label::Number)) {
            elems_well_formed(s, t);
        }
    }
}

proof fn elems_well_formed(s: Seq<char>, q: int)
    ensures
        spec_array_elems(s, q) matches Ok((vs, _)) ==> forall|i: int| 0 <= i < vs.len() ==> well_formed(#[trigger] vs[i]),
    decreases s.len() - q, 3int,
{
    if 0 <= q <= s.len() {
        parsed_values_well_formed(s, q);
        if let Ok((v, r)) = spec_json_value(s, q) {
            if at(s, r, ',') {
                let t = spec_lex(s, r + 1);
                if q < t <= s.len() {
                    elems_well_formed(s, t);
                    if let Ok((vs, u)) = spec_array_elems(s, t) {
                        let all = seq![v] + vs;
                        assert forall|i: int| 0 <= i < all.len() implies well_formed(#[trigger] all[i]) by {
                            if i > 0 {
                                assert(all[i] == vs[i - 1]);
                            }
                        }
                    }
                }
            }
        }
    }
}

/// Whether `s` holds, from `starts[0]` on, the values `ms` one after the
/// other, each parsing at `starts[i]` and ending at `ends[i]`, separated by
/// `,` and the whitespace after it, the last one followed by `close`.
pub open spec fn separated_values(
    s: Seq<char>,
    starts: Seq<int>,
    ends: Seq<int>,
    ms: Seq<ValueModel>,
    close: char,
) -> bool {
    &&& ms.len() >= 1
    &&& starts.len() == ms.len()
    &&& ends.len() == ms.len()
    &&& 0 <= starts[0] <= s.len()
    &&& forall|i: int| 0 <= i < ms.len() ==> #[trigger] spec_json_value(s, starts[i])
        == Ok::<(ValueModel, int), Failure>((ms[i], ends[i]))
    &&& forall|i: int| 0 <= i < ms.len() - 1 ==> at(s, #[trigger] ends[i], ',') && starts[i + 1]
        == spec_lex(s, ends[i] + 1)
    &&& at(s, ends[ms.len() - 1], close)
}

proof fn elems_collect(s: Seq<char>, starts: Seq<int>, ends: Seq<int>, ms: Seq<ValueModel>, i: int)
    requires
        separated_values(s, starts, ends, ms, ']'),
        0 <= i < ms.len(),
        0 <= starts[i] <= s.len(),
    ensures
        spec_array_elems(s, starts[i]) == Ok::<(Seq<ValueModel>, int), Failure>(
            (ms.subrange(i, ms.len() as int), ends[ms.len() - 1]),
        ),
    decreases ms.len() - i,
{
    let q = starts[i];
    assert(spec_json_value(s, q) == Ok::<(ValueModel, int), Failure>((ms[i], ends[i])));
    json_value_progress(s, q);
    if i < ms.len() - 1 {
        assert(at(s, ends[i], ',') && starts[i + 1] == spec_lex(s, ends[i] + 1));
        lex_skips_whitespace(s, ends[i] + 1);
        elems_collect(s, starts, ends, ms, i + 1);
        assert(seq![ms[i]] + ms.subrange(i + 1, ms.len() as int) =~= ms.subrange(i, ms.len() as int));
    } else {
        assert(at(s, ends[i], ']'));
        assert(seq![ms[i]] =~= ms.subrange(i, ms.len() as int));
    }
}

/// An array literal, `[` and whitespace followed by any number of values
/// separated by `,` and whitespace and closed by `]`, parses to an array of
/// exactly those values in order; nothing is dropped or added whatever
/// their number. With no value, `[` and `]` give the empty array.
pub proof fn array_collects_every_value(
    s: Seq<char>,
    p: int,
    starts: Seq<int>,
    ends: Seq<int>,
    ms: Seq<ValueModel>,
)
    requires
        0 <= p,
        at(s, p, '['),
        ms.len() == 0 ==> at(s, spec_lex(s, p + 1), ']'),
        ms.len() > 0 ==> separated_values(s, starts, ends, ms, ']') && starts[0] == spec_lex(
            s,
            p + 1,
        ),
    ensures
        spec_array(s, p) == Ok::<(ValueModel, int), Failure>((
            ValueModel::Array(ms),
            spec_lex(s, (if ms.len() == 0 { spec_lex(s, p + 1) } else { ends[ms.len() - 1] }) + 1),
        )),
{
    lex_skips_whitespace(s, p + 1);
    let t = spec_lex(s, p + 1);
    if ms.len() == 0 {
        json_value_progress(s, t);
        assert(ms =~= Seq::<ValueModel>::empty());
    } else {
        assert(spec_json_value(s, starts[0]) == Ok::<(ValueModel, int), Failure>((ms[0], ends[0])));
        elems_collect(s, starts, ends, ms, 0);
        assert(ms.subrange(0, ms.len() as int) =~= ms);
    }
}

/// The character that writes the decimal digit `x` (0 to 9).
pub open spec fn digit_char(x: u8) -> char {
    if x == 0 {
        '0'
    } else if x == 1 {
        '1'
    } else if x == 2 {
        '2'
    } else if x == 3 {
        '3'
    } else if x == 4 {
        '4'
    } else if x == 5 {
        '5'
    } else if x == 6 {
        '6'
    } else if x == 7 {
        '7'
    } else if x == 8 {
        '8'
    } else {
        '9'
    }
}

/// Whether every entry of `d` is a decimal digit value.
pub open spec fn all_digits(d: Seq<u8>) -> bool {
    forall|i: int| 0 <= i < d.len() ==> #[trigger] d[i] <= 9
}

/// The digits `d` written as characters.
pub open spec fn digit_text(d: Seq<u8>) -> Seq<char> {
    d.map_values(|x: u8| digit_char(x))
}

/// A number literal written from its parts: an optional `-`, the integer
/// digits, an optional `.` and fraction digits, and an optional exponent
/// (its letter `e` or `E`, whether a `-` follows, and its digits).
pub open spec fn number_text(
    negative: bool,
    int_digits: Seq<u8>,
    fraction: Option<Seq<u8>>,
    exponent: Option<(char, bool, Seq<u8>)>,
) -> Seq<char> {
    (if negative { seq!['-'] } else { seq![] }) + digit_text(int_digits) + match fraction {
        Some(f) => seq!['.'] + digit_text(f),
        None => seq![],
    } + match exponent {
        Some((letter, neg, d)) => seq![letter] + (if neg { seq!['-'] } else { seq![] }) + digit_text(d),
        None => seq![],
    }
}

proof fn lemma_digit_text(pre: Seq<char>, d: Seq<u8>, post: Seq<char>)
    requires
        all_digits(d),
        post.len() == 0 || !is_digit(post[0]),
    ensures
        digit_run_end(pre + digit_text(d) + post, pre.len() as int) == pre.len() + d.len(),
        digits_of(pre + digit_text(d) + post, pre.len() as int, pre.len() + d.len() as int) == d,
    decreases d.len(),
{
    let s = pre + digit_text(d) + post;
    let p = pre.len() as int;
    if d.len() > 0 {
        let pre2 = pre + seq![digit_char(d[0])];
        assert(d[0] <= 9);
        assert(s =~= pre2 + digit_text(d.drop_first()) + post);
        assert(all_digits(d.drop_first())) by {
            assert forall|i: int| 0 <= i < d.drop_first().len() implies #[trigger] d.drop_first()[i] <= 9 by {
                assert(d.drop_first()[i] == d[i + 1]);
            }
        }
        lemma_digit_text(pre2, d.drop_first(), post);
        assert(is_digit(s[p]));
    } else {
        assert(p == s.len() || s[p] == post[0]);
    }
    assert forall|i: int| 0 <= i < d.len() implies #[trigger] digit_value(s[p + i]) == d[i] by {
        assert(s[p + i] == digit_char(d[i]));
        assert(d[i] <= 9);
    }
    assert(digits_of(s, p, p + d.len()) =~= d);
}

/// A number literal written from its parts reads back as exactly those
/// parts and is consumed whole: the sign, the integer digits (a lone `0`
/// or digits not starting with `0`), the fraction digits, and the exponent
/// with its sign, `-` after the exponent letter negating it whether that
/// letter is `e` or `E`.
#[verifier::rlimit(100)]
#[verifier::spinoff_prover]
pub proof fn number_reads_its_parts(
    negative: bool,
    int_digits: Seq<u8>,
    fraction: Option<Seq<u8>>,
    exponent: Option<(char, bool, Seq<u8>)>,
)
    requires
        all_digits(int_digits),
        int_digits.len() >= 1,
        int_digits[0] != 0 || int_digits.len() == 1,
        fraction matches Some(f) ==> all_digits(f),
        exponent matches Some((letter, _, d)) ==> (letter == 'e' || letter == 'E') && d.len() >= 1
            && all_digits(d),
    ensures
        spec_number(number_text(negative, int_digits, fraction, exponent), 0) == Ok::<
            (NumberModel, int),
            Failure,
        >((
            NumberModel {
                negative,
                int_digits,
                frac_digits: match fraction {
                    Some(f) => f,
                    None => seq![],
                },
                exponent: match exponent {
                    Some((_, neg, d)) => Some((neg, d)),
                    None => None,
                },
            },
            number_text(negative, int_digits, fraction, exponent).len() as int,
        )),
{
    let a: Seq<char> = if negative { seq!['-'] } else { seq![] };
    let b = digit_text(int_digits);
    let c: Seq<char> = match fraction {
        Some(f) => seq!['.'] + digit_text(f),
        None => seq![],
    };
    let f: Seq<u8> = match fraction {
        Some(f) => f,
        None => seq![],
    };
    let e: Seq<char> = match exponent {
        Some((letter, neg, d)) => seq![letter] + (if neg { seq!['-'] } else { seq![] }) + digit_text(d),
        None => seq![],
    };
    let s = number_text(negative, int_digits, fraction, exponent);
    let q = a.len() as int;
    let e1 = q + int_digits.len();
    let q2 = if fraction is Some { e1 + 1 } else { e1 };
    let e2 = q2 + f.len();
    assert(s == a + b + c + e && s.len() == e2 + e.len()) by {
        match fraction {
            Some(ff) => {
                assert(c.len() == 1 + ff.len());
            },
            None => {},
        }
    }
    assert(at(s, 0, '-') == negative && (if negative { q == 1 } else { q == 0 })) by {
        if !negative {
            assert(s[0] == b[0]);
            assert(b[0] == digit_char(int_digits[0]));
            assert(int_digits[0] <= 9);
        }
    }
    // the integer digits, then `.`, an exponent letter, or the end
    assert(at(s, q, '0') == (int_digits[0] == 0) && digit_run_end(s, q) == e1 && digits_of(s, q, e1)
        == int_digits && spec_lex(s, e1) == e1 && at(s, e1, '.') == (fraction is Some)) by {
        let after = c + e;
        assert(e.len() == 0 || e[0] == 'e' || e[0] == 'E');
        assert(after.len() == 0 || after[0] == '.' || after[0] == 'e' || after[0] == 'E') by {
            if c.len() > 0 {
                assert(after[0] == c[0]);
            } else if e.len() > 0 {
                assert(after[0] == e[0]);
            }
        }
        assert(s =~= a + b + after);
        lemma_digit_text(a, int_digits, after);
        assert(s[q] == digit_char(int_digits[0]));
        assert(int_digits[0] <= 9);
        assert(e1 == s.len() || s[e1] == after[0]);
        if fraction is None && e.len() > 0 {
            assert(after[0] == e[0]);
        }
    }
    if int_digits[0] == 0 {
        assert(int_digits =~= seq![0u8]);
    }
    // the fraction digits, then an exponent letter or the end
    assert(digit_run_end(s, q2) == e2 && digits_of(s, q2, e2) == f) by {
        let pre2 = s.subrange(0, q2);
        assert(e.len() == 0 || e[0] == 'e' || e[0] == 'E');
        assert(s =~= pre2 + digit_text(f) + e);
        assert(all_digits(f));
        lemma_digit_text(pre2, f, e);
    }
    match exponent {
        Some((letter, neg, d)) => {
            let q5 = if neg { e2 + 2 } else { e2 + 1 };
            assert((at(s, e2, 'e') || at(s, e2, 'E')) && at(s, e2 + 1, '-') == neg && digit_run_end(s, q5)
                == s.len() && digits_of(s, q5, s.len() as int) == d && q5 + d.len() == s.len()) by {
                assert(s[e2] == e[0]);
                if !neg {
                    assert(s[e2 + 1] == digit_char(d[0]));
                    assert(d[0] <= 9);
                } else {
                    assert(s[e2 + 1] == '-');
                }
                let pre5 = s.subrange(0, q5);
                assert(s =~= pre5 + digit_text(d) + Seq::<char>::empty());
                lemma_digit_text(pre5, d, Seq::<char>::empty());
            }
        },
        None => {
            assert(e2 == s.len());
        },
    }
    assert(spec_lex(s, s.len() as int) == s.len());
}

/// Whether `s` holds, from `starts[0]` on, the fields `keys[i] : ms[i]`
/// one after the other: the key string parses at `starts[i]` and ends at
/// `colons[i]`, which holds `:`; the value parses from after the colon and
/// its whitespace to `ends[i]`; fields are separated by `,` and the
/// whitespace after it, and the last one is followed by `}`.
pub open spec fn separated_fields(
    s: Seq<char>,
    starts: Seq<int>,
    keys: Seq<Seq<char>>,
    colons: Seq<int>,
    ends: Seq<int>,
    ms: Seq<ValueModel>,
) -> bool {
    &&& ms.len() >= 1
    &&& starts.len() == ms.len() && keys.len() == ms.len() && colons.len() == ms.len()
    &&& ends.len() == ms.len()
    &&& forall|i: int| 0 <= i < ms.len() ==> 0 <= #[trigger] starts[i] <= s.len()
    &&& forall|i: int| 0 <= i < ms.len() ==> #[trigger] spec_json_string(s, starts[i])
        == Ok::<(Seq<char>, int), Failure>((keys[i], colons[i])) && at(s, colons[i], ':')
    &&& forall|i: int| 0 <= i < ms.len() ==> #[trigger] spec_json_value(s, spec_lex(s, colons[i] + 1))
        == Ok::<(ValueModel, int), Failure>((ms[i], ends[i]))
    &&& forall|i: int| 0 <= i < ms.len() - 1 ==> at(s, #[trigger] ends[i], ',') && starts[i + 1]
        == spec_lex(s, ends[i] + 1)
    &&& at(s, ends[ms.len() - 1], '}')
}

/// The fields `keys[i] : ms[i]` from index `i` on.
pub open spec fn zip_fields(keys: Seq<Seq<char>>, ms: Seq<ValueModel>, i: int) -> Seq<(Seq<char>, ValueModel)> {
    Seq::new((ms.len() - i) as nat, |j: int| (keys[i + j], ms[i + j]))
}

proof fn fields_collect(
    s: Seq<char>,
    starts: Seq<int>,
    keys: Seq<Seq<char>>,
    colons: Seq<int>,
    ends: Seq<int>,
    ms: Seq<ValueModel>,
    i: int,
)
    requires
        separated_fields(s, starts, keys, colons, ends, ms),
        0 <= i < ms.len(),
    ensures
        spec_object_fields(s, starts[i]) == Ok::<(Seq<(Seq<char>, ValueModel)>, int), Failure>(
            (zip_fields(keys, ms, i), ends[ms.len() - 1]),
        ),
    decreases ms.len() - i,
{
    let q = starts[i];
    assert(0 <= q <= s.len());
    assert(spec_json_string(s, q) == Ok::<(Seq<char>, int), Failure>((keys[i], colons[i])));
    lemma_string(s, q);
    let r1 = colons[i];
    assert(at(s, r1, ':'));
    lex_skips_whitespace(s, r1 + 1);
    let r2 = spec_lex(s, r1 + 1);
    assert(spec_json_value(s, r2) == Ok::<(ValueModel, int), Failure>((ms[i], ends[i])));
    json_value_progress(s, r2);
    if i < ms.len() - 1 {
        assert(at(s, ends[i], ',') && starts[i + 1] == spec_lex(s, ends[i] + 1));
        lex_skips_whitespace(s, ends[i] + 1);
        fields_collect(s, starts, keys, colons, ends, ms, i + 1);
        assert(seq![(keys[i], ms[i])] + zip_fields(keys, ms, i + 1) =~= zip_fields(keys, ms, i));
    } else {
        assert(at(s, ends[i], '}'));
        assert(seq![(keys[i], ms[i])] =~= zip_fields(keys, ms, i));
    }
}

/// An object literal, `{` and whitespace followed by any number of fields
/// `"key" : value` separated by `,` and whitespace and closed by `}`,
/// parses to the members of exactly those fields in order (a repeated key
/// keeping its first place and its last value): no field is dropped or
/// added whatever their number. With no field, `{` and `}` give the empty
/// object.
pub proof fn object_collects_every_field(
    s: Seq<char>,
    p: int,
    starts: Seq<int>,
    keys: Seq<Seq<char>>,
    colons: Seq<int>,
    ends: Seq<int>,
    ms: Seq<ValueModel>,
)
    requires
        0 <= p,
        at(s, p, '{'),
        ms.len() == 0 ==> at(s, spec_lex(s, p + 1), '}'),
        ms.len() > 0 ==> separated_fields(s, starts, keys, colons, ends, ms) && starts[0] == spec_lex(
            s,
            p + 1,
        ),
    ensures
        spec_object(s, p) == Ok::<(ValueModel, int), Failure>((
            ValueModel::Object(members(zip_fields(keys, ms, 0))),
            spec_lex(s, (if ms.len() == 0 { spec_lex(s, p + 1) } else { ends[ms.len() - 1] }) + 1),
        )),
{
    lex_skips_whitespace(s, p + 1);
    let t = spec_lex(s, p + 1);
    if ms.len() == 0 {
        assert(zip_fields(keys, ms, 0) =~= Seq::<(Seq<char>, ValueModel)>::empty());
    } else {
        assert(0 <= starts[0] <= s.len());
        assert(spec_json_string(s, starts[0]) == Ok::<(Seq<char>, int), Failure>((keys[0], colons[0])));
        lemma_string(s, t);
        fields_collect(s, starts, keys, colons, ends, ms, 0);
    }
}

} // verus!
