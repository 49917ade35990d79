//! Values of the JSON dialect and their mathematical models.
use vstd::prelude::*;

verus! {

/// The exponent of a number literal: an optional minus sign and the decimal
/// digits (each 0 to 9) that follow `e` or `E`.
#[derive(Debug, Clone, PartialEq, Eq)]
pub struct Exponent {
    pub negative: bool,
    pub digits: Vec<u8>,
}

/// A number literal as written: sign, integer digits (`[0]` for a lone
/// leading `0`), fraction digits, and exponent. Digits are values 0 to 9.
/// Turning it into a floating-point number is left to the caller.
#[derive(Debug, Clone, PartialEq, Eq)]
pub struct NumberLit {
    pub negative: bool,
    pub int_digits: Vec<u8>,
    pub frac_digits: Vec<u8>,
    pub exponent: Option<Exponent>,
}

/// A parsed value. An object holds its members in the order in which each
/// key first appeared, each key once, with the value of its last occurrence.
#[derive(Debug, PartialEq, Eq)]
pub enum Value {
    Number(NumberLit),
    String(Vec<char>),
    Bool(bool),
    Null,
    Object(Vec<(Vec<char>, Value)>),
    Array(Vec<Value>),
}

pub struct NumberModel {
    pub negative: bool,
    pub int_digits: Seq<u8>,
    pub frac_digits: Seq<u8>,
    pub exponent: Option<(bool, Seq<u8>)>,
}

pub enum ValueModel {
    Number(NumberModel),
    String(Seq<char>),
    Bool(bool),
    Null,
    Object(Seq<(Seq<char>, ValueModel)>),
    Array(Seq<ValueModel>),
}

impl View for NumberLit {
    type V = NumberModel;

    open spec fn view(&self) -> NumberModel {
        NumberModel {
            negative: self.negative,
            int_digits: self.int_digits@,
            frac_digits: self.frac_digits@,
            exponent: match self.exponent {
                Some(e) => Some((e.negative, e.digits@)),
                None => None,
            },
        }
    }
}

impl View for Value {
    type V = ValueModel;

    open spec fn view(&self) -> ValueModel
        decreases self,
    {
        match self {
            Value::Number(n) => ValueModel::Number(n@),
            Value::String(s) => ValueModel::String(s@),
            Value::Bool(b) => ValueModel::Bool(*b),
            Value::Null => ValueModel::Null,
            Value::Object(m) => ValueModel::Object(members_view(m@)),
            Value::Array(v) => ValueModel::Array(values_view(v@)),
        }
    }
}

/// The models of a sequence of values.
pub open spec fn values_view(v: Seq<Value>) -> Seq<ValueModel>
    decreases v,
{
    if v.len() == 0 {
        seq![]
    } else {
        values_view(v.drop_last()).push(v.last().view())
    }
}

/// The models of a sequence of object members.
pub open spec fn members_view(m: Seq<(Vec<char>, Value)>) -> Seq<(Seq<char>, ValueModel)>
    decreases m,
{
    if m.len() == 0 {
        seq![]
    } else {
        members_view(m.drop_last()).push((m.last().0@, m.last().1.view()))
    }
}

/// What a failing rule says the input should have held: the rules that
/// carry a name of their own.
#[derive(Debug, Clone, Copy, PartialEq, Eq)]
pub enum Label {
    /// `integer`: one or more decimal digits.
    Integer,
    /// `number`; a value names it too where none begins.
    Number,
    /// `json_string`: a string literal.
    String,
    /// `object`.
    Object,
}

/// Where a parse failed, and what was expected there.
///
/// `position` is where the failing rule puts the error: mostly the offending
/// character, or the length of the input when it ended too early; a word
/// (`true`, `false`, `null`) that does not match fails at its start, and a
/// single string character that meets a closing quote fails just after it. `expected` is the name of the rule that
/// failed at `position`, when that rule failed where it began, having
/// consumed nothing; it is `None` for a failure inside a rule, after some
/// input was consumed, and for the rules that have no name.
#[derive(Debug, Clone, Copy, PartialEq, Eq)]
pub struct ParseError {
    pub position: usize,
    pub expected: Option<Label>,
}

/// A failure: where it happened, and the name of the rule that failed there
/// where it began, having consumed nothing (none for a failure inside a
/// rule, after some input was consumed, or of a rule without a name).
pub struct Failure {
    pub at: int,
    pub expected: Option<Label>,
}

/// A failure at `at` that names nothing.
pub open spec fn unnamed(at: int) -> Failure {
    Failure { at, expected: None }
}

/// The rule named `l` failed at `at`, where it began.
pub open spec fn named(at: int, l: Label) -> Failure {
    Failure { at, expected: Some(l) }
}

impl View for ParseError {
    type V = Failure;

    open spec fn view(&self) -> Failure {
        Failure { at: self.position as int, expected: self.expected }
    }
}

} // verus!
