//! The three-way parse result used by the MP4 box parsers.
use vstd::prelude::*;

verus! {

/// Why a box parser rejected its input.
#[derive(Debug, Clone, Copy, PartialEq, Eq)]
pub enum BoxError {
    /// A fixed four-byte tag did not match.
    Tag,
    /// None of the alternatives of a choice matched.
    Alt,
    /// Bytes that had to be UTF-8 were not.
    MapRes,
    /// An error code set by the parser itself.
    Code(u32),
}

/// Result of a box parser: `Done(n, v)` consumed the first `n` bytes of the
/// input and produced `v`; `Incomplete(k)` asks for more input (`k` is the
/// number of bytes the failing step wanted, or a code); `Error(e)` rejects.
#[derive(Debug, Clone, PartialEq, Eq)]
pub enum BoxResult<T> {
    Done(usize, T),
    Error(BoxError),
    Incomplete(usize),
}

/// The mathematical counterpart of `BoxResult`, with one more outcome:
/// `Abort` stands for an input on which the parser stops the program.
pub enum Outcome<T> {
    Done(int, T),
    Error(BoxError),
    Incomplete(int),
    Abort,
}

impl<T: View> View for BoxResult<T> {
    type V = Outcome<T::V>;

    open spec fn view(&self) -> Outcome<T::V> {
        match self {
            BoxResult::Done(n, v) => Outcome::Done(*n as int, v@),
            BoxResult::Error(e) => Outcome::Error(*e),
            BoxResult::Incomplete(k) => Outcome::Incomplete(*k as int),
        }
    }
}

/// The outcome of a parser that reports an abort as `None`.
pub open spec fn lift<T: View>(r: Option<BoxResult<T>>) -> Outcome<T::V> {
    match r {
        Some(b) => b@,
        None => Outcome::Abort,
    }
}

/// Ordered choice of two outcomes: the first if it is `Done` (or aborts),
/// otherwise the second.
pub open spec fn alt<T>(a: Outcome<T>, b: Outcome<T>) -> Outcome<T> {
    match a {
        Outcome::Done(..) => a,
        Outcome::Abort => a,
        _ => b,
    }
}

} // verus!
