//! Big-endian integer readers and the UTF-8 check.
use vstd::prelude::*;
use crate::iresult::{BoxResult, Outcome};

verus! {

/// The big-endian 16-bit number in `s[off..off + 2]`.
pub open spec fn be16_at(s: Seq<u8>, off: int) -> u16 {
    (s[off] as int * 256 + s[off + 1] as int) as u16
}

/// The big-endian 32-bit number in `s[off..off + 4]`.
pub open spec fn be32_at(s: Seq<u8>, off: int) -> u32 {
    (s[off] as int * 16777216 + s[off + 1] as int * 65536 + s[off + 2] as int * 256
        + s[off + 3] as int) as u32
}

/// The big-endian 64-bit number in `s[off..off + 8]`.
pub open spec fn be64_at(s: Seq<u8>, off: int) -> u64 {
    (be32_at(s, off) as int * 4294967296 + be32_at(s, off + 4) as int) as u64
}

pub fn read_be16(input: &[u8], off: usize) -> (r: u16)
    requires
        off + 2 <= input@.len(),
    ensures
        r == be16_at(input@, off as int),
{
    let a: u16 = input[off] as u16;
    let b: u16 = input[off + 1] as u16;
    a * 256 + b
}

pub fn read_be32(input: &[u8], off: usize) -> (r: u32)
    requires
        off + 4 <= input@.len(),
    ensures
        r == be32_at(input@, off as int),
{
    let a: u32 = input[off] as u32;
    let b: u32 = input[off + 1] as u32;
    let c: u32 = input[off + 2] as u32;
    let d: u32 = input[off + 3] as u32;
    a * 16777216 + b * 65536 + c * 256 + d
}

pub fn read_be64(input: &[u8], off: usize) -> (r: u64)
    requires
        off + 8 <= input@.len(),
    ensures
        r == be64_at(input@, off as int),
{
    assert(off + 8 <= input.len());
    let hi: u64 = read_be32(input, off) as u64;
    let lo: u64 = read_be32(input, off + 4) as u64;
    hi * 4294967296 + lo
}

pub open spec fn spec_be_u32(s: Seq<u8>) -> Outcome<u32> {
    if s.len() < 4 { Outcome::Incomplete(4) } else { Outcome::Done(4, be32_at(s, 0)) }
}


/// Reads a big-endian `u32` from the start of `input`.
pub fn be_u32(input: &[u8]) -> (r: BoxResult<u32>)
    ensures
        r@ == spec_be_u32(input@),
{
    if input.len() < 4 {
        BoxResult::Incomplete(4)
    } else {
        BoxResult::Done(4, read_be32(input, 0))
    }
}


/// Whether `bytes` is well-formed UTF-8, by `std::str::from_utf8`.
///
/// Trusted: `std::str::from_utf8` returns `Ok` exactly on well-formed UTF-8
/// (its documentation), which vstd's `valid_utf8` defines.
#[verifier::external_body]
pub(crate) fn is_utf8(bytes: &[u8]) -> (r: bool)
    ensures
        r == vstd::utf8::valid_utf8(bytes@),
{
    std::str::from_utf8(bytes).is_ok()
}

} // verus!
