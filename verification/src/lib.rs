//! A streaming text filter that finds Unix-epoch timestamps embedded in a
//! byte stream as decimal digit runs and rewrites each one in place as a
//! human-readable UTC calendar timestamp, passing every other byte through
//! unchanged and in order.

use vstd::prelude::*;

pub mod codec;
pub mod scanner;
pub mod writer;

verus! {

/// A byte is an ASCII decimal digit.
pub open spec fn is_digit(b: u8) -> bool {
    48 <= b <= 57
}

/// Every byte of the sequence is an ASCII decimal digit.
pub open spec fn all_digits(s: Seq<u8>) -> bool {
    forall|i: int| 0 <= i < s.len() ==> is_digit(#[trigger] s[i])
}

/// Append one byte to the output stream.
pub fn emit(out: &mut Vec<u8>, ch: u8)
    ensures
        final(out)@ == old(out)@.push(ch),
{
    out.push(ch);
}

} // verus!
