//! Pass-through writer: appends literal bytes to the output stream exactly
//! as given, preserving order and every byte value.

use vstd::prelude::*;

verus! {

use crate::emit;

/// Append every byte of the buffer to the output stream in order, then
/// leave the buffer empty.
pub fn emit_buffer(out: &mut Vec<u8>, buffer: &mut Vec<u8>)
    ensures
        final(out)@ == old(out)@ + old(buffer)@,
        final(buffer)@.len() == 0,
{
    let ghost start: Seq<u8> = out@;
    let mut i: usize = 0;
    while i < buffer.len()
        invariant
            buffer@ == old(buffer)@,
            0 <= i <= buffer@.len(),
            out@ == start + buffer@.take(i as int),
        decreases buffer@.len() - i,
    {
        let d: u8 = buffer[i];
        emit(out, d);
        proof {
            assert(buffer@.take(i + 1) =~= buffer@.take(i as int).push(buffer@[i as int]));
            assert(out@ =~= start + buffer@.take(i + 1));
        }
        i += 1;
    }
    proof {
        assert(buffer@.take(buffer@.len() as int) =~= buffer@);
    }
    buffer.clear();
}

} // verus!
