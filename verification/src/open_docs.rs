//! Files that are handed to a running instance by the system.

use vstd::prelude::*;

verus! {

/// The four-character code made of four bytes, the first one most significant.
pub fn fourcc(s: &[u8; 4]) -> (r: u32)
    ensures
        r == s@[0] * 0x100_0000 + s@[1] * 0x1_0000 + s@[2] * 0x100 + s@[3],
{
    s[0] as u32 * 0x100_0000 + s[1] as u32 * 0x1_0000 + s[2] as u32 * 0x100 + s[3] as u32
}

/// Files opened since the last call.
pub fn drain(opened: &mut Vec<String>) -> (r: Vec<String>)
    ensures
        r@ == old(opened)@,
        final(opened)@.len() == 0,
{
    let mut taken: Vec<String> = Vec::new();
    std::mem::swap(opened, &mut taken);
    taken
}

} // verus!
