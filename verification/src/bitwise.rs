//! Fixed bitwise transform: XOR every byte with `0b0101_0101`, then rotate
//! its bits right by one position (bit 0 moves into bit 7).

use vstd::prelude::*;
use crate::Error;

verus! {

pub const FLIP_MASK: u8 = 0b01010101;

/// The transform applied to a single byte: flip alternating bits, then
/// rotate right by one.
pub open spec fn flip_rotate_byte(b: u8) -> u8 {
    (((b ^ FLIP_MASK) >> 1) | (((b ^ FLIP_MASK) & 1) << 7)) as u8
}

/// Applies the flip-and-rotate transform to every byte. Total: never fails.
pub fn flip_and_rotate(input: Vec<u8>) -> (r: Result<Vec<u8>, Error>)
    ensures
        r matches Ok(out) && out@ == input@.map_values(|b: u8| flip_rotate_byte(b)),
{
    let mut out: Vec<u8> = Vec::new();
    let mut i: usize = 0;
    while i < input.len()
        invariant
            i <= input.len(),
            out@ == input@.take(i as int).map_values(|b: u8| flip_rotate_byte(b)),
        decreases input.len() - i,
    {
        let flipped = input[i] ^ FLIP_MASK;
        out.push((flipped >> 1) | ((flipped & 1) << 7));
        i += 1;
        proof {
            assert(input@.take(i as int) == input@.take(i - 1).push(input@[i - 1]));
        }
    }
    proof {
        assert(input@.take(input.len() as int) == input@);
    }
    Ok(out)
}

} // verus!
