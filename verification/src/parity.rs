//! Decodes a bit-packed stream in which every source byte carries seven
//! payload bits (bits 7..1) and one parity bit (bit 0). A byte whose payload
//! population count does not match its parity bit is discarded; the payload
//! bits of the survivors are concatenated MSB-first and repacked into whole
//! output bytes.

use vstd::prelude::*;
use crate::Error;

verus! {

/// Population count of the seven payload bits of `b` (bit 0 excluded).
pub open spec fn payload_ones(b: u8) -> int {
    ((b >> 1) & 1) + ((b >> 2) & 1) + ((b >> 3) & 1) + ((b >> 4) & 1)
        + ((b >> 5) & 1) + ((b >> 6) & 1) + ((b >> 7) & 1)
}

/// A byte survives when the parity of its payload bits equals its stored
/// parity flag (bit 0).
pub open spec fn parity_keep(b: u8) -> bool {
    payload_ones(b) % 2 == (b & 1) as int
}

/// One step of the repacking fold: `out` is the output so far and `written`
/// the number of surviving bytes already packed. A survivor's seven payload
/// bits start `written * 7 % 8` bits into the stream, so they either open a
/// fresh output byte or are split across the current byte and a new one.
pub open spec fn parity_step(out: Seq<u8>, written: nat, b: u8) -> (Seq<u8>, nat) {
    if !parity_keep(b) {
        (out, written)
    } else {
        let m = (b & 0xfe) as u8;
        let idx = (written % 8) as u8;
        if idx == 0 {
            (out.push(m), written + 1)
        } else {
            let merged = out.update(out.len() - 1, (out.last() | (m >> ((8 - idx) as u8))) as u8);
            if idx < 7 {
                (merged.push((m << idx) as u8), written + 1)
            } else {
                (merged, written + 1)
            }
        }
    }
}

/// The fold over a whole input stream, starting from an empty output.
pub open spec fn parity_run(input: Seq<u8>) -> (Seq<u8>, nat)
    decreases input.len(),
{
    if input.len() == 0 {
        (Seq::empty(), 0)
    } else {
        let prev = parity_run(input.drop_last());
        parity_step(prev.0, prev.1, input.last())
    }
}

/// The decoded output bytes for a given input stream.
pub open spec fn parity_out(input: Seq<u8>) -> Seq<u8> {
    parity_run(input).0
}

/// How many input bytes survive the parity check.
pub open spec fn parity_survivors(input: Seq<u8>) -> nat {
    parity_run(input).1
}

/// Validates the parity bit of every input byte, discards the failures, and
/// repacks the survivors' payload bits contiguously. Total: never fails.
pub fn checksum(input: Vec<u8>) -> (r: Result<Vec<u8>, Error>)
    ensures
        r matches Ok(out) && out@ == parity_out(input@),
{
    let mut result: Vec<u8> = Vec::new();
    let mut written: usize = 0;
    let mut i: usize = 0;
    while i < input.len()
        invariant
            i <= input.len(),
            written <= i,
            written % 8 != 0 ==> result@.len() > 0,
            (result@, written as nat) == parity_run(input@.take(i as int)),
        decreases input.len() - i,
    {
        let byte = input[i];
        let masked = byte & 0xfe;
        proof {
            assert((masked >> 1) & 1 <= 1 && (masked >> 2) & 1 <= 1 && (masked >> 3) & 1 <= 1
                && (masked >> 4) & 1 <= 1 && (masked >> 5) & 1 <= 1 && (masked >> 6) & 1 <= 1
                && (masked >> 7) & 1 <= 1) by (bit_vector);
            assert(payload_ones(byte) == payload_ones(masked)) by (bit_vector)
                requires masked == byte & 0xfe;
            assert(input@.take(i + 1).drop_last() == input@.take(i as int));
            assert(input@.take(i + 1).last() == input@[i as int]);
        }
        let num_ones = ((masked >> 1) & 1) + ((masked >> 2) & 1) + ((masked >> 3) & 1)
            + ((masked >> 4) & 1) + ((masked >> 5) & 1) + ((masked >> 6) & 1)
            + ((masked >> 7) & 1);
        if num_ones % 2 == byte & 1 {
            let index = (written % 8) as u8;
            if index == 0 {
                result.push(masked);
            } else {
                let last_idx = result.len() - 1;
                let updated = result[last_idx] | (masked >> (8 - index));
                result.set(last_idx, updated);
                if index < 7 {
                    result.push(masked << index);
                }
            }
            written += 1;
        }
        i += 1;
    }
    proof {
        assert(input@.take(input.len() as int) == input@);
    }
    Ok(result)
}

/// The output always packs exactly seven bits per survivor into the least
/// number of whole bytes: `8 * |out|` lies within eight of `7 * survivors`,
/// which pins `|out|` to the rounded-up bit count.
pub proof fn lemma_parity_packing(input: Seq<u8>)
    ensures
        parity_survivors(input) <= input.len(),
        parity_survivors(input) % 8 != 0 ==> parity_out(input).len() > 0,
        7 * parity_survivors(input) <= 8 * parity_out(input).len(),
        8 * parity_out(input).len() < 7 * parity_survivors(input) + 8,
    decreases input.len(),
{
    if input.len() > 0 {
        lemma_parity_packing(input.drop_last());
        let prev = parity_run(input.drop_last());
        let w = prev.1;
        let len = prev.0.len();
        if parity_keep(input.last()) {
            if w % 8 == 0 {
                assert(8 * len < 7 * w + 8 && 7 * w <= 8 * len ==> len * 8 <= 7 * w + 7);
            } else if w % 8 < 7 {
                // a packed length of exactly (7w + 7) / 8 bytes would force
                // the next survivor to land on a byte boundary
                assert(8 * len != 7 * w + 7) by {
                    if 8 * len == 7 * w + 7 {
                        assert((7 * w + 7) % 8 == 0);
                        assert((7 * (w + 8)) % 8 == (7 * w) % 8) by (nonlinear_arith);
                        assert((w + 1) % 8 != 0);
                        assert((7 * (w + 1)) % 8 != 0) by (nonlinear_arith)
                            requires (w + 1) % 8 != 0;
                    }
                };
            } else {
                assert(8 * len >= 7 * w + 7);
            }
        }
    }
}

/// Every byte of an all-valid stream survives the parity check, and the
/// output holds their concatenated payload bits — seven per byte — packed
/// into the least number of whole output bytes.
pub proof fn lemma_parity_all_valid(input: Seq<u8>)
    requires
        forall|k: int| 0 <= k < input.len() ==> parity_keep(#[trigger] input[k]),
    ensures
        parity_survivors(input) == input.len(),
        7 * input.len() <= 8 * parity_out(input).len(),
        8 * parity_out(input).len() < 7 * input.len() + 8,
    decreases input.len(),
{
    lemma_parity_packing(input);
    if input.len() > 0 {
        assert(input.last() == input[input.len() - 1]);
        lemma_parity_all_valid(input.drop_last());
    }
}

} // verus!
