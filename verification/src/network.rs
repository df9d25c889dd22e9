//! Link-layer extraction: walks a concatenation of IPv4 datagrams carrying
//! UDP, validates the header and payload checksums and a fixed
//! source/destination/port tuple, and concatenates the accepted UDP payload
//! bodies with their 8-byte UDP headers stripped.

use vstd::prelude::*;
use crate::Error;

verus! {

pub const DESTINATION_PORT: u16 = 42069;

/// The fixed accepted source address, 10.1.1.10.
pub open spec fn spec_source() -> Seq<u8> {
    seq![10u8, 1u8, 1u8, 10u8]
}

/// The fixed accepted destination address, 10.1.1.200.
pub open spec fn spec_destination() -> Seq<u8> {
    seq![10u8, 1u8, 1u8, 200u8]
}

/// A big-endian 16-bit word.
pub open spec fn word(hi: u8, lo: u8) -> int {
    hi * 256 + lo
}

/// Plain wrapping 16-bit addition.
pub open spec fn add16(a: int, b: int) -> int {
    if a + b > 0xffff {
        a + b - 0x10000
    } else {
        a + b
    }
}

/// Wrapping 16-bit addition with the end-around-carry step: when the sum
/// wrapped (it came out below the old accumulator), one extra is added.
pub open spec fn add16c(a: int, b: int) -> int {
    let t = add16(a, b);
    if t < a {
        t + 1
    } else {
        t
    }
}

/// IPv4 header length in bytes, from the low nibble of the first byte.
pub open spec fn ihl(r: Seq<u8>) -> int {
    (r[0] & 0x0f) * 4
}

/// Total datagram length from bytes 2 and 3.
pub open spec fn total_len(r: Seq<u8>) -> int {
    word(r[2], r[3])
}

/// The bounds a datagram at the head of `r` must satisfy for the walk to
/// read it and advance; anything else is a fatal truncation.
pub open spec fn dgram_ok(r: Seq<u8>) -> bool {
    &&& r.len() >= 20
    &&& total_len(r) > 0
    &&& ihl(r) + 4 <= r.len()
    &&& total_len(r) >= ihl(r)
    &&& total_len(r) <= r.len()
}

/// One's-complement-style sum of the first `w` header words, with
/// end-around carry.
pub open spec fn ip_sum(r: Seq<u8>, w: int) -> int
    decreases w,
{
    if w <= 0 {
        0
    } else {
        add16c(ip_sum(r, w - 1), word(r[2 * (w - 1)], r[2 * (w - 1) + 1]))
    }
}

/// The UDP pseudo-header sum: source and destination addresses, the
/// protocol byte, and the UDP length, added without the carry step.
pub open spec fn udp_pseudo(r: Seq<u8>) -> int {
    add16(
        add16(
            add16(
                add16(add16(add16(0, word(r[12], r[13])), word(r[14], r[15])), word(r[16], r[17])),
                word(r[18], r[19]),
            ),
            r[9] as int,
        ),
        total_len(r) - ihl(r),
    )
}

/// Carry-corrected sum of `w` words of the UDP segment starting at byte
/// `lo`, on top of accumulator `acc`.
pub open spec fn seg_fold(r: Seq<u8>, lo: int, w: int, acc: int) -> int
    decreases w,
{
    if w <= 0 {
        acc
    } else {
        add16c(seg_fold(r, lo, w - 1, acc), word(r[lo + 2 * (w - 1)], r[lo + 2 * (w - 1) + 1]))
    }
}

/// The full UDP checksum accumulator: pseudo-header, segment words, and a
/// trailing odd byte zero-padded on the right.
pub open spec fn udp_sum(r: Seq<u8>) -> int {
    let lo = ihl(r);
    let seglen = total_len(r) - lo;
    let base = seg_fold(r, lo, seglen / 2, udp_pseudo(r));
    if seglen % 2 == 1 {
        add16(base, word(r[lo + seglen - 1], 0))
    } else {
        base
    }
}

/// A datagram contributes its UDP payload only when the fixed tuple matches
/// and both checksums validate (their complements are zero).
pub open spec fn accept(r: Seq<u8>) -> bool {
    &&& r.subrange(12, 16) == spec_source()
    &&& r.subrange(16, 20) == spec_destination()
    &&& word(r[ihl(r) + 2], r[ihl(r) + 3]) == DESTINATION_PORT
    &&& ip_sum(r, ihl(r) / 2) == 0xffff
    &&& udp_sum(r) == 0xffff
}

/// The walk over the datagram concatenation from offset `p`, with the
/// payload bytes accepted so far.
#[verifier::opaque]
pub open spec fn udp_run(s: Seq<u8>, p: int, acc: Seq<u8>) -> Result<Seq<u8>, Error>
    decreases s.len() - p,
    when 0 <= p <= s.len()
{
    if p >= s.len() {
        Ok(acc)
    } else {
        let r = s.skip(p);
        if !dgram_ok(r) {
            Err(Error::TruncatedInput)
        } else if accept(r) {
            if total_len(r) - ihl(r) < 8 {
                Err(Error::TruncatedInput)
            } else {
                udp_run(s, p + total_len(r), acc + r.subrange(ihl(r) + 8, total_len(r)))
            }
        } else {
            udp_run(s, p + total_len(r), acc)
        }
    }
}

/// What the whole transform returns for a given input buffer.
pub open spec fn udp_extract(s: Seq<u8>) -> Result<Seq<u8>, Error> {
    udp_run(s, 0, Seq::empty())
}

/// Unfolding of the walk by one datagram.
pub proof fn lemma_udp_run_step(s: Seq<u8>, p: int, acc: Seq<u8>)
    requires
        0 <= p < s.len(),
    ensures
        udp_run(s, p, acc) == ({
            let r = s.skip(p);
            if !dgram_ok(r) {
                Err::<Seq<u8>, Error>(Error::TruncatedInput)
            } else if accept(r) {
                if total_len(r) - ihl(r) < 8 {
                    Err::<Seq<u8>, Error>(Error::TruncatedInput)
                } else {
                    udp_run(s, p + total_len(r), acc + r.subrange(ihl(r) + 8, total_len(r)))
                }
            } else {
                udp_run(s, p + total_len(r), acc)
            }
        }),
{
    reveal(udp_run);
}

/// The walk past the end of the buffer returns what was collected.
pub proof fn lemma_udp_run_end(s: Seq<u8>, p: int, acc: Seq<u8>)
    requires
        p == s.len(),
    ensures
        udp_run(s, p, acc) == Ok::<Seq<u8>, Error>(acc),
{
    reveal(udp_run);
}

/// Carry-corrected word sum of `input[p + lo ..]` over `seglen / 2` words.
fn segment_sum(input: &Vec<u8>, p: usize, lo: usize, seglen: usize, init: u16) -> (r: u16)
    requires
        p + lo + seglen <= input@.len(),
    ensures
        r as int == seg_fold(input@.skip(p as int), lo as int, seglen as int / 2, init as int),
{
    let n = input.len();
    let mut acc = init;
    let mut w: usize = 0;
    let words = seglen / 2;
    while w < words
        invariant
            n == input@.len(),
            words == seglen as int / 2,
            p + lo + seglen <= input@.len(),
            w <= words,
            acc as int == seg_fold(input@.skip(p as int), lo as int, w as int, init as int),
        decreases words - w,
    {
        proof {
            assert(2 * (words as int) <= seglen);
            assert(2 * (w as int) + 2 <= 2 * (words as int));
            assert(p + lo + 2 * (w as int) + 1 < input@.len());
            assert(input@.skip(p as int)[lo + 2 * (w as int)] == input@[p + lo + 2 * (w as int)]);
            assert(input@.skip(p as int)[lo + 2 * (w as int) + 1] == input@[p + lo + 2 * (
            w as int) + 1]);
        }
        let hi = input[p + lo + 2 * w];
        let lo_b = input[p + lo + 2 * w + 1];
        let word16 = (hi as u16) * 256 + (lo_b as u16);
        let before = acc;
        acc = acc.wrapping_add(word16);
        if before > acc {
            // the addition wrapped silently: restore the lost carry
            acc = acc.wrapping_add(1);
        }
        w += 1;
    }
    acc
}

/// The IPv4 header sum of `input[p ..]` over `ihl_v / 2` words.
fn header_sum(input: &Vec<u8>, p: usize, ihl_v: usize) -> (r: u16)
    requires
        p + ihl_v <= input@.len(),
        ihl_v % 2 == 0,
    ensures
        r as int == ip_sum(input@.skip(p as int), ihl_v as int / 2),
{
    let n = input.len();
    let mut acc: u16 = 0;
    let mut w: usize = 0;
    let words = ihl_v / 2;
    while w < words
        invariant
            n == input@.len(),
            words == ihl_v as int / 2,
            ihl_v % 2 == 0,
            p + ihl_v <= input@.len(),
            w <= words,
            acc as int == ip_sum(input@.skip(p as int), w as int),
        decreases words - w,
    {
        proof {
            assert(2 * (words as int) == ihl_v);
            assert(2 * (w as int) + 2 <= 2 * (words as int));
            assert(p + 2 * (w as int) + 1 < input@.len());
            assert(input@.skip(p as int)[2 * (w as int)] == input@[p + 2 * (w as int)]);
            assert(input@.skip(p as int)[2 * (w as int) + 1] == input@[p + 2 * (w as int) + 1]);
        }
        let hi = input[p + 2 * w];
        let lo_b = input[p + 2 * w + 1];
        let word16 = (hi as u16) * 256 + (lo_b as u16);
        let before = acc;
        acc = acc.wrapping_add(word16);
        if before > acc {
            // the addition wrapped silently: restore the lost carry
            acc = acc.wrapping_add(1);
        }
        w += 1;
    }
    acc
}

/// Appends `input[from .. to]` to `result`.
fn append_range(result: &mut Vec<u8>, input: &Vec<u8>, from: usize, to: usize)
    requires
        from <= to <= old(result)@.len() + input@.len(),
        from <= to <= input@.len(),
    ensures
        final(result)@ == old(result)@ + input@.subrange(from as int, to as int),
{
    let mut q = from;
    while q < to
        invariant
            from <= q <= to <= input@.len(),
            result@ == old(result)@ + input@.subrange(from as int, q as int),
        decreases to - q,
    {
        result.push(input[q]);
        proof {
            assert(input@.subrange(from as int, q + 1) =~= input@.subrange(
                from as int,
                q as int,
            ).push(input@[q as int]));
        }
        q += 1;
    }
}

/// The full UDP checksum accumulator for the datagram at offset `p`.
#[verifier::rlimit(100)]
fn udp_checksum(input: &Vec<u8>, p: usize, ihl_v: usize, total: usize) -> (r: u16)
    requires
        p < input@.len(),
        ihl_v as int == ihl(input@.skip(p as int)),
        total as int == total_len(input@.skip(p as int)),
        dgram_ok(input@.skip(p as int)),
    ensures
        r as int == udp_sum(input@.skip(p as int)),
{
    let ghost rg = input@.skip(p as int);
    let len = input.len();
    proof {
        assert(forall|k: int| 0 <= k < rg.len() ==> rg[k] == input@[p + k]);
        assert(rg.len() == len - p);
        assert(p + 20 <= len && p + total <= len && ihl_v <= total);
    }
    let mut uck: u16 = (input[p + 12] as u16) * 256 + (input[p + 13] as u16);
    uck = uck.wrapping_add((input[p + 14] as u16) * 256 + (input[p + 15] as u16));
    uck = uck.wrapping_add((input[p + 16] as u16) * 256 + (input[p + 17] as u16));
    uck = uck.wrapping_add((input[p + 18] as u16) * 256 + (input[p + 19] as u16));
    uck = uck.wrapping_add(input[p + 9] as u16);
    uck = uck.wrapping_add((total - ihl_v) as u16);
    proof {
        assert(uck as int == udp_pseudo(rg));
    }
    let seglen = total - ihl_v;
    let mut useg = segment_sum(input, p, ihl_v, seglen, uck);
    if seglen % 2 == 1 {
        useg = useg.wrapping_add((input[p + total - 1] as u16) * 256);
    }
    proof {
        assert(useg as int == udp_sum(rg));
    }
    useg
}

/// Reads, validates and (maybe) collects the single datagram at offset
/// `p`, returning how far to advance.
#[verifier::rlimit(100)]
fn step_datagram(input: &Vec<u8>, p: usize, result: &mut Vec<u8>) -> (r: Result<usize, Error>)
    requires
        p < input@.len(),
    ensures
        match r {
            Ok(t) => 0 < t && p + t <= input@.len() && udp_run(input@, p as int, old(result)@)
                == udp_run(input@, p + t, final(result)@),
            Err(e) => udp_run(input@, p as int, old(result)@) == Err::<Seq<u8>, Error>(e)
                && final(result)@ == old(result)@,
        },
{
    let len = input.len();
    let ghost rg = input@.skip(p as int);
    proof {
        lemma_udp_run_step(input@, p as int, result@);
    }
    if len - p < 20 {
        return Err(Error::TruncatedInput);
    }
    let ihl_v = ((input[p] & 0x0f) as usize) * 4;
    let total = (input[p + 2] as usize) * 256 + (input[p + 3] as usize);
    proof {
        assert(rg[0] == input@[p as int] && rg[2] == input@[p + 2] && rg[3] == input@[p + 3]);
        assert(ihl(rg) == ihl_v && total_len(rg) == total);
    }
    if total == 0 || ihl_v + 4 > len - p || total < ihl_v || total > len - p {
        return Err(Error::TruncatedInput);
    }
    proof {
        assert(dgram_ok(rg));
        assert(ihl_v % 2 == 0);
    }
    let ipck = header_sum(input, p, ihl_v);
    let src_ok = input[p + 12] == 10 && input[p + 13] == 1 && input[p + 14] == 1 && input[p
        + 15] == 10;
    let dst_ok = input[p + 16] == 10 && input[p + 17] == 1 && input[p + 18] == 1 && input[p
        + 19] == 200;
    let port = (input[p + ihl_v + 2] as u16) * 256 + (input[p + ihl_v + 3] as u16);
    let seglen = total - ihl_v;
    let useg = udp_checksum(input, p, ihl_v, total);
    proof {
        assert(rg[12] == input@[p + 12] && rg[13] == input@[p + 13] && rg[14] == input@[p + 14]
            && rg[15] == input@[p + 15] && rg[16] == input@[p + 16] && rg[17] == input@[p + 17]
            && rg[18] == input@[p + 18] && rg[19] == input@[p + 19]);
        if src_ok && dst_ok {
            assert(rg.subrange(12, 16) =~= spec_source());
            assert(rg.subrange(16, 20) =~= spec_destination());
        }
        assert(rg[ihl(rg) + 2] == input@[p + ihl_v + 2] && rg[ihl(rg) + 3] == input@[p + ihl_v
            + 3]);
        assert(word(rg[ihl(rg) + 2], rg[ihl(rg) + 3]) == port);
    }
    if src_ok && dst_ok && port == DESTINATION_PORT && ipck == 0xffff && useg == 0xffff {
        proof {
            assert(accept(rg));
        }
        if seglen < 8 {
            return Err(Error::TruncatedInput);
        }
        append_range(result, input, p + ihl_v + 8, p + total);
        proof {
            assert(input@.subrange(p + ihl_v + 8, p + total) =~= rg.subrange(
                ihl(rg) + 8,
                total_len(rg),
            ));
        }
    } else {
        proof {
            assert(!accept(rg));
        }
    }
    Ok(total)
}

/// Walks the datagrams, skipping any that fail validation, and returns the
/// concatenation of the accepted UDP payload bodies.
pub fn udp(input: Vec<u8>) -> (r: Result<Vec<u8>, Error>)
    ensures
        ({
            let sr = udp_extract(input@);
            match r {
                Ok(v) => sr == Ok::<Seq<u8>, Error>(v@),
                Err(e) => sr == Err::<Seq<u8>, Error>(e),
            }
        }),
{
    let mut result: Vec<u8> = Vec::new();
    let len = input.len();
    let mut p: usize = 0;
    while p < len
        invariant
            len == input@.len(),
            p <= len,
            udp_run(input@, 0, Seq::empty()) == udp_run(input@, p as int, result@),
        decreases len - p,
    {
        match step_datagram(&input, p, &mut result) {
            Ok(t) => {
                p += t;
            },
            Err(e) => {
                return Err(e);
            },
        }
    }
    proof {
        lemma_udp_run_end(input@, p as int, result@);
    }
    Ok(result)
}

} // verus!
