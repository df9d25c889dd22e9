//! Repeating-key XOR cryptanalysis: recovers a 32-byte key from ciphertext
//! known to contain one verbatim occurrence of a fixed plaintext marker at
//! an unknown offset, then decrypts the whole buffer with it.

use vstd::prelude::*;
use crate::Error;

verus! {

pub const KEY_LEN: usize = 32;

/// The known plaintext marker, as its UTF-8 (pure ASCII) bytes.
pub open spec fn spec_needle() -> Seq<u8> {
    vstd::utf8::encode_utf8("==[ Payload ]==============================================="@)
}

/// The marker bytes as an executable value.
pub fn needle() -> (r: Vec<u8>)
    ensures
        r@ == spec_needle(),
        r@.len() == 60,
{
    let s = "==[ Payload ]===============================================";
    proof {
        reveal_strlit("==[ Payload ]===============================================");
        assert(vstd::utf8::is_ascii_chars(s@));
        vstd::string::is_ascii_spec_bytes(s);
    }
    s.as_bytes_vec()
}

/// The keystream byte predicted for marker position `j`, candidate marker
/// offset `i`, against the ciphertext chunk starting at `c * 32`.
pub open spec fn xr_pred(s: Seq<u8>, i: int, c: int, j: int) -> u8 {
    (s[i + j] ^ s[c * 32 + (i + j) % 32] ^ spec_needle()[j]) as u8
}

/// Within one chunk, the predictions past the first 32 must repeat the
/// recorded ones at the same key index; `j` bounds how far the check ran.
pub open spec fn xr_chunk_ok_upto(s: Seq<u8>, i: int, c: int, j: int) -> bool {
    forall|t: int| 32 <= t < j ==> #[trigger] xr_pred(s, i, c, t) == xr_pred(s, i, c, t - 32)
}

/// An offset is consistent when every 32-byte-aligned chunk cross-checks it.
pub open spec fn xr_ok_upto(s: Seq<u8>, i: int, c: int) -> bool {
    forall|u: int| 0 <= u < c ==> #[trigger] xr_chunk_ok_upto(s, i, u, 60)
}

pub open spec fn xr_ok(s: Seq<u8>, i: int) -> bool {
    xr_ok_upto(s, i, s.len() as int / 32)
}

/// Spaces among the first `j` predictions of chunk `c`.
pub open spec fn xr_chunk_spaces(s: Seq<u8>, i: int, c: int, j: int) -> int
    decreases j,
{
    if j <= 0 {
        0
    } else {
        xr_chunk_spaces(s, i, c, j - 1) + if xr_pred(s, i, c, j - 1) == 32 {
            1int
        } else {
            0int
        }
    }
}

/// Spaces accumulated over the first `c` whole chunks.
pub open spec fn xr_spaces_upto(s: Seq<u8>, i: int, c: int) -> int
    decreases c,
{
    if c <= 0 {
        0
    } else {
        xr_spaces_upto(s, i, c - 1) + xr_chunk_spaces(s, i, c - 1, 32)
    }
}

pub open spec fn xr_spaces(s: Seq<u8>, i: int) -> int {
    xr_spaces_upto(s, i, s.len() as int / 32)
}

/// The scan over candidate offsets `0 .. n`: the first consistent offset is
/// kept, and a later consistent offset replaces it only with strictly more
/// spaces among its recorded predictions.
pub open spec fn xr_scan(s: Seq<u8>, n: int) -> Option<(int, int)>
    decreases n,
{
    if n <= 0 {
        None
    } else {
        let prev = xr_scan(s, n - 1);
        let i = n - 1;
        if xr_ok(s, i) {
            match prev {
                None => Some((i, xr_spaces(s, i))),
                Some((bi, bs)) => if xr_spaces(s, i) > bs {
                    Some((i, xr_spaces(s, i)))
                } else {
                    prev
                },
            }
        } else {
            prev
        }
    }
}

/// The key recovered at marker offset `i`, built by XOR-ing the first 32
/// ciphertext bytes at the marker against the marker, each landing at key
/// index `(i + t) % 32`.
pub open spec fn xr_key_build(s: Seq<u8>, i: int, t: int) -> Seq<u8>
    decreases t,
{
    if t <= 0 {
        Seq::new(32, |k: int| 0u8)
    } else {
        xr_key_build(s, i, t - 1).update(
            (i + t - 1) % 32,
            (s[i + t - 1] ^ spec_needle()[t - 1]) as u8,
        )
    }
}

pub open spec fn xr_key(s: Seq<u8>, i: int) -> Seq<u8> {
    xr_key_build(s, i, 32)
}

/// What the whole transform returns for a given ciphertext.
pub open spec fn xr_decrypt(s: Seq<u8>) -> Result<Seq<u8>, Error> {
    if s.len() < 60 {
        Err(Error::TruncatedInput)
    } else {
        match xr_scan(s, s.len() - 60 + 1) {
            None => Err(Error::KeyRecoveryFailed),
            Some((bi, bs)) => Ok(Seq::new(s.len(), |n: int| (s[n] ^ xr_key(s, bi)[n % 32]) as u8)),
        }
    }
}

/// Space counts are bounded by how many predictions were examined.
proof fn lemma_chunk_spaces_bound(s: Seq<u8>, i: int, c: int, j: int)
    requires
        j >= 0,
    ensures
        0 <= xr_chunk_spaces(s, i, c, j) <= j,
    decreases j,
{
    if j > 0 {
        lemma_chunk_spaces_bound(s, i, c, j - 1);
    }
}

proof fn lemma_spaces_bound(s: Seq<u8>, i: int, c: int)
    requires
        c >= 0,
    ensures
        0 <= xr_spaces_upto(s, i, c) <= 32 * c,
    decreases c,
{
    if c > 0 {
        lemma_spaces_bound(s, i, c - 1);
        lemma_chunk_spaces_bound(s, i, c - 1, 32);
    }
}

/// A winning offset always lies among the scanned candidates.
proof fn lemma_xr_scan_range(s: Seq<u8>, n: int)
    ensures
        xr_scan(s, n) matches Some((bi, bs)) ==> 0 <= bi < n,
    decreases n,
{
    if n > 0 {
        lemma_xr_scan_range(s, n - 1);
    }
}

/// Recovers the repeating key and decrypts the whole buffer with it.
#[verifier::rlimit(100)]
pub fn decrypt(input: Vec<u8>) -> (r: Result<Vec<u8>, Error>)
    ensures
        ({
            let sr = xr_decrypt(input@);
            match r {
                Ok(v) => sr == Ok::<Seq<u8>, Error>(v@),
                Err(e) => sr == Err::<Seq<u8>, Error>(e),
            }
        }),
{
    let marker = needle();
    if input.len() < marker.len() {
        return Err(Error::TruncatedInput);
    }
    let len = input.len();
    let nchunks = len / KEY_LEN;
    let imax = len - 60;
    let mut best: Option<(usize, usize)> = None;
    let mut i: usize = 0;
    while i <= imax
        invariant
            marker@ == spec_needle(),
            marker@.len() == 60,
            len == input@.len(),
            60 <= len,
            imax == len - 60,
            nchunks == len as int / 32,
            i <= imax + 1,
            match best {
                None => xr_scan(input@, i as int) is None,
                Some((bi, bs)) => xr_scan(input@, i as int) == Some((bi as int, bs as int)),
            },
        decreases imax + 1 - i,
    {
        let mut consistent = true;
        let mut spaces: usize = 0;
        let mut c: usize = 0;
        while c < nchunks && consistent
            invariant
                marker@ == spec_needle(),
                marker@.len() == 60,
                len == input@.len(),
                60 <= len,
                imax == len - 60,
                i <= imax,
                nchunks == len as int / 32,
                c <= nchunks,
                consistent ==> spaces as int == xr_spaces_upto(input@, i as int, c as int),
                consistent ==> xr_ok_upto(input@, i as int, c as int),
                !consistent ==> !xr_ok(input@, i as int),
            decreases nchunks - c,
        {
            let mut predicted: Vec<u8> = Vec::new();
            let mut j: usize = 0;
            while j < 60 && consistent
                invariant
                    marker@ == spec_needle(),
                    marker@.len() == 60,
                    len == input@.len(),
                    60 <= len,
                    imax == len - 60,
                    i <= imax,
                    nchunks == len as int / 32,
                    c < nchunks,
                    j <= 60,
                    predicted@.len() == if j <= 32 {
                        j as int
                    } else {
                        32int
                    },
                    forall|t: int|
                        0 <= t < predicted@.len() ==> predicted@[t] == xr_pred(
                            input@,
                            i as int,
                            c as int,
                            t,
                        ),
                    spaces as int == xr_spaces_upto(input@, i as int, c as int)
                        + xr_chunk_spaces(
                        input@,
                        i as int,
                        c as int,
                        if j <= 32 {
                            j as int
                        } else {
                            32int
                        },
                    ),
                    consistent ==> xr_ok_upto(input@, i as int, c as int) && xr_chunk_ok_upto(
                        input@,
                        i as int,
                        c as int,
                        j as int,
                    ),
                    !consistent ==> !xr_ok(input@, i as int),
                decreases 60 - j,
            {
                proof {
                    assert(32 * (len as int / 32) <= len);
                    lemma_spaces_bound(input@, i as int, c as int);
                    lemma_chunk_spaces_bound(
                        input@,
                        i as int,
                        c as int,
                        if j <= 32 { j as int } else { 32int },
                    );
                }
                let index = i + j;
                let prediction = input[index] ^ input[c * KEY_LEN + index % KEY_LEN]
                    ^ marker[j];
                if predicted.len() < KEY_LEN {
                    if prediction == 32 {
                        spaces += 1;
                    }
                    predicted.push(prediction);
                } else if prediction != predicted[j % KEY_LEN] {
                    // contradiction: this cannot be the marker position
                    consistent = false;
                    proof {
                        assert(j % 32 == j - 32);
                        assert(prediction == xr_pred(input@, i as int, c as int, j as int));
                        assert(predicted@[j - 32] == xr_pred(input@, i as int, c as int, j - 32));
                        assert(!xr_chunk_ok_upto(input@, i as int, c as int, 60));
                        assert(!xr_ok(input@, i as int));
                    }
                }
                j += 1;
            }
            c += 1;
            proof {
                if consistent {
                    assert(forall|u: int|
                        0 <= u < c ==> #[trigger] xr_chunk_ok_upto(input@, i as int, u, 60));
                }
            }
        }
        proof {
            if consistent {
                assert(c == nchunks);
                assert(xr_ok(input@, i as int));
                assert(spaces as int == xr_spaces(input@, i as int));
            }
        }
        if consistent {
            match best {
                None => {
                    best = Some((i, spaces));
                },
                Some((_bi, bs)) => {
                    if spaces > bs {
                        best = Some((i, spaces));
                    }
                },
            }
        }
        i += 1;
    }
    proof {
        lemma_xr_scan_range(input@, (imax + 1) as int);
    }
    match best {
        None => Err(Error::KeyRecoveryFailed),
        Some((bi, _bs)) => {
            let mut key: Vec<u8> = Vec::new();
            let mut z: usize = 0;
            while z < KEY_LEN
                invariant
                    z <= 32,
                    key@ == Seq::new(z as nat, |k: int| 0u8),
                decreases 32 - z,
            {
                key.push(0);
                proof {
                    assert(key@ =~= Seq::new((z + 1) as nat, |k: int| 0u8));
                }
                z += 1;
            }
            proof {
                assert(key@ =~= xr_key_build(input@, bi as int, 0));
            }
            let mut t: usize = 0;
            while t < KEY_LEN
                invariant
                    marker@ == spec_needle(),
                    marker@.len() == 60,
                    len == input@.len(),
                    60 <= len,
                    bi + 60 <= len,
                    t <= 32,
                    key@.len() == 32,
                    key@ == xr_key_build(input@, bi as int, t as int),
                decreases 32 - t,
            {
                let v = input[bi + t] ^ marker[t];
                key.set((bi + t) % KEY_LEN, v);
                t += 1;
            }
            let mut result: Vec<u8> = Vec::new();
            let mut n: usize = 0;
            while n < len
                invariant
                    len == input@.len(),
                    key@ == xr_key(input@, bi as int),
                    key@.len() == 32,
                    n <= len,
                    result@.len() == n,
                    forall|m: int|
                        0 <= m < n ==> result@[m] == (input@[m] ^ xr_key(input@, bi as int)[m
                            % 32]) as u8,
                decreases len - n,
            {
                result.push(input[n] ^ key[n % KEY_LEN]);
                n += 1;
            }
            proof {
                assert(result@ =~= Seq::new(
                    input@.len(),
                    |m: int| (input@[m] ^ xr_key(input@, bi as int)[m % 32]) as u8,
                ));
            }
            Ok(result)
        },
    }
}

} // verus!
