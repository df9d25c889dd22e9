//! ASCII-85 envelope codec. The encoded form is a `<~` ... `~>` delimited
//! region of base-85 digits drawn from `'!'..='u'`; decoding skips
//! whitespace, expands the `z` shortcut to four zero bytes, and accepts a
//! trailing partial group of two to four digits.

use vstd::prelude::*;
use vstd::arithmetic::div_mod::lemma_add_mod_noop;
use vstd::string::StringExecFns;
use vstd::utf8::encode_utf8;
use crate::find::{find_pair, lemma_find_pair_at, lemma_find_pair_none};
use crate::Error;

verus! {

pub const RADIX: u32 = 85;

pub const START_CHAR: u8 = 33;

pub const END_CHAR: u8 = 117;

pub const ZERO_CHAR: u8 = 122;

/// Whitespace bytes that decoding ignores inside the payload region.
pub open spec fn a85_whitespace(b: u8) -> bool {
    b == 32 || b == 9 || b == 10 || b == 12 || b == 13
}

/// Payload alphabet: `'!'` (digit 0) through `'u'` (digit 84).
pub open spec fn a85_digit(b: u8) -> bool {
    33 <= b <= 117
}

/// One digit folded into a group's running 32-bit value.
pub open spec fn a85_acc(value: int, d: int) -> int {
    (value * 85 + d) % 0x1_0000_0000
}

/// The four big-endian bytes of a 32-bit group value.
pub open spec fn be32(v: int) -> Seq<u8> {
    seq![
        (v / 0x1000000 % 256) as u8,
        (v / 0x10000 % 256) as u8,
        (v / 0x100 % 256) as u8,
        (v % 256) as u8,
    ]
}

/// Decoding state: digits accumulated in the current group, the group's
/// running value, and the output emitted so far.
pub open spec fn a85_step(st: (int, int, Seq<u8>), b: u8) -> Result<(int, int, Seq<u8>), Error> {
    if a85_whitespace(b) {
        Ok(st)
    } else if b == ZERO_CHAR {
        if st.0 == 0 {
            Ok((0, 0, st.2 + seq![0u8, 0u8, 0u8, 0u8]))
        } else {
            Err(Error::MisalignedShortcut)
        }
    } else if a85_digit(b) {
        if st.0 == 4 {
            Ok((0, 0, st.2 + be32(a85_acc(st.1, b - 33))))
        } else {
            Ok((st.0 + 1, a85_acc(st.1, b - 33), st.2))
        }
    } else {
        Err(Error::InvalidCodecCharacter)
    }
}

/// The decoding fold over the payload bytes between the delimiters.
#[verifier::opaque]
pub open spec fn a85_fold(payload: Seq<u8>, st: (int, int, Seq<u8>)) -> Result<
    (int, int, Seq<u8>),
    Error,
>
    decreases payload.len(),
{
    if payload.len() == 0 {
        Ok(st)
    } else {
        match a85_step(st, payload[0]) {
            Ok(st2) => a85_fold(payload.skip(1), st2),
            Err(e) => Err(e),
        }
    }
}

/// Pads a partial group's value with `k` maximum digits.
pub open spec fn a85_pad(value: int, k: int) -> int
    decreases k,
{
    if k <= 0 {
        value
    } else {
        a85_pad(a85_acc(value, 84), k - 1)
    }
}

/// The leftover partial group at the end of the payload: empty is fine, a
/// single digit cannot carry a byte, and two to four digits are padded with
/// maximum digits and yield one byte fewer than their digit count.
pub open spec fn a85_finish(st: (int, int, Seq<u8>)) -> Result<Seq<u8>, Error> {
    if st.0 == 0 {
        Ok(st.2)
    } else if st.0 == 1 {
        Err(Error::TruncatedInput)
    } else {
        Ok(st.2 + be32(a85_pad(st.1, 5 - st.0)).take(st.0 - 1))
    }
}

/// Decoding of a delimiter-free payload region.
pub open spec fn a85_decode_payload(payload: Seq<u8>) -> Result<Seq<u8>, Error> {
    match a85_fold(payload, (0, 0, Seq::empty())) {
        Ok(st) => a85_finish(st),
        Err(e) => Err(e),
    }
}

/// Decoding of a whole envelope text, given as its UTF-8 bytes: everything
/// before the first `<~` and after the next `~>` is ignored.
pub open spec fn a85_decode(text: Seq<u8>) -> Result<Seq<u8>, Error> {
    match find_pair(text, 60u8, 126u8) {
        None => Err(Error::MalformedEnvelope),
        Some(s) => {
            let rest = text.skip(s + 2);
            match find_pair(rest, 126u8, 62u8) {
                None => Err(Error::MalformedEnvelope),
                Some(e) => a85_decode_payload(rest.take(e)),
            }
        },
    }
}

/// The character for base-85 digit `d`.
pub open spec fn a85_digit_char(d: int) -> char {
    ((d + 33) as u8) as char
}

/// A 32-bit value read from four big-endian bytes.
pub open spec fn be32_val(b0: u8, b1: u8, b2: u8, b3: u8) -> int {
    0x1000000 * b0 + 0x10000 * b1 + 0x100 * b2 + b3
}

/// The five digit characters of one group, most significant first.
pub open spec fn a85_group(v: int) -> Seq<char> {
    seq![
        a85_digit_char(v / 52200625 % 85),
        a85_digit_char(v / 614125 % 85),
        a85_digit_char(v / 7225 % 85),
        a85_digit_char(v / 85 % 85),
        a85_digit_char(v % 85),
    ]
}

/// The encoded digit stream: four bytes per full group, and a trailing
/// partial chunk zero-padded and truncated to one more character than its
/// byte count.
#[verifier::opaque]
pub open spec fn a85_encode_payload(b: Seq<u8>) -> Seq<char>
    decreases b.len(),
{
    if b.len() == 0 {
        Seq::empty()
    } else if b.len() == 1 {
        a85_group(be32_val(b[0], 0, 0, 0)).take(2)
    } else if b.len() == 2 {
        a85_group(be32_val(b[0], b[1], 0, 0)).take(3)
    } else if b.len() == 3 {
        a85_group(be32_val(b[0], b[1], b[2], 0)).take(4)
    } else {
        a85_group(be32_val(b[0], b[1], b[2], b[3])) + a85_encode_payload(b.skip(4))
    }
}

/// A whole encoded envelope: the digit stream wrapped in delimiters.
pub open spec fn a85_encode(b: Seq<u8>) -> Seq<char> {
    seq!['<', '~'] + a85_encode_payload(b) + seq!['~', '>']
}

/// A partial base-85 group: how many digits it holds and their running
/// 32-bit value.
pub struct CharGroup {
    index: usize,
    value: u32,
}

impl CharGroup {
    /// Number of digits accumulated so far (0 through 4).
    pub closed spec fn digit_count(self) -> int {
        self.index as int
    }

    /// The running group value.
    pub closed spec fn acc_value(self) -> int {
        self.value as int
    }

    pub open spec fn wf(self) -> bool {
        0 <= self.digit_count() <= 4
    }

    pub fn new() -> (r: CharGroup)
        ensures
            r.wf(),
            r.digit_count() == 0,
            r.acc_value() == 0,
    {
        CharGroup { index: 0, value: 0 }
    }

    pub fn is_empty(&self) -> (r: bool)
        ensures
            r == (self.digit_count() == 0),
    {
        self.index == 0
    }

    /// Folds one more digit character into the group; a fifth digit
    /// completes the group and emits its four big-endian bytes.
    pub fn accumulate(&mut self, byte: u8) -> (r: Option<[u8; 4]>)
        requires
            old(self).wf(),
            33 <= byte <= 117,
        ensures
            final(self).wf(),
            ({
                let v2 = a85_acc(old(self).acc_value(), byte - 33);
                if old(self).digit_count() == 4 {
                    &&& r matches Some(data) && data@ == be32(v2)
                    &&& final(self).digit_count() == 0
                    &&& final(self).acc_value() == 0
                } else {
                    &&& r is None
                    &&& final(self).digit_count() == old(self).digit_count() + 1
                    &&& final(self).acc_value() == v2
                }
            }),
    {
        proof {
            lemma_add_mod_noop(
                old(self).acc_value() * 85,
                (byte - 33) as int,
                0x1_0000_0000,
            );
        }
        self.value = self.value.wrapping_mul(RADIX).wrapping_add((byte - 33) as u32);
        if self.index == 4 {
            let v = self.value;
            proof {
                assert((v >> 24) as u8 == (v / 0x1000000 % 256) as u8 && (v >> 16) as u8 == (v
                    / 0x10000 % 256) as u8 && (v >> 8) as u8 == (v / 0x100 % 256) as u8 && v as u8
                    == (v % 256) as u8) by (bit_vector);
            }
            let data = [
                #[verifier::truncate] ((v >> 24) as u8),
                #[verifier::truncate] ((v >> 16) as u8),
                #[verifier::truncate] ((v >> 8) as u8),
                #[verifier::truncate] (v as u8),
            ];
            self.index = 0;
            self.value = 0;
            proof {
                assert(data@ =~= be32(v as int));
            }
            Some(data)
        } else {
            self.index += 1;
            None
        }
    }
}

/// First adjacent occurrence of the byte pair `(a, b)` in a slice.
fn find_pair_u8(s: &[u8], a: u8, b: u8) -> (r: Option<usize>)
    ensures
        match r {
            Some(i) => find_pair(s@, a, b) == Some(i as int) && i + 2 <= s@.len() && s@[i as int]
                == a && s@[i as int + 1] == b,
            None => find_pair(s@, a, b) is None,
        },
{
    let mut j: usize = 0;
    while s.len() >= 1 && j < s.len() - 1
        invariant
            j <= s.len(),
            forall|k: int| 0 <= k < j ==> !(#[trigger] s@[k] == a && s@[k + 1] == b),
        decreases s.len() - j,
    {
        if s[j] == a && s[j + 1] == b {
            proof {
                lemma_find_pair_at(s@, a, b, j as int);
            }
            return Some(j);
        }
        j += 1;
    }
    proof {
        lemma_find_pair_none(s@, a, b);
    }
    None
}

/// Relies on String::push: appends exactly one character.
#[verifier::external_body]
fn push_char(s: &mut String, c: char)
    ensures
        final(s)@ == old(s)@.push(c),
{
    s.push(c);
}

/// Unfolding of the decoding fold by one payload byte.
pub proof fn lemma_fold_step(payload: Seq<u8>, j: int, st: (int, int, Seq<u8>))
    requires
        0 <= j < payload.len(),
    ensures
        a85_fold(payload.skip(j), st) == (match a85_step(st, payload[j]) {
            Ok(st2) => a85_fold(payload.skip(j + 1), st2),
            Err(e) => Err(e),
        }),
{
    reveal(a85_fold);
    assert(payload.skip(j)[0] == payload[j]);
    assert(payload.skip(j).skip(1) =~= payload.skip(j + 1));
}

/// The decoding fold of an empty payload leaves the state unchanged.
pub proof fn lemma_fold_nil(st: (int, int, Seq<u8>))
    ensures
        a85_fold(Seq::empty(), st) == Ok::<(int, int, Seq<u8>), Error>(st),
{
    reveal(a85_fold);
}

/// Decodes a delimiter-free payload region.
#[verifier::rlimit(60)]
fn decode_payload(payload: &[u8]) -> (r: Result<Vec<u8>, Error>)
    ensures
        ({
            let sr = a85_decode_payload(payload@);
            match r {
                Ok(v) => sr == Ok::<Seq<u8>, Error>(v@),
                Err(e) => sr == Err::<Seq<u8>, Error>(e),
            }
        }),
{
    let mut group = CharGroup::new();
    let mut ndigits: usize = 0;
    let mut output: Vec<u8> = Vec::new();
    let mut j: usize = 0;
    proof {
        assert(payload@.skip(0) =~= payload@);
        assert(payload@.skip(0) == payload@);
    }
    while j < payload.len()
        invariant
            j <= payload.len(),
            group.wf(),
            ndigits as int == group.digit_count(),
            group.digit_count() == 0 ==> group.acc_value() == 0,
            a85_fold(payload@, (0, 0, Seq::<u8>::empty())) == a85_fold(
                payload@.skip(j as int),
                (group.digit_count(), group.acc_value(), output@),
            ),
        decreases payload.len() - j,
    {
        let ghost st_pre = (group.digit_count(), group.acc_value(), output@);
        proof {
            lemma_fold_step(payload@, j as int, st_pre);
        }
        let b = *vstd::slice::slice_index_get(payload, j);
        if b == ZERO_CHAR {
            if group.is_empty() {
                output.push(0);
                output.push(0);
                output.push(0);
                output.push(0);
                proof {
                    assert(output@ =~= st_pre.2 + seq![0u8, 0u8, 0u8, 0u8]);
                }
            } else {
                return Err(Error::MisalignedShortcut);
            }
        } else if START_CHAR <= b && b <= END_CHAR {
            match group.accumulate(b) {
                Some(data) => {
                    output.push(data[0]);
                    output.push(data[1]);
                    output.push(data[2]);
                    output.push(data[3]);
                    ndigits = 0;
                    proof {
                        assert(output@ =~= st_pre.2 + be32(a85_acc(st_pre.1, b - 33)));
                    }
                },
                None => {
                    ndigits = ndigits + 1;
                },
            }
        } else if b == 32 || b == 9 || b == 10 || b == 12 || b == 13 {
            // whitespace is ignored
        } else {
            return Err(Error::InvalidCodecCharacter);
        }
        j += 1;
    }
    proof {
        assert(payload@.skip(payload@.len() as int) =~= Seq::<u8>::empty());
        lemma_fold_nil((group.digit_count(), group.acc_value(), output@));
    }

    if ndigits > 0 {
        if ndigits == 1 {
            return Err(Error::TruncatedInput);
        }
        let ghost d0 = group.digit_count();
        let ghost v0 = group.acc_value();
        // pad the partial group with maximum digits until it completes
        let mut data_opt = group.accumulate(END_CHAR);
        if data_opt.is_none() {
            data_opt = group.accumulate(END_CHAR);
        }
        if data_opt.is_none() {
            data_opt = group.accumulate(END_CHAR);
        }
        proof {
            reveal_with_fuel(a85_pad, 5);
        }
        let data = match data_opt {
            Some(d) => d,
            None => {
                proof {
                    assert(false);
                }
                return Err(Error::TruncatedInput);
            },
        };
        let keep = ndigits - 1;
        let mut t: usize = 0;
        let ghost out0 = output@;
        let ghost padded = be32(a85_pad(v0, 5 - d0));
        while t < keep
            invariant
                t <= keep,
                keep == d0 - 1,
                2 <= d0 <= 4,
                data@ == padded,
                output@ == out0 + padded.take(t as int),
            decreases keep - t,
        {
            output.push(*vstd::slice::slice_index_get(data.as_slice(), t));
            proof {
                assert(padded.take(t + 1) =~= padded.take(t as int).push(padded[t as int]));
            }
            t += 1;
        }
        proof {
            assert(output@ =~= out0 + be32(a85_pad(v0, 5 - d0)).take(d0 - 1));
        }
    }
    Ok(output)
}

/// Decodes the first `<~` ... `~>` region of `input` to its raw bytes.
pub fn decode(input: &str) -> (r: Result<Vec<u8>, Error>)
    ensures
        ({
            let sr = a85_decode(encode_utf8(input@));
            match r {
                Ok(v) => sr == Ok::<Seq<u8>, Error>(v@),
                Err(e) => sr == Err::<Seq<u8>, Error>(e),
            }
        }),
{
    let bytes: &[u8] = input.as_bytes();
    let n = bytes.len();
    let start = match find_pair_u8(bytes, 60, 126) {
        Some(s) => s,
        None => {
            return Err(Error::MalformedEnvelope);
        },
    };
    let rest = vstd::slice::slice_subrange(bytes, start + 2, n);
    proof {
        assert(rest@ =~= encode_utf8(input@).skip(start + 2));
    }
    let end = match find_pair_u8(rest, 126, 62) {
        Some(e) => e,
        None => {
            return Err(Error::MalformedEnvelope);
        },
    };
    let payload = vstd::slice::slice_subrange(rest, 0, end);
    proof {
        assert(payload@ =~= rest@.take(end as int));
    }
    decode_payload(payload)
}

/// Unfolding of the encoded digit stream by one full group.
pub proof fn lemma_encode_payload_step(b: Seq<u8>, i: int)
    requires
        0 <= i,
        i + 4 <= b.len(),
    ensures
        a85_encode_payload(b.skip(i)) == a85_group(
            be32_val(b[i], b[i + 1], b[i + 2], b[i + 3]),
        ) + a85_encode_payload(b.skip(i + 4)),
{
    reveal(a85_encode_payload);
    let tail = b.skip(i);
    assert(tail[0] == b[i] && tail[1] == b[i + 1] && tail[2] == b[i + 2] && tail[3] == b[i + 3]);
    assert(tail.skip(4) =~= b.skip(i + 4));
}

/// The encoded digit stream of fewer than four bytes.
pub proof fn lemma_encode_payload_small(b: Seq<u8>)
    requires
        b.len() < 4,
    ensures
        b.len() == 0 ==> a85_encode_payload(b) == Seq::<char>::empty(),
        b.len() == 1 ==> a85_encode_payload(b) == a85_group(be32_val(b[0], 0, 0, 0)).take(2),
        b.len() == 2 ==> a85_encode_payload(b) == a85_group(be32_val(b[0], b[1], 0, 0)).take(3),
        b.len() == 3 ==> a85_encode_payload(b) == a85_group(be32_val(b[0], b[1], b[2], 0)).take(4),
{
    reveal(a85_encode_payload);
}

/// Appends the first `n` digit characters of one group value.
fn push_group_chars(result: &mut String, value: u32, n: usize)
    requires
        2 <= n <= 5,
    ensures
        final(result)@ == old(result)@ + a85_group(value as int).take(n as int),
{
    let ghost pre = result@;
    push_char(result, (((value / 52200625) % 85) as u8 + 33) as char);
    push_char(result, (((value / 614125) % 85) as u8 + 33) as char);
    if n >= 3 {
        push_char(result, (((value / 7225) % 85) as u8 + 33) as char);
    }
    if n >= 4 {
        push_char(result, (((value / 85) % 85) as u8 + 33) as char);
    }
    if n == 5 {
        push_char(result, ((value % 85) as u8 + 33) as char);
    }
    proof {
        assert(result@ =~= pre + a85_group(value as int).take(n as int));
    }
}

/// Appends the whole encoded digit stream for `input`.
#[verifier::rlimit(100)]
fn encode_payload(input: &[u8], result: &mut String)
    ensures
        final(result)@ == old(result)@ + a85_encode_payload(input@),
{
    let ghost base = result@;
    let mut i: usize = 0;
    proof {
        assert(input@.skip(0) =~= input@);
        assert(input@.skip(0) == input@);
    }
    while input.len() >= 4 && i <= input.len() - 4
        invariant
            i <= input.len(),
            result@ + a85_encode_payload(input@.skip(i as int)) == base + a85_encode_payload(
                input@,
            ),
        decreases input.len() - i,
    {
        let value = (*vstd::slice::slice_index_get(input, i) as u32) * 0x1000000
            + (*vstd::slice::slice_index_get(input, i + 1) as u32) * 0x10000
            + (*vstd::slice::slice_index_get(input, i + 2) as u32) * 0x100
            + (*vstd::slice::slice_index_get(input, i + 3) as u32);
        let ghost pre = result@;
        push_group_chars(result, value, 5);
        proof {
            lemma_encode_payload_step(input@, i as int);
            assert(a85_group(value as int).take(5) =~= a85_group(value as int));
            assert((pre + a85_group(value as int)) + a85_encode_payload(input@.skip(i + 4)) =~= pre
                + (a85_group(value as int) + a85_encode_payload(input@.skip(i + 4))));
        }
        i += 4;
    }
    let rem = input.len() - i;
    if rem > 0 {
        let b1 = if rem >= 2 {
            *vstd::slice::slice_index_get(input, i + 1) as u32
        } else {
            0
        };
        let b2 = if rem >= 3 {
            *vstd::slice::slice_index_get(input, i + 2) as u32
        } else {
            0
        };
        let value = (*vstd::slice::slice_index_get(input, i) as u32) * 0x1000000 + b1 * 0x10000
            + b2 * 0x100;
        let ghost pre = result@;
        push_group_chars(result, value, rem + 1);
        proof {
            let tail = input@.skip(i as int);
            lemma_encode_payload_small(tail);
            assert(tail[0] == input@[i as int]);
            if rem >= 2 {
                assert(tail[1] == input@[i + 1]);
            }
            if rem >= 3 {
                assert(tail[2] == input@[i + 2]);
            }
            assert(a85_encode_payload(tail) == a85_group(value as int).take(rem + 1));
            assert(result@ == base + a85_encode_payload(input@));
        }
    } else {
        proof {
            assert(input@.skip(i as int) =~= Seq::<u8>::empty());
            lemma_encode_payload_small(input@.skip(i as int));
        }
    }
}

/// Encodes raw bytes as a delimited ASCII-85 envelope. Total: never fails.
pub fn encode(input: &[u8]) -> (r: Result<String, Error>)
    ensures
        r matches Ok(s) && s@ == a85_encode(input@),
{
    let mut result = String::new();
    result.append("<~");
    proof {
        reveal_strlit("<~");
        assert(result@ =~= seq!['<', '~']);
    }
    encode_payload(input, &mut result);
    result.append("~>");
    proof {
        reveal_strlit("~>");
        assert(result@ =~= seq!['<', '~'] + a85_encode_payload(input@) + seq!['~', '>']);
    }
    Ok(result)
}

} // verus!

verus! {

/// The UTF-8 bytes of an all-ASCII text: each character as one byte.
pub open spec fn ascii_bytes(s: Seq<char>) -> Seq<u8> {
    Seq::new(s.len(), |i: int| s[i] as u8)
}

/// Every character of a group is a digit character, `'!'` through `'u'`.
proof fn lemma_group_chars(v: int)
    requires
        0 <= v,
    ensures
        forall|i: int|
            0 <= i < 5 ==> 33 <= (#[trigger] a85_group(v)[i]) as u8 <= 117 && a85_group(v)[i] == ((
            a85_group(v)[i] as u8) as char),
{
    vstd::arithmetic::div_mod::lemma_mod_bound(v / 52200625, 85);
    vstd::arithmetic::div_mod::lemma_mod_bound(v / 614125, 85);
    vstd::arithmetic::div_mod::lemma_mod_bound(v / 7225, 85);
    vstd::arithmetic::div_mod::lemma_mod_bound(v / 85, 85);
    vstd::arithmetic::div_mod::lemma_mod_bound(v, 85);
}

/// Every character the encoder emits between the delimiters is a digit
/// character, `'!'` through `'u'`.
proof fn lemma_payload_ascii(b: Seq<u8>)
    ensures
        forall|i: int|
            0 <= i < a85_encode_payload(b).len() ==> 33 <= (#[trigger] a85_encode_payload(
                b,
            )[i]) as u8 <= 117 && a85_encode_payload(b)[i] == ((a85_encode_payload(b)[i] as u8)
                as char),
    decreases b.len(),
{
    reveal(a85_encode_payload);
    if b.len() == 0 {
    } else if b.len() == 1 {
        lemma_group_chars(be32_val(b[0], 0, 0, 0));
    } else if b.len() == 2 {
        lemma_group_chars(be32_val(b[0], b[1], 0, 0));
    } else if b.len() == 3 {
        lemma_group_chars(be32_val(b[0], b[1], b[2], 0));
    } else {
        lemma_group_chars(be32_val(b[0], b[1], b[2], b[3]));
        lemma_payload_ascii(b.skip(4));
        assert(forall|i: int|
            5 <= i < a85_encode_payload(b).len() ==> a85_encode_payload(b)[i]
                == a85_encode_payload(b.skip(4))[i - 5]);
    }
}

/// A group value's four big-endian bytes, recovered from the value.
proof fn lemma_be32_of_val(b0: u8, b1: u8, b2: u8, b3: u8)
    ensures
        0 <= be32_val(b0, b1, b2, b3) < 0x1_0000_0000,
        be32(be32_val(b0, b1, b2, b3)) =~= seq![b0, b1, b2, b3],
{
    let v = be32_val(b0, b1, b2, b3);
    vstd::arithmetic::div_mod::lemma_fundamental_div_mod_converse(
        v,
        0x1000000,
        b0 as int,
        0x10000 * b1 + 0x100 * b2 + b3,
    );
    vstd::arithmetic::div_mod::lemma_fundamental_div_mod_converse(
        v,
        0x10000,
        0x100 * b0 + b1,
        0x100 * b2 + b3,
    );
    vstd::arithmetic::div_mod::lemma_fundamental_div_mod_converse(
        v,
        0x100,
        0x10000 * b0 + 0x100 * b1 + b2,
        b3 as int,
    );
    vstd::arithmetic::div_mod::lemma_mod_multiples_vanish(b0 as int, b1 as int, 0x100);
    vstd::arithmetic::div_mod::lemma_mod_multiples_vanish(0x100 * b0 + b1, b2 as int, 0x100);
}

/// The accumulator reconstructs the group value digit by digit: after the
/// first `n` digits of `v`'s group it holds `v` shifted down by the
/// remaining digits.
proof fn lemma_digit_chain(v: int)
    requires
        0 <= v < 0x1_0000_0000,
    ensures
        0 <= v / 52200625 < 85,
        a85_acc(0, v / 52200625 % 85) == v / 52200625,
        a85_acc(v / 52200625, v / 614125 % 85) == v / 614125,
        a85_acc(v / 614125, v / 7225 % 85) == v / 7225,
        a85_acc(v / 7225, v / 85 % 85) == v / 85,
        a85_acc(v / 85, v % 85) == v,
{
    vstd::arithmetic::div_mod::lemma_div_denominator(v, 85, 85);
    vstd::arithmetic::div_mod::lemma_div_denominator(v, 7225, 85);
    vstd::arithmetic::div_mod::lemma_div_denominator(v, 614125, 85);
    vstd::arithmetic::div_mod::lemma_fundamental_div_mod(v, 85);
    vstd::arithmetic::div_mod::lemma_fundamental_div_mod(v / 85, 85);
    vstd::arithmetic::div_mod::lemma_fundamental_div_mod(v / 7225, 85);
    vstd::arithmetic::div_mod::lemma_fundamental_div_mod(v / 614125, 85);
    vstd::arithmetic::div_mod::lemma_fundamental_div_mod(v, 52200625);
    assert(v / 614125 / 85 == v / 52200625);
    assert(v / 52200625 < 85) by {
        if v / 52200625 >= 85 {
            assert(v == 52200625 * (v / 52200625) + v % 52200625);
            assert(52200625 * (v / 52200625) >= 52200625 * 85);
        }
    };
}

/// Folding the first `n` digit characters of `v`'s group into an empty
/// group accumulates the top `n` digits of `v`.
proof fn lemma_fold_digits(v: int, out: Seq<u8>, n: int)
    requires
        0 <= v < 0x1_0000_0000,
        1 <= n <= 4,
    ensures
        a85_fold(ascii_bytes(a85_group(v).take(n)), (0, 0, out)) == Ok::<
            (int, int, Seq<u8>),
            Error,
        >(
            (
                n,
                if n == 1 {
                    v / 52200625
                } else if n == 2 {
                    v / 614125
                } else if n == 3 {
                    v / 7225
                } else {
                    v / 85
                },
                out,
            ),
        ),
{
    lemma_digit_chain(v);
    let gb = ascii_bytes(a85_group(v).take(n));
    assert(forall|i: int| 0 <= i < 5 ==> 33 <= (#[trigger] a85_group(v)[i]) as u8 <= 117) by {
        vstd::arithmetic::div_mod::lemma_mod_bound(v / 52200625, 85);
        vstd::arithmetic::div_mod::lemma_mod_bound(v / 614125, 85);
        vstd::arithmetic::div_mod::lemma_mod_bound(v / 7225, 85);
        vstd::arithmetic::div_mod::lemma_mod_bound(v / 85, 85);
        vstd::arithmetic::div_mod::lemma_mod_bound(v, 85);
    };
    let st0: (int, int, Seq<u8>) = (0, 0, out);
    lemma_fold_step(gb, 0, st0);
    assert(gb.skip(0) =~= gb);
    let st1 = (1int, v / 52200625, out);
    if n == 1 {
        lemma_fold_nil(st1);
        assert(gb.skip(1) =~= Seq::<u8>::empty());
    } else {
        lemma_fold_step(gb, 1, st1);
        let st2 = (2int, v / 614125, out);
        if n == 2 {
            lemma_fold_nil(st2);
            assert(gb.skip(2) =~= Seq::<u8>::empty());
        } else {
            lemma_fold_step(gb, 2, st2);
            let st3 = (3int, v / 7225, out);
            if n == 3 {
                lemma_fold_nil(st3);
                assert(gb.skip(3) =~= Seq::<u8>::empty());
            } else {
                lemma_fold_step(gb, 3, st3);
                let st4 = (4int, v / 85, out);
                lemma_fold_nil(st4);
                assert(gb.skip(4) =~= Seq::<u8>::empty());
            }
        }
    }
}

/// Folding all five digit characters of `v`'s group emits exactly `v`'s
/// four big-endian bytes.
proof fn lemma_fold_group(v: int, out: Seq<u8>)
    requires
        0 <= v < 0x1_0000_0000,
    ensures
        a85_fold(ascii_bytes(a85_group(v)), (0, 0, out)) == Ok::<(int, int, Seq<u8>), Error>(
            (0, 0, out + be32(v)),
        ),
{
    lemma_digit_chain(v);
    vstd::arithmetic::div_mod::lemma_mod_bound(v, 85);
    let gb = ascii_bytes(a85_group(v));
    let gb4 = ascii_bytes(a85_group(v).take(4));
    lemma_fold_digits(v, out, 4);
    lemma_fold_append(gb4, ascii_bytes(a85_group(v).skip(4)), (0, 0, out));
    assert(gb =~= gb4 + ascii_bytes(a85_group(v).skip(4)));
    let st4 = (4int, v / 85, out);
    lemma_fold_step(ascii_bytes(a85_group(v).skip(4)), 0, st4);
    assert(ascii_bytes(a85_group(v).skip(4)).skip(0) =~= ascii_bytes(a85_group(v).skip(4)));
    assert(ascii_bytes(a85_group(v).skip(4)).skip(1) =~= Seq::<u8>::empty());
    lemma_fold_nil((0int, 0int, out + be32(v)));
}

/// The fold distributes over concatenation of payload regions.
proof fn lemma_fold_append(x: Seq<u8>, y: Seq<u8>, st: (int, int, Seq<u8>))
    ensures
        a85_fold(x + y, st) == (match a85_fold(x, st) {
            Ok(m) => a85_fold(y, m),
            Err(e) => Err::<(int, int, Seq<u8>), Error>(e),
        }),
    decreases x.len(),
{
    reveal(a85_fold);
    if x.len() == 0 {
        assert(x + y =~= y);
    } else {
        assert((x + y)[0] == x[0]);
        assert((x + y).skip(1) =~= x.skip(1) + y);
        match a85_step(st, x[0]) {
            Ok(st2) => {
                lemma_fold_append(x.skip(1), y, st2);
            },
            Err(_) => {
            },
        }
    }
}

} // verus!

verus! {

/// A trailing chunk of three bytes decodes back to itself.
#[verifier::rlimit(100)]
proof fn lemma_partial_3(b: Seq<u8>, out: Seq<u8>)
    requires
        b.len() == 3,
    ensures
        ({
            let v = be32_val(b[0], b[1], b[2], 0);
            let f = a85_fold(ascii_bytes(a85_group(v).take(4)), (0, 0, out));
            f matches Ok(st) && a85_finish(st) == Ok::<Seq<u8>, Error>(out + b)
        }),
{
    let v = be32_val(b[0], b[1], b[2], 0);
    lemma_be32_of_val(b[0], b[1], b[2], 0);
    lemma_fold_digits(v, out, 4);
    reveal_with_fuel(a85_pad, 5);
    vstd::arithmetic::div_mod::lemma_fundamental_div_mod(v, 85);
    vstd::arithmetic::div_mod::lemma_mod_bound(v, 85);
    // one maximum digit pads the group; the low byte of the padded value
    // stays within the zero byte the encoder dropped
    let a = v / 85;
    let vp = a85_pad(a, 1);
    assert(a * 85 <= v);
    assert(vp == v - v % 85 + 84);
    let q = 0x10000 * b[0] + 0x100 * b[1] + b[2];
    let delta = 84 - v % 85;
    vstd::arithmetic::div_mod::lemma_fundamental_div_mod_converse(vp, 0x100, q, delta);
    vstd::arithmetic::div_mod::lemma_fundamental_div_mod_converse(
        q,
        0x100,
        0x100 * b[0] + b[1],
        b[2] as int,
    );
    vstd::arithmetic::div_mod::lemma_fundamental_div_mod_converse(
        0x100 * b[0] + b[1],
        0x100,
        b[0] as int,
        b[1] as int,
    );
    vstd::arithmetic::div_mod::lemma_div_denominator(vp, 0x100, 0x100);
    vstd::arithmetic::div_mod::lemma_div_denominator(vp, 0x10000, 0x100);
    vstd::arithmetic::div_mod::lemma_mod_multiples_vanish(0x100 * b[0] + b[1], b[2] as int, 0x100);
    vstd::arithmetic::div_mod::lemma_mod_multiples_vanish(b[0] as int, b[1] as int, 0x100);
    assert(be32(vp).take(3) =~= b);
}

/// A trailing chunk of two bytes decodes back to itself.
#[verifier::rlimit(100)]
proof fn lemma_partial_2(b: Seq<u8>, out: Seq<u8>)
    requires
        b.len() == 2,
    ensures
        ({
            let v = be32_val(b[0], b[1], 0, 0);
            let f = a85_fold(ascii_bytes(a85_group(v).take(3)), (0, 0, out));
            f matches Ok(st) && a85_finish(st) == Ok::<Seq<u8>, Error>(out + b)
        }),
{
    let v = be32_val(b[0], b[1], 0, 0);
    lemma_be32_of_val(b[0], b[1], 0, 0);
    lemma_fold_digits(v, out, 3);
    reveal_with_fuel(a85_pad, 5);
    vstd::arithmetic::div_mod::lemma_fundamental_div_mod(v, 7225);
    vstd::arithmetic::div_mod::lemma_mod_bound(v, 7225);
    let a = v / 7225;
    assert(a * 7225 <= v);
    assert(a * 85 <= a * 7225);
    let x1 = a85_acc(a, 84);
    assert(x1 == a * 85 + 84);
    let vp = a85_pad(a, 2);
    assert(vp == a85_acc(x1, 84));
    assert(x1 * 85 + 84 == a * 7225 + 7224);
    assert(vp == v - v % 7225 + 7224);
    let q = 0x100 * b[0] + b[1];
    let delta = 7224 - v % 7225;
    vstd::arithmetic::div_mod::lemma_fundamental_div_mod_converse(vp, 0x10000, q, delta);
    vstd::arithmetic::div_mod::lemma_fundamental_div_mod_converse(
        q,
        0x100,
        b[0] as int,
        b[1] as int,
    );
    vstd::arithmetic::div_mod::lemma_div_denominator(vp, 0x10000, 0x100);
    vstd::arithmetic::div_mod::lemma_mod_multiples_vanish(b[0] as int, b[1] as int, 0x100);
    assert(be32(vp).take(2) =~= b);
}

/// A trailing chunk of one byte decodes back to itself.
#[verifier::rlimit(100)]
proof fn lemma_partial_1(b: Seq<u8>, out: Seq<u8>)
    requires
        b.len() == 1,
    ensures
        ({
            let v = be32_val(b[0], 0, 0, 0);
            let f = a85_fold(ascii_bytes(a85_group(v).take(2)), (0, 0, out));
            f matches Ok(st) && a85_finish(st) == Ok::<Seq<u8>, Error>(out + b)
        }),
{
    let v = be32_val(b[0], 0, 0, 0);
    lemma_be32_of_val(b[0], 0, 0, 0);
    lemma_fold_digits(v, out, 2);
    reveal_with_fuel(a85_pad, 5);
    vstd::arithmetic::div_mod::lemma_fundamental_div_mod(v, 614125);
    vstd::arithmetic::div_mod::lemma_mod_bound(v, 614125);
    let a = v / 614125;
    assert(a * 614125 <= v);
    assert(a * 85 <= a * 614125 && a * 7225 <= a * 614125);
    let x1 = a85_acc(a, 84);
    assert(x1 == a * 85 + 84);
    let x2 = a85_acc(x1, 84);
    assert(x1 * 85 + 84 == a * 7225 + 7224);
    assert(x2 == a * 7225 + 7224);
    let vp = a85_pad(a, 3);
    assert(vp == a85_acc(x2, 84));
    assert(x2 * 85 + 84 == a * 614125 + 614124);
    assert(vp == v - v % 614125 + 614124);
    let delta = 614124 - v % 614125;
    vstd::arithmetic::div_mod::lemma_fundamental_div_mod_converse(
        vp,
        0x1000000,
        b[0] as int,
        delta,
    );
    assert(be32(vp).take(1) =~= b);
}

/// The encoded digit stream of any buffer decodes back to that buffer,
/// whatever was already emitted.
proof fn lemma_payload_round(b: Seq<u8>, out: Seq<u8>)
    ensures
        ({
            let f = a85_fold(ascii_bytes(a85_encode_payload(b)), (0, 0, out));
            f matches Ok(st) && a85_finish(st) == Ok::<Seq<u8>, Error>(out + b)
        }),
    decreases b.len(),
{
    reveal(a85_encode_payload);
    if b.len() == 0 {
        lemma_fold_nil((0int, 0int, out));
        assert(ascii_bytes(a85_encode_payload(b)) =~= Seq::<u8>::empty());
        assert(out + b =~= out);
    } else if b.len() == 1 {
        lemma_partial_1(b, out);
    } else if b.len() == 2 {
        lemma_partial_2(b, out);
    } else if b.len() == 3 {
        lemma_partial_3(b, out);
    } else {
        let v = be32_val(b[0], b[1], b[2], b[3]);
        lemma_be32_of_val(b[0], b[1], b[2], b[3]);
        let gb = ascii_bytes(a85_group(v));
        let restb = ascii_bytes(a85_encode_payload(b.skip(4)));
        assert(ascii_bytes(a85_encode_payload(b)) =~= gb + restb);
        lemma_fold_append(gb, restb, (0, 0, out));
        lemma_fold_group(v, out);
        lemma_payload_round(b.skip(4), out + be32(v));
        assert((out + be32(v)) + b.skip(4) =~= out + b);
    }
}

/// Decoding an encoded envelope, given as its UTF-8 bytes, yields exactly
/// the buffer that was encoded.
pub proof fn lemma_decode_encode_round_trip(b: Seq<u8>)
    ensures
        a85_decode(encode_utf8(a85_encode(b))) == Ok::<Seq<u8>, Error>(b),
{
    lemma_payload_ascii(b);
    let enc = a85_encode(b);
    let pl = a85_encode_payload(b);
    assert(vstd::utf8::is_ascii_chars(enc));
    vstd::utf8::is_ascii_chars_encode_utf8(enc);
    let bytes = encode_utf8(enc);
    assert(bytes =~= ascii_bytes(enc));
    assert(bytes[0] == 60 && bytes[1] == 126);
    let rest = bytes.skip(2);
    assert(rest =~= ascii_bytes(pl) + seq![126u8, 62u8]);
    assert(forall|k: int| 0 <= k < pl.len() ==> (#[trigger] rest[k]) <= 117);
    lemma_find_pair_at(rest, 126u8, 62u8, pl.len() as int);
    assert(find_pair(bytes, 60u8, 126u8) == Some(0int));
    assert(rest.take(pl.len() as int) =~= ascii_bytes(pl));
    lemma_payload_round(b, Seq::empty());
    assert(Seq::<u8>::empty() + b =~= b);
}

} // verus!
