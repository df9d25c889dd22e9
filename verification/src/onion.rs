//! The driver: holds the current envelope text, and peels one layer at a
//! time by decoding the envelope, applying a caller-supplied transform to
//! the bytes, and storing the result — which must be valid UTF-8 — as the
//! new envelope.

use vstd::prelude::*;
use vstd::string::{StrSliceExecFns, StringExecFns};
use vstd::utf8::{decode_utf8, encode_utf8, valid_utf8};
use crate::ascii85::a85_decode;
use crate::find::{find_pair, lemma_find_pair_at, lemma_find_pair_none};
use crate::Error;

verus! {

/// What `preview` shows: everything up to and including the first `<~`,
/// an ellipsis, then everything from the following `~>` onward. A text
/// without both delimiters is shown verbatim.
pub open spec fn preview_spec(s: Seq<char>) -> Seq<char> {
    match find_pair(s, '<', '~') {
        None => s,
        Some(i) => match find_pair(s.skip(i + 2), '~', '>') {
            None => s,
            Some(e) => s.take(i + 2) + seq!['.', '.', '.'] + s.skip(i + 2 + e),
        },
    }
}

/// Relies on String::from_utf8: succeeds exactly on valid UTF-8 and returns
/// the string of those very bytes.
#[verifier::external_body]
fn bytes_to_string(v: Vec<u8>) -> (r: Option<String>)
    ensures
        r is Some <==> valid_utf8(v@),
        r matches Some(s) ==> s@ == decode_utf8(v@),
{
    String::from_utf8(v).ok()
}

/// First adjacent occurrence of the character pair `(a, b)` in a string.
fn find_pair_str(s: &str, a: char, b: char) -> (r: Option<usize>)
    ensures
        match r {
            Some(i) => find_pair(s@, a, b) == Some(i as int) && i + 2 <= s@.len(),
            None => find_pair(s@, a, b) is None,
        },
{
    let n = s.unicode_len();
    let mut j: usize = 0;
    while n >= 1 && j < n - 1
        invariant
            n == s@.len(),
            j <= n,
            forall|k: int| 0 <= k < j ==> !(#[trigger] s@[k] == a && s@[k + 1] == b),
        decreases n - j,
    {
        if s.get_char(j) == a && s.get_char(j + 1) == b {
            proof {
                lemma_find_pair_at(s@, a, b, j as int);
            }
            return Some(j);
        }
        j += 1;
    }
    proof {
        lemma_find_pair_none(s@, a, b);
    }
    None
}

/// The envelope being peeled.
pub struct Onion {
    data: String,
}

impl Onion {
    /// The current envelope text.
    pub closed spec fn text(self) -> Seq<char> {
        self.data@
    }

    /// Wraps the initial envelope text, as supplied by the caller.
    pub fn new(text: String) -> (r: Onion)
        ensures
            r.text() == text@,
    {
        Onion { data: text }
    }

    /// The preview text: framing text with the payload elided, or the whole
    /// envelope when it no longer carries a delimited payload.
    pub fn preview(&self) -> (r: String)
        ensures
            r@ == preview_spec(self.text()),
    {
        let s = self.data.as_str();
        let n = s.unicode_len();
        match find_pair_str(s, '<', '~') {
            None => String::from_str(s),
            Some(start) => {
                let rest = s.substring_char(start + 2, n);
                proof {
                    assert(rest@ =~= s@.skip(start + 2));
                }
                match find_pair_str(rest, '~', '>') {
                    None => String::from_str(s),
                    Some(e) => {
                        let head = s.substring_char(0, start + 2);
                        let tail = s.substring_char(start + 2 + e, n);
                        let mut out = String::from_str(head);
                        out.append("...");
                        out.append(tail);
                        proof {
                            reveal_strlit("...");
                            assert(head@ =~= s@.take(start + 2));
                            assert(tail@ =~= s@.skip(start + 2 + e));
                            assert(out@ =~= s@.take(start + 2) + seq!['.', '.', '.'] + s@.skip(
                                start + 2 + e,
                            ));
                        }
                        out
                    },
                }
            },
        }
    }

    /// Decodes the current envelope, applies `peeler` to the bytes, and
    /// stores the result as the new envelope text; any decode, transform or
    /// UTF-8 failure is returned and leaves the envelope unchanged.
    pub fn peel<F: Fn(Vec<u8>) -> Result<Vec<u8>, Error>>(&mut self, peeler: F) -> (r: Result<
        (),
        Error,
    >)
        requires
            forall|v: Vec<u8>| #[trigger] call_requires(peeler, (v,)),
        ensures
            match r {
                Ok(()) => exists|b: Vec<u8>, pv: Vec<u8>|
                    {
                        &&& a85_decode(encode_utf8(old(self).text())) == Ok::<Seq<u8>, Error>(b@)
                        &&& #[trigger] call_ensures(peeler, (b,), Ok(pv))
                        &&& valid_utf8(pv@)
                        &&& final(self).text() == decode_utf8(pv@)
                    },
                Err(e) => {
                    &&& *final(self) == *old(self)
                    &&& ({
                        ||| a85_decode(encode_utf8(old(self).text())) == Err::<Seq<u8>, Error>(e)
                        ||| exists|b: Vec<u8>|
                            {
                                &&& a85_decode(encode_utf8(old(self).text())) == Ok::<
                                    Seq<u8>,
                                    Error,
                                >(b@)
                                &&& #[trigger] call_ensures(peeler, (b,), Err(e))
                            }
                        ||| (e == Error::InvalidUtf8Result && exists|b: Vec<u8>, pv: Vec<u8>|
                            {
                                &&& a85_decode(encode_utf8(old(self).text())) == Ok::<
                                    Seq<u8>,
                                    Error,
                                >(b@)
                                &&& #[trigger] call_ensures(peeler, (b,), Ok(pv))
                                &&& !valid_utf8(pv@)
                            })
                    })
                },
            },
    {
        let decoded = match crate::ascii85::decode(self.data.as_str()) {
            Ok(d) => d,
            Err(e) => {
                return Err(e);
            },
        };
        let ghost bsnap = decoded;
        let peeled = match peeler(decoded) {
            Ok(p) => p,
            Err(e) => {
                proof {
                    assert(call_ensures(peeler, (bsnap,), Err::<Vec<u8>, Error>(e)));
                }
                return Err(e);
            },
        };
        let ghost psnap = peeled;
        match bytes_to_string(peeled) {
            Some(text) => {
                self.data = text;
                proof {
                    assert(call_ensures(peeler, (bsnap,), Ok::<Vec<u8>, Error>(psnap)));
                }
                Ok(())
            },
            None => {
                proof {
                    assert(call_ensures(peeler, (bsnap,), Ok::<Vec<u8>, Error>(psnap)));
                }
                Err(Error::InvalidUtf8Result)
            },
        }
    }
}

} // verus!
