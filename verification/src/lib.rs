//! Recovers a message hidden under a chain of byte-level encodings: an
//! ASCII-85 envelope is stripped to raw bytes, which then pass through
//! reversing transforms (bit manipulation, parity decoding, repeating-key
//! XOR cryptanalysis, link-layer extraction, key unwrap plus block-cipher
//! decryption) until the next layer, or the final plaintext, appears.

use vstd::prelude::*;

pub mod aes;
pub mod ascii85;
pub mod bitwise;
pub mod encryption;
pub mod find;
pub mod network;
pub mod onion;
pub mod parity;

verus! {

/// Why a peeling stage failed. Every kind but the silent per-datagram
/// checksum skip is fatal to the whole run.
#[derive(Clone, Copy, Debug, PartialEq, Eq, Structural)]
pub enum Error {
    /// The envelope lacks a start delimiter or an end delimiter after it.
    MalformedEnvelope,
    /// A payload byte is outside the codec alphabet and is not whitespace.
    InvalidCodecCharacter,
    /// The all-zero shortcut byte appeared inside a partial group.
    MisalignedShortcut,
    /// The input is shorter than a transform's fixed minimum layout.
    TruncatedInput,
    /// No offset was consistent with the known-plaintext marker.
    KeyRecoveryFailed,
    /// The key-wrap integrity check failed.
    CryptoUnwrapFailed,
    /// The block cipher rejected the payload (bad padding or key).
    CryptoDecryptFailed,
    /// A peeled buffer is not valid UTF-8 text.
    InvalidUtf8Result,
}

} // verus!
