use onion::aes::aes_cbc;
use onion::encryption::decrypt;
use onion::network::udp;
use onion::Error;

const MARKER: &[u8] = b"==[ Payload ]===============================================";

fn xor_with_key(data: &[u8], key: &[u8]) -> Vec<u8> {
    data.iter().enumerate().map(|(n, b)| b ^ key[n % key.len()]).collect()
}

#[test]
fn test_xor_recovery_round_trip() {
    let key: Vec<u8> = (0..32u8).map(|i| i.wrapping_mul(91).wrapping_add(17)).collect();
    let mut plaintext = Vec::new();
    plaintext.extend_from_slice(b"hdr ");
    plaintext.extend_from_slice(MARKER);
    plaintext.extend_from_slice(b" the quick brown fox jumps over the lazy dog ");
    plaintext.extend_from_slice(b"and some more text with plenty of spaces in it  ");
    let ciphertext = xor_with_key(&plaintext, &key);

    let recovered = decrypt(ciphertext).unwrap();
    assert_eq!(recovered, plaintext);
}

#[test]
fn test_xor_recovery_short_input() {
    assert_eq!(decrypt(vec![0u8; 59]), Err(Error::TruncatedInput));
}

// ---- link layer ----

fn plain_sum(words: &[u16]) -> u16 {
    let mut acc: u16 = 0;
    for &w in words {
        acc = acc.wrapping_add(w);
    }
    acc
}

fn carry_sum(init: u16, words: &[u16]) -> u16 {
    let mut acc = init;
    for &w in words {
        let before = acc;
        acc = acc.wrapping_add(w);
        if before > acc {
            acc = acc.wrapping_add(1);
        }
    }
    acc
}

fn words_of(bytes: &[u8]) -> Vec<u16> {
    bytes.chunks(2).map(|c| u16::from_be_bytes([c[0], if c.len() > 1 { c[1] } else { 0 }])).collect()
}

/// Builds one IPv4+UDP datagram for the fixed tuple, with both checksum
/// fields chosen so the validator's sums come out as 0xffff.
fn build_datagram(payload: &[u8], corrupt: bool) -> Vec<u8> {
    let udp_len = 8 + payload.len();
    let total = 20 + udp_len;
    let mut header = vec![
        0x45u8, 0, (total >> 8) as u8, total as u8,
        0, 0, 0, 0,
        64, 17, 0, 0,
        10, 1, 1, 10,
        10, 1, 1, 200,
    ];
    // IP header checksum: end-around-carry sum over the words must be 0xffff
    let mut found = false;
    for cand in 0u16..=0xffff {
        header[10] = (cand >> 8) as u8;
        header[11] = cand as u8;
        if carry_sum(0, &words_of(&header)) == 0xffff {
            found = true;
            break;
        }
    }
    assert!(found);

    let mut udp_seg = vec![0u8; 8];
    udp_seg[0] = 0xbe;
    udp_seg[1] = 0xef;
    udp_seg[2] = (42069u16 >> 8) as u8;
    udp_seg[3] = 42069u16 as u8;
    udp_seg[4] = (udp_len >> 8) as u8;
    udp_seg[5] = udp_len as u8;
    udp_seg.extend_from_slice(payload);
    // UDP checksum: pseudo-header words added plainly, segment words with
    // the carry quirk; the total must be 0xffff
    let pseudo = plain_sum(&[
        0x0a01, 0x010a, 0x0a01, 0x01c8, 17, udp_len as u16,
    ]);
    let mut found = false;
    for cand in 0u16..=0xffff {
        udp_seg[6] = (cand >> 8) as u8;
        udp_seg[7] = cand as u8;
        let mut acc = carry_sum(pseudo, &words_of(&udp_seg[..udp_seg.len() & !1]));
        if udp_seg.len() % 2 == 1 {
            acc = acc.wrapping_add(u16::from_be_bytes([udp_seg[udp_seg.len() - 1], 0]));
        }
        if acc == 0xffff {
            found = true;
            break;
        }
    }
    assert!(found);

    let mut dgram = header;
    dgram.extend_from_slice(&udp_seg);
    if corrupt {
        dgram[10] ^= 0xff;
    }
    dgram
}

#[test]
fn test_udp_extracts_matching_payload() {
    let dgram = build_datagram(b"hello onion", false);
    assert_eq!(udp(dgram).unwrap(), b"hello onion".to_vec());
}

#[test]
fn test_udp_skips_corrupt_datagram_by_length() {
    let mut input = build_datagram(b"first", false);
    input.extend_from_slice(&build_datagram(b"SKIPPED", true));
    input.extend_from_slice(&build_datagram(b"third", false));
    assert_eq!(udp(input).unwrap(), b"firstthird".to_vec());
}

#[test]
fn test_udp_odd_length_payload() {
    let dgram = build_datagram(b"odd", false);
    assert_eq!(udp(dgram).unwrap(), b"odd".to_vec());
}

#[test]
fn test_udp_malformed_length_is_fatal() {
    let mut dgram = build_datagram(b"data", false);
    // a total-length field running past the buffer is a fatal failure
    dgram[2] = 0xff;
    dgram[3] = 0xff;
    assert_eq!(udp(dgram), Err(Error::TruncatedInput));
}

// ---- key unwrap + decrypt ----

fn build_crypto_input(payload: &[u8]) -> (Vec<u8>, Vec<u8>) {
    let kek: Vec<u8> = (0..32u8).collect();
    let wrap_iv = [0xa6u8; 8];
    let content_key: Vec<u8> = (100..132u8).collect();
    let payload_iv = [7u8; 16];

    let enc = openssl::aes::AesKey::new_encrypt(&kek).unwrap();
    let mut wrapped = [0u8; 40];
    openssl::aes::wrap_key(&enc, Some(wrap_iv), &mut wrapped, &content_key).unwrap();

    let cipher = openssl::symm::Cipher::aes_256_cbc();
    let ciphertext =
        openssl::symm::encrypt(cipher, &content_key, Some(&payload_iv), payload).unwrap();

    let mut input = Vec::new();
    input.extend_from_slice(&kek);
    input.extend_from_slice(&wrap_iv);
    input.extend_from_slice(&wrapped);
    input.extend_from_slice(&payload_iv);
    let prefix = input[..96].to_vec();
    input.extend_from_slice(&ciphertext);
    (input, prefix)
}

#[test]
fn test_key_unwrap_decrypt_round_trip() {
    let payload = b"the innermost layer of the onion";
    let (input, _) = build_crypto_input(payload);
    assert_eq!(aes_cbc(input).unwrap(), payload.to_vec());
}

#[test]
fn test_key_unwrap_truncated_input() {
    assert_eq!(aes_cbc(vec![0u8; 95]), Err(Error::TruncatedInput));
}

#[test]
fn test_key_unwrap_integrity_failure() {
    let (mut input, _) = build_crypto_input(b"some payload body");
    // damage the wrapped key material: the unwrap integrity check must fail
    input[41] ^= 0xff;
    assert_eq!(aes_cbc(input), Err(Error::CryptoUnwrapFailed));
}

#[test]
fn test_decrypt_failure_on_damaged_ciphertext() {
    let (input, prefix) = build_crypto_input(b"some payload body");
    // drop the ciphertext's final byte: the cipher must reject the payload
    let mut truncated = prefix;
    truncated.extend_from_slice(&input[96..input.len() - 1]);
    assert_eq!(aes_cbc(truncated), Err(Error::CryptoDecryptFailed));
}
