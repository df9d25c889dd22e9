use onion::ascii85::encode;
use onion::onion::Onion;
use onion::Error;

#[test]
fn test_peel_reveals_next_layer() {
    let envelope = format!("Layer one. {} The rest.", encode(b"hello onion").unwrap());
    let mut onion = Onion::new(envelope);
    onion.peel(|v: Vec<u8>| Ok(v)).unwrap();
    assert_eq!(onion.preview(), "hello onion");
}

#[test]
fn test_peel_chain_through_transform() {
    let inner = "the final plaintext";
    let flipped: Vec<u8> = inner
        .as_bytes()
        .iter()
        .map(|b| (b << 1 | b >> 7) ^ 0b01010101)
        .collect();
    let envelope = encode(&flipped).unwrap();
    let mut onion = Onion::new(envelope);
    onion.peel(onion::bitwise::flip_and_rotate).unwrap();
    assert_eq!(onion.preview(), inner);
}

#[test]
fn test_peel_reports_invalid_utf8() {
    let envelope = encode(&[0xff, 0xfe, 0x01]).unwrap();
    let mut onion = Onion::new(envelope.clone());
    // the identity transform leaves bytes that are not valid text
    let r = onion.peel(|v: Vec<u8>| Ok(v));
    assert_eq!(r, Err(Error::InvalidUtf8Result));
    // the failed peel leaves the envelope unchanged
    assert_eq!(onion.preview(), format!("<~...~>"));
}

#[test]
fn test_peel_propagates_transform_error() {
    let envelope = encode(b"abcd").unwrap();
    let mut onion = Onion::new(envelope);
    let r = onion.peel(|_v: Vec<u8>| Err(Error::KeyRecoveryFailed));
    assert_eq!(r, Err(Error::KeyRecoveryFailed));
}

#[test]
fn test_peel_rejects_missing_envelope() {
    let mut onion = Onion::new(String::from("no payload here"));
    assert_eq!(onion.peel(|v: Vec<u8>| Ok(v)), Err(Error::MalformedEnvelope));
}

#[test]
fn test_preview_without_delimiters_is_verbatim() {
    let onion = Onion::new(String::from("already plain text"));
    assert_eq!(onion.preview(), "already plain text");
}

#[test]
fn test_preview_elides_payload() {
    let onion = Onion::new(String::from("note <~9jqo^BlbD-~> done"));
    assert_eq!(onion.preview(), "note <~...~> done");
}
