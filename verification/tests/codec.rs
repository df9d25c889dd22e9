use onion::ascii85::{decode, encode};
use onion::bitwise::flip_and_rotate;
use onion::parity::checksum;
use onion::Error;
use rand::Rng;

const TEXT: &str =
    "Man is distinguished, not only by his reason, but by this singular passion \
     from other animals, which is a lust of the mind, that by a perseverance of \
     delight in the continued and indefatigable generation of knowledge, exceeds \
     the short vehemence of any carnal pleasure.";

const DATA: &str =
    "<~9jqo^BlbD-BleB1DJ+*+F(f,q/0JhKF<GL>Cj@.4Gp$d7F!,L7@<6@)/0JDEF<G%<+EV:2F!,\
     O<DJ+*.@<*K0@<6L(Df-\\0Ec5e;DffZ(EZee.Bl.9pF\"AGXBPCsi+DGm>@3BB/F*&OCAfu2/A\
     KYi(DIb:@FD,*)+C]U=@3BN#EcYf8ATD3s@q?d$AftVqCh[NqF<G:8+EV:.+Cf>-FD5W8ARlolD\
     Ial(DId<j@<?3r@:F%a+D58'ATD4$Bl@l3De:,-DJs`8ARoFb/0JMK@qB4^F!,R<AKZ&-DfTqBG\
     %G>uD.RTpAKYo'+CT/5+Cei#DII?(E,9)oF*2M7/c~>";

#[test]
fn test_encode() {
    assert_eq!(encode(TEXT.as_bytes()).unwrap(), DATA);
}

#[test]
fn test_decode() {
    assert_eq!(decode(DATA).unwrap(), TEXT.as_bytes());
}

#[test]
fn test_stochastic() {
    let mut rng = rand::rng();

    for len in 0..500 {
        for _ in 0..5 {
            let mut input = vec![0; len];
            rng.fill_bytes(&mut input);

            let encoded = encode(&input).unwrap();
            let decoded = decode(&encoded).unwrap();

            assert_eq!(input, decoded);
        }
    }
}

#[test]
fn test_round_trip_partial_lengths() {
    for len in 0..9 {
        let input: Vec<u8> = (0..len as u8).map(|b| b.wrapping_mul(37).wrapping_add(11)).collect();
        let encoded = encode(&input).unwrap();
        assert_eq!(decode(&encoded).unwrap(), input);
    }
}

#[test]
fn test_zero_group_shortcut() {
    // four zero bytes encode as five minimum digits ...
    assert_eq!(encode(&[0, 0, 0, 0]).unwrap(), "<~!!!!!~>");
    // ... and substituting those five digits with the shortcut character
    // decodes to the same four zero bytes
    assert_eq!(decode("<~z~>").unwrap(), vec![0, 0, 0, 0]);
    assert_eq!(decode("<~!!!!!~>").unwrap(), vec![0, 0, 0, 0]);
}

#[test]
fn test_decode_ignores_whitespace_and_framing() {
    let plain = decode("<~9jqo^~>").unwrap();
    assert_eq!(decode("leading text <~9j qo\t^\n~> trailing text").unwrap(), plain);
}

#[test]
fn test_decode_missing_start_delimiter() {
    assert_eq!(decode("no delimiters here"), Err(Error::MalformedEnvelope));
}

#[test]
fn test_decode_missing_end_delimiter() {
    assert_eq!(decode("text <~9jqo^ but no end"), Err(Error::MalformedEnvelope));
}

#[test]
fn test_decode_character_outside_range() {
    assert_eq!(decode("<~9jq{~>"), Err(Error::InvalidCodecCharacter));
}

#[test]
fn test_decode_misaligned_shortcut() {
    assert_eq!(decode("<~!z~>"), Err(Error::MisalignedShortcut));
}

#[test]
fn test_decode_single_leftover_digit() {
    assert_eq!(decode("<~!~>"), Err(Error::TruncatedInput));
}

#[test]
fn test_flip_and_rotate_known_vector() {
    // 0x00 ^ 0x55 = 0x55, rotated right once = 0xaa;
    // 0xff ^ 0x55 = 0xaa, rotated right once = 0x55
    assert_eq!(flip_and_rotate(vec![0x00, 0xff]).unwrap(), vec![0xaa, 0x55]);
}

#[test]
fn test_parity_keeps_valid_byte() {
    // 0b1000_0001: one payload bit set, parity flag 1: kept, payload repacked
    assert_eq!(checksum(vec![0b1000_0001]).unwrap(), vec![0b1000_0000]);
}

#[test]
fn test_parity_drops_invalid_byte() {
    // 0b1000_0000: one payload bit set but parity flag 0: dropped
    assert_eq!(checksum(vec![0b1000_0000]).unwrap(), Vec::<u8>::new());
}

#[test]
fn test_parity_repacks_survivors() {
    // eight identical valid bytes: 7 bits each pack into exactly 7 bytes
    let byte = 0b1000_0001u8;
    let out = checksum(vec![byte; 8]).unwrap();
    assert_eq!(out.len(), 7);
    // the dropped filler in between does not disturb the packing
    let with_filler = checksum(vec![byte, 0b1000_0000, byte, byte, byte, 0b0000_0001, byte, byte, byte, byte]).unwrap();
    assert_eq!(with_filler, out);
}

#[test]
fn test_parity_output_length_all_valid() {
    // an all-valid stream of n bytes yields ceil(7n/8) output bytes
    for n in 0..20usize {
        let out = checksum(vec![0b1000_0001u8; n]).unwrap();
        assert_eq!(out.len(), (7 * n + 7) / 8);
    }
}
