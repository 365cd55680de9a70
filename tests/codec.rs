use cryptopals::codec::{
    base64_encode, decode_base64_lines, decrypt_base64, hex2base64, hex_decode, hex_encode,
    FormatError,
};

#[test]
fn hex_decode_reads_both_cases() {
    assert_eq!(hex_decode(b"1c01FF").unwrap(), vec![0x1c, 0x01, 0xff]);
    assert_eq!(hex_decode(b"").unwrap(), Vec::<u8>::new());
}

#[test]
fn hex_decode_rejects_odd_length() {
    assert_eq!(hex_decode(b"abc"), Err(FormatError::OddLength));
}

#[test]
fn hex_decode_rejects_non_hex() {
    assert_eq!(hex_decode(b"zz"), Err(FormatError::InvalidCharacter));
    assert_eq!(hex_decode(b"0g"), Err(FormatError::InvalidCharacter));
}

#[test]
fn hex_encode_is_lowercase() {
    assert_eq!(hex_encode(&[0x00, 0xab, 0x7f]), b"00ab7f".to_vec());
}

#[test]
fn hex_to_base64_known_value() {
    let hex = b"49276d206b696c6c696e6720796f757220627261696e206c696b65206120706f69736f6e6f7573206d757368726f6f6d";
    assert_eq!(
        hex2base64(hex).unwrap(),
        b"SSdtIGtpbGxpbmcgeW91ciBicmFpbiBsaWtlIGEgcG9pc29ub3VzIG11c2hyb29t".to_vec()
    );
}

#[test]
fn hex_to_base64_pads() {
    assert_eq!(hex2base64(b"4d").unwrap(), b"TQ==".to_vec());
    assert_eq!(hex2base64(b"4d61").unwrap(), b"TWE=".to_vec());
    assert_eq!(hex2base64(b"4d616e").unwrap(), b"TWFu".to_vec());
    assert_eq!(hex2base64(b"").unwrap(), Vec::<u8>::new());
    assert_eq!(hex2base64(b"4"), Err(FormatError::OddLength));
}

#[test]
fn base64_decode_known_values() {
    assert_eq!(decrypt_base64(b"SGVsbG8=").unwrap(), b"Hello".to_vec());
    assert_eq!(decrypt_base64(b"TWFu").unwrap(), b"Man".to_vec());
    assert_eq!(decrypt_base64(b"TQ==").unwrap(), b"M".to_vec());
    assert_eq!(decrypt_base64(b"+/+/").unwrap(), vec![0xfb, 0xff, 0xbf]);
    assert_eq!(decrypt_base64(b"").unwrap(), Vec::<u8>::new());
}

#[test]
fn base64_decode_rejects_bad_character() {
    assert_eq!(decrypt_base64(b"SG*s"), Err(FormatError::InvalidCharacter));
    assert_eq!(decrypt_base64(b"S=Gs"), Err(FormatError::InvalidCharacter));
}

#[test]
fn base64_encode_then_decode() {
    let data: Vec<u8> = (0u8..=255).collect();
    let text = base64_encode(&data);
    assert_eq!(text.len(), 344);
    assert_eq!(decrypt_base64(&text).unwrap(), data);
}

#[test]
fn base64_lines_are_joined() {
    let lines = vec![b"SGVs".to_vec(), b"bG8=".to_vec()];
    assert_eq!(decode_base64_lines(&lines).unwrap(), b"Hello".to_vec());
    let bad = vec![b"SGVs".to_vec(), b"b?8=".to_vec()];
    assert_eq!(decode_base64_lines(&bad), Err(FormatError::InvalidCharacter));
}
