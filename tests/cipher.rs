use cryptopals::cipher::{fix_xor, repeating_key_xor, xor_with_key};
use cryptopals::codec::FormatError;

#[test]
fn fixed_xor_known_value() {
    let r = fix_xor(
        b"1c0111001f010100061a024b53535009181c",
        b"686974207468652062756c6c277320657965",
    )
    .unwrap();
    assert_eq!(r, b"746865206b696420646f6e277420706c6179".to_vec());
}

#[test]
fn fixed_xor_rejects_bad_hex() {
    assert_eq!(fix_xor(b"1c0", b"6869"), Err(FormatError::OddLength));
    assert_eq!(fix_xor(b"1c", b"6x"), Err(FormatError::InvalidCharacter));
}

#[test]
fn repeating_key_xor_known_value() {
    let text = b"Burning 'em, if you ain't quick and nimble\nI go crazy when I hear a cymbal";
    let r = repeating_key_xor(text, b"ICE", true);
    assert_eq!(
        r,
        b"0b3637272a2b2e63622c2e69692a23693a2a3c6324202d623d63343c2a26226324272765272a282b2f20430a652e2c652a3124333a653e2b2027630c692b20283165286326302e27282f".to_vec()
    );
}

#[test]
fn repeating_key_xor_raw_bytes() {
    assert_eq!(repeating_key_xor(b"ab", b"\x01", false), b"`c".to_vec());
}

#[test]
fn xor_round_trip() {
    let data = b"any bytes \x00\xff at all".to_vec();
    let key = b"k3y".to_vec();
    let once = xor_with_key(&data, &key);
    assert_ne!(once, data);
    assert_eq!(xor_with_key(&once, &key), data);
    assert_eq!(xor_with_key(&[], &key), Vec::<u8>::new());
}
