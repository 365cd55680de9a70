use cryptopals::analysis::{
    break_repeating_key_xor, break_with_lengths, detect_single_character_xor,
    estimate_key_length, recover_key, single_byte_xor_cipher, transpose_column,
    InsufficientDataError,
};
use cryptopals::cipher::xor_with_key;
use cryptopals::codec::{hex_decode, FormatError};
use cryptopals::score::{frequency_weight, score};

const ENGLISH: &[u8] = b"It was the best of times, it was the worst of times, it was the age of wisdom, it was the age of foolishness, it was the epoch of belief, it was the epoch of incredulity, it was the season of light, it was the season of darkness, it was the spring of hope, it was the winter of despair.";

#[test]
fn score_of_empty_is_zero() {
    assert_eq!(score(&[]), 0);
}

#[test]
fn score_weights_letters_case_blind() {
    assert_eq!(frequency_weight(b'a'), 651738);
    assert_eq!(frequency_weight(b'A'), 651738);
    assert_eq!(frequency_weight(b' '), 1918182);
    assert_eq!(frequency_weight(b'!'), 0);
    assert_eq!(score(b"Ee z"), 1041442 * 2 + 1918182 + 7836);
}

#[test]
fn spaces_outscore_zero_bytes() {
    let spaces = vec![b' '; 10];
    let zeros = vec![0u8; 10];
    assert_eq!(score(&zeros), 0);
    assert!(score(&spaces) > score(&zeros));
    assert_eq!(score(&spaces), 19181820);
}

#[test]
fn single_byte_recovers_known_key() {
    let plain = b"the quick brown fox";
    let cipher = xor_with_key(plain, &[0x42]);
    let (p, k, s) = single_byte_xor_cipher(&cipher);
    assert_eq!(k, 0x42);
    assert_eq!(p, plain.to_vec());
    assert_eq!(s, score(plain));
}

#[test]
fn single_byte_known_challenge() {
    let cipher =
        hex_decode(b"1b37373331363f78151b7f2b783431333d78397828372d363c78373e783a393b3736").unwrap();
    let (p, k, _) = single_byte_xor_cipher(&cipher);
    assert_eq!(k, b'X');
    assert_eq!(p, b"Cooking MC's like a pound of bacon".to_vec());
}

#[test]
fn single_byte_empty_gives_key_zero() {
    for _ in 0..3 {
        assert_eq!(single_byte_xor_cipher(&[]), (Vec::new(), 0, 0));
    }
}

#[test]
fn single_byte_all_zero_picks_space() {
    let (p, k, s) = single_byte_xor_cipher(&[0, 0, 0]);
    assert_eq!(k, 0x20);
    assert_eq!(p, b"   ".to_vec());
    assert_eq!(s, 3 * 1918182);
}

#[test]
fn selector_finds_english_line() {
    let lines = vec![
        b"a3f1097c55e2d08b19c4e67f0a33b28d9e51c7046fa2bd3e18e9057c64d2a1b0fe39".to_vec(),
        b"1b37373331363f78151b7f2b783431333d78397828372d363c78373e783a393b3736".to_vec(),
        b"5c8e02d7f941ab6039e17dc48f2256b90ae37c1d64f8a29b05d3c6e071be4a9f2d8c".to_vec(),
    ];
    let (idx, p, k, _) = detect_single_character_xor(&lines).unwrap();
    assert_eq!(idx, 1);
    assert_eq!(k, b'X');
    assert_eq!(p, b"Cooking MC's like a pound of bacon".to_vec());
}

#[test]
fn selector_rejects_bad_line() {
    let lines = vec![b"1b37".to_vec(), b"1b3".to_vec()];
    assert_eq!(detect_single_character_xor(&lines), Err(FormatError::OddLength));
}

#[test]
fn transpose_gathers_residue_class() {
    let c = [0u8, 1, 2, 3, 4, 5, 6];
    assert_eq!(transpose_column(&c, 3, 0), vec![0, 3, 6]);
    assert_eq!(transpose_column(&c, 3, 1), vec![1, 4]);
    assert_eq!(transpose_column(&c, 3, 2), vec![2, 5]);
    assert_eq!(transpose_column(&[9], 3, 2), Vec::<u8>::new());
}

#[test]
fn estimator_exact_distances() {
    // Blocks of length 2: [0,0] [0,1] [0,3]: pairs 1 + 2 + 1 bits.
    let c = [0u8, 0, 0, 1, 0, 3];
    let r = estimate_key_length(&c, 1, 4);
    let lens: Vec<usize> = r.iter().map(|e| e.0).collect();
    assert_eq!(lens.len(), 3);
    assert!(r.contains(&(2, 4)));
    assert!(r.contains(&(3, 3)));
    // Length 1 takes the first four single bytes: [0] [0] [0] [1].
    assert!(r.contains(&(1, 3)));
    // 3/3 < 4/2 < 3/1.
    assert_eq!(lens, vec![3, 2, 1]);
}

#[test]
fn estimator_skips_lengths_without_two_blocks() {
    let r = estimate_key_length(&[1, 2, 3, 4, 5], 2, 10);
    assert_eq!(r.iter().map(|e| e.0).collect::<Vec<_>>().len(), 1);
    assert_eq!(r[0].0, 2);
    assert!(estimate_key_length(&[], 2, 40).is_empty());
    assert!(estimate_key_length(&[1, 2, 3], 5, 5).is_empty());
}

#[test]
fn estimator_ranks_true_length_high() {
    assert!(ENGLISH.len() >= 200);
    let cipher = xor_with_key(ENGLISH, b"SLOTH");
    let r = estimate_key_length(&cipher, 2, 40);
    let top: Vec<usize> = r.iter().take(3).map(|e| e.0).collect();
    assert!(top.iter().any(|l| l % 5 == 0), "top lengths {:?}", top);
}

#[test]
fn recover_key_for_known_length() {
    let cipher = xor_with_key(ENGLISH, b"SLOTH");
    assert_eq!(recover_key(&cipher, 5), b"SLOTH".to_vec());
}

#[test]
fn break_with_given_lengths() {
    let cipher = xor_with_key(ENGLISH, b"SLOTH");
    let (key, plain) = break_with_lengths(&cipher, &[7, 5, 3]);
    assert_eq!(key, b"SLOTH".to_vec());
    assert_eq!(plain, ENGLISH.to_vec());
}

#[test]
fn end_to_end_ice_text() {
    let text = b"Burning 'em, if you ain't quick and nimble\nI go crazy when I hear a cymbal";
    let cipher = xor_with_key(text, b"ICE");
    // At the true length every column gives back its key byte.
    assert_eq!(recover_key(&cipher, 3), b"ICE".to_vec());
    assert_eq!(break_with_lengths(&cipher, &[3]), (b"ICE".to_vec(), text.to_vec()));
    // Seventy-four bytes leave the long lengths with a single pair of
    // blocks, and those rank first; the key comes from one of them.
    let ranked = estimate_key_length(&cipher, 2, 40);
    let top: Vec<usize> = ranked.iter().take(3).map(|e| e.0).collect();
    assert_eq!(top, vec![28, 33, 35]);
    let (key, plain) = break_repeating_key_xor(&cipher).unwrap();
    assert!(top.contains(&key.len()));
    assert_eq!(xor_with_key(&cipher, &key), plain);
}

#[test]
fn end_to_end_longer_text() {
    let cipher = xor_with_key(ENGLISH, b"SLOTH");
    let ranked = estimate_key_length(&cipher, 2, 40);
    let top: Vec<usize> = ranked.iter().take(3).map(|e| e.0).collect();
    let (key, plain) = break_repeating_key_xor(&cipher).unwrap();
    assert!(top.contains(&key.len()));
    assert_eq!(key, recover_key(&cipher, key.len()));
    assert_eq!(xor_with_key(&cipher, &key), plain);
    let lens: Vec<usize> = top.clone();
    assert_eq!(break_with_lengths(&cipher, &lens), (key, plain));
}

#[test]
fn too_short_ciphertext_is_refused() {
    assert_eq!(break_repeating_key_xor(&[]), Err(InsufficientDataError));
    assert_eq!(break_repeating_key_xor(&[1, 2, 3]), Err(InsufficientDataError));
    assert!(break_repeating_key_xor(&[1, 2, 3, 4]).is_ok());
}
