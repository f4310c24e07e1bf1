use xtea::bytes::CursorError;
use xtea::Xtea;

const KEY: [u32; 4] = [0x00010203, 0x04050607, 0x08090A0B, 0x0C0D0E0F];

fn words_to_bytes(words: &[u32]) -> Vec<u8> {
    let mut out = Vec::new();
    for w in words {
        out.extend_from_slice(&w.to_be_bytes());
    }
    out
}

#[test]
fn concrete_vector_enciphers() {
    let cipher = Xtea::using_key(KEY).with_rounds(32);
    let out = cipher.encipher(&words_to_bytes(&[0x0123_4567, 0x89AB_CDEF])).unwrap();
    assert_eq!(out, words_to_bytes(&[0x1466_9763, 0xA456_E1D8]));
}

#[test]
fn concrete_vector_deciphers() {
    let cipher = Xtea::using_key(KEY);
    let out = cipher.decipher(&words_to_bytes(&[0x1466_9763, 0xA456_E1D8])).unwrap();
    assert_eq!(out, words_to_bytes(&[0x0123_4567, 0x89AB_CDEF]));
}

#[test]
fn published_vector() {
    let cipher = Xtea::using_key(KEY);
    let out = cipher.encipher(b"ABCDEFGH").unwrap();
    assert_eq!(out, vec![0x49, 0x7d, 0xf3, 0xd0, 0x72, 0x61, 0x2c, 0xb5]);
}

#[test]
fn zero_key_zero_block() {
    let cipher = Xtea::using_key([0; 4]);
    let out = cipher.encipher(&[0u8; 8]).unwrap();
    assert_eq!(out, words_to_bytes(&[0xDEE9_D4D8, 0xF713_1ED9]));
}

#[test]
fn fewer_rounds_give_another_block() {
    let cipher = Xtea::using_key(KEY).with_rounds(8);
    let out = cipher.encipher(&words_to_bytes(&[0x0123_4567, 0x89AB_CDEF])).unwrap();
    assert_eq!(out, words_to_bytes(&[0x8BF8_D645, 0x3474_E8C3]));
    assert_eq!(cipher.decipher(&out).unwrap(), words_to_bytes(&[0x0123_4567, 0x89AB_CDEF]));
}

#[test]
fn one_round() {
    let cipher = Xtea::using_key(KEY).with_rounds(1);
    let out = cipher.encipher(b"ABCDEFGH").unwrap();
    assert_eq!(out, words_to_bytes(&[0xDCD7_CF45, 0x477C_E5EF]));
}

#[test]
fn round_trip_several_blocks() {
    let plain: Vec<u8> = (0u8..64).collect();
    for rounds in [1u32, 2, 16, 32, 64] {
        let cipher = Xtea::using_key([7, 0xFFFF_FFFF, 0x1234_5678, 0]).with_rounds(rounds);
        let secret = cipher.encipher(&plain).unwrap();
        assert_eq!(secret.len(), plain.len());
        assert_ne!(secret, plain);
        assert_eq!(cipher.decipher(&secret).unwrap(), plain);
    }
}

#[test]
fn zero_rounds_leave_the_block() {
    let cipher = Xtea::using_key(KEY).with_rounds(0);
    assert_eq!(cipher.encipher(b"ABCDEFGH").unwrap(), b"ABCDEFGH".to_vec());
    assert_eq!(cipher.decipher(b"ABCDEFGH").unwrap(), b"ABCDEFGH".to_vec());
}

#[test]
fn repeated_calls_agree() {
    let cipher = Xtea::using_key(KEY);
    let plain: Vec<u8> = (100u8..132).collect();
    let first = cipher.encipher(&plain).unwrap();
    let second = cipher.encipher(&plain).unwrap();
    let other = Xtea::using_key(KEY).encipher(&plain).unwrap();
    assert_eq!(first, second);
    assert_eq!(first, other);
    assert_eq!(cipher.decipher(&first).unwrap(), cipher.decipher(&second).unwrap());
}

#[test]
fn blocks_are_independent() {
    let cipher = Xtea::using_key(KEY);
    let a = b"ABCDEFGH".to_vec();
    let b = words_to_bytes(&[0x0123_4567, 0x89AB_CDEF]);
    let mut both = a.clone();
    both.extend_from_slice(&b);
    let mut separate = cipher.encipher(&a).unwrap();
    separate.extend_from_slice(&cipher.encipher(&b).unwrap());
    assert_eq!(cipher.encipher(&both).unwrap(), separate);
    let mut twice = a.clone();
    twice.extend_from_slice(&a);
    let out = cipher.encipher(&twice).unwrap();
    assert_eq!(out[..8], out[8..]);
}

#[test]
fn empty_input_gives_empty_output() {
    let cipher = Xtea::using_key(KEY);
    assert_eq!(cipher.encipher(&[]).unwrap(), Vec::<u8>::new());
    assert_eq!(cipher.decipher(&[]).unwrap(), Vec::<u8>::new());
}

#[test]
fn trailing_bytes_are_left_out() {
    let cipher = Xtea::using_key(KEY);
    let mut input = b"ABCDEFGH".to_vec();
    input.extend_from_slice(&[1, 2, 3, 4, 5, 6, 7]);
    let out = cipher.encipher(&input).unwrap();
    assert_eq!(out, vec![0x49, 0x7d, 0xf3, 0xd0, 0x72, 0x61, 0x2c, 0xb5]);
    assert_eq!(cipher.encipher(&[9, 9, 9]).unwrap(), Vec::<u8>::new());
    assert_eq!(cipher.decipher(&input[..12]).unwrap().len(), 8);
}

#[test]
fn results_are_never_errors() {
    let cipher = Xtea::using_key(KEY);
    let r = cipher.encipher(&[0u8; 24]);
    assert!(r.is_ok());
    assert_ne!(r, Err(CursorError::UnexpectedEof));
}
