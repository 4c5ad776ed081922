use kv_gauntlet::base64::{decode_base64, decode_base64_bytes, Base64Error};

#[test]
fn decodes_padded_text() {
    assert_eq!(decode_base64("aGVsbG8=").unwrap(), b"hello".to_vec());
    assert_eq!(decode_base64("aGVsbA==").unwrap(), b"hell".to_vec());
    assert_eq!(decode_base64("aGVs").unwrap(), b"hel".to_vec());
    assert_eq!(decode_base64("aGVsbG8taGVsbG8=").unwrap(), b"hello-hello".to_vec());
}

#[test]
fn decodes_all_alphabet_values() {
    assert_eq!(decode_base64("+/+/").unwrap(), vec![0xfb, 0xff, 0xbf]);
    assert_eq!(decode_base64("AAAA").unwrap(), vec![0, 0, 0]);
    assert_eq!(decode_base64("////").unwrap(), vec![255, 255, 255]);
}

#[test]
fn empty_and_blank_give_nothing() {
    assert_eq!(decode_base64("").unwrap(), Vec::<u8>::new());
    assert_eq!(decode_base64("  \n\t").unwrap(), Vec::<u8>::new());
}

#[test]
fn surrounding_white_space_is_ignored() {
    assert_eq!(decode_base64("  aGVsbG8=\r\n").unwrap(), b"hello".to_vec());
}

#[test]
fn wrong_length_is_refused() {
    assert_eq!(decode_base64("aGVsbG8"), Err(Base64Error::InvalidLength));
    assert_eq!(decode_base64("a"), Err(Base64Error::InvalidLength));
}

#[test]
fn foreign_character_is_refused() {
    assert_eq!(decode_base64("aGV*"), Err(Base64Error::InvalidCharacter));
    assert_eq!(decode_base64("aG Vs"), Err(Base64Error::InvalidLength));
    assert_eq!(decode_base64("aG-s"), Err(Base64Error::InvalidCharacter));
    assert_eq!(decode_base64_bytes(&[0xc3, 0xa9, 0x41, 0x41]), Err(Base64Error::InvalidCharacter));
}

#[test]
fn padding_counts_wherever_it_stands() {
    // One `=` anywhere in a group drops the last byte, two drop the last two.
    assert_eq!(decode_base64("=AAA").unwrap(), vec![0, 0]);
    assert_eq!(decode_base64("QQ==QUFB").unwrap(), vec![0x41, 0x41, 0x41, 0x41]);
}

#[test]
fn decoding_inverts_encoding() {
    // "kv-gauntlet" encoded by a standard encoder
    assert_eq!(decode_base64("a3YtZ2F1bnRsZXQ=").unwrap(), b"kv-gauntlet".to_vec());
    // UTF-8 text "é" encodes as "w6k="
    assert_eq!(decode_base64("w6k=").unwrap(), "é".as_bytes().to_vec());
}
