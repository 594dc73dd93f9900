use pack::digest::{digest_matches, hex, verify_archive};
use pack::model::PackError;

#[test]
fn bytes_are_written_in_lower_case_hexadecimal() {
    assert_eq!(hex(&[]), "");
    assert_eq!(hex(&[0x00, 0x0f, 0x10, 0xab, 0xff]), "000f10abff");
    assert_eq!(hex(&[0x9a]), format!("{:02x}", 0x9au8));
}

#[test]
fn every_byte_gives_two_digits() {
    let mut b: u16 = 0;
    while b < 256 {
        assert_eq!(hex(&[b as u8]), format!("{:02x}", b));
        b += 1;
    }
}

#[test]
fn digest_of_known_bytes_is_accepted() {
    let expected = "ba7816bf8f01cfea414140de5dae2223b00361a396177a9cb410ff61f20015ad";
    assert_eq!(verify_archive(b"abc", expected), Ok(()));
}

#[test]
fn digest_of_empty_input_is_accepted() {
    let expected = "e3b0c44298fc1c149afbf4c8996fb92427ae41e4649b934ca495991b7852b855";
    assert_eq!(verify_archive(b"", expected), Ok(()));
}

#[test]
fn wrong_digest_is_a_hash_mismatch() {
    let expected = "ba7816bf8f01cfea414140de5dae2223b00361a396177a9cb410ff61f20015ad";
    assert_eq!(verify_archive(b"abd", expected), Err(PackError::HashMismatch));
    assert_eq!(verify_archive(b"abc", &expected.to_uppercase()), Err(PackError::HashMismatch));
    assert_eq!(verify_archive(b"abc", ""), Err(PackError::HashMismatch));
}

#[test]
fn digests_are_compared_as_text() {
    assert!(digest_matches(&[0xde, 0xad], "dead"));
    assert!(!digest_matches(&[0xde, 0xad], "DEAD"));
    assert!(!digest_matches(&[0xde, 0xad], "dea"));
}
