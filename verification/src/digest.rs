use crate::model::PackError;
use vstd::prelude::*;

verus! {

/// The SHA-256 digest of a sequence of bytes.
pub uninterp spec fn sha256_of(data: Seq<u8>) -> Seq<u8>;

/// Calls `sha2::Sha256::digest`, which hashes the whole input at once. The
/// result is a function of the bytes alone, named `sha256_of`.
#[verifier::external_body]
fn sha256(data: &[u8]) -> (digest: Vec<u8>)
    ensures
        digest@ == sha256_of(data@),
{
    <sha2::Sha256 as sha2::Digest>::digest(data).to_vec()
}

/// The digit for a value below sixteen, letters in lower case.
pub open spec fn hex_digit(n: u8) -> char {
    if n < 10 {
        (48 + n) as char
    } else {
        (87 + n) as char
    }
}

/// The bytes in hexadecimal, two digits each.
pub open spec fn hex_of(data: Seq<u8>) -> Seq<char>
    decreases data.len(),
{
    if data.len() == 0 {
        Seq::empty()
    } else {
        hex_of(data.drop_last()).push(hex_digit(data.last() / 16)).push(
            hex_digit(data.last() % 16),
        )
    }
}

fn digit(n: u8) -> (c: char)
    requires
        n < 16,
    ensures
        c == hex_digit(n),
{
    if n < 10 {
        (48 + n) as char
    } else {
        (87 + n) as char
    }
}

/// The bytes in hexadecimal, two digits each.
pub fn hex(data: &[u8]) -> (text: String)
    ensures
        text@ == hex_of(data@),
{
    let mut text = String::new();
    let mut i: usize = 0;
    assert(data@.take(0) =~= Seq::empty());
    while i < data.len()
        invariant
            i <= data.len(),
            text@ == hex_of(data@.take(i as int)),
        decreases data.len() - i,
    {
        let b = data[i];
        proof {
            assert(data@.take(i + 1).drop_last() =~= data@.take(i as int));
            assert(data@.take(i + 1).last() == b);
        }
        text.push(digit(b / 16));
        text.push(digit(b % 16));
        i = i + 1;
    }
    assert(data@.take(data.len() as int) =~= data@);
    text
}

/// Whether `digest`, written in hexadecimal, is the text `expected`.
pub fn digest_matches(digest: &[u8], expected: &str) -> (same: bool)
    ensures
        same == (hex_of(digest@) == expected@),
{
    let text = hex(digest);
    let wanted = expected.to_owned();
    text == wanted
}

/// Accepts fetched bytes only if their SHA-256 digest is the one recorded
/// for them.
pub fn verify_archive(bytes: &[u8], expected_sha256: &str) -> (r: Result<(), PackError>)
    ensures
        r == if hex_of(sha256_of(bytes@)) == expected_sha256@ {
            Ok::<(), PackError>(())
        } else {
            Err(PackError::HashMismatch)
        },
{
    let digest = sha256(bytes);
    if digest_matches(digest.as_slice(), expected_sha256) {
        Ok(())
    } else {
        Err(PackError::HashMismatch)
    }
}

} // verus!
