//! Hexadecimal text, digests, signatures and random numbers, as the crates
//! that provide them do it.

use vstd::prelude::*;

verus! {

/// The small hexadecimal digit for a number below sixteen.
pub open spec fn hex_digit(n: nat) -> char {
    if n < 10 {
        ('0' as u32 + n) as char
    } else {
        ('a' as u32 + n - 10) as char
    }
}

/// Two hexadecimal digits for each byte, the high half first.
pub open spec fn hex_text(bytes: Seq<u8>) -> Seq<char> {
    Seq::new(
        bytes.len() * 2,
        |i: int|
            if i % 2 == 0 {
                hex_digit(bytes[i / 2] as nat / 16)
            } else {
                hex_digit(bytes[i / 2] as nat % 16)
            },
    )
}

/// The number that a hexadecimal digit of either case stands for.
pub open spec fn hex_value(c: char) -> Option<nat> {
    let n = c as u32;
    if '0' as u32 <= n <= '9' as u32 {
        Some((n - '0' as u32) as nat)
    } else if 'a' as u32 <= n <= 'f' as u32 {
        Some((n - 'a' as u32 + 10) as nat)
    } else if 'A' as u32 <= n <= 'F' as u32 {
        Some((n - 'A' as u32 + 10) as nat)
    } else {
        None
    }
}

/// An even number of hexadecimal digits and nothing else.
pub open spec fn is_hex(s: Seq<char>) -> bool {
    s.len() % 2 == 0 && forall|i: int| 0 <= i < s.len() ==> hex_value(#[trigger] s[i]) is Some
}

/// The bytes that pairs of hexadecimal digits stand for.
pub open spec fn hex_bytes(s: Seq<char>) -> Seq<u8> {
    Seq::new(
        s.len() / 2,
        |i: int| (hex_value(s[2 * i])->0 * 16 + hex_value(s[2 * i + 1])->0) as u8,
    )
}

/// Why text is no hexadecimal text.
#[verifier::external_type_specification]
#[verifier::external_body]
pub struct ExFromHexError(hex::FromHexError);

/// `hex::encode` writes each byte as two small hexadecimal digits.
#[verifier::external_body]
pub(crate) fn hex_encode(data: &[u8]) -> (res: String)
    ensures
        res@ == hex_text(data@),
{
    hex::encode(data)
}

/// `hex::decode` takes an even number of hexadecimal digits of either case and
/// gives the bytes they stand for; any other text it refuses.
#[verifier::external_body]
pub(crate) fn hex_decode(text: &str) -> (res: Result<Vec<u8>, hex::FromHexError>)
    ensures
        res is Ok <==> is_hex(text@),
        res matches Ok(bytes) ==> bytes@ == hex_bytes(text@),
{
    hex::decode(text)
}

/// The SHA-256 digest of `data`.
pub uninterp spec fn sha256_digest(data: Seq<u8>) -> Seq<u8>;

/// `Sha256::digest` gives the 32 bytes of the SHA-256 digest. Which bytes those
/// are is not stated, only that they depend on the data alone.
#[verifier::external_body]
pub(crate) fn sha256(data: &[u8]) -> (res: Vec<u8>)
    ensures
        res@ == sha256_digest(data@),
        res@.len() == 32,
{
    <sha2::Sha256 as sha2::Digest>::digest(data).to_vec()
}

/// Whether 32 bytes are the encoding of an Ed25519 public key.
pub uninterp spec fn is_ed25519_key(bytes: Seq<u8>) -> bool;

/// `VerifyingKey::from_bytes` accepts the encoding of a point on the curve.
/// Which bytes encode one is not stated, only that they alone decide.
#[verifier::external_body]
pub(crate) fn ed25519_key_is_valid(bytes: &[u8; 32]) -> (res: bool)
    ensures
        res == is_ed25519_key(bytes@),
{
    ed25519_dalek::VerifyingKey::from_bytes(bytes).is_ok()
}

/// Whether an Ed25519 key accepts a signature on a message, by the strict
/// rules.
pub uninterp spec fn ed25519_accepts(key: Seq<u8>, message: Seq<u8>, signature: Seq<u8>) -> bool;

/// `VerifyingKey::verify_strict` accepts or refuses the signature; bytes that
/// are no key accept nothing. Which signatures a key accepts is not stated,
/// only that key, message and signature alone decide.
#[verifier::external_body]
pub(crate) fn ed25519_verify_strict(key: &[u8; 32], message: &[u8], signature: &[u8; 64]) -> (res:
    bool)
    ensures
        res == ed25519_accepts(key@, message@, signature@),
        res ==> is_ed25519_key(key@),
{
    match ed25519_dalek::VerifyingKey::from_bytes(key) {
        Ok(key) => key.verify_strict(message, &ed25519_dalek::Signature::from_bytes(signature)).is_ok(),
        Err(_) => false,
    }
}

/// `getrandom::fill` fills the 32 bytes with random ones, or says why it
/// could not. Nothing is known of the bytes.
#[verifier::external_body]
pub(crate) fn random_bytes() -> Result<[u8; 32], String> {
    let mut bytes = [0u8; 32];
    match getrandom::fill(&mut bytes) {
        Ok(()) => Ok(bytes),
        Err(e) => Err(e.to_string()),
    }
}

/// Hexadecimal text is read back as the bytes it was written for.
pub proof fn hex_reads_back(bytes: Seq<u8>)
    ensures
        is_hex(hex_text(bytes)),
        hex_bytes(hex_text(bytes)) == bytes,
{
    let s = hex_text(bytes);
    assert forall|n: nat| n < 16 implies hex_value(#[trigger] hex_digit(n)) == Some(n) by {}
    assert forall|i: int| 0 <= i < s.len() implies hex_value(#[trigger] s[i]) is Some by {
        assert(hex_value(hex_digit(bytes[i / 2] as nat / 16)) is Some);
        assert(hex_value(hex_digit(bytes[i / 2] as nat % 16)) is Some);
    }
    assert forall|i: int| 0 <= i < bytes.len() implies hex_bytes(s)[i] == bytes[i] by {
        let b = bytes[i] as nat;
        assert((2 * i) / 2 == i && (2 * i + 1) / 2 == i);
        assert((2 * i) % 2 == 0 && (2 * i + 1) % 2 == 1);
        assert(s[2 * i] == hex_digit(b / 16));
        assert(s[2 * i + 1] == hex_digit(b % 16));
        assert(hex_value(s[2 * i]) == Some(b / 16));
        assert(hex_value(s[2 * i + 1]) == Some(b % 16));
    }
    assert(hex_bytes(s) =~= bytes);
}

/// Which texts are hexadecimal, and what they stand for: two digits of either
/// case for each byte, the first of them counting sixteen times.
pub proof fn hex_stands_for_bytes(s: Seq<char>)
    ensures
        is_hex(s) <==> s.len() % 2 == 0 && forall|i: int|
            0 <= i < s.len() ==> {
                let n = #[trigger] s[i] as u32;
                48 <= n <= 57 || 65 <= n <= 70 || 97 <= n <= 102
            },
        hex_bytes(s).len() == s.len() / 2,
        is_hex(s) ==> forall|i: int|
            0 <= i < s.len() / 2 ==> #[trigger] hex_bytes(s)[i] == 16 * hex_value(s[2 * i])->0
                + hex_value(s[2 * i + 1])->0,
        forall|c: char| 48 <= c as u32 <= 57 ==> #[trigger] hex_value(c) == Some(
            (c as u32 - 48) as nat,
        ),
        forall|c: char| 65 <= c as u32 <= 70 ==> #[trigger] hex_value(c) == Some(
            (c as u32 - 55) as nat,
        ),
        forall|c: char| 97 <= c as u32 <= 102 ==> #[trigger] hex_value(c) == Some(
            (c as u32 - 87) as nat,
        ),
{
    assert forall|i: int| 0 <= i < s.len() implies (hex_value(#[trigger] s[i]) is Some <==> {
        let n = s[i] as u32;
        48 <= n <= 57 || 65 <= n <= 70 || 97 <= n <= 102
    }) by {}
    if is_hex(s) {
        assert forall|i: int| 0 <= i < s.len() / 2 implies #[trigger] hex_bytes(s)[i] == 16
            * hex_value(s[2 * i])->0 + hex_value(s[2 * i + 1])->0 by {
            assert(hex_value(s[2 * i]) is Some);
            assert(hex_value(s[2 * i + 1]) is Some);
        }
    }
}

/// Bytes are written with two small hexadecimal digits each, the first for its
/// sixteens.
pub proof fn bytes_are_written_in_small_digits(bytes: Seq<u8>)
    ensures
        hex_text(bytes).len() == 2 * bytes.len(),
        forall|i: int|
            0 <= i < hex_text(bytes).len() ==> {
                let n = #[trigger] hex_text(bytes)[i] as u32;
                48 <= n <= 57 || 97 <= n <= 102
            },
        forall|i: int|
            0 <= i < bytes.len() ==> #[trigger] bytes[i] == 16 * hex_value(
                hex_text(bytes)[2 * i],
            )->0 + hex_value(hex_text(bytes)[2 * i + 1])->0,
{
    hex_reads_back(bytes);
    hex_stands_for_bytes(hex_text(bytes));
    assert forall|i: int| 0 <= i < bytes.len() implies #[trigger] bytes[i] == 16 * hex_value(
        hex_text(bytes)[2 * i],
    )->0 + hex_value(hex_text(bytes)[2 * i + 1])->0 by {
        assert(hex_bytes(hex_text(bytes))[i] == bytes[i]);
    }
}

} // verus!
