//! Calls into hashing, encoding and identifier crates.

use base64::Engine;
use vstd::prelude::*;

verus! {

/// The SHA-256 hash of a byte string.
pub uninterp spec fn sha256(content: Seq<u8>) -> Seq<u8>;

/// The SHA-512 hash of a byte string.
pub uninterp spec fn sha512(content: Seq<u8>) -> Seq<u8>;

/// `sha2::Sha256::digest`: hashes a byte string in one go. The contract names the
/// result and says that it has 32 bytes.
#[verifier::external_body]
pub(crate) fn hash_sha256(content: &[u8]) -> (r: Vec<u8>)
    ensures
        r@ == sha256(content@),
        r@.len() == 32,
{
    <sha2::Sha256 as sha2::Digest>::digest(content).to_vec()
}

/// `sha2::Sha512::digest`: hashes a byte string in one go. The contract names the
/// result and says that it has 64 bytes.
#[verifier::external_body]
pub(crate) fn hash_sha512(content: &[u8]) -> (r: Vec<u8>)
    ensures
        r@ == sha512(content@),
        r@.len() == 64,
{
    <sha2::Sha512 as sha2::Digest>::digest(content).to_vec()
}

/// The lower-case hexadecimal digit for a number under 16.
pub open spec fn hex_digit(n: int) -> char {
    if n < 10 {
        (('0' as u32 + n) as u32) as char
    } else {
        (('a' as u32 + n - 10) as u32) as char
    }
}

/// Two lower-case hexadecimal digits for each byte, the high half first.
pub open spec fn hex_text(bytes: Seq<u8>) -> Seq<char> {
    Seq::new(
        bytes.len() * 2,
        |i: int| {
            if i % 2 == 0 {
                hex_digit(bytes[i / 2] as int / 16)
            } else {
                hex_digit(bytes[i / 2] as int % 16)
            }
        },
    )
}

/// `hex::encode`: writes each byte as two lower-case hexadecimal digits.
#[verifier::external_body]
pub(crate) fn hex_encode(bytes: &[u8]) -> (r: String)
    ensures
        r@ == hex_text(bytes@),
{
    hex::encode(bytes)
}

/// What a password check against a bcrypt hash says; `None` where the hash cannot be
/// read as one.
pub uninterp spec fn bcrypt_check(password: Seq<char>, hash: Seq<char>) -> Option<bool>;

/// `bcrypt::verify`: hashes the password with the salt and cost of the hash and
/// compares. The contract names the result.
#[verifier::external_body]
pub(crate) fn bcrypt_verify(password: &str, hash: &str) -> (r: Option<bool>)
    ensures
        r == bcrypt_check(password@, hash@),
{
    bcrypt::verify(password, hash).ok()
}

/// The bytes that a text stands for in standard padded base64.
pub uninterp spec fn base64_bytes(text: Seq<char>) -> Option<Seq<u8>>;

/// `decode` of base64's `STANDARD` engine. The contract names the result.
#[verifier::external_body]
pub(crate) fn base64_decode(text: &str) -> (r: Option<Vec<u8>>)
    ensures
        match r {
            Some(v) => base64_bytes(text@) == Some(v@),
            None => base64_bytes(text@) is None,
        },
{
    base64::engine::general_purpose::STANDARD.decode(text).ok()
}

/// `String::from_utf8`: the text of a byte string that is well-formed UTF-8.
#[verifier::external_body]
pub(crate) fn utf8_text(bytes: Vec<u8>) -> (r: Option<String>)
    ensures
        match r {
            Some(s) => vstd::utf8::valid_utf8(bytes@) && s@ == vstd::utf8::decode_utf8(bytes@),
            None => !vstd::utf8::valid_utf8(bytes@),
        },
{
    String::from_utf8(bytes).ok()
}

/// The number that a text stands for as a UUID, in any of the usual forms.
pub uninterp spec fn uuid_of(text: Seq<char>) -> Option<u128>;

/// The hexadecimal digit of `id` at place `k`, counted from the left.
pub open spec fn uuid_digit(id: u128, k: int) -> char {
    hex_digit((id as int / vstd::arithmetic::power::pow(16, (31 - k) as nat)) % 16)
}

/// A UUID in groups of 8, 4, 4, 4 and 12 hexadecimal digits with hyphens between.
pub open spec fn uuid_hyphenated(id: u128) -> Seq<char> {
    let d = Seq::new(32, |k: int| uuid_digit(id, k));
    d.subrange(0, 8) + seq!['-'] + d.subrange(8, 12) + seq!['-'] + d.subrange(12, 16) + seq!['-']
        + d.subrange(16, 20) + seq!['-'] + d.subrange(20, 32)
}

/// `Uuid::parse_str`. The contract names the result.
#[verifier::external_body]
pub(crate) fn uuid_parse(text: &str) -> (r: Option<u128>)
    ensures
        r == uuid_of(text@),
{
    uuid::Uuid::parse_str(text).ok().map(|u| u.as_u128())
}

/// `Display` of `Uuid`: lower-case and hyphenated. Such a text reads back as the
/// same number.
#[verifier::external_body]
pub(crate) fn uuid_text(id: u128) -> (r: String)
    ensures
        r@ == uuid_hyphenated(id),
        uuid_of(r@) == Some(id),
{
    uuid::Uuid::from_u128(id).to_string()
}

/// `Uuid::new_v4`: a random UUID. Nothing is promised of its value.
#[verifier::external_body]
pub(crate) fn uuid_random() -> (r: u128)
{
    uuid::Uuid::new_v4().as_u128()
}

/// What is wrong with a byte string as JSON, where it is not well-formed.
pub uninterp spec fn json_problem(content: Seq<u8>) -> Option<Seq<char>>;

/// `serde_json::from_slice` to a `Value`, of which the error is kept. The contract
/// names its text.
#[verifier::external_body]
pub(crate) fn json_check(content: &[u8]) -> (r: Option<String>)
    ensures
        crate::text::opt(r) == json_problem(content@),
{
    serde_json::from_slice::<serde_json::Value>(content).err().map(|e| e.to_string())
}

/// The string that a pointer leads to in a JSON text; `None` where the text is no
/// JSON or there is no string.
pub uninterp spec fn json_text(content: Seq<u8>, pointer: Seq<char>) -> Option<Seq<char>>;

/// `Value::pointer` and `as_str`, on what `serde_json::from_slice` reads. The
/// contract names the result.
#[verifier::external_body]
pub(crate) fn json_text_at(content: &[u8], pointer: &str) -> (r: Option<String>)
    ensures
        crate::text::opt(r) == json_text(content@, pointer@),
{
    let v = serde_json::from_slice::<serde_json::Value>(content).ok()?;
    v.pointer(pointer).and_then(|x| x.as_str()).map(|x| x.to_string())
}

/// The boolean that a pointer leads to in a JSON text; `None` where the text is no
/// JSON or there is no boolean.
pub uninterp spec fn json_flag(content: Seq<u8>, pointer: Seq<char>) -> Option<bool>;

/// `Value::pointer` and `as_bool`, on what `serde_json::from_slice` reads. The
/// contract names the result.
#[verifier::external_body]
pub(crate) fn json_flag_at(content: &[u8], pointer: &str) -> (r: Option<bool>)
    ensures
        r == json_flag(content@, pointer@),
{
    let v = serde_json::from_slice::<serde_json::Value>(content).ok()?;
    v.pointer(pointer).and_then(|x| x.as_bool())
}

/// The length of the array that a pointer leads to in a JSON text; `None` where the
/// text is no JSON or there is no array.
pub uninterp spec fn json_len(content: Seq<u8>, pointer: Seq<char>) -> Option<usize>;

/// `Value::pointer` and `as_array`, on what `serde_json::from_slice` reads. The
/// contract names the length of the result.
#[verifier::external_body]
pub(crate) fn json_len_at(content: &[u8], pointer: &str) -> (r: Option<usize>)
    ensures
        r == json_len(content@, pointer@),
{
    let v = serde_json::from_slice::<serde_json::Value>(content).ok()?;
    v.pointer(pointer).and_then(|x| x.as_array()).map(|x| x.len())
}

/// The text of a byte string in which each malformed part is replaced by U+FFFD.
pub uninterp spec fn lossy_text(bytes: Seq<u8>) -> Seq<char>;

/// `String::from_utf8_lossy`. The contract names the result and says that
/// well-formed UTF-8 is read as it is.
#[verifier::external_body]
pub(crate) fn utf8_lossy(bytes: &[u8]) -> (r: String)
    ensures
        r@ == lossy_text(bytes@),
        vstd::utf8::valid_utf8(bytes@) ==> r@ == vstd::utf8::decode_utf8(bytes@),
{
    String::from_utf8_lossy(bytes).into_owned()
}

/// A JSON value of serde_json, carried through unread.
#[verifier::external_type_specification]
#[verifier::external_body]
pub struct ExJsonValue(serde_json::Value);

} // verus!
