//! Digests, and the codes of failures.

use vstd::prelude::*;

use crate::digest;
use crate::digest::{Algorithm, DigestErrorView, DigestView};
use crate::error;
use crate::error::OciCode;
use crate::handlers;
use crate::laws::words;
use crate::outside;
use crate::storage::{ReferenceView, StorageError};
use crate::text;

verus! {

/// Digits and the letters from `a` to `f`, so many of them.
pub open spec fn is_code(s: Seq<char>, n: nat) -> bool {
    s.len() == n && forall|i: int|
        0 <= i < s.len() ==> ('0' <= #[trigger] s[i] && s[i] <= '9') || ('a' <= s[i] && s[i]
            <= 'f')
}

/// The digest is written so: the name of the algorithm, a colon and its code, of 64 digits
/// for SHA-256 and of 128 for SHA-512.
pub open spec fn is_written(d: DigestView, s: Seq<char>) -> bool {
    match d.algorithm {
        Algorithm::Sha256 => s == "sha256:"@ + d.hex && is_code(d.hex, 64),
        Algorithm::Sha512 => s == "sha512:"@ + d.hex && is_code(d.hex, 128),
    }
}

/// A text reads as a digest exactly when the digest is written so.
pub proof fn digests_are_read_as_they_are_written(s: Seq<char>, d: DigestView)
    ensures
        digest::parsed(s) == Ok::<DigestView, DigestErrorView>(d) <==> is_written(d, s),
        is_written(d, s) ==> d.text() == s,
{
    reveal_strlit("sha256");
    reveal_strlit("sha512");
    reveal_strlit("sha256:");
    reveal_strlit("sha512:");
    assert("sha256"@ + seq![':'] =~= "sha256:"@);
    assert("sha512"@ + seq![':'] =~= "sha512:"@);
    if digest::parsed(s) == Ok::<DigestView, DigestErrorView>(d) {
        digest::digest_text_is_canonical(s);
        assert(d.text() == s);
        assert(d.wf());
        lemma_code(d);
    }
    if is_written(d, s) {
        lemma_code(d);
        assert(d.text() =~= s);
        digest::digest_round_trip(d);
    }
}

proof fn lemma_code(d: DigestView)
    ensures
        d.wf() <==> is_code(
            d.hex,
            if d.algorithm == Algorithm::Sha256 {
                64
            } else {
                128
            },
        ),
{
}

/// Why a text does not read as one: it has no colon; the name in front of the first is of
/// no algorithm; there are too few or too many bytes behind it; or one is no digit of
/// lower case.
pub proof fn texts_that_are_no_digest(name: Seq<char>, code: Seq<char>, s: Seq<char>)
    requires
        words::lacks(name, ':'),
    ensures
        words::lacks(s, ':') ==> digest::parsed(s) == Err::<DigestView, _>(
            DigestErrorView::MissingColon,
        ),
        name != "sha256"@ && name != "sha512"@ ==> digest::parsed(name + seq![':'] + code) == Err::<
            DigestView,
            _,
        >(DigestErrorView::UnknownAlgorithm(name)),
        name == "sha256"@ && vstd::utf8::encode_utf8(code).len() != 64 ==> digest::parsed(
            name + seq![':'] + code,
        ) == Err::<DigestView, _>(
            DigestErrorView::HexLen {
                expected: 64,
                got: vstd::utf8::encode_utf8(code).len() as int,
            },
        ),
        name == "sha512"@ && vstd::utf8::encode_utf8(code).len() != 128 ==> digest::parsed(
            name + seq![':'] + code,
        ) == Err::<DigestView, _>(
            DigestErrorView::HexLen {
                expected: 128,
                got: vstd::utf8::encode_utf8(code).len() as int,
            },
        ),
        name == "sha256"@ && vstd::utf8::encode_utf8(code).len() == 64 && !is_code(code, code.len())
            ==> digest::parsed(name + seq![':'] + code) == Err::<DigestView, _>(
            DigestErrorView::NonHex,
        ),
        name == "sha512"@ && vstd::utf8::encode_utf8(code).len() == 128 && !is_code(
            code,
            code.len(),
        ) ==> digest::parsed(name + seq![':'] + code) == Err::<DigestView, _>(
            DigestErrorView::NonHex,
        ),
{
    reveal_strlit("sha256");
    reveal_strlit("sha512");
    assert("sha256"@[3] == '2' && "sha512"@[3] == '5');
    words::first_place_of_a_character(name, ':', code);
    let t = name + seq![':'] + code;
    assert(t.subrange(0, name.len() as int) =~= name);
    assert(text::from_pos(t, (name.len() + 1) as int) =~= code);
    if words::lacks(s, ':') && s.contains(':') {
        let i = choose|i: int| 0 <= i < s.len() && s[i] == ':';
        assert(s[i] != ':');
    }
}

/// Contents are named by the hash of the algorithm, two digits for each byte, the high
/// half first.
pub proof fn contents_are_named_by_their_hash(a: Algorithm, content: Seq<u8>, i: int)
    ensures
        ({
            let hash = match a {
                Algorithm::Sha256 => outside::sha256(content),
                Algorithm::Sha512 => outside::sha512(content),
            };
            let d = digest::content_digest(a, content);
            &&& d.algorithm == a
            &&& d.hex.len() == 2 * hash.len()
            &&& 0 <= i < hash.len() ==> digit_of(d.hex[2 * i]) == hash[i] as int / 16 && digit_of(
                d.hex[2 * i + 1],
            ) == hash[i] as int % 16
        }),
{
    let hash = match a {
        Algorithm::Sha256 => outside::sha256(content),
        Algorithm::Sha512 => outside::sha512(content),
    };
    if 0 <= i < hash.len() {
        assert((2 * i) / 2 == i && (2 * i) % 2 == 0);
        assert((2 * i + 1) / 2 == i && (2 * i + 1) % 2 == 1);
        lemma_digit(hash[i] as int / 16);
        lemma_digit(hash[i] as int % 16);
    }
}

/// The number that a hexadecimal digit stands for.
pub open spec fn digit_of(c: char) -> int {
    if '0' <= c && c <= '9' {
        c as int - '0' as int
    } else {
        c as int - 'a' as int + 10
    }
}

proof fn lemma_digit(n: int)
    requires
        0 <= n < 16,
    ensures
        digit_of(outside::hex_digit(n)) == n,
{
}

/// A reference that is written like a digest is one, and any other is a tag.
pub proof fn references_are_digests_or_tags(s: Seq<char>)
    ensures
        handlers::reference_of(s) is Digest <==> exists|d: DigestView| #[trigger] is_written(d, s),
        forall|d: DigestView| #[trigger]
            is_written(d, s) ==> handlers::reference_of(s) == ReferenceView::Digest(d),
        handlers::reference_of(s) is Tag ==> handlers::reference_of(s) == ReferenceView::Tag(s),
{
    assert forall|d: DigestView| #[trigger] is_written(d, s) implies handlers::reference_of(s)
        == ReferenceView::Digest(d) by {
        digests_are_read_as_they_are_written(s, d);
    }
    if handlers::reference_of(s) is Digest {
        let d = handlers::reference_of(s)->Digest_0;
        digests_are_read_as_they_are_written(s, d);
        assert(is_written(d, s));
    }
}

/// The code of a failure, and the status that goes with it: what is unknown is not found,
/// who is not known is unauthorized, what is denied is forbidden, what is not supported
/// is not allowed, and everything else is a bad request.
pub proof fn failures_have_their_code_and_status(c: OciCode)
    ensures
        c == OciCode::BlobUnknown ==> c.text() == "BLOB_UNKNOWN"@ && c.status() == 404,
        c == OciCode::BlobUploadUnknown ==> c.text() == "BLOB_UPLOAD_UNKNOWN"@ && c.status()
            == 404,
        c == OciCode::ManifestBlobUnknown ==> c.text() == "MANIFEST_BLOB_UNKNOWN"@ && c.status()
            == 404,
        c == OciCode::ManifestUnknown ==> c.text() == "MANIFEST_UNKNOWN"@ && c.status() == 404,
        c == OciCode::NameUnknown ==> c.text() == "NAME_UNKNOWN"@ && c.status() == 404,
        c == OciCode::Unauthorized ==> c.text() == "UNAUTHORIZED"@ && c.status() == 401,
        c == OciCode::Denied ==> c.text() == "DENIED"@ && c.status() == 403,
        c == OciCode::Unsupported ==> c.text() == "UNSUPPORTED"@ && c.status() == 405,
        c == OciCode::BlobUploadInvalid ==> c.text() == "BLOB_UPLOAD_INVALID"@ && c.status()
            == 400,
        c == OciCode::DigestInvalid ==> c.text() == "DIGEST_INVALID"@ && c.status() == 400,
        c == OciCode::ManifestInvalid ==> c.text() == "MANIFEST_INVALID"@ && c.status() == 400,
        c == OciCode::NameInvalid ==> c.text() == "NAME_INVALID"@ && c.status() == 400,
        c == OciCode::SizeInvalid ==> c.text() == "SIZE_INVALID"@ && c.status() == 400,
{
}

/// How the failures of a store are reported: what is not there as 404, wrong content as a
/// bad digest, too much as 413, and trouble of its own as 500.
pub proof fn store_failures_are_reported(e: StorageError)
    ensures
        ({
            let x = error::storage_error(e);
            &&& e is NotFound ==> x.status == 404 && x.code == OciCode::BlobUnknown
            &&& e is DigestMismatch ==> x.status == 400 && x.code == OciCode::DigestInvalid
            &&& e is Invalid ==> x.status == 400 && x.code == OciCode::BlobUploadInvalid
                && x.message == e->Invalid_0@
            &&& e is QuotaExceeded ==> x.status == 413 && x.code == OciCode::Denied && x.message
                == e->QuotaExceeded_0@
            &&& e is Io ==> x.status == 500 && x.code == OciCode::Unsupported
            &&& e is Internal ==> x.status == 500 && x.code == OciCode::Unsupported && x.message
                == e->Internal_0@
        }),
{
}

} // verus!
