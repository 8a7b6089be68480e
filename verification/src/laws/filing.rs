//! Where things are filed, and in which words failures are told.

use vstd::prelude::*;

use crate::digest::{Algorithm, DigestErrorView, DigestView};
use crate::fs;
use crate::k8s::ReviewError;
use crate::laws::words;
use crate::outside;
use crate::storage::StorageError;
use crate::text;

verus! {

/// A blob is filed by its algorithm and the first two of its digits.
pub proof fn blobs_are_filed_by_their_digest(d: DigestView)
    ensures
        d.algorithm == Algorithm::Sha256 ==> fs::blob_file(d) == "blobs/sha256/"@ + d.hex.take(2)
            + "/"@ + d.hex,
        d.algorithm == Algorithm::Sha512 ==> fs::blob_file(d) == "blobs/sha512/"@ + d.hex.take(2)
            + "/"@ + d.hex,
{
    reveal_strlit("/");
    reveal_strlit("blobs");
    reveal_strlit("sha256");
    reveal_strlit("sha512");
    reveal_strlit("blobs/sha256/");
    reveal_strlit("blobs/sha512/");
    assert("blobs/sha256/"@ =~= "blobs"@ + seq!['/'] + "sha256"@ + seq!['/']);
    assert("blobs/sha512/"@ =~= "blobs"@ + seq!['/'] + "sha512"@ + seq!['/']);
    assert("/"@ =~= seq!['/']);
    let s = fs::blob_file(d);
    if d.algorithm == Algorithm::Sha256 {
        assert(s =~= "blobs/sha256/"@ + d.hex.take(2) + "/"@ + d.hex);
    } else {
        assert(s =~= "blobs/sha512/"@ + d.hex.take(2) + "/"@ + d.hex);
    }
}

/// A manifest and a tag are filed under their repository, a manifest by its digest and a tag
/// by its name.
pub proof fn manifests_and_tags_are_filed_under_their_repository(
    repo: Seq<char>,
    tag: Seq<char>,
    d: DigestView,
)
    requires
        repo.len() > 0,
    ensures
        fs::tag_file(repo, tag) == "manifests/"@ + repo + "/tags/"@ + tag,
        fs::digest_file(repo, d) == "manifests/"@ + repo + "/digests/"@ + d.text(),
        fs::tags_dir(repo) + seq!['/'] + tag == fs::tag_file(repo, tag),
        fs::digests_dir(repo) + seq!['/'] + d.text() == fs::digest_file(repo, d),
{
    reveal_strlit("manifests");
    reveal_strlit("manifests/");
    reveal_strlit("tags");
    reveal_strlit("/tags/");
    reveal_strlit("digests");
    reveal_strlit("/digests/");
    assert("manifests/"@ =~= "manifests"@ + seq!['/']);
    assert("/tags/"@ =~= seq!['/'] + "tags"@ + seq!['/']);
    assert("/digests/"@ =~= seq!['/'] + "digests"@ + seq!['/']);
    assert(fs::tag_file(repo, tag) =~= "manifests/"@ + repo + "/tags/"@ + tag);
    assert(fs::digest_file(repo, d) =~= "manifests/"@ + repo + "/digests/"@ + d.text());
}

/// An upload is filed by its id.
pub proof fn uploads_are_filed_by_their_id(id: u128)
    ensures
        fs::upload_file(id) == "uploads/"@ + outside::uuid_hyphenated(id),
{
    reveal_strlit("uploads");
    reveal_strlit("uploads/");
    assert("uploads/"@ =~= "uploads"@ + seq!['/']);
}

/// A file is left over from a write if its name ends like one; such a file is none of those
/// that are listed.
pub proof fn leftovers_are_told_by_their_name(s: Seq<char>)
    ensures
        fs::unfinished(s + ".tmp"@),
        fs::unfinished(s) ==> s.len() >= 4 && s == s.take(s.len() - 4) + ".tmp"@,
{
    reveal_strlit(".tmp");
    words::beginning_with(".tmp"@, s, s);
    if fs::unfinished(s) {
        assert(s.take(s.len() - 4) =~= s.subrange(0, s.len() - 4));
    }
}

/// A repository is listed under its name, which is separated by slashes.
pub proof fn repositories_are_listed_by_their_name(s: Seq<char>, i: int)
    requires
        0 <= i < s.len(),
    ensures
        fs::shown(s).len() == s.len(),
        s[i] == '\\' ==> fs::shown(s)[i] == '/',
        s[i] != '\\' ==> fs::shown(s)[i] == s[i],
        words::lacks(s, '\\') ==> fs::shown(s) == s,
{
    if words::lacks(s, '\\') {
        assert(fs::shown(s) =~= s);
    }
}

/// A file that is missing is nothing that could be found; any other failure is one of the
/// files.
pub proof fn missing_files_are_not_found(e: crate::files::FileError)
    ensures
        e.missing ==> fs::found(e) == StorageError::NotFound,
        !e.missing ==> fs::found(e) == StorageError::Io(e.text),
        fs::failed(e) == StorageError::Io(e.text),
{
}

/// The failures of a store in words.
pub proof fn failures_in_words(e: StorageError)
    ensures
        match e {
            StorageError::NotFound => e.message() == "not found"@,
            StorageError::DigestMismatch { expected, got } => e.message()
                == "digest mismatch: expected "@ + expected@.text() + ", got "@ + got@.text(),
            StorageError::Invalid(s) => e.message() == "invalid argument: "@ + s@,
            StorageError::QuotaExceeded(s) => e.message() == "quota exceeded: "@ + s@,
            StorageError::Io(s) => e.message() == "io: "@ + s@,
            StorageError::Internal(s) => e.message() == "internal: "@ + s@,
        },
{
}

/// What is wrong with a digest in words.
pub proof fn problems_of_a_digest_in_words(s: Seq<char>, a: nat, b: nat)
    ensures
        DigestErrorView::MissingColon.text() == "missing ':' in digest"@,
        DigestErrorView::NonHex.text() == "hex contains non-hex characters"@,
        DigestErrorView::UnknownAlgorithm(s).text() == "unknown algorithm: "@ + s,
        (DigestErrorView::HexLen { expected: a as int, got: b as int }).text()
            == "hex length wrong: expected "@ + text::decimal(a) + ", got "@ + text::decimal(b),
{
}

/// The failures of the cluster in words.
pub proof fn failures_of_the_cluster_in_words(e: ReviewError)
    ensures
        match e {
            ReviewError::Unreachable(m) => e.text() == "api server unreachable: "@ + m@,
            ReviewError::ApiError(m) => e.text() == "api server rejected review: "@ + m@,
        },
{
}

} // verus!
