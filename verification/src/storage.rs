//! The seam between the registry and the places that hold its bytes.
//!
//! `Storage` is what the registry asks of a store. Every operation carries the
//! repository name, so that a routing store can place repositories on different
//! volumes; a store with one root may ignore it.
//!
//! The contracts of the operations say one thing only: that the call and its
//! answer are added to the record of the store, `log`. What a function of this
//! crate does with a store is then stated over the calls that it adds to the
//! record, whatever the store answers. `Volume` gives such a record to any place
//! that holds bytes.

use vstd::prelude::*;

use crate::digest::{Digest, DigestView};
use crate::manifest::Manifest;
use crate::order;
use crate::text;

verus! {

/// A manifest reference: a tag or a digest.
#[derive(Debug, Clone)]
pub enum Reference {
    Tag(String),
    Digest(Digest),
}

pub enum ReferenceView {
    Tag(Seq<char>),
    Digest(DigestView),
}

impl View for Reference {
    type V = ReferenceView;

    open spec fn view(&self) -> ReferenceView {
        match *self {
            Reference::Tag(t) => ReferenceView::Tag(t@),
            Reference::Digest(d) => ReferenceView::Digest(d@),
        }
    }
}

#[derive(Debug)]
pub enum StorageError {
    NotFound,
    DigestMismatch { expected: Digest, got: Digest },
    Invalid(String),
    QuotaExceeded(String),
    Io(String),
    Internal(String),
}

impl StorageError {
    /// The message that reports this error.
    pub open spec fn message(self) -> Seq<char> {
        match self {
            StorageError::NotFound => "not found"@,
            StorageError::DigestMismatch { expected, got } => "digest mismatch: expected "@
                + expected@.text() + ", got "@ + got@.text(),
            StorageError::Invalid(s) => "invalid argument: "@ + s@,
            StorageError::QuotaExceeded(s) => "quota exceeded: "@ + s@,
            StorageError::Io(s) => "io: "@ + s@,
            StorageError::Internal(s) => "internal: "@ + s@,
        }
    }

    pub fn to_string(&self) -> (r: String)
        ensures
            r@ == self.message(),
    {
        match self {
            StorageError::NotFound => "not found".to_owned(),
            StorageError::DigestMismatch { expected, got } => {
                let e = expected.to_string();
                let g = got.to_string();
                let mut s = text::cat3("digest mismatch: expected ", e.as_str(), ", got ");
                s.append(g.as_str());
                s
            },
            StorageError::Invalid(s) => text::cat("invalid argument: ", s.as_str()),
            StorageError::QuotaExceeded(s) => text::cat("quota exceeded: ", s.as_str()),
            StorageError::Io(s) => text::cat("io: ", s.as_str()),
            StorageError::Internal(s) => text::cat("internal: ", s.as_str()),
        }
    }
}

/// Server-side state of a blob upload in progress.
#[derive(Debug, Clone, Copy, PartialEq, Eq, Structural)]
pub struct UploadStatus {
    /// The session's UUID, as a number.
    pub id: u128,
    /// Bytes received so far; the next chunk starts here.
    pub offset: u64,
}

/// A manifest as a backend hands it out: its bytes, and what they reference where
/// they read as a manifest.
#[derive(Debug, Clone)]
pub struct StoredManifest {
    pub content: Vec<u8>,
    pub refs: Option<Manifest>,
}

/// One operation on a store, with its answer.
#[allow(inconsistent_fields)]
pub enum Call {
    BlobExists { repo: Seq<char>, digest: DigestView, reply: Result<bool, StorageError> },
    BlobSize { repo: Seq<char>, digest: DigestView, reply: Result<u64, StorageError> },
    BlobRead { repo: Seq<char>, digest: DigestView, reply: Result<Seq<u8>, StorageError> },
    BlobWrite {
        repo: Seq<char>,
        digest: DigestView,
        content: Seq<u8>,
        reply: Result<(), StorageError>,
    },
    BlobDelete { repo: Seq<char>, digest: DigestView, reply: Result<(), StorageError> },
    UploadCreate { repo: Seq<char>, reply: Result<UploadStatus, StorageError> },
    UploadState { repo: Seq<char>, id: u128, reply: Result<UploadStatus, StorageError> },
    UploadAppend {
        repo: Seq<char>,
        id: u128,
        chunk: Seq<u8>,
        reply: Result<UploadStatus, StorageError>,
    },
    UploadFinalize {
        repo: Seq<char>,
        id: u128,
        digest: DigestView,
        reply: Result<(), StorageError>,
    },
    UploadCancel { repo: Seq<char>, id: u128, reply: Result<(), StorageError> },
    ManifestGet {
        repo: Seq<char>,
        reference: ReferenceView,
        reply: Result<(Seq<u8>, Option<Manifest>), StorageError>,
    },
    ManifestPut {
        repo: Seq<char>,
        reference: ReferenceView,
        content: Seq<u8>,
        reply: Result<DigestView, StorageError>,
    },
    ManifestDelete { repo: Seq<char>, reference: ReferenceView, reply: Result<(), StorageError> },
    ListRepos { reply: Result<Seq<Seq<char>>, StorageError> },
    ListTags { repo: Seq<char>, reply: Result<Seq<Seq<char>>, StorageError> },
    ListManifestDigests { repo: Seq<char>, reply: Result<Seq<DigestView>, StorageError> },
    ListAllBlobs { reply: Result<Seq<DigestView>, StorageError> },
}

/// The failure that a call was answered with.
pub open spec fn error_of(c: Call) -> Option<StorageError> {
    match c {
        Call::BlobExists { reply: Err(e), .. } => Some(e),
        Call::BlobSize { reply: Err(e), .. } => Some(e),
        Call::BlobRead { reply: Err(e), .. } => Some(e),
        Call::BlobWrite { reply: Err(e), .. } => Some(e),
        Call::BlobDelete { reply: Err(e), .. } => Some(e),
        Call::UploadCreate { reply: Err(e), .. } => Some(e),
        Call::UploadState { reply: Err(e), .. } => Some(e),
        Call::UploadAppend { reply: Err(e), .. } => Some(e),
        Call::UploadFinalize { reply: Err(e), .. } => Some(e),
        Call::UploadCancel { reply: Err(e), .. } => Some(e),
        Call::ManifestGet { reply: Err(e), .. } => Some(e),
        Call::ManifestPut { reply: Err(e), .. } => Some(e),
        Call::ManifestDelete { reply: Err(e), .. } => Some(e),
        Call::ListRepos { reply: Err(e) } => Some(e),
        Call::ListTags { reply: Err(e), .. } => Some(e),
        Call::ListManifestDigests { reply: Err(e), .. } => Some(e),
        Call::ListAllBlobs { reply: Err(e) } => Some(e),
        _ => None,
    }
}

/// The last of `calls` was answered with the failure `e`.
pub open spec fn ends_with_error(calls: Seq<Call>, e: StorageError) -> bool {
    calls.len() > 0 && error_of(calls.last()) == Some(e)
}

pub open spec fn bytes_reply(r: Result<Vec<u8>, StorageError>) -> Result<Seq<u8>, StorageError> {
    match r {
        Ok(v) => Ok(v@),
        Err(e) => Err(e),
    }
}

pub open spec fn manifest_reply(r: Result<StoredManifest, StorageError>) -> Result<
    (Seq<u8>, Option<Manifest>),
    StorageError,
> {
    match r {
        Ok(m) => Ok((m.content@, m.refs)),
        Err(e) => Err(e),
    }
}

pub open spec fn digest_reply(r: Result<Digest, StorageError>) -> Result<
    DigestView,
    StorageError,
> {
    match r {
        Ok(d) => Ok(d@),
        Err(e) => Err(e),
    }
}

pub open spec fn list_reply<K: View>(r: Result<Vec<K>, StorageError>) -> Result<
    Seq<K::V>,
    StorageError,
> {
    match r {
        Ok(v) => Ok(order::views_of(v@)),
        Err(e) => Err(e),
    }
}

/// A place that holds blobs, manifests and uploads.
pub trait Storage: Sized {
    /// The operations so far, with their answers, oldest first.
    spec fn log(&self) -> Seq<Call>;

    /// The store's own invariant.
    spec fn wf(&self) -> bool;

    /// What a store that is made of others began with.
    type Origin;

    /// The operations leave it as it is, so that what such a store has become can be
    /// told from its record.
    spec fn origin(&self) -> Self::Origin;

    // ---- Blobs ----------------------------------------------------------

    fn blob_exists(&mut self, repo: &str, digest: &Digest) -> (r: Result<bool, StorageError>)
        requires
            old(self).wf(),
        ensures
            final(self).wf(),
            final(self).origin() == old(self).origin(),
            final(self).log() == old(self).log().push(
                Call::BlobExists { repo: repo@, digest: digest@, reply: r },
            ),
    ;

    fn blob_size(&mut self, repo: &str, digest: &Digest) -> (r: Result<u64, StorageError>)
        requires
            old(self).wf(),
        ensures
            final(self).wf(),
            final(self).origin() == old(self).origin(),
            final(self).log() == old(self).log().push(
                Call::BlobSize { repo: repo@, digest: digest@, reply: r },
            ),
    ;

    fn blob_read(&mut self, repo: &str, digest: &Digest) -> (r: Result<Vec<u8>, StorageError>)
        requires
            old(self).wf(),
        ensures
            final(self).wf(),
            final(self).origin() == old(self).origin(),
            final(self).log() == old(self).log().push(
                Call::BlobRead { repo: repo@, digest: digest@, reply: bytes_reply(r) },
            ),
    ;

    /// Writes a blob whose content hashes to `expected`. A backend answers a
    /// mismatch with `DigestMismatch`.
    fn blob_write(&mut self, repo: &str, expected: &Digest, content: &[u8]) -> (r: Result<
        (),
        StorageError,
    >)
        requires
            old(self).wf(),
        ensures
            final(self).wf(),
            final(self).origin() == old(self).origin(),
            final(self).log() == old(self).log().push(
                Call::BlobWrite { repo: repo@, digest: expected@, content: content@, reply: r },
            ),
    ;

    fn blob_delete(&mut self, repo: &str, digest: &Digest) -> (r: Result<(), StorageError>)
        requires
            old(self).wf(),
        ensures
            final(self).wf(),
            final(self).origin() == old(self).origin(),
            final(self).log() == old(self).log().push(
                Call::BlobDelete { repo: repo@, digest: digest@, reply: r },
            ),
    ;

    // ---- Upload sessions ------------------------------------------------

    fn upload_create(&mut self, repo: &str) -> (r: Result<UploadStatus, StorageError>)
        requires
            old(self).wf(),
        ensures
            final(self).wf(),
            final(self).origin() == old(self).origin(),
            final(self).log() == old(self).log().push(Call::UploadCreate { repo: repo@, reply: r }),
    ;

    fn upload_status(&mut self, repo: &str, id: u128) -> (r: Result<UploadStatus, StorageError>)
        requires
            old(self).wf(),
        ensures
            final(self).wf(),
            final(self).origin() == old(self).origin(),
            final(self).log() == old(self).log().push(
                Call::UploadState { repo: repo@, id, reply: r },
            ),
    ;

    /// Appends a chunk and gives the state after it.
    fn upload_append(&mut self, repo: &str, id: u128, chunk: &[u8]) -> (r: Result<
        UploadStatus,
        StorageError,
    >)
        requires
            old(self).wf(),
        ensures
            final(self).wf(),
            final(self).origin() == old(self).origin(),
            final(self).log() == old(self).log().push(
                Call::UploadAppend { repo: repo@, id, chunk: chunk@, reply: r },
            ),
    ;

    /// Ends the upload: checks that the received bytes hash to `expected` and
    /// moves them into the blob store.
    fn upload_finalize(&mut self, repo: &str, id: u128, expected: &Digest) -> (r: Result<
        (),
        StorageError,
    >)
        requires
            old(self).wf(),
        ensures
            final(self).wf(),
            final(self).origin() == old(self).origin(),
            final(self).log() == old(self).log().push(
                Call::UploadFinalize { repo: repo@, id, digest: expected@, reply: r },
            ),
    ;

    fn upload_cancel(&mut self, repo: &str, id: u128) -> (r: Result<(), StorageError>)
        requires
            old(self).wf(),
        ensures
            final(self).wf(),
            final(self).origin() == old(self).origin(),
            final(self).log() == old(self).log().push(
                Call::UploadCancel { repo: repo@, id, reply: r },
            ),
    ;

    // ---- Manifests ------------------------------------------------------

    fn manifest_get(&mut self, repo: &str, reference: &Reference) -> (r: Result<
        StoredManifest,
        StorageError,
    >)
        requires
            old(self).wf(),
        ensures
            final(self).wf(),
            final(self).origin() == old(self).origin(),
            final(self).log() == old(self).log().push(
                Call::ManifestGet {
                    repo: repo@,
                    reference: reference@,
                    reply: manifest_reply(r),
                },
            ),
    ;

    /// Stores a manifest and gives its canonical digest.
    fn manifest_put(&mut self, repo: &str, reference: &Reference, content: &[u8]) -> (r: Result<
        Digest,
        StorageError,
    >)
        requires
            old(self).wf(),
        ensures
            final(self).wf(),
            final(self).origin() == old(self).origin(),
            final(self).log() == old(self).log().push(
                Call::ManifestPut {
                    repo: repo@,
                    reference: reference@,
                    content: content@,
                    reply: digest_reply(r),
                },
            ),
    ;

    fn manifest_delete(&mut self, repo: &str, reference: &Reference) -> (r: Result<
        (),
        StorageError,
    >)
        requires
            old(self).wf(),
        ensures
            final(self).wf(),
            final(self).origin() == old(self).origin(),
            final(self).log() == old(self).log().push(
                Call::ManifestDelete { repo: repo@, reference: reference@, reply: r },
            ),
    ;

    // ---- Listing --------------------------------------------------------

    /// Sorted, unique list of the repositories that have a manifest.
    fn list_repos(&mut self) -> (r: Result<Vec<String>, StorageError>)
        requires
            old(self).wf(),
        ensures
            final(self).wf(),
            final(self).origin() == old(self).origin(),
            final(self).log() == old(self).log().push(Call::ListRepos { reply: list_reply(r) }),
    ;

    /// Sorted, unique list of the tags of a repository.
    fn list_tags(&mut self, repo: &str) -> (r: Result<Vec<String>, StorageError>)
        requires
            old(self).wf(),
        ensures
            final(self).wf(),
            final(self).origin() == old(self).origin(),
            final(self).log() == old(self).log().push(
                Call::ListTags { repo: repo@, reply: list_reply(r) },
            ),
    ;

    /// Every manifest digest stored under a repository.
    fn list_manifest_digests(&mut self, repo: &str) -> (r: Result<Vec<Digest>, StorageError>)
        requires
            old(self).wf(),
        ensures
            final(self).wf(),
            final(self).origin() == old(self).origin(),
            final(self).log() == old(self).log().push(
                Call::ListManifestDigests { repo: repo@, reply: list_reply(r) },
            ),
    ;

    /// Every blob digest in the store.
    fn list_all_blobs(&mut self) -> (r: Result<Vec<Digest>, StorageError>)
        requires
            old(self).wf(),
        ensures
            final(self).wf(),
            final(self).origin() == old(self).origin(),
            final(self).log() == old(self).log().push(Call::ListAllBlobs { reply: list_reply(r) }),
    ;
}

/// The calls that `after` has beyond `before`.
pub open spec fn added(before: Seq<Call>, after: Seq<Call>) -> Seq<Call> {
    after.subrange(before.len() as int, after.len() as int)
}

/// `after` is `before` with more calls behind it.
pub open spec fn extends(before: Seq<Call>, after: Seq<Call>) -> bool {
    before.len() <= after.len() && after.subrange(0, before.len() as int) == before
}

pub proof fn lemma_added_none(log: Seq<Call>)
    ensures
        extends(log, log),
        added(log, log) == Seq::<Call>::empty(),
{
    assert(log.subrange(0, log.len() as int) =~= log);
    assert(added(log, log) =~= Seq::<Call>::empty());
}

/// One more call on the record is one more added call.
pub proof fn lemma_added_push(start: Seq<Call>, was: Seq<Call>, c: Call)
    requires
        extends(start, was),
    ensures
        extends(start, was.push(c)),
        added(start, was.push(c)) == added(start, was).push(c),
{
    assert(was.push(c).subrange(0, start.len() as int) =~= was.subrange(0, start.len() as int));
    assert(added(start, was.push(c)) =~= added(start, was).push(c));
}

/// A record with one call more has one added call.
pub proof fn lemma_added_one(log: Seq<Call>, c: Call)
    ensures
        extends(log, log.push(c)),
        added(log, log.push(c)) == seq![c],
{
    lemma_added_none(log);
    lemma_added_push(log, log, c);
    assert(added(log, log.push(c)) =~= seq![c]);
}

pub proof fn lemma_contains_push(calls: Seq<Call>, c: Call)
    ensures
        calls.push(c).contains(c),
        forall|x: Call| #[trigger] calls.contains(x) ==> calls.push(c).contains(x),
{
    let t = calls.push(c);
    assert(t[calls.len() as int] == c);
    assert forall|x: Call| #[trigger] calls.contains(x) implies t.contains(x) by {
        let i = choose|i: int| 0 <= i < calls.len() && calls[i] == x;
        assert(t[i] == x);
    }
}

/// Calls added in two stages.
pub proof fn lemma_added_twice(a: Seq<Call>, b: Seq<Call>, c: Seq<Call>)
    requires
        extends(a, b),
        extends(b, c),
    ensures
        extends(a, c),
        added(a, c) == added(a, b) + added(b, c),
{
    assert(c.subrange(0, a.len() as int) =~= a) by {
        assert forall|i: int| 0 <= i < a.len() implies c.subrange(0, a.len() as int)[i] == a[i] by {
            assert(c.subrange(0, b.len() as int)[i] == b[i]);
            assert(b.subrange(0, a.len() as int)[i] == a[i]);
        }
    }
    assert forall|i: int| 0 <= i < added(a, b).len() implies added(a, c)[i] == added(a, b)[i] by {
        assert(c.subrange(0, b.len() as int)[a.len() + i] == b[a.len() + i]);
    }
    assert(added(a, c) =~= added(a, b) + added(b, c));
}

/// The largest `usize` that is at most `n`.
pub open spec fn sat_count(n: nat) -> usize {
    if n <= usize::MAX {
        n as usize
    } else {
        usize::MAX
    }
}

/// The largest `u64` that is at most `n`.
pub open spec fn sat(n: nat) -> u64 {
    if n <= u64::MAX {
        n as u64
    } else {
        u64::MAX
    }
}

/// The sizes that a run of `BlobSize` calls gave, a failed one counting nothing.
pub open spec fn size_sum(calls: Seq<Call>) -> nat
    decreases calls.len(),
{
    if calls.len() == 0 {
        0
    } else {
        size_sum(calls.drop_last()) + match calls.last() {
            Call::BlobSize { reply: Ok(n), .. } => n as nat,
            _ => 0,
        }
    }
}

/// The calls `calls` ask the size of each of `digests` in turn.
pub open spec fn sizes_asked(calls: Seq<Call>, digests: Seq<DigestView>) -> bool {
    &&& calls.len() == digests.len()
    &&& forall|i: int|
        0 <= i < calls.len() ==> (#[trigger] calls[i] matches Call::BlobSize {
            repo,
            digest,
            ..
        } && repo == ""@ && digest == digests[i])
}

/// `calls` list the blobs and ask the size of each; `r` is the sum, or the failure
/// of the listing.
pub open spec fn summed_up(calls: Seq<Call>, r: Result<u64, StorageError>) -> bool {
    &&& calls.len() > 0
    &&& match calls[0] {
        Call::ListAllBlobs { reply: Ok(blobs) } => {
            let sizes = calls.subrange(1, calls.len() as int);
            sizes_asked(sizes, blobs) && r == Ok::<u64, StorageError>(sat(size_sum(sizes)))
        },
        Call::ListAllBlobs { reply: Err(e) } => calls.len() == 1 && r == Err::<u64, StorageError>(
            e,
        ),
        _ => false,
    }
}

/// The total size of the blobs of a store: lists them and adds up their sizes; a
/// blob whose size cannot be had counts nothing, and a sum beyond `u64` is given
/// as its largest value.
pub fn used_bytes<S: Storage>(store: &mut S) -> (r: Result<u64, StorageError>)
    requires
        old(store).wf(),
    ensures
        final(store).wf(),
        final(store).origin() == old(store).origin(),
        extends(old(store).log(), final(store).log()),
        summed_up(added(old(store).log(), final(store).log()), r),
{
    let ghost start = store.log();
    let blobs = match store.list_all_blobs() {
        Ok(v) => v,
        Err(e) => {
            assert(added(start, store.log()) =~= seq![store.log().last()]);
            assert(store.log().subrange(0, start.len() as int) =~= start);
            return Err(e);
        },
    };
    let ghost mid = store.log();
    let mut total: u64 = 0;
    let mut i: usize = 0;
    assert(added(mid, mid) =~= Seq::<Call>::empty());
    assert(mid.subrange(0, mid.len() as int) =~= mid);
    while i < blobs.len()
        invariant
            i <= blobs@.len(),
            store.wf(),
            store.origin() == old(store).origin(),
            extends(mid, store.log()),
            sizes_asked(added(mid, store.log()), order::views_of(blobs@.take(i as int))),
            total == sat(size_sum(added(mid, store.log()))),
        decreases blobs@.len() - i,
    {
        let ghost was = store.log();
        let size = match store.blob_size("", &blobs[i]) {
            Ok(n) => n,
            Err(_) => 0,
        };
        total = total.saturating_add(size);
        i = i + 1;
        proof {
            let a = added(mid, was);
            let b = added(mid, store.log());
            assert(b =~= a.push(store.log().last()));
            assert(b.drop_last() =~= a);
            assert(order::views_of(blobs@.take(i as int)) =~= order::views_of(
                blobs@.take(i - 1),
            ).push(blobs@[i - 1]@));
            assert(store.log().subrange(0, mid.len() as int) =~= mid) by {
                assert(was.subrange(0, mid.len() as int) == mid);
            }
        }
    }
    proof {
        assert(blobs@.take(i as int) =~= blobs@);
        let calls = added(start, store.log());
        assert(calls[0] == mid.last()) by {
            assert(store.log().subrange(0, mid.len() as int)[start.len() as int] == mid.last());
        }
        assert(calls.subrange(1, calls.len() as int) =~= added(mid, store.log()));
        assert(store.log().subrange(0, start.len() as int) =~= start) by {
            assert(store.log().subrange(0, mid.len() as int) == mid);
            assert(mid.subrange(0, start.len() as int) =~= start);
        }
    }
    Ok(total)
}

} // verus!
