//! What success means when stores can fail: nothing was passed over but what is missing.

use vstd::prelude::*;

use crate::digest::DigestView;
use crate::gc;
use crate::gc::GcReport;
use crate::laws::refers;
use crate::manifest::Manifest;
use crate::migrate;
use crate::storage;
use crate::storage::{Call, ReferenceView, StorageError};
use crate::transfer;
use crate::walk;
use crate::walk::Place;

verus! {

/// The answer is there, or says that there is no such thing.
pub open spec fn answers<T>(r: Result<T, StorageError>) -> bool {
    r is Ok || r->Err_0 == StorageError::NotFound
}

/// A collection that went through got every listing, and every manifest that was listed and
/// is still there; and no blob was left for a failure.
pub proof fn collection_saw_everything(calls: Seq<Call>, report: GcReport, i: int)
    requires
        gc::collected(calls, report),
        0 <= i < calls.len(),
    ensures
        match calls[i] {
            Call::ListRepos { reply } => reply is Ok,
            Call::ListManifestDigests { reply, .. } => reply is Ok,
            Call::ListAllBlobs { reply } => reply is Ok,
            Call::ManifestGet { reply, .. } => answers(reply),
            Call::BlobDelete { reply, .. } => answers(reply),
            _ => true,
        },
{
    let (repos, blobs, m) = choose|repos: Seq<Seq<char>>, blobs: Seq<DigestView>, m: int|
        #[trigger] gc::phases(calls, repos, blobs, m);
    assert(gc::fatal(calls[i]) is None);
}

proof fn lemma_reads(calls: Seq<Call>)
    ensures
        gc::reads(calls) == calls.filter(|c: Call| c is ManifestGet).len(),
    decreases calls.len(),
{
    reveal(Seq::filter);
    if calls.len() > 0 {
        lemma_reads(calls.drop_last());
    }
}

/// The report of a collection says how many repositories were listed and how many manifests
/// were read before the blobs were listed.
pub proof fn collection_reports_what_it_saw(calls: Seq<Call>, report: GcReport) -> (m: int)
    requires
        gc::collected(calls, report),
    ensures
        0 < m < calls.len(),
        calls[0] is ListRepos,
        calls[0]->ListRepos_reply is Ok,
        report.repos_scanned == calls[0]->ListRepos_reply->Ok_0.len(),
        calls[m] is ListAllBlobs,
        calls.subrange(1, m).filter(|c: Call| c is ManifestGet).len() <= usize::MAX
            ==> report.manifests_scanned == calls.subrange(1, m).filter(
            |c: Call| c is ManifestGet,
        ).len(),
{
    let (repos, blobs, m) = choose|repos: Seq<Seq<char>>, blobs: Seq<DigestView>, m: int|
        #[trigger] gc::phases(calls, repos, blobs, m) && {
            &&& report.repos_scanned == repos.len()
            &&& report.manifests_scanned == storage::sat_count(gc::reads(calls.subrange(1, m)))
        };
    lemma_reads(calls.subrange(1, m));
    m
}

proof fn lemma_marked(calls: Seq<Call>, j: int)
    requires
        0 <= j < calls.len(),
    ensures
        gc::marks(calls[j]).subset_of(gc::marked(calls)),
    decreases calls.len(),
{
    if j < calls.len() - 1 {
        lemma_marked(calls.drop_last(), j);
        assert(calls.drop_last()[j] == calls[j]);
    }
}

/// Whatever a store answers, no blob is deleted that a manifest has which was read before, or
/// that is itself a manifest which was listed.
pub proof fn no_blob_in_use_is_deleted(calls: Seq<Call>, i: int, j: int)
    requires
        gc::careful(calls),
        0 <= j < i < calls.len(),
        calls[i] is BlobDelete,
    ensures
        calls[j] is ManifestGet && calls[j]->ManifestGet_reply is Ok ==> (
        calls[j]->ManifestGet_reply->Ok_0.1 matches Some(m) ==> !refers::has(
            m,
            calls[i]->BlobDelete_digest,
        )),
        calls[j] is ListManifestDigests && calls[j]->ListManifestDigests_reply is Ok
            ==> !calls[j]->ListManifestDigests_reply->Ok_0.contains(calls[i]->BlobDelete_digest),
{
    let d = calls[i]->BlobDelete_digest;
    let before = calls.take(i);
    assert(gc::careful_call(before, calls[i]));
    assert(before[j] == calls[j]);
    lemma_marked(before, j);
    assert(!gc::marks(calls[j]).contains(d));
    match calls[j] {
        Call::ManifestGet { reply: Ok((_, Some(m))), .. } => {
            refers::lemma_has(m);
            assert(!m.references().to_set().contains(d));
            if m.references().contains(d) {
                assert(m.references().to_set().contains(d));
            }
        },
        Call::ListManifestDigests { reply: Ok(ds), .. } => {
            if ds.contains(d) {
                assert(ds.to_set().contains(d));
            }
        },
        _ => {},
    }
}

/// Whatever a store answers, a collection writes nothing, and deletes nothing but blobs.
pub proof fn collection_touches_blobs_only(calls: Seq<Call>, i: int)
    requires
        gc::careful(calls),
        0 <= i < calls.len(),
    ensures
        !(calls[i] is BlobWrite),
        !(calls[i] is UploadCreate),
        !(calls[i] is UploadAppend),
        !(calls[i] is UploadFinalize),
        !(calls[i] is UploadCancel),
        !(calls[i] is ManifestPut),
        !(calls[i] is ManifestDelete),
{
    assert(gc::careful_call(calls.take(i), calls[i]));
}

/// A search that went through got every listing, and every manifest that was asked for and
/// is still there.
pub proof fn search_saw_everything(calls: Seq<Call>, i: int)
    requires
        walk::searching(calls),
        0 <= i < calls.len(),
    ensures
        match calls[i] {
            Call::ListRepos { reply } => reply is Ok,
            Call::ListTags { reply, .. } => reply is Ok,
            Call::ListManifestDigests { reply, .. } => reply is Ok,
            Call::ManifestGet { reply, .. } => answers(reply),
            _ => false,
        },
{
    assert(walk::looks(calls[i]) && walk::fatal(calls[i]) is None);
}

/// A copy that went through: the source gave all that it was asked for and has, and the
/// target took all that it was given.
pub proof fn copy_saw_no_failure(u: Seq<Call>, v: Seq<Call>, strict: bool, i: int, j: int)
    requires
        transfer::copying(u, v, strict),
        0 <= i < u.len(),
        0 <= j < v.len(),
    ensures
        match u[i] {
            Call::BlobRead { reply, .. } => answers(reply),
            Call::ManifestGet { reply, .. } => answers(reply),
            _ => false,
        },
        match v[j] {
            Call::BlobExists { reply, .. } => reply is Ok,
            Call::BlobWrite { reply, .. } => reply is Ok,
            Call::ManifestPut { reply, .. } => reply is Ok,
            Call::ManifestGet { reply, .. } => answers(reply) || !strict,
            _ => false,
        },
{
    assert(transfer::source_fatal(u[i]) is None);
    assert(transfer::target_fatal(v[j], strict) is None);
    assert(transfer::in_order(u, v.take(j), v[j], strict));
}

/// The target said that it has the blob, or took it.
pub open spec fn has_blob(v: Seq<Call>, p: Place) -> bool {
    exists|k: int|
        0 <= k < v.len() && match #[trigger] v[k] {
            Call::BlobExists { repo, digest, reply } => repo == p.0 && digest == p.1 && reply
                == Ok::<bool, StorageError>(true),
            Call::BlobWrite { repo, digest, reply, .. } => repo == p.0 && digest == p.1
                && reply is Ok,
            _ => false,
        }
}

/// The source said that it has no such blob.
pub open spec fn lacks_blob(u: Seq<Call>, p: Place) -> bool {
    exists|k: int|
        0 <= k < u.len() && match #[trigger] u[k] {
            Call::BlobRead { repo, digest, reply } => repo == p.0 && digest == p.1 && reply is Err
                && reply->Err_0 == StorageError::NotFound,
            _ => false,
        }
}

/// The target handed out the manifest, or took it by its digest.
pub open spec fn has_manifest(v: Seq<Call>, p: Place) -> bool {
    exists|k: int|
        0 <= k < v.len() && match #[trigger] v[k] {
            Call::ManifestGet { repo, reference, reply } => repo == p.0 && reference
                == ReferenceView::Digest(p.1) && reply is Ok,
            Call::ManifestPut { repo, reference, reply, .. } => repo == p.0 && reference
                == ReferenceView::Digest(p.1) && reply is Ok,
            _ => false,
        }
}

/// The source said that it has no such manifest.
pub open spec fn lacks_manifest(u: Seq<Call>, p: Place) -> bool {
    exists|k: int|
        0 <= k < u.len() && match #[trigger] u[k] {
            Call::ManifestGet { repo, reference, reply } => repo == p.0 && reference
                == ReferenceView::Digest(p.1) && reply is Err && reply->Err_0
                == StorageError::NotFound,
            _ => false,
        }
}

/// Everything that was to be copied is on the target, or was gone from the source when it
/// was asked for it, whatever else failed.
pub proof fn nothing_is_left_out(
    u: Seq<Call>,
    v: Seq<Call>,
    manifests: Set<Place>,
    blobs: Set<Place>,
    tags: Seq<transfer::TagPointerView>,
    strict: bool,
    p: Place,
)
    requires
        transfer::all_done(u, v, manifests, blobs, tags, strict),
    ensures
        blobs.contains(p) ==> has_blob(v, p) || lacks_blob(u, p),
        manifests.contains(p) ==> has_manifest(v, p) || lacks_manifest(u, p),
{
    if blobs.contains(p) {
        assert(transfer::blob_done(u, v, p));
        lemma_blob(u, v, p);
    }
    if manifests.contains(p) {
        assert(transfer::manifest_done(u, v, p, strict));
        lemma_manifest(u, v, p, strict);
    }
}

proof fn lemma_blob(u: Seq<Call>, v: Seq<Call>, p: Place)
    requires
        transfer::blob_done(u, v, p),
    ensures
        has_blob(v, p) || lacks_blob(u, p),
{
    let yes = Call::BlobExists { repo: p.0, digest: p.1, reply: Ok(true) };
    let no = Call::BlobRead { repo: p.0, digest: p.1, reply: Err(StorageError::NotFound) };
    if v.contains(yes) {
        let k = choose|k: int| 0 <= k < v.len() && v[k] == yes;
        assert(v[k] is BlobExists);
    } else if u.contains(no) {
        let k = choose|k: int| 0 <= k < u.len() && u[k] == no;
        assert(u[k] is BlobRead);
    } else {
        let content = choose|content: Seq<u8>| #[trigger]
            u.contains(Call::BlobRead { repo: p.0, digest: p.1, reply: Ok(content) })
                && transfer::took_blob(v, p, content);
        let x = choose|x: ()| #[trigger]
            v.contains(Call::BlobWrite { repo: p.0, digest: p.1, content, reply: Ok(x) });
        let c = Call::BlobWrite { repo: p.0, digest: p.1, content, reply: Ok(x) };
        let k = choose|k: int| 0 <= k < v.len() && v[k] == c;
        assert(v[k] is BlobWrite);
    }
}

proof fn lemma_manifest(u: Seq<Call>, v: Seq<Call>, p: Place, strict: bool)
    requires
        transfer::manifest_done(u, v, p, strict),
    ensures
        has_manifest(v, p) || lacks_manifest(u, p),
{
    let r = ReferenceView::Digest(p.1);
    if transfer::held(v, p) {
        let x = choose|x: (Seq<u8>, Option<Manifest>)| #[trigger]
            v.contains(Call::ManifestGet { repo: p.0, reference: r, reply: Ok(x) });
        let c = Call::ManifestGet { repo: p.0, reference: r, reply: Ok(x) };
        let k = choose|k: int| 0 <= k < v.len() && v[k] == c;
        assert(v[k] is ManifestGet);
    } else if transfer::gone(u, p) {
        let c = Call::ManifestGet { repo: p.0, reference: r, reply: Err(StorageError::NotFound) };
        let k = choose|k: int| 0 <= k < u.len() && u[k] == c;
        assert(u[k] is ManifestGet);
    } else {
        let content = choose|content: Seq<u8>| #[trigger]
            transfer::gave(u, p, content) && transfer::took(v, p.0, r, content);
        let d = choose|d: DigestView| #[trigger]
            v.contains(Call::ManifestPut { repo: p.0, reference: r, content, reply: Ok(d) });
        let c = Call::ManifestPut { repo: p.0, reference: r, content, reply: Ok(d) };
        let k = choose|k: int| 0 <= k < v.len() && v[k] == c;
        assert(v[k] is ManifestPut);
    }
}

/// A purge that went through got its listings, and every deletion was done or had been.
pub proof fn purge_saw_no_failure(t: Seq<Call>, repo: Seq<char>, i: int)
    requires
        migrate::purged(t, repo),
        0 <= i < t.len(),
    ensures
        match t[i] {
            Call::ListTags { repo: r, reply } => r == repo && reply is Ok,
            Call::ListManifestDigests { repo: r, reply } => r == repo && reply is Ok,
            Call::ManifestDelete { repo: r, reply, .. } => r == repo && answers(reply),
            _ => false,
        },
{
    assert(migrate::purge_fatal(t[i]) is None);
    let n = t[0]->ListTags_reply->Ok_0.len() as int;
    if 1 <= i <= n {
        assert(t[1 + (i - 1)] is ManifestDelete);
    } else if i > n + 1 {
        assert(t[n + 2 + (i - n - 2)] is ManifestDelete);
    }
}

} // verus!
