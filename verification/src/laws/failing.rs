//! What is answered when a store fails, and what is not told twice.

use vstd::prelude::*;

use crate::digest;
use crate::digest::DigestView;
use crate::error;
use crate::error::OciErrorView;
use crate::handlers;
use crate::http::ResponseView;
use crate::laws::naming;
use crate::laws::protocol;
use crate::manifest::Manifest;
use crate::model;
use crate::model::{Holdings, Reading};
use crate::storage;
use crate::storage::{Call, ReferenceView, StorageError};

verus! {

/// The store failed at the last call, other than by having no such thing.
pub open spec fn broke(calls: Seq<Call>, e: StorageError) -> bool {
    &&& calls.len() > 0
    &&& e != StorageError::NotFound
    &&& match calls.last() {
        Call::BlobExists { reply, .. } => reply == Err::<bool, _>(e),
        Call::BlobSize { reply, .. } => reply == Err::<u64, _>(e),
        Call::BlobRead { reply, .. } => reply == Err::<Seq<u8>, _>(e),
        Call::BlobWrite { reply, .. } => reply == Err::<(), _>(e),
        Call::BlobDelete { reply, .. } => reply == Err::<(), _>(e),
        Call::UploadCreate { reply, .. } => reply == Err::<storage::UploadStatus, _>(e),
        Call::UploadState { reply, .. } => reply == Err::<storage::UploadStatus, _>(e),
        Call::UploadAppend { reply, .. } => reply == Err::<storage::UploadStatus, _>(e),
        Call::UploadFinalize { reply, .. } => reply == Err::<(), _>(e),
        Call::UploadCancel { reply, .. } => reply == Err::<(), _>(e),
        Call::ManifestGet { reply, .. } => reply == Err::<(Seq<u8>, Option<Manifest>), _>(e),
        Call::ManifestPut { reply, .. } => reply == Err::<DigestView, _>(e),
        Call::ManifestDelete { reply, .. } => reply == Err::<(), _>(e),
        Call::ListRepos { reply } => reply == Err::<Seq<Seq<char>>, _>(e),
        Call::ListTags { reply, .. } => reply == Err::<Seq<Seq<char>>, _>(e),
        Call::ListManifestDigests { reply, .. } => reply == Err::<Seq<DigestView>, _>(e),
        Call::ListAllBlobs { reply } => reply == Err::<Seq<DigestView>, _>(e),
    }
}

/// A store that fails at a listing, a manifest or a blob is told of as it failed: nothing is
/// taken for missing that is not.
pub proof fn failures_are_handed_on(
    calls: Seq<Call>,
    repo: Seq<char>,
    name: Seq<char>,
    a: Option<Seq<char>>,
    n: Option<usize>,
    body: Seq<u8>,
    refs: Option<Manifest>,
    head_only: bool,
    e: StorageError,
    r: Result<ResponseView, OciErrorView>,
)
    requires
        broke(calls, e),
        ({
            ||| handlers::catalog_listed(calls, n, a, r)
            ||| handlers::tags_listed(calls, repo, n, a, r)
            ||| handlers::manifest_fetched(calls, repo, name, head_only, r)
            ||| handlers::manifest_kept(calls, repo, name, a, body, refs, r)
            ||| handlers::manifest_deleted(calls, repo, name, r)
            ||| handlers::blob_fetched(calls, repo, name, head_only, r)
            ||| handlers::blob_deleted(calls, repo, name, r)
        }),
    ensures
        r == Err::<ResponseView, _>(error::storage_error(e)),
{
}

/// So is one that fails at an upload.
pub proof fn failures_of_uploads_are_handed_on(
    calls: Seq<Call>,
    repo: Seq<char>,
    name: Seq<char>,
    a: Option<Seq<char>>,
    body: Seq<u8>,
    e: StorageError,
    r: Result<ResponseView, OciErrorView>,
)
    requires
        broke(calls, e),
        ({
            ||| handlers::upload_asked(calls, repo, name, r)
            ||| handlers::chunk_taken(calls, repo, name, body, r)
            ||| handlers::upload_cancelled(calls, repo, name, r)
            ||| handlers::upload_finished(calls, repo, name, a, body, r)
        }),
    ensures
        r == Err::<ResponseView, _>(error::storage_error(e)),
{
    if handlers::upload_finished(calls, repo, name, a, body, r) {
        if calls.len() > 1 {
            assert(calls.drop_first().last() == calls.last());
        }
    }
}

/// And one that fails at the referrers of a manifest; a manifest that has gone meanwhile is
/// passed over.
pub proof fn failures_at_referrers_are_handed_on(
    calls: Seq<Call>,
    repo: Seq<char>,
    name: Seq<char>,
    a: Option<Seq<char>>,
    e: StorageError,
    r: Result<ResponseView, OciErrorView>,
)
    requires
        broke(calls, e),
        handlers::referrers_listed(calls, repo, name, a, r),
    ensures
        r == Err::<ResponseView, _>(error::storage_error(e)),
{
    if calls.len() > 1 {
        let rest = calls.drop_first();
        assert(rest.last() == calls.last());
        assert(rest[rest.len() - 1] == rest.last());
        assert(rest[rest.len() - 1] is ManifestGet);
    }
}

/// How a request to mount began.
proof fn lemma_mount(
    calls: Seq<Call>,
    repo: Seq<char>,
    digest: Option<Seq<char>>,
    mount: Option<Seq<char>>,
    from: Option<Seq<char>>,
    body: Seq<u8>,
    r: Result<ResponseView, OciErrorView>,
) -> (found: (int, Result<Option<DigestView>, OciErrorView>))
    requires
        handlers::upload_started(calls, repo, digest, mount, from, body, r),
        handlers::valid_name(repo),
    ensures
        0 <= found.0 <= calls.len(),
        handlers::mount_tried(calls.take(found.0), repo, mount, from, found.1),
        match found.1 {
            Err(e) => found.0 == calls.len() && r == Err::<ResponseView, _>(e),
            Ok(Some(d)) => found.0 == calls.len() && r == Ok::<_, OciErrorView>(
                handlers::blob_created(repo, d),
            ),
            Ok(None) => handlers::started(
                calls.subrange(found.0, calls.len() as int),
                repo,
                digest,
                body,
                r,
            ),
        },
{
    choose|k: int, m: Result<Option<DigestView>, OciErrorView>|
        0 <= k <= calls.len() && #[trigger] handlers::mount_tried(
            calls.take(k),
            repo,
            mount,
            from,
            m,
        ) && match m {
            Err(e) => k == calls.len() && r == Err::<ResponseView, _>(e),
            Ok(Some(d)) => k == calls.len() && r == Ok::<_, OciErrorView>(
                handlers::blob_created(repo, d),
            ),
            Ok(None) => handlers::started(
                calls.subrange(k, calls.len() as int),
                repo,
                digest,
                body,
                r,
            ),
        }
}

/// A blob that its repository lacks is mounted from the other one: it is read there and
/// written here as it was read, and the answer is that it is in place. Where it cannot be
/// read an upload begins.
pub proof fn blob_is_mounted_from_elsewhere(
    calls: Seq<Call>,
    repo: Seq<char>,
    name: Seq<char>,
    d: DigestView,
    from: Seq<char>,
    body: Seq<u8>,
    r: Result<ResponseView, OciErrorView>,
)
    requires
        handlers::upload_started(calls, repo, None, Some(name), Some(from), body, r),
        handlers::valid_name(repo),
        handlers::valid_name(from),
        naming::is_written(d, name),
        calls.len() > 0,
        calls[0] == (Call::BlobExists { repo, digest: d, reply: Ok(false) }),
    ensures
        calls.len() > 1,
        calls[1] is BlobRead,
        calls[1]->BlobRead_repo == from,
        calls[1]->BlobRead_digest == d,
        match calls[1]->BlobRead_reply {
            Ok(bytes) => calls.len() == 3 && match calls[2] {
                Call::BlobWrite { repo: q, digest, content, reply } => {
                    &&& q == repo
                    &&& digest == d
                    &&& content == bytes
                    &&& reply is Ok ==> protocol::says_created(r, repo, d)
                    &&& reply is Err ==> r == Err::<ResponseView, _>(
                        error::storage_error(reply->Err_0),
                    )
                },
                _ => false,
            },
            Err(_) => calls.len() == 3 && calls[2] is UploadCreate,
        },
{
    naming::digests_are_read_as_they_are_written(name, d);
    let (k, m) = lemma_mount(calls, repo, None, Some(name), Some(from), body, r);
    let some = calls.take(k);
    assert(some[0] == calls[0]);
    let more = some.drop_first();
    assert(more[0] == calls[1]);
    if calls[1]->BlobRead_reply is Ok {
        assert(more[1] == calls[2]);
    } else {
        let rest = calls.subrange(k, calls.len() as int);
        assert(rest[0] == calls[2]);
    }
}

/// A request to mount that names no digest, or no right repository to mount a blob from,
/// begins an upload.
pub proof fn no_mount_without_names(
    calls: Seq<Call>,
    repo: Seq<char>,
    mount: Option<Seq<char>>,
    from: Option<Seq<char>>,
    body: Seq<u8>,
    r: Result<ResponseView, OciErrorView>,
)
    requires
        handlers::upload_started(calls, repo, None, mount, from, body, r),
        handlers::valid_name(repo),
    ensures
        mount is None || digest::parsed(mount->0) is Err ==> calls.len() == 1
            && calls[0] is UploadCreate,
        mount is Some && digest::parsed(mount->0) is Ok ==> calls.len() > 0
            && calls[0] is BlobExists,
        mount is Some && digest::parsed(mount->0) is Ok && (from is None || !handlers::valid_name(
            from->0,
        )) && calls[0]->BlobExists_reply == Ok::<bool, StorageError>(false) ==> calls.len() == 2
            && calls[1] is UploadCreate,
{
    let (k, m) = lemma_mount(calls, repo, None, mount, from, body, r);
    let some = calls.take(k);
    let rest = calls.subrange(k, calls.len() as int);
    if k > 0 {
        assert(some[0] == calls[0]);
    }
    if rest.len() > 0 {
        assert(rest[0] == calls[k]);
    }
}

/// A failure while a mount is looked for, or while an upload begins, is told of.
pub proof fn failures_at_the_start_are_handed_on(
    calls: Seq<Call>,
    repo: Seq<char>,
    digest: Option<Seq<char>>,
    mount: Option<Seq<char>>,
    from: Option<Seq<char>>,
    body: Seq<u8>,
    e: StorageError,
    r: Result<ResponseView, OciErrorView>,
)
    requires
        handlers::upload_started(calls, repo, digest, mount, from, body, r),
        broke(calls, e),
        !(calls.last() is BlobRead),
    ensures
        r == Err::<ResponseView, _>(error::storage_error(e)),
{
    let (k, m) = lemma_mount(calls, repo, digest, mount, from, body, r);
    let some = calls.take(k);
    let rest = calls.subrange(k, calls.len() as int);
    if rest.len() > 0 {
        assert(rest.last() == calls.last());
    } else {
        assert(some.last() == calls.last());
        if some.len() > 1 {
            assert(some.drop_first().last() == calls.last());
            assert(some.drop_first()[0] == some[1]);
        }
    }
}

proof fn lemma_texts_differ(a: DigestView, b: DigestView)
    ensures
        a.text() == b.text() <==> a == b,
{
    reveal_strlit("sha256");
    reveal_strlit("sha512");
    let x = a.algorithm.spec_name();
    let y = b.algorithm.spec_name();
    assert("sha256"@[3] == '2' && "sha512"@[3] == '5');
    if a.text() == b.text() {
        assert(a.text()[3] == x[3]);
        assert(b.text()[3] == y[3]);
        assert(a.algorithm == b.algorithm);
        assert(a.text().subrange(7, a.text().len() as int) =~= a.hex);
        assert(b.text().subrange(7, b.text().len() as int) =~= b.hex);
        assert(a.hex =~= b.hex);
    }
}

proof fn lemma_entries_once(
    rest: Seq<Call>,
    repo: Seq<char>,
    ds: Seq<DigestView>,
    subject: DigestView,
    filter: Option<Seq<char>>,
    n: nat,
)
    requires
        handlers::reading(rest, repo, ds),
        ds.no_duplicates(),
        n <= rest.len(),
    ensures
        ({
            let l = handlers::entries_of(rest.take(n as int), subject, filter);
            &&& l.len() <= n
            &&& forall|i: int|
                0 <= i < l.len() ==> exists|k: int|
                    0 <= k < n && (#[trigger] l[i]).digest == (#[trigger] ds[k]).text()
            &&& forall|i: int, j: int|
                0 <= i < j < l.len() ==> (#[trigger] l[i]).digest != (#[trigger] l[j]).digest
        }),
    decreases n,
{
    let c = rest.take(n as int);
    if n > 0 {
        let m = (n - 1) as nat;
        lemma_entries_once(rest, repo, ds, subject, filter, m);
        assert(c.drop_last() =~= rest.take(m as int));
        let before = handlers::entries_of(rest.take(m as int), subject, filter);
        let l = handlers::entries_of(c, subject, filter);
        assert(c.last() == rest[n - 1]);
        let x = handlers::entry_of(rest[n - 1], subject, filter);
        assert(x.len() <= 1);
        assert(x.len() == 1 ==> x[0].digest == ds[n - 1].text());
        assert forall|i: int| 0 <= i < l.len() implies exists|k: int|
            0 <= k < n && (#[trigger] l[i]).digest == (#[trigger] ds[k]).text() by {
            if i < before.len() {
                assert(l[i] == before[i]);
                let k = choose|k: int|
                    0 <= k < m && before[i].digest == (#[trigger] ds[k]).text();
                assert(l[i].digest == ds[k].text());
            } else {
                assert(l[i] == x[0]);
                assert(l[i].digest == ds[n - 1].text());
            }
        }
        assert forall|i: int, j: int| 0 <= i < j < l.len() implies (#[trigger] l[i]).digest != (
        #[trigger] l[j]).digest by {
            assert(l[i] == before[i]);
            if j < before.len() {
                assert(l[j] == before[j]);
            } else {
                assert(l[j] == x[0]);
                let k = choose|k: int|
                    0 <= k < m && before[i].digest == (#[trigger] ds[k]).text();
                assert(ds[k] != ds[n - 1]);
                lemma_texts_differ(ds[k], ds[n - 1]);
            }
        }
    } else {
        assert(c =~= Seq::<Call>::empty());
    }
}

/// No manifest is listed twice among the referrers, where the store lists none twice.
pub proof fn no_referrer_is_told_twice(
    calls: Seq<Call>,
    repo: Seq<char>,
    name: Seq<char>,
    filter: Option<Seq<char>>,
    r: Result<ResponseView, OciErrorView>,
)
    requires
        handlers::referrers_listed(calls, repo, name, filter, r),
        r is Ok,
        calls[0]->ListManifestDigests_reply->Ok_0.no_duplicates(),
    ensures
        r->Ok_0.body is Referrers,
        forall|i: int, j: int|
            0 <= i < j < r->Ok_0.body->Referrers_0.len() ==> (
            #[trigger] r->Ok_0.body->Referrers_0[i]).digest != (
            #[trigger] r->Ok_0.body->Referrers_0[j]).digest,
{
    let rest = calls.drop_first();
    let ds = calls[0]->ListManifestDigests_reply->Ok_0;
    let subject = handlers::blob_request(repo, name)->Ok_0;
    lemma_entries_once(rest, repo, ds, subject, filter, rest.len());
    assert(rest.take(rest.len() as int) =~= rest);
}

/// The answer says that a filter was applied if and only if it left out a manifest that
/// refers to the subject.
pub proof fn applied_filter_is_told(
    read: Reading,
    hs: Seq<Holdings>,
    calls: Seq<Call>,
    repo: Seq<char>,
    name: Seq<char>,
    subject: DigestView,
    filter: Option<Seq<char>>,
    r: Result<ResponseView, OciErrorView>,
)
    requires
        model::works(read, hs, calls),
        handlers::referrers_listed(calls, repo, name, filter, r),
        handlers::valid_name(repo),
        naming::is_written(subject, name),
    ensures
        ({
            let left_out = exists|d: DigestView| #[trigger]
                is_left_out(read, hs[0], repo, subject, filter, d);
            let kind = ("content-type"@, "application/vnd.oci.image.index.v1+json"@);
            &&& left_out ==> r->Ok_0.headers == seq![
                kind,
                ("oci-filters-applied"@, "artifactType"@),
            ]
            &&& !left_out ==> r->Ok_0.headers == seq![kind]
        }),
{
    naming::digests_are_read_as_they_are_written(name, subject);
    protocol::referrers_are_told(read, hs, calls, repo, name, subject, filter, r);
    let h = hs[0];
    assert(model::step(read, hs[0], calls[0], hs[1]));
    let ds = calls[0]->ListManifestDigests_reply->Ok_0;
    let rest = calls.drop_first();
    assert forall|i: int| 0 <= i < calls.len() implies model::quiet(#[trigger] calls[i]) by {
        if i > 0 {
            assert(rest[i - 1] == calls[i]);
        }
    }
    model::lemma_quiet(read, hs, calls, calls.len() as int);
    assert forall|i: int| 0 <= i < rest.len() implies {
        let p = (repo, ds[i]);
        &&& h.manifests.contains_key(p)
        &&& #[trigger] rest[i] == (Call::ManifestGet {
            repo,
            reference: ReferenceView::Digest(ds[i]),
            reply: Ok((h.manifests[p], read(h.manifests[p]))),
        })
    } by {
        assert(rest[i] == calls[i + 1]);
        assert(model::step(read, hs[i + 1], calls[i + 1], hs[i + 1 + 1]));
        assert(hs[i + 1] == h);
        assert(ds.contains(ds[i]));
    }
    if exists|d: DigestView| #[trigger] is_left_out(read, h, repo, subject, filter, d) {
        let d = choose|d: DigestView| #[trigger] is_left_out(read, h, repo, subject, filter, d);
        assert(ds.contains(d));
        let i = choose|i: int| 0 <= i < ds.len() && ds[i] == d;
        assert(handlers::passed_over(rest[i], subject, filter));
        assert(handlers::some_passed_over(rest, subject, filter));
    }
    if handlers::some_passed_over(rest, subject, filter) {
        let i = choose|i: int|
            0 <= i < rest.len() && handlers::passed_over(#[trigger] rest[i], subject, filter);
        assert(is_left_out(read, h, repo, subject, filter, ds[i]));
    }
    let kind = ("content-type"@, "application/vnd.oci.image.index.v1+json"@);
    assert(seq![kind].push(("oci-filters-applied"@, "artifactType"@)) =~= seq![
        kind,
        ("oci-filters-applied"@, "artifactType"@),
    ]);
}

/// The manifest at `d` has the subject, but not the artifact type that is asked for.
pub open spec fn is_left_out(
    read: Reading,
    h: Holdings,
    repo: Seq<char>,
    subject: DigestView,
    filter: Option<Seq<char>>,
    d: DigestView,
) -> bool {
    &&& h.manifests.contains_key((repo, d))
    &&& read(h.manifests[(repo, d)]) matches Some(m) && {
        &&& m.subject is Some
        &&& m.subject->0.digest@ == subject
        &&& filter is Some
        &&& m.artifact_type is Some ==> m.artifact_type->0@ != filter->0
    }
}

} // verus!
