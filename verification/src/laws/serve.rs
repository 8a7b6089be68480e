//! What is pushed can be pulled, and what is deleted is gone.

use vstd::prelude::*;

use crate::digest;
use crate::digest::DigestView;
use crate::error::{OciCode, OciErrorView};
use crate::handlers;
use crate::http::{BodyView, ReferrerView, ResponseView};
use crate::manifest::Manifest;
use crate::model;
use crate::model::{Holdings, Reading};
use crate::storage::{Call, ReferenceView};

verus! {

/// A manifest that was pushed is handed out byte for byte, under the name it was
/// pushed with and under its digest.
pub proof fn pushed_manifest_is_pulled(
    read: Reading,
    put: Seq<Holdings>,
    calls1: Seq<Call>,
    repo: Seq<char>,
    reference: Seq<char>,
    hint: Option<Seq<char>>,
    body: Seq<u8>,
    refs: Option<Manifest>,
    r1: Result<ResponseView, OciErrorView>,
    get: Seq<Holdings>,
    calls2: Seq<Call>,
    name: Seq<char>,
    head_only: bool,
    r2: Result<ResponseView, OciErrorView>,
)
    requires
        model::works(read, put, calls1),
        handlers::manifest_kept(calls1, repo, reference, hint, body, refs, r1),
        r1 is Ok,
        model::works(read, get, calls2),
        get[0] == put.last(),
        handlers::manifest_fetched(calls2, repo, name, head_only, r2),
        model::named(body).wf(),
        name == reference || name == model::named(body).text(),
    ensures
        r2 == handlers::manifest_answer(Ok((body, read(body))), head_only),
        r2 is Ok,
        !head_only ==> r2->Ok_0.body == BodyView::Bytes(body),
{
    let d = model::named(body);
    assert(model::step(read, put[0], calls1[0], put[1]));
    assert(put.last() == put[1]);
    digest::digest_round_trip(d);
    assert(model::step(read, get[0], calls2[0], get[1]));
    let h = get[0];
    let at = handlers::reference_of(name);
    assert(h.manifests.contains_key((repo, d)));
    assert(h.led_to(repo, at) == Some((repo, d)));
}

/// A manifest pushed under a digest that is not its own is refused.
pub proof fn manifest_under_another_digest_is_refused(
    read: Reading,
    put: Seq<Holdings>,
    calls: Seq<Call>,
    repo: Seq<char>,
    reference: Seq<char>,
    hint: Option<Seq<char>>,
    body: Seq<u8>,
    refs: Option<Manifest>,
    r: Result<ResponseView, OciErrorView>,
)
    requires
        model::works(read, put, calls),
        handlers::manifest_kept(calls, repo, reference, hint, body, refs, r),
        handlers::reference_of(reference) is Digest,
        handlers::reference_of(reference)->Digest_0 != model::named(body),
    ensures
        r is Err,
{
    if calls.len() == 1 {
        assert(model::step(read, put[0], calls[0], put[1]));
    }
}

/// A manifest or tag that was deleted is not handed out any more.
pub proof fn deleted_manifest_is_unknown(
    read: Reading,
    del: Seq<Holdings>,
    calls1: Seq<Call>,
    repo: Seq<char>,
    reference: Seq<char>,
    r1: Result<ResponseView, OciErrorView>,
    get: Seq<Holdings>,
    calls2: Seq<Call>,
    head_only: bool,
    r2: Result<ResponseView, OciErrorView>,
)
    requires
        model::works(read, del, calls1),
        handlers::manifest_deleted(calls1, repo, reference, r1),
        r1 is Ok,
        model::works(read, get, calls2),
        get[0] == del.last(),
        handlers::manifest_fetched(calls2, repo, reference, head_only, r2),
    ensures
        r2 == Err::<ResponseView, _>(handlers::manifest_unknown()),
{
    assert(model::step(read, del[0], calls1[0], del[1]));
    assert(del.last() == del[1]);
    assert(model::step(read, get[0], calls2[0], get[1]));
}

/// A blob that the store holds is handed out byte for byte; one that it does not hold
/// is unknown.
pub proof fn held_blob_is_pulled(
    read: Reading,
    get: Seq<Holdings>,
    calls: Seq<Call>,
    repo: Seq<char>,
    name: Seq<char>,
    head_only: bool,
    r: Result<ResponseView, OciErrorView>,
)
    requires
        model::works(read, get, calls),
        handlers::blob_fetched(calls, repo, name, head_only, r),
        handlers::blob_request(repo, name) is Ok,
    ensures
        ({
            let d = handlers::blob_request(repo, name)->Ok_0;
            if get[0].blobs.contains_key(d) {
                &&& r == handlers::blob_answer(d, Ok(get[0].blobs[d]), head_only)
                &&& !head_only ==> r->Ok_0.body == BodyView::Bytes(get[0].blobs[d])
            } else {
                r == Err::<ResponseView, _>(handlers::blob_unknown())
            }
        }),
        get.last() == get[0],
{
    assert(model::step(read, get[0], calls[0], get[1]));
    assert(get.last() == get[1]);
}

/// A blob that was deleted is not held any more.
pub proof fn deleted_blob_is_gone(
    read: Reading,
    del: Seq<Holdings>,
    calls: Seq<Call>,
    repo: Seq<char>,
    name: Seq<char>,
    r: Result<ResponseView, OciErrorView>,
)
    requires
        model::works(read, del, calls),
        handlers::blob_deleted(calls, repo, name, r),
        handlers::blob_request(repo, name) is Ok,
    ensures
        !del.last().blobs.contains_key(handlers::blob_request(repo, name)->Ok_0),
        r is Ok <==> del[0].blobs.contains_key(handlers::blob_request(repo, name)->Ok_0),
{
    assert(model::step(read, del[0], calls[0], del[1]));
    assert(del.last() == del[1]);
}

/// A chunk is added to what an upload has received, and the answer says how much that
/// is.
pub proof fn chunk_is_added(
    read: Reading,
    hs: Seq<Holdings>,
    calls: Seq<Call>,
    repo: Seq<char>,
    uuid: Seq<char>,
    body: Seq<u8>,
    r: Result<ResponseView, OciErrorView>,
)
    requires
        model::works(read, hs, calls),
        handlers::chunk_taken(calls, repo, uuid, body, r),
        handlers::upload_request(repo, uuid) is Ok,
        hs[0].uploads.contains_key(handlers::upload_request(repo, uuid)->Ok_0),
    ensures
        ({
            let id = handlers::upload_request(repo, uuid)->Ok_0;
            let all = hs[0].uploads[id] + body;
            &&& hs.last() == (Holdings { uploads: hs[0].uploads.insert(id, all), ..hs[0] })
            &&& r == Ok::<_, OciErrorView>(
                handlers::upload_answer(202, repo, id, handlers::received(all.len() as u64)),
            )
        }),
{
    assert(model::step(read, hs[0], calls[0], hs[1]));
    assert(hs.last() == hs[1]);
}

/// An upload that ends with the digest of all its bytes is a blob afterwards, and the
/// upload is over. With another digest it is refused, and no blob is added.
pub proof fn finished_upload_is_a_blob(
    read: Reading,
    hs: Seq<Holdings>,
    calls: Seq<Call>,
    repo: Seq<char>,
    uuid: Seq<char>,
    name: Option<Seq<char>>,
    body: Seq<u8>,
    r: Result<ResponseView, OciErrorView>,
)
    requires
        model::works(read, hs, calls),
        handlers::upload_finished(calls, repo, uuid, name, body, r),
        handlers::finish_request(repo, uuid, name) is Ok,
        hs[0].uploads.contains_key(handlers::finish_request(repo, uuid, name)->Ok_0.0),
    ensures
        ({
            let (id, d) = handlers::finish_request(repo, uuid, name)->Ok_0;
            let all = hs[0].uploads[id] + body;
            if digest::content_digest(d.algorithm, all) == d {
                &&& r == Ok::<_, OciErrorView>(handlers::blob_created(repo, d))
                &&& hs.last().blobs == hs[0].blobs.insert(d, all)
                &&& !hs.last().uploads.contains_key(id)
            } else {
                &&& r is Err
                &&& r->Err_0.code == OciCode::DigestInvalid
                &&& hs.last().blobs == hs[0].blobs
            }
        }),
{
    let (id, d) = handlers::finish_request(repo, uuid, name)->Ok_0;
    if body.len() == 0 {
        assert(hs[0].uploads[id] + body =~= hs[0].uploads[id]);
        assert(model::step(read, hs[0], calls[0], hs[1]));
        assert(hs.last() == hs[1]);
    } else {
        assert(model::step(read, hs[0], calls[0], hs[1]));
        assert(calls[0] is UploadAppend);
        let rest = calls.drop_first();
        assert(handlers::finalized(rest, repo, id, d, r));
        assert(rest[0] == calls[1]);
        assert(model::step(read, hs[1], calls[1], hs[2]));
        assert(hs.last() == hs[2]);
    }
}

/// A blob that is pushed in one go is held afterwards if it has the digest that it is
/// pushed with, and refused if not.
pub proof fn blob_in_one_go_is_held(
    read: Reading,
    hs: Seq<Holdings>,
    calls: Seq<Call>,
    repo: Seq<char>,
    name: Seq<char>,
    body: Seq<u8>,
    r: Result<ResponseView, OciErrorView>,
)
    requires
        model::works(read, hs, calls),
        handlers::upload_started(calls, repo, Some(name), None, None, body, r),
        handlers::valid_name(repo),
        handlers::digest_of(name) is Ok,
    ensures
        ({
            let d = handlers::digest_of(name)->Ok_0;
            if digest::content_digest(d.algorithm, body) == d {
                &&& r == Ok::<_, OciErrorView>(handlers::blob_created(repo, d))
                &&& hs.last().blobs == hs[0].blobs.insert(d, body)
            } else {
                &&& r is Err
                &&& r->Err_0.code == OciCode::DigestInvalid
                &&& hs.last() == hs[0]
            }
        }),
{
    let (k, m) = choose|k: int, m: Result<Option<DigestView>, OciErrorView>|
        0 <= k <= calls.len() && #[trigger] handlers::mount_tried(
            calls.take(k),
            repo,
            None,
            None,
            m,
        ) && match m {
            Err(e) => k == calls.len() && r == Err::<ResponseView, _>(e),
            Ok(Some(d)) => k == calls.len() && r == Ok::<_, OciErrorView>(
                handlers::blob_created(repo, d),
            ),
            Ok(None) => handlers::started(
                calls.subrange(k, calls.len() as int),
                repo,
                Some(name),
                body,
                r,
            ),
        };
    assert(k == 0);
    assert(calls.subrange(0, calls.len() as int) =~= calls);
    assert(model::step(read, hs[0], calls[0], hs[1]));
    assert(hs.last() == hs[1]);
}

/// A mount of a blob that the store holds answers that the blob is there, and changes
/// nothing.
pub proof fn mounted_blob_is_there(
    read: Reading,
    hs: Seq<Holdings>,
    calls: Seq<Call>,
    repo: Seq<char>,
    digest: Option<Seq<char>>,
    mount: Seq<char>,
    from: Option<Seq<char>>,
    body: Seq<u8>,
    r: Result<ResponseView, OciErrorView>,
)
    requires
        model::works(read, hs, calls),
        handlers::upload_started(calls, repo, digest, Some(mount), from, body, r),
        handlers::valid_name(repo),
        digest::parsed(mount) is Ok,
        hs[0].blobs.contains_key(digest::parsed(mount)->Ok_0),
    ensures
        r == Ok::<_, OciErrorView>(handlers::blob_created(repo, digest::parsed(mount)->Ok_0)),
        hs.last() == hs[0],
{
    let (k, m) = choose|k: int, m: Result<Option<DigestView>, OciErrorView>|
        0 <= k <= calls.len() && #[trigger] handlers::mount_tried(
            calls.take(k),
            repo,
            Some(mount),
            from,
            m,
        ) && match m {
            Err(e) => k == calls.len() && r == Err::<ResponseView, _>(e),
            Ok(Some(d)) => k == calls.len() && r == Ok::<_, OciErrorView>(
                handlers::blob_created(repo, d),
            ),
            Ok(None) => handlers::started(
                calls.subrange(k, calls.len() as int),
                repo,
                digest,
                body,
                r,
            ),
        };
    assert(calls.take(k)[0] == calls[0]);
    assert(model::step(read, hs[0], calls[0], hs[1]));
    assert(k == 1);
    assert(hs.last() == hs[1]);
}

/// The manifest at `d` refers to the subject, has the type that is asked for, and is
/// listed as `x`.
pub open spec fn is_referrer(
    read: Reading,
    h: Holdings,
    repo: Seq<char>,
    subject: DigestView,
    filter: Option<Seq<char>>,
    d: DigestView,
    x: ReferrerView,
) -> bool {
    &&& h.manifests.contains_key((repo, d))
    &&& match read(h.manifests[(repo, d)]) {
        Some(m) => {
            &&& handlers::refers(m, subject)
            &&& handlers::typed(m, filter)
            &&& x == handlers::listed_as(d, h.manifests[(repo, d)], m)
        },
        None => false,
    }
}

proof fn lemma_entries(
    calls: Seq<Call>,
    subject: DigestView,
    filter: Option<Seq<char>>,
    x: ReferrerView,
)
    ensures
        handlers::entries_of(calls, subject, filter).contains(x) <==> exists|i: int|
            0 <= i < calls.len() && handlers::entry_of(#[trigger] calls[i], subject, filter).contains(
                x,
            ),
    decreases calls.len(),
{
    if calls.len() > 0 {
        let rest = calls.drop_last();
        let a = handlers::entries_of(rest, subject, filter);
        let b = handlers::entry_of(calls.last(), subject, filter);
        lemma_entries(rest, subject, filter, x);
        assert((a + b).contains(x) <==> a.contains(x) || b.contains(x)) by {
            if (a + b).contains(x) {
                let i = choose|i: int| 0 <= i < (a + b).len() && (a + b)[i] == x;
                if i < a.len() {
                    assert(a[i] == x);
                } else {
                    assert(b[i - a.len()] == x);
                }
            }
            if a.contains(x) {
                let i = choose|i: int| 0 <= i < a.len() && a[i] == x;
                assert((a + b)[i] == x);
            }
            if b.contains(x) {
                let i = choose|i: int| 0 <= i < b.len() && b[i] == x;
                assert((a + b)[a.len() + i] == x);
            }
        }
        if a.contains(x) {
            let i = choose|i: int|
                0 <= i < rest.len() && handlers::entry_of(#[trigger] rest[i], subject, filter).contains(
                    x,
                );
            assert(calls[i] == rest[i]);
        }
        if b.contains(x) {
            assert(calls[calls.len() - 1] == calls.last());
        }
        if exists|i: int|
            0 <= i < calls.len() && handlers::entry_of(#[trigger] calls[i], subject, filter).contains(
                x,
            ) {
            let i = choose|i: int|
                0 <= i < calls.len() && handlers::entry_of(#[trigger] calls[i], subject, filter).contains(
                    x,
                );
            if i < rest.len() {
                assert(rest[i] == calls[i]);
            }
        }
    }
}

/// The referrers of a manifest that are listed are exactly the manifests of the
/// repository that refer to it and have the type that is asked for.
pub proof fn referrers_are_exactly_those_that_refer(
    read: Reading,
    hs: Seq<Holdings>,
    calls: Seq<Call>,
    repo: Seq<char>,
    name: Seq<char>,
    filter: Option<Seq<char>>,
    r: Result<ResponseView, OciErrorView>,
)
    requires
        model::works(read, hs, calls),
        handlers::referrers_listed(calls, repo, name, filter, r),
        handlers::blob_request(repo, name) is Ok,
    ensures
        r is Ok,
        r->Ok_0.body is Referrers,
        forall|x: ReferrerView| #[trigger]
            r->Ok_0.body->Referrers_0.contains(x) <==> exists|d: DigestView| #[trigger]
                is_referrer(
                    read,
                    hs[0],
                    repo,
                    handlers::blob_request(repo, name)->Ok_0,
                    filter,
                    d,
                    x,
                ),
{
    let subject = handlers::blob_request(repo, name)->Ok_0;
    let h = hs[0];
    assert(model::step(read, hs[0], calls[0], hs[1]));
    let ds = calls[0]->ListManifestDigests_reply->Ok_0;
    let rest = calls.drop_first();
    assert forall|i: int| 0 <= i < calls.len() implies model::quiet(#[trigger] calls[i]) by {
        if i > 0 {
            assert(rest[i - 1] == calls[i]);
        }
    }
    model::lemma_quiet(read, hs, calls, calls.len() as int);
    assert forall|i: int| 0 <= i < rest.len() implies {
        let p = (repo, ds[i]);
        &&& h.manifests.contains_key(p)
        &&& #[trigger] rest[i] == (Call::ManifestGet {
            repo,
            reference: ReferenceView::Digest(ds[i]),
            reply: Ok((h.manifests[p], read(h.manifests[p]))),
        })
    } by {
        assert(rest[i] == calls[i + 1]);
        assert(model::step(read, hs[i + 1], calls[i + 1], hs[i + 1 + 1]));
        assert(hs[i + 1] == h);
        assert(ds.contains(ds[i]));
    }
    assert(handlers::reading_failed(rest) is None) by {
        if rest.len() > 0 {
            assert(rest.last() == rest[rest.len() - 1]);
        }
    }
    let list = r->Ok_0.body->Referrers_0;
    assert forall|x: ReferrerView| #[trigger] list.contains(x) <==> exists|d: DigestView| #[trigger]
        is_referrer(read, h, repo, subject, filter, d, x) by {
        lemma_entries(rest, subject, filter, x);
        if list.contains(x) {
            let i = choose|i: int|
                0 <= i < rest.len() && handlers::entry_of(#[trigger] rest[i], subject, filter).contains(
                    x,
                );
            assert(is_referrer(read, h, repo, subject, filter, ds[i], x));
        }
        if exists|d: DigestView| #[trigger] is_referrer(read, h, repo, subject, filter, d, x) {
            let d = choose|d: DigestView| #[trigger]
                is_referrer(read, h, repo, subject, filter, d, x);
            assert(ds.contains(d));
            let i = choose|i: int| 0 <= i < ds.len() && ds[i] == d;
            let e = handlers::entry_of(rest[i], subject, filter);
            assert(e =~= seq![x]);
            assert(e[0] == x);
        }
    }
}

} // verus!
