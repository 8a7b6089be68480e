//! What a client of a registry over a store that works sees: the status, the headers and
//! the body of each answer, and what the store holds then.

use vstd::prelude::*;

use crate::digest;
use crate::digest::DigestView;
use crate::error::{OciCode, OciErrorView};
use crate::handlers;
use crate::http::{BodyView, ReferrerView, ResponseView};
use crate::laws::naming;
use crate::laws::refers;
use crate::laws::serve;
use crate::manifest::Manifest;
use crate::model;
use crate::model::{Holdings, Reading};
use crate::outside;
use crate::storage::{Call, ReferenceView};
use crate::text;

verus! {

/// The answer is a failure with this code and status.
pub open spec fn fails(r: Result<ResponseView, OciErrorView>, code: OciCode, status: u16) -> bool {
    r is Err && r->Err_0.code == code && r->Err_0.status == status
}

/// A name that is not right is refused before the store is asked.
pub proof fn bad_names_are_refused(
    calls: Seq<Call>,
    repo: Seq<char>,
    a: Seq<char>,
    b: Option<Seq<char>>,
    c: Option<Seq<char>>,
    d: Option<Seq<char>>,
    n: Option<usize>,
    body: Seq<u8>,
    refs: Option<Manifest>,
    head_only: bool,
    r: Result<ResponseView, OciErrorView>,
)
    requires
        !handlers::valid_name(repo),
        ({
            ||| handlers::tags_listed(calls, repo, n, b, r)
            ||| handlers::manifest_fetched(calls, repo, a, head_only, r)
            ||| handlers::manifest_kept(calls, repo, a, b, body, refs, r)
            ||| handlers::manifest_deleted(calls, repo, a, r)
            ||| handlers::blob_fetched(calls, repo, a, head_only, r)
            ||| handlers::blob_deleted(calls, repo, a, r)
            ||| handlers::upload_started(calls, repo, b, c, d, body, r)
            ||| handlers::upload_asked(calls, repo, a, r)
            ||| handlers::chunk_taken(calls, repo, a, body, r)
            ||| handlers::upload_cancelled(calls, repo, a, r)
            ||| handlers::upload_finished(calls, repo, a, b, body, r)
            ||| handlers::referrers_listed(calls, repo, a, b, r)
        }),
    ensures
        calls.len() == 0,
        fails(r, OciCode::NameInvalid, 400),
{
}

/// Where a digest is asked for, a text that is not written like one is refused before the
/// store is asked.
pub proof fn bad_digests_are_refused(
    calls: Seq<Call>,
    repo: Seq<char>,
    name: Seq<char>,
    b: Option<Seq<char>>,
    head_only: bool,
    r: Result<ResponseView, OciErrorView>,
)
    requires
        handlers::valid_name(repo),
        forall|d: DigestView| !(#[trigger] naming::is_written(d, name)),
        ({
            ||| handlers::blob_fetched(calls, repo, name, head_only, r)
            ||| handlers::blob_deleted(calls, repo, name, r)
            ||| handlers::referrers_listed(calls, repo, name, b, r)
        }),
    ensures
        calls.len() == 0,
        fails(r, OciCode::DigestInvalid, 400),
{
    if digest::parsed(name) is Ok {
        let d = digest::parsed(name)->Ok_0;
        naming::digests_are_read_as_they_are_written(name, d);
        assert(naming::is_written(d, name));
    }
}

/// The headers that go with a content: its type, its digest and its length.
pub open spec fn describes_content(
    r: ResponseView,
    kind: Seq<char>,
    d: DigestView,
    content: Seq<u8>,
    head_only: bool,
) -> bool {
    &&& r.status == 200
    &&& r.headers == seq![
        ("content-type"@, kind),
        ("docker-content-digest"@, d.text()),
        ("content-length"@, text::decimal(content.len())),
    ]
    &&& r.body == if head_only {
        BodyView::Empty
    } else {
        BodyView::Bytes(content)
    }
}

/// A manifest is handed out byte for byte, by its tag and by its digest; one that is not
/// there is unknown. Nothing changes.
pub proof fn manifest_is_handed_out(
    read: Reading,
    hs: Seq<Holdings>,
    calls: Seq<Call>,
    repo: Seq<char>,
    name: Seq<char>,
    head_only: bool,
    r: Result<ResponseView, OciErrorView>,
)
    requires
        model::works(read, hs, calls),
        handlers::manifest_fetched(calls, repo, name, head_only, r),
        handlers::valid_name(repo),
    ensures
        hs.last() == hs[0],
        match hs[0].led_to(repo, handlers::reference_of(name)) {
            Some(p) => {
                let content = hs[0].manifests[p];
                &&& r is Ok
                &&& describes_content(
                    r->Ok_0,
                    handlers::media_type(content, read(content), None),
                    model::named(content),
                    content,
                    head_only,
                )
            },
            None => fails(r, OciCode::ManifestUnknown, 404),
        },
{
    assert(model::step(read, hs[0], calls[0], hs[1]));
    assert(hs.last() == hs[1]);
}

/// A manifest that is pushed is held under its digest, and the tag it is pushed with leads
/// to it; the answer says where it is. Nothing else changes. Under a digest that is not
/// its own the answer is a failure, and what is no JSON is not stored at all.
pub proof fn manifest_is_taken(
    read: Reading,
    hs: Seq<Holdings>,
    calls: Seq<Call>,
    repo: Seq<char>,
    name: Seq<char>,
    hint: Option<Seq<char>>,
    body: Seq<u8>,
    refs: Option<Manifest>,
    r: Result<ResponseView, OciErrorView>,
)
    requires
        model::works(read, hs, calls),
        handlers::manifest_kept(calls, repo, name, hint, body, refs, r),
        handlers::valid_name(repo),
    ensures
        outside::json_problem(body) is Some ==> calls.len() == 0 && hs.last() == hs[0] && fails(
            r,
            OciCode::ManifestInvalid,
            400,
        ),
        outside::json_problem(body) is None ==> {
            let d = model::named(body);
            let h = hs[0];
            let h2 = hs.last();
            &&& h2.blobs == h.blobs
            &&& h2.uploads == h.uploads
            &&& h2.manifests == h.manifests.insert((repo, d), body)
            &&& match handlers::reference_of(name) {
                ReferenceView::Tag(t) => h2.tags == h.tags.insert((repo, t), d),
                ReferenceView::Digest(_) => h2.tags == h.tags,
            }
            &&& if handlers::reference_of(name) is Tag || handlers::reference_of(name)
                == ReferenceView::Digest(d) {
                r == Ok::<_, OciErrorView>(
                    ResponseView {
                        status: 201,
                        headers: seq![
                            ("location"@, "/v2/"@ + repo + "/manifests/"@ + d.text()),
                            ("docker-content-digest"@, d.text()),
                            ("content-type"@, handlers::media_type(body, refs, hint)),
                        ],
                        body: BodyView::Empty,
                    },
                )
            } else {
                fails(r, OciCode::DigestInvalid, 400)
            }
        },
{
    if outside::json_problem(body) is None {
        assert(model::step(read, hs[0], calls[0], hs[1]));
        assert(hs.last() == hs[1]);
    }
}

/// A manifest or a tag that is there is deleted, and that one alone; one that is not there
/// is unknown.
pub proof fn manifest_is_deleted(
    read: Reading,
    hs: Seq<Holdings>,
    calls: Seq<Call>,
    repo: Seq<char>,
    name: Seq<char>,
    r: Result<ResponseView, OciErrorView>,
)
    requires
        model::works(read, hs, calls),
        handlers::manifest_deleted(calls, repo, name, r),
        handlers::valid_name(repo),
    ensures
        ({
            let h = hs[0];
            let done = Ok::<_, OciErrorView>(
                ResponseView { status: 202, headers: Seq::empty(), body: BodyView::Empty },
            );
            match handlers::reference_of(name) {
                ReferenceView::Digest(d) => if h.manifests.contains_key((repo, d)) {
                    r == done && hs.last() == (Holdings {
                        manifests: h.manifests.remove((repo, d)),
                        ..h
                    })
                } else {
                    hs.last() == h && fails(r, OciCode::ManifestUnknown, 404)
                },
                ReferenceView::Tag(t) => if h.tags.contains_key((repo, t)) {
                    r == done && hs.last() == (Holdings { tags: h.tags.remove((repo, t)), ..h })
                } else {
                    hs.last() == h && fails(r, OciCode::ManifestUnknown, 404)
                },
            }
        }),
{
    assert(model::step(read, hs[0], calls[0], hs[1]));
    assert(hs.last() == hs[1]);
}

/// A blob is handed out byte for byte; one that is not there is unknown. Nothing changes.
pub proof fn blob_is_handed_out(
    read: Reading,
    hs: Seq<Holdings>,
    calls: Seq<Call>,
    repo: Seq<char>,
    name: Seq<char>,
    d: DigestView,
    head_only: bool,
    r: Result<ResponseView, OciErrorView>,
)
    requires
        model::works(read, hs, calls),
        handlers::blob_fetched(calls, repo, name, head_only, r),
        handlers::valid_name(repo),
        naming::is_written(d, name),
    ensures
        hs.last() == hs[0],
        hs[0].blobs.contains_key(d) ==> r is Ok && describes_content(
            r->Ok_0,
            "application/octet-stream"@,
            d,
            hs[0].blobs[d],
            head_only,
        ),
        !hs[0].blobs.contains_key(d) ==> fails(r, OciCode::BlobUnknown, 404),
{
    naming::digests_are_read_as_they_are_written(name, d);
    assert(model::step(read, hs[0], calls[0], hs[1]));
    assert(hs.last() == hs[1]);
}

/// A blob that is there is deleted, and that one alone; one that is not there is unknown.
pub proof fn blob_is_deleted(
    read: Reading,
    hs: Seq<Holdings>,
    calls: Seq<Call>,
    repo: Seq<char>,
    name: Seq<char>,
    d: DigestView,
    r: Result<ResponseView, OciErrorView>,
)
    requires
        model::works(read, hs, calls),
        handlers::blob_deleted(calls, repo, name, r),
        handlers::valid_name(repo),
        naming::is_written(d, name),
    ensures
        hs.last() == (Holdings { blobs: hs[0].blobs.remove(d), ..hs[0] }),
        hs[0].blobs.contains_key(d) ==> r == Ok::<_, OciErrorView>(
            ResponseView { status: 202, headers: Seq::empty(), body: BodyView::Empty },
        ),
        !hs[0].blobs.contains_key(d) ==> fails(r, OciCode::BlobUnknown, 404),
{
    naming::digests_are_read_as_they_are_written(name, d);
    assert(model::step(read, hs[0], calls[0], hs[1]));
    assert(hs.last() == hs[1]);
    if !hs[0].blobs.contains_key(d) {
        assert(hs[0].blobs.remove(d) =~= hs[0].blobs);
    }
}

/// The answer that a blob is in place: 201, where it is and its digest.
pub open spec fn says_created(r: Result<ResponseView, OciErrorView>, repo: Seq<char>, d: DigestView) -> bool {
    r == Ok::<_, OciErrorView>(
        ResponseView {
            status: 201,
            headers: seq![
                ("location"@, "/v2/"@ + repo + "/blobs/"@ + d.text()),
                ("docker-content-digest"@, d.text()),
            ],
            body: BodyView::Empty,
        },
    )
}

/// The answer that tells of an upload: where it is, its id and the range received, from 0
/// to the last byte.
pub open spec fn says_progress(
    r: Result<ResponseView, OciErrorView>,
    status: u16,
    repo: Seq<char>,
    id: u128,
    received: nat,
) -> bool {
    r == Ok::<_, OciErrorView>(
        ResponseView {
            status,
            headers: seq![
                ("location"@, "/v2/"@ + repo + "/blobs/uploads/"@ + outside::uuid_hyphenated(id)),
                ("docker-upload-uuid"@, outside::uuid_hyphenated(id)),
                (
                    "range"@,
                    "0-"@ + text::decimal(
                        if received == 0 {
                            0
                        } else {
                            (received - 1) as nat
                        },
                    ),
                ),
            ],
            body: BodyView::Empty,
        },
    )
}

proof fn lemma_no_mount(
    calls: Seq<Call>,
    repo: Seq<char>,
    name: Option<Seq<char>>,
    body: Seq<u8>,
    r: Result<ResponseView, OciErrorView>,
)
    requires
        handlers::upload_started(calls, repo, name, None, None, body, r),
        handlers::valid_name(repo),
    ensures
        handlers::started(calls, repo, name, body, r),
{
    let (k, m) = choose|k: int, m: Result<Option<DigestView>, OciErrorView>|
        0 <= k <= calls.len() && #[trigger] handlers::mount_tried(
            calls.take(k),
            repo,
            None,
            None,
            m,
        ) && match m {
            Err(e) => k == calls.len() && r == Err::<ResponseView, _>(e),
            Ok(Some(d)) => k == calls.len() && r == Ok::<_, OciErrorView>(
                handlers::blob_created(repo, d),
            ),
            Ok(None) => handlers::started(
                calls.subrange(k, calls.len() as int),
                repo,
                name,
                body,
                r,
            ),
        };
    assert(k == 0);
    assert(calls.subrange(0, calls.len() as int) =~= calls);
}

/// An upload begins empty, under an id that was not in use.
pub proof fn upload_begins(
    read: Reading,
    hs: Seq<Holdings>,
    calls: Seq<Call>,
    repo: Seq<char>,
    body: Seq<u8>,
    r: Result<ResponseView, OciErrorView>,
) -> (id: u128)
    requires
        model::works(read, hs, calls),
        handlers::upload_started(calls, repo, None, None, None, body, r),
        handlers::valid_name(repo),
    ensures
        !hs[0].uploads.contains_key(id),
        hs.last() == (Holdings { uploads: hs[0].uploads.insert(id, Seq::empty()), ..hs[0] }),
        says_progress(r, 202, repo, id, 0),
{
    lemma_no_mount(calls, repo, None, body, r);
    assert(model::step(read, hs[0], calls[0], hs[1]));
    assert(hs.last() == hs[1]);
    reveal_strlit("0-0");
    reveal_strlit("0-");
    assert(text::decimal(0) =~= seq!['0']);
    assert("0-"@ + text::decimal(0) =~= "0-0"@);
    calls[0]->UploadCreate_reply->Ok_0.id
}

/// A blob that comes in one go is held if it has the digest that it comes with, and
/// refused if not. A text that is no digest is refused.
pub proof fn blob_comes_in_one_go(
    read: Reading,
    hs: Seq<Holdings>,
    calls: Seq<Call>,
    repo: Seq<char>,
    name: Seq<char>,
    d: DigestView,
    body: Seq<u8>,
    r: Result<ResponseView, OciErrorView>,
)
    requires
        model::works(read, hs, calls),
        handlers::upload_started(calls, repo, Some(name), None, None, body, r),
        handlers::valid_name(repo),
        naming::is_written(d, name),
    ensures
        digest::content_digest(d.algorithm, body) == d ==> says_created(r, repo, d) && hs.last()
            == (Holdings { blobs: hs[0].blobs.insert(d, body), ..hs[0] }),
        digest::content_digest(d.algorithm, body) != d ==> fails(r, OciCode::DigestInvalid, 400)
            && hs.last() == hs[0],
{
    naming::digests_are_read_as_they_are_written(name, d);
    lemma_no_mount(calls, repo, Some(name), body, r);
    assert(model::step(read, hs[0], calls[0], hs[1]));
    assert(hs.last() == hs[1]);
}

/// A blob that the store holds can be mounted, and nothing changes; one that it does not
/// hold cannot, and an upload begins instead.
pub proof fn blob_is_mounted(
    read: Reading,
    hs: Seq<Holdings>,
    calls: Seq<Call>,
    repo: Seq<char>,
    name: Seq<char>,
    d: DigestView,
    from: Option<Seq<char>>,
    body: Seq<u8>,
    r: Result<ResponseView, OciErrorView>,
)
    requires
        model::works(read, hs, calls),
        handlers::upload_started(calls, repo, None, Some(name), from, body, r),
        handlers::valid_name(repo),
        naming::is_written(d, name),
    ensures
        hs.last().blobs == hs[0].blobs,
        hs[0].blobs.contains_key(d) ==> says_created(r, repo, d) && hs.last() == hs[0],
        !hs[0].blobs.contains_key(d) ==> r is Ok && r->Ok_0.status == 202,
{
    naming::digests_are_read_as_they_are_written(name, d);
    if hs[0].blobs.contains_key(d) {
        serve::mounted_blob_is_there(read, hs, calls, repo, None, name, from, body, r);
    } else {
        let (k, m) = choose|k: int, m: Result<Option<DigestView>, OciErrorView>|
            0 <= k <= calls.len() && #[trigger] handlers::mount_tried(
                calls.take(k),
                repo,
                Some(name),
                from,
                m,
            ) && match m {
                Err(e) => k == calls.len() && r == Err::<ResponseView, _>(e),
                Ok(Some(d)) => k == calls.len() && r == Ok::<_, OciErrorView>(
                    handlers::blob_created(repo, d),
                ),
                Ok(None) => handlers::started(
                    calls.subrange(k, calls.len() as int),
                    repo,
                    None,
                    body,
                    r,
                ),
            };
        let some = calls.take(k);
        assert(some[0] == calls[0]);
        assert(model::step(read, hs[0], calls[0], hs[1]));
        if some.len() > 1 {
            assert(some.drop_first()[0] == calls[1]);
            assert(model::step(read, hs[1], calls[1], hs[2]));
            assert(some.len() == 2);
        }
        assert(m == Ok::<Option<DigestView>, OciErrorView>(None));
        let rest = calls.subrange(k, calls.len() as int);
        assert(rest[0] == calls[k]);
        assert(model::step(read, hs[k], calls[k], hs[k + 1]));
        assert(hs.last() == hs[k + 1]);
    }
}

/// An upload tells how much it has received; one that is not there is unknown.
pub proof fn upload_tells_its_progress(
    read: Reading,
    hs: Seq<Holdings>,
    calls: Seq<Call>,
    repo: Seq<char>,
    name: Seq<char>,
    id: u128,
    r: Result<ResponseView, OciErrorView>,
)
    requires
        model::works(read, hs, calls),
        handlers::upload_asked(calls, repo, name, r),
        handlers::valid_name(repo),
        outside::uuid_of(name) == Some(id),
    ensures
        hs.last() == hs[0],
        hs[0].uploads.contains_key(id) ==> says_progress(
            r,
            204,
            repo,
            id,
            hs[0].uploads[id].len(),
        ),
        !hs[0].uploads.contains_key(id) ==> fails(r, OciCode::BlobUploadUnknown, 404),
{
    assert(model::step(read, hs[0], calls[0], hs[1]));
    assert(hs.last() == hs[1]);
}

/// A chunk is added behind what an upload has received.
pub proof fn chunk_is_added_behind(
    read: Reading,
    hs: Seq<Holdings>,
    calls: Seq<Call>,
    repo: Seq<char>,
    name: Seq<char>,
    id: u128,
    body: Seq<u8>,
    r: Result<ResponseView, OciErrorView>,
)
    requires
        model::works(read, hs, calls),
        handlers::chunk_taken(calls, repo, name, body, r),
        handlers::valid_name(repo),
        outside::uuid_of(name) == Some(id),
    ensures
        hs[0].uploads.contains_key(id) ==> {
            let all = hs[0].uploads[id] + body;
            &&& hs.last() == (Holdings { uploads: hs[0].uploads.insert(id, all), ..hs[0] })
            &&& says_progress(r, 202, repo, id, all.len())
        },
        !hs[0].uploads.contains_key(id) ==> hs.last() == hs[0] && fails(
            r,
            OciCode::BlobUploadUnknown,
            404,
        ),
{
    assert(model::step(read, hs[0], calls[0], hs[1]));
    assert(hs.last() == hs[1]);
}

/// An upload that is given up is gone.
pub proof fn upload_is_given_up(
    read: Reading,
    hs: Seq<Holdings>,
    calls: Seq<Call>,
    repo: Seq<char>,
    name: Seq<char>,
    id: u128,
    r: Result<ResponseView, OciErrorView>,
)
    requires
        model::works(read, hs, calls),
        handlers::upload_cancelled(calls, repo, name, r),
        handlers::valid_name(repo),
        outside::uuid_of(name) == Some(id),
    ensures
        hs[0].uploads.contains_key(id) ==> hs.last() == (Holdings {
            uploads: hs[0].uploads.remove(id),
            ..hs[0]
        }) && r == Ok::<_, OciErrorView>(
            ResponseView { status: 204, headers: Seq::empty(), body: BodyView::Empty },
        ),
        !hs[0].uploads.contains_key(id) ==> hs.last() == hs[0] && fails(
            r,
            OciCode::BlobUploadUnknown,
            404,
        ),
{
    assert(model::step(read, hs[0], calls[0], hs[1]));
    assert(hs.last() == hs[1]);
}

/// An upload ends as a blob of all that it received, the last body with it, if that has
/// the digest that it ends with; with another digest nothing becomes a blob, and without
/// one the store is not asked.
pub proof fn upload_ends(
    read: Reading,
    hs: Seq<Holdings>,
    calls: Seq<Call>,
    repo: Seq<char>,
    name: Seq<char>,
    id: u128,
    expected: Option<Seq<char>>,
    d: DigestView,
    body: Seq<u8>,
    r: Result<ResponseView, OciErrorView>,
)
    requires
        model::works(read, hs, calls),
        handlers::upload_finished(calls, repo, name, expected, body, r),
        handlers::valid_name(repo),
        outside::uuid_of(name) == Some(id),
        expected is Some ==> naming::is_written(d, expected->0),
    ensures
        expected is None ==> calls.len() == 0 && fails(r, OciCode::DigestInvalid, 400),
        expected is Some && hs[0].uploads.contains_key(id) ==> {
            let all = hs[0].uploads[id] + body;
            if digest::content_digest(d.algorithm, all) == d {
                &&& says_created(r, repo, d)
                &&& hs.last() == (Holdings {
                    blobs: hs[0].blobs.insert(d, all),
                    uploads: hs[0].uploads.remove(id),
                    ..hs[0]
                })
            } else {
                &&& fails(r, OciCode::DigestInvalid, 400)
                &&& hs.last().blobs == hs[0].blobs
            }
        },
        expected is Some && !hs[0].uploads.contains_key(id) ==> hs.last() == hs[0] && fails(
            r,
            OciCode::BlobUploadUnknown,
            404,
        ),
{
    if expected is Some {
        naming::digests_are_read_as_they_are_written(expected->0, d);
        assert(model::step(read, hs[0], calls[0], hs[1]));
        if hs[0].uploads.contains_key(id) {
            let all = hs[0].uploads[id] + body;
            serve::finished_upload_is_a_blob(read, hs, calls, repo, name, expected, body, r);
            if body.len() == 0 {
                assert(all =~= hs[0].uploads[id]);
                assert(hs.last() == hs[1]);
            } else {
                let rest = calls.drop_first();
                assert(rest[0] == calls[1]);
                assert(model::step(read, hs[1], calls[1], hs[2]));
                assert(hs.last() == hs[2]);
                assert(hs[0].uploads.insert(id, all).remove(id) =~= hs[0].uploads.remove(id));
            }
        } else {
            assert(hs.last() == hs[1]);
        }
    }
}

/// An id that is no UUID is refused before the store is asked.
pub proof fn bad_upload_ids_are_refused(
    calls: Seq<Call>,
    repo: Seq<char>,
    name: Seq<char>,
    b: Option<Seq<char>>,
    body: Seq<u8>,
    r: Result<ResponseView, OciErrorView>,
)
    requires
        handlers::valid_name(repo),
        outside::uuid_of(name) is None,
        ({
            ||| handlers::upload_asked(calls, repo, name, r)
            ||| handlers::chunk_taken(calls, repo, name, body, r)
            ||| handlers::upload_cancelled(calls, repo, name, r)
            ||| handlers::upload_finished(calls, repo, name, b, body, r)
        }),
    ensures
        calls.len() == 0,
        fails(r, OciCode::BlobUploadInvalid, 400),
{
}

/// The four media types of a manifest.
pub open spec fn is_known_kind(t: Seq<char>) -> bool {
    ||| t == "application/vnd.oci.image.manifest.v1+json"@
    ||| t == "application/vnd.oci.image.index.v1+json"@
    ||| t == "application/vnd.docker.distribution.manifest.v2+json"@
    ||| t == "application/vnd.docker.distribution.manifest.list.v2+json"@
}

/// The media type of a manifest: what it is said to be where that is one, else what its
/// own field says where that is one, else that of an index where it lists manifests and
/// that of an image where it does not.
pub proof fn media_type_is_found(content: Seq<u8>, refs: Option<Manifest>, hint: Option<Seq<char>>)
    ensures
        ({
            let t = handlers::media_type(content, refs, hint);
            let own = outside::json_text(content, "/mediaType"@);
            &&& is_known_kind(t)
            &&& hint is Some && is_known_kind(hint->0) ==> t == hint->0
            &&& !(hint is Some && is_known_kind(hint->0)) && own is Some && is_known_kind(own->0)
                ==> t == own->0
            &&& !(hint is Some && is_known_kind(hint->0)) && !(own is Some && is_known_kind(own->0))
                ==> t == if refs is Some && refs->0.manifests@.len() > 0 {
                "application/vnd.oci.image.index.v1+json"@
            } else {
                "application/vnd.oci.image.manifest.v1+json"@
            }
        }),
{
}

/// The manifest at `d` has this subject and, if one is asked for, this artifact type, and
/// `x` tells of it: its media type, its digest, its length, its artifact type and its
/// annotations.
pub open spec fn refers_and_is_told(
    read: Reading,
    h: Holdings,
    repo: Seq<char>,
    subject: DigestView,
    filter: Option<Seq<char>>,
    d: DigestView,
    x: ReferrerView,
) -> bool {
    let content = h.manifests[(repo, d)];
    &&& h.manifests.contains_key((repo, d))
    &&& read(content) matches Some(m) && {
        &&& refers::describes(m.subject, subject)
        &&& filter is Some ==> m.artifact_type is Some && m.artifact_type->0@ == filter->0
        &&& x.media_type == handlers::media_type(content, Some(m), None)
        &&& x.digest == d.text()
        &&& x.size == content.len()
        &&& x.artifact_type is Some <==> m.artifact_type is Some
        &&& x.artifact_type is Some ==> x.artifact_type->0 == m.artifact_type->0@
        &&& x.annotations is Some <==> m.annotations is Some
        &&& x.annotations is Some ==> x.annotations->0 == m.annotations->0@
    }
}

/// The referrers of a manifest are the manifests of its repository that have it as their
/// subject, all of them or those of the artifact type that is asked for.
pub proof fn referrers_are_told(
    read: Reading,
    hs: Seq<Holdings>,
    calls: Seq<Call>,
    repo: Seq<char>,
    name: Seq<char>,
    subject: DigestView,
    filter: Option<Seq<char>>,
    r: Result<ResponseView, OciErrorView>,
)
    requires
        model::works(read, hs, calls),
        handlers::referrers_listed(calls, repo, name, filter, r),
        handlers::valid_name(repo),
        naming::is_written(subject, name),
    ensures
        r is Ok,
        r->Ok_0.status == 200,
        r->Ok_0.headers.len() > 0,
        r->Ok_0.headers[0] == ("content-type"@, "application/vnd.oci.image.index.v1+json"@),
        r->Ok_0.body is Referrers,
        forall|x: ReferrerView| #[trigger]
            r->Ok_0.body->Referrers_0.contains(x) <==> exists|d: DigestView| #[trigger]
                refers_and_is_told(read, hs[0], repo, subject, filter, d, x),
{
    naming::digests_are_read_as_they_are_written(name, subject);
    serve::referrers_are_exactly_those_that_refer(read, hs, calls, repo, name, filter, r);
    assert forall|x: ReferrerView| #[trigger] r->Ok_0.body->Referrers_0.contains(x) <==> exists|
        d: DigestView,
    | #[trigger] refers_and_is_told(read, hs[0], repo, subject, filter, d, x) by {
        if r->Ok_0.body->Referrers_0.contains(x) {
            let d = choose|d: DigestView| #[trigger]
                serve::is_referrer(read, hs[0], repo, subject, filter, d, x);
            assert(refers_and_is_told(read, hs[0], repo, subject, filter, d, x));
        }
        if exists|d: DigestView| #[trigger]
            refers_and_is_told(read, hs[0], repo, subject, filter, d, x) {
            let d = choose|d: DigestView| #[trigger]
                refers_and_is_told(read, hs[0], repo, subject, filter, d, x);
            let m = read(hs[0].manifests[(repo, d)])->0;
            assert(x == handlers::listed_as(d, hs[0].manifests[(repo, d)], m));
            assert(serve::is_referrer(read, hs[0], repo, subject, filter, d, x));
        }
    }
    let first = r->Ok_0.headers[0];
    assert(first == ("content-type"@, crate::manifest::OCI_INDEX_MEDIA_TYPE@));
}

/// The probe of the version is answered so.
pub proof fn version_is_told()
    ensures
        handlers::version() == (ResponseView {
            status: 200,
            headers: seq![("docker-distribution-api-version"@, "registry/2.0"@)],
            body: BodyView::Text("{}"@),
        }),
{
}

} // verus!
