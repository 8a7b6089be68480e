//! Paths: where an answer points to, a request arrives, and a request is authorised
//! for the repository that it reaches.

use vstd::prelude::*;

use crate::digest;
use crate::digest::DigestView;
use crate::handlers;
use crate::http::Method;
use crate::k8s;
use crate::k8s::{Action, OperationView};
use crate::outside;
use crate::router;
use crate::router::{Features, RouteView};
use crate::storage::ReferenceView;
use crate::text;

verus! {

/// The path of an endpoint of a repository.
pub open spec fn path_of(repo: Seq<char>, marker: Seq<char>, tail: Seq<char>) -> Seq<char> {
    "/v2/"@ + repo + marker + tail
}

/// A last part of a path: not empty, and without a slash.
pub open spec fn is_leaf(s: Seq<char>) -> bool {
    s.len() > 0 && !s.contains('/')
}

/// A marker begins and ends with a slash.
spec fn is_marker(m: Seq<char>) -> bool {
    m.len() >= 3 && m[0] == '/' && m.last() == '/'
}

/// What stands behind `/v2/`.
spec fn rest_of(repo: Seq<char>, marker: Seq<char>, tail: Seq<char>) -> Seq<char> {
    repo + marker + tail
}

proof fn lemma_slash_in(s: Seq<char>, i: int)
    requires
        0 <= i < s.len(),
        s[i] == '/',
    ensures
        s.contains('/'),
{
}

/// The marker before the leaf is the last one.
proof fn lemma_around(head: Seq<char>, marker: Seq<char>, tail: Seq<char>)
    requires
        head.len() > 0,
        is_marker(marker),
        is_leaf(tail),
    ensures
        router::around(rest_of(head, marker, tail), marker) == Some((head, tail)),
{
    let s = rest_of(head, marker, tail);
    let n = head.len() as int;
    assert(s.subrange(n, n + marker.len()) =~= marker);
    assert forall|j: int| j > n implies !text::occurs_at(s, marker, j) by {
        if text::occurs_at(s, marker, j) {
            let e = j + marker.len() - 1;
            assert(s.subrange(j, j + marker.len())[marker.len() - 1] == s[e]);
            assert(tail[e - n - marker.len()] == '/');
        }
    }
    assert(text::last_at(s, marker, n));
    text::lemma_last_index(s, marker, n);
    assert(s.subrange(0, n) =~= head);
    assert(text::from_pos(s, n + marker.len()) =~= tail);
}

/// A marker that ends otherwise does not stand before the leaf.
proof fn lemma_not_around(head: Seq<char>, marker: Seq<char>, tail: Seq<char>, other: Seq<char>)
    requires
        is_marker(marker),
        is_marker(other),
        is_leaf(tail),
        marker[marker.len() - 3] != other[other.len() - 3],
    ensures
        router::around(rest_of(head, marker, tail), other) is None,
{
    let s = rest_of(head, marker, tail);
    let h = head.len() + marker.len();
    if text::occurs(s, other) {
        let k = choose|k: int| text::occurs_at(s, other, k);
        lemma_last_exists(s, other, k);
        let i = text::last_index(s, other);
        let e = i + other.len();
        assert(text::occurs_at(s, other, i));
        assert(s.subrange(i, e)[other.len() - 1] == s[e - 1]);
        assert(s.subrange(i, e)[other.len() - 3] == s[e - 3]);
        if e > h {
            assert(tail[e - 1 - h] == '/');
        } else if e == h {
            assert(s[h - 3] == marker[marker.len() - 3]);
        } else {
            let rest = text::from_pos(s, e);
            assert(rest[h - 1 - e] == s[h - 1]);
            assert(s[h - 1] == '/');
            lemma_slash_in(rest, h - 1 - e);
        }
    }
}

proof fn lemma_last_exists(s: Seq<char>, pat: Seq<char>, k: int)
    requires
        text::occurs_at(s, pat, k),
    ensures
        text::last_at(s, pat, text::last_index(s, pat)),
    decreases s.len() - k,
{
    if exists|j: int| j > k && text::occurs_at(s, pat, j) {
        let j = choose|j: int| j > k && text::occurs_at(s, pat, j);
        lemma_last_exists(s, pat, j);
    } else {
        assert(text::last_at(s, pat, k));
        text::lemma_last_index(s, pat, k);
    }
}

/// The path does not end with `suffix`, of which the last slash is at `k` and the
/// second character before it is not that of the marker.
proof fn lemma_no_suffix(
    head: Seq<char>,
    marker: Seq<char>,
    tail: Seq<char>,
    suffix: Seq<char>,
    k: int,
)
    requires
        is_marker(marker),
        is_leaf(tail),
        2 <= k < suffix.len(),
        suffix[k] == '/',
        forall|j: int| k < j < suffix.len() ==> suffix[j] != '/',
        suffix[k - 2] != marker[marker.len() - 3],
    ensures
        !text::ends_with(rest_of(head, marker, tail), suffix),
{
    let s = rest_of(head, marker, tail);
    let h = head.len() + marker.len();
    if text::ends_with(s, suffix) {
        let p = s.len() - suffix.len();
        assert forall|j: int| 0 <= j < suffix.len() implies s[p + j] == suffix[j] by {
            assert(s.subrange(p, p + suffix.len())[j] == suffix[j]);
        }
        assert(s[h - 1] == '/');
        if p + k > h - 1 {
            assert(tail[p + k - h] == '/');
        } else if p + k < h - 1 {
            assert(suffix[h - 1 - p] == '/');
        } else {
            assert(s[h - 3] == marker[marker.len() - 3]);
            assert(s[p + (k - 2)] == suffix[k - 2]);
        }
    }
}

proof fn lemma_markers()
    ensures
        is_marker("/blobs/uploads/"@),
        is_marker("/manifests/"@),
        is_marker("/blobs/"@),
        is_marker("/referrers/"@),
        "/blobs/uploads/"@["/blobs/uploads/"@.len() - 3] == 'd',
        "/manifests/"@["/manifests/"@.len() - 3] == 't',
        "/blobs/"@["/blobs/"@.len() - 3] == 'b',
        "/referrers/"@["/referrers/"@.len() - 3] == 'r',
        "/v2/"@.len() == 4,
{
    reveal_strlit("/blobs/uploads/");
    reveal_strlit("/manifests/");
    reveal_strlit("/blobs/");
    reveal_strlit("/referrers/");
    reveal_strlit("/v2/");
}

/// A path under `/v2/` with a marker in it is none of the fixed ones.
proof fn lemma_path(repo: Seq<char>, marker: Seq<char>, tail: Seq<char>)
    requires
        is_marker(marker),
        is_leaf(tail),
    ensures
        text::starts_with(path_of(repo, marker, tail), "/v2/"@),
        text::from_pos(path_of(repo, marker, tail), "/v2/"@.len() as int) == rest_of(
            repo,
            marker,
            tail,
        ),
        !text::starts_with(path_of(repo, marker, tail), "/admin/"@),
        path_of(repo, marker, tail) != "/v2"@,
        path_of(repo, marker, tail) != "/v2/"@,
        path_of(repo, marker, tail) != "/v2/_catalog"@,
        rest_of(repo, marker, tail) != "_catalog"@,
{
    reveal_strlit("/v2/");
    reveal_strlit("/v2");
    reveal_strlit("/v2/_catalog");
    reveal_strlit("_catalog");
    reveal_strlit("/admin/");
    let p = path_of(repo, marker, tail);
    let rest = rest_of(repo, marker, tail);
    assert(p.len() > 4);
    assert(p.subrange(0, 4) =~= "/v2/"@);
    assert(text::from_pos(p, 4) =~= rest);
    assert(rest[repo.len() as int] == '/');
    if rest == "_catalog"@ {
        assert("_catalog"@[repo.len() as int] == '/');
    }
    if p == "/v2/_catalog"@ {
        assert(p[4 + repo.len() as int] == rest[repo.len() as int]);
        assert("/v2/_catalog"@[4 + repo.len() as int] == '/');
    }
    if text::starts_with(p, "/admin/"@) {
        assert(p.subrange(0, 7)[1] == p[1]);
        assert(p[1] == 'v');
    }
}

/// A path under `/v2/` with a marker in it is routed by what stands behind `/v2/`.
proof fn lemma_routed(
    method: Method,
    repo: Seq<char>,
    marker: Seq<char>,
    tail: Seq<char>,
    query: Option<Seq<char>>,
    f: Features,
)
    requires
        is_marker(marker),
        is_leaf(tail),
    ensures
        router::routed(method, path_of(repo, marker, tail), query, f) == router::under(
            method,
            rest_of(repo, marker, tail),
            match query {
                Some(q) => router::pairs_of(q),
                None => Seq::empty(),
            },
        ),
        rest_of(repo, marker, tail) != "_catalog"@,
{
    lemma_path(repo, marker, tail);
}

/// The path of a manifest reaches the manifest.
pub proof fn manifest_path_reaches_it(
    method: Method,
    repo: Seq<char>,
    reference: Seq<char>,
    query: Option<Seq<char>>,
    f: Features,
)
    requires
        repo.len() > 0,
        is_leaf(reference),
    ensures
        router::routed(method, path_of(repo, "/manifests/"@, reference), query, f) == (match method {
            Method::Get => RouteView::ManifestGet { repo, reference, head_only: false },
            Method::Head => RouteView::ManifestGet { repo, reference, head_only: true },
            Method::Put => RouteView::ManifestPut { repo, reference },
            Method::Delete => RouteView::ManifestDelete { repo, reference },
            _ => RouteView::MethodNotAllowed,
        }),
{
    let marker = "/manifests/"@;
    lemma_markers();
    lemma_routed(method, repo, marker, reference, query, f);
    lemma_beginnings(repo, marker, reference);
    lemma_not_around(repo, marker, reference, "/blobs/uploads/"@);
    lemma_around(repo, marker, reference);
}

/// The path is neither that of tags nor that where uploads start.
proof fn lemma_beginnings(repo: Seq<char>, marker: Seq<char>, tail: Seq<char>)
    requires
        is_marker(marker),
        is_leaf(tail),
        marker[marker.len() - 3] != 'g',
        marker[marker.len() - 3] != 'b' || tail != "uploads"@,
    ensures
        !text::ends_with(rest_of(repo, marker, tail), "/tags/list"@),
        router::before_suffix(rest_of(repo, marker, tail), "/tags/list"@) is None,
        router::before_suffix(
            router::upload_root(rest_of(repo, marker, tail)),
            "/blobs/uploads"@,
        ) is None,
{
    reveal_strlit("/tags/list");
    reveal_strlit("/blobs/uploads");
    reveal_strlit("uploads");
    let s = rest_of(repo, marker, tail);
    lemma_no_suffix(repo, marker, tail, "/tags/list"@, 5);
    assert(s.last() == tail.last());
    if s.last() == '/' {
        lemma_slash_in(tail, tail.len() - 1);
    }
    assert(router::upload_root(s) == s);
    if marker[marker.len() - 3] != 'b' {
        lemma_no_suffix(repo, marker, tail, "/blobs/uploads"@, 6);
    } else if text::ends_with(s, "/blobs/uploads"@) {
        let x = "/blobs/uploads"@;
        let p = s.len() - x.len();
        let h = repo.len() + marker.len();
        assert forall|j: int| 0 <= j < x.len() implies s[p + j] == x[j] by {
            assert(s.subrange(p, p + x.len())[j] == x[j]);
        }
        assert(s[h - 1] == '/');
        assert(s[p + 6] == x[6]);
        if p + 6 > h - 1 {
            assert(tail[p + 6 - h] == '/');
        } else if p + 6 < h - 1 {
            assert(x[h - 1 - p] == '/');
        }
        assert(tail =~= "uploads"@) by {
            assert(tail.len() == 7);
            assert forall|j: int| 0 <= j < 7 implies tail[j] == "uploads"@[j] by {
                assert(s[h + j] == tail[j]);
                assert(x[7 + j] == s[p + (7 + j)]);
            }
        }
    }
}

/// The path of a blob reaches the blob.
pub proof fn blob_path_reaches_it(
    method: Method,
    repo: Seq<char>,
    name: Seq<char>,
    query: Option<Seq<char>>,
    f: Features,
)
    requires
        repo.len() > 0,
        is_leaf(name),
        name != "uploads"@,
    ensures
        router::routed(method, path_of(repo, "/blobs/"@, name), query, f) == (match method {
            Method::Get => RouteView::BlobGet { repo, digest: name, head_only: false },
            Method::Head => RouteView::BlobGet { repo, digest: name, head_only: true },
            Method::Delete => RouteView::BlobDelete { repo, digest: name },
            _ => RouteView::MethodNotAllowed,
        }),
{
    let marker = "/blobs/"@;
    lemma_markers();
    lemma_routed(method, repo, marker, name, query, f);
    lemma_beginnings(repo, marker, name);
    lemma_not_around(repo, marker, name, "/blobs/uploads/"@);
    lemma_not_around(repo, marker, name, "/manifests/"@);
    lemma_around(repo, marker, name);
}

/// The path of an upload reaches the upload.
pub proof fn upload_path_reaches_it(
    method: Method,
    repo: Seq<char>,
    uuid: Seq<char>,
    f: Features,
)
    requires
        repo.len() > 0,
        is_leaf(uuid),
    ensures
        router::routed(method, path_of(repo, "/blobs/uploads/"@, uuid), None, f) == (match method {
            Method::Get => RouteView::UploadStatus { repo, uuid },
            Method::Patch => RouteView::UploadChunk { repo, uuid },
            Method::Put => RouteView::UploadFinish { repo, uuid, digest: None },
            Method::Delete => RouteView::UploadCancel { repo, uuid },
            _ => RouteView::MethodNotAllowed,
        }),
{
    let marker = "/blobs/uploads/"@;
    lemma_markers();
    lemma_routed(method, repo, marker, uuid, None, f);
    lemma_beginnings(repo, marker, uuid);
    lemma_around(repo, marker, uuid);
}

/// The path of the referrers of a manifest reaches them.
pub proof fn referrers_path_reaches_them(repo: Seq<char>, name: Seq<char>, f: Features)
    requires
        repo.len() > 0,
        is_leaf(name),
    ensures
        router::routed(Method::Get, path_of(repo, "/referrers/"@, name), None, f)
            == (RouteView::Referrers { repo, digest: name, artifact_type: None }),
{
    let marker = "/referrers/"@;
    lemma_markers();
    lemma_routed(Method::Get, repo, marker, name, None, f);
    lemma_beginnings(repo, marker, name);
    lemma_not_around(repo, marker, name, "/blobs/uploads/"@);
    lemma_not_around(repo, marker, name, "/manifests/"@);
    lemma_not_around(repo, marker, name, "/blobs/"@);
    lemma_around(repo, marker, name);
}

proof fn lemma_digest_leaf(d: DigestView)
    requires
        d.wf(),
    ensures
        is_leaf(d.text()),
        d.text() != "uploads"@,
{
    reveal_strlit("sha256");
    reveal_strlit("sha512");
    reveal_strlit("uploads");
    let s = d.text();
    let n = d.algorithm.spec_name().len() as int;
    assert(s[n] == ':');
    assert forall|i: int| 0 <= i < s.len() implies s[i] != '/' by {
        if i > n {
            assert(s[i] == d.hex[i - n - 1]);
        }
    }
    if s == "uploads"@ {
        assert("uploads"@[n] == ':');
    }
}

/// The location that is answered to a push of a manifest is that of the manifest.
pub proof fn manifest_location_leads_to_it(repo: Seq<char>, d: DigestView, f: Features)
    requires
        repo.len() > 0,
        d.wf(),
    ensures
        router::routed(Method::Get, handlers::manifest_location(repo, d), None, f)
            == (RouteView::ManifestGet { repo, reference: d.text(), head_only: false }),
        handlers::reference_of(d.text()) == ReferenceView::Digest(d),
{
    lemma_digest_leaf(d);
    digest::digest_round_trip(d);
    manifest_path_reaches_it(Method::Get, repo, d.text(), None, f);
}

/// The location that is answered to a push of a blob is that of the blob.
pub proof fn blob_location_leads_to_it(repo: Seq<char>, d: DigestView, f: Features)
    requires
        repo.len() > 0,
        d.wf(),
    ensures
        handlers::blob_created(repo, d).headers[0].0 == "location"@,
        router::routed(Method::Get, handlers::blob_created(repo, d).headers[0].1, None, f)
            == (RouteView::BlobGet { repo, digest: d.text(), head_only: false }),
        handlers::digest_of(d.text()) == Ok::<_, crate::error::OciErrorView>(d),
{
    lemma_digest_leaf(d);
    digest::digest_round_trip(d);
    blob_path_reaches_it(Method::Get, repo, d.text(), None, f);
}

proof fn lemma_uuid_leaf(id: u128)
    ensures
        is_leaf(outside::uuid_hyphenated(id)),
{
    let d = Seq::new(32, |k: int| outside::uuid_digit(id, k));
    assert forall|k: int| 0 <= k < 32 implies #[trigger] d[k] != '/' by {
        let n = (id as int / vstd::arithmetic::power::pow(16, (31 - k) as nat)) % 16;
        assert(0 <= n < 16);
        assert(d[k] == outside::hex_digit(n));
    }
    let s = outside::uuid_hyphenated(id);
    assert(s.len() == 36);
    assert forall|i: int| 0 <= i < 36 implies s[i] != '/' by {
        if i < 8 {
            assert(s[i] == d[i]);
        } else if i == 8 {
        } else if i < 13 {
            assert(s[i] == d[i - 1]);
        } else if i == 13 {
        } else if i < 18 {
            assert(s[i] == d[i - 2]);
        } else if i == 18 {
        } else if i < 23 {
            assert(s[i] == d[i - 3]);
        } else if i == 23 {
        } else {
            assert(s[i] == d[i - 4]);
        }
    }
}

/// The location that is answered to a request about an upload is that of the upload.
pub proof fn upload_location_leads_to_it(
    status: u16,
    repo: Seq<char>,
    id: u128,
    range: Seq<char>,
    method: Method,
    f: Features,
)
    requires
        repo.len() > 0,
    ensures
        ({
            let uuid = outside::uuid_hyphenated(id);
            let x = handlers::upload_answer(status, repo, id, range);
            &&& x.headers[0].0 == "location"@
            &&& router::routed(method, x.headers[0].1, None, f) == (match method {
                Method::Get => RouteView::UploadStatus { repo, uuid },
                Method::Patch => RouteView::UploadChunk { repo, uuid },
                Method::Put => RouteView::UploadFinish { repo, uuid, digest: None },
                Method::Delete => RouteView::UploadCancel { repo, uuid },
                _ => RouteView::MethodNotAllowed,
            })
        }),
{
    lemma_uuid_leaf(id);
    upload_path_reaches_it(method, repo, outside::uuid_hyphenated(id), f);
}

// ---- Authorisation --------------------------------------------------------

/// The repository that a route is about.
pub open spec fn repo_of(route: RouteView) -> Option<Seq<char>> {
    match route {
        RouteView::TagsList { repo, .. } => Some(repo),
        RouteView::UploadStart { repo, .. } => Some(repo),
        RouteView::UploadStatus { repo, .. } => Some(repo),
        RouteView::UploadChunk { repo, .. } => Some(repo),
        RouteView::UploadFinish { repo, .. } => Some(repo),
        RouteView::UploadCancel { repo, .. } => Some(repo),
        RouteView::ManifestGet { repo, .. } => Some(repo),
        RouteView::ManifestPut { repo, .. } => Some(repo),
        RouteView::ManifestDelete { repo, .. } => Some(repo),
        RouteView::BlobGet { repo, .. } => Some(repo),
        RouteView::BlobDelete { repo, .. } => Some(repo),
        RouteView::Referrers { repo, .. } => Some(repo),
        _ => None,
    }
}

/// What is to be authorised for a route.
pub open spec fn action_for(route: RouteView) -> Option<Action> {
    match route {
        RouteView::Version => Some(Action::Version),
        RouteView::Catalog { .. } => Some(Action::List),
        RouteView::TagsList { .. } => Some(Action::List),
        RouteView::UploadStart { .. } => Some(Action::Push),
        RouteView::UploadStatus { .. } => Some(Action::Pull),
        RouteView::UploadChunk { .. } => Some(Action::Push),
        RouteView::UploadFinish { .. } => Some(Action::Push),
        RouteView::UploadCancel { .. } => Some(Action::Delete),
        RouteView::ManifestGet { .. } => Some(Action::Pull),
        RouteView::ManifestPut { .. } => Some(Action::Push),
        RouteView::ManifestDelete { .. } => Some(Action::Delete),
        RouteView::BlobGet { .. } => Some(Action::Pull),
        RouteView::BlobDelete { .. } => Some(Action::Delete),
        RouteView::Referrers { .. } => Some(Action::Pull),
        RouteView::Token => None,
        RouteView::NotFound => None,
        RouteView::MethodNotAllowed => None,
        _ => Some(Action::Admin),
    }
}

/// Every request is authorised for the repository that it reaches, and by what it does
/// there.
pub proof fn authorised_for_what_is_reached(
    method: Method,
    path: Seq<char>,
    query: Option<Seq<char>>,
    f: Features,
)
    ensures
        ({
            let route = router::routed(method, path, query, f);
            let op = k8s::classified(method, path);
            &&& action_for(route) is Some ==> op.action == action_for(route)->0 && op.repo
                == repo_of(route)
            &&& route is NotFound ==> op.repo is None && (op.action == Action::Pull || op.action
                == Action::Admin)
        }),
{
    reveal_strlit("/v2");
    reveal_strlit("/v2/");
    reveal_strlit("/admin/");
    reveal_strlit("/token");
    if text::starts_with(path, "/v2/"@) {
        assert(path.subrange(0, 4)[1] == "/v2/"@[1]);
        if text::starts_with(path, "/admin/"@) {
            assert(path.subrange(0, 7)[1] == "/admin/"@[1]);
        }
    } else if path != "/v2"@ {
        lemma_admin_paths(method, path, f);
    }
}

/// What is served beside `/v2/` is the exchange of tokens and administration.
proof fn lemma_admin_paths(method: Method, path: Seq<char>, f: Features)
    ensures
        ({
            let route = router::beside(method, path, f);
            &&& repo_of(route) is None
            &&& !(route is Token) && !(route is NotFound) ==> action_for(route) == Some(
                Action::Admin,
            ) && text::starts_with(path, "/admin/"@)
        }),
{
    reveal_strlit("/admin/");
    reveal_strlit("/admin/gc");
    reveal_strlit("/admin/partitions");
    reveal_strlit("/admin/replicate");
    reveal_strlit("/admin/repo-roots");
    reveal_strlit("/admin/repo-root");
    reveal_strlit("/admin/repo-migrate");
    reveal_strlit("/admin/repo-classes");
    reveal_strlit("/admin/quotas");
    reveal_strlit("/admin/jobs");
    reveal_strlit("/admin/jobs/");
    let route = router::beside(method, path, f);
    if !(route is Token) && !(route is NotFound) {
        if route is Job {
            assert(path.subrange(0, 12).subrange(0, 7) =~= path.subrange(0, 7));
            assert("/admin/jobs/"@.subrange(0, 7) =~= "/admin/"@);
        } else {
            assert(path.subrange(0, 7) =~= "/admin/"@);
        }
    }
}

/// Requests for a manifest, a blob or the referrers of one are authorised for the
/// repository, by what the method does.
pub proof fn authorised_for_the_repository(method: Method, repo: Seq<char>, tail: Seq<char>)
    requires
        repo.len() > 0,
        is_leaf(tail),
    ensures
        ({
            let op = OperationView { action: k8s::action_of(method), repo: Some(repo) };
            &&& k8s::classified(method, path_of(repo, "/manifests/"@, tail)) == op
            &&& tail != "uploads"@ ==> k8s::classified(method, path_of(repo, "/blobs/"@, tail))
                == op
            &&& k8s::classified(method, path_of(repo, "/referrers/"@, tail)) == op
            &&& k8s::classified(method, path_of(repo, "/blobs/uploads/"@, tail)) == op
        }),
{
    let f = Features { admin: false, multi: false, router: false, quota: false, token: false };
    manifest_path_reaches_it(Method::Get, repo, tail, None, f);
    referrers_path_reaches_them(repo, tail, f);
    upload_path_reaches_it(Method::Get, repo, tail, f);
    lemma_classified(method, path_of(repo, "/manifests/"@, tail), f);
    lemma_classified(method, path_of(repo, "/referrers/"@, tail), f);
    lemma_classified(method, path_of(repo, "/blobs/uploads/"@, tail), f);
    if tail != "uploads"@ {
        blob_path_reaches_it(Method::Get, repo, tail, None, f);
        lemma_classified(method, path_of(repo, "/blobs/"@, tail), f);
    }
}

/// The repository does not depend on the method.
proof fn lemma_classified(method: Method, path: Seq<char>, f: Features)
    requires
        repo_of(router::routed(Method::Get, path, None, f)) is Some,
        !(router::routed(Method::Get, path, None, f) is TagsList),
    ensures
        k8s::classified(method, path) == (OperationView {
            action: k8s::action_of(method),
            repo: repo_of(router::routed(Method::Get, path, None, f)),
        }),
{
    authorised_for_what_is_reached(Method::Get, path, None, f);
}

} // verus!
