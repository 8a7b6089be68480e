//! From a request to an operation.
//!
//! Repository names may contain slashes, so a path under `/v2/` is taken apart from
//! its end: the endpoint is recognised by what the path ends with, and what stands
//! before that is the repository.

use vstd::prelude::*;

use crate::auth;
use crate::auth::Htpasswd;
use crate::error;
use crate::error::{OciCode, OciError, OciErrorView};
use crate::handlers;
use crate::http;
use crate::http::{Method, Peer, Refusal, RefusalView, Response, ResponseView};
use crate::k8s;
use crate::k8s::{K8sAuth, RecordedReviewer};
use crate::manifest::Manifest;
use crate::order;
use crate::outside;
use crate::storage;
use crate::storage::{Call, Storage};
use crate::text;

verus! {

// ---- Queries --------------------------------------------------------------

/// The value of a hexadecimal digit.
pub open spec fn nibble(b: u8) -> Option<u8> {
    if 0x30 <= b <= 0x39 {
        Some((b - 0x30) as u8)
    } else if 0x61 <= b <= 0x66 {
        Some((b - 0x61 + 10) as u8)
    } else if 0x41 <= b <= 0x46 {
        Some((b - 0x41 + 10) as u8)
    } else {
        None
    }
}

pub fn hex_nibble(b: u8) -> (r: Option<u8>)
    ensures
        r == nibble(b),
{
    if 0x30 <= b && b <= 0x39 {
        Some(b - 0x30)
    } else if 0x61 <= b && b <= 0x66 {
        Some(b - 0x61 + 10)
    } else if 0x41 <= b && b <= 0x46 {
        Some(b - 0x41 + 10)
    } else {
        None
    }
}

/// A percent sign with two hexadecimal digits behind it.
pub open spec fn escaped(b: Seq<u8>) -> bool {
    &&& b.len() > 2
    &&& b[0] == 0x25
    &&& nibble(b[1]) is Some
    &&& nibble(b[2]) is Some
}

/// A form-encoded byte string decoded: `+` is a space, `%XX` a byte, and everything
/// else itself.
pub open spec fn unescaped(b: Seq<u8>) -> Seq<u8>
    decreases b.len(),
{
    if b.len() == 0 {
        Seq::empty()
    } else if b[0] == 0x2b {
        seq![0x20u8] + unescaped(b.subrange(1, b.len() as int))
    } else if escaped(b) {
        seq![(nibble(b[1])->0 * 16 + nibble(b[2])->0) as u8] + unescaped(
            b.subrange(3, b.len() as int),
        )
    } else {
        seq![b[0]] + unescaped(b.subrange(1, b.len() as int))
    }
}

/// A form-encoded text decoded; bytes that are no text are replaced.
pub open spec fn decoded(s: Seq<char>) -> Seq<char> {
    let b = unescaped(vstd::utf8::encode_utf8(s));
    if vstd::utf8::valid_utf8(b) {
        vstd::utf8::decode_utf8(b)
    } else {
        outside::lossy_text(b)
    }
}

/// Decodes a form-encoded byte string.
pub fn unescape(bytes: &[u8]) -> (r: Vec<u8>)
    ensures
        r@ == unescaped(bytes@),
{
    let mut out: Vec<u8> = Vec::new();
    let n: usize = bytes.len();
    let mut i: usize = 0;
    assert(bytes@.subrange(0, n as int) =~= bytes@);
    assert(out@ + unescaped(bytes@) =~= unescaped(bytes@));
    while i < n
        invariant
            i <= n,
            n == bytes@.len(),
            out@ + unescaped(bytes@.subrange(i as int, n as int)) == unescaped(bytes@),
        decreases n - i,
    {
        let ghost rest = bytes@.subrange(i as int, n as int);
        let ghost was = out@;
        let b: u8 = bytes[i];
        if b == 0x2b {
            out.push(0x20);
            i = i + 1;
            proof {
                assert(rest.subrange(1, rest.len() as int) =~= bytes@.subrange(i as int, n as int));
                assert(out@ + unescaped(bytes@.subrange(i as int, n as int)) =~= was + unescaped(
                    rest,
                ));
            }
            continue;
        }
        if b == 0x25 && n - i > 2 {
            let hi = hex_nibble(bytes[i + 1]);
            let lo = hex_nibble(bytes[i + 2]);
            if let Some(h) = hi {
                if let Some(l) = lo {
                    let x: u8 = h * 16 + l;
                    out.push(x);
                    i = i + 3;
                    proof {
                        assert(escaped(rest));
                        assert(rest.subrange(3, rest.len() as int) =~= bytes@.subrange(
                            i as int,
                            n as int,
                        ));
                        assert(out@ + unescaped(bytes@.subrange(i as int, n as int)) =~= was
                            + unescaped(rest));
                    }
                    continue;
                }
            }
        }
        out.push(b);
        i = i + 1;
        proof {
            assert(!escaped(rest));
            assert(rest.subrange(1, rest.len() as int) =~= bytes@.subrange(i as int, n as int));
            assert(out@ + unescaped(bytes@.subrange(i as int, n as int)) =~= was + unescaped(rest));
        }
    }
    assert(bytes@.subrange(n as int, n as int) =~= Seq::<u8>::empty());
    assert(out@ =~= unescaped(bytes@));
    out
}

fn url_decode(s: &str) -> (r: String)
    ensures
        r@ == decoded(s@),
{
    let bytes = unescape(s.as_bytes());
    outside::utf8_lossy(bytes.as_slice())
}

/// Name and value of one pair of a query.
pub open spec fn pair_of(p: Seq<char>) -> (Seq<char>, Seq<char>) {
    if p.contains('=') {
        let i = text::index_of(p, '=');
        (decoded(p.subrange(0, i)), decoded(text::from_pos(p, i + 1)))
    } else {
        (decoded(p), Seq::empty())
    }
}

/// The pairs among the parts of a query.
pub open spec fn pairs_among(parts: Seq<Seq<char>>) -> Seq<(Seq<char>, Seq<char>)>
    decreases parts.len(),
{
    if parts.len() == 0 {
        Seq::empty()
    } else {
        let rest = pairs_among(parts.drop_last());
        if parts.last().len() == 0 {
            rest
        } else {
            rest.push(pair_of(parts.last()))
        }
    }
}

/// The pairs of a query.
pub open spec fn pairs_of(q: Seq<char>) -> Seq<(Seq<char>, Seq<char>)> {
    pairs_among(text::split(q, '&'))
}

/// Takes a query apart.
pub fn url_form_pairs(q: &str) -> (r: Vec<(String, String)>)
    ensures
        order::views_of(r@) == pairs_of(q@),
{
    let v = text::chars_of(q);
    let parts = text::split_on(&v, '&');
    let ghost all = text::views(parts@);
    let mut out: Vec<(String, String)> = Vec::new();
    let mut i: usize = 0;
    assert(order::views_of(out@) =~= Seq::<(Seq<char>, Seq<char>)>::empty());
    assert(all.take(0) =~= Seq::<Seq<char>>::empty());
    while i < parts.len()
        invariant
            i <= parts@.len(),
            all == text::views(parts@),
            order::views_of(out@) == pairs_among(all.take(i as int)),
        decreases parts@.len() - i,
    {
        let ghost was = order::views_of(out@);
        proof {
            assert(all.take(i + 1).drop_last() =~= all.take(i as int));
            assert(all.take(i + 1).last() == parts@[i as int]@);
        }
        let p = text::chars_of(parts[i].as_str());
        if p.len() > 0 {
            let entry: (String, String) = match text::find_char(&p, '=') {
                Some(k) => {
                    proof {
                        text::lemma_index_of(p@, '=', k as int);
                    }
                    let name = text::piece(&p, 0, k);
                    let value = text::piece(&p, k + 1, p.len());
                    (url_decode(name.as_str()), url_decode(value.as_str()))
                },
                None => (url_decode(parts[i].as_str()), String::new()),
            };
            let ghost e = entry@;
            out.push(entry);
            assert(order::views_of(out@) =~= was.push(e));
        }
        i = i + 1;
    }
    assert(all.take(i as int) =~= all);
    out
}

/// The value of `name` in a query: the last, where there are several.
pub open spec fn value_of(pairs: Seq<(Seq<char>, Seq<char>)>, name: Seq<char>) -> Option<Seq<char>>
    decreases pairs.len(),
{
    if pairs.len() == 0 {
        None
    } else if pairs.last().0 == name {
        Some(pairs.last().1)
    } else {
        value_of(pairs.drop_last(), name)
    }
}

fn lookup(pairs: &Vec<(String, String)>, name: &str) -> (r: Option<String>)
    ensures
        text::opt(r) == value_of(order::views_of(pairs@), name@),
{
    let ghost all = order::views_of(pairs@);
    let mut n: usize = pairs.len();
    assert(all.take(n as int) =~= all);
    while n > 0
        invariant
            n <= pairs@.len(),
            all == order::views_of(pairs@),
            value_of(all.take(n as int), name@) == value_of(all, name@),
        decreases n,
    {
        proof {
            assert(all.take(n as int).last() == pairs@[n - 1]@);
            assert(all.take(n as int).drop_last() =~= all.take(n - 1));
        }
        if text::same(pairs[n - 1].0.as_str(), name) {
            return Some(pairs[n - 1].1.clone());
        }
        n = n - 1;
    }
    None
}

/// A text that reads as a length.
pub open spec fn length_of(s: Option<Seq<char>>) -> Option<usize> {
    match s {
        None => None,
        Some(x) => match text::parsed_unsigned(x, usize::MAX as nat) {
            Some(n) => Some(n as usize),
            None => None,
        },
    }
}

fn read_length(s: &Option<String>) -> (r: Option<usize>)
    ensures
        r == length_of(text::opt(*s)),
{
    match s {
        None => None,
        Some(x) => {
            let v = text::chars_of(x.as_str());
            text::parse_usize(&v)
        },
    }
}

// ---- Paths ----------------------------------------------------------------

/// What stands before `suffix` at the end, where that is not empty.
pub open spec fn before_suffix(s: Seq<char>, suffix: Seq<char>) -> Option<Seq<char>> {
    if text::ends_with(s, suffix) && s.len() > suffix.len() {
        Some(s.subrange(0, s.len() - suffix.len()))
    } else {
        None
    }
}

/// What stands before and behind the last `marker`, where neither is empty and there
/// is no slash behind it.
pub open spec fn around(s: Seq<char>, marker: Seq<char>) -> Option<(Seq<char>, Seq<char>)> {
    let i = text::last_index(s, marker);
    if !text::occurs(s, marker) {
        None
    } else {
        let head = s.subrange(0, i);
        let tail = text::from_pos(s, i + marker.len());
        if head.len() == 0 || tail.len() == 0 || tail.contains('/') {
            None
        } else {
            Some((head, tail))
        }
    }
}

pub(crate) fn strip_suffix(s: &[char], suffix: &str) -> (r: Option<String>)
    ensures
        text::opt(r) == before_suffix(s@, suffix@),
{
    let p = text::chars_of(suffix);
    if text::has_suffix(s, &p) && s.len() > p.len() {
        Some(text::piece(s, 0, s.len() - p.len()))
    } else {
        None
    }
}

pub open spec fn pair_view(r: Option<(String, String)>) -> Option<(Seq<char>, Seq<char>)> {
    match r {
        Some((a, b)) => Some((a@, b@)),
        None => None,
    }
}

pub(crate) fn strip_two_suffix(s: &[char], marker: &str) -> (r: Option<(String, String)>)
    ensures
        pair_view(r) == around(s@, marker@),
{
    let m = text::chars_of(marker);
    let i: usize = match text::rfind(s, &m) {
        None => return None,
        Some(i) => i,
    };
    proof {
        text::lemma_last_index(s@, marker@, i as int);
    }
    let n: usize = s.len();
    let tail = text::cut(s, i + m.len(), n);
    if i == 0 || tail.len() == 0 || text::find_char(&tail, '/').is_some() {
        return None;
    }
    Some((text::piece(s, 0, i), text::text_of(&tail)))
}

// ---- Routes ---------------------------------------------------------------

/// A class of repositories with a volume of its own.
#[derive(Debug, Clone)]
pub struct RepoClass {
    pub name: String,
    /// The pattern of its repositories.
    pub pattern: String,
    /// The directory of its volume.
    pub root: String,
}

/// What there is to serve besides the registry itself.
#[derive(Debug, Clone, Copy, PartialEq, Eq, Structural)]
pub struct Features {
    pub admin: bool,
    /// The store is a composition of partitions.
    pub multi: bool,
    /// The store is a router.
    pub router: bool,
    /// The store keeps quotas.
    pub quota: bool,
    /// Tokens are exchanged.
    pub token: bool,
}

/// What a request asks for.
#[derive(Debug, Clone)]
#[allow(inconsistent_fields)]
pub enum Route {
    Version,
    Catalog { n: Option<usize>, last: Option<String> },
    TagsList { repo: String, n: Option<usize>, last: Option<String> },
    UploadStart {
        repo: String,
        digest: Option<String>,
        mount: Option<String>,
        from: Option<String>,
    },
    UploadStatus { repo: String, uuid: String },
    UploadChunk { repo: String, uuid: String },
    UploadFinish { repo: String, uuid: String, digest: Option<String> },
    UploadCancel { repo: String, uuid: String },
    ManifestGet { repo: String, reference: String, head_only: bool },
    ManifestPut { repo: String, reference: String },
    ManifestDelete { repo: String, reference: String },
    BlobGet { repo: String, digest: String, head_only: bool },
    BlobDelete { repo: String, digest: String },
    Referrers { repo: String, digest: String, artifact_type: Option<String> },
    Token,
    Gc,
    Partitions,
    Replicate,
    RepoRoots,
    RepoRoot,
    RepoMigrate,
    RepoClasses,
    Quotas,
    Jobs,
    Job { id: String },
    MethodNotAllowed,
    NotFound,
}

#[allow(inconsistent_fields)]
pub enum RouteView {
    Version,
    Catalog { n: Option<usize>, last: Option<Seq<char>> },
    TagsList { repo: Seq<char>, n: Option<usize>, last: Option<Seq<char>> },
    UploadStart {
        repo: Seq<char>,
        digest: Option<Seq<char>>,
        mount: Option<Seq<char>>,
        from: Option<Seq<char>>,
    },
    UploadStatus { repo: Seq<char>, uuid: Seq<char> },
    UploadChunk { repo: Seq<char>, uuid: Seq<char> },
    UploadFinish { repo: Seq<char>, uuid: Seq<char>, digest: Option<Seq<char>> },
    UploadCancel { repo: Seq<char>, uuid: Seq<char> },
    ManifestGet { repo: Seq<char>, reference: Seq<char>, head_only: bool },
    ManifestPut { repo: Seq<char>, reference: Seq<char> },
    ManifestDelete { repo: Seq<char>, reference: Seq<char> },
    BlobGet { repo: Seq<char>, digest: Seq<char>, head_only: bool },
    BlobDelete { repo: Seq<char>, digest: Seq<char> },
    Referrers { repo: Seq<char>, digest: Seq<char>, artifact_type: Option<Seq<char>> },
    Token,
    Gc,
    Partitions,
    Replicate,
    RepoRoots,
    RepoRoot,
    RepoMigrate,
    RepoClasses,
    Quotas,
    Jobs,
    Job { id: Seq<char> },
    MethodNotAllowed,
    NotFound,
}

impl View for Route {
    type V = RouteView;

    open spec fn view(&self) -> RouteView {
        match *self {
            Route::Version => RouteView::Version,
            Route::Catalog { n, last } => RouteView::Catalog { n, last: text::opt(last) },
            Route::TagsList { repo, n, last } => RouteView::TagsList {
                repo: repo@,
                n,
                last: text::opt(last),
            },
            Route::UploadStart { repo, digest, mount, from } => RouteView::UploadStart {
                repo: repo@,
                digest: text::opt(digest),
                mount: text::opt(mount),
                from: text::opt(from),
            },
            Route::UploadStatus { repo, uuid } => RouteView::UploadStatus {
                repo: repo@,
                uuid: uuid@,
            },
            Route::UploadChunk { repo, uuid } => RouteView::UploadChunk { repo: repo@, uuid: uuid@ },
            Route::UploadFinish { repo, uuid, digest } => RouteView::UploadFinish {
                repo: repo@,
                uuid: uuid@,
                digest: text::opt(digest),
            },
            Route::UploadCancel { repo, uuid } => RouteView::UploadCancel {
                repo: repo@,
                uuid: uuid@,
            },
            Route::ManifestGet { repo, reference, head_only } => RouteView::ManifestGet {
                repo: repo@,
                reference: reference@,
                head_only,
            },
            Route::ManifestPut { repo, reference } => RouteView::ManifestPut {
                repo: repo@,
                reference: reference@,
            },
            Route::ManifestDelete { repo, reference } => RouteView::ManifestDelete {
                repo: repo@,
                reference: reference@,
            },
            Route::BlobGet { repo, digest, head_only } => RouteView::BlobGet {
                repo: repo@,
                digest: digest@,
                head_only,
            },
            Route::BlobDelete { repo, digest } => RouteView::BlobDelete {
                repo: repo@,
                digest: digest@,
            },
            Route::Referrers { repo, digest, artifact_type } => RouteView::Referrers {
                repo: repo@,
                digest: digest@,
                artifact_type: text::opt(artifact_type),
            },
            Route::Token => RouteView::Token,
            Route::Gc => RouteView::Gc,
            Route::Partitions => RouteView::Partitions,
            Route::Replicate => RouteView::Replicate,
            Route::RepoRoots => RouteView::RepoRoots,
            Route::RepoRoot => RouteView::RepoRoot,
            Route::RepoMigrate => RouteView::RepoMigrate,
            Route::RepoClasses => RouteView::RepoClasses,
            Route::Quotas => RouteView::Quotas,
            Route::Jobs => RouteView::Jobs,
            Route::Job { id } => RouteView::Job { id: id@ },
            Route::MethodNotAllowed => RouteView::MethodNotAllowed,
            Route::NotFound => RouteView::NotFound,
        }
    }
}

/// The method asks for content.
pub open spec fn reads(method: Method) -> bool {
    method == Method::Get || method == Method::Head
}

/// The route of a path outside `/v2/`. There a method that an endpoint does not have
/// makes the path unknown.
pub open spec fn beside(method: Method, path: Seq<char>, f: Features) -> RouteView {
    if path == "/token"@ && method == Method::Get && f.token {
        RouteView::Token
    } else if !f.admin {
        RouteView::NotFound
    } else if path == "/admin/gc"@ && method == Method::Post {
        RouteView::Gc
    } else if path == "/admin/partitions"@ && reads(method) && f.multi {
        RouteView::Partitions
    } else if path == "/admin/replicate"@ && method == Method::Post && f.multi {
        RouteView::Replicate
    } else if path == "/admin/repo-roots"@ && reads(method) && f.router {
        RouteView::RepoRoots
    } else if path == "/admin/repo-root"@ && method == Method::Post && f.router {
        RouteView::RepoRoot
    } else if path == "/admin/repo-migrate"@ && method == Method::Post && f.router {
        RouteView::RepoMigrate
    } else if path == "/admin/repo-classes"@ && reads(method) {
        RouteView::RepoClasses
    } else if path == "/admin/quotas"@ && reads(method) && f.quota {
        RouteView::Quotas
    } else if path == "/admin/jobs"@ && reads(method) {
        RouteView::Jobs
    } else if text::starts_with(path, "/admin/jobs/"@) && path.len() > "/admin/jobs/"@.len()
        && reads(method) {
        RouteView::Job { id: text::from_pos(path, "/admin/jobs/"@.len() as int) }
    } else {
        RouteView::NotFound
    }
}

/// The path of an upload that starts, with or without a slash at its end.
pub open spec fn upload_root(rest: Seq<char>) -> Seq<char> {
    if rest.len() > 0 && rest.last() == '/' {
        rest.drop_last()
    } else {
        rest
    }
}

pub(crate) fn without_slash(rest: &[char]) -> (r: Vec<char>)
    ensures
        r@ == upload_root(rest@),
{
    let n: usize = rest.len();
    if n > 0 && rest[n - 1] == '/' {
        let r = text::cut(rest, 0, n - 1);
        assert(r@ =~= upload_root(rest@));
        r
    } else {
        let r = text::cut(rest, 0, n);
        assert(r@ =~= upload_root(rest@));
        r
    }
}

/// The route of what stands behind `/v2/`.
pub open spec fn under(
    method: Method,
    rest: Seq<char>,
    pairs: Seq<(Seq<char>, Seq<char>)>,
) -> RouteView {
    if rest == "_catalog"@ {
        if reads(method) {
            RouteView::Catalog {
                n: length_of(value_of(pairs, "n"@)),
                last: value_of(pairs, "last"@),
            }
        } else {
            RouteView::MethodNotAllowed
        }
    } else if before_suffix(rest, "/tags/list"@) is Some {
        if reads(method) {
            RouteView::TagsList {
                repo: before_suffix(rest, "/tags/list"@)->0,
                n: length_of(value_of(pairs, "n"@)),
                last: value_of(pairs, "last"@),
            }
        } else {
            RouteView::MethodNotAllowed
        }
    } else if before_suffix(upload_root(rest), "/blobs/uploads"@) is Some {
        if method == Method::Post {
            RouteView::UploadStart {
                repo: before_suffix(upload_root(rest), "/blobs/uploads"@)->0,
                digest: value_of(pairs, "digest"@),
                mount: value_of(pairs, "mount"@),
                from: value_of(pairs, "from"@),
            }
        } else {
            RouteView::MethodNotAllowed
        }
    } else if around(rest, "/blobs/uploads/"@) is Some {
        let (repo, uuid) = around(rest, "/blobs/uploads/"@)->0;
        match method {
            Method::Get => RouteView::UploadStatus { repo, uuid },
            Method::Patch => RouteView::UploadChunk { repo, uuid },
            Method::Put => RouteView::UploadFinish {
                repo,
                uuid,
                digest: value_of(pairs, "digest"@),
            },
            Method::Delete => RouteView::UploadCancel { repo, uuid },
            _ => RouteView::MethodNotAllowed,
        }
    } else if around(rest, "/manifests/"@) is Some {
        let (repo, reference) = around(rest, "/manifests/"@)->0;
        match method {
            Method::Get => RouteView::ManifestGet { repo, reference, head_only: false },
            Method::Head => RouteView::ManifestGet { repo, reference, head_only: true },
            Method::Put => RouteView::ManifestPut { repo, reference },
            Method::Delete => RouteView::ManifestDelete { repo, reference },
            _ => RouteView::MethodNotAllowed,
        }
    } else if around(rest, "/blobs/"@) is Some {
        let (repo, digest) = around(rest, "/blobs/"@)->0;
        match method {
            Method::Get => RouteView::BlobGet { repo, digest, head_only: false },
            Method::Head => RouteView::BlobGet { repo, digest, head_only: true },
            Method::Delete => RouteView::BlobDelete { repo, digest },
            _ => RouteView::MethodNotAllowed,
        }
    } else if around(rest, "/referrers/"@) is Some {
        let (repo, digest) = around(rest, "/referrers/"@)->0;
        match method {
            Method::Get => RouteView::Referrers {
                repo,
                digest,
                artifact_type: value_of(pairs, "artifactType"@),
            },
            _ => RouteView::MethodNotAllowed,
        }
    } else {
        RouteView::NotFound
    }
}

/// The route of a request.
pub open spec fn routed(
    method: Method,
    path: Seq<char>,
    query: Option<Seq<char>>,
    f: Features,
) -> RouteView {
    if path == "/v2"@ || path == "/v2/"@ {
        if reads(method) {
            RouteView::Version
        } else {
            RouteView::MethodNotAllowed
        }
    } else if !text::starts_with(path, "/v2/"@) {
        beside(method, path, f)
    } else {
        under(
            method,
            text::from_pos(path, "/v2/"@.len() as int),
            match query {
                Some(q) => pairs_of(q),
                None => Seq::empty(),
            },
        )
    }
}

fn route_beside(method: Method, path: &str, f: Features) -> (r: Route)
    ensures
        r@ == beside(method, path@, f),
{
    let get = method == Method::Get;
    let post = method == Method::Post;
    let read = get || method == Method::Head;
    if text::same(path, "/token") && get && f.token {
        return Route::Token;
    }
    if !f.admin {
        return Route::NotFound;
    }
    if text::same(path, "/admin/gc") && post {
        return Route::Gc;
    }
    if text::same(path, "/admin/partitions") && read && f.multi {
        return Route::Partitions;
    }
    if text::same(path, "/admin/replicate") && post && f.multi {
        return Route::Replicate;
    }
    if text::same(path, "/admin/repo-roots") && read && f.router {
        return Route::RepoRoots;
    }
    if text::same(path, "/admin/repo-root") && post && f.router {
        return Route::RepoRoot;
    }
    if text::same(path, "/admin/repo-migrate") && post && f.router {
        return Route::RepoMigrate;
    }
    if text::same(path, "/admin/repo-classes") && read {
        return Route::RepoClasses;
    }
    if text::same(path, "/admin/quotas") && read && f.quota {
        return Route::Quotas;
    }
    if text::same(path, "/admin/jobs") && read {
        return Route::Jobs;
    }
    let p = text::chars_of(path);
    let jobs = text::chars_of("/admin/jobs/");
    if text::has_prefix(&p, &jobs) && p.len() > jobs.len() && read {
        return Route::Job { id: text::piece(&p, jobs.len(), p.len()) };
    }
    Route::NotFound
}

fn route_under(method: Method, rest: &Vec<char>, pairs: &Vec<(String, String)>) -> (r: Route)
    ensures
        r@ == under(method, rest@, order::views_of(pairs@)),
{
    let read = method == Method::Get || method == Method::Head;
    let name = text::text_of(rest);
    if text::same(name.as_str(), "_catalog") {
        if !read {
            return Route::MethodNotAllowed;
        }
        let n = read_length(&lookup(pairs, "n"));
        return Route::Catalog { n, last: lookup(pairs, "last") };
    }
    if let Some(repo) = strip_suffix(rest, "/tags/list") {
        if !read {
            return Route::MethodNotAllowed;
        }
        let n = read_length(&lookup(pairs, "n"));
        return Route::TagsList { repo, n, last: lookup(pairs, "last") };
    }
    let root = without_slash(rest);
    if let Some(repo) = strip_suffix(&root, "/blobs/uploads") {
        return match method {
            Method::Post => Route::UploadStart {
                repo,
                digest: lookup(pairs, "digest"),
                mount: lookup(pairs, "mount"),
                from: lookup(pairs, "from"),
            },
            _ => Route::MethodNotAllowed,
        };
    }
    if let Some((repo, uuid)) = strip_two_suffix(rest, "/blobs/uploads/") {
        return match method {
            Method::Get => Route::UploadStatus { repo, uuid },
            Method::Patch => Route::UploadChunk { repo, uuid },
            Method::Put => Route::UploadFinish { repo, uuid, digest: lookup(pairs, "digest") },
            Method::Delete => Route::UploadCancel { repo, uuid },
            _ => Route::MethodNotAllowed,
        };
    }
    if let Some((repo, reference)) = strip_two_suffix(rest, "/manifests/") {
        return match method {
            Method::Get => Route::ManifestGet { repo, reference, head_only: false },
            Method::Head => Route::ManifestGet { repo, reference, head_only: true },
            Method::Put => Route::ManifestPut { repo, reference },
            Method::Delete => Route::ManifestDelete { repo, reference },
            _ => Route::MethodNotAllowed,
        };
    }
    if let Some((repo, digest)) = strip_two_suffix(rest, "/blobs/") {
        return match method {
            Method::Get => Route::BlobGet { repo, digest, head_only: false },
            Method::Head => Route::BlobGet { repo, digest, head_only: true },
            Method::Delete => Route::BlobDelete { repo, digest },
            _ => Route::MethodNotAllowed,
        };
    }
    if let Some((repo, digest)) = strip_two_suffix(rest, "/referrers/") {
        return match method {
            Method::Get => Route::Referrers {
                repo,
                digest,
                artifact_type: lookup(pairs, "artifactType"),
            },
            _ => Route::MethodNotAllowed,
        };
    }
    Route::NotFound
}

/// Says what a request asks for.
pub fn route(method: Method, path: &str, query: &Option<String>, f: Features) -> (r: Route)
    ensures
        r@ == routed(method, path@, text::opt(*query), f),
{
    if text::same(path, "/v2") || text::same(path, "/v2/") {
        return match method {
            Method::Get | Method::Head => Route::Version,
            _ => Route::MethodNotAllowed,
        };
    }
    let p = text::chars_of(path);
    let root = text::chars_of("/v2/");
    if !text::has_prefix(&p, &root) {
        return route_beside(method, path, f);
    }
    let pairs: Vec<(String, String)> = match query {
        Some(q) => url_form_pairs(q.as_str()),
        None => Vec::new(),
    };
    proof {
        if *query is None {
            assert(order::views_of(pairs@) =~= Seq::<(Seq<char>, Seq<char>)>::empty());
        }
    }
    let rest = text::cut(&p, root.len(), p.len());
    route_under(method, &rest, &pairs)
}

// ---- Answers --------------------------------------------------------------

pub open spec fn not_allowed() -> OciErrorView {
    OciErrorView {
        status: 405,
        ..error::plain_error(OciCode::Unsupported, "method not allowed"@)
    }
}

pub open spec fn unknown_path() -> OciErrorView {
    error::plain_error(OciCode::NameUnknown, "not found"@)
}

fn method_not_allowed() -> (r: OciError)
    ensures
        r@ == not_allowed(),
{
    OciError::new(OciCode::Unsupported, "method not allowed".to_owned()).with_status(405)
}

fn not_found() -> (r: OciError)
    ensures
        r@ == unknown_path(),
{
    OciError::new(OciCode::NameUnknown, "not found".to_owned())
}

/// What comes with a request besides its route.
#[derive(Debug, Clone)]
pub struct Payload {
    pub content_type: Option<String>,
    pub body: Vec<u8>,
    /// What the body references, where it reads as a manifest.
    pub refs: Option<Manifest>,
}

/// The route is one that the registry itself answers.
pub open spec fn of_registry(route: RouteView) -> bool {
    match route {
        RouteView::Token | RouteView::Gc | RouteView::Partitions | RouteView::Replicate
        | RouteView::RepoRoots | RouteView::RepoRoot | RouteView::RepoMigrate
        | RouteView::RepoClasses | RouteView::Quotas | RouteView::Jobs | RouteView::Job { .. } => false,
        _ => true,
    }
}

/// The calls and the answer of a request to the registry.
pub open spec fn answered(
    calls: Seq<Call>,
    route: RouteView,
    p: Payload,
    r: Result<ResponseView, OciErrorView>,
) -> bool {
    match route {
        RouteView::Version => calls.len() == 0 && r == Ok::<_, OciErrorView>(handlers::version()),
        RouteView::Catalog { n, last } => handlers::catalog_listed(calls, n, last, r),
        RouteView::TagsList { repo, n, last } => handlers::tags_listed(calls, repo, n, last, r),
        RouteView::UploadStart { repo, digest, mount, from } => handlers::upload_started(
            calls,
            repo,
            digest,
            mount,
            from,
            p.body@,
            r,
        ),
        RouteView::UploadStatus { repo, uuid } => handlers::upload_asked(calls, repo, uuid, r),
        RouteView::UploadChunk { repo, uuid } => handlers::chunk_taken(
            calls,
            repo,
            uuid,
            p.body@,
            r,
        ),
        RouteView::UploadFinish { repo, uuid, digest } => handlers::upload_finished(
            calls,
            repo,
            uuid,
            digest,
            p.body@,
            r,
        ),
        RouteView::UploadCancel { repo, uuid } => handlers::upload_cancelled(calls, repo, uuid, r),
        RouteView::ManifestGet { repo, reference, head_only } => handlers::manifest_fetched(
            calls,
            repo,
            reference,
            head_only,
            r,
        ),
        RouteView::ManifestPut { repo, reference } => handlers::manifest_kept(
            calls,
            repo,
            reference,
            text::opt(p.content_type),
            p.body@,
            p.refs,
            r,
        ),
        RouteView::ManifestDelete { repo, reference } => handlers::manifest_deleted(
            calls,
            repo,
            reference,
            r,
        ),
        RouteView::BlobGet { repo, digest, head_only } => handlers::blob_fetched(
            calls,
            repo,
            digest,
            head_only,
            r,
        ),
        RouteView::BlobDelete { repo, digest } => handlers::blob_deleted(calls, repo, digest, r),
        RouteView::Referrers { repo, digest, artifact_type } => handlers::referrers_listed(
            calls,
            repo,
            digest,
            artifact_type,
            r,
        ),
        RouteView::MethodNotAllowed => calls.len() == 0 && r == Err::<ResponseView, _>(
            not_allowed(),
        ),
        _ => calls.len() == 0 && r == Err::<ResponseView, _>(unknown_path()),
    }
}

/// Answers a request to the registry. None for a route that is not one of it.
pub fn dispatch<S: Storage>(store: &mut S, route: Route, payload: Payload) -> (r: Option<
    Result<Response, OciError>,
>)
    requires
        old(store).wf(),
    ensures
        final(store).wf(),
        final(store).origin() == old(store).origin(),
        storage::extends(old(store).log(), final(store).log()),
        r is Some <==> of_registry(route@),
        match r {
            Some(x) => answered(
                storage::added(old(store).log(), final(store).log()),
                route@,
                payload,
                http::outcome(x),
            ),
            None => final(store).log() == old(store).log(),
        },
{
    proof {
        storage::lemma_added_none(old(store).log());
    }
    let r: Result<Response, OciError> = match route {
        Route::Version => Ok(handlers::version_check()),
        Route::Catalog { n, last } => handlers::catalog(store, n, last),
        Route::TagsList { repo, n, last } => handlers::tags_list(store, repo.as_str(), n, last),
        Route::UploadStart { repo, digest, mount, from } => handlers::upload_start(
            store,
            repo.as_str(),
            digest,
            mount,
            from,
            payload.body.as_slice(),
        ),
        Route::UploadStatus { repo, uuid } => handlers::upload_status(
            store,
            repo.as_str(),
            uuid.as_str(),
        ),
        Route::UploadChunk { repo, uuid } => handlers::upload_chunk(
            store,
            repo.as_str(),
            uuid.as_str(),
            payload.body.as_slice(),
        ),
        Route::UploadFinish { repo, uuid, digest } => handlers::upload_finish(
            store,
            repo.as_str(),
            uuid.as_str(),
            digest,
            payload.body.as_slice(),
        ),
        Route::UploadCancel { repo, uuid } => handlers::upload_cancel(
            store,
            repo.as_str(),
            uuid.as_str(),
        ),
        Route::ManifestGet { repo, reference, head_only } => handlers::manifest_get(
            store,
            repo.as_str(),
            reference.as_str(),
            head_only,
        ),
        Route::ManifestPut { repo, reference } => handlers::manifest_put(
            store,
            repo.as_str(),
            reference.as_str(),
            payload.content_type,
            payload.body.as_slice(),
            &payload.refs,
        ),
        Route::ManifestDelete { repo, reference } => handlers::manifest_delete(
            store,
            repo.as_str(),
            reference.as_str(),
        ),
        Route::BlobGet { repo, digest, head_only } => handlers::blob_get(
            store,
            repo.as_str(),
            digest.as_str(),
            head_only,
        ),
        Route::BlobDelete { repo, digest } => handlers::blob_delete(
            store,
            repo.as_str(),
            digest.as_str(),
        ),
        Route::Referrers { repo, digest, artifact_type } => handlers::referrers(
            store,
            repo.as_str(),
            digest.as_str(),
            artifact_type,
        ),
        Route::MethodNotAllowed => Err(method_not_allowed()),
        Route::NotFound => Err(not_found()),
        _ => return None,
    };
    Some(r)
}

// ---- Authentication -------------------------------------------------------

/// How requests are authenticated.
pub enum Auth<R> {
    /// By Basic credentials from an htpasswd file.
    Htpasswd(Htpasswd),
    /// By a cluster.
    K8s(K8sAuth<R>),
}

/// The request probes the protocol version, which needs no credentials.
pub open spec fn is_probe(method: Method, path: Seq<char>) -> bool {
    method == Method::Get && (path == "/v2/"@ || path == "/v2"@)
}

/// The request exchanges a token, which checks the credentials itself.
pub open spec fn is_exchange(method: Method, path: Seq<char>) -> bool {
    method == Method::Get && path == "/token"@
}

/// Whether a request probes the protocol version.
pub fn probes(method: Method, path: &str) -> (r: bool)
    ensures
        r == is_probe(method, path@),
{
    method == Method::Get && (text::same(path, "/v2/") || text::same(path, "/v2"))
}

/// Whether a request exchanges a token.
pub fn exchanges(method: Method, path: &str) -> (r: bool)
    ensures
        r == is_exchange(method, path@),
{
    method == Method::Get && text::same(path, "/token")
}

/// The response that asks for Basic credentials.
pub open spec fn basic_refusal(realm: Seq<char>) -> RefusalView {
    RefusalView {
        error: OciErrorView {
            status: auth::UNAUTH_STATUS,
            ..error::plain_error(OciCode::Unauthorized, "authentication required"@)
        },
        headers: http::one_header("www-authenticate"@, "Basic realm=\""@ + realm + "\""@),
    }
}

fn basic_challenge(realm: &str) -> (r: Refusal)
    ensures
        r@ == basic_refusal(realm@),
{
    let e = OciError::new(
        OciCode::Unauthorized,
        "authentication required".to_owned(),
    ).with_status(auth::UNAUTH_STATUS);
    Refusal::with_header(e, "www-authenticate", auth::challenge_headers(realm))
}

/// The header carries the name and password of a user.
pub open spec fn basic_passes(users: auth::Users, header: Option<Seq<char>>) -> bool {
    match header {
        None => false,
        Some(h) => match auth::basic_credentials(h) {
            None => false,
            Some((u, p)) => auth::accepts(users, u, p),
        },
    }
}

/// Decides by Basic credentials whether a request may go on; none if it may.
pub fn check_basic(h: &Htpasswd, realm: &str, header: &Option<String>) -> (r: Option<Refusal>)
    ensures
        match r {
            None => basic_passes(h@, text::opt(*header)),
            Some(x) => !basic_passes(h@, text::opt(*header)) && x@ == basic_refusal(realm@),
        },
{
    if let Some(v) = header {
        if let Some((u, p)) = auth::parse_basic(v.as_str()) {
            if h.verify(u.as_str(), p.as_str()) {
                return None;
            }
        }
    }
    Some(basic_challenge(realm))
}

pub open spec fn refusal_view(r: Option<Refusal>) -> Option<RefusalView> {
    match r {
        None => None,
        Some(x) => Some(x@),
    }
}

/// A cluster's check of a request ended like this.
pub open spec fn k8s_decided<R: RecordedReviewer>(
    was: K8sAuth<R>,
    now_: K8sAuth<R>,
    method: Method,
    path: Seq<char>,
    header: Option<Seq<char>>,
    peer: Option<Peer>,
    now: u64,
    r: Option<RefusalView>,
) -> bool {
    k8s::grown(was.reviews(), now_.reviews()) && exists|got: Result<(), k8s::AuthReject>|
        #[trigger] k8s::checked(
            was.cfg,
            k8s::newly(was.reviews(), now_.reviews()),
            k8s::classified(method, path),
            header,
            peer,
            was.memory(),
            now_.memory(),
            now,
            got,
        ) && r == (match got {
            Ok(_) => None,
            Err(x) => Some(k8s::refusal_of(x@, was.challenge())),
        })
}

/// Decides whether a request may go on; none if it may. A version probe always may,
/// and so may a token exchange with a cluster.
pub fn require_auth<R: RecordedReviewer>(
    auth: &mut Option<Auth<R>>,
    realm: &str,
    method: Method,
    path: &str,
    header: &Option<String>,
    peer: Option<Peer>,
    now: u64,
) -> (r: Option<Refusal>)
    ensures
        match *old(auth) {
            None => r is None && *final(auth) == *old(auth),
            Some(Auth::Htpasswd(h)) => {
                &&& *final(auth) == *old(auth)
                &&& refusal_view(r) == if is_probe(method, path@) || basic_passes(
                    h@,
                    text::opt(*header),
                ) {
                    None
                } else {
                    Some(basic_refusal(realm@))
                }
            },
            Some(Auth::K8s(k)) => if is_probe(method, path@) || is_exchange(method, path@) {
                r is None && *final(auth) == *old(auth)
            } else {
                &&& *final(auth) matches Some(Auth::K8s(k1)) && k1.cfg == k.cfg && k8s_decided(
                    k,
                    k1,
                    method,
                    path@,
                    text::opt(*header),
                    peer,
                    now,
                    refusal_view(r),
                )
            },
        },
{
    if auth.is_none() || probes(method, path) {
        return None;
    }
    match auth {
        None => None,
        Some(Auth::Htpasswd(h)) => check_basic(h, realm, header),
        Some(Auth::K8s(k)) => {
            if exchanges(method, path) {
                return None;
            }
            let ghost was = *k;
            let op = k8s::classify(method, path);
            let got = k.check(&op, header, peer, now);
            let ghost g = got;
            let r = match got {
                Ok(()) => None,
                Err(x) => Some(x.into_response(k)),
            };
            assert(k8s_decided(was, *k, method, path@, text::opt(*header), peer, now, refusal_view(r))) by {
                assert(k8s::checked(
                    was.cfg,
                    k8s::newly(was.reviews(), k.reviews()),
                    k8s::classified(method, path@),
                    text::opt(*header),
                    peer,
                    was.memory(),
                    k.memory(),
                    now,
                    g,
                ));
            }
            r
        },
    }
}

} // verus!
