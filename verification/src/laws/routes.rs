//! Where requests go: the paths and queries that are served, and what comes back for the
//! others.

use vstd::prelude::*;

use crate::auth;
use crate::error::OciErrorView;
use crate::handlers;
use crate::http;
use crate::http::{Method, ResponseView};
use crate::k8s;
use crate::k8s::Action;
use crate::laws::links;
use crate::laws::words;
use crate::router;
use crate::router::{Features, Payload, RouteView};
use crate::storage::Call;
use crate::text;

verus! {

/// A query is cut into pairs at its ampersands.
pub proof fn query_is_cut_at_ampersands(a: Seq<char>, b: Seq<char>)
    requires
        words::lacks(a, '&'),
    ensures
        router::pairs_of(a + seq!['&'] + b) == router::pairs_of(a) + router::pairs_of(b),
{
    words::split_cuts_at_each(a, '&', b);
    lemma_pairs_among(seq![a], text::split(b, '&'));
}

proof fn lemma_pairs_among(a: Seq<Seq<char>>, b: Seq<Seq<char>>)
    ensures
        router::pairs_among(a + b) == router::pairs_among(a) + router::pairs_among(b),
    decreases b.len(),
{
    if b.len() == 0 {
        assert(a + b =~= a);
        assert(router::pairs_among(a) + router::pairs_among(b) =~= router::pairs_among(a));
    } else {
        lemma_pairs_among(a, b.drop_last());
        assert((a + b).drop_last() =~= a + b.drop_last());
        assert((a + b).last() == b.last());
        assert(router::pairs_among(a + b) =~= router::pairs_among(a) + router::pairs_among(b));
    }
}

/// A part of a query is a name and what stands behind the first equals sign, both decoded;
/// without one it is a name with an empty value, and an empty part is no pair.
pub proof fn part_of_a_query_is_a_pair(name: Seq<char>, value: Seq<char>)
    requires
        words::lacks(name, '&'),
        words::lacks(value, '&'),
        words::lacks(name, '='),
    ensures
        router::pairs_of(name + seq!['='] + value) == seq![
            (router::decoded(name), router::decoded(value)),
        ],
        name.len() > 0 ==> router::pairs_of(name) == seq![
            (router::decoded(name), Seq::<char>::empty()),
        ],
        router::pairs_of(Seq::empty()) == Seq::<(Seq<char>, Seq<char>)>::empty(),
{
    let p = name + seq!['='] + value;
    assert(words::lacks(p, '&')) by {
        assert forall|i: int| 0 <= i < p.len() implies #[trigger] p[i] != '&' by {
            if i < name.len() {
                assert(p[i] == name[i]);
            } else if i > name.len() {
                assert(p[i] == value[i - name.len() - 1]);
            }
        }
    }
    words::split_cuts_at_each(p, '&', Seq::empty());
    words::split_cuts_at_each(name, '&', Seq::empty());
    words::split_cuts_at_each(Seq::empty(), '&', Seq::empty());
    words::first_place_of_a_character(name, '=', value);
    assert(p.subrange(0, name.len() as int) =~= name);
    assert(text::from_pos(p, (name.len() + 1) as int) =~= value);
    lemma_one_part(p);
    lemma_one_part(name);
    lemma_one_part(Seq::empty());
    if name.contains('=') {
        let i = choose|i: int| 0 <= i < name.len() && name[i] == '=';
        assert(name[i] != '=');
    }
}

proof fn lemma_one_part(p: Seq<char>)
    ensures
        p.len() > 0 ==> router::pairs_among(seq![p]) == seq![router::pair_of(p)],
        p.len() == 0 ==> router::pairs_among(seq![p]) == Seq::<(Seq<char>, Seq<char>)>::empty(),
{
    assert(seq![p].drop_last() =~= Seq::<Seq<char>>::empty());
    assert(router::pairs_among(Seq::<Seq<char>>::empty()) =~= Seq::<
        (Seq<char>, Seq<char>),
    >::empty());
    if p.len() > 0 {
        assert(router::pairs_among(seq![p]) =~= seq![router::pair_of(p)]);
    }
}

/// The name stands in none of the pairs.
pub open spec fn unnamed(ps: Seq<(Seq<char>, Seq<char>)>, name: Seq<char>) -> bool {
    forall|i: int| 0 <= i < ps.len() ==> (#[trigger] ps[i]).0 != name
}

/// Of the values of a name the last one counts; a name that stands nowhere has none.
pub proof fn last_value_counts(
    ps: Seq<(Seq<char>, Seq<char>)>,
    name: Seq<char>,
    value: Seq<char>,
    qs: Seq<(Seq<char>, Seq<char>)>,
)
    requires
        unnamed(qs, name),
    ensures
        router::value_of(ps.push((name, value)) + qs, name) == Some(value),
        router::value_of(qs, name) is None,
    decreases qs.len(),
{
    let all = ps.push((name, value)) + qs;
    if qs.len() == 0 {
        assert(all =~= ps.push((name, value)));
        assert(all.last() == (name, value));
    } else {
        let q = qs.drop_last();
        assert forall|i: int| 0 <= i < q.len() implies (#[trigger] q[i]).0 != name by {
            assert(q[i] == qs[i]);
        }
        last_value_counts(ps, name, value, q);
        assert(qs.last() == qs[qs.len() - 1]);
        assert(all.drop_last() =~= ps.push((name, value)) + q);
        assert(all.last() == qs.last());
    }
}

/// The length of a page is a decimal number; a text that is none counts as no length.
pub proof fn page_length_is_a_number(x: Seq<char>, n: nat)
    ensures
        router::length_of(None) is None,
        text::parsed_unsigned(x, usize::MAX as nat) == Some(n) && n <= usize::MAX
            ==> router::length_of(Some(x)) == Some(n as usize),
        text::parsed_unsigned(x, usize::MAX as nat) is None ==> router::length_of(Some(x)) is None,
{
}

/// The hexadecimal digits of an escape, of either case.
pub proof fn escapes_are_hexadecimal(b: u8)
    ensures
        router::nibble(b) == (if '0' as int <= b <= '9' as int {
            Some((b - '0' as int) as u8)
        } else if 'a' as int <= b <= 'f' as int {
            Some((b - 'a' as int + 10) as u8)
        } else if 'A' as int <= b <= 'F' as int {
            Some((b - 'A' as int + 10) as u8)
        } else {
            None
        }),
{
}

/// The byte is a hexadecimal digit.
pub open spec fn is_digit_byte(b: u8) -> bool {
    ('0' as int <= b <= '9' as int) || ('a' as int <= b <= 'f' as int) || ('A' as int <= b
        <= 'F' as int)
}

/// A percent sign without two hexadecimal digits behind it stands for itself; with them, the
/// three stand for one byte.
pub proof fn escapes_have_two_digits(rest: Seq<u8>)
    ensures
        rest.len() < 2 || !is_digit_byte(rest[0]) || !is_digit_byte(rest[1]) ==> router::unescaped(
            seq!['%' as u8] + rest,
        ) == seq!['%' as u8] + router::unescaped(rest),
        rest.len() >= 2 && is_digit_byte(rest[0]) && is_digit_byte(rest[1]) ==> router::unescaped(
            seq!['%' as u8] + rest,
        ) == seq![(router::nibble(rest[0])->0 * 16 + router::nibble(rest[1])->0) as u8]
            + router::unescaped(rest.skip(2)),
{
    let b = seq!['%' as u8] + rest;
    assert('%' as u8 == 0x25);
    assert(b.subrange(1, b.len() as int) =~= rest);
    if rest.len() >= 2 {
        assert(b.subrange(3, b.len() as int) =~= rest.skip(2));
    }
}

/// What a query says.
pub open spec fn said(query: Option<Seq<char>>, name: Seq<char>) -> Option<Seq<char>> {
    match query {
        Some(q) => router::value_of(router::pairs_of(q), name),
        None => None,
    }
}

/// The method asks for content, with or without a body.
pub open spec fn asks(method: Method) -> bool {
    method == Method::Get || method == Method::Head
}

/// The root of the protocol tells its version.
pub proof fn root_tells_the_version(method: Method, query: Option<Seq<char>>, f: Features)
    ensures
        asks(method) ==> router::routed(method, "/v2/"@, query, f) is Version,
        asks(method) ==> router::routed(method, "/v2"@, query, f) is Version,
        !asks(method) ==> router::routed(method, "/v2/"@, query, f) is MethodNotAllowed,
        !asks(method) ==> router::routed(method, "/v2"@, query, f) is MethodNotAllowed,
{
}

/// The path of the catalog lists the repositories, from where the query says on and as many
/// as it says.
pub proof fn catalog_path_lists_them(method: Method, query: Option<Seq<char>>, f: Features)
    ensures
        router::routed(method, "/v2/_catalog"@, query, f) == (if asks(method) {
            RouteView::Catalog {
                n: router::length_of(said(query, "n"@)),
                last: said(query, "last"@),
            }
        } else {
            RouteView::MethodNotAllowed
        }),
{
    reveal_strlit("/v2");
    reveal_strlit("/v2/");
    reveal_strlit("_catalog");
    reveal_strlit("/v2/_catalog");
    lemma_behind_v2("_catalog"@);
    assert("/v2/"@ + "_catalog"@ =~= "/v2/_catalog"@);
}

proof fn lemma_behind_v2(rest: Seq<char>)
    ensures
        text::starts_with("/v2/"@ + rest, "/v2/"@),
        text::from_pos("/v2/"@ + rest, "/v2/"@.len() as int) == rest,
        rest.len() > 0 ==> "/v2/"@ + rest != "/v2"@ && "/v2/"@ + rest != "/v2/"@,
{
    reveal_strlit("/v2");
    reveal_strlit("/v2/");
    words::beginning_with("/v2/"@, rest, rest);
}

/// The path of the tags of a repository lists them.
pub proof fn tags_path_lists_them(
    method: Method,
    repo: Seq<char>,
    query: Option<Seq<char>>,
    f: Features,
)
    requires
        repo.len() > 0,
    ensures
        router::routed(method, "/v2/"@ + (repo + "/tags/list"@), query, f) == (if asks(method) {
            RouteView::TagsList {
                repo,
                n: router::length_of(said(query, "n"@)),
                last: said(query, "last"@),
            }
        } else {
            RouteView::MethodNotAllowed
        }),
{
    reveal_strlit("_catalog");
    reveal_strlit("/tags/list");
    let rest = repo + "/tags/list"@;
    lemma_behind_v2(rest);
    words::beginning_with("/tags/list"@, repo, rest);
    assert(rest.subrange(0, rest.len() - "/tags/list"@.len()) =~= repo);
    assert(rest.last() == "/tags/list"@[9]);
    assert("_catalog"@.last() == 'g');
}

/// The path where uploads start, with or without a slash at its end, starts one.
pub proof fn uploads_path_starts_one(
    method: Method,
    repo: Seq<char>,
    slash: bool,
    query: Option<Seq<char>>,
    f: Features,
)
    requires
        repo.len() > 0,
    ensures
        ({
            let rest = repo + (if slash {
                "/blobs/uploads/"@
            } else {
                "/blobs/uploads"@
            });
            router::routed(method, "/v2/"@ + rest, query, f) == (if method == Method::Post {
                RouteView::UploadStart {
                    repo,
                    digest: said(query, "digest"@),
                    mount: said(query, "mount"@),
                    from: said(query, "from"@),
                }
            } else {
                RouteView::MethodNotAllowed
            })
        }),
{
    reveal_strlit("_catalog");
    reveal_strlit("/tags/list");
    reveal_strlit("/blobs/uploads");
    reveal_strlit("/blobs/uploads/");
    let end = if slash {
        "/blobs/uploads/"@
    } else {
        "/blobs/uploads"@
    };
    let rest = repo + end;
    lemma_behind_v2(rest);
    assert(rest.last() == end.last());
    assert("_catalog"@.last() == 'g');
    assert("/tags/list"@.last() == 't');
    if text::ends_with(rest, "/tags/list"@) {
        words::beginning_with("/tags/list"@, repo, rest);
        assert(rest.last() == 't');
    }
    let root = router::upload_root(rest);
    assert("/blobs/uploads/"@.drop_last() =~= "/blobs/uploads"@);
    assert(root =~= repo + "/blobs/uploads"@);
    words::beginning_with("/blobs/uploads"@, repo, root);
    assert(root.subrange(0, root.len() - "/blobs/uploads"@.len()) =~= repo);
}

/// The path of an upload takes the digest from the query, and that of referrers the type;
/// either has the methods that it has.
pub proof fn queries_of_uploads_and_referrers(
    method: Method,
    repo: Seq<char>,
    leaf: Seq<char>,
    query: Option<Seq<char>>,
    f: Features,
)
    requires
        repo.len() > 0,
        links::is_leaf(leaf),
    ensures
        router::routed(method, links::path_of(repo, "/blobs/uploads/"@, leaf), query, f) == (
        match method {
            Method::Get => RouteView::UploadStatus { repo, uuid: leaf },
            Method::Patch => RouteView::UploadChunk { repo, uuid: leaf },
            Method::Put => RouteView::UploadFinish {
                repo,
                uuid: leaf,
                digest: said(query, "digest"@),
            },
            Method::Delete => RouteView::UploadCancel { repo, uuid: leaf },
            _ => RouteView::MethodNotAllowed,
        }),
        router::routed(method, links::path_of(repo, "/referrers/"@, leaf), query, f) == (
        if method == Method::Get {
            RouteView::Referrers {
                repo,
                digest: leaf,
                artifact_type: said(query, "artifactType"@),
            }
        } else {
            RouteView::MethodNotAllowed
        }),
{
    reveal_strlit("_catalog");
    let f0 = f;
    links::upload_path_reaches_it(Method::Get, repo, leaf, f0);
    links::referrers_path_reaches_them(repo, leaf, f0);
}

/// Every route comes from a path of its own form.
pub proof fn routes_come_from_their_paths(
    method: Method,
    path: Seq<char>,
    query: Option<Seq<char>>,
    f: Features,
)
    ensures
        match router::routed(method, path, query, f) {
            RouteView::Version => path == "/v2"@ || path == "/v2/"@,
            RouteView::Catalog { .. } => path == "/v2/"@ + "_catalog"@,
            RouteView::TagsList { repo, .. } => repo.len() > 0 && path == "/v2/"@ + (repo
                + "/tags/list"@),
            RouteView::UploadStart { repo, .. } => repo.len() > 0 && (path == "/v2/"@ + (repo
                + "/blobs/uploads"@) || path == "/v2/"@ + (repo + "/blobs/uploads"@ + seq!['/'])),
            RouteView::UploadStatus { repo, uuid } => comes(path, repo, "/blobs/uploads/"@, uuid),
            RouteView::UploadChunk { repo, uuid } => comes(path, repo, "/blobs/uploads/"@, uuid),
            RouteView::UploadFinish { repo, uuid, .. } => comes(
                path,
                repo,
                "/blobs/uploads/"@,
                uuid,
            ),
            RouteView::UploadCancel { repo, uuid } => comes(path, repo, "/blobs/uploads/"@, uuid),
            RouteView::ManifestGet { repo, reference, .. } => comes(
                path,
                repo,
                "/manifests/"@,
                reference,
            ),
            RouteView::ManifestPut { repo, reference } => comes(
                path,
                repo,
                "/manifests/"@,
                reference,
            ),
            RouteView::ManifestDelete { repo, reference } => comes(
                path,
                repo,
                "/manifests/"@,
                reference,
            ),
            RouteView::BlobGet { repo, digest, .. } => comes(path, repo, "/blobs/"@, digest),
            RouteView::BlobDelete { repo, digest } => comes(path, repo, "/blobs/"@, digest),
            RouteView::Referrers { repo, digest, .. } => comes(path, repo, "/referrers/"@, digest),
            RouteView::Token => path == "/token"@,
            RouteView::Gc => path == "/admin/gc"@,
            RouteView::Partitions => path == "/admin/partitions"@,
            RouteView::Replicate => path == "/admin/replicate"@,
            RouteView::RepoRoots => path == "/admin/repo-roots"@,
            RouteView::RepoRoot => path == "/admin/repo-root"@,
            RouteView::RepoMigrate => path == "/admin/repo-migrate"@,
            RouteView::RepoClasses => path == "/admin/repo-classes"@,
            RouteView::Quotas => path == "/admin/quotas"@,
            RouteView::Jobs => path == "/admin/jobs"@,
            RouteView::Job { id } => id.len() > 0 && path == "/admin/jobs/"@ + id,
            RouteView::MethodNotAllowed => true,
            RouteView::NotFound => true,
        },
{
    reveal_strlit("/v2/");
    words::beginning_with("/v2/"@, path, path);
    words::beginning_with("/admin/jobs/"@, path, path);
    let rest = text::from_pos(path, "/v2/"@.len() as int);
    words::beginning_with("/tags/list"@, rest, rest);
    let root = router::upload_root(rest);
    words::beginning_with("/blobs/uploads"@, root, root);
    if rest.len() > 0 && rest.last() == '/' {
        assert(rest =~= root + seq!['/']);
    }
    lemma_around(rest, "/blobs/uploads/"@);
    lemma_around(rest, "/manifests/"@);
    lemma_around(rest, "/blobs/"@);
    lemma_around(rest, "/referrers/"@);
}

/// The path is this one, of a repository with a name and of a leaf.
pub open spec fn comes(
    path: Seq<char>,
    repo: Seq<char>,
    marker: Seq<char>,
    leaf: Seq<char>,
) -> bool {
    repo.len() > 0 && links::is_leaf(leaf) && path == "/v2/"@ + (repo + marker + leaf)
}

proof fn lemma_around(s: Seq<char>, marker: Seq<char>)
    ensures
        router::around(s, marker) matches Some((a, b)) ==> a.len() > 0 && links::is_leaf(b) && s
            == a + marker + b,
{
    if text::occurs(s, marker) {
        let k = choose|k: int| text::occurs_at(s, marker, k);
        lemma_last(s, marker, k);
        let i = text::last_index(s, marker);
        assert(text::occurs_at(s, marker, i));
        let a = s.subrange(0, i);
        let b = text::from_pos(s, i + marker.len());
        assert(s.subrange(i, i + marker.len()) =~= marker);
        assert(s =~= a + s.subrange(i, i + marker.len()) + b);
    }
}

proof fn lemma_last(s: Seq<char>, pat: Seq<char>, k: int)
    requires
        text::occurs_at(s, pat, k),
    ensures
        text::last_at(s, pat, text::last_index(s, pat)),
    decreases s.len() - k,
{
    if exists|j: int| j > k && text::occurs_at(s, pat, j) {
        let j = choose|j: int| j > k && text::occurs_at(s, pat, j);
        lemma_last(s, pat, j);
    } else {
        assert(text::last_at(s, pat, k));
        text::lemma_last_index(s, pat, k);
    }
}

/// What is served beside the protocol: the exchange of tokens, and administration where it
/// is switched on, each with its method and where there is something to administer.
pub proof fn paths_beside_the_protocol(method: Method, query: Option<Seq<char>>, f: Features, id: Seq<char>)
    requires
        id.len() > 0,
    ensures
        router::routed(method, "/token"@, query, f) is Token <==> method == Method::Get && f.token,
        router::routed(method, "/admin/gc"@, query, f) is Gc <==> method == Method::Post && f.admin,
        router::routed(method, "/admin/partitions"@, query, f) is Partitions <==> asks(method)
            && f.admin && f.multi,
        router::routed(method, "/admin/replicate"@, query, f) is Replicate <==> method
            == Method::Post && f.admin && f.multi,
        router::routed(method, "/admin/repo-roots"@, query, f) is RepoRoots <==> asks(method)
            && f.admin && f.router,
        router::routed(method, "/admin/repo-root"@, query, f) is RepoRoot <==> method
            == Method::Post && f.admin && f.router,
        router::routed(method, "/admin/repo-migrate"@, query, f) is RepoMigrate <==> method
            == Method::Post && f.admin && f.router,
        router::routed(method, "/admin/repo-classes"@, query, f) is RepoClasses <==> asks(method)
            && f.admin,
        router::routed(method, "/admin/quotas"@, query, f) is Quotas <==> asks(method) && f.admin
            && f.quota,
        router::routed(method, "/admin/jobs"@, query, f) is Jobs <==> asks(method) && f.admin,
        router::routed(method, "/admin/jobs/"@ + id, query, f) == (if asks(method) && f.admin {
            RouteView::Job { id }
        } else {
            RouteView::NotFound
        }),
{
    reveal_strlit("/v2");
    reveal_strlit("/v2/");
    reveal_strlit("/token");
    reveal_strlit("/admin/gc");
    reveal_strlit("/admin/partitions");
    reveal_strlit("/admin/replicate");
    reveal_strlit("/admin/repo-roots");
    reveal_strlit("/admin/repo-root");
    reveal_strlit("/admin/repo-migrate");
    reveal_strlit("/admin/repo-classes");
    reveal_strlit("/admin/quotas");
    reveal_strlit("/admin/jobs");
    reveal_strlit("/admin/jobs/");
    lemma_beside("/token"@);
    lemma_beside("/admin/gc"@);
    lemma_beside("/admin/partitions"@);
    lemma_beside("/admin/replicate"@);
    lemma_beside("/admin/repo-roots"@);
    lemma_beside("/admin/repo-root"@);
    lemma_beside("/admin/repo-migrate"@);
    lemma_beside("/admin/repo-classes"@);
    lemma_beside("/admin/quotas"@);
    lemma_beside("/admin/jobs"@);
    let p = "/admin/jobs/"@ + id;
    assert(p[1] == 'a');
    lemma_beside(p);
    words::beginning_with("/admin/jobs/"@, id, id);
    assert(p[7] == 'j' && p[8] == 'o' && p[9] == 'b' && p[10] == 's' && p[11] == '/');
    assert("/admin/gc"@[7] == 'g');
    assert("/admin/partitions"@[7] == 'p' && "/admin/partitions"@[8] == 'a');
    assert("/admin/replicate"@[7] == 'r' && "/admin/replicate"@[9] == 'p' && "/admin/replicate"@[10]
        == 'l');
    assert("/admin/repo-roots"@[7] == 'r' && "/admin/repo-roots"@[12] == 'r');
    assert("/admin/repo-root"@[7] == 'r' && "/admin/repo-root"@[12] == 'r');
    assert("/admin/repo-migrate"@[7] == 'r' && "/admin/repo-migrate"@[12] == 'm');
    assert("/admin/repo-classes"@[7] == 'r' && "/admin/repo-classes"@[12] == 'c');
    assert("/admin/quotas"@[7] == 'q');
    assert("/admin/jobs"@.len() == 11);
    assert("/admin/repo-roots"@.len() == 17 && "/admin/repo-root"@.len() == 16);
    assert("/token"@[1] == 't');
}

proof fn lemma_beside(p: Seq<char>)
    requires
        p.len() > 3,
        p[1] != 'v',
    ensures
        p != "/v2"@,
        p != "/v2/"@,
        !text::starts_with(p, "/v2/"@),
{
    reveal_strlit("/v2");
    reveal_strlit("/v2/");
    assert("/v2"@[1] == 'v' && "/v2/"@[1] == 'v');
    if text::starts_with(p, "/v2/"@) {
        words::beginning_with("/v2/"@, p, p);
        assert(p[1] == "/v2/"@[1]);
    }
}

/// Beside the protocol no method is refused: the path is then unknown.
pub proof fn no_method_is_refused_beside(
    method: Method,
    path: Seq<char>,
    query: Option<Seq<char>>,
    f: Features,
)
    requires
        path != "/v2"@,
        !text::starts_with(path, "/v2/"@),
    ensures
        !(router::routed(method, path, query, f) is MethodNotAllowed),
        !f.admin && !f.token ==> router::routed(method, path, query, f) is NotFound,
{
    words::beginning_with("/v2/"@, Seq::empty(), path);
    assert("/v2/"@ + Seq::<char>::empty() =~= "/v2/"@);
}

/// What the registry does for each route.
pub proof fn requests_are_answered_for_what_they_reach(
    calls: Seq<Call>,
    p: Payload,
    r: Result<ResponseView, OciErrorView>,
    repo: Seq<char>,
    x: Seq<char>,
    q: Option<Seq<char>>,
    mount: Option<Seq<char>>,
    from: Option<Seq<char>>,
    n: Option<usize>,
    head_only: bool,
)
    ensures
        router::answered(calls, RouteView::Catalog { n, last: q }, p, r)
            ==> handlers::catalog_listed(calls, n, q, r),
        router::answered(calls, RouteView::TagsList { repo, n, last: q }, p, r)
            ==> handlers::tags_listed(calls, repo, n, q, r),
        router::answered(calls, RouteView::UploadStart { repo, digest: q, mount, from }, p, r)
            ==> handlers::upload_started(calls, repo, q, mount, from, p.body@, r),
        router::answered(calls, RouteView::UploadStatus { repo, uuid: x }, p, r)
            ==> handlers::upload_asked(calls, repo, x, r),
        router::answered(calls, RouteView::UploadChunk { repo, uuid: x }, p, r)
            ==> handlers::chunk_taken(calls, repo, x, p.body@, r),
        router::answered(calls, RouteView::UploadFinish { repo, uuid: x, digest: q }, p, r)
            ==> handlers::upload_finished(calls, repo, x, q, p.body@, r),
        router::answered(calls, RouteView::UploadCancel { repo, uuid: x }, p, r)
            ==> handlers::upload_cancelled(calls, repo, x, r),
        router::answered(calls, RouteView::ManifestGet { repo, reference: x, head_only }, p, r)
            ==> handlers::manifest_fetched(calls, repo, x, head_only, r),
        router::answered(calls, RouteView::ManifestPut { repo, reference: x }, p, r)
            ==> handlers::manifest_kept(
            calls,
            repo,
            x,
            text::opt(p.content_type),
            p.body@,
            p.refs,
            r,
        ),
        router::answered(calls, RouteView::ManifestDelete { repo, reference: x }, p, r)
            ==> handlers::manifest_deleted(calls, repo, x, r),
        router::answered(calls, RouteView::BlobGet { repo, digest: x, head_only }, p, r)
            ==> handlers::blob_fetched(calls, repo, x, head_only, r),
        router::answered(calls, RouteView::BlobDelete { repo, digest: x }, p, r)
            ==> handlers::blob_deleted(calls, repo, x, r),
        router::answered(calls, RouteView::Referrers { repo, digest: x, artifact_type: q }, p, r)
            ==> handlers::referrers_listed(calls, repo, x, q, r),
{
}

/// A path that is unknown and a method that is not allowed touch no store; they are told by
/// their status.
pub proof fn unknown_paths_and_methods_are_told(
    calls: Seq<Call>,
    p: Payload,
    r: Result<ResponseView, OciErrorView>,
)
    ensures
        router::answered(calls, RouteView::NotFound, p, r) ==> calls.len() == 0 && r is Err
            && r->Err_0.status == 404,
        router::answered(calls, RouteView::MethodNotAllowed, p, r) ==> calls.len() == 0 && r is Err
            && r->Err_0.status == 405,
        router::answered(calls, RouteView::Version, p, r) ==> calls.len() == 0 && r is Ok
            && r->Ok_0.status == 200,
{
}

/// What each method does to content.
pub proof fn methods_act_on_content()
    ensures
        k8s::action_of(Method::Get) == Action::Pull,
        k8s::action_of(Method::Head) == Action::Pull,
        k8s::action_of(Method::Post) == Action::Push,
        k8s::action_of(Method::Put) == Action::Push,
        k8s::action_of(Method::Patch) == Action::Push,
        k8s::action_of(Method::Delete) == Action::Delete,
{
}

/// With a file of users a request may go on that carries the name and the password of one of
/// them; every other is asked for credentials.
pub proof fn users_may_go_on(
    users: auth::Users,
    header: Seq<char>,
    user: Seq<char>,
    password: Seq<char>,
    realm: Seq<char>,
)
    ensures
        !router::basic_passes(users, None),
        auth::basic_credentials(header) is None ==> !router::basic_passes(users, Some(header)),
        auth::basic_credentials(header) == Some((user, password)) ==> (router::basic_passes(
            users,
            Some(header),
        ) <==> auth::accepts(users, user, password)),
        router::basic_refusal(realm).error.status == 401,
        is_printed(realm) ==> router::basic_refusal(realm).headers == seq![
            ("www-authenticate"@, "Basic realm=\""@ + realm + "\""@),
        ],
{
    reveal_strlit("Basic realm=\"");
    reveal_strlit("\"");
    let a = "Basic realm=\""@;
    let b = "\""@;
    assert(a[0] == 'B' && a[1] == 'a' && a[2] == 's' && a[3] == 'i' && a[4] == 'c' && a[5] == ' ');
    assert(a[6] == 'r' && a[7] == 'e' && a[8] == 'a' && a[9] == 'l' && a[10] == 'm' && a[11] == '='
        && a[12] == '"' && a.len() == 13);
    if is_printed(realm) {
        let v = a + realm + b;
        assert forall|i: int| 0 <= i < v.len() implies 32 <= #[trigger] v[i] as int && v[i] as int
            != 127 || v[i] as int == 9 by {
            if 13 <= i < 13 + realm.len() {
                assert(v[i] == realm[i - 13]);
            }
        }
        printed_values_are_sent("www-authenticate"@, v);
    }
}

/// No character is a control character other than the tab.
pub open spec fn is_printed(s: Seq<char>) -> bool {
    forall|i: int|
        0 <= i < s.len() ==> (32 <= #[trigger] s[i] as int && s[i] as int != 127) || s[i] as int
            == 9
}

proof fn lemma_code(c: char)
    ensures
        c as int == c as u32,
{
    assert(c as u32 <= 0x10ffff);
}

/// A header is sent where its value holds no control character, and else left out.
pub proof fn printed_values_are_sent(name: Seq<char>, value: Seq<char>)
    ensures
        is_printed(value) ==> http::one_header(name, value) == seq![(name, value)],
        !is_printed(value) ==> http::one_header(name, value).len() == 0,
{
    if is_printed(value) {
        assert forall|i: int| 0 <= i < value.len() implies http::may_be_sent(
            #[trigger] value[i],
        ) by {
            lemma_code(value[i]);
            assert(32 <= value[i] as int && value[i] as int != 127 || value[i] as int == 9);
        }
    } else {
        let i = choose|i: int|
            0 <= i < value.len() && !((32 <= #[trigger] value[i] as int && value[i] as int != 127)
                || value[i] as int == 9);
        lemma_code(value[i]);
        assert(!http::may_be_sent(value[i]));
    }
}

/// A probe of the version and the exchange of a token need no credentials; nothing else is
/// either of them.
pub proof fn only_probes_and_exchanges_go_without(method: Method, path: Seq<char>)
    ensures
        router::is_probe(method, path) <==> method == Method::Get && (path == "/v2"@ || path
            == "/v2/"@),
        router::is_exchange(method, path) <==> method == Method::Get && path == "/token"@,
{
}

} // verus!
