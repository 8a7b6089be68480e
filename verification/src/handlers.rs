//! The operations of the registry.
//!
//! Each handler checks the request, asks the store, and says what to answer. Its
//! contract gives the calls that it adds to the record of the store and the answer
//! as a function of what the store replied.

use vstd::prelude::*;

use crate::digest;
use crate::digest::{Algorithm, Digest, DigestErrorView, DigestView};
use crate::error;
use crate::error::{OciCode, OciError, OciErrorView};
use crate::http;
use crate::http::{Body, BodyView, Referrer, ReferrerView, Response, ResponseView};
use crate::manifest;
use crate::manifest::Manifest;
use crate::order;
use crate::order::Key;
use crate::outside;
use crate::storage;
use crate::storage::{Call, Reference, ReferenceView, Storage, StorageError, StoredManifest, UploadStatus};
use crate::text;

verus! {

// ---- Repository names -----------------------------------------------------

/// A character that a component may begin with.
pub open spec fn name_start(c: char) -> bool {
    ('a' <= c && c <= 'z') || ('0' <= c && c <= '9')
}

/// A character that a component may go on with.
pub open spec fn name_part(c: char) -> bool {
    name_start(c) || c == '.' || c == '_' || c == '-'
}

/// Two neighbours in a component: separators follow each other only as part of `__` or of
/// a run of `-`.
pub open spec fn neighbours(a: char, b: char) -> bool {
    name_start(a) || name_start(b) || (a == b && a != '.')
}

/// The separators of a component that begins with a letter or digit: it ends with a
/// letter or digit, and between those there is one `.`, one or two `_`, or any number of
/// `-`.
pub open spec fn well_separated(c: Seq<char>) -> bool {
    &&& name_start(c.last())
    &&& forall|i: int| 0 <= i < c.len() - 1 ==> neighbours(#[trigger] c[i], c[i + 1])
    &&& forall|i: int|
        0 <= i < c.len() - 2 ==> !(#[trigger] c[i] == '_' && c[i + 1] == '_' && c[i + 2] == '_')
}

/// What is wrong with a component of a name.
pub open spec fn component_problem(c: Seq<char>) -> Option<Seq<char>> {
    if c.len() == 0 {
        Some("empty path component"@)
    } else if !name_start(c[0]) {
        Some("component must start with [a-z0-9]"@)
    } else if exists|i: int| 1 <= i < c.len() && !name_part(#[trigger] c[i]) {
        Some("component contains invalid character"@)
    } else if !well_separated(c) {
        Some("component has a misplaced separator"@)
    } else {
        None
    }
}

/// What is wrong with the first component that is wrong.
pub open spec fn first_problem(parts: Seq<Seq<char>>) -> Option<Seq<char>>
    decreases parts.len(),
{
    if parts.len() == 0 {
        None
    } else if component_problem(parts[0]) is Some {
        component_problem(parts[0])
    } else {
        first_problem(parts.drop_first())
    }
}

/// What is wrong with a repository name.
pub open spec fn name_problem(name: Seq<char>) -> Option<Seq<char>> {
    if name.len() == 0 || text::byte_len(name) > 255 {
        Some("name out of range"@)
    } else {
        first_problem(text::split(name, '/'))
    }
}

/// A name that is right.
pub open spec fn valid_name(name: Seq<char>) -> bool {
    name_problem(name) is None
}

pub open spec fn name_error(name: Seq<char>) -> OciErrorView {
    error::plain_error(OciCode::NameInvalid, name_problem(name)->0)
}

fn check_component(c: &str) -> (r: Option<&'static str>)
    ensures
        match r {
            Some(m) => component_problem(c@) == Some(m@),
            None => component_problem(c@) is None,
        },
{
    let v = text::chars_of(c);
    if v.len() == 0 {
        return Some("empty path component");
    }
    let f: char = v[0];
    if !(('a' <= f && f <= 'z') || ('0' <= f && f <= '9')) {
        return Some("component must start with [a-z0-9]");
    }
    let mut i: usize = 1;
    while i < v.len()
        invariant
            1 <= i <= v@.len(),
            v@ == c@,
            name_start(c@[0]),
            forall|j: int| 1 <= j < i ==> name_part(#[trigger] c@[j]),
        decreases v@.len() - i,
    {
        let x: char = v[i];
        if !(('a' <= x && x <= 'z') || ('0' <= x && x <= '9') || x == '.' || x == '_' || x == '-') {
            assert(!name_part(c@[i as int]));
            return Some("component contains invalid character");
        }
        i = i + 1;
    }
    if separators_fit(&v) {
        None
    } else {
        Some("component has a misplaced separator")
    }
}

fn is_alphanumeric(c: char) -> (r: bool)
    ensures
        r == name_start(c),
{
    ('a' <= c && c <= 'z') || ('0' <= c && c <= '9')
}

fn separators_fit(v: &Vec<char>) -> (r: bool)
    requires
        v@.len() > 0,
    ensures
        r == well_separated(v@),
{
    let n: usize = v.len();
    if !is_alphanumeric(v[n - 1]) {
        return false;
    }
    let mut i: usize = 0;
    while i + 1 < n
        invariant
            n == v@.len(),
            i < n,
            name_start(v@.last()),
            forall|j: int| 0 <= j < i ==> neighbours(#[trigger] v@[j], v@[j + 1]),
            forall|j: int|
                0 <= j < i && j < n - 2 ==> !(#[trigger] v@[j] == '_' && v@[j + 1] == '_' && v@[j
                    + 2] == '_'),
        decreases n - i,
    {
        let a: char = v[i];
        let b: char = v[i + 1];
        if !is_alphanumeric(a) && !is_alphanumeric(b) && (a != b || a == '.') {
            assert(!neighbours(v@[i as int], v@[i + 1]));
            return false;
        }
        if i + 2 < n && a == '_' && b == '_' && v[i + 2] == '_' {
            assert(v@[i as int] == '_' && v@[i + 1] == '_' && v@[i + 2] == '_');
            return false;
        }
        i = i + 1;
    }
    true
}

/// Checks the name of a repository.
pub fn validate_repo_name(name: &str) -> (r: Result<(), OciError>)
    ensures
        match r {
            Ok(_) => valid_name(name@),
            Err(e) => !valid_name(name@) && e@ == name_error(name@),
        },
{
    if name.is_empty() || text::byte_count(name) > 255 {
        return Err(OciError::new(OciCode::NameInvalid, "name out of range".to_owned()));
    }
    let v = text::chars_of(name);
    let parts = text::split_on(&v, '/');
    let ghost all = text::views(parts@);
    let mut i: usize = 0;
    assert(all.subrange(0, all.len() as int) =~= all);
    while i < parts.len()
        invariant
            i <= parts@.len(),
            all == text::views(parts@),
            name@.len() > 0,
            text::byte_len(name@) <= 255,
            all == text::split(name@, '/'),
            first_problem(all) == first_problem(all.subrange(i as int, all.len() as int)),
        decreases parts@.len() - i,
    {
        let ghost rest = all.subrange(i as int, all.len() as int);
        assert(rest[0] == parts@[i as int]@);
        assert(rest.drop_first() =~= all.subrange(i + 1, all.len() as int));
        match check_component(parts[i].as_str()) {
            Some(m) => {
                return Err(OciError::new(OciCode::NameInvalid, m.to_owned()));
            },
            None => {},
        }
        i = i + 1;
    }
    Ok(())
}

/// A name is right exactly when it is of 1 to 255 bytes and each of its components
/// begins with a lower-case letter or digit and goes on with those and with separators,
/// well placed.
pub proof fn valid_name_grammar(name: Seq<char>)
    ensures
        valid_name(name) <==> {
            &&& 0 < name.len()
            &&& text::byte_len(name) <= 255
            &&& forall|k: int|
                0 <= k < text::split(name, '/').len() ==> {
                    let c = #[trigger] text::split(name, '/')[k];
                    &&& c.len() > 0
                    &&& name_start(c[0])
                    &&& forall|i: int| 1 <= i < c.len() ==> name_part(#[trigger] c[i])
                    &&& well_separated(c)
                }
        },
{
    lemma_first_problem(text::split(name, '/'));
    let parts = text::split(name, '/');
    if forall|k: int| 0 <= k < parts.len() ==> component_problem(#[trigger] parts[k]) is None {
        assert forall|k: int| 0 <= k < parts.len() implies {
            let c = #[trigger] parts[k];
            &&& c.len() > 0
            &&& name_start(c[0])
            &&& forall|i: int| 1 <= i < c.len() ==> name_part(#[trigger] c[i])
            &&& well_separated(c)
        } by {
            assert(component_problem(parts[k]) is None);
        }
    } else {
        let k = choose|k: int|
            0 <= k < parts.len() && component_problem(#[trigger] parts[k]) is Some;
        let c = parts[k];
        assert(component_problem(c) is Some);
    }
}

proof fn lemma_first_problem(parts: Seq<Seq<char>>)
    ensures
        first_problem(parts) is None <==> forall|k: int|
            0 <= k < parts.len() ==> component_problem(#[trigger] parts[k]) is None,
    decreases parts.len(),
{
    if parts.len() > 0 {
        let rest = parts.drop_first();
        lemma_first_problem(rest);
        if first_problem(parts) is None {
            assert forall|k: int| 0 <= k < parts.len() implies component_problem(
                #[trigger] parts[k],
            ) is None by {
                if k > 0 {
                    assert(rest[k - 1] == parts[k]);
                }
            }
        } else if component_problem(parts[0]) is None {
            let k = choose|k: int|
                0 <= k < rest.len() && component_problem(#[trigger] rest[k]) is Some;
            assert(parts[k + 1] == rest[k]);
        }
    }
}

// ---- References and digests -----------------------------------------------

/// How the last part of a manifest path is read: as a digest if it is one, else as a
/// tag.
pub open spec fn reference_of(s: Seq<char>) -> ReferenceView {
    match digest::parsed(s) {
        Ok(d) => ReferenceView::Digest(d),
        Err(_) => ReferenceView::Tag(s),
    }
}

pub fn parse_reference(s: &str) -> (r: Reference)
    ensures
        r@ == reference_of(s@),
{
    match Digest::parse(s) {
        Ok(d) => Reference::Digest(d),
        Err(_) => Reference::Tag(s.to_owned()),
    }
}

/// The error for a text that is no digest.
pub open spec fn digest_error(e: DigestErrorView) -> OciErrorView {
    error::plain_error(OciCode::DigestInvalid, "invalid digest: "@ + e.text())
}

/// How a digest in a request is read.
pub open spec fn digest_of(s: Seq<char>) -> Result<DigestView, OciErrorView> {
    match digest::parsed(s) {
        Ok(d) => Ok(d),
        Err(e) => Err(digest_error(e)),
    }
}

pub fn parse_digest(s: &str) -> (r: Result<Digest, OciError>)
    ensures
        match r {
            Ok(d) => digest_of(s@) == Ok::<DigestView, OciErrorView>(d@),
            Err(e) => digest_of(s@) == Err::<DigestView, OciErrorView>(e@),
        },
{
    match Digest::parse(s) {
        Ok(d) => Ok(d),
        Err(e) => {
            let m = e.to_string();
            Err(OciError::new(OciCode::DigestInvalid, text::cat("invalid digest: ", m.as_str())))
        },
    }
}

/// How the id of an upload in a request is read.
pub open spec fn upload_id(s: Seq<char>) -> Result<u128, OciErrorView> {
    match outside::uuid_of(s) {
        Some(id) => Ok(id),
        None => Err(error::plain_error(OciCode::BlobUploadInvalid, "invalid upload uuid"@)),
    }
}

pub fn parse_uuid(s: &str) -> (r: Result<u128, OciError>)
    ensures
        match r {
            Ok(id) => upload_id(s@) == Ok::<u128, OciErrorView>(id),
            Err(e) => upload_id(s@) == Err::<u128, OciErrorView>(e@),
        },
{
    match outside::uuid_parse(s) {
        Some(id) => Ok(id),
        None => Err(OciError::new(OciCode::BlobUploadInvalid, "invalid upload uuid".to_owned())),
    }
}

// ---- Version --------------------------------------------------------------

/// The answer to a probe of the protocol version.
pub open spec fn version() -> ResponseView {
    ResponseView {
        status: 200,
        headers: seq![("docker-distribution-api-version"@, "registry/2.0"@)],
        body: BodyView::Text("{}"@),
    }
}

/// Answers a probe of the protocol version.
pub fn version_check() -> (r: Response)
    ensures
        r@ == version(),
{
    let r = Response::bare(200).header(
        "docker-distribution-api-version",
        "registry/2.0".to_owned(),
    ).body(Body::Text("{}".to_owned()));
    assert(r@.headers =~= seq![("docker-distribution-api-version"@, "registry/2.0"@)]);
    r
}

// ---- Catalog and tags -----------------------------------------------------

/// The items behind `last` in the order of texts.
pub open spec fn behind(items: Seq<Seq<char>>, last: Option<Seq<char>>) -> Seq<Seq<char>>
    decreases items.len(),
{
    match last {
        None => items,
        Some(x) => if items.len() == 0 {
            items
        } else {
            let rest = behind(items.drop_last(), last);
            if order::text_before(x, items.last()) {
                rest.push(items.last())
            } else {
                rest
            }
        },
    }
}

/// One page of a list: at most `n` of the items behind `last`.
pub open spec fn page(
    items: Seq<Seq<char>>,
    n: Option<usize>,
    last: Option<Seq<char>>,
) -> Seq<Seq<char>> {
    let rest = behind(items, last);
    match n {
        Some(k) => if rest.len() > k {
            rest.take(k as int)
        } else {
            rest
        },
        None => rest,
    }
}

/// Whether a page leaves items out behind it.
pub open spec fn cut_short(
    items: Seq<Seq<char>>,
    n: Option<usize>,
    last: Option<Seq<char>>,
) -> bool {
    n matches Some(k) && behind(items, last).len() > k
}

/// Takes one page out of a list; says whether items are left behind it.
pub fn take_page(items: Vec<String>, n: Option<usize>, last: &Option<String>) -> (r: (
    Vec<String>,
    bool,
))
    ensures
        order::views_of(r.0@) == page(order::views_of(items@), n, text::opt(*last)),
        r.1 == cut_short(order::views_of(items@), n, text::opt(*last)),
{
    let ghost all = order::views_of(items@);
    let ghost x = text::opt(*last);
    let mut rest: Vec<String> = Vec::new();
    let mut i: usize = 0;
    assert(order::views_of(rest@) =~= behind(all.take(0), x));
    while i < items.len()
        invariant
            i <= items@.len(),
            all == order::views_of(items@),
            x == text::opt(*last),
            order::views_of(rest@) == behind(all.take(i as int), x),
        decreases items@.len() - i,
    {
        proof {
            assert(all.take(i + 1).drop_last() =~= all.take(i as int));
            assert(all.take(i + 1).last() == items@[i as int]@);
        }
        let ghost was = order::views_of(rest@);
        let keep: bool = match last {
            None => true,
            Some(s) => order::text_less(s.as_str(), items[i].as_str()),
        };
        if keep {
            rest.push(items[i].clone());
            assert(order::views_of(rest@) =~= was.push(items@[i as int]@));
        }
        i = i + 1;
        assert(x is None ==> order::views_of(rest@) =~= all.take(i as int));
    }
    assert(all.take(i as int) =~= all);
    let ghost full = order::views_of(rest@);
    match n {
        None => (rest, false),
        Some(k) => {
            if rest.len() > k {
                rest.truncate(k);
                assert(order::views_of(rest@) =~= full.take(k as int));
                (rest, true)
            } else {
                (rest, false)
            }
        },
    }
}

/// The query that asks for the next page.
pub open spec fn next_query(n: nat, last: Seq<char>) -> Seq<char> {
    "n="@ + text::decimal(n) + "&last="@ + last
}

/// The `Link` header that leads to the next page, if it can be sent.
pub open spec fn next_link(
    base: Seq<char>,
    n: Option<usize>,
    items: Seq<Seq<char>>,
) -> Seq<(Seq<char>, Seq<char>)> {
    let k = match n {
        Some(k) => k as nat,
        None => 0,
    };
    if items.len() > 0 {
        http::one_header(
            "link"@,
            "</v2/"@ + base + "?"@ + next_query(k, items.last()) + ">; rel=\"next\""@,
        )
    } else {
        Seq::empty()
    }
}

fn paged(base: &str, n: Option<usize>, items: &Vec<String>, truncated: bool) -> (r: Response)
    ensures
        r@ == (ResponseView {
            status: 200,
            headers: if truncated {
                next_link(base@, n, order::views_of(items@))
            } else {
                Seq::empty()
            },
            body: BodyView::Empty,
        }),
{
    let r = Response::bare(200);
    if truncated && items.len() > 0 {
        let k: usize = match n {
            Some(k) => k,
            None => 0,
        };
        let number = text::decimal_text(k as u64);
        let mut query = text::cat3("n=", number.as_str(), "&last=");
        query.append(items[items.len() - 1].as_str());
        let mut link = text::cat3("</v2/", base, "?");
        link.append(query.as_str());
        link.append(">; rel=\"next\"");
        if !http::sendable(link.as_str()) {
            return r;
        }
        let x = r.header("link", link);
        assert(x@.headers =~= next_link(base@, n, order::views_of(items@)));
        x
    } else {
        r
    }
}

/// The answer to a request for the catalog.
pub open spec fn catalog_answer(
    reply: Result<Seq<Seq<char>>, StorageError>,
    n: Option<usize>,
    last: Option<Seq<char>>,
) -> Result<ResponseView, OciErrorView> {
    match reply {
        Err(e) => Err(error::storage_error(e)),
        Ok(repos) => {
            let items = page(repos, n, last);
            Ok(
                ResponseView {
                    status: 200,
                    headers: if cut_short(repos, n, last) {
                        next_link("_catalog"@, n, items)
                    } else {
                        Seq::empty()
                    },
                    body: BodyView::Catalog(items),
                },
            )
        },
    }
}

/// The call and the answer of a request for the catalog.
pub open spec fn catalog_listed(
    calls: Seq<Call>,
    n: Option<usize>,
    last: Option<Seq<char>>,
    r: Result<ResponseView, OciErrorView>,
) -> bool {
    &&& calls.len() == 1
    &&& match calls[0] {
        Call::ListRepos { reply } => r == catalog_answer(reply, n, last),
        _ => false,
    }
}

/// The repositories, a page at a time.
pub fn catalog<S: Storage>(store: &mut S, n: Option<usize>, last: Option<String>) -> (r: Result<
    Response,
    OciError,
>)
    requires
        old(store).wf(),
    ensures
        final(store).wf(),
        final(store).origin() == old(store).origin(),
        storage::extends(old(store).log(), final(store).log()),
        catalog_listed(
            storage::added(old(store).log(), final(store).log()),
            n,
            text::opt(last),
            http::outcome(r),
        ),
{
    let listed = store.list_repos();
    proof {
        storage::lemma_added_one(old(store).log(), store.log().last());
    }
    let ghost reply = storage::list_reply(listed);
    match listed {
        Err(e) => {
            let r: Result<Response, OciError> = Err(OciError::from_storage(e));
            r
        },
        Ok(repos) => {
            let (items, truncated): (Vec<String>, bool) = take_page(repos, n, &last);
            let x = paged("_catalog", n, &items, truncated);
            let r: Result<Response, OciError> = Ok(x.body(Body::Catalog(items)));
            r
        },
    }
}

/// A page together with what a request for the items behind its last one gives is
/// everything behind `last`: following the link misses nothing and repeats nothing.
pub proof fn pages_join_up(
    items: Seq<Seq<char>>,
    n: usize,
    last: Option<Seq<char>>,
)
    requires
        forall|i: int, j: int|
            0 <= i < j < items.len() ==> order::text_before(#[trigger] items[i], #[trigger] items[j]),
        n > 0,
        cut_short(items, Some(n), last),
    ensures
        ({
            let p = page(items, Some(n), last);
            p + behind(items, Some(p.last())) == behind(items, last)
        }),
{
    let all = behind(items, last);
    let p = page(items, Some(n), last);
    lemma_behind_suffix(items, last);
    lemma_behind_suffix(items, Some(p.last()));
    let a = choose|a: int|
        #![trigger items.subrange(a, items.len() as int)]
        0 <= a <= items.len() && all == items.subrange(a, items.len() as int) && (forall|j: int|
            0 <= j < a ==> last is Some && !order::text_before(last->0, #[trigger] items[j])) && (
        forall|j: int|
            a <= j < items.len() && last is Some ==> order::text_before(
                last->0,
                #[trigger] items[j],
            ));
    let b = choose|b: int|
        #![trigger items.subrange(b, items.len() as int)]
        0 <= b <= items.len() && behind(items, Some(p.last())) == items.subrange(
            b,
            items.len() as int,
        ) && (forall|j: int|
            0 <= j < b ==> !order::text_before(p.last(), #[trigger] items[j])) && (forall|j: int|
            b <= j < items.len() ==> order::text_before(p.last(), #[trigger] items[j]));
    assert(p.last() == items[a + n - 1]);
    if b > a + n {
        assert(order::text_before(items[a + n - 1], items[a + n]));
        assert(!order::text_before(p.last(), items[a + n]));
    }
    if b < a + n {
        assert(order::text_before(p.last(), items[a + n - 1]));
        order::lemma_before_irreflexive(
            order::code_points(p.last()),
            order::code_points(items[a + n - 1]),
        );
    }
    assert(b == a + n);
    assert(p + items.subrange(b, items.len() as int) =~= all);
}

/// What is behind a text in a sorted list is the rest of the list from some place on.
proof fn lemma_behind_suffix(items: Seq<Seq<char>>, last: Option<Seq<char>>)
    requires
        forall|i: int, j: int|
            0 <= i < j < items.len() ==> order::text_before(#[trigger] items[i], #[trigger] items[j]),
    ensures
        exists|a: int|
            #![trigger items.subrange(a, items.len() as int)]
            0 <= a <= items.len() && behind(items, last) == items.subrange(a, items.len() as int)
                && (forall|j: int|
                0 <= j < a ==> last is Some && !order::text_before(last->0, #[trigger] items[j]))
                && (forall|j: int|
                a <= j < items.len() && last is Some ==> order::text_before(
                    last->0,
                    #[trigger] items[j],
                )),
    decreases items.len(),
{
    match last {
        None => {
            assert(items.subrange(0, items.len() as int) =~= items);
        },
        Some(x) => {
            if items.len() == 0 {
                assert(items.subrange(0, 0) =~= items);
            } else {
                let head = items.drop_last();
                assert forall|i: int, j: int| 0 <= i < j < head.len() implies order::text_before(
                    #[trigger] head[i],
                    #[trigger] head[j],
                ) by {
                    assert(head[i] == items[i]);
                    assert(head[j] == items[j]);
                }
                lemma_behind_suffix(head, last);
                let a = choose|a: int|
                    #![trigger head.subrange(a, head.len() as int)]
                    0 <= a <= head.len() && behind(head, last) == head.subrange(
                        a,
                        head.len() as int,
                    ) && (forall|j: int|
                        0 <= j < a ==> last is Some && !order::text_before(
                            last->0,
                            #[trigger] head[j],
                        )) && (forall|j: int|
                        a <= j < head.len() && last is Some ==> order::text_before(
                            last->0,
                            #[trigger] head[j],
                        ));
                let k = items.len() - 1;
                if order::text_before(x, items.last()) {
                    assert(behind(items, last) =~= items.subrange(a, items.len() as int));
                    assert forall|j: int| 0 <= j < a implies !order::text_before(
                        x,
                        #[trigger] items[j],
                    ) by {
                        assert(head[j] == items[j]);
                    }
                    assert forall|j: int| a <= j < items.len() implies order::text_before(
                        x,
                        #[trigger] items[j],
                    ) by {
                        if j < k {
                            assert(head[j] == items[j]);
                        }
                    }
                } else {
                    if a < head.len() {
                        assert(order::text_before(x, head[a]));
                        assert(head[a] == items[a]);
                        assert(order::text_before(items[a], items[k]));
                        order::lemma_before_transitive(
                            order::code_points(x),
                            order::code_points(items[a]),
                            order::code_points(items[k]),
                        );
                    }
                    assert(behind(items, last) =~= items.subrange(
                        items.len() as int,
                        items.len() as int,
                    ));
                    assert forall|j: int| 0 <= j < items.len() implies !order::text_before(
                        x,
                        #[trigger] items[j],
                    ) by {
                        if j < k {
                            assert(head[j] == items[j]);
                        }
                    }
                }
            }
        },
    }
}

/// The answer to a request for the tags of a repository, when its tags are known and
/// it is known to exist.
pub open spec fn tags_answer(
    repo: Seq<char>,
    tags: Seq<Seq<char>>,
    n: Option<usize>,
    last: Option<Seq<char>>,
) -> ResponseView {
    let items = page(tags, n, last);
    ResponseView {
        status: 200,
        headers: if cut_short(tags, n, last) {
            next_link(repo + "/tags/list"@, n, items)
        } else {
            Seq::empty()
        },
        body: BodyView::Tags { name: repo, tags: items },
    }
}

/// The calls and the answer of a request for the tags of a repository. Only when it
/// has no tags are the repositories listed, to tell an empty one from an unknown
/// one.
pub open spec fn tags_listed(
    calls: Seq<Call>,
    repo: Seq<char>,
    n: Option<usize>,
    last: Option<Seq<char>>,
    r: Result<ResponseView, OciErrorView>,
) -> bool {
    if !valid_name(repo) {
        calls.len() == 0 && r == Err::<ResponseView, _>(name_error(repo))
    } else {
        &&& calls.len() > 0
        &&& match calls[0] {
            Call::ListTags { repo: q, reply } => q == repo && match reply {
                Err(e) => calls.len() == 1 && r == Err::<ResponseView, _>(error::storage_error(e)),
                Ok(tags) => if tags.len() > 0 {
                    calls.len() == 1 && r == Ok::<_, OciErrorView>(tags_answer(repo, tags, n, last))
                } else {
                    calls.len() == 2 && match calls[1] {
                        Call::ListRepos { reply: Err(e) } => r == Err::<ResponseView, _>(
                            error::storage_error(e),
                        ),
                        Call::ListRepos { reply: Ok(repos) } => if repos.contains(repo) {
                            r == Ok::<_, OciErrorView>(tags_answer(repo, tags, n, last))
                        } else {
                            r == Err::<ResponseView, _>(
                                error::plain_error(OciCode::NameUnknown, "repository not found"@),
                            )
                        },
                        _ => false,
                    }
                },
            },
            _ => false,
        }
    }
}

fn contains_name(names: &Vec<String>, name: &str) -> (r: bool)
    ensures
        r == order::views_of(names@).contains(name@),
{
    let ghost all = order::views_of(names@);
    let mut i: usize = 0;
    while i < names.len()
        invariant
            i <= names@.len(),
            all == order::views_of(names@),
            forall|j: int| 0 <= j < i ==> #[trigger] all[j] != name@,
        decreases names@.len() - i,
    {
        assert(all[i as int] == names@[i as int]@);
        if text::same(names[i].as_str(), name) {
            return true;
        }
        i = i + 1;
    }
    false
}

/// The tags of a repository, a page at a time.
pub fn tags_list<S: Storage>(
    store: &mut S,
    repo: &str,
    n: Option<usize>,
    last: Option<String>,
) -> (r: Result<Response, OciError>)
    requires
        old(store).wf(),
    ensures
        final(store).wf(),
        final(store).origin() == old(store).origin(),
        storage::extends(old(store).log(), final(store).log()),
        tags_listed(
            storage::added(old(store).log(), final(store).log()),
            repo@,
            n,
            text::opt(last),
            http::outcome(r),
        ),
{
    let ghost start = store.log();
    proof {
        storage::lemma_added_none(start);
    }
    match validate_repo_name(repo) {
        Ok(()) => {},
        Err(e) => return Err(e),
    }
    let listed = store.list_tags(repo);
    let ghost c0 = store.log().last();
    let ghost mid = store.log();
    proof {
        storage::lemma_added_push(start, start, c0);
        assert(storage::added(start, mid)[0] == c0);
    }
    let tags = match listed {
        Ok(v) => v,
        Err(e) => return Err(OciError::from_storage(e)),
    };
    if tags.len() == 0 {
        let all = store.list_repos();
        proof {
            let c1 = store.log().last();
            storage::lemma_added_push(start, mid, c1);
            assert(storage::added(start, store.log())[0] == c0);
            assert(storage::added(start, store.log())[1] == c1);
        }
        match all {
            Err(e) => return Err(OciError::from_storage(e)),
            Ok(repos) => {
                if !contains_name(&repos, repo) {
                    return Err(
                        OciError::new(OciCode::NameUnknown, "repository not found".to_owned()),
                    );
                }
            },
        }
    }
    let ghost tv = order::views_of(tags@);
    let (items, truncated): (Vec<String>, bool) = take_page(tags, n, &last);
    let base = text::cat(repo, "/tags/list");
    let x = paged(base.as_str(), n, &items, truncated);
    let y = x.body(Body::Tags { name: repo.to_owned(), tags: items });
    assert(y@ == tags_answer(repo@, tv, n, text::opt(last)));
    Ok(y)
}

// ---- Manifests ------------------------------------------------------------

/// The media type is one of a manifest.
pub open spec fn is_manifest_type(t: Seq<char>) -> bool {
    ||| t == manifest::OCI_MANIFEST_MEDIA_TYPE@
    ||| t == manifest::OCI_INDEX_MEDIA_TYPE@
    ||| t == manifest::DOCKER_MANIFEST_V2_MEDIA_TYPE@
    ||| t == manifest::DOCKER_MANIFEST_LIST_V2_MEDIA_TYPE@
}

fn manifest_type(t: &str) -> (r: bool)
    ensures
        r == is_manifest_type(t@),
{
    text::same(t, manifest::OCI_MANIFEST_MEDIA_TYPE) || text::same(
        t,
        manifest::OCI_INDEX_MEDIA_TYPE,
    ) || text::same(t, manifest::DOCKER_MANIFEST_V2_MEDIA_TYPE) || text::same(
        t,
        manifest::DOCKER_MANIFEST_LIST_V2_MEDIA_TYPE,
    )
}

/// The media type of a manifest, given what its own `mediaType` field says: a hint
/// that is a manifest type; else its own field if that is one; else by its content,
/// an index when it lists manifests.
pub open spec fn media_type_given(
    own: Option<Seq<char>>,
    refs: Option<Manifest>,
    hint: Option<Seq<char>>,
) -> Seq<char> {
    if hint is Some && is_manifest_type(hint->0) {
        hint->0
    } else if own is Some && is_manifest_type(own->0) {
        own->0
    } else if refs matches Some(m) && m.manifests@.len() > 0 {
        manifest::OCI_INDEX_MEDIA_TYPE@
    } else {
        manifest::OCI_MANIFEST_MEDIA_TYPE@
    }
}

/// The `mediaType` field of a manifest.
pub open spec fn own_media_type(content: Seq<u8>) -> Option<Seq<char>> {
    outside::json_text(content, "/mediaType"@)
}

pub open spec fn media_type(
    content: Seq<u8>,
    refs: Option<Manifest>,
    hint: Option<Seq<char>>,
) -> Seq<char> {
    media_type_given(own_media_type(content), refs, hint)
}

/// Picks the media type of a manifest from what is known of it.
pub fn pick_media_type(own: &Option<String>, refs: &Option<Manifest>, hint: &Option<String>) -> (r:
    String)
    ensures
        r@ == media_type_given(text::opt(*own), *refs, text::opt(*hint)),
{
    if let Some(h) = hint {
        if manifest_type(h.as_str()) {
            return h.clone();
        }
    }
    if let Some(o) = own {
        if manifest_type(o.as_str()) {
            return o.clone();
        }
    }
    if let Some(m) = refs {
        if m.manifests.len() > 0 {
            return manifest::OCI_INDEX_MEDIA_TYPE.to_owned();
        }
    }
    manifest::OCI_MANIFEST_MEDIA_TYPE.to_owned()
}

/// The media type of a manifest.
pub fn manifest_media_type(content: &[u8], refs: &Option<Manifest>, hint: &Option<String>) -> (r:
    String)
    ensures
        r@ == media_type(content@, *refs, text::opt(*hint)),
{
    let own = outside::json_text_at(content, "/mediaType");
    pick_media_type(&own, refs, hint)
}

/// The headers of a content with its type and digest.
pub open spec fn content_headers(
    media: Seq<char>,
    d: DigestView,
    size: nat,
) -> Seq<(Seq<char>, Seq<char>)> {
    seq![
        ("content-type"@, media),
        ("docker-content-digest"@, d.text()),
        ("content-length"@, text::decimal(size)),
    ]
}

fn content_response(media: String, d: &Digest, content: Vec<u8>, head_only: bool) -> (r: Response)
    ensures
        r@ == (ResponseView {
            status: 200,
            headers: content_headers(media@, d@, content@.len()),
            body: if head_only {
                BodyView::Empty
            } else {
                BodyView::Bytes(content@)
            },
        }),
{
    let size = text::decimal_text(content.len() as u64);
    let r = Response::bare(200).header("content-type", media).header(
        "docker-content-digest",
        d.to_string(),
    ).header("content-length", size);
    assert(r@.headers =~= content_headers(media@, d@, content@.len()));
    if head_only {
        r
    } else {
        r.body(Body::Bytes(content))
    }
}

/// The error for a manifest operation that failed.
pub open spec fn manifest_error(e: StorageError) -> OciErrorView {
    if e == StorageError::NotFound {
        error::plain_error(OciCode::ManifestUnknown, "manifest unknown"@)
    } else {
        error::storage_error(e)
    }
}

fn manifest_failure(e: StorageError) -> (r: OciError)
    ensures
        r@ == manifest_error(e),
{
    match e {
        StorageError::NotFound => OciError::new(
            OciCode::ManifestUnknown,
            "manifest unknown".to_owned(),
        ),
        other => OciError::from_storage(other),
    }
}

/// The answer to a request for a manifest.
pub open spec fn manifest_answer(
    reply: Result<(Seq<u8>, Option<Manifest>), StorageError>,
    head_only: bool,
) -> Result<ResponseView, OciErrorView> {
    match reply {
        Err(e) => Err(manifest_error(e)),
        Ok((content, refs)) => Ok(
            ResponseView {
                status: 200,
                headers: content_headers(
                    media_type(content, refs, None),
                    digest::content_digest(Algorithm::Sha256, content),
                    content.len(),
                ),
                body: if head_only {
                    BodyView::Empty
                } else {
                    BodyView::Bytes(content)
                },
            },
        ),
    }
}

/// The call and the answer of a request for a manifest.
pub open spec fn manifest_fetched(
    calls: Seq<Call>,
    repo: Seq<char>,
    reference: Seq<char>,
    head_only: bool,
    r: Result<ResponseView, OciErrorView>,
) -> bool {
    if !valid_name(repo) {
        calls.len() == 0 && r == Err::<ResponseView, _>(name_error(repo))
    } else {
        &&& calls.len() == 1
        &&& match calls[0] {
            Call::ManifestGet { repo: q, reference: x, reply } => {
                &&& q == repo
                &&& x == reference_of(reference)
                &&& r == manifest_answer(reply, head_only)
            },
            _ => false,
        }
    }
}

/// Hands out a manifest.
pub fn manifest_get<S: Storage>(store: &mut S, repo: &str, reference: &str, head_only: bool) -> (r:
    Result<Response, OciError>)
    requires
        old(store).wf(),
    ensures
        final(store).wf(),
        final(store).origin() == old(store).origin(),
        storage::extends(old(store).log(), final(store).log()),
        manifest_fetched(
            storage::added(old(store).log(), final(store).log()),
            repo@,
            reference@,
            head_only,
            http::outcome(r),
        ),
{
    proof {
        storage::lemma_added_none(old(store).log());
    }
    match validate_repo_name(repo) {
        Ok(()) => {},
        Err(e) => return Err(e),
    }
    let at = parse_reference(reference);
    let got = store.manifest_get(repo, &at);
    proof {
        storage::lemma_added_one(old(store).log(), store.log().last());
    }
    let ghost reply = storage::manifest_reply(got);
    let r: Result<Response, OciError> = match got {
        Err(e) => Err(manifest_failure(e)),
        Ok(m) => {
            let d = digest::sha256_digest(m.content.as_slice());
            let none: Option<String> = None;
            let media = manifest_media_type(m.content.as_slice(), &m.refs, &none);
            Ok(content_response(media, &d, m.content, head_only))
        },
    };
    r
}

/// The place of a manifest in responses.
pub open spec fn manifest_location(repo: Seq<char>, d: DigestView) -> Seq<char> {
    "/v2/"@ + repo + "/manifests/"@ + d.text()
}

/// The answer to a request that stored a manifest: refused afterwards when it was
/// addressed by a digest that is not its own.
pub open spec fn manifest_put_answer(
    repo: Seq<char>,
    reference: ReferenceView,
    media: Seq<char>,
    reply: Result<DigestView, StorageError>,
) -> Result<ResponseView, OciErrorView> {
    match reply {
        Err(e) => Err(error::storage_error(e)),
        Ok(d) => if reference is Digest && reference->Digest_0 != d {
            Err(
                error::plain_error(
                    OciCode::DigestInvalid,
                    "path digest "@ + reference->Digest_0.text() + " does not match computed "@
                        + d.text(),
                ),
            )
        } else {
            Ok(
                ResponseView {
                    status: 201,
                    headers: seq![
                        ("location"@, manifest_location(repo, d)),
                        ("docker-content-digest"@, d.text()),
                        ("content-type"@, media),
                    ],
                    body: BodyView::Empty,
                },
            )
        },
    }
}

/// The call and the answer of a request to store a manifest: one that is no JSON is
/// not stored.
pub open spec fn manifest_kept(
    calls: Seq<Call>,
    repo: Seq<char>,
    reference: Seq<char>,
    hint: Option<Seq<char>>,
    body: Seq<u8>,
    refs: Option<Manifest>,
    r: Result<ResponseView, OciErrorView>,
) -> bool {
    if !valid_name(repo) {
        calls.len() == 0 && r == Err::<ResponseView, _>(name_error(repo))
    } else if outside::json_problem(body) is Some {
        calls.len() == 0 && r == Err::<ResponseView, _>(
            error::plain_error(OciCode::ManifestInvalid, "not valid JSON"@),
        )
    } else {
        &&& calls.len() == 1
        &&& match calls[0] {
            Call::ManifestPut { repo: q, reference: x, content, reply } => {
                &&& q == repo
                &&& x == reference_of(reference)
                &&& content == body
                &&& r == manifest_put_answer(repo, x, media_type(body, refs, hint), reply)
            },
            _ => false,
        }
    }
}

/// Stores a manifest. `refs` is what the content references, where it reads as a
/// manifest.
pub fn manifest_put<S: Storage>(
    store: &mut S,
    repo: &str,
    reference: &str,
    content_type: Option<String>,
    content: &[u8],
    refs: &Option<Manifest>,
) -> (r: Result<Response, OciError>)
    requires
        old(store).wf(),
    ensures
        final(store).wf(),
        final(store).origin() == old(store).origin(),
        storage::extends(old(store).log(), final(store).log()),
        manifest_kept(
            storage::added(old(store).log(), final(store).log()),
            repo@,
            reference@,
            text::opt(content_type),
            content@,
            *refs,
            http::outcome(r),
        ),
{
    proof {
        storage::lemma_added_none(old(store).log());
    }
    match validate_repo_name(repo) {
        Ok(()) => {},
        Err(e) => return Err(e),
    }
    if outside::json_check(content).is_some() {
        return Err(OciError::new(OciCode::ManifestInvalid, "not valid JSON".to_owned()));
    }
    let at = parse_reference(reference);
    let put = store.manifest_put(repo, &at, content);
    proof {
        storage::lemma_added_one(old(store).log(), store.log().last());
    }
    let ghost reply = storage::digest_reply(put);
    let media = manifest_media_type(content, refs, &content_type);
    let r = manifest_stored(repo, &at, media, put);
    r
}

/// What to answer when a manifest was handed to the store.
pub fn manifest_stored(
    repo: &str,
    reference: &Reference,
    media: String,
    put: Result<Digest, StorageError>,
) -> (r: Result<Response, OciError>)
    ensures
        http::outcome(r) == manifest_put_answer(
            repo@,
            reference@,
            media@,
            storage::digest_reply(put),
        ),
{
    let d = match put {
        Err(e) => return Err(OciError::from_storage(e)),
        Ok(d) => d,
    };
    if let Reference::Digest(want) = reference {
        if !want.same(&d) {
            let w = want.to_string();
            let g = d.to_string();
            let mut m = text::cat3("path digest ", w.as_str(), " does not match computed ");
            m.append(g.as_str());
            return Err(OciError::new(OciCode::DigestInvalid, m));
        }
    }
    let name = d.to_string();
    let mut place = text::cat3("/v2/", repo, "/manifests/");
    place.append(name.as_str());
    let x = Response::bare(201).header("location", place).header(
        "docker-content-digest",
        name,
    ).header("content-type", media);
    assert(x@.headers =~= seq![
        ("location"@, manifest_location(repo@, d@)),
        ("docker-content-digest"@, d@.text()),
        ("content-type"@, media@),
    ]);
    Ok(x)
}

/// The answer to a request that deleted something: `missing` says how its absence is
/// reported.
pub open spec fn deleted_answer(
    status: u16,
    missing: OciErrorView,
    reply: Result<(), StorageError>,
) -> Result<ResponseView, OciErrorView> {
    match reply {
        Ok(_) => Ok(ResponseView { status, headers: Seq::empty(), body: BodyView::Empty }),
        Err(e) => Err(
            if e == StorageError::NotFound {
                missing
            } else {
                error::storage_error(e)
            },
        ),
    }
}

fn deleted(status: u16, missing: OciError, reply: Result<(), StorageError>) -> (r: Result<
    Response,
    OciError,
>)
    ensures
        http::outcome(r) == deleted_answer(status, missing@, reply),
{
    match reply {
        Ok(()) => Ok(Response::bare(status)),
        Err(StorageError::NotFound) => Err(missing),
        Err(e) => Err(OciError::from_storage(e)),
    }
}

pub open spec fn manifest_unknown() -> OciErrorView {
    error::plain_error(OciCode::ManifestUnknown, "manifest unknown"@)
}

/// The call and the answer of a request to delete a manifest or a tag.
pub open spec fn manifest_deleted(
    calls: Seq<Call>,
    repo: Seq<char>,
    reference: Seq<char>,
    r: Result<ResponseView, OciErrorView>,
) -> bool {
    if !valid_name(repo) {
        calls.len() == 0 && r == Err::<ResponseView, _>(name_error(repo))
    } else {
        &&& calls.len() == 1
        &&& match calls[0] {
            Call::ManifestDelete { repo: q, reference: x, reply } => {
                &&& q == repo
                &&& x == reference_of(reference)
                &&& r == deleted_answer(202, manifest_unknown(), reply)
            },
            _ => false,
        }
    }
}

/// Deletes a manifest or a tag.
pub fn manifest_delete<S: Storage>(store: &mut S, repo: &str, reference: &str) -> (r: Result<
    Response,
    OciError,
>)
    requires
        old(store).wf(),
    ensures
        final(store).wf(),
        final(store).origin() == old(store).origin(),
        storage::extends(old(store).log(), final(store).log()),
        manifest_deleted(
            storage::added(old(store).log(), final(store).log()),
            repo@,
            reference@,
            http::outcome(r),
        ),
{
    proof {
        storage::lemma_added_none(old(store).log());
    }
    match validate_repo_name(repo) {
        Ok(()) => {},
        Err(e) => return Err(e),
    }
    let at = parse_reference(reference);
    let gone = store.manifest_delete(repo, &at);
    proof {
        storage::lemma_added_one(old(store).log(), store.log().last());
    }
    let ghost reply = gone;
    let missing = OciError::new(OciCode::ManifestUnknown, "manifest unknown".to_owned());
    let r = deleted(202, missing, gone);
    r
}

// ---- Blobs ----------------------------------------------------------------

pub open spec fn blob_unknown() -> OciErrorView {
    error::plain_error(OciCode::BlobUnknown, "blob unknown"@)
}

/// The answer to a request for a blob.
pub open spec fn blob_answer(
    d: DigestView,
    reply: Result<Seq<u8>, StorageError>,
    head_only: bool,
) -> Result<ResponseView, OciErrorView> {
    match reply {
        Err(e) => Err(
            if e == StorageError::NotFound {
                blob_unknown()
            } else {
                error::storage_error(e)
            },
        ),
        Ok(content) => Ok(
            ResponseView {
                status: 200,
                headers: content_headers("application/octet-stream"@, d, content.len()),
                body: if head_only {
                    BodyView::Empty
                } else {
                    BodyView::Bytes(content)
                },
            },
        ),
    }
}

/// What is wrong with the repository or the digest of a request.
pub open spec fn blob_request(repo: Seq<char>, d: Seq<char>) -> Result<DigestView, OciErrorView> {
    if !valid_name(repo) {
        Err(name_error(repo))
    } else {
        digest_of(d)
    }
}

fn check_blob_request(repo: &str, d: &str) -> (r: Result<Digest, OciError>)
    ensures
        match r {
            Ok(x) => blob_request(repo@, d@) == Ok::<DigestView, OciErrorView>(x@),
            Err(e) => blob_request(repo@, d@) == Err::<DigestView, OciErrorView>(e@),
        },
{
    match validate_repo_name(repo) {
        Ok(()) => {},
        Err(e) => return Err(e),
    }
    parse_digest(d)
}

/// The call and the answer of a request for a blob.
pub open spec fn blob_fetched(
    calls: Seq<Call>,
    repo: Seq<char>,
    digest: Seq<char>,
    head_only: bool,
    r: Result<ResponseView, OciErrorView>,
) -> bool {
    match blob_request(repo, digest) {
        Err(e) => calls.len() == 0 && r == Err::<ResponseView, _>(e),
        Ok(d) => calls.len() == 1 && match calls[0] {
            Call::BlobRead { repo: q, digest: x, reply } => q == repo && x == d && r == blob_answer(
                d,
                reply,
                head_only,
            ),
            _ => false,
        },
    }
}

/// Hands out a blob.
pub fn blob_get<S: Storage>(store: &mut S, repo: &str, digest_str: &str, head_only: bool) -> (r:
    Result<Response, OciError>)
    requires
        old(store).wf(),
    ensures
        final(store).wf(),
        final(store).origin() == old(store).origin(),
        storage::extends(old(store).log(), final(store).log()),
        blob_fetched(
            storage::added(old(store).log(), final(store).log()),
            repo@,
            digest_str@,
            head_only,
            http::outcome(r),
        ),
{
    proof {
        storage::lemma_added_none(old(store).log());
    }
    let d = match check_blob_request(repo, digest_str) {
        Ok(d) => d,
        Err(e) => return Err(e),
    };
    let got = store.blob_read(repo, &d);
    proof {
        storage::lemma_added_one(old(store).log(), store.log().last());
    }
    let ghost reply = storage::bytes_reply(got);
    let r: Result<Response, OciError> = match got {
        Err(StorageError::NotFound) => Err(
            OciError::new(OciCode::BlobUnknown, "blob unknown".to_owned()),
        ),
        Err(e) => Err(OciError::from_storage(e)),
        Ok(content) => Ok(
            content_response("application/octet-stream".to_owned(), &d, content, head_only),
        ),
    };
    r
}

/// The call and the answer of a request to delete a blob.
pub open spec fn blob_deleted(
    calls: Seq<Call>,
    repo: Seq<char>,
    digest: Seq<char>,
    r: Result<ResponseView, OciErrorView>,
) -> bool {
    match blob_request(repo, digest) {
        Err(e) => calls.len() == 0 && r == Err::<ResponseView, _>(e),
        Ok(d) => calls.len() == 1 && match calls[0] {
            Call::BlobDelete { repo: q, digest: x, reply } => q == repo && x == d && r
                == deleted_answer(202, blob_unknown(), reply),
            _ => false,
        },
    }
}

/// Deletes a blob.
pub fn blob_delete<S: Storage>(store: &mut S, repo: &str, digest_str: &str) -> (r: Result<
    Response,
    OciError,
>)
    requires
        old(store).wf(),
    ensures
        final(store).wf(),
        final(store).origin() == old(store).origin(),
        storage::extends(old(store).log(), final(store).log()),
        blob_deleted(
            storage::added(old(store).log(), final(store).log()),
            repo@,
            digest_str@,
            http::outcome(r),
        ),
{
    proof {
        storage::lemma_added_none(old(store).log());
    }
    let d = match check_blob_request(repo, digest_str) {
        Ok(d) => d,
        Err(e) => return Err(e),
    };
    let gone = store.blob_delete(repo, &d);
    proof {
        storage::lemma_added_one(old(store).log(), store.log().last());
    }
    let ghost reply = gone;
    let missing = OciError::new(OciCode::BlobUnknown, "blob unknown".to_owned());
    let r = deleted(202, missing, gone);
    r
}

// ---- Uploads --------------------------------------------------------------

/// The answer that a blob is now in place.
pub open spec fn blob_created(repo: Seq<char>, d: DigestView) -> ResponseView {
    ResponseView {
        status: 201,
        headers: seq![
            ("location"@, "/v2/"@ + repo + "/blobs/"@ + d.text()),
            ("docker-content-digest"@, d.text()),
        ],
        body: BodyView::Empty,
    }
}

fn mount_response(repo: &str, d: &Digest) -> (r: Response)
    ensures
        r@ == blob_created(repo@, d@),
{
    let name = d.to_string();
    let mut place = text::cat3("/v2/", repo, "/blobs/");
    place.append(name.as_str());
    let r = Response::bare(201).header("location", place).header("docker-content-digest", name);
    assert(r@.headers =~= blob_created(repo@, d@).headers);
    r
}

/// The answer that tells where an upload is and how far it has come.
pub open spec fn upload_answer(
    status: u16,
    repo: Seq<char>,
    id: u128,
    range: Seq<char>,
) -> ResponseView {
    ResponseView {
        status,
        headers: seq![
            ("location"@, "/v2/"@ + repo + "/blobs/uploads/"@ + outside::uuid_hyphenated(id)),
            ("docker-upload-uuid"@, outside::uuid_hyphenated(id)),
            ("range"@, range),
        ],
        body: BodyView::Empty,
    }
}

fn upload_response(status: u16, repo: &str, id: u128, range: String) -> (r: Response)
    ensures
        r@ == upload_answer(status, repo@, id, range@),
        upload_id(outside::uuid_hyphenated(id)) == Ok::<_, OciErrorView>(id),
{
    let name = outside::uuid_text(id);
    let mut place = text::cat3("/v2/", repo, "/blobs/uploads/");
    place.append(name.as_str());
    let r = Response::bare(status).header("location", place).header(
        "docker-upload-uuid",
        name,
    ).header("range", range);
    assert(r@.headers =~= upload_answer(status, repo@, id, range@).headers);
    r
}

/// The bytes received, as a range.
pub open spec fn received(offset: u64) -> Seq<char> {
    "0-"@ + text::decimal(
        if offset == 0 {
            0
        } else {
            (offset - 1) as nat
        },
    )
}

fn received_text(offset: u64) -> (r: String)
    ensures
        r@ == received(offset),
{
    let n = text::decimal_text(offset.saturating_sub(1));
    text::cat("0-", n.as_str())
}

pub open spec fn upload_unknown() -> OciErrorView {
    error::plain_error(OciCode::BlobUploadUnknown, "no such upload"@)
}

/// The error for an upload operation that failed.
pub open spec fn upload_error(e: StorageError) -> OciErrorView {
    if e == StorageError::NotFound {
        upload_unknown()
    } else {
        error::storage_error(e)
    }
}

fn upload_failure(e: StorageError) -> (r: OciError)
    ensures
        r@ == upload_error(e),
{
    match e {
        StorageError::NotFound => OciError::new(
            OciCode::BlobUploadUnknown,
            "no such upload".to_owned(),
        ),
        other => OciError::from_storage(other),
    }
}

/// What is wrong with the repository or the upload id of a request.
pub open spec fn upload_request(repo: Seq<char>, id: Seq<char>) -> Result<u128, OciErrorView> {
    if !valid_name(repo) {
        Err(name_error(repo))
    } else {
        upload_id(id)
    }
}

fn check_upload_request(repo: &str, id: &str) -> (r: Result<u128, OciError>)
    ensures
        match r {
            Ok(x) => upload_request(repo@, id@) == Ok::<u128, OciErrorView>(x),
            Err(e) => upload_request(repo@, id@) == Err::<u128, OciErrorView>(e@),
        },
{
    match validate_repo_name(repo) {
        Ok(()) => {},
        Err(e) => return Err(e),
    }
    parse_uuid(id)
}

/// The answer to a question about, or a chunk for, an upload.
pub open spec fn progress_answer(
    status: u16,
    repo: Seq<char>,
    id: u128,
    reply: Result<UploadStatus, StorageError>,
) -> Result<ResponseView, OciErrorView> {
    match reply {
        Err(e) => Err(upload_error(e)),
        Ok(s) => Ok(upload_answer(status, repo, id, received(s.offset))),
    }
}

fn progress(status: u16, repo: &str, id: u128, reply: Result<UploadStatus, StorageError>) -> (r:
    Result<Response, OciError>)
    ensures
        http::outcome(r) == progress_answer(status, repo@, id, reply),
{
    match reply {
        Err(e) => Err(upload_failure(e)),
        Ok(s) => Ok(upload_response(status, repo, id, received_text(s.offset))),
    }
}

/// The call and the answer of a question about an upload.
pub open spec fn upload_asked(
    calls: Seq<Call>,
    repo: Seq<char>,
    uuid: Seq<char>,
    r: Result<ResponseView, OciErrorView>,
) -> bool {
    match upload_request(repo, uuid) {
        Err(e) => calls.len() == 0 && r == Err::<ResponseView, _>(e),
        Ok(id) => calls.len() == 1 && match calls[0] {
            Call::UploadState { repo: q, id: x, reply } => q == repo && x == id && r
                == progress_answer(204, repo, id, reply),
            _ => false,
        },
    }
}

/// Tells how far an upload has come.
pub fn upload_status<S: Storage>(store: &mut S, repo: &str, uuid: &str) -> (r: Result<
    Response,
    OciError,
>)
    requires
        old(store).wf(),
    ensures
        final(store).wf(),
        final(store).origin() == old(store).origin(),
        storage::extends(old(store).log(), final(store).log()),
        upload_asked(
            storage::added(old(store).log(), final(store).log()),
            repo@,
            uuid@,
            http::outcome(r),
        ),
{
    proof {
        storage::lemma_added_none(old(store).log());
    }
    let id: u128 = match check_upload_request(repo, uuid) {
        Ok(x) => x,
        Err(e) => return Err(e),
    };
    let got = store.upload_status(repo, id);
    proof {
        storage::lemma_added_one(old(store).log(), store.log().last());
    }
    let ghost reply = got;
    let r = progress(204, repo, id, got);
    assert(upload_request(repo@, uuid@)->Ok_0 == id);
    r
}

/// The call and the answer of a chunk for an upload.
pub open spec fn chunk_taken(
    calls: Seq<Call>,
    repo: Seq<char>,
    uuid: Seq<char>,
    body: Seq<u8>,
    r: Result<ResponseView, OciErrorView>,
) -> bool {
    match upload_request(repo, uuid) {
        Err(e) => calls.len() == 0 && r == Err::<ResponseView, _>(e),
        Ok(id) => calls.len() == 1 && match calls[0] {
            Call::UploadAppend { repo: q, id: x, chunk, reply } => q == repo && x == id && chunk
                == body && r == progress_answer(202, repo, id, reply),
            _ => false,
        },
    }
}

/// Takes a chunk of an upload.
pub fn upload_chunk<S: Storage>(store: &mut S, repo: &str, uuid: &str, body: &[u8]) -> (r: Result<
    Response,
    OciError,
>)
    requires
        old(store).wf(),
    ensures
        final(store).wf(),
        final(store).origin() == old(store).origin(),
        storage::extends(old(store).log(), final(store).log()),
        chunk_taken(
            storage::added(old(store).log(), final(store).log()),
            repo@,
            uuid@,
            body@,
            http::outcome(r),
        ),
{
    proof {
        storage::lemma_added_none(old(store).log());
    }
    let id: u128 = match check_upload_request(repo, uuid) {
        Ok(x) => x,
        Err(e) => return Err(e),
    };
    let got = store.upload_append(repo, id, body);
    proof {
        storage::lemma_added_one(old(store).log(), store.log().last());
    }
    let ghost reply = got;
    let r = progress(202, repo, id, got);
    assert(upload_request(repo@, uuid@)->Ok_0 == id);
    r
}

/// The call and the answer of giving an upload up.
pub open spec fn upload_cancelled(
    calls: Seq<Call>,
    repo: Seq<char>,
    uuid: Seq<char>,
    r: Result<ResponseView, OciErrorView>,
) -> bool {
    match upload_request(repo, uuid) {
        Err(e) => calls.len() == 0 && r == Err::<ResponseView, _>(e),
        Ok(id) => calls.len() == 1 && match calls[0] {
            Call::UploadCancel { repo: q, id: x, reply } => q == repo && x == id && r
                == deleted_answer(204, upload_unknown(), reply),
            _ => false,
        },
    }
}

/// Gives an upload up.
pub fn upload_cancel<S: Storage>(store: &mut S, repo: &str, uuid: &str) -> (r: Result<
    Response,
    OciError,
>)
    requires
        old(store).wf(),
    ensures
        final(store).wf(),
        final(store).origin() == old(store).origin(),
        storage::extends(old(store).log(), final(store).log()),
        upload_cancelled(
            storage::added(old(store).log(), final(store).log()),
            repo@,
            uuid@,
            http::outcome(r),
        ),
{
    proof {
        storage::lemma_added_none(old(store).log());
    }
    let id: u128 = match check_upload_request(repo, uuid) {
        Ok(x) => x,
        Err(e) => return Err(e),
    };
    let gone = store.upload_cancel(repo, id);
    proof {
        storage::lemma_added_one(old(store).log(), store.log().last());
    }
    let ghost reply = gone;
    let missing = OciError::new(OciCode::BlobUploadUnknown, "no such upload".to_owned());
    let r = deleted(204, missing, gone);
    r
}

/// What is wrong with a request to end an upload.
pub open spec fn finish_request(
    repo: Seq<char>,
    id: Seq<char>,
    digest: Option<Seq<char>>,
) -> Result<(u128, DigestView), OciErrorView> {
    match upload_request(repo, id) {
        Err(e) => Err(e),
        Ok(x) => match digest {
            None => Err(
                error::plain_error(OciCode::DigestInvalid, "missing ?digest= on finalise"@),
            ),
            Some(s) => match digest_of(s) {
                Err(e) => Err(e),
                Ok(d) => Ok((x, d)),
            },
        },
    }
}

/// The calls and the answer of ending an upload: a body is appended first, then the
/// upload is finalised.
pub open spec fn finished(
    calls: Seq<Call>,
    repo: Seq<char>,
    id: u128,
    d: DigestView,
    body: Seq<u8>,
    r: Result<ResponseView, OciErrorView>,
) -> bool {
    if body.len() == 0 {
        finalized(calls, repo, id, d, r)
    } else {
        &&& calls.len() > 0
        &&& match calls[0] {
            Call::UploadAppend { repo: q, id: i, chunk, reply } => {
                &&& q == repo
                &&& i == id
                &&& chunk == body
                &&& match reply {
                    Err(e) => calls.len() == 1 && r == Err::<ResponseView, _>(upload_error(e)),
                    Ok(_) => finalized(calls.drop_first(), repo, id, d, r),
                }
            },
            _ => false,
        }
    }
}

/// The one call that finalises an upload, and its answer.
pub open spec fn finalized(
    calls: Seq<Call>,
    repo: Seq<char>,
    id: u128,
    d: DigestView,
    r: Result<ResponseView, OciErrorView>,
) -> bool {
    &&& calls.len() == 1
    &&& match calls[0] {
        Call::UploadFinalize { repo: q, id: i, digest, reply } => q == repo && i == id && digest
            == d && r == (match reply {
            Err(e) => Err::<ResponseView, _>(upload_error(e)),
            Ok(_) => Ok(blob_created(repo, d)),
        }),
        _ => false,
    }
}

/// The calls and the answer of a request to end an upload.
pub open spec fn upload_finished(
    calls: Seq<Call>,
    repo: Seq<char>,
    uuid: Seq<char>,
    digest: Option<Seq<char>>,
    body: Seq<u8>,
    r: Result<ResponseView, OciErrorView>,
) -> bool {
    match finish_request(repo, uuid, digest) {
        Err(e) => calls.len() == 0 && r == Err::<ResponseView, _>(e),
        Ok((id, d)) => finished(calls, repo, id, d, body, r),
    }
}

/// Ends an upload.
pub fn upload_finish<S: Storage>(
    store: &mut S,
    repo: &str,
    uuid: &str,
    digest_q: Option<String>,
    body: &[u8],
) -> (r: Result<Response, OciError>)
    requires
        old(store).wf(),
    ensures
        final(store).wf(),
        final(store).origin() == old(store).origin(),
        storage::extends(old(store).log(), final(store).log()),
        upload_finished(
            storage::added(old(store).log(), final(store).log()),
            repo@,
            uuid@,
            text::opt(digest_q),
            body@,
            http::outcome(r),
        ),
{
    let ghost start = store.log();
    proof {
        storage::lemma_added_none(start);
    }
    let id: u128 = match check_upload_request(repo, uuid) {
        Ok(x) => x,
        Err(e) => return Err(e),
    };
    let text_d = match digest_q {
        None => return Err(
            OciError::new(OciCode::DigestInvalid, "missing ?digest= on finalise".to_owned()),
        ),
        Some(s) => s,
    };
    let d = match parse_digest(text_d.as_str()) {
        Ok(d) => d,
        Err(e) => return Err(e),
    };
    if body.len() > 0 {
        let put = store.upload_append(repo, id, body);
        proof {
            let c = store.log().last();
            storage::lemma_added_push(start, start, c);
            assert(storage::added(start, store.log())[0] == c);
        }
        match put {
            Ok(_) => {},
            Err(e) => return Err(upload_failure(e)),
        }
    }
    let ghost mid = store.log();
    let done = store.upload_finalize(repo, id, &d);
    let r: Result<Response, OciError> = match done {
        Ok(()) => Ok(mount_response(repo, &d)),
        Err(e) => Err(upload_failure(e)),
    };
    proof {
        let c = store.log().last();
        storage::lemma_added_push(start, mid, c);
        let calls = storage::added(start, store.log());
        if body@.len() > 0 {
            assert(calls.drop_first() =~= seq![c]);
        } else {
            assert(calls =~= seq![c]);
        }
        assert(finalized(seq![c], repo@, id, d@, http::outcome(r)));
    }
    r
}

/// Whether a blob could be mounted from elsewhere, and the calls that found out.
pub open spec fn mount_tried(
    calls: Seq<Call>,
    repo: Seq<char>,
    mount: Option<Seq<char>>,
    from: Option<Seq<char>>,
    r: Result<Option<DigestView>, OciErrorView>,
) -> bool {
    if mount is None || digest::parsed(mount->0) is Err {
        calls.len() == 0 && r == Ok::<Option<DigestView>, OciErrorView>(None)
    } else {
        let d = digest::parsed(mount->0)->Ok_0;
        &&& calls.len() > 0
        &&& match calls[0] {
            Call::BlobExists { repo: q, digest, reply } => q == repo && digest == d && match reply {
                Err(e) => calls.len() == 1 && r == Err::<Option<DigestView>, _>(
                    error::storage_error(e),
                ),
                Ok(true) => calls.len() == 1 && r == Ok::<_, OciErrorView>(Some(d)),
                Ok(false) => if from is None || !valid_name(from->0) {
                    calls.len() == 1 && r == Ok::<Option<DigestView>, OciErrorView>(None)
                } else {
                    copied_over(calls.drop_first(), repo, from->0, d, r)
                },
            },
            _ => false,
        }
    }
}

/// The blob is read from one repository and written to another, if it can be read.
pub open spec fn copied_over(
    calls: Seq<Call>,
    repo: Seq<char>,
    from: Seq<char>,
    d: DigestView,
    r: Result<Option<DigestView>, OciErrorView>,
) -> bool {
    &&& calls.len() > 0
    &&& match calls[0] {
        Call::BlobRead { repo: q, digest, reply } => q == from && digest == d && match reply {
            Err(_) => calls.len() == 1 && r == Ok::<Option<DigestView>, OciErrorView>(None),
            Ok(bytes) => calls.len() == 2 && match calls[1] {
                Call::BlobWrite { repo: w, digest: dw, content, reply: wrote } => w == repo && dw
                    == d && content == bytes && r == (match wrote {
                    Err(e) => Err::<Option<DigestView>, _>(error::storage_error(e)),
                    Ok(_) => Ok(Some(d)),
                }),
                _ => false,
            },
        },
        _ => false,
    }
}

pub open spec fn mount_outcome(r: Result<Option<Digest>, OciError>) -> Result<
    Option<DigestView>,
    OciErrorView,
> {
    match r {
        Ok(Some(d)) => Ok(Some(d@)),
        Ok(None) => Ok(None),
        Err(e) => Err(e@),
    }
}

fn try_mount<S: Storage>(
    store: &mut S,
    repo: &str,
    mount: &Option<String>,
    from: &Option<String>,
) -> (r: Result<Option<Digest>, OciError>)
    requires
        old(store).wf(),
    ensures
        final(store).wf(),
        final(store).origin() == old(store).origin(),
        storage::extends(old(store).log(), final(store).log()),
        mount_tried(
            storage::added(old(store).log(), final(store).log()),
            repo@,
            text::opt(*mount),
            text::opt(*from),
            mount_outcome(r),
        ),
{
    let ghost start = store.log();
    proof {
        storage::lemma_added_none(start);
    }
    let d = match mount {
        None => return Ok(None),
        Some(s) => match Digest::parse(s.as_str()) {
            Err(_) => return Ok(None),
            Ok(d) => d,
        },
    };
    let there = store.blob_exists(repo, &d);
    let ghost c0 = store.log().last();
    let ghost mid = store.log();
    proof {
        storage::lemma_added_push(start, start, c0);
        assert(storage::added(start, mid)[0] == c0);
    }
    match there {
        Err(e) => return Err(OciError::from_storage(e)),
        Ok(true) => return Ok(Some(d)),
        Ok(false) => {},
    }
    let source = match from {
        None => return Ok(None),
        Some(f) => f,
    };
    if validate_repo_name(source.as_str()).is_err() {
        return Ok(None);
    }
    let got = store.blob_read(source.as_str(), &d);
    let ghost c1 = store.log().last();
    let ghost read = store.log();
    proof {
        storage::lemma_added_push(start, mid, c1);
        assert(storage::added(start, read).drop_first() =~= seq![c1]);
    }
    let bytes = match got {
        Err(_) => return Ok(None),
        Ok(b) => b,
    };
    let wrote = store.blob_write(repo, &d, bytes.as_slice());
    proof {
        let c2 = store.log().last();
        storage::lemma_added_push(start, read, c2);
        assert(storage::added(start, store.log()).drop_first() =~= seq![c1, c2]);
    }
    match wrote {
        Err(e) => Err(OciError::from_storage(e)),
        Ok(()) => Ok(Some(d)),
    }
}

/// The calls and the answer of starting an upload that is not a mount: in one go
/// when a digest is given, else as a new session, under an id that reads back.
pub open spec fn started(
    calls: Seq<Call>,
    repo: Seq<char>,
    digest: Option<Seq<char>>,
    body: Seq<u8>,
    r: Result<ResponseView, OciErrorView>,
) -> bool {
    match digest {
        Some(s) => match digest_of(s) {
            Err(e) => calls.len() == 0 && r == Err::<ResponseView, _>(e),
            Ok(d) => calls.len() == 1 && match calls[0] {
                Call::BlobWrite { repo: q, digest: x, content, reply } => q == repo && x == d
                    && content == body && r == (match reply {
                    Err(e) => Err::<ResponseView, _>(error::storage_error(e)),
                    Ok(_) => Ok(blob_created(repo, d)),
                }),
                _ => false,
            },
        },
        None => calls.len() == 1 && match calls[0] {
            Call::UploadCreate { repo: q, reply } => q == repo && match reply {
                Err(e) => r == Err::<ResponseView, _>(error::storage_error(e)),
                Ok(s) => {
                    &&& r == Ok::<_, OciErrorView>(upload_answer(202, repo, s.id, "0-0"@))
                    &&& upload_id(outside::uuid_hyphenated(s.id)) == Ok::<_, OciErrorView>(s.id)
                },
            },
            _ => false,
        },
    }
}

/// The calls and the answer of a request to start an upload: first a mount is tried,
/// and where that leads nowhere an upload begins.
pub open spec fn upload_started(
    calls: Seq<Call>,
    repo: Seq<char>,
    digest: Option<Seq<char>>,
    mount: Option<Seq<char>>,
    from: Option<Seq<char>>,
    body: Seq<u8>,
    r: Result<ResponseView, OciErrorView>,
) -> bool {
    if !valid_name(repo) {
        calls.len() == 0 && r == Err::<ResponseView, _>(name_error(repo))
    } else {
        exists|k: int, m: Result<Option<DigestView>, OciErrorView>|
            0 <= k <= calls.len() && #[trigger] mount_tried(calls.take(k), repo, mount, from, m)
                && match m {
                Err(e) => k == calls.len() && r == Err::<ResponseView, _>(e),
                Ok(Some(d)) => k == calls.len() && r == Ok::<_, OciErrorView>(
                    blob_created(repo, d),
                ),
                Ok(None) => started(calls.subrange(k, calls.len() as int), repo, digest, body, r),
            }
    }
}

/// Starts an upload, or mounts a blob that is there already.
pub fn upload_start<S: Storage>(
    store: &mut S,
    repo: &str,
    digest_q: Option<String>,
    mount_q: Option<String>,
    from_q: Option<String>,
    body: &[u8],
) -> (r: Result<Response, OciError>)
    requires
        old(store).wf(),
    ensures
        final(store).wf(),
        final(store).origin() == old(store).origin(),
        storage::extends(old(store).log(), final(store).log()),
        upload_started(
            storage::added(old(store).log(), final(store).log()),
            repo@,
            text::opt(digest_q),
            text::opt(mount_q),
            text::opt(from_q),
            body@,
            http::outcome(r),
        ),
{
    let ghost start = store.log();
    proof {
        storage::lemma_added_none(start);
    }
    match validate_repo_name(repo) {
        Ok(()) => {},
        Err(e) => return Err(e),
    }
    let tried = try_mount(store, repo, &mount_q, &from_q);
    let ghost mid = store.log();
    let ghost head = storage::added(start, mid);
    let ghost m = mount_outcome(tried);
    proof {
        assert(head.take(head.len() as int) =~= head);
        storage::lemma_added_none(mid);
    }
    match tried {
        Err(e) => return Err(e),
        Ok(Some(d)) => return Ok(mount_response(repo, &d)),
        Ok(None) => {},
    }
    let r: Result<Response, OciError> = match digest_q {
        Some(s) => match parse_digest(s.as_str()) {
            Err(e) => Err(e),
            Ok(d) => {
                let wrote = store.blob_write(repo, &d, body);
                proof {
                    let c = store.log().last();
                    storage::lemma_added_push(mid, mid, c);
                    assert(storage::added(mid, store.log()) =~= seq![c]);
                    storage::lemma_added_push(start, mid, c);
                }
                match wrote {
                    Err(e) => Err(OciError::from_storage(e)),
                    Ok(()) => Ok(mount_response(repo, &d)),
                }
            },
        },
        None => {
            let made = store.upload_create(repo);
            proof {
                let c = store.log().last();
                storage::lemma_added_push(mid, mid, c);
                assert(storage::added(mid, store.log()) =~= seq![c]);
                storage::lemma_added_push(start, mid, c);
            }
            match made {
                Err(e) => Err(OciError::from_storage(e)),
                Ok(s) => Ok(upload_response(202, repo, s.id, "0-0".to_owned())),
            }
        },
    };
    proof {
        storage::lemma_added_twice(start, mid, store.log());
        let calls = storage::added(start, store.log());
        let k = head.len() as int;
        assert(calls.take(k) =~= head);
        assert(calls.subrange(k, calls.len() as int) =~= storage::added(mid, store.log()));
        assert(mount_tried(
            calls.take(k),
            repo@,
            text::opt(mount_q),
            text::opt(from_q),
            m,
        ));
    }
    r
}

// ---- Referrers ------------------------------------------------------------

/// The manifest refers to `subject`.
pub open spec fn refers(m: Manifest, subject: DigestView) -> bool {
    m.subject is Some && m.subject->0.digest@ == subject
}

/// The manifest has the artifact type that is asked for, if one is.
pub open spec fn typed(m: Manifest, filter: Option<Seq<char>>) -> bool {
    filter is None || text::opt(m.artifact_type) == filter
}

/// How a manifest is listed.
pub open spec fn listed_as(d: DigestView, content: Seq<u8>, m: Manifest) -> ReferrerView {
    ReferrerView {
        media_type: media_type(content, Some(m), None),
        digest: d.text(),
        size: content.len() as int,
        artifact_type: text::opt(m.artifact_type),
        annotations: text::opt(m.annotations),
    }
}

/// What reading one manifest adds to the list.
pub open spec fn entry_of(c: Call, subject: DigestView, filter: Option<Seq<char>>) -> Seq<
    ReferrerView,
> {
    match c {
        Call::ManifestGet {
            reference: ReferenceView::Digest(d),
            reply: Ok((content, Some(m))),
            ..
        } => if refers(m, subject) && typed(m, filter) {
            seq![listed_as(d, content, m)]
        } else {
            Seq::empty()
        },
        _ => Seq::empty(),
    }
}

/// A manifest was read that refers to `subject` but has another artifact type.
pub open spec fn passed_over(c: Call, subject: DigestView, filter: Option<Seq<char>>) -> bool {
    match c {
        Call::ManifestGet { reply: Ok((_, Some(m))), .. } => refers(m, subject) && !typed(
            m,
            filter,
        ),
        _ => false,
    }
}

/// The list after reading manifests, in the order read.
pub open spec fn entries_of(calls: Seq<Call>, subject: DigestView, filter: Option<Seq<char>>) -> Seq<
    ReferrerView,
>
    decreases calls.len(),
{
    if calls.len() == 0 {
        Seq::empty()
    } else {
        entries_of(calls.drop_last(), subject, filter) + entry_of(calls.last(), subject, filter)
    }
}

pub open spec fn some_passed_over(
    calls: Seq<Call>,
    subject: DigestView,
    filter: Option<Seq<char>>,
) -> bool {
    exists|i: int| 0 <= i < calls.len() && passed_over(#[trigger] calls[i], subject, filter)
}

/// `calls` read the manifests `ds` one by one, up to the end or a failure other than
/// that one is missing.
pub open spec fn reading(calls: Seq<Call>, repo: Seq<char>, ds: Seq<DigestView>) -> bool {
    &&& calls.len() <= ds.len()
    &&& forall|i: int|
        0 <= i < calls.len() ==> match #[trigger] calls[i] {
            Call::ManifestGet { repo: q, reference, reply } => {
                &&& q == repo
                &&& reference == ReferenceView::Digest(ds[i])
                &&& i + 1 < calls.len() ==> reply is Ok || reply->Err_0 == StorageError::NotFound
            },
            _ => false,
        }
}

/// Reading ended with a failure other than that a manifest is missing.
pub open spec fn reading_failed(calls: Seq<Call>) -> Option<StorageError> {
    if calls.len() == 0 {
        None
    } else {
        match storage::error_of(calls.last()) {
            Some(e) => if e == StorageError::NotFound {
                None
            } else {
                Some(e)
            },
            None => None,
        }
    }
}

/// The answer to a request for the manifests that refer to one.
pub open spec fn referrers_answer(
    calls: Seq<Call>,
    subject: DigestView,
    filter: Option<Seq<char>>,
) -> ResponseView {
    let kind = seq![("content-type"@, manifest::OCI_INDEX_MEDIA_TYPE@)];
    ResponseView {
        status: 200,
        headers: if some_passed_over(calls, subject, filter) {
            kind.push(("oci-filters-applied"@, "artifactType"@))
        } else {
            kind
        },
        body: BodyView::Referrers(entries_of(calls, subject, filter)),
    }
}

/// The calls and the answer of a request for the manifests that refer to one: all
/// manifests of the repository are listed, and each is read.
pub open spec fn referrers_listed(
    calls: Seq<Call>,
    repo: Seq<char>,
    digest: Seq<char>,
    filter: Option<Seq<char>>,
    r: Result<ResponseView, OciErrorView>,
) -> bool {
    match blob_request(repo, digest) {
        Err(e) => calls.len() == 0 && r == Err::<ResponseView, _>(e),
        Ok(subject) => calls.len() > 0 && match calls[0] {
            Call::ListManifestDigests { repo: q, reply } => q == repo && match reply {
                Err(e) => calls.len() == 1 && r == Err::<ResponseView, _>(error::storage_error(e)),
                Ok(ds) => {
                    let rest = calls.drop_first();
                    &&& reading(rest, repo, ds)
                    &&& match reading_failed(rest) {
                        Some(e) => r == Err::<ResponseView, _>(error::storage_error(e)),
                        None => rest.len() == ds.len() && r == Ok::<_, OciErrorView>(
                            referrers_answer(rest, subject, filter),
                        ),
                    }
                },
            },
            _ => false,
        },
    }
}

/// What to list of a manifest that was read, and whether it was passed over for its
/// artifact type.
pub fn referrer_of(
    d: &Digest,
    got: StoredManifest,
    subject: &Digest,
    filter: &Option<String>,
) -> (r: (Option<Referrer>, bool))
    ensures
        forall|repo: Seq<char>|
            {
                let c = #[trigger] read_of(repo, d@, got);
                &&& entry_of(c, subject@, text::opt(*filter)) == (match r.0 {
                    Some(x) => seq![x@],
                    None => Seq::empty(),
                })
                &&& r.1 == passed_over(c, subject@, text::opt(*filter))
            },
{
    let m = match got.refs {
        None => return (None, false),
        Some(m) => m,
    };
    let about = match &m.subject {
        None => return (None, false),
        Some(s) => s,
    };
    if !about.digest.same(subject) {
        return (None, false);
    }
    if let Some(f) = filter {
        let right: bool = match &m.artifact_type {
            None => false,
            Some(t) => text::same(t.as_str(), f.as_str()),
        };
        if !right {
            return (None, true);
        }
    }
    let none: Option<String> = None;
    let refs = Some(m);
    let media = manifest_media_type(got.content.as_slice(), &refs, &none);
    let size: usize = got.content.len();
    let (artifact_type, annotations) = match refs {
        None => (None, None),
        Some(m) => (m.artifact_type, m.annotations),
    };
    (
        Some(Referrer { media_type: media, digest: d.to_string(), size, artifact_type, annotations }),
        false,
    )
}

/// The call that read a manifest by its digest.
pub open spec fn read_of(repo: Seq<char>, d: DigestView, got: StoredManifest) -> Call {
    Call::ManifestGet {
        repo,
        reference: ReferenceView::Digest(d),
        reply: Ok((got.content@, got.refs)),
    }
}

proof fn lemma_entries_push(
    calls: Seq<Call>,
    c: Call,
    subject: DigestView,
    filter: Option<Seq<char>>,
)
    ensures
        entries_of(calls.push(c), subject, filter) == entries_of(calls, subject, filter) + entry_of(
            c,
            subject,
            filter,
        ),
        some_passed_over(calls.push(c), subject, filter) == (some_passed_over(
            calls,
            subject,
            filter,
        ) || passed_over(c, subject, filter)),
{
    let all = calls.push(c);
    assert(all.drop_last() =~= calls);
    if passed_over(c, subject, filter) {
        assert(all[calls.len() as int] == c);
    }
    if some_passed_over(calls, subject, filter) {
        let i = choose|i: int|
            0 <= i < calls.len() && passed_over(#[trigger] calls[i], subject, filter);
        assert(all[i] == calls[i]);
    }
}

/// Lists the manifests of a repository that refer to another one.
pub fn referrers<S: Storage>(
    store: &mut S,
    repo: &str,
    digest_str: &str,
    artifact_type_filter: Option<String>,
) -> (r: Result<Response, OciError>)
    requires
        old(store).wf(),
    ensures
        final(store).wf(),
        final(store).origin() == old(store).origin(),
        storage::extends(old(store).log(), final(store).log()),
        referrers_listed(
            storage::added(old(store).log(), final(store).log()),
            repo@,
            digest_str@,
            text::opt(artifact_type_filter),
            http::outcome(r),
        ),
{
    let ghost start = store.log();
    proof {
        storage::lemma_added_none(start);
    }
    let subject = match check_blob_request(repo, digest_str) {
        Ok(d) => d,
        Err(e) => return Err(e),
    };
    let listed = store.list_manifest_digests(repo);
    let ghost mid = store.log();
    let ghost c0 = mid.last();
    proof {
        storage::lemma_added_push(start, start, c0);
        storage::lemma_added_none(mid);
        assert(storage::added(start, mid) =~= seq![c0]);
    }
    let digests = match listed {
        Err(e) => return Err(OciError::from_storage(e)),
        Ok(v) => v,
    };
    let ghost ds = order::views_of(digests@);
    let ghost filter = text::opt(artifact_type_filter);
    let mut matched: Vec<Referrer> = Vec::new();
    let mut filtered: bool = false;
    let mut i: usize = 0;
    assert(order::views_of(matched@) =~= Seq::<ReferrerView>::empty());
    while i < digests.len()
        invariant
            i <= digests@.len(),
            store.wf(),
            store.origin() == old(store).origin(),
            start == old(store).log(),
            storage::extends(start, mid),
            storage::extends(mid, store.log()),
            storage::added(start, mid) == seq![c0],
            storage::added(mid, store.log()).len() == i,
            ds == order::views_of(digests@),
            filter == text::opt(artifact_type_filter),
            c0 == (Call::ListManifestDigests { repo: repo@, reply: Ok(ds) }),
            blob_request(repo@, digest_str@) == Ok::<DigestView, OciErrorView>(subject@),
            reading(storage::added(mid, store.log()), repo@, ds),
            reading_failed(storage::added(mid, store.log())) is None,
            order::views_of(matched@) == entries_of(
                storage::added(mid, store.log()),
                subject@,
                filter,
            ),
            filtered == some_passed_over(storage::added(mid, store.log()), subject@, filter),
        decreases digests@.len() - i,
    {
        let ghost before = store.log();
        let ghost so_far = storage::added(mid, before);
        let d = digests[i].dup();
        assert(ds[i as int] == digests@[i as int]@);
        let at = Reference::Digest(d);
        let got = store.manifest_get(repo, &at);
        let ghost c = store.log().last();
        proof {
            storage::lemma_added_push(mid, before, c);
            lemma_entries_push(so_far, c, subject@, filter);
            assert(reading(so_far.push(c), repo@, ds));
        }
        match got {
            Err(StorageError::NotFound) => {},
            Err(e) => {
                proof {
                    storage::lemma_added_twice(start, mid, store.log());
                    assert(storage::added(start, store.log()).drop_first() =~= so_far.push(c));
                    assert(reading_failed(so_far.push(c)) == Some(e));
                }
                return Err(OciError::from_storage(e));
            },
            Ok(x) => {
                assert(c == read_of(repo@, digests@[i as int]@, x));
                let (entry, passed): (Option<Referrer>, bool) = referrer_of(
                    &digests[i],
                    x,
                    &subject,
                    &artifact_type_filter,
                );
                if passed {
                    filtered = true;
                }
                let ghost was = order::views_of(matched@);
                match entry {
                    None => {
                        assert(was + Seq::<ReferrerView>::empty() =~= was);
                    },
                    Some(y) => {
                        let ghost yv = y@;
                        matched.push(y);
                        assert(order::views_of(matched@) =~= was + seq![yv]);
                    },
                }
            },
        }
        proof {
            if got is Err {
                assert(order::views_of(matched@) + Seq::<ReferrerView>::empty()
                    =~= order::views_of(matched@));
            }
        }
        i = i + 1;
    }
    proof {
        storage::lemma_added_twice(start, mid, store.log());
        assert(storage::added(start, store.log()).drop_first() =~= storage::added(
            mid,
            store.log(),
        ));
    }
    let ghost rest = storage::added(mid, store.log());
    let mut x = Response::bare(200).header(
        "content-type",
        manifest::OCI_INDEX_MEDIA_TYPE.to_owned(),
    );
    assert(x@.headers =~= seq![("content-type"@, manifest::OCI_INDEX_MEDIA_TYPE@)]);
    if filtered {
        x = x.header("oci-filters-applied", "artifactType".to_owned());
    }
    let y = x.body(Body::Referrers(matched));
    assert(y@ == referrers_answer(rest, subject@, filter));
    Ok(y)
}

} // verus!
