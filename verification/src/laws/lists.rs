//! Lists and their pages.

use vstd::prelude::*;

use crate::error::{OciCode, OciErrorView};
use crate::handlers;
use crate::http::ResponseView;
use crate::model;
use crate::model::{Holdings, Reading};
use crate::order;
use crate::storage::Call;

verus! {

/// `y` comes behind `x` in a dictionary: it goes on where `x` ends, or has the greater
/// code point where the two first differ.
pub open spec fn later(x: Seq<char>, y: Seq<char>) -> bool {
    exists|k: int| #[trigger] later_at(x, y, k)
}

pub open spec fn later_at(x: Seq<char>, y: Seq<char>, k: int) -> bool {
    &&& 0 <= k <= x.len()
    &&& k < y.len()
    &&& forall|j: int| 0 <= j < k ==> x[j] == y[j]
    &&& k < x.len() ==> (x[k] as int) < (y[k] as int)
}

/// Texts are ordered as in a dictionary.
pub proof fn texts_are_ordered_as_in_a_dictionary(x: Seq<char>, y: Seq<char>)
    ensures
        order::text_before(x, y) <==> later(x, y),
{
    let a = order::code_points(x);
    let b = order::code_points(y);
    if order::before(a, b) {
        let k = choose|k: int| order::before_at(a, b, k);
        assert forall|j: int| 0 <= j < k implies x[j] == y[j] by {
            assert(a[j] == b[j]);
            assert(x[j] as int == y[j] as int);
        }
        if k < x.len() {
            assert(a[k] == x[k] as int && b[k] == y[k] as int);
        }
        assert(later_at(x, y, k));
    }
    if later(x, y) {
        let k = choose|k: int| #[trigger] later_at(x, y, k);
        assert forall|j: int| 0 <= j < k implies a[j] == b[j] by {
            assert(x[j] == y[j]);
        }
        if k < x.len() {
            assert(a[k] == x[k] as int && b[k] == y[k] as int);
        }
        assert(order::before_at(a, b, k));
    }
}

/// The items behind `last`, or all of them.
pub open spec fn rest_of(items: Seq<Seq<char>>, last: Option<Seq<char>>) -> Seq<Seq<char>> {
    match last {
        None => items,
        Some(x) => items.filter(|y: Seq<char>| later(x, y)),
    }
}

proof fn lemma_behind(items: Seq<Seq<char>>, last: Option<Seq<char>>)
    ensures
        handlers::behind(items, last) == rest_of(items, last),
    decreases items.len(),
{
    reveal(Seq::filter);
    if let Some(x) = last {
        if items.len() > 0 {
            lemma_behind(items.drop_last(), last);
            texts_are_ordered_as_in_a_dictionary(x, items.last());
        }
    }
}

/// A page holds the items behind `last` in their order, all of them without a limit and
/// the first `k` of them with the limit `k`; it is cut short exactly when there are more.
pub proof fn page_is_what_comes_behind(
    items: Seq<Seq<char>>,
    n: Option<usize>,
    last: Option<Seq<char>>,
)
    ensures
        ({
            let rest = rest_of(items, last);
            let page = handlers::page(items, n, last);
            match n {
                None => page == rest && !handlers::cut_short(items, n, last),
                Some(k) => {
                    &&& rest.len() <= k ==> page == rest && !handlers::cut_short(items, n, last)
                    &&& rest.len() > k ==> page == rest.take(k as int) && handlers::cut_short(
                        items,
                        n,
                        last,
                    )
                },
            }
        }),
{
    lemma_behind(items, last);
}

/// Without `last` nothing is left out in front; behind it nothing is shown that does not
/// come behind it, and everything that does is.
pub proof fn rest_is_what_comes_behind(
    items: Seq<Seq<char>>,
    last: Option<Seq<char>>,
    x: Seq<char>,
)
    ensures
        rest_of(items, last).contains(x) <==> items.contains(x) && (last is None || later(
            last->0,
            x,
        )),
{
    if let Some(l) = last {
        let pred = |y: Seq<char>| later(l, y);
        let rest = items.filter(pred);
        broadcast use Seq::lemma_filter_pred, Seq::lemma_filter_contains;

        if rest.contains(x) {
            items.lemma_filter_contains_rev(pred, x);
            let i = choose|i: int| 0 <= i < rest.len() && rest[i] == x;
            assert(pred(rest[i]));
        }
        if items.contains(x) && later(l, x) {
            let i = choose|i: int| 0 <= i < items.len() && items[i] == x;
            assert(pred(items[i]));
            assert(rest.contains(items[i]));
        }
    }
}

/// The answer to a listing: status 200, and in the body a page of `items` under the rules
/// above. There is a link behind it where more follow, and only there.
pub open spec fn shows_page(
    r: ResponseView,
    base: Seq<char>,
    page: Seq<Seq<char>>,
    items: Seq<Seq<char>>,
    n: Option<usize>,
    last: Option<Seq<char>>,
) -> bool {
    let rest = rest_of(items, last);
    &&& r.status == 200
    &&& n is None ==> page == rest && r.headers.len() == 0
    &&& n matches Some(k) ==> if rest.len() <= k {
        page == rest && r.headers.len() == 0
    } else {
        page == rest.take(k as int) && r.headers == handlers::next_link(base, n, page)
    }
}

/// The catalog of a store that works lists the repositories that have a manifest, a page
/// at a time; asked for without a limit and from the start, all of them.
pub proof fn catalog_lists_the_repositories(
    read: Reading,
    hs: Seq<Holdings>,
    calls: Seq<Call>,
    n: Option<usize>,
    last: Option<Seq<char>>,
    r: Result<ResponseView, OciErrorView>,
) -> (items: Seq<Seq<char>>)
    requires
        model::works(read, hs, calls),
        handlers::catalog_listed(calls, n, last, r),
    ensures
        r is Ok,
        r->Ok_0.body is Catalog,
        shows_page(r->Ok_0, "_catalog"@, r->Ok_0.body->Catalog_0, items, n, last),
        forall|x: Seq<char>| #[trigger]
            items.contains(x) <==> exists|d: crate::digest::DigestView| #[trigger]
                hs[0].manifests.contains_key((x, d)),
        n is None && last is None ==> forall|x: Seq<char>| #[trigger]
            r->Ok_0.body->Catalog_0.contains(x) <==> hs[0].knows(x),
        hs.last() == hs[0],
{
    assert(model::step(read, hs[0], calls[0], hs[1]));
    let items = calls[0]->ListRepos_reply->Ok_0;
    page_is_what_comes_behind(items, n, last);
    assert(hs.last() == hs[1]);
    assert forall|x: Seq<char>| #[trigger] items.contains(x) <==> exists|d: crate::digest::DigestView|
        #[trigger] hs[0].manifests.contains_key((x, d)) by {
        assert(items.contains(x) <==> hs[0].knows(x));
    }
    items
}

/// The tags of a repository on a store that works are listed, a page at a time; asked for
/// without a limit and from the start, all of them. A repository that has neither a tag
/// nor a manifest is unknown.
pub proof fn tags_of_a_repository_are_listed(
    read: Reading,
    hs: Seq<Holdings>,
    calls: Seq<Call>,
    repo: Seq<char>,
    n: Option<usize>,
    last: Option<Seq<char>>,
    r: Result<ResponseView, OciErrorView>,
) -> (items: Seq<Seq<char>>)
    requires
        model::works(read, hs, calls),
        handlers::tags_listed(calls, repo, n, last, r),
        handlers::valid_name(repo),
    ensures
        forall|t: Seq<char>| #[trigger]
            items.contains(t) <==> hs[0].tags.contains_key((repo, t)),
        items.len() > 0 || hs[0].knows(repo) ==> {
            &&& r is Ok
            &&& r->Ok_0.body is Tags
            &&& r->Ok_0.body->Tags_name == repo
            &&& shows_page(
                r->Ok_0,
                repo + "/tags/list"@,
                r->Ok_0.body->Tags_tags,
                items,
                n,
                last,
            )
        },
        items.len() == 0 && !hs[0].knows(repo) ==> r is Err && r->Err_0.status == 404
            && r->Err_0.code == OciCode::NameUnknown,
        n is None && last is None && r is Ok ==> forall|t: Seq<char>| #[trigger]
            r->Ok_0.body->Tags_tags.contains(t) <==> hs[0].tags.contains_key((repo, t)),
        hs.last() == hs[0],
{
    assert(model::step(read, hs[0], calls[0], hs[1]));
    let items = calls[0]->ListTags_reply->Ok_0;
    page_is_what_comes_behind(items, n, last);
    if calls.len() == 2 {
        assert(model::step(read, hs[1], calls[1], hs[2]));
    }
    items
}

} // verus!
