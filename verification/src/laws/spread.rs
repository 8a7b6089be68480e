//! A collection over several stores that work, asked as one.

use vstd::prelude::*;

use crate::digest::{Digest, DigestView};
use crate::fanout;
use crate::fanout::{Ask, Partition};
use crate::gc;
use crate::gc::GcReport;
use crate::laws::collect;
use crate::laws::limits;
use crate::laws::moving;
use crate::laws::place;
use crate::laws::refers;
use crate::laws::taken;
use crate::model;
use crate::model::{Holdings, Reading};
use crate::multi;
use crate::multi::MultiStore;
use crate::order;
use crate::order::Key;
use crate::quota;
use crate::quota::{QuotaStorage, Stand};
use crate::repo_router;
use crate::repo_router::{RepoRouter, RuleView};
use crate::storage;
use crate::storage::{Call, ReferenceView, Storage, StorageError, StoredManifest};
use crate::trail;
use crate::trail::Layout;
use crate::walk::Place;

verus! {

/// The layout names stores that are there, reads a repository from those that hold it,
/// and lists all of them.
pub open spec fn sane(layout: Layout, n: nat) -> bool {
    &&& forall|repo: Seq<char>| fanout::places(#[trigger] layout.reads(repo), n)
    &&& forall|repo: Seq<char>| fanout::places(#[trigger] layout.holds(repo), n)
    &&& forall|repo: Seq<char>| (#[trigger] layout.reads(repo)).len() > 0
    &&& fanout::places(layout.everywhere(), n)
    &&& forall|repo: Seq<char>, p: usize| #[trigger]
        layout.holds(repo).contains(p) <==> layout.reads(repo).contains(p)
    &&& forall|repo: Seq<char>, p: usize| #[trigger]
        layout.holds(repo).contains(p) ==> layout.everywhere().contains(p)
}

proof fn lemma_with_new(s: Seq<usize>, more: Seq<usize>, n: nat)
    requires
        fanout::places(s, n),
        fanout::places(more, n),
    ensures
        fanout::places(repo_router::with_new(s, more), n),
        forall|p: usize| #[trigger]
            repo_router::with_new(s, more).contains(p) <==> s.contains(p) || more.contains(p),
    decreases more.len(),
{
    if more.len() > 0 {
        let rest = more.drop_last();
        let t = repo_router::with_new(s, rest);
        let m = more.last();
        lemma_with_new(s, rest, n);
        assert(more[more.len() - 1] == m);
        assert forall|p: usize| #[trigger] more.contains(p) <==> rest.contains(p) || p == m by {
            if more.contains(p) {
                let i = choose|i: int| 0 <= i < more.len() && more[i] == p;
                if i < rest.len() {
                    assert(rest[i] == p);
                }
            }
            if rest.contains(p) {
                let i = choose|i: int| 0 <= i < rest.len() && rest[i] == p;
                assert(more[i] == p);
            }
        }
        let u = repo_router::with_new(s, more);
        if !t.contains(m) {
            assert(u == t.push(m));
            assert forall|p: usize| #[trigger] u.contains(p) <==> t.contains(p) || p == m by {
                if t.contains(p) {
                    let i = choose|i: int| 0 <= i < t.len() && t[i] == p;
                    assert(u[i] == p);
                }
                assert(u[t.len() as int] == m);
            }
            assert forall|i: int, j: int| 0 <= i < j < u.len() implies u[i] != u[j] by {
                if j == t.len() {
                    assert(t.contains(t[i]));
                }
            }
        }
    }
}

proof fn lemma_listed_volumes(rules: Seq<RuleView>, n: nat)
    requires
        repo_router::rules_valid(rules, n),
    ensures
        fanout::places(repo_router::listed_volumes(rules), n),
        forall|i: int, p: usize|
            0 <= i < rules.len() && #[trigger] rules[i].chain.contains(p)
                ==> repo_router::listed_volumes(rules).contains(p),
    decreases rules.len(),
{
    if rules.len() > 0 {
        let rest = rules.drop_last();
        assert forall|i: int| 0 <= i < rest.len() implies (#[trigger] rest[i]).chain.len() > 0
            && fanout::places(rest[i].chain, n) by {
            assert(rest[i] == rules[i]);
        }
        lemma_listed_volumes(rest, n);
        assert(rules[rules.len() - 1].chain.len() > 0);
        lemma_with_new(repo_router::listed_volumes(rest), rules.last().chain, n);
        assert forall|i: int, p: usize|
            0 <= i < rules.len() && #[trigger] rules[i].chain.contains(p) implies repo_router::listed_volumes(
            rules,
        ).contains(p) by {
            if i < rest.len() {
                assert(rest[i].chain.contains(p));
            }
        }
    }
}

/// The rules of a router make a sane layout.
pub proof fn rules_are_sane(rules: Seq<RuleView>, n: nat)
    requires
        rules.len() > 0,
        repo_router::rules_valid(rules, n),
    ensures
        sane(Layout::Rules(rules), n),
{
    let layout = Layout::Rules(rules);
    lemma_listed_volumes(rules, n);
    assert forall|repo: Seq<char>| fanout::places(#[trigger] layout.reads(repo), n)
        && layout.reads(repo).len() > 0 && fanout::places(layout.holds(repo), n) by {
        moving::some_rule_decides(rules, repo);
        assert(rules[repo_router::deciding_rule(rules, repo)].chain.len() > 0);
    }
    assert forall|repo: Seq<char>| fanout::places(#[trigger] layout.holds(repo), n) by {
        assert(fanout::places(layout.reads(repo), n));
    }
    assert forall|repo: Seq<char>, p: usize| #[trigger] layout.holds(repo).contains(p) implies layout.everywhere().contains(
        p,
    ) by {
        moving::some_rule_decides(rules, repo);
        assert(rules[repo_router::deciding_rule(rules, repo)].chain.contains(p));
    }
}

/// So do partitions, with their primary among them.
pub proof fn partitions_are_sane(n: nat, primary: usize)
    requires
        primary < n,
        n <= usize::MAX,
    ensures
        sane(Layout::Partitions(n, primary), n),
{
    let layout = Layout::Partitions(n, primary);
    let reads = multi::read_order(n, primary as int);
    let all = multi::declared_order(n);
    assert(fanout::places(reads, n));
    assert(fanout::places(all, n));
    assert forall|p: usize| all.contains(p) <==> p < n by {
        if p < n {
            assert(all[p as int] == p);
        }
    }
    assert forall|p: usize| reads.contains(p) <==> p < n by {
        if p < n {
            if p == primary {
                assert(reads[0] == p);
            } else if p < primary {
                assert(reads[p + 1] == p);
            } else {
                assert(reads[p as int] == p);
            }
        }
    }
}

/// One of these stores knows the repository.
pub open spec fn known(h: Seq<Holdings>, order: Seq<usize>, repo: Seq<char>) -> bool {
    exists|p: usize| #[trigger] order.contains(p) && h[p as int].knows(repo)
}

/// One of these stores holds the manifest.
pub open spec fn has_manifest(h: Seq<Holdings>, order: Seq<usize>, m: Place) -> bool {
    exists|p: usize| #[trigger] order.contains(p) && h[p as int].manifests.contains_key(m)
}

/// One of these stores holds the blob.
pub open spec fn has_blob(h: Seq<Holdings>, order: Seq<usize>, d: DigestView) -> bool {
    exists|p: usize| #[trigger] order.contains(p) && h[p as int].blobs.contains_key(d)
}

/// The store at place `k` is the first of these that holds the manifest.
pub open spec fn first_with(h: Seq<Holdings>, order: Seq<usize>, m: Place, k: int) -> bool {
    &&& 0 <= k < order.len()
    &&& h[order[k] as int].manifests.contains_key(m)
    &&& forall|j: int|
        0 <= j < k ==> !h[#[trigger] order[j] as int].manifests.contains_key(m)
}

/// How stores that work answer the calls of a collection when they are asked as one.
pub open spec fn hop(
    read: Reading,
    layout: Layout,
    a: Seq<Holdings>,
    c: Call,
    b: Seq<Holdings>,
) -> bool {
    match c {
        Call::ListRepos { reply } => {
            &&& b == a
            &&& reply is Ok
            &&& forall|r: Seq<char>| #[trigger]
                reply->Ok_0.contains(r) <==> known(a, layout.everywhere(), r)
        },
        Call::ListManifestDigests { repo, reply } => {
            &&& b == a
            &&& reply is Ok
            &&& forall|d: DigestView| #[trigger]
                reply->Ok_0.contains(d) <==> has_manifest(a, layout.holds(repo), (repo, d))
        },
        Call::ListAllBlobs { reply } => {
            &&& b == a
            &&& reply is Ok
            &&& forall|d: DigestView| #[trigger]
                reply->Ok_0.contains(d) <==> has_blob(a, layout.everywhere(), d)
        },
        Call::ManifestGet { repo, reference: ReferenceView::Digest(d), reply } => {
            let order = layout.reads(repo);
            &&& b == a
            &&& forall|k: int| #[trigger]
                first_with(a, order, (repo, d), k) ==> {
                    let bytes = a[order[k] as int].manifests[(repo, d)];
                    reply == Ok::<_, StorageError>((bytes, read(bytes)))
                }
            &&& reply is Ok ==> exists|k: int| first_with(a, order, (repo, d), k)
        },
        Call::BlobExists { repo, digest, reply } => {
            &&& b == a
            &&& reply == Ok::<bool, StorageError>(has_blob(a, layout.reads(repo), digest))
        },
        Call::BlobSize { .. } => b == a,
        Call::BlobDelete { repo, digest, .. } => {
            &&& b.len() == a.len()
            &&& forall|p: usize|
                p < a.len() ==> #[trigger] b[p as int] == if layout.holds(repo).contains(p) {
                    collect::without_blob(a[p as int], digest)
                } else {
                    a[p as int]
                }
        },
        _ => true,
    }
}

/// The list of a reply has `x`.
spec fn lists<K: View>(r: Result<Vec<K>, StorageError>, x: K::V) -> bool {
    r is Ok && order::views_of(r->Ok_0@).contains(x)
}

proof fn lemma_union<K: View>(replies: Seq<Result<Vec<K>, StorageError>>, x: K::V)
    ensures
        fanout::union_of(replies).contains(x) <==> exists|i: int|
            0 <= i < replies.len() && lists(#[trigger] replies[i], x),
    decreases replies.len(),
{
    if replies.len() > 0 {
        let rest = replies.drop_last();
        lemma_union(rest, x);
        if fanout::union_of(rest).contains(x) {
            let i = choose|i: int| 0 <= i < rest.len() && lists(#[trigger] rest[i], x);
            assert(replies[i] == rest[i]);
        }
        if lists(replies.last(), x) {
            assert(replies[replies.len() - 1] == replies.last());
        }
        if exists|i: int| 0 <= i < replies.len() && lists(#[trigger] replies[i], x) {
            let i = choose|i: int| 0 <= i < replies.len() && lists(#[trigger] replies[i], x);
            if i < rest.len() {
                assert(rest[i] == replies[i]);
            }
        }
    }
}

/// Lists that were put together.
proof fn lemma_put_together<K: Key>(
    replies: Seq<Result<Vec<K>, StorageError>>,
    n: nat,
    r: Result<Vec<K>, StorageError>,
    x: K::V,
)
    requires
        fanout::union_answer(replies, n, r) || (n == 1 && replies == seq![r]),
        forall|i: int| 0 <= i < replies.len() ==> (#[trigger] replies[i]) is Ok,
    ensures
        r is Ok,
        replies.len() == n,
        order::views_of(r->Ok_0@).contains(x) <==> exists|i: int|
            0 <= i < n && lists(#[trigger] replies[i], x),
{
    if fanout::union_answer(replies, n, r) {
        if r is Err {
            assert(replies[replies.len() - 1] is Ok);
        }
        lemma_union(replies, x);
        let v = order::views_of(r->Ok_0@);
        assert(v.to_set().contains(x) == v.contains(x));
    } else {
        assert(replies[0] == r);
        if exists|i: int| 0 <= i < n && lists(#[trigger] replies[i], x) {
            let i = choose|i: int| 0 <= i < n && lists(#[trigger] replies[i], x);
            assert(i == 0);
        }
    }
}

/// Stores that were all asked a question that changes nothing hold what they held.
proof fn lemma_all_quiet<S: Storage, A: Ask>(
    read: Reading,
    was: Seq<Partition<S>>,
    now: Seq<Partition<S>>,
    h: Seq<Holdings>,
    h2: Seq<Holdings>,
    order: Seq<usize>,
    a: A,
    replies: Seq<Result<A::Answer, StorageError>>,
)
    requires
        place::evolves(read, was, now, h, h2),
        fanout::asked(was, now, order, a, replies),
        fanout::places(order, was.len()),
        forall|r: Result<A::Answer, StorageError>| model::quiet(#[trigger] a.call(r)),
    ensures
        h2 == h,
        forall|i: int|
            0 <= i < replies.len() ==> model::step(
                read,
                h[order[i] as int],
                a.call(#[trigger] replies[i]),
                h[order[i] as int],
            ),
{
    place::lemma_asked(read, was, now, h, h2, order, a, replies);
    assert forall|p: int| 0 <= p < h.len() implies h2[p] == h[p] by {
        if exists|i: int| 0 <= i < replies.len() && order[i] == p {
            let i = choose|i: int| 0 <= i < replies.len() && order[i] == p;
            let c = a.call(replies[i]);
            assert(model::quiet(c));
            assert(model::step(read, h[order[i] as int], c, h2[order[i] as int]));
        }
    }
    assert(h2 =~= h);
}

proof fn lemma_hop_repos<S: Storage>(
    read: Reading,
    layout: Layout,
    was: Seq<Partition<S>>,
    c: Call,
    now: Seq<Partition<S>>,
    h: Seq<Holdings>,
    h2: Seq<Holdings>,
)
    requires
        c is ListRepos,
        sane(layout, was.len()),
        trail::served(layout, was, c, now),
        place::evolves(read, was, now, h, h2),
    ensures
        hop(read, layout, h, c, h2),
{
    let a = fanout::ListRepos;
    let order = layout.everywhere();
    let r = choose|r: Result<Vec<String>, StorageError>| #[trigger]
        trail::put_together(was, now, order, a, r) && a.call(r) == c;
    let replies = choose|replies: Seq<Result<Vec<String>, StorageError>>| #[trigger]
        fanout::asked(was, now, order, a, replies) && (fanout::union_answer(
            replies,
            order.len(),
            r,
        ) || (order.len() == 1 && replies == seq![r]));
    lemma_all_quiet(read, was, now, h, h2, order, a, replies);
    assert forall|i: int| 0 <= i < replies.len() implies (#[trigger] replies[i]) is Ok by {
        assert(model::step(read, h[order[i] as int], a.call(replies[i]), h[order[i] as int]));
    }
    lemma_put_together(replies, order.len(), r, ""@);
    let told = c->ListRepos_reply->Ok_0;
    assert(told == order::views_of(r->Ok_0@));
    assert forall|x: Seq<char>| #[trigger] told.contains(x) <==> known(h, order, x) by {
        lemma_put_together(replies, order.len(), r, x);
        if told.contains(x) {
            let i = choose|i: int| 0 <= i < order.len() && lists(#[trigger] replies[i], x);
            assert(model::step(read, h[order[i] as int], a.call(replies[i]), h[order[i] as int]));
            assert(a.call(replies[i])->ListRepos_reply->Ok_0.contains(x));
            assert(order.contains(order[i]));
        }
        if known(h, order, x) {
            let p = choose|p: usize| #[trigger] order.contains(p) && h[p as int].knows(x);
            let i = choose|i: int| 0 <= i < order.len() && order[i] == p;
            assert(model::step(read, h[order[i] as int], a.call(replies[i]), h[order[i] as int]));
            assert(a.call(replies[i])->ListRepos_reply->Ok_0.contains(x));
            assert(lists(replies[i], x));
        }
    }
}

proof fn lemma_hop_blobs<S: Storage>(
    read: Reading,
    layout: Layout,
    was: Seq<Partition<S>>,
    c: Call,
    now: Seq<Partition<S>>,
    h: Seq<Holdings>,
    h2: Seq<Holdings>,
)
    requires
        c is ListAllBlobs,
        sane(layout, was.len()),
        trail::served(layout, was, c, now),
        place::evolves(read, was, now, h, h2),
    ensures
        hop(read, layout, h, c, h2),
{
    let a = fanout::ListAllBlobs;
    let order = layout.everywhere();
    let r = choose|r: Result<Vec<Digest>, StorageError>| #[trigger]
        trail::put_together(was, now, order, a, r) && a.call(r) == c;
    let replies = choose|replies: Seq<Result<Vec<Digest>, StorageError>>| #[trigger]
        fanout::asked(was, now, order, a, replies) && (fanout::union_answer(
            replies,
            order.len(),
            r,
        ) || (order.len() == 1 && replies == seq![r]));
    lemma_all_quiet(read, was, now, h, h2, order, a, replies);
    assert forall|i: int| 0 <= i < replies.len() implies (#[trigger] replies[i]) is Ok by {
        assert(model::step(read, h[order[i] as int], a.call(replies[i]), h[order[i] as int]));
    }
    lemma_ok(replies, order.len(), r);
    let told = c->ListAllBlobs_reply->Ok_0;
    assert(told == order::views_of(r->Ok_0@));
    assert forall|x: DigestView| #[trigger] told.contains(x) <==> has_blob(h, order, x) by {
        lemma_put_together(replies, order.len(), r, x);
        if told.contains(x) {
            let i = choose|i: int| 0 <= i < order.len() && lists(#[trigger] replies[i], x);
            assert(model::step(read, h[order[i] as int], a.call(replies[i]), h[order[i] as int]));
            assert(a.call(replies[i])->ListAllBlobs_reply->Ok_0.contains(x));
            assert(order.contains(order[i]));
        }
        if has_blob(h, order, x) {
            let p = choose|p: usize| #[trigger] order.contains(p) && h[p as int].blobs.contains_key(
                x,
            );
            let i = choose|i: int| 0 <= i < order.len() && order[i] == p;
            assert(model::step(read, h[order[i] as int], a.call(replies[i]), h[order[i] as int]));
            assert(a.call(replies[i])->ListAllBlobs_reply->Ok_0.contains(x));
            assert(lists(replies[i], x));
        }
    }
}

proof fn lemma_ok<K: Key>(
    replies: Seq<Result<Vec<K>, StorageError>>,
    n: nat,
    r: Result<Vec<K>, StorageError>,
)
    requires
        fanout::union_answer(replies, n, r) || (n == 1 && replies == seq![r]),
        forall|i: int| 0 <= i < replies.len() ==> (#[trigger] replies[i]) is Ok,
    ensures
        r is Ok,
        replies.len() == n,
{
    if replies.len() > 0 {
        assert(replies[replies.len() - 1] is Ok);
    }
}

proof fn lemma_hop_manifests<S: Storage>(
    read: Reading,
    layout: Layout,
    was: Seq<Partition<S>>,
    c: Call,
    now: Seq<Partition<S>>,
    h: Seq<Holdings>,
    h2: Seq<Holdings>,
)
    requires
        c is ListManifestDigests,
        sane(layout, was.len()),
        trail::served(layout, was, c, now),
        place::evolves(read, was, now, h, h2),
    ensures
        hop(read, layout, h, c, h2),
{
    let repo = c->ListManifestDigests_repo;
    let order = layout.holds(repo);
    let (a, r) = choose|a: fanout::ListManifestDigests, r: Result<Vec<Digest>, StorageError>| #[trigger]
        trail::put_together(was, now, order, a, r) && a.call(r) == c;
    let replies = choose|replies: Seq<Result<Vec<Digest>, StorageError>>| #[trigger]
        fanout::asked(was, now, order, a, replies) && (fanout::union_answer(
            replies,
            order.len(),
            r,
        ) || (order.len() == 1 && replies == seq![r]));
    assert(a.repo@ == repo);
    lemma_all_quiet(read, was, now, h, h2, order, a, replies);
    assert forall|i: int| 0 <= i < replies.len() implies (#[trigger] replies[i]) is Ok by {
        assert(model::step(read, h[order[i] as int], a.call(replies[i]), h[order[i] as int]));
    }
    lemma_ok(replies, order.len(), r);
    let told = c->ListManifestDigests_reply->Ok_0;
    assert(told == order::views_of(r->Ok_0@));
    assert forall|x: DigestView| #[trigger] told.contains(x) <==> has_manifest(h, order, (repo, x)) by {
        lemma_put_together(replies, order.len(), r, x);
        if told.contains(x) {
            let i = choose|i: int| 0 <= i < order.len() && lists(#[trigger] replies[i], x);
            assert(model::step(read, h[order[i] as int], a.call(replies[i]), h[order[i] as int]));
            assert(a.call(replies[i])->ListManifestDigests_reply->Ok_0.contains(x));
            assert(order.contains(order[i]));
        }
        if has_manifest(h, order, (repo, x)) {
            let p = choose|p: usize| #[trigger] order.contains(p)
                && h[p as int].manifests.contains_key((repo, x));
            let i = choose|i: int| 0 <= i < order.len() && order[i] == p;
            assert(model::step(read, h[order[i] as int], a.call(replies[i]), h[order[i] as int]));
            assert(a.call(replies[i])->ListManifestDigests_reply->Ok_0.contains(x));
            assert(lists(replies[i], x));
        }
    }
}

proof fn lemma_hop_get<S: Storage>(
    read: Reading,
    layout: Layout,
    was: Seq<Partition<S>>,
    c: Call,
    now: Seq<Partition<S>>,
    h: Seq<Holdings>,
    h2: Seq<Holdings>,
)
    requires
        c is ManifestGet,
        sane(layout, was.len()),
        trail::served(layout, was, c, now),
        place::evolves(read, was, now, h, h2),
    ensures
        hop(read, layout, h, c, h2),
{
    let repo = c->ManifestGet_repo;
    let order = layout.reads(repo);
    let (a, r) = choose|a: fanout::ManifestGet, r: Result<StoredManifest, StorageError>| #[trigger]
        trail::until_found(was, now, order, a, r) && a.call(r) == c;
    let replies = choose|replies: Seq<Result<StoredManifest, StorageError>>| #[trigger]
        fanout::asked(was, now, order, a, replies) && fanout::first_answer(replies, order.len(), r);
    assert(a.repo@ == repo && a.reference@ == c->ManifestGet_reference);
    lemma_all_quiet(read, was, now, h, h2, order, a, replies);
    if let ReferenceView::Digest(d) = c->ManifestGet_reference {
        let m = (repo, d);
        let n = replies.len() as int;
        assert forall|i: int| 0 <= i < n implies (h[order[i] as int].manifests.contains_key(m)
            <==> #[trigger] replies[i] is Ok) by {
            assert(model::step(read, h[order[i] as int], a.call(replies[i]), h[order[i] as int]));
        }
        assert(model::step(
            read,
            h[order[n - 1] as int],
            a.call(replies[n - 1]),
            h[order[n - 1] as int],
        ));
        assert forall|k: int| #[trigger] first_with(h, order, m, k) implies c->ManifestGet_reply == Ok::<
            _,
            StorageError,
        >((h[order[k] as int].manifests[m], read(h[order[k] as int].manifests[m]))) by {
            if k < n {
                assert(replies[k] is Ok);
                if k < n - 1 {
                    assert(replies[k] == Err::<StoredManifest, _>(StorageError::NotFound));
                }
            } else {
                assert(!h[order[n - 1] as int].manifests.contains_key(m));
            }
            assert(k == n - 1);
        }
        if r is Ok {
            assert(first_with(h, order, m, n - 1)) by {
                assert(replies[n - 1] is Ok);
                assert forall|j: int| 0 <= j < n - 1 implies !h[#[trigger] order[j] as int].manifests.contains_key(
                    m,
                ) by {
                    assert(replies[j] == Err::<StoredManifest, _>(StorageError::NotFound));
                }
            }
        }
    }
}

proof fn lemma_hop_exists<S: Storage>(
    read: Reading,
    layout: Layout,
    was: Seq<Partition<S>>,
    c: Call,
    now: Seq<Partition<S>>,
    h: Seq<Holdings>,
    h2: Seq<Holdings>,
)
    requires
        c is BlobExists || c is BlobSize,
        sane(layout, was.len()),
        trail::served(layout, was, c, now),
        place::evolves(read, was, now, h, h2),
    ensures
        hop(read, layout, h, c, h2),
{
    if c is BlobExists {
        let repo = c->BlobExists_repo;
        let order = layout.reads(repo);
        let (a, r) = choose|a: fanout::BlobExists, r: Result<bool, StorageError>| #[trigger]
            trail::until_true(was, now, order, a, r) && a.call(r) == c;
        taken::lemma_asked_whether_held(read, was, now, h, h2, order, a, r);
        let d = a.digest@;
        if taken::is_held(h, order, d) {
            let k = choose|k: int| 0 <= k < order.len() && place::holds_blob(h, order, d, k);
            assert(order.contains(order[k]));
        }
        if has_blob(h, order, d) {
            let p = choose|p: usize| #[trigger] order.contains(p) && h[p as int].blobs.contains_key(
                d,
            );
            let k = choose|k: int| 0 <= k < order.len() && order[k] == p;
            assert(place::holds_blob(h, order, d, k));
        }
    } else {
        let repo = c->BlobSize_repo;
        let order = layout.reads(repo);
        let (a, r) = choose|a: fanout::BlobSize, r: Result<u64, StorageError>| #[trigger]
            trail::until_found(was, now, order, a, r) && a.call(r) == c;
        let replies = choose|replies: Seq<Result<u64, StorageError>>| #[trigger]
            fanout::asked(was, now, order, a, replies) && fanout::first_answer(
                replies,
                order.len(),
                r,
            );
        lemma_all_quiet(read, was, now, h, h2, order, a, replies);
    }
}

proof fn lemma_hop_delete<S: Storage>(
    read: Reading,
    layout: Layout,
    was: Seq<Partition<S>>,
    c: Call,
    now: Seq<Partition<S>>,
    h: Seq<Holdings>,
    h2: Seq<Holdings>,
)
    requires
        c is BlobDelete,
        sane(layout, was.len()),
        trail::served(layout, was, c, now),
        place::evolves(read, was, now, h, h2),
    ensures
        hop(read, layout, h, c, h2),
{
    let repo = c->BlobDelete_repo;
    let order = layout.holds(repo);
    let (a, r) = choose|a: fanout::BlobDelete, r: Result<(), StorageError>| #[trigger]
        trail::of_all(was, now, order, a, r) && a.call(r) == c;
    let replies = choose|replies: Seq<Result<(), StorageError>>| #[trigger]
        fanout::asked(was, now, order, a, replies) && replies.len() == order.len()
            && fanout::all_answer(replies, r);
    place::lemma_asked(read, was, now, h, h2, order, a, replies);
    let d = a.digest@;
    assert forall|p: usize| p < h.len() implies #[trigger] h2[p as int] == if order.contains(p) {
        collect::without_blob(h[p as int], d)
    } else {
        h[p as int]
    } by {
        if order.contains(p) {
            let i = choose|i: int| 0 <= i < order.len() && order[i] == p;
            assert(model::step(read, h[order[i] as int], a.call(replies[i]), h2[order[i] as int]));
            if !h[p as int].blobs.contains_key(d) {
                assert(h[p as int].blobs.remove(d) =~= h[p as int].blobs);
            }
        }
    }
}

/// The calls that a collection makes.
spec fn collecting(c: Call) -> bool {
    c is ListRepos || c is ListManifestDigests || c is ManifestGet || c is ListAllBlobs
        || c is BlobExists || c is BlobSize || c is BlobDelete
}

proof fn lemma_hop<S: Storage>(
    read: Reading,
    layout: Layout,
    was: Seq<Partition<S>>,
    c: Call,
    now: Seq<Partition<S>>,
    h: Seq<Holdings>,
    h2: Seq<Holdings>,
)
    requires
        sane(layout, was.len()),
        trail::served(layout, was, c, now),
        place::evolves(read, was, now, h, h2),
    ensures
        hop(read, layout, h, c, h2),
{
    match c {
        Call::ListRepos { .. } => lemma_hop_repos(read, layout, was, c, now, h, h2),
        Call::ListManifestDigests { .. } => lemma_hop_manifests(read, layout, was, c, now, h, h2),
        Call::ManifestGet { .. } => lemma_hop_get(read, layout, was, c, now, h, h2),
        Call::ListAllBlobs { .. } => lemma_hop_blobs(read, layout, was, c, now, h, h2),
        Call::BlobExists { .. } => lemma_hop_exists(read, layout, was, c, now, h, h2),
        Call::BlobSize { .. } => lemma_hop_exists(read, layout, was, c, now, h, h2),
        Call::BlobDelete { .. } => lemma_hop_delete(read, layout, was, c, now, h, h2),
        _ => {},
    }
}

proof fn lemma_served_grew<S: Storage>(
    layout: Layout,
    was: Seq<Partition<S>>,
    c: Call,
    now: Seq<Partition<S>>,
)
    requires
        collecting(c),
        trail::served(layout, was, c, now),
    ensures
        place::grew(was, now),
{
    match c {
        Call::ListRepos { .. } => {
            let order = layout.everywhere();
            let a = fanout::ListRepos;
            let r = choose|r: Result<Vec<String>, StorageError>| #[trigger]
                trail::put_together(was, now, order, a, r) && a.call(r) == c;
            let replies = choose|replies: Seq<Result<Vec<String>, StorageError>>| #[trigger]
                fanout::asked(was, now, order, a, replies) && (fanout::union_answer(replies, order.len(), r) || (
                order.len() == 1 && replies == seq![r]));
            place::lemma_asked_grew(was, now, order, a, replies);
        },
        Call::ListManifestDigests { .. } => {
            let order = layout.holds(c->ListManifestDigests_repo);
            let (a, r) = choose|a: fanout::ListManifestDigests, r: Result<Vec<Digest>, StorageError>| #[trigger]
                trail::put_together(was, now, order, a, r) && a.call(r) == c;
            let replies = choose|replies: Seq<Result<Vec<Digest>, StorageError>>| #[trigger]
                fanout::asked(was, now, order, a, replies) && (fanout::union_answer(replies, order.len(), r) || (
                order.len() == 1 && replies == seq![r]));
            place::lemma_asked_grew(was, now, order, a, replies);
        },
        Call::ManifestGet { .. } => {
            let order = layout.reads(c->ManifestGet_repo);
            let (a, r) = choose|a: fanout::ManifestGet, r: Result<StoredManifest, StorageError>| #[trigger]
                trail::until_found(was, now, order, a, r) && a.call(r) == c;
            let replies = choose|replies: Seq<Result<StoredManifest, StorageError>>| #[trigger]
                fanout::asked(was, now, order, a, replies) && fanout::first_answer(replies, order.len(), r);
            place::lemma_asked_grew(was, now, order, a, replies);
        },
        Call::ListAllBlobs { .. } => {
            let order = layout.everywhere();
            let a = fanout::ListAllBlobs;
            let r = choose|r: Result<Vec<Digest>, StorageError>| #[trigger]
                trail::put_together(was, now, order, a, r) && a.call(r) == c;
            let replies = choose|replies: Seq<Result<Vec<Digest>, StorageError>>| #[trigger]
                fanout::asked(was, now, order, a, replies) && (fanout::union_answer(replies, order.len(), r) || (
                order.len() == 1 && replies == seq![r]));
            place::lemma_asked_grew(was, now, order, a, replies);
        },
        Call::BlobExists { .. } => {
            let order = layout.reads(c->BlobExists_repo);
            let (a, r) = choose|a: fanout::BlobExists, r: Result<bool, StorageError>| #[trigger]
                trail::until_true(was, now, order, a, r) && a.call(r) == c;
            let replies = choose|replies: Seq<Result<bool, StorageError>>| #[trigger]
                fanout::asked(was, now, order, a, replies) && fanout::any_answer(replies, order.len(), r);
            place::lemma_asked_grew(was, now, order, a, replies);
        },
        Call::BlobSize { .. } => {
            let order = layout.reads(c->BlobSize_repo);
            let (a, r) = choose|a: fanout::BlobSize, r: Result<u64, StorageError>| #[trigger]
                trail::until_found(was, now, order, a, r) && a.call(r) == c;
            let replies = choose|replies: Seq<Result<u64, StorageError>>| #[trigger]
                fanout::asked(was, now, order, a, replies) && fanout::first_answer(replies, order.len(), r);
            place::lemma_asked_grew(was, now, order, a, replies);
        },
        Call::BlobDelete { .. } => {
            let order = layout.holds(c->BlobDelete_repo);
            let (a, r) = choose|a: fanout::BlobDelete, r: Result<(), StorageError>| #[trigger]
                trail::of_all(was, now, order, a, r) && a.call(r) == c;
            let replies = choose|replies: Seq<Result<(), StorageError>>| #[trigger]
                fanout::asked(was, now, order, a, replies) && replies.len() == order.len();
            place::lemma_asked_grew(was, now, order, a, replies);
        },
        _ => {},
    }
}

/// Stores that work hold `hs[0]`, `hs[1]` and so on while they are asked `calls` as one.
pub open spec fn hops(
    read: Reading,
    layout: Layout,
    hs: Seq<Seq<Holdings>>,
    calls: Seq<Call>,
) -> bool {
    &&& hs.len() == calls.len() + 1
    &&& forall|i: int|
        0 <= i < calls.len() ==> hop(read, layout, hs[i], #[trigger] calls[i], hs[i + 1])
    &&& forall|i: int| 0 <= i < hs.len() ==> (#[trigger] hs[i]).len() == hs[0].len()
}

proof fn lemma_led_grew<S: Storage>(
    layout: Layout,
    states: Seq<Seq<Partition<S>>>,
    calls: Seq<Call>,
    n: int,
)
    requires
        trail::led(layout, states, calls),
        forall|i: int| 0 <= i < calls.len() ==> collecting(#[trigger] calls[i]),
        0 <= n <= calls.len(),
    ensures
        place::grew(states[0], states[n]),
    decreases n,
{
    if n == 0 {
        limits::lemma_unmeasured(states[0]);
    } else {
        lemma_led_grew(layout, states, calls, n - 1);
        assert(trail::served(layout, states[n - 1], calls[n - 1], states[n - 1 + 1]));
        assert(collecting(calls[n - 1]));
        lemma_served_grew(layout, states[n - 1], calls[n - 1], states[n]);
        place::lemma_grew(states[0], states[n - 1], states[n]);
    }
}

proof fn lemma_hops<S: Storage>(
    read: Reading,
    layout: Layout,
    states: Seq<Seq<Partition<S>>>,
    calls: Seq<Call>,
    n: int,
    h: Seq<Holdings>,
    h2: Seq<Holdings>,
) -> (hs: Seq<Seq<Holdings>>)
    requires
        trail::led(layout, states, calls),
        sane(layout, states[0].len()),
        forall|i: int| 0 <= i < calls.len() ==> collecting(#[trigger] calls[i]),
        0 <= n <= calls.len(),
        place::evolves(read, states[0], states[n], h, h2),
    ensures
        hops(read, layout, hs, calls.take(n)),
        hs[0] == h,
        hs.last() == h2,
    decreases n,
{
    if n == 0 {
        taken::lemma_still(read, states[0], h, h2);
        seq![h]
    } else {
        lemma_led_grew(layout, states, calls, n - 1);
        assert(trail::served(layout, states[n - 1], calls[n - 1], states[n - 1 + 1]));
        assert(collecting(calls[n - 1]));
        lemma_served_grew(layout, states[n - 1], calls[n - 1], states[n]);
        let hm = place::lemma_between(read, states[0], states[n - 1], states[n], h, h2);
        let hs = lemma_hops(read, layout, states, calls, n - 1, h, hm);
        lemma_hop(read, layout, states[n - 1], calls[n - 1], states[n], hm, h2);
        let all = hs.push(h2);
        let cs = calls.take(n);
        assert forall|i: int| 0 <= i < cs.len() implies hop(
            read,
            layout,
            all[i],
            #[trigger] cs[i],
            all[i + 1],
        ) by {
            if i < n - 1 {
                assert(calls.take(n - 1)[i] == cs[i]);
                assert(all[i] == hs[i] && all[i + 1] == hs[i + 1]);
            }
        }
        all
    }
}

proof fn lemma_part(
    read: Reading,
    layout: Layout,
    hs: Seq<Seq<Holdings>>,
    calls: Seq<Call>,
    lo: int,
    hi: int,
)
    requires
        hops(read, layout, hs, calls),
        0 <= lo <= hi <= calls.len(),
    ensures
        hops(read, layout, hs.subrange(lo, hi + 1), calls.subrange(lo, hi)),
        hs.subrange(lo, hi + 1)[0] == hs[lo],
        hs.subrange(lo, hi + 1).last() == hs[hi],
{
    let s = hs.subrange(lo, hi + 1);
    let c = calls.subrange(lo, hi);
    assert forall|i: int| 0 <= i < c.len() implies hop(read, layout, s[i], #[trigger] c[i], s[i + 1]) by {
        assert(c[i] == calls[lo + i]);
        assert(hop(read, layout, hs[lo + i], calls[lo + i], hs[lo + i + 1]));
    }
}

/// The manifest at `m`, as it is read, is `d` or references it.
pub open spec fn used_by(
    read: Reading,
    layout: Layout,
    h: Seq<Holdings>,
    m: Place,
    d: DigestView,
) -> bool {
    let order = layout.reads(m.0);
    exists|k: int| #[trigger]
        first_with(h, order, m, k) && collect::uses(read, h[order[k] as int], m, d)
}

/// A manifest, as it is read, is `d` or references it.
pub open spec fn used(read: Reading, layout: Layout, h: Seq<Holdings>, d: DigestView) -> bool {
    exists|m: Place| #[trigger] used_by(read, layout, h, m, d)
}

/// A repository of `repos`, or the one without a name, is on the store at `p`.
pub open spec fn reached(layout: Layout, repos: Seq<Seq<char>>, p: usize) -> bool {
    reached_by(layout, repos, p) || layout.holds(""@).contains(p)
}

pub open spec fn reached_by(layout: Layout, repos: Seq<Seq<char>>, p: usize) -> bool {
    exists|i: int| 0 <= i < repos.len() && layout.holds(#[trigger] repos[i]).contains(p)
}

/// Some store of those that hold a manifest is the first to be read.
proof fn lemma_first(h: Seq<Holdings>, order: Seq<usize>, m: Place, n: int)
    requires
        0 <= n < order.len(),
        h[order[n] as int].manifests.contains_key(m),
    ensures
        exists|k: int| first_with(h, order, m, k),
    decreases n,
{
    if exists|j: int| 0 <= j < n && h[#[trigger] order[j] as int].manifests.contains_key(m) {
        let j = choose|j: int|
            0 <= j < n && h[#[trigger] order[j] as int].manifests.contains_key(m);
        lemma_first(h, order, m, j);
    } else {
        assert(first_with(h, order, m, n));
    }
}

proof fn lemma_used(
    read: Reading,
    layout: Layout,
    h: Seq<Holdings>,
    m: Place,
    d: DigestView,
    k: int,
)
    requires
        first_with(h, layout.reads(m.0), m, k),
        collect::uses(read, h[layout.reads(m.0)[k] as int], m, d),
    ensures
        used_by(read, layout, h, m, d),
{
}

/// All calls are answered while the stores hold `h`.
spec fn all_answered(read: Reading, layout: Layout, h: Seq<Holdings>, calls: Seq<Call>) -> bool {
    forall|i: int| 0 <= i < calls.len() ==> hop(read, layout, h, #[trigger] calls[i], h)
}

proof fn lemma_repo_marked(
    read: Reading,
    layout: Layout,
    h: Seq<Holdings>,
    calls: Seq<Call>,
    repo: Seq<char>,
    d: DigestView,
)
    requires
        sane(layout, h.len()),
        gc::repo_marked(calls, repo),
        all_answered(read, layout, h, calls),
    ensures
        gc::marked(calls).contains(d) <==> exists|m: Place|
            #[trigger] used_by(read, layout, h, m, d) && m.0 == repo,
{
    collect::lemma_marked(calls, d);
    let ds = calls[0]->ListManifestDigests_reply->Ok_0;
    let order = layout.reads(repo);
    assert(hop(read, layout, h, calls[0], h));
    if gc::marked(calls).contains(d) {
        let i = choose|i: int| 0 <= i < calls.len() && gc::marks(#[trigger] calls[i]).contains(d);
        if i == 0 {
            assert(ds.contains(d));
            let p = choose|p: usize| #[trigger] layout.holds(repo).contains(p)
                && h[p as int].manifests.contains_key((repo, d));
            assert(order.contains(p));
            let n = choose|n: int| 0 <= n < order.len() && order[n] == p;
            lemma_first(h, order, (repo, d), n);
            let k = choose|k: int| first_with(h, order, (repo, d), k);
            assert(collect::uses(read, h[order[k] as int], (repo, d), d));
            lemma_used(read, layout, h, (repo, d), d, k);
        } else {
            let j = i - 1;
            assert(calls[1 + j] == calls[i]);
            assert(hop(read, layout, h, calls[i], h));
            let m = (repo, ds[j]);
            let k = choose|k: int| first_with(h, order, m, k);
            assert(first_with(h, order, m, k));
            assert(collect::uses(read, h[order[k] as int], m, d));
            lemma_used(read, layout, h, m, d, k);
        }
    }
    if exists|m: Place| #[trigger] used_by(read, layout, h, m, d) && m.0 == repo {
        let m = choose|m: Place| #[trigger] used_by(read, layout, h, m, d) && m.0 == repo;
        assert(m == (repo, m.1));
        let k = choose|k: int| #[trigger]
            first_with(h, order, m, k) && collect::uses(read, h[order[k] as int], m, d);
        assert(order.contains(order[k]));
        assert(layout.holds(repo).contains(order[k]));
        assert(has_manifest(h, layout.holds(repo), (repo, m.1)));
        assert(ds.contains(m.1));
        if m.1 == d {
            assert(gc::marks(calls[0]).contains(d));
        } else {
            let j = choose|j: int| 0 <= j < ds.len() && ds[j] == m.1;
            assert(calls[1 + j] is ManifestGet);
            assert(hop(read, layout, h, calls[1 + j], h));
            refers::lemma_has(read(h[order[k] as int].manifests[m])->0);
            assert(gc::marks(calls[1 + j]).contains(d));
        }
    }
}

proof fn lemma_repos_marked(
    read: Reading,
    layout: Layout,
    h: Seq<Holdings>,
    calls: Seq<Call>,
    repos: Seq<Seq<char>>,
    d: DigestView,
)
    requires
        sane(layout, h.len()),
        gc::repos_marked(calls, repos),
        all_answered(read, layout, h, calls),
    ensures
        gc::marked(calls).contains(d) <==> exists|m: Place|
            #[trigger] used_by(read, layout, h, m, d) && repos.contains(m.0),
    decreases repos.len(),
{
    if repos.len() == 0 {
        assert(calls =~= Seq::<Call>::empty());
    } else {
        let n = choose|n: int|
            0 <= n <= calls.len() && #[trigger] gc::repo_marked(
                calls.subrange(n, calls.len() as int),
                repos.last(),
            ) && gc::repos_marked(calls.subrange(0, n), repos.drop_last());
        let a = calls.subrange(0, n);
        let b = calls.subrange(n, calls.len() as int);
        let rest = repos.drop_last();
        assert(all_answered(read, layout, h, a)) by {
            assert forall|i: int| 0 <= i < a.len() implies hop(read, layout, h, #[trigger] a[i], h) by {
                assert(a[i] == calls[i]);
            }
        }
        assert(all_answered(read, layout, h, b)) by {
            assert forall|i: int| 0 <= i < b.len() implies hop(read, layout, h, #[trigger] b[i], h) by {
                assert(b[i] == calls[n + i]);
            }
        }
        lemma_repos_marked(read, layout, h, a, rest, d);
        lemma_repo_marked(read, layout, h, b, repos.last(), d);
        assert(a + b =~= calls);
        collect::lemma_marked_concat(a, b);
        if exists|m: Place| #[trigger] used_by(read, layout, h, m, d) && repos.contains(m.0) {
            let m = choose|m: Place| #[trigger]
                used_by(read, layout, h, m, d) && repos.contains(m.0);
            let i = choose|i: int| 0 <= i < repos.len() && repos[i] == m.0;
            if i < rest.len() {
                assert(rest[i] == m.0);
                assert(rest.contains(m.0));
            }
        }
        if exists|m: Place| #[trigger] used_by(read, layout, h, m, d) && rest.contains(m.0) {
            let m = choose|m: Place| #[trigger] used_by(read, layout, h, m, d) && rest.contains(m.0);
            let i = choose|i: int| 0 <= i < rest.len() && rest[i] == m.0;
            assert(repos[i] == m.0);
            assert(repos.contains(m.0));
        }
        assert(repos[repos.len() - 1] == repos.last());
    }
}

/// The blob is gone from the stores at which `at` holds; all else is as it was.
spec fn cleared(
    a: Seq<Holdings>,
    b: Seq<Holdings>,
    blob: DigestView,
    at: spec_fn(usize) -> bool,
) -> bool {
    &&& b.len() == a.len()
    &&& forall|p: usize|
        p < a.len() ==> #[trigger] b[p as int] == if at(p) {
            collect::without_blob(a[p as int], blob)
        } else {
            a[p as int]
        }
}

proof fn lemma_deletion(
    read: Reading,
    layout: Layout,
    hs: Seq<Seq<Holdings>>,
    calls: Seq<Call>,
    repo: Seq<char>,
    blob: DigestView,
)
    requires
        hops(read, layout, hs, calls),
        calls.len() == 2,
        gc::deletion(calls[0], calls[1], repo, blob),
    ensures
        cleared(hs[0], hs.last(), blob, |p: usize| layout.holds(repo).contains(p)),
{
    assert(hop(read, layout, hs[0], calls[0], hs[1]));
    assert(hop(read, layout, hs[1], calls[1], hs[2]));
}

/// Where no store holds the blob, it is gone from there.
proof fn lemma_absent(layout: Layout, h: Seq<Holdings>, repo: Seq<char>, blob: DigestView)
    requires
        sane(layout, h.len()),
        !has_blob(h, layout.reads(repo), blob),
        h.len() <= usize::MAX,
    ensures
        cleared(h, h, blob, |p: usize| layout.holds(repo).contains(p)),
{
    assert forall|p: usize| p < h.len() implies #[trigger] h[p as int] == if layout.holds(
        repo,
    ).contains(p) {
        collect::without_blob(h[p as int], blob)
    } else {
        h[p as int]
    } by {
        if layout.holds(repo).contains(p) {
            assert(layout.reads(repo).contains(p));
            assert(!h[p as int].blobs.contains_key(blob));
            assert(h[p as int].blobs.remove(blob) =~= h[p as int].blobs);
        }
    }
}

proof fn lemma_repo_swept(
    read: Reading,
    layout: Layout,
    hs: Seq<Seq<Holdings>>,
    calls: Seq<Call>,
    repo: Seq<char>,
    blob: DigestView,
)
    requires
        sane(layout, hs[0].len()),
        hs[0].len() <= usize::MAX,
        hops(read, layout, hs, calls),
        gc::repo_swept(calls, repo, blob),
    ensures
        cleared(hs[0], hs.last(), blob, |p: usize| layout.holds(repo).contains(p)),
{
    assert(hop(read, layout, hs[0], calls[0], hs[1]));
    if gc::there(calls[0]) {
        let rest = calls.subrange(1, 3);
        lemma_part(read, layout, hs, calls, 1, 3);
        lemma_deletion(read, layout, hs.subrange(1, 4), rest, repo, blob);
    } else {
        lemma_absent(layout, hs[0], repo, blob);
    }
}

proof fn lemma_cleared_twice(
    a: Seq<Holdings>,
    b: Seq<Holdings>,
    c: Seq<Holdings>,
    blob: DigestView,
    x: spec_fn(usize) -> bool,
    y: spec_fn(usize) -> bool,
    z: spec_fn(usize) -> bool,
)
    requires
        cleared(a, b, blob, x),
        cleared(b, c, blob, y),
        forall|p: usize| #[trigger] z(p) <==> x(p) || y(p),
    ensures
        cleared(a, c, blob, z),
{
    assert forall|p: usize| p < a.len() implies #[trigger] c[p as int] == if z(p) {
        collect::without_blob(a[p as int], blob)
    } else {
        a[p as int]
    } by {
        assert(b[p as int] == if x(p) {
            collect::without_blob(a[p as int], blob)
        } else {
            a[p as int]
        });
        assert(z(p) <==> x(p) || y(p));
        assert(a[p as int].blobs.remove(blob).remove(blob) =~= a[p as int].blobs.remove(blob));
    }
}

proof fn lemma_repos_swept(
    read: Reading,
    layout: Layout,
    hs: Seq<Seq<Holdings>>,
    calls: Seq<Call>,
    repos: Seq<Seq<char>>,
    blob: DigestView,
)
    requires
        sane(layout, hs[0].len()),
        hs[0].len() <= usize::MAX,
        hops(read, layout, hs, calls),
        gc::repos_swept(calls, repos, blob),
    ensures
        cleared(hs[0], hs.last(), blob, |p: usize| reached_by(layout, repos, p)),
    decreases repos.len(),
{
    let z = |p: usize| reached_by(layout, repos, p);
    if repos.len() > 0 {
        let n = choose|n: int|
            0 <= n <= calls.len() && #[trigger] gc::repo_swept(
                calls.subrange(n, calls.len() as int),
                repos.last(),
                blob,
            ) && gc::repos_swept(calls.subrange(0, n), repos.drop_last(), blob);
        let e = calls.len() as int;
        let rest = repos.drop_last();
        lemma_part(read, layout, hs, calls, 0, n);
        lemma_part(read, layout, hs, calls, n, e);
        lemma_repos_swept(read, layout, hs.subrange(0, n + 1), calls.subrange(0, n), rest, blob);
        lemma_repo_swept(
            read,
            layout,
            hs.subrange(n, e + 1),
            calls.subrange(n, e),
            repos.last(),
            blob,
        );
        let x = |p: usize| reached_by(layout, rest, p);
        let y = |p: usize| layout.holds(repos.last()).contains(p);
        assert forall|p: usize| #[trigger] z(p) <==> x(p) || y(p) by {
            if reached_by(layout, repos, p) {
                let i = choose|i: int|
                    0 <= i < repos.len() && layout.holds(#[trigger] repos[i]).contains(p);
                if i < rest.len() {
                    assert(layout.holds(rest[i]).contains(p));
                }
            }
            if reached_by(layout, rest, p) {
                let i = choose|i: int|
                    0 <= i < rest.len() && layout.holds(#[trigger] rest[i]).contains(p);
                assert(layout.holds(repos[i]).contains(p));
            }
            assert(repos[repos.len() - 1] == repos.last());
        }
        lemma_cleared_twice(hs[0], hs[n], hs.last(), blob, x, y, z);
    } else {
        assert forall|p: usize| !(#[trigger] z(p)) by {}
    }
}

proof fn lemma_blob_swept(
    read: Reading,
    layout: Layout,
    hs: Seq<Seq<Holdings>>,
    calls: Seq<Call>,
    repos: Seq<Seq<char>>,
    blob: DigestView,
)
    requires
        sane(layout, hs[0].len()),
        hs[0].len() <= usize::MAX,
        hops(read, layout, hs, calls),
        gc::blob_swept(calls, repos, blob),
    ensures
        cleared(hs[0], hs.last(), blob, |p: usize| reached(layout, repos, p)),
{
    let k = choose|k: int| #[trigger] gc::swept_at(calls, repos, blob, k);
    let e = calls.len() as int;
    lemma_part(read, layout, hs, calls, 0, k);
    lemma_repos_swept(read, layout, hs.subrange(0, k + 1), calls.subrange(0, k), repos, blob);
    let x = |p: usize| reached_by(layout, repos, p);
    let y = |p: usize| layout.holds(""@).contains(p);
    let z = |p: usize| reached(layout, repos, p);
    assert(hop(read, layout, hs[k], calls[k], hs[k + 1]));
    assert(hs[k].len() == hs[0].len());
    if calls.len() == k + 3 {
        let rest = calls.subrange(k + 1, k + 3);
        lemma_part(read, layout, hs, calls, k + 1, k + 3);
        assert(rest[0] == calls[k + 1] && rest[1] == calls[k + 2]);
        lemma_deletion(read, layout, hs.subrange(k + 1, k + 4), rest, ""@, blob);
    } else {
        lemma_absent(layout, hs[k], ""@, blob);
    }
    lemma_cleared_twice(hs[0], hs[k], hs.last(), blob, x, y, z);
}

/// The blobs that are not in `live` are gone from the stores that were reached.
spec fn swept(
    layout: Layout,
    a: Seq<Holdings>,
    b: Seq<Holdings>,
    repos: Seq<Seq<char>>,
    live: Set<DigestView>,
    blobs: Seq<DigestView>,
) -> bool {
    &&& b.len() == a.len()
    &&& forall|p: usize|
        p < a.len() ==> swept_at(layout, #[trigger] a[p as int], b[p as int], repos, live, blobs, p)
}

spec fn swept_at(
    layout: Layout,
    a: Holdings,
    b: Holdings,
    repos: Seq<Seq<char>>,
    live: Set<DigestView>,
    blobs: Seq<DigestView>,
    p: usize,
) -> bool {
    &&& b.manifests == a.manifests
    &&& b.tags == a.tags
    &&& b.uploads == a.uploads
    &&& forall|d: DigestView| #[trigger]
        b.blobs.contains_key(d) <==> a.blobs.contains_key(d) && (live.contains(d)
            || !blobs.contains(d) || !reached(layout, repos, p))
    &&& forall|d: DigestView| #[trigger] b.blobs.contains_key(d) ==> b.blobs[d] == a.blobs[d]
}

proof fn lemma_blobs_swept(
    read: Reading,
    layout: Layout,
    hs: Seq<Seq<Holdings>>,
    calls: Seq<Call>,
    repos: Seq<Seq<char>>,
    live: Set<DigestView>,
    blobs: Seq<DigestView>,
)
    requires
        sane(layout, hs[0].len()),
        hs[0].len() <= usize::MAX,
        hops(read, layout, hs, calls),
        gc::blobs_swept(calls, repos, live, blobs),
    ensures
        swept(layout, hs[0], hs.last(), repos, live, blobs),
    decreases blobs.len(),
{
    if blobs.len() > 0 {
        let rest = blobs.drop_last();
        assert forall|d: DigestView| #[trigger] blobs.contains(d) <==> rest.contains(d) || d
            == blobs.last() by {
            if blobs.contains(d) {
                let i = choose|i: int| 0 <= i < blobs.len() && blobs[i] == d;
                if i < rest.len() {
                    assert(rest[i] == d);
                }
            }
            if rest.contains(d) {
                let i = choose|i: int| 0 <= i < rest.len() && rest[i] == d;
                assert(blobs[i] == d);
            }
            assert(blobs[blobs.len() - 1] == blobs.last());
        }
        if live.contains(blobs.last()) {
            lemma_blobs_swept(read, layout, hs, calls, repos, live, rest);
            assert forall|p: usize| p < hs[0].len() implies swept_at(
                layout,
                #[trigger] hs[0][p as int],
                hs.last()[p as int],
                repos,
                live,
                blobs,
                p,
            ) by {
                assert(swept_at(
                    layout,
                    hs[0][p as int],
                    hs.last()[p as int],
                    repos,
                    live,
                    rest,
                    p,
                ));
            }
        } else {
            let n = choose|n: int|
                0 <= n <= calls.len() && #[trigger] gc::blob_swept(
                    calls.subrange(n, calls.len() as int),
                    repos,
                    blobs.last(),
                ) && gc::blobs_swept(calls.subrange(0, n), repos, live, rest);
            let e = calls.len() as int;
            lemma_part(read, layout, hs, calls, 0, n);
            lemma_part(read, layout, hs, calls, n, e);
            lemma_blobs_swept(
                read,
                layout,
                hs.subrange(0, n + 1),
                calls.subrange(0, n),
                repos,
                live,
                rest,
            );
            assert(hs[n].len() == hs[0].len());
            lemma_blob_swept(
                read,
                layout,
                hs.subrange(n, e + 1),
                calls.subrange(n, e),
                repos,
                blobs.last(),
            );
            let z = |p: usize| reached(layout, repos, p);
            assert(cleared(hs[n], hs.last(), blobs.last(), z));
            assert forall|p: usize| p < hs[0].len() implies swept_at(
                layout,
                #[trigger] hs[0][p as int],
                hs.last()[p as int],
                repos,
                live,
                blobs,
                p,
            ) by {
                assert(swept_at(layout, hs[0][p as int], hs[n][p as int], repos, live, rest, p));
                assert(hs.last()[p as int] == if z(p) {
                    collect::without_blob(hs[n][p as int], blobs.last())
                } else {
                    hs[n][p as int]
                });
            }
        }
    }
}

/// While calls change nothing, the stores hold the same.
proof fn lemma_quiet(
    read: Reading,
    layout: Layout,
    hs: Seq<Seq<Holdings>>,
    calls: Seq<Call>,
    n: int,
)
    requires
        hops(read, layout, hs, calls),
        0 <= n <= calls.len(),
        forall|i: int|
            0 <= i < n ==> model::quiet(#[trigger] calls[i]) && careful_kind(calls[i]),
    ensures
        forall|i: int| 0 <= i <= n ==> #[trigger] hs[i] == hs[0],
    decreases n,
{
    if n > 0 {
        lemma_quiet(read, layout, hs, calls, n - 1);
        assert(model::quiet(calls[n - 1]) && careful_kind(calls[n - 1]));
        assert(hop(read, layout, hs[n - 1], calls[n - 1], hs[n - 1 + 1]));
        assert forall|i: int| 0 <= i <= n implies #[trigger] hs[i] == hs[0] by {
            if i == n {
                assert(hs[n] == hs[n - 1]);
            }
        }
    }
}

/// A call of a collection that names manifests by digest.
spec fn careful_kind(c: Call) -> bool {
    collecting(c) && (c is ManifestGet ==> c->ManifestGet_reference is Digest)
}

proof fn lemma_marking_by_digest(calls: Seq<Call>, repos: Seq<Seq<char>>)
    requires
        gc::repos_marked(calls, repos),
    ensures
        forall|i: int| 0 <= i < calls.len() ==> model::quiet(#[trigger] calls[i]) && careful_kind(
            calls[i],
        ),
    decreases repos.len(),
{
    if repos.len() > 0 {
        let n = choose|n: int|
            0 <= n <= calls.len() && #[trigger] gc::repo_marked(
                calls.subrange(n, calls.len() as int),
                repos.last(),
            ) && gc::repos_marked(calls.subrange(0, n), repos.drop_last());
        let a = calls.subrange(0, n);
        let b = calls.subrange(n, calls.len() as int);
        lemma_marking_by_digest(a, repos.drop_last());
        assert forall|i: int| 0 <= i < calls.len() implies model::quiet(#[trigger] calls[i])
            && careful_kind(calls[i]) by {
            if i < n {
                assert(a[i] == calls[i]);
            } else {
                assert(b[i - n] == calls[i]);
                if i > n {
                    assert(b[1 + (i - n - 1)] is ManifestGet);
                }
            }
        }
    }
}

/// What a collection did to the stores behind it: a blob is gone from every store that
/// a listed repository, or the one without a name, is placed on, exactly when no
/// manifest uses it; nothing else has changed anywhere.
pub open spec fn swept_up(
    read: Reading,
    layout: Layout,
    h: Seq<Holdings>,
    h2: Seq<Holdings>,
) -> bool {
    &&& h2.len() == h.len()
    &&& forall|p: usize|
        p < h.len() ==> {
            &&& (#[trigger] h2[p as int]).manifests == h[p as int].manifests
            &&& h2[p as int].tags == h[p as int].tags
            &&& h2[p as int].uploads == h[p as int].uploads
            &&& forall|d: DigestView| #[trigger]
                h2[p as int].blobs.contains_key(d) <==> h[p as int].blobs.contains_key(d) && (used(
                    read,
                    layout,
                    h,
                    d,
                ) || !in_reach(layout, h, p))
            &&& forall|d: DigestView| #[trigger]
                h2[p as int].blobs.contains_key(d) ==> h2[p as int].blobs[d] == h[p as int].blobs[d]
        }
}

/// A repository that one of the stores knows, or the one without a name, is placed on
/// the store at `p`.
pub open spec fn in_reach(layout: Layout, h: Seq<Holdings>, p: usize) -> bool {
    layout.holds(""@).contains(p) || exists|repo: Seq<char>| #[trigger]
        layout.holds(repo).contains(p) && known(h, layout.everywhere(), repo)
}

proof fn lemma_collected(
    read: Reading,
    layout: Layout,
    hs: Seq<Seq<Holdings>>,
    calls: Seq<Call>,
    report: GcReport,
)
    requires
        sane(layout, hs[0].len()),
        hs[0].len() <= usize::MAX,
        hops(read, layout, hs, calls),
        gc::collected(calls, report),
    ensures
        swept_up(read, layout, hs[0], hs.last()),
{
    let (repos, blobs, m) = choose|repos: Seq<Seq<char>>, blobs: Seq<DigestView>, m: int|
        #[trigger] gc::phases(calls, repos, blobs, m);
    let e = calls.len() as int;
    let h = hs[0];
    let h2 = hs.last();
    let marking = calls.subrange(1, m);
    let live = gc::marked(marking);
    lemma_marking_by_digest(marking, repos);
    assert forall|i: int| 0 <= i < m + 1 implies model::quiet(#[trigger] calls[i]) && careful_kind(
        calls[i],
    ) by {
        if 1 <= i < m {
            assert(marking[i - 1] == calls[i]);
        }
    }
    lemma_quiet(read, layout, hs, calls, m + 1);
    assert(all_answered(read, layout, h, marking)) by {
        assert forall|i: int| 0 <= i < marking.len() implies hop(
            read,
            layout,
            h,
            #[trigger] marking[i],
            h,
        ) by {
            assert(marking[i] == calls[1 + i]);
            assert(hop(read, layout, hs[1 + i], calls[1 + i], hs[1 + i + 1]));
            assert(hs[1 + i] == hs[0] && hs[1 + i + 1] == hs[0]);
        }
    }
    assert(hop(read, layout, hs[0], calls[0], hs[1]));
    assert(hop(read, layout, hs[m], calls[m], hs[m + 1]));
    assert(hs[m] == h && hs[m + 1] == h);
    let listed = calls[0]->ListRepos_reply->Ok_0;
    assert(listed == repos);
    assert forall|d: DigestView| #[trigger] live.contains(d) <==> used(read, layout, h, d) by {
        lemma_repos_marked(read, layout, h, marking, repos, d);
        if used(read, layout, h, d) {
            let x = choose|x: Place| #[trigger] used_by(read, layout, h, x, d);
            let order = layout.reads(x.0);
            let k = choose|k: int| #[trigger]
                first_with(h, order, x, k) && collect::uses(read, h[order[k] as int], x, d);
            assert(order.contains(order[k]));
            assert(layout.holds(x.0).contains(order[k]));
            assert(layout.everywhere().contains(order[k]));
            assert(h[order[k] as int].manifests.contains_key((x.0, x.1)));
            assert(h[order[k] as int].knows(x.0));
            assert(known(h, layout.everywhere(), x.0));
            assert(listed.contains(x.0));
        }
    }
    lemma_part(read, layout, hs, calls, m + 1, e);
    lemma_blobs_swept(
        read,
        layout,
        hs.subrange(m + 1, e + 1),
        calls.subrange(m + 1, e),
        repos,
        live,
        blobs,
    );
    assert forall|p: usize| p < h.len() implies {
        &&& (#[trigger] h2[p as int]).manifests == h[p as int].manifests
        &&& h2[p as int].tags == h[p as int].tags
        &&& h2[p as int].uploads == h[p as int].uploads
        &&& forall|d: DigestView| #[trigger]
            h2[p as int].blobs.contains_key(d) <==> h[p as int].blobs.contains_key(d) && (used(
                read,
                layout,
                h,
                d,
            ) || !in_reach(layout, h, p))
        &&& forall|d: DigestView| #[trigger]
            h2[p as int].blobs.contains_key(d) ==> h2[p as int].blobs[d] == h[p as int].blobs[d]
    } by {
        assert(swept_at(layout, h[p as int], h2[p as int], repos, live, blobs, p));
        lemma_reach(layout, h, repos, p);
        assert forall|d: DigestView| #[trigger]
            h2[p as int].blobs.contains_key(d) <==> h[p as int].blobs.contains_key(d) && (used(
                read,
                layout,
                h,
                d,
            ) || !in_reach(layout, h, p)) by {
            assert(live.contains(d) <==> used(read, layout, h, d));
            if h[p as int].blobs.contains_key(d) && in_reach(layout, h, p) {
                assert(layout.everywhere().contains(p)) by {
                    if layout.holds(""@).contains(p) {
                    } else {
                        let repo = choose|repo: Seq<char>| #[trigger]
                            layout.holds(repo).contains(p) && known(h, layout.everywhere(), repo);
                        assert(layout.holds(repo).contains(p));
                    }
                }
                assert(has_blob(h, layout.everywhere(), d));
                assert(calls[m]->ListAllBlobs_reply->Ok_0.contains(d));
                assert(blobs.contains(d));
            }
        }
    }
}

proof fn lemma_reach(layout: Layout, h: Seq<Holdings>, repos: Seq<Seq<char>>, p: usize)
    requires
        forall|r: Seq<char>| #[trigger]
            repos.contains(r) <==> known(h, layout.everywhere(), r),
    ensures
        reached(layout, repos, p) <==> in_reach(layout, h, p),
{
    if reached_by(layout, repos, p) {
        let i = choose|i: int|
            0 <= i < repos.len() && layout.holds(#[trigger] repos[i]).contains(p);
        assert(repos.contains(repos[i]));
        assert(layout.holds(repos[i]).contains(p) && known(h, layout.everywhere(), repos[i]));
    }
    if exists|repo: Seq<char>| #[trigger]
        layout.holds(repo).contains(p) && known(h, layout.everywhere(), repo) {
        let repo = choose|repo: Seq<char>| #[trigger]
            layout.holds(repo).contains(p) && known(h, layout.everywhere(), repo);
        assert(repos.contains(repo));
        let i = choose|i: int| 0 <= i < repos.len() && repos[i] == repo;
        assert(layout.holds(repos[i]).contains(p));
    }
}

proof fn lemma_calls_collect(calls: Seq<Call>)
    requires
        gc::careful(calls),
    ensures
        forall|i: int| 0 <= i < calls.len() ==> collecting(#[trigger] calls[i]),
{
    assert forall|i: int| 0 <= i < calls.len() implies collecting(#[trigger] calls[i]) by {
        assert(gc::careful_call(calls.take(i), calls[i]));
    }
}

proof fn lemma_followed<S: Storage>(
    read: Reading,
    layout: Layout,
    was: Seq<Partition<S>>,
    now: Seq<Partition<S>>,
    h: Seq<Holdings>,
    h2: Seq<Holdings>,
    calls: Seq<Call>,
    report: GcReport,
)
    requires
        sane(layout, was.len()),
        was.len() <= usize::MAX,
        trail::followed(layout, was, calls, now),
        gc::careful(calls),
        gc::collected(calls, report),
        place::evolves(read, was, now, h, h2),
    ensures
        swept_up(read, layout, h, h2),
{
    let states = choose|states: Seq<Seq<Partition<S>>>| #[trigger]
        trail::led(layout, states, calls) && states[0] == was && states.last() == now;
    lemma_calls_collect(calls);
    let hs = lemma_hops(read, layout, states, calls, calls.len() as int, h, h2);
    assert(calls.take(calls.len() as int) =~= calls);
    lemma_collected(read, layout, hs, calls, report);
}

/// What requests did to the volumes of a router can be told from the calls that they
/// added to its record.
pub proof fn calls_over_a_router<S: Storage>(was: RepoRouter<S>, now: RepoRouter<S>)
    requires
        was.begins(),
        now.wf(),
        now.origin() == was.origin(),
        storage::extends(was.log(), now.log()),
    ensures
        now.table() == was.table(),
        trail::followed(
            was.layout(),
            was.volumes@,
            storage::added(was.log(), now.log()),
            now.volumes@,
        ),
{
    trail::lemma_begun(now.layout(), now.log(), now.volumes@);
    assert(now.path().layout == was.layout());
    trail::lemma_followed(now.path(), was.log(), now.log(), now.volumes@);
}

/// The same for the partitions of a composed store.
pub proof fn calls_over_partitions<S: Storage>(was: MultiStore<S>, now: MultiStore<S>)
    requires
        was.begins(),
        now.wf(),
        now.origin() == was.origin(),
        storage::extends(was.log(), now.log()),
    ensures
        now.primary == was.primary,
        trail::followed(
            was.layout(),
            was.partitions@,
            storage::added(was.log(), now.log()),
            now.partitions@,
        ),
{
    trail::lemma_begun(now.layout(), now.log(), now.partitions@);
    assert(now.path().layout == was.layout());
    trail::lemma_followed(now.path(), was.log(), now.log(), now.partitions@);
}

/// A collection over a router whose volumes work sweeps them up.
pub proof fn collection_over_a_router<S: Storage>(
    read: Reading,
    was: RepoRouter<S>,
    now: RepoRouter<S>,
    h: Seq<Holdings>,
    h2: Seq<Holdings>,
    report: GcReport,
)
    requires
        was.wf(),
        was.begins(),
        now.wf(),
        now.origin() == was.origin(),
        storage::extends(was.log(), now.log()),
        gc::careful(storage::added(was.log(), now.log())),
        gc::collected(storage::added(was.log(), now.log()), report),
        place::evolves(read, was.volumes@, now.volumes@, h, h2),
    ensures
        swept_up(read, was.layout(), h, h2),
{
    let calls = storage::added(was.log(), now.log());
    let layout = was.layout();
    assert(was.volumes.len() == was.volumes@.len());
    assert(was.table().len() == was.rules@.len());
    rules_are_sane(was.table(), was.volumes@.len());
    calls_over_a_router(was, now);
    lemma_followed(read, layout, was.volumes@, now.volumes@, h, h2, calls, report);
}

/// A collection over partitions that work sweeps them up.
pub proof fn collection_over_partitions<S: Storage>(
    read: Reading,
    was: MultiStore<S>,
    now: MultiStore<S>,
    h: Seq<Holdings>,
    h2: Seq<Holdings>,
    report: GcReport,
)
    requires
        was.wf(),
        was.begins(),
        now.wf(),
        now.origin() == was.origin(),
        storage::extends(was.log(), now.log()),
        gc::careful(storage::added(was.log(), now.log())),
        gc::collected(storage::added(was.log(), now.log()), report),
        place::evolves(read, was.partitions@, now.partitions@, h, h2),
    ensures
        swept_up(read, was.layout(), h, h2),
{
    let calls = storage::added(was.log(), now.log());
    let layout = was.layout();
    assert(was.partitions.len() == was.partitions@.len());
    partitions_are_sane(was.partitions@.len(), was.primary);
    calls_over_partitions(was, now);
    lemma_followed(read, layout, was.partitions@, now.partitions@, h, h2, calls, report);
}

/// A blob that no manifest uses, and that is only where repositories are placed, is on no
/// list after a collection.
pub proof fn swept_blob_is_not_listed(
    read: Reading,
    layout: Layout,
    h: Seq<Holdings>,
    h2: Seq<Holdings>,
    d: DigestView,
    c: Call,
    h3: Seq<Holdings>,
)
    requires
        sane(layout, h.len()),
        swept_up(read, layout, h, h2),
        !used(read, layout, h, d),
        forall|p: usize| #[trigger]
            layout.everywhere().contains(p) && h[p as int].blobs.contains_key(d) ==> in_reach(
                layout,
                h,
                p,
            ),
        hop(read, layout, h2, c, h3),
        c is ListAllBlobs,
    ensures
        c->ListAllBlobs_reply is Ok,
        !c->ListAllBlobs_reply->Ok_0.contains(d),
{
    let order = layout.everywhere();
    if has_blob(h2, order, d) {
        let p = choose|p: usize| #[trigger] order.contains(p) && h2[p as int].blobs.contains_key(d);
        let i = choose|i: int| 0 <= i < order.len() && order[i] == p;
        assert(order[i] < h.len());
        assert(h2[p as int].blobs.contains_key(d));
    }
}

/// The calls that quotas have a say in.
pub open spec fn is_limited(c: Call) -> bool {
    c is BlobWrite || c is UploadFinalize
}

/// Quotas hand on every other call: what it did to the volumes can be told as if the
/// router had been asked.
pub proof fn calls_over_quotas<S: Storage>(was: QuotaStorage<S>, now: QuotaStorage<S>)
    requires
        was.begins(),
        now.wf(),
        now.origin() == was.origin(),
        storage::extends(was.log(), now.log()),
        forall|i: int|
            was.log().len() <= i < now.log().len() ==> !is_limited(#[trigger] now.log()[i]),
    ensures
        trail::followed(
            was.router.layout(),
            was.router.volumes@,
            storage::added(was.log(), now.log()),
            now.router.volumes@,
        ),
{
    let calls = storage::added(was.log(), now.log());
    let layout = was.router.layout();
    taken::calls_tell_what_was_done(was, now);
    let states = choose|states: Seq<Stand<S>>| #[trigger]
        quota::led(was.terms(), states, calls) && states[0] == was.stand() && states.last()
            == now.stand();
    let volumes = Seq::new(states.len(), |i: int| states[i].volumes);
    assert forall|i: int| 0 <= i < calls.len() implies trail::served(
        layout,
        volumes[i],
        #[trigger] calls[i],
        volumes[i + 1],
    ) by {
        assert(calls[i] == now.log()[was.log().len() + i]);
        assert(!is_limited(calls[i]));
        assert(quota::answered(was.terms(), states[i], calls[i], states[i + 1]));
        let (x, y) = choose|x: QuotaStorage<S>, y: QuotaStorage<S>| #[trigger]
            quota::handled(x, y, calls[i]) && x.terms() == was.terms() && x.stand() == states[i]
                && y.stand() == states[i + 1];
        assert(x.router.layout() == layout);
    }
    assert(trail::led(layout, volumes, calls));
    assert(volumes[0] == was.router.volumes@);
    assert(volumes.last() == now.router.volumes@);
}

/// A collection over a store with quotas whose volumes work sweeps them up.
pub proof fn collection_over_quotas<S: Storage>(
    read: Reading,
    was: QuotaStorage<S>,
    now: QuotaStorage<S>,
    h: Seq<Holdings>,
    h2: Seq<Holdings>,
    report: GcReport,
)
    requires
        was.wf(),
        was.begins(),
        now.wf(),
        now.origin() == was.origin(),
        storage::extends(was.log(), now.log()),
        gc::careful(storage::added(was.log(), now.log())),
        gc::collected(storage::added(was.log(), now.log()), report),
        place::evolves(read, was.router.volumes@, now.router.volumes@, h, h2),
    ensures
        swept_up(read, was.router.layout(), h, h2),
{
    let calls = storage::added(was.log(), now.log());
    let router = was.router;
    assert(router.volumes.len() == router.volumes@.len());
    assert(router.table().len() == router.rules@.len());
    rules_are_sane(router.table(), router.volumes@.len());
    lemma_calls_collect(calls);
    assert forall|i: int| was.log().len() <= i < now.log().len() implies !is_limited(
        #[trigger] now.log()[i],
    ) by {
        assert(calls[i - was.log().len()] == now.log()[i]);
        assert(collecting(calls[i - was.log().len()]));
    }
    calls_over_quotas(was, now);
    lemma_followed(
        read,
        router.layout(),
        router.volumes@,
        now.router.volumes@,
        h,
        h2,
        calls,
        report,
    );
}

} // verus!
