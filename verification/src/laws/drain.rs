//! A drain leaves nothing behind of the repositories that moved.

use vstd::prelude::*;

use crate::digest::DigestView;
use crate::gc;
use crate::laws::collect;
use crate::migrate;
use crate::model;
use crate::model::{Holdings, Reading};
use crate::storage::Call;

verus! {

/// The store has no manifest and no tag of the repository.
pub open spec fn is_empty(h: Holdings, repo: Seq<char>) -> bool {
    &&& forall|d: DigestView| !(#[trigger] h.manifests.contains_key((repo, d)))
    &&& forall|t: Seq<char>| !(#[trigger] h.tags.contains_key((repo, t)))
}

/// The call looks at something, or deletes a manifest or a tag.
spec fn takes(c: Call) -> bool {
    c is ListTags || c is ListManifestDigests || c is ManifestDelete
}

proof fn lemma_stays_empty(
    read: Reading,
    hs: Seq<Holdings>,
    t: Seq<Call>,
    repo: Seq<char>,
    n: int,
)
    requires
        model::works(read, hs, t),
        forall|i: int| 0 <= i < t.len() ==> takes(#[trigger] t[i]),
        is_empty(hs[0], repo),
        0 <= n <= t.len(),
    ensures
        is_empty(hs[n], repo),
    decreases n,
{
    if n > 0 {
        lemma_stays_empty(read, hs, t, repo, n - 1);
        assert(takes(t[n - 1]));
        assert(model::step(read, hs[n - 1], t[n - 1], hs[n - 1 + 1]));
    }
}

proof fn lemma_purge_takes(t: Seq<Call>, repo: Seq<char>)
    requires
        migrate::purged(t, repo),
    ensures
        forall|i: int| 0 <= i < t.len() ==> takes(#[trigger] t[i]),
{
    let n = t[0]->ListTags_reply->Ok_0.len() as int;
    assert forall|i: int| 0 <= i < t.len() implies takes(#[trigger] t[i]) by {
        if 1 <= i <= n {
            assert(t[1 + (i - 1)] is ManifestDelete);
        } else if i > n + 1 {
            assert(t[n + 2 + (i - n - 2)] is ManifestDelete);
        }
    }
}

/// Of the tags those are left that were not deleted yet.
proof fn lemma_tags_left(read: Reading, hs: Seq<Holdings>, t: Seq<Call>, repo: Seq<char>, k: int)
    requires
        model::works(read, hs, t),
        migrate::purged(t, repo),
        0 <= k <= t[0]->ListTags_reply->Ok_0.len(),
    ensures
        forall|x: Seq<char>| #[trigger]
            hs[k + 1].tags.contains_key((repo, x)) ==> exists|j: int|
                k <= j < t[0]->ListTags_reply->Ok_0.len() && #[trigger] t[0]->ListTags_reply->Ok_0[j]
                    == x,
    decreases k,
{
    let tags = t[0]->ListTags_reply->Ok_0;
    if k == 0 {
        assert(model::step(read, hs[0], t[0], hs[1]));
        assert forall|x: Seq<char>| #[trigger] hs[k + 1].tags.contains_key((repo, x)) implies exists|
            j: int,
        |
            k <= j < tags.len() && #[trigger] tags[j] == x by {
            assert(tags.contains(x));
        }
    } else {
        lemma_tags_left(read, hs, t, repo, k - 1);
        let c = t[1 + (k - 1)];
        assert(c is ManifestDelete);
        assert(model::step(read, hs[k], t[k], hs[k + 1]));
        assert forall|x: Seq<char>| #[trigger] hs[k + 1].tags.contains_key((repo, x)) implies exists|
            j: int,
        |
            k <= j < tags.len() && #[trigger] tags[j] == x by {
            assert(hs[k - 1 + 1].tags.contains_key((repo, x)));
            let j = choose|j: int| k - 1 <= j < tags.len() && #[trigger] tags[j] == x;
            assert(x != tags[k - 1]);
            assert(j != k - 1);
        }
    }
}

/// Of the manifests those are left that were not deleted yet, and no tag.
proof fn lemma_manifests_left(
    read: Reading,
    hs: Seq<Holdings>,
    t: Seq<Call>,
    repo: Seq<char>,
    n: int,
    k: int,
)
    requires
        model::works(read, hs, t),
        migrate::purged(t, repo),
        n == t[0]->ListTags_reply->Ok_0.len(),
        0 <= k <= t[n + 1]->ListManifestDigests_reply->Ok_0.len(),
    ensures
        forall|x: DigestView| #[trigger]
            hs[n + 2 + k].manifests.contains_key((repo, x)) ==> exists|j: int|
                k <= j < t[n + 1]->ListManifestDigests_reply->Ok_0.len()
                    && #[trigger] t[n + 1]->ListManifestDigests_reply->Ok_0[j] == x,
        forall|x: Seq<char>| !(#[trigger] hs[n + 2 + k].tags.contains_key((repo, x))),
    decreases k,
{
    let ds = t[n + 1]->ListManifestDigests_reply->Ok_0;
    if k == 0 {
        lemma_tags_left(read, hs, t, repo, n);
        assert(model::step(read, hs[n + 1], t[n + 1], hs[n + 1 + 1]));
        assert forall|x: DigestView| #[trigger]
            hs[n + 2 + k].manifests.contains_key((repo, x)) implies exists|j: int|
            k <= j < ds.len() && #[trigger] ds[j] == x by {
            assert(ds.contains(x));
        }
        assert forall|x: Seq<char>| !(#[trigger] hs[n + 2 + k].tags.contains_key((repo, x))) by {
            if hs[n + 2 + k].tags.contains_key((repo, x)) {
                assert(hs[n + 1].tags.contains_key((repo, x)));
            }
        }
    } else {
        lemma_manifests_left(read, hs, t, repo, n, k - 1);
        let i = n + 2 + (k - 1);
        assert(t[n + 2 + (k - 1)] is ManifestDelete);
        assert(model::step(read, hs[i], t[i], hs[i + 1]));
        assert forall|x: DigestView| #[trigger]
            hs[n + 2 + k].manifests.contains_key((repo, x)) implies exists|j: int|
            k <= j < ds.len() && #[trigger] ds[j] == x by {
            assert(hs[n + 2 + (k - 1)].manifests.contains_key((repo, x)));
            let j = choose|j: int| k - 1 <= j < ds.len() && #[trigger] ds[j] == x;
            assert(x != ds[k - 1]);
            assert(j != k - 1);
        }
        assert forall|x: Seq<char>| !(#[trigger] hs[n + 2 + k].tags.contains_key((repo, x))) by {
            assert(!hs[n + 2 + (k - 1)].tags.contains_key((repo, x)));
        }
    }
}

proof fn lemma_purged(read: Reading, hs: Seq<Holdings>, t: Seq<Call>, repo: Seq<char>)
    requires
        model::works(read, hs, t),
        migrate::purged(t, repo),
    ensures
        is_empty(hs.last(), repo),
{
    let n = t[0]->ListTags_reply->Ok_0.len() as int;
    let k = t[n + 1]->ListManifestDigests_reply->Ok_0.len() as int;
    lemma_manifests_left(read, hs, t, repo, n, k);
    assert(hs.last() == hs[n + 2 + k]);
}

proof fn lemma_all_purged(
    read: Reading,
    hs: Seq<Holdings>,
    t: Seq<Call>,
    repos: Seq<Seq<char>>,
)
    requires
        model::works(read, hs, t),
        migrate::all_purged(t, repos),
    ensures
        forall|r: Seq<char>| #[trigger] repos.contains(r) ==> is_empty(hs.last(), r),
    decreases repos.len(),
{
    if repos.len() > 0 {
        let e = t.len() as int;
        let rest = repos.drop_last();
        let n = choose|n: int|
            0 <= n <= t.len() && #[trigger] migrate::purged(
                t.subrange(n, t.len() as int),
                repos.last(),
            ) && migrate::all_purged(t.subrange(0, n), rest);
        model::lemma_part(read, hs, t, 0, n);
        model::lemma_part(read, hs, t, n, e);
        let h = hs.subrange(n, e + 1);
        let c = t.subrange(n, e);
        lemma_all_purged(read, hs.subrange(0, n + 1), t.subrange(0, n), rest);
        lemma_purged(read, h, c, repos.last());
        lemma_purge_takes(c, repos.last());
        assert forall|r: Seq<char>| #[trigger] repos.contains(r) implies is_empty(hs.last(), r) by {
            let i = choose|i: int| 0 <= i < repos.len() && repos[i] == r;
            if i < rest.len() {
                assert(rest[i] == r);
                assert(rest.contains(r));
                lemma_stays_empty(read, h, c, r, c.len() as int);
                assert(h.last() == h[c.len() as int]);
            }
        }
    }
}

/// After a drain the volume has no manifest and no tag of the repositories that moved, and
/// of its blobs only those that are in use by what it still has.
pub proof fn drain_leaves_nothing_behind(
    read: Reading,
    hs: Seq<Holdings>,
    t: Seq<Call>,
    repos: Seq<Seq<char>>,
    g: gc::GcReport,
)
    requires
        model::works(read, hs, t),
        migrate::drained(t, repos, g),
    ensures
        forall|r: Seq<char>| #[trigger] repos.contains(r) ==> is_empty(hs.last(), r),
        forall|d: DigestView| #[trigger]
            hs.last().blobs.contains_key(d) ==> collect::in_use(read, hs.last(), d),
{
    let e = t.len() as int;
    let n = choose|n: int|
        0 <= n <= t.len() && #[trigger] gc::collected(t.subrange(n, t.len() as int), g)
            && migrate::all_purged(t.subrange(0, n), repos);
    model::lemma_part(read, hs, t, 0, n);
    model::lemma_part(read, hs, t, n, e);
    lemma_all_purged(read, hs.subrange(0, n + 1), t.subrange(0, n), repos);
    collect::collection_removes_what_is_not_in_use(
        read,
        hs.subrange(n, e + 1),
        t.subrange(n, e),
        g,
    );
    assert forall|d: DigestView| #[trigger] hs.last().blobs.contains_key(d) implies collect::in_use(
        read,
        hs.last(),
        d,
    ) by {
        assert(collect::in_use(read, hs[n], d));
        let p = choose|p: crate::walk::Place| #[trigger] collect::uses(read, hs[n], p, d);
        assert(collect::uses(read, hs.last(), p, d));
    }
}

/// What the drains of a migration report is what their collections removed, added up.
pub proof fn drains_are_added_up(
    a: Seq<gc::GcReport>,
    g: gc::GcReport,
    r0: migrate::MigrateReport,
    r1: migrate::MigrateReport,
)
    ensures
        migrate::total_purged(a.push(g)) == migrate::total_purged(a) + g.deleted_blobs,
        migrate::total_freed(a.push(g)) == migrate::total_freed(a) + g.deleted_bytes,
        migrate::drain_counted(r0, r1, seq![g]) && r0.blank() ==> r1.blobs_purged == g.deleted_blobs
            && r1.bytes_purged == g.deleted_bytes,
        migrate::drain_counted(r0, r1, Seq::empty()) ==> r1.blobs_purged == r0.blobs_purged
            && r1.bytes_purged == r0.bytes_purged,
{
    assert(a.push(g).drop_last() =~= a);
    let none = Seq::<gc::GcReport>::empty();
    assert(seq![g].drop_last() =~= none);
    assert(migrate::total_purged(none) == 0);
    assert(migrate::total_freed(none) == 0);
    assert(seq![g].last() == g);
    assert(migrate::total_purged(seq![g]) == g.deleted_blobs);
    assert(migrate::total_freed(seq![g]) == g.deleted_bytes);
}

} // verus!
