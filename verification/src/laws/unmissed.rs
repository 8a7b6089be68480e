//! A migration misses no read, while it runs and after it.

use vstd::prelude::*;

use crate::digest;
use crate::digest::{Algorithm, DigestView};
use crate::gc;
use crate::glob;
use crate::laws::collect;
use crate::laws::copy;
use crate::laws::limits;
use crate::laws::moving;
use crate::laws::place;
use crate::laws::spread;
use crate::laws::taken;
use crate::laws::refers;
use crate::manifest;
use crate::manifest::Manifest;
use crate::migrate;
use crate::model;
use crate::model::{Holdings, Reading};
use crate::fanout;
use crate::fanout::Partition;
use crate::order;
use crate::repo_router;
use crate::repo_router::{RepoRouter, RuleView};
use crate::storage;
use crate::storage::{Call, ReferenceView, Storage, StorageError};
use crate::transfer;
use crate::transfer::TagPointerView;
use crate::walk::Place;

verus! {

/// A read of a manifest, by tag or by digest, finds one on these volumes.
pub open spec fn found_in(
    h: Seq<Holdings>,
    chain: Seq<usize>,
    repo: Seq<char>,
    x: ReferenceView,
) -> bool {
    exists|v: usize| #[trigger] chain.contains(v) && h[v as int].led_to(repo, x) is Some
}

/// The store holds the blob `b`, and a manifest of the repository that needs it as its
/// config or as a layer.
pub open spec fn needs(read: Reading, h: Holdings, repo: Seq<char>, b: DigestView) -> bool {
    h.blobs.contains_key(b) && exists|d: DigestView| #[trigger] needs_at(read, h, (repo, d), b)
}

pub open spec fn needs_at(read: Reading, h: Holdings, p: Place, b: DigestView) -> bool {
    &&& h.manifests.contains_key(p)
    &&& read(h.manifests[p]) matches Some(m) && refers::has_as_blob(m, b)
}

/// What is read of the repository under the rules `r1` from volumes that hold `h1` is
/// found under `r2` on volumes that hold `h2`: its manifests by tag and by digest, and
/// the blobs that they need.
pub open spec fn misses_nothing(
    read: Reading,
    r1: Seq<RuleView>,
    h1: Seq<Holdings>,
    r2: Seq<RuleView>,
    h2: Seq<Holdings>,
    repo: Seq<char>,
) -> bool {
    let a = repo_router::placed(r1, repo);
    let b = repo_router::placed(r2, repo);
    &&& forall|x: ReferenceView| #[trigger] found_in(h1, a, repo, x) ==> found_in(h2, b, repo, x)
    &&& forall|v: usize, d: DigestView|
        a.contains(v) && #[trigger] needs(read, h1[v as int], repo, d) ==> spread::has_blob(h2, b, d)
}

/// Of one repository: every reference that leads to a manifest goes on doing so, and the
/// blobs that its manifests need are still there.
pub open spec fn repo_kept(read: Reading, a: Holdings, b: Holdings, repo: Seq<char>) -> bool {
    &&& forall|x: ReferenceView| #[trigger]
        a.led_to(repo, x) is Some ==> b.led_to(repo, x) is Some
    &&& forall|d: DigestView| #[trigger] needs(read, a, repo, d) ==> b.blobs.contains_key(d)
}

proof fn lemma_kept_misses_nothing(
    read: Reading,
    r1: Seq<RuleView>,
    h1: Seq<Holdings>,
    r2: Seq<RuleView>,
    h2: Seq<Holdings>,
    repo: Seq<char>,
)
    requires
        forall|v: usize| #[trigger]
            repo_router::placed(r1, repo).contains(v) ==> repo_router::placed(r2, repo).contains(v)
                && repo_kept(read, h1[v as int], h2[v as int], repo),
    ensures
        misses_nothing(read, r1, h1, r2, h2, repo),
{
    let a = repo_router::placed(r1, repo);
    let b = repo_router::placed(r2, repo);
    assert forall|x: ReferenceView| #[trigger] found_in(h1, a, repo, x) implies found_in(
        h2,
        b,
        repo,
        x,
    ) by {
        let v = choose|v: usize| #[trigger] a.contains(v) && h1[v as int].led_to(repo, x) is Some;
        assert(b.contains(v) && h2[v as int].led_to(repo, x) is Some);
    }
    assert forall|v: usize, d: DigestView|
        a.contains(v) && #[trigger] needs(read, h1[v as int], repo, d) implies spread::has_blob(
        h2,
        b,
        d,
    ) by {
        assert(b.contains(v) && h2[v as int].blobs.contains_key(d));
    }
}

proof fn lemma_leading_keeps(read: Reading, a: Holdings, b: Holdings, repo: Seq<char>)
    requires
        copy::still_leads(a, b),
    ensures
        repo_kept(read, a, b, repo),
{
}

/// While nobody deletes, whatever else is done to a volume, by clients or by a
/// migration, what was read from it of a repository is still found there.
pub proof fn undeleted_is_kept(
    read: Reading,
    a: Holdings,
    calls: Seq<Call>,
    b: Holdings,
    repo: Seq<char>,
)
    requires
        place::came_from(read, a, calls, b),
        copy::spares(calls),
    ensures
        repo_kept(read, a, b, repo),
{
    let path = choose|path: Seq<Holdings>| #[trigger]
        model::works(read, path, calls) && path[0] == a && path.last() == b;
    copy::lemma_spared(read, path, calls, calls.len() as int);
    lemma_leading_keeps(read, a, b, repo);
}

/// While a migration runs: the rule is on the overlay, and the volumes have been asked
/// anything that deletes nothing, by clients and by the backfill. No read misses
/// anything, and unless somebody writes something else it gives the same bytes.
pub proof fn reads_meanwhile_miss_nothing<S: Storage>(
    read: Reading,
    rules: Seq<RuleView>,
    pattern: Seq<char>,
    rule: int,
    new: usize,
    was: Seq<Partition<S>>,
    now: Seq<Partition<S>>,
    h: Seq<Holdings>,
    h2: Seq<Holdings>,
    repo: Seq<char>,
)
    requires
        repo_router::first_with_pattern(rules, pattern, rule),
        repo_router::rules_valid(rules, was.len()),
        moving::led_by(rules, pattern, repo) ==> glob::matches(pattern, repo),
        place::evolves(read, was, now, h, h2),
        forall|i: int|
            0 <= i < was.len() ==> copy::spares(
                storage::added((#[trigger] was[i]).storage.log(), now[i].storage.log()),
            ),
    ensures
        misses_nothing(read, rules, h, moving::overlaid(rules, pattern, rule, new), h2, repo),
        coherent(rules, rule, new, repo, h, h2) ==> reads_the_same(
            read,
            rules,
            h,
            moving::overlaid(rules, pattern, rule, new),
            h2,
            repo,
        ),
{
    let over = moving::overlaid(rules, pattern, rule, new);
    moving::first_of_a_pattern_decides(rules, pattern, rule, repo);
    assert forall|v: usize| #[trigger] repo_router::placed(rules, repo).contains(v) implies repo_router::placed(
        over,
        repo,
    ).contains(v) && repo_kept(read, h[v as int], h2[v as int], repo) by {
        moving::overlay_misses_nothing(rules, pattern, rule, new, was.len(), repo, v);
        lemma_on_chain(rules, repo, was.len(), v);
        assert(copy::spares(
            storage::added(was[v as int].storage.log(), now[v as int].storage.log()),
        ));
        assert(place::came_from(
            read,
            h[v as int],
            storage::added(was[v as int].storage.log(), now[v as int].storage.log()),
            h2[v as int],
        ));
        undeleted_is_kept(
            read,
            h[v as int],
            storage::added(was[v as int].storage.log(), now[v as int].storage.log()),
            h2[v as int],
            repo,
        );
    }
    lemma_kept_misses_nothing(read, rules, h, over, h2, repo);
    if coherent(rules, rule, new, repo, h, h2) {
        assert forall|v: usize, w: usize| #[trigger]
            repo_router::placed(rules, repo).contains(v) && #[trigger] repo_router::placed(
                over,
                repo,
            ).contains(w) implies agree_on(h[v as int], h2[w as int], repo) by {
            lemma_overlay_is_concerned(rules, pattern, rule, new, was.len(), repo, w);
            assert(concerned(rules, rule, new, repo, v));
        }
        found_reads_the_same(read, rules, h, over, h2, repo);
    }
}

proof fn lemma_on_chain(rules: Seq<RuleView>, repo: Seq<char>, n: nat, v: usize)
    requires
        rules.len() > 0,
        repo_router::rules_valid(rules, n),
        repo_router::placed(rules, repo).contains(v),
    ensures
        v < n,
{
    moving::some_rule_decides(rules, repo);
    let chain = repo_router::placed(rules, repo);
    assert(rules[repo_router::deciding_rule(rules, repo)].chain.len() > 0);
    let i = choose|i: int| 0 <= i < chain.len() && chain[i] == v;
    assert(chain[i] < n);
}

// ---- The drain ------------------------------------------------------------

/// Nothing of the repository has changed, and no blob.
spec fn same_repo(a: Holdings, b: Holdings, repo: Seq<char>) -> bool {
    &&& forall|d: DigestView| #[trigger]
        a.manifests.contains_key((repo, d)) ==> b.manifests.contains_key((repo, d))
            && b.manifests[(repo, d)] == a.manifests[(repo, d)]
    &&& forall|t: Seq<char>| #[trigger]
        a.tags.contains_key((repo, t)) ==> b.tags.contains_key((repo, t)) && b.tags[(repo, t)]
            == a.tags[(repo, t)]
    &&& b.blobs == a.blobs
}

/// The call looks at something, or deletes a manifest or a tag of another repository.
spec fn elsewhere(c: Call, repo: Seq<char>) -> bool {
    match c {
        Call::ListTags { .. } => true,
        Call::ListManifestDigests { .. } => true,
        Call::ManifestDelete { repo: r, .. } => r != repo,
        _ => false,
    }
}

proof fn lemma_elsewhere(
    read: Reading,
    hs: Seq<Holdings>,
    calls: Seq<Call>,
    repo: Seq<char>,
    n: int,
)
    requires
        model::works(read, hs, calls),
        forall|i: int| 0 <= i < calls.len() ==> elsewhere(#[trigger] calls[i], repo),
        0 <= n <= calls.len(),
    ensures
        same_repo(hs[0], hs[n], repo),
    decreases n,
{
    if n > 0 {
        lemma_elsewhere(read, hs, calls, repo, n - 1);
        assert(elsewhere(calls[n - 1], repo));
        assert(model::step(read, hs[n - 1], calls[n - 1], hs[n - 1 + 1]));
        assert(same_repo(hs[n - 1], hs[n], repo));
    }
}

/// The call looks at something, or deletes a manifest or a tag of one of `repos`.
spec fn purges(c: Call, repos: Seq<Seq<char>>) -> bool {
    match c {
        Call::ListTags { .. } => true,
        Call::ListManifestDigests { .. } => true,
        Call::ManifestDelete { repo, .. } => repos.contains(repo),
        _ => false,
    }
}

proof fn lemma_purge_calls(t: Seq<Call>, repos: Seq<Seq<char>>)
    requires
        migrate::all_purged(t, repos),
    ensures
        forall|i: int| 0 <= i < t.len() ==> purges(#[trigger] t[i], repos),
    decreases repos.len(),
{
    if repos.len() > 0 {
        let n = choose|n: int|
            0 <= n <= t.len() && #[trigger] migrate::purged(
                t.subrange(n, t.len() as int),
                repos.last(),
            ) && migrate::all_purged(t.subrange(0, n), repos.drop_last());
        let a = t.subrange(0, n);
        let b = t.subrange(n, t.len() as int);
        let rest = repos.drop_last();
        assert(repos[repos.len() - 1] == repos.last());
        lemma_purge_calls(a, rest);
        let tags = b[0]->ListTags_reply->Ok_0;
        let k = tags.len() as int;
        assert forall|i: int| 0 <= i < t.len() implies purges(#[trigger] t[i], repos) by {
            if i < n {
                assert(a[i] == t[i]);
                assert(purges(a[i], rest));
                if let Call::ManifestDelete { repo, .. } = t[i] {
                    let q = choose|q: int| 0 <= q < rest.len() && rest[q] == repo;
                    assert(repos[q] == repo);
                }
            } else {
                let j = i - n;
                assert(b[j] == t[i]);
                if 1 <= j <= k {
                    assert(b[1 + (j - 1)] is ManifestDelete);
                } else if j > k + 1 {
                    assert(b[k + 2 + (j - k - 2)] is ManifestDelete);
                }
            }
        }
    }
}

proof fn lemma_purge_elsewhere(t: Seq<Call>, repos: Seq<Seq<char>>, repo: Seq<char>)
    requires
        migrate::all_purged(t, repos),
        !repos.contains(repo),
    ensures
        forall|i: int| 0 <= i < t.len() ==> elsewhere(#[trigger] t[i], repo),
{
    lemma_purge_calls(t, repos);
    assert forall|i: int| 0 <= i < t.len() implies elsewhere(#[trigger] t[i], repo) by {
        assert(purges(t[i], repos));
    }
}

/// What is in `b` was in `a`, and is the same.
spec fn shrinks(a: Holdings, b: Holdings) -> bool {
    &&& forall|p: Place| #[trigger]
        b.manifests.contains_key(p) ==> a.manifests.contains_key(p) && b.manifests[p]
            == a.manifests[p]
    &&& forall|t: (Seq<char>, Seq<char>)| #[trigger]
        b.tags.contains_key(t) ==> a.tags.contains_key(t) && b.tags[t] == a.tags[t]
    &&& forall|d: DigestView| #[trigger]
        b.blobs.contains_key(d) ==> a.blobs.contains_key(d) && b.blobs[d] == a.blobs[d]
}

proof fn lemma_purge_shrinks(
    read: Reading,
    hs: Seq<Holdings>,
    calls: Seq<Call>,
    repos: Seq<Seq<char>>,
    n: int,
)
    requires
        model::works(read, hs, calls),
        forall|i: int| 0 <= i < calls.len() ==> purges(#[trigger] calls[i], repos),
        0 <= n <= calls.len(),
    ensures
        shrinks(hs[0], hs[n]),
    decreases n,
{
    if n > 0 {
        lemma_purge_shrinks(read, hs, calls, repos, n - 1);
        assert(purges(calls[n - 1], repos));
        assert(model::step(read, hs[n - 1], calls[n - 1], hs[n - 1 + 1]));
        assert(shrinks(hs[n - 1], hs[n]));
    }
}

/// A drain only removes.
proof fn lemma_drain_shrinks(
    read: Reading,
    a: Holdings,
    t: Seq<Call>,
    b: Holdings,
    repos: Seq<Seq<char>>,
    g: gc::GcReport,
)
    requires
        place::came_from(read, a, t, b),
        migrate::drained(t, repos, g),
    ensures
        shrinks(a, b),
{
    let hs = choose|path: Seq<Holdings>| #[trigger]
        model::works(read, path, t) && path[0] == a && path.last() == b;
    let e = t.len() as int;
    let n = choose|n: int|
        0 <= n <= t.len() && #[trigger] gc::collected(t.subrange(n, t.len() as int), g)
            && migrate::all_purged(t.subrange(0, n), repos);
    model::lemma_part(read, hs, t, 0, n);
    model::lemma_part(read, hs, t, n, e);
    lemma_purge_calls(t.subrange(0, n), repos);
    lemma_purge_shrinks(read, hs.subrange(0, n + 1), t.subrange(0, n), repos, n);
    collect::collection_removes_what_is_not_in_use(
        read,
        hs.subrange(n, e + 1),
        t.subrange(n, e),
        g,
    );
    assert(shrinks(a, hs[n]));
    assert(shrinks(hs[n], b));
}

proof fn lemma_blobs_are_references(m: Manifest, d: DigestView)
    requires
        m.blob_references().contains(d),
    ensures
        m.references().contains(d),
{
    let a = manifest::digest_in(m.config);
    let b = manifest::digests_of(m.layers@);
    let c = manifest::digests_of(m.manifests@);
    let e = manifest::digest_in(m.subject);
    let all = m.references();
    let i = choose|i: int| 0 <= i < m.blob_references().len() && m.blob_references()[i] == d;
    if i < a.len() + b.len() {
        assert(all[i] == d);
    } else {
        assert(all[i + c.len()] == d);
    }
}

/// A drain keeps what is not of the repositories that moved.
proof fn lemma_drain_keeps(
    read: Reading,
    a: Holdings,
    t: Seq<Call>,
    b: Holdings,
    repos: Seq<Seq<char>>,
    g: gc::GcReport,
    repo: Seq<char>,
)
    requires
        place::came_from(read, a, t, b),
        migrate::drained(t, repos, g),
        !repos.contains(repo),
    ensures
        repo_kept(read, a, b, repo),
{
    let hs = choose|path: Seq<Holdings>| #[trigger]
        model::works(read, path, t) && path[0] == a && path.last() == b;
    let e = t.len() as int;
    let n = choose|n: int|
        0 <= n <= t.len() && #[trigger] gc::collected(t.subrange(n, t.len() as int), g)
            && migrate::all_purged(t.subrange(0, n), repos);
    model::lemma_part(read, hs, t, 0, n);
    model::lemma_part(read, hs, t, n, e);
    let mid = hs[n];
    lemma_purge_elsewhere(t.subrange(0, n), repos, repo);
    lemma_elsewhere(read, hs.subrange(0, n + 1), t.subrange(0, n), repo, n);
    assert(same_repo(a, mid, repo));
    collect::collection_removes_what_is_not_in_use(
        read,
        hs.subrange(n, e + 1),
        t.subrange(n, e),
        g,
    );
    assert forall|x: ReferenceView| #[trigger] a.led_to(repo, x) is Some implies b.led_to(repo, x) is Some by {
        match x {
            ReferenceView::Digest(d) => {
                assert(a.manifests.contains_key((repo, d)));
            },
            ReferenceView::Tag(t) => {
                assert(a.tags.contains_key((repo, t)));
                assert(a.manifests.contains_key((repo, a.tags[(repo, t)])));
            },
        }
    }
    assert forall|d: DigestView| #[trigger] needs(read, a, repo, d) implies b.blobs.contains_key(d) by {
        let x = choose|x: DigestView| #[trigger] needs_at(read, a, (repo, x), d);
        assert(a.manifests.contains_key((repo, x)));
        assert(mid.manifests[(repo, x)] == a.manifests[(repo, x)]);
        let m = read(a.manifests[(repo, x)])->0;
        refers::lemma_has(m);
        lemma_blobs_are_references(m, d);
        assert(collect::uses(read, mid, (repo, x), d));
        assert(collect::in_use(read, mid, d));
        assert(mid.blobs.contains_key(d));
    }
}

/// Stores that work never end a drain with a failure.
proof fn lemma_drain_goes_through(read: Reading, a: Holdings, t: Seq<Call>, b: Holdings, e: StorageError)
    requires
        place::came_from(read, a, t, b),
    ensures
        !migrate::drain_failed(t, e),
{
    if migrate::drain_failed(t, e) {
        let hs = choose|path: Seq<Holdings>| #[trigger]
            model::works(read, path, t) && path[0] == a && path.last() == b;
        let n = choose|n: int| #![trigger t.subrange(n, t.len() as int)]
            0 <= n <= t.len() && (migrate::purge_failed(t.subrange(n, t.len() as int), e)
                || gc::ended_by(t.subrange(n, t.len() as int), e));
        let part = t.subrange(n, t.len() as int);
        let k = t.len() - 1;
        assert(part.last() == t[k]);
        assert(model::step(read, hs[k], t[k], hs[k + 1]));
    }
}

// ---- The whole migration --------------------------------------------------

/// The backfill keeps every volume: the sources are only read, and the target is only
/// added to.
proof fn lemma_backfill_keeps<S: Storage>(
    read: Reading,
    was: Seq<Partition<S>>,
    now: Seq<Partition<S>>,
    sources: Seq<usize>,
    target: usize,
    h: Seq<Holdings>,
    h2: Seq<Holdings>,
    v: usize,
    repo: Seq<char>,
)
    requires
        migrate::only_touched(was, now, migrate::touched_by(sources, target)),
        migrate::gentle_to(was, now, sources, target),
        sources.len() > 0,
        place::evolves(read, was, now, h, h2),
        v < was.len(),
    ensures
        repo_kept(read, h[v as int], h2[v as int], repo),
{
    let i = v as int;
    let calls = migrate::calls_at(was, now, i);
    assert(place::came_from(read, h[i], calls, h2[i]));
    assert(copy::spares(calls)) by {
        if i == target {
            assert(transfer::gentle(migrate::calls_at(was, now, sources[0] as int), calls));
            assert forall|k: int| 0 <= k < calls.len() implies !((#[trigger] calls[k]) is BlobDelete)
                && !(calls[k] is ManifestDelete) by {
                assert(transfer::is_addition(calls[k]));
            }
        } else if exists|k: int| 0 <= k < sources.len() && sources[k] == i {
            let k = choose|k: int| 0 <= k < sources.len() && sources[k] == i;
            assert(transfer::gentle(
                migrate::calls_at(was, now, sources[k] as int),
                migrate::calls_at(was, now, target as int),
            ));
            assert forall|k: int| 0 <= k < calls.len() implies !((#[trigger] calls[k]) is BlobDelete)
                && !(calls[k] is ManifestDelete) by {
                assert(transfer::is_read(calls[k]));
            }
        } else {
            assert(now[i] == was[i]);
            storage::lemma_added_none(was[i].storage.log());
        }
    }
    undeleted_is_kept(read, h[i], calls, h2[i], repo);
}

/// What moved is found on the new volume.
proof fn lemma_moved_is_found<S: Storage>(
    read: Reading,
    rules: Seq<RuleView>,
    table: Seq<RuleView>,
    h: Seq<Holdings>,
    h2: Seq<Holdings>,
    new: usize,
    repo: Seq<char>,
)
    requires
        repo_router::placed(table, repo) == seq![new],
        forall|v: usize| #[trigger]
            repo_router::placed(rules, repo).contains(v) && h[v as int].knows(repo)
                ==> moving::repo_there(read, h[v as int], h2[new as int], repo),
    ensures
        misses_nothing(read, rules, h, table, h2, repo),
{
    let a = repo_router::placed(rules, repo);
    let b = repo_router::placed(table, repo);
    assert(b[0] == new);
    assert(b.contains(new));
    let dst = h2[new as int];
    assert forall|x: ReferenceView| #[trigger] found_in(h, a, repo, x) implies found_in(
        h2,
        b,
        repo,
        x,
    ) by {
        let v = choose|v: usize| #[trigger] a.contains(v) && h[v as int].led_to(repo, x) is Some;
        let src = h[v as int];
        let p = src.led_to(repo, x)->0;
        assert(src.manifests.contains_key((repo, p.1)));
        assert(src.knows(repo));
        match x {
            ReferenceView::Digest(d) => {
                assert(src.manifests.contains_key((repo, d)));
            },
            ReferenceView::Tag(t) => {
                assert(moving::tag_leads(src, repo, t));
                assert(moving::tag_leads(dst, repo, t));
            },
        }
    }
    assert forall|v: usize, d: DigestView|
        a.contains(v) && #[trigger] needs(read, h[v as int], repo, d) implies spread::has_blob(
        h2,
        b,
        d,
    ) by {
        let src = h[v as int];
        let x = choose|x: DigestView| #[trigger] needs_at(read, src, (repo, x), d);
        assert(src.manifests.contains_key((repo, x)));
        assert(src.knows(repo));
        assert(copy::has_blobs(read, src, dst, (repo, x)));
    }
}

/// A migration that copied everything, and then perhaps drained the old volumes.
proof fn lemma_gone_through<S: Storage>(
    read: Reading,
    volumes: Seq<Partition<S>>,
    mid: Seq<Partition<S>>,
    end: Seq<Partition<S>>,
    rules: Seq<RuleView>,
    pattern: Seq<char>,
    new: usize,
    rule: int,
    lists: Seq<Vec<String>>,
    gs: Option<Seq<gc::GcReport>>,
    h: Seq<Holdings>,
    h2: Seq<Holdings>,
    repo: Seq<char>,
)
    requires
        rules.len() > 0,
        repo_router::first_with_pattern(rules, pattern, rule),
        repo_router::rules_valid(rules, volumes.len()),
        rules[rule].chain != seq![new],
        migrate::backfilled(
            volumes,
            mid,
            moving::overlaid(rules, pattern, rule, new),
            rule,
            repo_router::without(rules[rule].chain, new),
            new,
            lists,
        ),
        match gs {
            None => end == mid,
            Some(gs) => migrate::all_drained(
                mid,
                end,
                repo_router::without(rules[rule].chain, new),
                lists,
                gs,
            ),
        },
        new < volumes.len(),
        place::evolves(read, volumes, end, h, h2),
        forall|i: int| 0 <= i < h.len() ==> (#[trigger] h[i]).sound(),
        moving::led_by(rules, pattern, repo) ==> glob::matches(pattern, repo),
    ensures
        misses_nothing(
            read,
            rules,
            h,
            repo_router::upserted(moving::overlaid(rules, pattern, rule, new), pattern, seq![new]),
            h2,
            repo,
        ),
{
    let over = moving::overlaid(rules, pattern, rule, new);
    let table = repo_router::upserted(over, pattern, seq![new]);
    let sources = repo_router::without(rules[rule].chain, new);
    lemma_touched_grew(volumes, mid, migrate::touched_by(sources, new));
    if gs is Some {
        lemma_touched_grew(mid, end, migrate::source_set(sources));
    } else {
        limits::lemma_unmeasured(mid);
    }
    let hm = place::lemma_between(read, volumes, mid, end, h, h2);
    moving::lemma_backfilled(read, volumes, mid, rules, pattern, new, rule, lists, h, hm, repo);
    moving::first_of_a_pattern_decides(rules, pattern, rule, repo);
    if moving::led_by(rules, pattern, repo) {
        assert(migrate::moves(rules, rule, repo));
        assert(h2[new as int] == hm[new as int]) by {
            if gs is Some {
                moving::drain_leaves_the_target(mid, end, sources, lists, gs->0, new);
            }
            lemma_untouched(read, mid, end, hm, h2, new);
        }
        lemma_moved_is_found::<S>(read, rules, table, h, h2, new, repo);
    } else {
        assert forall|v: usize| #[trigger] repo_router::placed(rules, repo).contains(v) implies repo_router::placed(
            table,
            repo,
        ).contains(v) && repo_kept(read, h[v as int], h2[v as int], repo) by {
            lemma_on_chain(rules, repo, volumes.len(), v);
            lemma_backfill_keeps(read, volumes, mid, sources, new, h, hm, v, repo);
            if gs is Some && sources.contains(v) {
                let k = choose|k: int| 0 <= k < sources.len() && sources[k] == v;
                let j = sources.len() - 1 - k;
                lemma_source_same(read, volumes, mid, sources, new, h, hm, k);
                assert(migrate::source_of(sources, j) == v);
                let t = migrate::calls_at(mid, end, v as int);
                let names = order::views_of(lists[j]@);
                assert(migrate::drained(t, names, gs->0[j]));
                assert(!names.contains(repo)) by {
                    let u = migrate::calls_at(volumes, mid, v as int);
                    assert(migrate::filled_from(
                        migrate::calls_at(volumes, mid, migrate::source_of(sources, j)),
                        migrate::calls_at(volumes, mid, new as int),
                        over,
                        rule,
                        names,
                    ));
                    lemma_only_moving(over, rule, u[0]->ListRepos_reply->Ok_0, repo);
                    if names.contains(repo) {
                        lemma_moving_is_led(rules, pattern, rule, new, repo);
                    }
                }
                assert(place::came_from(read, hm[v as int], t, h2[v as int]));
                lemma_drain_keeps(read, hm[v as int], t, h2[v as int], names, gs->0[j], repo);
            } else {
                assert(end[v as int] == mid[v as int]) by {
                    if gs is Some {
                        assert(!migrate::source_set(sources).contains(v as int)) by {
                            if exists|k: int| 0 <= k < sources.len() && sources[k] == v as int {
                                let k = choose|k: int|
                                    0 <= k < sources.len() && sources[k] == v as int;
                                assert(sources[k] == v);
                            }
                        }
                    }
                }
                lemma_untouched(read, mid, end, hm, h2, v);
            }
        }
        lemma_kept_misses_nothing(read, rules, h, table, h2, repo);
    }
}

proof fn lemma_touched_grew<S: Storage>(
    was: Seq<Partition<S>>,
    now: Seq<Partition<S>>,
    touched: Set<int>,
)
    requires
        migrate::only_touched(was, now, touched),
    ensures
        place::grew(was, now),
{
}

proof fn lemma_untouched<S: Storage>(
    read: Reading,
    was: Seq<Partition<S>>,
    now: Seq<Partition<S>>,
    h: Seq<Holdings>,
    h2: Seq<Holdings>,
    v: usize,
)
    requires
        place::evolves(read, was, now, h, h2),
        v < was.len(),
        now[v as int] == was[v as int],
    ensures
        h2[v as int] == h[v as int],
{
    storage::lemma_added_none(was[v as int].storage.log());
    assert(place::came_from(
        read,
        h[v as int],
        storage::added(was[v as int].storage.log(), now[v as int].storage.log()),
        h2[v as int],
    ));
}

/// A source is only read by a backfill.
proof fn lemma_source_same<S: Storage>(
    read: Reading,
    was: Seq<Partition<S>>,
    now: Seq<Partition<S>>,
    sources: Seq<usize>,
    target: usize,
    h: Seq<Holdings>,
    h2: Seq<Holdings>,
    k: int,
)
    requires
        migrate::gentle_to(was, now, sources, target),
        place::evolves(read, was, now, h, h2),
        0 <= k < sources.len(),
        sources[k] < was.len(),
    ensures
        h2[sources[k] as int] == h[sources[k] as int],
{
    let s = sources[k] as int;
    let u = migrate::calls_at(was, now, s);
    assert(place::came_from(read, h[s], u, h2[s]));
    let hu = choose|path: Seq<Holdings>| #[trigger]
        model::works(read, path, u) && path[0] == h[s] && path.last() == h2[s];
    assert(transfer::gentle(
        migrate::calls_at(was, now, sources[k] as int),
        migrate::calls_at(was, now, target as int),
    ));
    copy::lemma_reads(read, hu, u);
    assert(hu.last() == hu[hu.len() - 1]);
}

proof fn lemma_only_moving(rules: Seq<RuleView>, i: int, list: Seq<Seq<char>>, repo: Seq<char>)
    ensures
        migrate::moving(rules, i, list).contains(repo) ==> migrate::moves(rules, i, repo),
    decreases list.len(),
{
    if list.len() > 0 {
        let rest = migrate::moving(rules, i, list.drop_last());
        let all = migrate::moving(rules, i, list);
        lemma_only_moving(rules, i, list.drop_last(), repo);
        if all.contains(repo) {
            let q = choose|q: int| 0 <= q < all.len() && all[q] == repo;
            if q < rest.len() {
                assert(rest[q] == repo);
            }
        }
    }
}

/// What moves under the overlay is led by the pattern.
proof fn lemma_moving_is_led(
    rules: Seq<RuleView>,
    pattern: Seq<char>,
    rule: int,
    new: usize,
    repo: Seq<char>,
)
    requires
        rules.len() > 0,
        repo_router::first_with_pattern(rules, pattern, rule),
        migrate::moves(moving::overlaid(rules, pattern, rule, new), rule, repo),
    ensures
        moving::led_by(rules, pattern, repo),
{
    let over = moving::overlaid(rules, pattern, rule, new);
    let chain = seq![new] + repo_router::without(rules[rule].chain, new);
    repo_router::lemma_first_with_pattern(rules, pattern, rule);
    assert(over == repo_router::repointed(rules, pattern, chain));
    assert(moving::same_patterns(over, rules));
    moving::lemma_patterns_decide(over, rules, repo, rule);
    moving::first_of_a_pattern_decides(rules, pattern, rule, repo);
}

/// Where the volumes work, no drain fails.
proof fn lemma_drained_at_last<S: Storage>(
    read: Reading,
    was: RepoRouter<S>,
    now: RepoRouter<S>,
    pattern: Seq<char>,
    new: usize,
    e: StorageError,
    h: Seq<Holdings>,
    h2: Seq<Holdings>,
)
    requires
        was.ruled(),
        place::evolves(read, was.volumes@, now.volumes@, h, h2),
    ensures
        forall|rule: int, mid: Seq<Partition<S>>| !(#[trigger] migrate::left_undrained(
            was,
            now,
            pattern,
            new,
            rule,
            mid,
            e,
        )),
{
    let rules = was.table();
    let volumes = was.volumes@;
    assert forall|rule: int, mid: Seq<Partition<S>>| !(#[trigger] migrate::left_undrained(
        was,
        now,
        pattern,
        new,
        rule,
        mid,
        e,
    )) by {
        if migrate::left_undrained(was, now, pattern, new, rule, mid, e) {
            let sources = repo_router::without(rules[rule].chain, new);
            let end = now.volumes@;
            let k = choose|k: int|
                0 <= k < sources.len() && #[trigger] migrate::drain_failed(
                    migrate::calls_at(mid, end, migrate::source_of(sources, k)),
                    e,
                );
            let s = migrate::source_of(sources, k);
            lemma_touched_grew(volumes, mid, migrate::touched_by(sources, new));
            lemma_touched_grew(mid, end, migrate::source_set(sources));
            let hm = place::lemma_between(read, volumes, mid, end, h, h2);
            assert(rules[rule].chain.len() > 0);
            repo_router::lemma_without(rules[rule].chain, new, volumes.len());
            assert(sources[sources.len() - 1 - k] < volumes.len());
            assert(place::came_from(read, hm[s], migrate::calls_at(mid, end, s), h2[s]));
            lemma_drain_goes_through(read, hm[s], migrate::calls_at(mid, end, s), h2[s], e);
        }
    }
}

/// Whatever came of a migration, whether it went through or failed on the way: no read
/// of any repository misses anything that was found before, by tag, by digest or as a
/// blob that a manifest needs. Left out is a repository that no rule matches and that
/// falls to the last rule, where that one moves.
pub proof fn migration_misses_nothing<S: Storage>(
    read: Reading,
    was: RepoRouter<S>,
    now: RepoRouter<S>,
    pattern: Seq<char>,
    new: usize,
    drains: bool,
    r: Result<migrate::MigrateReport, StorageError>,
    h: Seq<Holdings>,
    h2: Seq<Holdings>,
    repo: Seq<char>,
)
    requires
        migrate::migrated(was, now, pattern, new, drains, r),
        was.ruled(),
        new < was.volumes@.len(),
        place::evolves(read, was.volumes@, now.volumes@, h, h2),
        forall|i: int| 0 <= i < h.len() ==> (#[trigger] h[i]).sound(),
        moving::led_by(was.table(), pattern, repo) ==> glob::matches(pattern, repo),
    ensures
        misses_nothing(read, was.table(), h, now.table(), h2, repo),
{
    let rules = was.table();
    let volumes = was.volumes@;
    assert(rules.len() == was.rules@.len());
    if now.rules == was.rules && now.volumes == was.volumes {
        taken::lemma_still(read, volumes, h, h2);
        lemma_kept_misses_nothing(read, rules, h, rules, h2, repo);
    } else {
        match r {
            Ok(report) => {
                let (rule, mid, lists) = choose|
                    rule: int,
                    mid: Seq<Partition<S>>,
                    lists: Seq<Vec<String>>,
                | #[trigger]
                    migrate::moved(was, now, pattern, new, drains, report, rule, mid, lists);
                let sources = repo_router::without(rules[rule].chain, new);
                let gs: Option<Seq<gc::GcReport>> = if drains {
                    let filled = choose|filled: migrate::MigrateReport| #[trigger]
                        migrate::filled_report(
                            filled,
                            lists,
                            migrate::calls_at(volumes, mid, new as int),
                        ) && exists|gs: Seq<gc::GcReport>| #[trigger]
                            migrate::all_drained(mid, now.volumes@, sources, lists, gs)
                                && migrate::drain_counted(
                                migrate::MigrateReport { cutover: true, ..filled },
                                report,
                                gs,
                            );
                    let gs = choose|gs: Seq<gc::GcReport>| #[trigger]
                        migrate::all_drained(mid, now.volumes@, sources, lists, gs);
                    Some(gs)
                } else {
                    None
                };
                lemma_gone_through(
                    read,
                    volumes,
                    mid,
                    now.volumes@,
                    rules,
                    pattern,
                    new,
                    rule,
                    lists,
                    gs,
                    h,
                    h2,
                    repo,
                );
            },
            Err(e) => {
                if exists|rule: int| #[trigger]
                    migrate::left_on_overlay(was, now, pattern, new, rule, e) {
                    let rule = choose|rule: int| #[trigger]
                        migrate::left_on_overlay(was, now, pattern, new, rule, e);
                    let sources = repo_router::without(rules[rule].chain, new);
                    moving::first_of_a_pattern_decides(rules, pattern, rule, repo);
                    assert forall|v: usize| #[trigger] repo_router::placed(rules, repo).contains(
                        v,
                    ) implies repo_router::placed(now.table(), repo).contains(v) && repo_kept(
                        read,
                        h[v as int],
                        h2[v as int],
                        repo,
                    ) by {
                        lemma_on_chain(rules, repo, volumes.len(), v);
                        moving::overlay_misses_nothing(
                            rules,
                            pattern,
                            rule,
                            new,
                            volumes.len(),
                            repo,
                            v,
                        );
                        lemma_backfill_keeps(
                            read,
                            volumes,
                            now.volumes@,
                            sources,
                            new,
                            h,
                            h2,
                            v,
                            repo,
                        );
                    }
                    lemma_kept_misses_nothing(read, rules, h, now.table(), h2, repo);
                } else {
                    lemma_drained_at_last(read, was, now, pattern, new, e, h, h2);
                }
            },
        }
    }
}

// ---- The same bytes -------------------------------------------------------

/// Where both hold a manifest of the repository, a tag of it or a blob, it is the same.
pub open spec fn agree_on(a: Holdings, b: Holdings, repo: Seq<char>) -> bool {
    &&& forall|d: DigestView| #[trigger]
        a.manifests.contains_key((repo, d)) && b.manifests.contains_key((repo, d))
            ==> b.manifests[(repo, d)] == a.manifests[(repo, d)]
    &&& forall|t: Seq<char>| #[trigger]
        a.tags.contains_key((repo, t)) && b.tags.contains_key((repo, t)) ==> b.tags[(repo, t)]
            == a.tags[(repo, t)]
    &&& forall|d: DigestView| #[trigger]
        a.blobs.contains_key(d) && b.blobs.contains_key(d) ==> b.blobs[d] == a.blobs[d]
}

/// A read of the manifest through the chain gives these bytes: those on the first volume
/// on which the reference leads to one.
pub open spec fn reads_as(
    h: Seq<Holdings>,
    chain: Seq<usize>,
    repo: Seq<char>,
    x: ReferenceView,
    bytes: Seq<u8>,
) -> bool {
    exists|k: int| #[trigger] first_leading(h, chain, repo, x, k) && bytes == h[chain[k] as int].manifests[h[chain[k] as int].led_to(
        repo,
        x,
    )->0]
}

pub open spec fn first_leading(
    h: Seq<Holdings>,
    chain: Seq<usize>,
    repo: Seq<char>,
    x: ReferenceView,
    k: int,
) -> bool {
    &&& 0 <= k < chain.len()
    &&& h[chain[k] as int].led_to(repo, x) is Some
    &&& forall|j: int| 0 <= j < k ==> h[#[trigger] chain[j] as int].led_to(repo, x) is None
}

/// A read of the blob through the chain gives these bytes.
pub open spec fn reads_blob_as(
    h: Seq<Holdings>,
    chain: Seq<usize>,
    d: DigestView,
    bytes: Seq<u8>,
) -> bool {
    exists|k: int| #[trigger] first_holding(h, chain, d, k) && bytes == h[chain[k] as int].blobs[d]
}

pub open spec fn first_holding(h: Seq<Holdings>, chain: Seq<usize>, d: DigestView, k: int) -> bool {
    &&& 0 <= k < chain.len()
    &&& h[chain[k] as int].blobs.contains_key(d)
    &&& forall|j: int| 0 <= j < k ==> !h[#[trigger] chain[j] as int].blobs.contains_key(d)
}

/// Every read of the repository that succeeds under the rules `r1` gives the same bytes
/// under `r2`: of its manifests, by tag and by digest, and of the blobs that they need.
pub open spec fn reads_the_same(
    read: Reading,
    r1: Seq<RuleView>,
    h1: Seq<Holdings>,
    r2: Seq<RuleView>,
    h2: Seq<Holdings>,
    repo: Seq<char>,
) -> bool {
    let a = repo_router::placed(r1, repo);
    let b = repo_router::placed(r2, repo);
    &&& forall|x: ReferenceView, bytes: Seq<u8>| #[trigger]
        reads_as(h1, a, repo, x, bytes) ==> reads_as(h2, b, repo, x, bytes)
    &&& forall|v: usize, d: DigestView, bytes: Seq<u8>|
        a.contains(v) && #[trigger] needs(read, h1[v as int], repo, d) && #[trigger] reads_blob_as(
            h1,
            a,
            d,
            bytes,
        ) ==> reads_blob_as(h2, b, d, bytes)
}

proof fn lemma_first_leading(
    h: Seq<Holdings>,
    chain: Seq<usize>,
    repo: Seq<char>,
    x: ReferenceView,
    n: int,
)
    requires
        0 <= n < chain.len(),
        h[chain[n] as int].led_to(repo, x) is Some,
    ensures
        exists|k: int| first_leading(h, chain, repo, x, k),
    decreases n,
{
    if exists|j: int| 0 <= j < n && h[#[trigger] chain[j] as int].led_to(repo, x) is Some {
        let j = choose|j: int| 0 <= j < n && h[#[trigger] chain[j] as int].led_to(repo, x) is Some;
        lemma_first_leading(h, chain, repo, x, j);
    } else {
        assert(first_leading(h, chain, repo, x, n));
    }
}

proof fn lemma_first_holding(h: Seq<Holdings>, chain: Seq<usize>, d: DigestView, n: int)
    requires
        0 <= n < chain.len(),
        h[chain[n] as int].blobs.contains_key(d),
    ensures
        exists|k: int| first_holding(h, chain, d, k),
    decreases n,
{
    if exists|j: int| 0 <= j < n && h[#[trigger] chain[j] as int].blobs.contains_key(d) {
        let j = choose|j: int| 0 <= j < n && h[#[trigger] chain[j] as int].blobs.contains_key(d);
        lemma_first_holding(h, chain, d, j);
    } else {
        assert(first_holding(h, chain, d, n));
    }
}

/// Where nothing is missed and the volumes agree, reads give the same bytes.
pub proof fn found_reads_the_same(
    read: Reading,
    r1: Seq<RuleView>,
    h1: Seq<Holdings>,
    r2: Seq<RuleView>,
    h2: Seq<Holdings>,
    repo: Seq<char>,
)
    requires
        misses_nothing(read, r1, h1, r2, h2, repo),
        forall|v: usize, w: usize| #[trigger]
            repo_router::placed(r1, repo).contains(v) && #[trigger] repo_router::placed(
                r2,
                repo,
            ).contains(w) ==> agree_on(h1[v as int], h2[w as int], repo),
    ensures
        reads_the_same(read, r1, h1, r2, h2, repo),
{
    let a = repo_router::placed(r1, repo);
    let b = repo_router::placed(r2, repo);
    assert forall|x: ReferenceView, bytes: Seq<u8>| #[trigger]
        reads_as(h1, a, repo, x, bytes) implies reads_as(h2, b, repo, x, bytes) by {
        let k = choose|k: int| #[trigger] first_leading(h1, a, repo, x, k) && bytes
            == h1[a[k] as int].manifests[h1[a[k] as int].led_to(repo, x)->0];
        assert(a.contains(a[k]));
        assert(found_in(h1, a, repo, x));
        assert(found_in(h2, b, repo, x));
        let w = choose|w: usize| #[trigger] b.contains(w) && h2[w as int].led_to(repo, x) is Some;
        let n = choose|n: int| 0 <= n < b.len() && b[n] == w;
        lemma_first_leading(h2, b, repo, x, n);
        let m = choose|m: int| first_leading(h2, b, repo, x, m);
        assert(b.contains(b[m]));
        let src = h1[a[k] as int];
        let dst = h2[b[m] as int];
        assert(agree_on(src, dst, repo));
        match x {
            ReferenceView::Digest(d) => {
                assert(src.manifests.contains_key((repo, d)));
                assert(dst.manifests.contains_key((repo, d)));
            },
            ReferenceView::Tag(t) => {
                assert(src.tags.contains_key((repo, t)) && dst.tags.contains_key((repo, t)));
                let d = src.tags[(repo, t)];
                assert(dst.tags[(repo, t)] == d);
                assert(src.manifests.contains_key((repo, d)));
                assert(dst.manifests.contains_key((repo, d)));
            },
        }
        assert(first_leading(h2, b, repo, x, m));
    }
    assert forall|v: usize, d: DigestView, bytes: Seq<u8>|
        a.contains(v) && #[trigger] needs(read, h1[v as int], repo, d) && #[trigger] reads_blob_as(
            h1,
            a,
            d,
            bytes,
        ) implies reads_blob_as(h2, b, d, bytes) by {
        let k = choose|k: int| #[trigger] first_holding(h1, a, d, k) && bytes == h1[a[k] as int].blobs[d];
        assert(a.contains(a[k]));
        assert(spread::has_blob(h2, b, d));
        let w = choose|w: usize| #[trigger] b.contains(w) && h2[w as int].blobs.contains_key(d);
        let n = choose|n: int| 0 <= n < b.len() && b[n] == w;
        lemma_first_holding(h2, b, d, n);
        let m = choose|m: int| first_holding(h2, b, d, m);
        assert(b.contains(b[m]));
        assert(agree_on(h1[a[k] as int], h2[b[m] as int], repo));
        assert(first_holding(h2, b, d, m));
    }
}

/// The volume has to do with the migration of the rule or with the repository.
pub open spec fn concerned(
    rules: Seq<RuleView>,
    rule: int,
    new: usize,
    repo: Seq<char>,
    v: usize,
) -> bool {
    v == new || rules[rule].chain.contains(v) || repo_router::placed(rules, repo).contains(v)
}

/// The volumes that are concerned agree on the repository.
pub open spec fn coherent(
    rules: Seq<RuleView>,
    rule: int,
    new: usize,
    repo: Seq<char>,
    h: Seq<Holdings>,
    h2: Seq<Holdings>,
) -> bool {
    forall|v: usize, w: usize| #[trigger]
        concerned(rules, rule, new, repo, v) && #[trigger] concerned(rules, rule, new, repo, w)
            ==> agree_on(h[v as int], h2[w as int], repo)
}

/// What a call that came from a source writes agrees with what agrees with the source.
proof fn lemma_written_agrees(
    read: Reading,
    a: Holdings,
    src: Holdings,
    u: Seq<Call>,
    c: Call,
    x: Holdings,
    y: Holdings,
    repo: Seq<char>,
)
    requires
        src.sound(),
        copy::all_told(read, src, u),
        transfer::came(u, c),
        transfer::is_addition(c),
        model::step(read, x, c, y),
        agree_on(a, src, repo),
        agree_on(a, x, repo),
    ensures
        agree_on(a, y, repo),
{
    match c {
        Call::BlobWrite { repo: r, digest, content, .. } => {
            let q = Call::BlobRead { repo: r, digest, reply: Ok(content) };
            let i = choose|i: int| 0 <= i < u.len() && u[i] == q;
            assert(model::step(read, src, u[i], src));
            assert(src.blobs.contains_key(digest) && src.blobs[digest] == content);
        },
        Call::ManifestPut { repo: r, reference, content, .. } => match reference {
            ReferenceView::Digest(d) => {
                copy::lemma_gave(read, src, u, (r, d), content);
                assert(model::named(src.manifests[(r, d)]) == d);
            },
            ReferenceView::Tag(t) => {
                let p = choose|p: TagPointerView| #[trigger]
                    transfer::tag_read(u, p) && transfer::points(u, c, p);
                copy::lemma_gave(read, src, u, transfer::place(p.repo, p.digest), content);
                assert(model::named(src.manifests[(p.repo, p.digest)]) == p.digest);
                let z = choose|z: (Seq<u8>, Option<Manifest>)| #[trigger]
                    u.contains(
                        Call::ManifestGet {
                            repo: p.repo,
                            reference: ReferenceView::Tag(p.tag),
                            reply: Ok(z),
                        },
                    ) && p.digest == digest::content_digest(Algorithm::Sha256, z.0);
                let q = Call::ManifestGet {
                    repo: p.repo,
                    reference: ReferenceView::Tag(p.tag),
                    reply: Ok(z),
                };
                let i = choose|i: int| 0 <= i < u.len() && u[i] == q;
                assert(model::step(read, src, u[i], src));
                let e = src.tags[(p.repo, p.tag)];
                assert(src.led_to(p.repo, ReferenceView::Tag(p.tag)) == Some((p.repo, e)));
                assert(model::named(src.manifests[(p.repo, e)]) == e);
                assert(e == p.digest);
            },
        },
        _ => {},
    }
}

/// The target of a backfill goes on agreeing with the volumes that agreed.
proof fn lemma_target_agrees<S: Storage>(
    read: Reading,
    volumes: Seq<Partition<S>>,
    mid: Seq<Partition<S>>,
    sources: Seq<usize>,
    new: usize,
    h: Seq<Holdings>,
    hm: Seq<Holdings>,
    a: Holdings,
    repo: Seq<char>,
    hv: Seq<Holdings>,
    n: int,
)
    requires
        migrate::gentle_to(volumes, mid, sources, new),
        migrate::sourced(volumes, mid, sources, new),
        place::evolves(read, volumes, mid, h, hm),
        fanout::places(sources, volumes.len()),
        forall|i: int| 0 <= i < h.len() ==> (#[trigger] h[i]).sound(),
        model::works(read, hv, migrate::calls_at(volumes, mid, new as int)),
        agree_on(a, hv[0], repo),
        forall|k: int|
            0 <= k < sources.len() ==> agree_on(a, h[(#[trigger] sources[k]) as int], repo),
        0 <= n <= migrate::calls_at(volumes, mid, new as int).len(),
    ensures
        agree_on(a, hv[n], repo),
    decreases n,
{
    if n > 0 {
        lemma_target_agrees(read, volumes, mid, sources, new, h, hm, a, repo, hv, n - 1);
        let v = migrate::calls_at(volumes, mid, new as int);
        let c = v[n - 1];
        assert(model::step(read, hv[n - 1], c, hv[n - 1 + 1]));
        assert(migrate::sourced_at(volumes, mid, sources, c));
        let k = choose|k: int|
            0 <= k < sources.len() && transfer::came(
                migrate::calls_at(volumes, mid, (#[trigger] sources[k]) as int),
                c,
            );
        let s = sources[k] as int;
        let u = migrate::calls_at(volumes, mid, s);
        assert(sources[k] < volumes.len());
        assert(place::came_from(read, h[s], u, hm[s]));
        let hu = choose|path: Seq<Holdings>| #[trigger]
            model::works(read, path, u) && path[0] == h[s] && path.last() == hm[s];
        assert(transfer::gentle(u, v));
        copy::lemma_reads(read, hu, u);
        assert(copy::all_told(read, h[s], u));
        assert(transfer::is_addition(c));
        assert(h[s].sound());
        assert(agree_on(a, h[sources[k] as int], repo));
        lemma_written_agrees(read, a, h[s], u, c, hv[n - 1], hv[n], repo);
    }
}

/// After a backfill the volumes agree with what they held before.
proof fn lemma_backfill_coherent<S: Storage>(
    read: Reading,
    volumes: Seq<Partition<S>>,
    mid: Seq<Partition<S>>,
    rules: Seq<RuleView>,
    rule: int,
    new: usize,
    h: Seq<Holdings>,
    hm: Seq<Holdings>,
    repo: Seq<char>,
    v: usize,
    w: usize,
)
    requires
        rules.len() > 0,
        0 <= rule < rules.len(),
        repo_router::rules_valid(rules, volumes.len()),
        new < volumes.len(),
        migrate::only_touched(
            volumes,
            mid,
            migrate::touched_by(repo_router::without(rules[rule].chain, new), new),
        ),
        migrate::gentle_to(volumes, mid, repo_router::without(rules[rule].chain, new), new),
        migrate::sourced(volumes, mid, repo_router::without(rules[rule].chain, new), new),
        place::evolves(read, volumes, mid, h, hm),
        forall|i: int| 0 <= i < h.len() ==> (#[trigger] h[i]).sound(),
        coherent(rules, rule, new, repo, h, h),
        concerned(rules, rule, new, repo, v),
        concerned(rules, rule, new, repo, w),
    ensures
        agree_on(h[v as int], hm[w as int], repo),
{
    let sources = repo_router::without(rules[rule].chain, new);
    assert(rules[rule].chain.len() > 0);
    assert(fanout::places(rules[rule].chain, volumes.len()));
    repo_router::lemma_without(rules[rule].chain, new, volumes.len());
    lemma_concerned_is_there(rules, rule, new, repo, volumes.len(), w);
    assert(agree_on(h[v as int], h[w as int], repo));
    if w == new {
        let calls = migrate::calls_at(volumes, mid, new as int);
        assert(place::came_from(read, h[new as int], calls, hm[new as int]));
        let hv = choose|path: Seq<Holdings>| #[trigger]
            model::works(read, path, calls) && path[0] == h[new as int] && path.last()
                == hm[new as int];
        assert forall|k: int| 0 <= k < sources.len() implies agree_on(
            h[v as int],
            h[(#[trigger] sources[k]) as int],
            repo,
        ) by {
            assert(sources.contains(sources[k]));
            assert(rules[rule].chain.contains(sources[k]));
            assert(concerned(rules, rule, new, repo, sources[k]));
        }
        lemma_target_agrees(
            read,
            volumes,
            mid,
            sources,
            new,
            h,
            hm,
            h[v as int],
            repo,
            hv,
            calls.len() as int,
        );
    } else if sources.contains(w) {
        let k = choose|k: int| 0 <= k < sources.len() && sources[k] == w;
        lemma_source_same(read, volumes, mid, sources, new, h, hm, k);
    } else {
        assert(!migrate::touched_by(sources, new).contains(w as int)) by {
            if exists|k: int| 0 <= k < sources.len() && sources[k] == w as int {
                let k = choose|k: int| 0 <= k < sources.len() && sources[k] == w as int;
                assert(sources[k] == w);
            }
        }
        lemma_untouched(read, volumes, mid, h, hm, w);
    }
}

proof fn lemma_concerned_is_there(
    rules: Seq<RuleView>,
    rule: int,
    new: usize,
    repo: Seq<char>,
    n: nat,
    v: usize,
)
    requires
        rules.len() > 0,
        0 <= rule < rules.len(),
        repo_router::rules_valid(rules, n),
        new < n,
        concerned(rules, rule, new, repo, v),
    ensures
        v < n,
{
    if rules[rule].chain.contains(v) {
        assert(rules[rule].chain.len() > 0);
        let i = choose|i: int| 0 <= i < rules[rule].chain.len() && rules[rule].chain[i] == v;
        assert(rules[rule].chain[i] < n);
    } else if repo_router::placed(rules, repo).contains(v) {
        lemma_on_chain(rules, repo, n, v);
    }
}

proof fn lemma_one_first(rules: Seq<RuleView>, pattern: Seq<char>, i: int, j: int)
    requires
        repo_router::first_with_pattern(rules, pattern, i),
        repo_router::first_with_pattern(rules, pattern, j),
    ensures
        i == j,
{
    if i < j {
        assert(rules[i].pattern == pattern);
    } else if j < i {
        assert(rules[j].pattern == pattern);
    }
}

/// What a volume that agrees loses does not stop it from agreeing.
proof fn lemma_shrunk_agrees(a: Holdings, b: Holdings, c: Holdings, repo: Seq<char>)
    requires
        agree_on(a, b, repo),
        shrinks(b, c),
    ensures
        agree_on(a, c, repo),
{
}

/// A volume that is concerned agrees in the end with what was held at first.
proof fn lemma_end_agrees<S: Storage>(
    read: Reading,
    volumes: Seq<Partition<S>>,
    mid: Seq<Partition<S>>,
    end: Seq<Partition<S>>,
    rules: Seq<RuleView>,
    rule: int,
    new: usize,
    lists: Seq<Vec<String>>,
    gs: Option<Seq<gc::GcReport>>,
    h: Seq<Holdings>,
    h2: Seq<Holdings>,
    repo: Seq<char>,
    v: usize,
    w: usize,
)
    requires
        rules.len() > 0,
        0 <= rule < rules.len(),
        repo_router::rules_valid(rules, volumes.len()),
        new < volumes.len(),
        migrate::only_touched(
            volumes,
            mid,
            migrate::touched_by(repo_router::without(rules[rule].chain, new), new),
        ),
        migrate::gentle_to(volumes, mid, repo_router::without(rules[rule].chain, new), new),
        migrate::sourced(volumes, mid, repo_router::without(rules[rule].chain, new), new),
        match gs {
            None => end == mid,
            Some(gs) => migrate::all_drained(
                mid,
                end,
                repo_router::without(rules[rule].chain, new),
                lists,
                gs,
            ),
        },
        place::evolves(read, volumes, end, h, h2),
        forall|i: int| 0 <= i < h.len() ==> (#[trigger] h[i]).sound(),
        coherent(rules, rule, new, repo, h, h),
        concerned(rules, rule, new, repo, v),
        concerned(rules, rule, new, repo, w),
    ensures
        agree_on(h[v as int], h2[w as int], repo),
{
    let sources = repo_router::without(rules[rule].chain, new);
    lemma_touched_grew(volumes, mid, migrate::touched_by(sources, new));
    if gs is Some {
        lemma_touched_grew(mid, end, migrate::source_set(sources));
    } else {
        limits::lemma_unmeasured(mid);
    }
    let hm = place::lemma_between(read, volumes, mid, end, h, h2);
    lemma_backfill_coherent(read, volumes, mid, rules, rule, new, h, hm, repo, v, w);
    lemma_concerned_is_there(rules, rule, new, repo, volumes.len(), w);
    if gs is Some && sources.contains(w) {
        let k = choose|k: int| 0 <= k < sources.len() && sources[k] == w;
        let j = sources.len() - 1 - k;
        assert(migrate::source_of(sources, j) == w);
        let t = migrate::calls_at(mid, end, w as int);
        let names = order::views_of(lists[j]@);
        assert(migrate::drained(t, names, gs->0[j]));
        assert(place::came_from(read, hm[w as int], t, h2[w as int]));
        lemma_drain_shrinks(read, hm[w as int], t, h2[w as int], names, gs->0[j]);
        lemma_shrunk_agrees(h[v as int], hm[w as int], h2[w as int], repo);
    } else {
        assert(end[w as int] == mid[w as int]) by {
            if gs is Some {
                assert(!migrate::source_set(sources).contains(w as int)) by {
                    if exists|k: int| 0 <= k < sources.len() && sources[k] == w as int {
                        let k = choose|k: int| 0 <= k < sources.len() && sources[k] == w as int;
                        assert(sources[k] == w);
                    }
                }
            }
        }
        lemma_untouched(read, mid, end, hm, h2, w);
    }
}

/// Whoever serves the repository on the overlay is concerned.
proof fn lemma_overlay_is_concerned(
    rules: Seq<RuleView>,
    pattern: Seq<char>,
    rule: int,
    new: usize,
    n: nat,
    repo: Seq<char>,
    w: usize,
)
    requires
        rules.len() > 0,
        repo_router::first_with_pattern(rules, pattern, rule),
        repo_router::rules_valid(rules, n),
        repo_router::placed(moving::overlaid(rules, pattern, rule, new), repo).contains(w),
    ensures
        concerned(rules, rule, new, repo, w),
{
    let sources = repo_router::without(rules[rule].chain, new);
    let chain = seq![new] + sources;
    moving::repointing_moves_only_its_own(rules, pattern, chain, rule, repo);
    assert(rules[rule].chain.len() > 0);
    repo_router::lemma_without(rules[rule].chain, new, n);
    if moving::led_by(rules, pattern, repo) {
        let i = choose|i: int| 0 <= i < chain.len() && chain[i] == w;
        if i > 0 {
            assert(sources[i - 1] == w);
            assert(sources.contains(w));
        }
    }
}

/// And whoever serves it in the end.
proof fn lemma_end_is_concerned(
    rules: Seq<RuleView>,
    pattern: Seq<char>,
    rule: int,
    new: usize,
    repo: Seq<char>,
    w: usize,
)
    requires
        rules.len() > 0,
        repo_router::first_with_pattern(rules, pattern, rule),
        repo_router::placed(
            repo_router::upserted(moving::overlaid(rules, pattern, rule, new), pattern, seq![new]),
            repo,
        ).contains(w),
    ensures
        concerned(rules, rule, new, repo, w),
{
    moving::lemma_end_placement(rules, pattern, rule, new, repo);
}

/// Whatever came of a migration, whether it went through or failed on the way, every read
/// of any repository that succeeded before succeeds and gives the same bytes, by tag, by
/// digest or of a blob that a manifest needs. The volumes that are concerned agree at
/// first: what two of them hold under one digest is the same, and so is where a tag
/// leads that two of them have. Left out is a repository that no rule matches and that
/// falls to the last rule, where that one moves.
pub proof fn migration_reads_the_same<S: Storage>(
    read: Reading,
    was: RepoRouter<S>,
    now: RepoRouter<S>,
    pattern: Seq<char>,
    new: usize,
    drains: bool,
    r: Result<migrate::MigrateReport, StorageError>,
    rule: int,
    h: Seq<Holdings>,
    h2: Seq<Holdings>,
    repo: Seq<char>,
)
    requires
        migrate::migrated(was, now, pattern, new, drains, r),
        was.ruled(),
        new < was.volumes@.len(),
        place::evolves(read, was.volumes@, now.volumes@, h, h2),
        forall|i: int| 0 <= i < h.len() ==> (#[trigger] h[i]).sound(),
        moving::led_by(was.table(), pattern, repo) ==> glob::matches(pattern, repo),
        repo_router::has_pattern(was.table(), pattern) ==> repo_router::first_with_pattern(
            was.table(),
            pattern,
            rule,
        ),
        coherent(was.table(), rule, new, repo, h, h),
    ensures
        reads_the_same(read, was.table(), h, now.table(), h2, repo),
{
    migration_misses_nothing(read, was, now, pattern, new, drains, r, h, h2, repo);
    let rules = was.table();
    let volumes = was.volumes@;
    let end = now.volumes@;
    assert(rules.len() == was.rules@.len());
    assert forall|v: usize, w: usize| #[trigger]
        repo_router::placed(rules, repo).contains(v) && #[trigger] repo_router::placed(
            now.table(),
            repo,
        ).contains(w) implies agree_on(h[v as int], h2[w as int], repo) by {
        assert(concerned(rules, rule, new, repo, v));
        if now.rules == was.rules && now.volumes == was.volumes {
            taken::lemma_still(read, volumes, h, h2);
            assert(concerned(rules, rule, new, repo, w));
        } else {
            match r {
                Ok(report) => {
                    let (q, mid, lists) = choose|
                        q: int,
                        mid: Seq<Partition<S>>,
                        lists: Seq<Vec<String>>,
                    | #[trigger]
                        migrate::moved(was, now, pattern, new, drains, report, q, mid, lists);
                    assert(rules[q].pattern == pattern);
                    lemma_one_first(rules, pattern, q, rule);
                    let sources = repo_router::without(rules[rule].chain, new);
                    let gs: Option<Seq<gc::GcReport>> = if drains {
                        Some(
                            choose|gs: Seq<gc::GcReport>| #[trigger]
                                migrate::all_drained(mid, end, sources, lists, gs),
                        )
                    } else {
                        None
                    };
                    lemma_end_is_concerned(rules, pattern, rule, new, repo, w);
                    lemma_end_agrees(
                        read,
                        volumes,
                        mid,
                        end,
                        rules,
                        rule,
                        new,
                        lists,
                        gs,
                        h,
                        h2,
                        repo,
                        v,
                        w,
                    );
                },
                Err(e) => {
                    if exists|q: int| #[trigger]
                        migrate::left_on_overlay(was, now, pattern, new, q, e) {
                        let q = choose|q: int| #[trigger]
                            migrate::left_on_overlay(was, now, pattern, new, q, e);
                        assert(rules[q].pattern == pattern);
                        lemma_one_first(rules, pattern, q, rule);
                        lemma_overlay_is_concerned(
                            rules,
                            pattern,
                            rule,
                            new,
                            volumes.len(),
                            repo,
                            w,
                        );
                        lemma_backfill_coherent(
                            read,
                            volumes,
                            end,
                            rules,
                            rule,
                            new,
                            h,
                            h2,
                            repo,
                            v,
                            w,
                        );
                    } else {
                        lemma_drained_at_last(read, was, now, pattern, new, e, h, h2);
                    }
                },
            }
        }
    }
    found_reads_the_same(read, rules, h, now.table(), h2, repo);
}

} // verus!
