//! Routing and migration: repositories stay where they are unless they are moved, and
//! a move misses nothing at any time.

use vstd::prelude::*;

use crate::admin;
use crate::admin::RepoMigrateRequest;
use crate::digest::DigestView;
use crate::error::OciError;
use crate::fanout;
use crate::fanout::Partition;
use crate::glob;
use crate::laws::copy;
use crate::laws::place;
use crate::laws::replica;
use crate::migrate;
use crate::model;
use crate::model::{Holdings, Reading};
use crate::order;
use crate::repo_router;
use crate::repo_router::{RepoRouter, RuleView};
use crate::storage;
use crate::storage::{Call, ReferenceView, Storage, StorageError};
use crate::text;
use crate::transfer;
use crate::transfer::TagPointerView;
use crate::walk;
use crate::walk::{Found, Place};

verus! {

// ---- Routing --------------------------------------------------------------

/// The tables have the same patterns.
pub open spec fn same_patterns(a: Seq<RuleView>, b: Seq<RuleView>) -> bool {
    &&& a.len() == b.len()
    &&& forall|i: int| 0 <= i < a.len() ==> (#[trigger] b[i]).pattern == a[i].pattern
}

/// Which rule decides depends on the patterns alone.
pub proof fn lemma_patterns_decide(a: Seq<RuleView>, b: Seq<RuleView>, repo: Seq<char>, i: int)
    requires
        same_patterns(a, b),
        repo_router::decides(a, repo, i),
    ensures
        repo_router::decides(b, repo, i),
{
    assert forall|j: int| repo_router::rule_matches(a, repo, j) <==> repo_router::rule_matches(
        b,
        repo,
        j,
    ) by {
        if 0 <= j < a.len() {
            assert(b[j].pattern == a[j].pattern);
        }
    }
    if exists|j: int| repo_router::rule_matches(a, repo, j) {
        let j = choose|j: int| repo_router::rule_matches(a, repo, j);
        assert(repo_router::rule_matches(b, repo, j));
        assert(b[i].pattern == a[i].pattern);
        assert forall|k: int| #[trigger] repo_router::rule_matches(b, repo, k) implies {
            let x = text::byte_len(b[k].pattern);
            let y = text::byte_len(b[i].pattern);
            x < y || (x == y && i <= k)
        } by {
            assert(repo_router::rule_matches(a, repo, k));
            assert(b[k].pattern == a[k].pattern);
        }
    } else {
        assert(!exists|j: int| repo_router::rule_matches(b, repo, j));
    }
}

/// Some rule decides.
pub proof fn some_rule_decides(rules: Seq<RuleView>, repo: Seq<char>)
    requires
        rules.len() > 0,
    ensures
        repo_router::decides(rules, repo, repo_router::deciding_rule(rules, repo)),
        0 <= repo_router::deciding_rule(rules, repo) < rules.len(),
{
    if exists|j: int| repo_router::rule_matches(rules, repo, j) {
        let i = best_rule(rules, repo, rules.len());
        lemma_best_rule(rules, repo, rules.len());
        assert(repo_router::decides(rules, repo, i));
    } else {
        assert(repo_router::decides(rules, repo, rules.len() - 1));
    }
}

/// The best of the first `n` rules for `repo`, -1 where none of them matches.
spec fn best_rule(rules: Seq<RuleView>, repo: Seq<char>, n: nat) -> int
    decreases n,
{
    if n == 0 {
        -1
    } else {
        let b = best_rule(rules, repo, (n - 1) as nat);
        if repo_router::rule_matches(rules, repo, n - 1) && (b < 0 || text::byte_len(
            rules[n - 1].pattern,
        ) > text::byte_len(rules[b].pattern)) {
            n - 1
        } else {
            b
        }
    }
}

proof fn lemma_best_rule(rules: Seq<RuleView>, repo: Seq<char>, n: nat)
    requires
        n <= rules.len(),
    ensures
        ({
            let b = best_rule(rules, repo, n);
            if b < 0 {
                forall|j: int| 0 <= j < n ==> !repo_router::rule_matches(rules, repo, j)
            } else {
                &&& b < n
                &&& repo_router::rule_matches(rules, repo, b)
                &&& forall|j: int|
                    0 <= j < n && #[trigger] repo_router::rule_matches(rules, repo, j) ==> {
                        let x = text::byte_len(rules[j].pattern);
                        let y = text::byte_len(rules[b].pattern);
                        x < y || (x == y && b <= j)
                    }
            }
        }),
    decreases n,
{
    if n > 0 {
        lemma_best_rule(rules, repo, (n - 1) as nat);
    }
}

/// A rule with this pattern decides for the repository.
pub open spec fn led_by(rules: Seq<RuleView>, pattern: Seq<char>, repo: Seq<char>) -> bool {
    rules[repo_router::deciding_rule(rules, repo)].pattern == pattern
}

/// Of the rules with a pattern, the first decides for every repository that matches.
pub proof fn first_of_a_pattern_decides(
    rules: Seq<RuleView>,
    pattern: Seq<char>,
    i: int,
    repo: Seq<char>,
)
    requires
        repo_router::first_with_pattern(rules, pattern, i),
    ensures
        repo_router::decides(rules, repo, i) ==> led_by(rules, pattern, repo),
        led_by(rules, pattern, repo) && glob::matches(pattern, repo) ==> repo_router::decides(
            rules,
            repo,
            i,
        ),
{
    some_rule_decides(rules, repo);
    let k = repo_router::deciding_rule(rules, repo);
    if repo_router::decides(rules, repo, i) {
        repo_router::one_rule_decides(rules, repo, i, k);
    }
    if led_by(rules, pattern, repo) && glob::matches(pattern, repo) {
        assert(repo_router::rule_matches(rules, repo, i));
        assert(repo_router::rule_matches(rules, repo, k));
        if k < i {
            assert(rules[k].pattern != pattern);
        }
        assert(i == k);
    }
}

/// Where the rules with a pattern are pointed elsewhere, the repositories that they
/// decide go there, and all others stay where they are.
pub proof fn repointing_moves_only_its_own(
    rules: Seq<RuleView>,
    pattern: Seq<char>,
    chain: Seq<usize>,
    i: int,
    repo: Seq<char>,
)
    requires
        repo_router::first_with_pattern(rules, pattern, i),
    ensures
        repo_router::placed(repo_router::upserted(rules, pattern, chain), repo) == if
            led_by(rules, pattern, repo) {
            chain
        } else {
            repo_router::placed(rules, repo)
        },
        repo_router::deciding_rule(repo_router::upserted(rules, pattern, chain), repo)
            == repo_router::deciding_rule(rules, repo),
{
    let new = repo_router::upserted(rules, pattern, chain);
    repo_router::lemma_first_with_pattern(rules, pattern, i);
    assert(new == repo_router::repointed(rules, pattern, chain));
    some_rule_decides(rules, repo);
    some_rule_decides(new, repo);
    let k = repo_router::deciding_rule(rules, repo);
    lemma_patterns_decide(rules, new, repo, k);
    repo_router::one_rule_decides(new, repo, k, repo_router::deciding_rule(new, repo));
}

/// A rule that is added takes the repositories that it matches and that no rule with a
/// pattern at least as long matches. A repository that another rule matches and that
/// it does not take stays where it is.
pub proof fn added_rule_takes_its_own(
    rules: Seq<RuleView>,
    pattern: Seq<char>,
    chain: Seq<usize>,
    repo: Seq<char>,
    k: int,
)
    requires
        rules.len() > 0,
        !repo_router::has_pattern(rules, pattern),
    ensures
        glob::matches(pattern, repo) && (forall|j: int| #[trigger]
            repo_router::rule_matches(rules, repo, j) ==> text::byte_len(rules[j].pattern)
                < text::byte_len(pattern)) ==> repo_router::placed(
            repo_router::upserted(rules, pattern, chain),
            repo,
        ) == chain,
        repo_router::rule_matches(rules, repo, k) && (!glob::matches(pattern, repo)
            || text::byte_len(rules[k].pattern) >= text::byte_len(pattern)) ==> repo_router::placed(
            repo_router::upserted(rules, pattern, chain),
            repo,
        ) == repo_router::placed(rules, repo),
{
    let new = repo_router::upserted(rules, pattern, chain);
    let n = rules.len() as int;
    assert(new == rules.push(RuleView { pattern, chain }));
    some_rule_decides(new, repo);
    some_rule_decides(rules, repo);
    assert forall|j: int| 0 <= j < n implies (repo_router::rule_matches(new, repo, j)
        <==> #[trigger] repo_router::rule_matches(rules, repo, j)) by {
        assert(new[j] == rules[j]);
    }
    if glob::matches(pattern, repo) && (forall|j: int| #[trigger]
        repo_router::rule_matches(rules, repo, j) ==> text::byte_len(rules[j].pattern)
            < text::byte_len(pattern)) {
        assert(repo_router::rule_matches(new, repo, n));
        assert forall|j: int| #[trigger] repo_router::rule_matches(new, repo, j) implies {
            let x = text::byte_len(new[j].pattern);
            let y = text::byte_len(new[n].pattern);
            x < y || (x == y && n <= j)
        } by {
            if j < n {
                assert(repo_router::rule_matches(rules, repo, j));
                assert(new[j] == rules[j]);
            }
        }
        assert(repo_router::decides(new, repo, n));
        repo_router::one_rule_decides(new, repo, n, repo_router::deciding_rule(new, repo));
    }
    if repo_router::rule_matches(rules, repo, k) && (!glob::matches(pattern, repo)
        || text::byte_len(rules[k].pattern) >= text::byte_len(pattern)) {
        let i = repo_router::deciding_rule(rules, repo);
        assert(repo_router::rule_matches(rules, repo, i));
        assert(repo_router::rule_matches(new, repo, i));
        assert forall|j: int| #[trigger] repo_router::rule_matches(new, repo, j) implies {
            let x = text::byte_len(new[j].pattern);
            let y = text::byte_len(new[i].pattern);
            x < y || (x == y && i <= j)
        } by {
            assert(new[i] == rules[i]);
            if j < n {
                assert(repo_router::rule_matches(rules, repo, j));
                assert(new[j] == rules[j]);
            } else {
                assert(new[n].pattern == pattern);
                assert(text::byte_len(rules[k].pattern) <= text::byte_len(rules[i].pattern));
            }
        }
        assert(repo_router::decides(new, repo, i));
        repo_router::one_rule_decides(new, repo, i, repo_router::deciding_rule(new, repo));
    }
}

// ---- The overlay ----------------------------------------------------------

/// The rules while a migration runs.
pub open spec fn overlaid(rules: Seq<RuleView>, pattern: Seq<char>, rule: int, new: usize) -> Seq<
    RuleView,
> {
    repo_router::upserted(
        rules,
        pattern,
        seq![new] + repo_router::without(rules[rule].chain, new),
    )
}

/// While a migration runs, every volume that was asked for a repository is still
/// asked, so nothing that was found is missed. Left out is a repository that no rule
/// matches and that falls to a second rule with the pattern.
pub proof fn overlay_misses_nothing(
    rules: Seq<RuleView>,
    pattern: Seq<char>,
    rule: int,
    new: usize,
    n: nat,
    repo: Seq<char>,
    v: usize,
)
    requires
        repo_router::first_with_pattern(rules, pattern, rule),
        repo_router::rules_valid(rules, n),
        repo_router::placed(rules, repo).contains(v),
        led_by(rules, pattern, repo) ==> repo_router::decides(rules, repo, rule),
    ensures
        repo_router::placed(overlaid(rules, pattern, rule, new), repo).contains(v),
{
    let rest = repo_router::without(rules[rule].chain, new);
    let chain = seq![new] + rest;
    repointing_moves_only_its_own(rules, pattern, chain, rule, repo);
    some_rule_decides(rules, repo);
    if repo_router::decides(rules, repo, rule) {
        repo_router::one_rule_decides(
            rules,
            repo,
            rule,
            repo_router::deciding_rule(rules, repo),
        );
        repo_router::lemma_without(rules[rule].chain, new, n);
        if v == new {
            assert(chain[0] == v);
        } else {
            assert(rest.contains(v));
            let i = choose|i: int| 0 <= i < rest.len() && rest[i] == v;
            assert(chain[1 + i] == v);
        }
    }
}

// ---- The backfill ---------------------------------------------------------

/// Everything of one repository that is on `src` is on `dst`: its manifests, the blobs
/// that they need as far as they are on `src`, and its tags that lead somewhere.
pub open spec fn repo_there(read: Reading, src: Holdings, dst: Holdings, repo: Seq<char>) -> bool {
    &&& forall|d: DigestView| #[trigger]
        src.manifests.contains_key((repo, d)) ==> dst.manifests.contains_key((repo, d))
            && copy::has_blobs(read, src, dst, (repo, d))
    &&& forall|t: Seq<char>| #[trigger]
        src.tags.contains_key((repo, t)) ==> dst.tags.contains_key((repo, t))
    &&& forall|t: Seq<char>| #[trigger]
        tag_leads(src, repo, t) ==> tag_leads(dst, repo, t)
}

/// The tag leads to a manifest.
pub open spec fn tag_leads(h: Holdings, repo: Seq<char>, t: Seq<char>) -> bool {
    h.led_to(repo, ReferenceView::Tag(t)) is Some
}

proof fn lemma_repo_copied(
    read: Reading,
    src: Holdings,
    u: Seq<Call>,
    hv: Seq<Holdings>,
    v: Seq<Call>,
    repo: Seq<char>,
)
    requires
        src.sound(),
        copy::all_told(read, src, u),
        model::works(read, hv, v),
        migrate::repo_copied(u, v, repo),
    ensures
        repo_there(read, src, hv.last(), repo),
{
    let (m, found, tags) = choose|m: int, found: Found, tags: Seq<TagPointerView>| #[trigger]
        migrate::repo_copied_at(u, v, repo, m, found, tags);
    let w = u.take(m);
    let rest = u.subrange(m, u.len() as int);
    assert forall|k: int| 0 <= k < w.len() implies model::step(read, src, #[trigger] w[k], src) by {
        assert(w[k] == u[k]);
    }
    assert forall|k: int| 0 <= k < rest.len() implies model::step(
        read,
        src,
        #[trigger] rest[k],
        src,
    ) by {
        assert(rest[k] == u[m + k]);
    }
    copy::copy_brings_everything(read, src, w, rest, hv, v, None, found, tags, false);
    copy::search_finds_all(read, src, w, repo, None, found.manifests@, tags);
    let dst = hv.last();
    assert forall|d: DigestView| #[trigger]
        src.manifests.contains_key((repo, d)) implies dst.manifests.contains_key((repo, d))
        && copy::has_blobs(read, src, dst, (repo, d)) by {
        assert(found.manifests@.contains((repo, d)));
    }
    assert forall|t: Seq<char>| #[trigger] src.tags.contains_key((repo, t)) implies dst.tags.contains_key(
        (repo, t),
    ) by {
        assert(transfer::selected(None, t));
        let x = choose|x: TagPointerView| #[trigger]
            tags.contains(x) && x.repo == repo && x.tag == t;
        let q = choose|q: int| 0 <= q < tags.len() && tags[q] == x;
        assert(copy::true_pointer(dst, tags[q]));
    }
    assert forall|t: Seq<char>| #[trigger] tag_leads(src, repo, t) implies tag_leads(
        dst,
        repo,
        t,
    ) by {
        assert(transfer::selected(None, t));
        let x = choose|x: TagPointerView| #[trigger]
            tags.contains(x) && x.repo == repo && x.tag == t;
        let q = choose|q: int| 0 <= q < tags.len() && tags[q] == x;
        assert(copy::true_pointer(dst, tags[q]));
    }
}

/// Those that move are the ones among a list that the rule decides and matches.
proof fn lemma_moving(rules: Seq<RuleView>, i: int, list: Seq<Seq<char>>, repo: Seq<char>)
    requires
        list.contains(repo),
        migrate::moves(rules, i, repo),
    ensures
        migrate::moving(rules, i, list).contains(repo),
    decreases list.len(),
{
    let k = choose|k: int| 0 <= k < list.len() && list[k] == repo;
    let rest = migrate::moving(rules, i, list.drop_last());
    let all = migrate::moving(rules, i, list);
    if k == list.len() - 1 {
        assert(all[all.len() - 1] == repo);
    } else {
        assert(list.drop_last()[k] == repo);
        lemma_moving(rules, i, list.drop_last(), repo);
        let q = choose|q: int| 0 <= q < rest.len() && rest[q] == repo;
        assert(all[q] == repo);
    }
}

/// After a backfill everything of a repository that moves is on the new volume, from
/// whichever of the old volumes it was on. The old volumes are unchanged, and the new
/// one has lost nothing.
pub proof fn backfill_brings_everything<S: Storage>(
    read: Reading,
    was: Seq<Partition<S>>,
    now: Seq<Partition<S>>,
    rules: Seq<RuleView>,
    rule: int,
    sources: Seq<usize>,
    target: usize,
    lists: Seq<Vec<String>>,
    h: Seq<Holdings>,
    h2: Seq<Holdings>,
    repo: Seq<char>,
    k: int,
)
    requires
        migrate::backfilled(was, now, rules, rule, sources, target, lists),
        place::evolves(read, was, now, h, h2),
        target < was.len(),
        0 <= k < sources.len(),
        sources[k] < was.len(),
        h[sources[k] as int].sound(),
        migrate::moves(rules, rule, repo),
        h[sources[k] as int].knows(repo),
    ensures
        repo_there(read, h[sources[k] as int], h2[target as int], repo),
        h2[sources[k] as int] == h[sources[k] as int],
        copy::includes(h2[target as int], h[target as int]),
{
    let s = sources[k] as int;
    let t = target as int;
    let u = migrate::calls_at(was, now, s);
    let v = migrate::calls_at(was, now, t);
    assert(place::came_from(read, h[s], u, h2[s]));
    assert(place::came_from(read, h[t], v, h2[t]));
    let hu = choose|path: Seq<Holdings>| #[trigger]
        model::works(read, path, u) && path[0] == h[s] && path.last() == h2[s];
    let hv = choose|path: Seq<Holdings>| #[trigger]
        model::works(read, path, v) && path[0] == h[t] && path.last() == h2[t];
    assert(transfer::gentle(migrate::calls_at(was, now, sources[k] as int), v));
    copy::lemma_reads(read, hu, u);
    copy::lemma_additions(read, hv, v, 0, v.len() as int);
    assert(hu.last() == hu[hu.len() - 1]);
    let src = h[s];
    let j = sources.len() - 1 - k;
    assert(migrate::source_of(sources, j) == s);
    let list = order::views_of(lists[j]@);
    assert(migrate::filled_from(u, v, rules, rule, list));
    assert(model::step(read, src, u[0], src));
    let names = u[0]->ListRepos_reply->Ok_0;
    assert(names.contains(repo));
    lemma_moving(rules, rule, names, repo);
    let q = choose|q: int| 0 <= q < list.len() && list[q] == repo;
    assert(migrate::copied_within(u, v, list[q]));
    let (a, b, c, d) = choose|a: int, b: int, c: int, d: int|
        0 <= a <= b <= u.len() && 0 <= c <= d <= v.len() && #[trigger] migrate::repo_copied(
            u.subrange(a, b),
            v.subrange(c, d),
            repo,
        );
    let part = u.subrange(a, b);
    assert forall|i: int| 0 <= i < part.len() implies model::step(
        read,
        src,
        #[trigger] part[i],
        src,
    ) by {
        assert(part[i] == u[a + i]);
    }
    model::lemma_part(read, hv, v, c, d);
    lemma_repo_copied(read, src, part, hv.subrange(c, d + 1), v.subrange(c, d), repo);
    copy::lemma_additions(read, hv, v, d, v.len() as int);
    let dst = h2[t];
    assert forall|x: DigestView| #[trigger]
        src.manifests.contains_key((repo, x)) implies dst.manifests.contains_key((repo, x))
        && copy::has_blobs(read, src, dst, (repo, x)) by {
        assert(hv[d].manifests.contains_key((repo, x)));
        assert(copy::has_blobs(read, src, hv[d], (repo, x)));
    }
    assert forall|x: Seq<char>| #[trigger] src.tags.contains_key((repo, x)) implies dst.tags.contains_key(
        (repo, x),
    ) by {
        assert(hv[d].tags.contains_key((repo, x)));
    }
    let e = v.len() as int;
    model::lemma_part(read, hv, v, d, e);
    let last = v.subrange(d, e);
    assert(copy::spares(last)) by {
        assert forall|i: int| 0 <= i < last.len() implies !((#[trigger] last[i]) is BlobDelete) && !(
        last[i] is ManifestDelete) by {
            assert(last[i] == v[d + i]);
            assert(transfer::is_addition(v[d + i]));
        }
    }
    copy::lemma_spared(read, hv.subrange(d, e + 1), last, last.len() as int);
    assert forall|t: Seq<char>| #[trigger] tag_leads(src, repo, t) implies tag_leads(
        dst,
        repo,
        t,
    ) by {
        assert(tag_leads(hv[d], repo, t));
    }
}

/// A backfill that fails leaves everything where it was.
pub proof fn failed_backfill_loses_nothing<S: Storage>(
    read: Reading,
    was: Seq<Partition<S>>,
    now: Seq<Partition<S>>,
    sources: Seq<usize>,
    target: usize,
    e: StorageError,
    h: Seq<Holdings>,
    h2: Seq<Holdings>,
    i: int,
)
    requires
        migrate::backfill_failed(was, now, sources, target, e),
        place::evolves(read, was, now, h, h2),
        0 <= i < was.len(),
        target < was.len(),
        !sources.contains(target),
    ensures
        copy::includes(h2[i], h[i]),
{
    let calls = migrate::calls_at(was, now, i);
    assert(place::came_from(read, h[i], calls, h2[i]));
    let path = choose|path: Seq<Holdings>| #[trigger]
        model::works(read, path, calls) && path[0] == h[i] && path.last() == h2[i];
    if exists|k: int| 0 <= k < sources.len() && sources[k] == i {
        let k = choose|k: int| 0 <= k < sources.len() && sources[k] == i;
        assert(transfer::gentle(
            migrate::calls_at(was, now, sources[k] as int),
            migrate::calls_at(was, now, target as int),
        ));
        copy::lemma_reads(read, path, calls);
        assert(path.last() == path[path.len() - 1]);
    } else if i == target {
        let k = choose|k: int, c: int|
            0 <= k < sources.len() && 0 <= c <= migrate::calls_at(was, now, target as int).len()
                && #[trigger] migrate::fill_failed(
                migrate::calls_at(was, now, sources[k] as int),
                migrate::calls_at(was, now, target as int).subrange(
                    c,
                    migrate::calls_at(was, now, target as int).len() as int,
                ),
                e,
            );
        assert(transfer::gentle(
            migrate::calls_at(was, now, sources[k.0] as int),
            migrate::calls_at(was, now, target as int),
        ));
        copy::lemma_additions(read, path, calls, 0, calls.len() as int);
    } else {
        assert(now[i] == was[i]);
        storage::lemma_added_none(was[i].storage.log());
        assert(path.len() == 1);
    }
}

// ---- The collapse ---------------------------------------------------------

/// Where repositories are placed once a migration went through.
pub proof fn lemma_end_placement(
    rules: Seq<RuleView>,
    pattern: Seq<char>,
    rule: int,
    new: usize,
    repo: Seq<char>,
)
    requires
        repo_router::first_with_pattern(rules, pattern, rule),
    ensures
        ({
            let table = repo_router::upserted(
                overlaid(rules, pattern, rule, new),
                pattern,
                seq![new],
            );
            &&& !led_by(rules, pattern, repo) ==> repo_router::placed(table, repo)
                == repo_router::placed(rules, repo)
            &&& led_by(rules, pattern, repo) ==> repo_router::placed(table, repo) == seq![new]
        }),
{
    let sources = repo_router::without(rules[rule].chain, new);
    let over = overlaid(rules, pattern, rule, new);
    repointing_moves_only_its_own(rules, pattern, seq![new] + sources, rule, repo);
    repo_router::lemma_first_with_pattern(rules, pattern, rule);
    assert(over == repo_router::repointed(rules, pattern, seq![new] + sources));
    assert(repo_router::first_with_pattern(over, pattern, rule)) by {
        assert forall|j: int| 0 <= j < rule implies (#[trigger] over[j]).pattern != pattern by {
            assert(rules[j].pattern != pattern);
        }
    }
    repointing_moves_only_its_own(over, pattern, seq![new], rule, repo);
    some_rule_decides(rules, repo);
    assert(over[repo_router::deciding_rule(rules, repo)].pattern
        == rules[repo_router::deciding_rule(rules, repo)].pattern);
    assert(same_patterns(rules, over));
    assert(same_patterns(over, rules));
    if repo_router::decides(rules, repo, rule) {
        lemma_patterns_decide(rules, over, repo, rule);
    }
    if repo_router::decides(over, repo, rule) {
        lemma_patterns_decide(over, rules, repo, rule);
    }
}

/// After a backfill whatever of a repository that moves was on one of the volumes it was
/// placed on is on the new volume, which is where it is placed once the rule is.
pub proof fn lemma_backfilled<S: Storage>(
    read: Reading,
    volumes: Seq<Partition<S>>,
    mid: Seq<Partition<S>>,
    rules: Seq<RuleView>,
    pattern: Seq<char>,
    new: usize,
    rule: int,
    lists: Seq<Vec<String>>,
    h: Seq<Holdings>,
    h2: Seq<Holdings>,
    repo: Seq<char>,
)
    requires
        repo_router::first_with_pattern(rules, pattern, rule),
        repo_router::rules_valid(rules, volumes.len()),
        rules[rule].chain != seq![new],
        migrate::backfilled(
            volumes,
            mid,
            overlaid(rules, pattern, rule, new),
            rule,
            repo_router::without(rules[rule].chain, new),
            new,
            lists,
        ),
        new < volumes.len(),
        place::evolves(read, volumes, mid, h, h2),
        forall|i: int| 0 <= i < h.len() ==> (#[trigger] h[i]).sound(),
    ensures
        ({
            let table = repo_router::upserted(
                overlaid(rules, pattern, rule, new),
                pattern,
                seq![new],
            );
            &&& !led_by(rules, pattern, repo) ==> repo_router::placed(table, repo)
                == repo_router::placed(rules, repo)
            &&& led_by(rules, pattern, repo) ==> repo_router::placed(table, repo) == seq![new]
        }),
        migrate::moves(rules, rule, repo) ==> forall|v: usize| #[trigger]
            repo_router::placed(rules, repo).contains(v) && h[v as int].knows(repo) ==> repo_there(
                read,
                h[v as int],
                h2[new as int],
                repo,
            ),
        repo_router::without(rules[rule].chain, new).len() > 0,
        fanout::places(repo_router::without(rules[rule].chain, new), volumes.len()),
        !repo_router::without(rules[rule].chain, new).contains(new),
{
    let sources = repo_router::without(rules[rule].chain, new);
    let over = overlaid(rules, pattern, rule, new);
    repointing_moves_only_its_own(rules, pattern, seq![new] + sources, rule, repo);
    repo_router::lemma_first_with_pattern(rules, pattern, rule);
    assert(over == repo_router::repointed(rules, pattern, seq![new] + sources));
    assert(repo_router::first_with_pattern(over, pattern, rule)) by {
        assert forall|j: int| 0 <= j < rule implies (#[trigger] over[j]).pattern != pattern by {
            assert(rules[j].pattern != pattern);
        }
    }
    repointing_moves_only_its_own(over, pattern, seq![new], rule, repo);
    some_rule_decides(rules, repo);
    assert(over[repo_router::deciding_rule(rules, repo)].pattern
        == rules[repo_router::deciding_rule(rules, repo)].pattern);
    assert(same_patterns(rules, over));
    assert(same_patterns(over, rules));
    if repo_router::decides(rules, repo, rule) {
        lemma_patterns_decide(rules, over, repo, rule);
    }
    if repo_router::decides(over, repo, rule) {
        lemma_patterns_decide(over, rules, repo, rule);
    }
    let n = volumes.len();
    assert(fanout::places(rules[rule].chain, n));
    repo_router::lemma_without(rules[rule].chain, new, n);
    assert(sources.len() > 0) by {
        let chain = rules[rule].chain;
        assert(chain.len() > 0);
        if sources.len() == 0 {
            assert forall|i: int| 0 <= i < chain.len() implies chain[i] == new by {
                assert(chain.contains(chain[i]));
                if chain[i] != new {
                    assert(sources.contains(chain[i]));
                }
            }
            if chain.len() > 1 {
                assert(chain[0] == chain[1]);
            }
            assert(chain =~= seq![new]);
        }
    }
    if migrate::moves(rules, rule, repo) {
        some_rule_decides(rules, repo);
        repo_router::one_rule_decides(rules, repo, rule, repo_router::deciding_rule(rules, repo));
        assert(migrate::moves(over, rule, repo));
        assert forall|v: usize| #[trigger]
            repo_router::placed(rules, repo).contains(v) && h[v as int].knows(repo) implies repo_there(
            read,
            h[v as int],
            h2[new as int],
            repo,
        ) by {
            if v == new {
                lemma_target_grows(
                    read,
                    volumes,
                    mid,
                    over,
                    rule,
                    sources,
                    new,
                    lists,
                    h,
                    h2,
                );
                lemma_there_of_included(read, h[new as int], h2[new as int], repo);
            } else {
                assert(sources.contains(v));
                let k = choose|k: int| 0 <= k < sources.len() && sources[k] == v;
                assert(h[sources[k] as int].sound());
                backfill_brings_everything(
                    read,
                    volumes,
                    mid,
                    over,
                    rule,
                    sources,
                    new,
                    lists,
                    h,
                    h2,
                    repo,
                    k,
                );
            }
        }
    }
}

/// A migration that went through misses nothing: whatever of a repository that moves
/// was on one of the volumes it was placed on is on the new volume, where it is placed
/// now. All other repositories are placed as before.
pub proof fn migration_loses_nothing<S: Storage>(
    read: Reading,
    was: RepoRouter<S>,
    now: RepoRouter<S>,
    pattern: Seq<char>,
    new: usize,
    report: migrate::MigrateReport,
    rule: int,
    mid: Seq<Partition<S>>,
    lists: Seq<Vec<String>>,
    h: Seq<Holdings>,
    h2: Seq<Holdings>,
    repo: Seq<char>,
)
    requires
        migrate::moved(was, now, pattern, new, false, report, rule, mid, lists),
        was.ruled(),
        new < was.volumes@.len(),
        place::evolves(read, was.volumes@, now.volumes@, h, h2),
        forall|i: int| 0 <= i < h.len() ==> (#[trigger] h[i]).sound(),
    ensures
        !led_by(was.table(), pattern, repo) ==> repo_router::placed(now.table(), repo)
            == repo_router::placed(was.table(), repo),
        led_by(was.table(), pattern, repo) ==> repo_router::placed(now.table(), repo)
            == seq![new],
        migrate::moves(was.table(), rule, repo) ==> forall|v: usize| #[trigger]
            repo_router::placed(was.table(), repo).contains(v) && h[v as int].knows(repo)
                ==> repo_there(read, h[v as int], h2[new as int], repo),
{
    lemma_backfilled(
        read,
        was.volumes@,
        mid,
        was.table(),
        pattern,
        new,
        rule,
        lists,
        h,
        h2,
        repo,
    );
}

proof fn lemma_there_of_included(read: Reading, a: Holdings, b: Holdings, repo: Seq<char>)
    requires
        copy::includes(b, a),
        copy::still_leads(a, b),
    ensures
        repo_there(read, a, b, repo),
{
    assert forall|t: Seq<char>| #[trigger] tag_leads(a, repo, t) implies tag_leads(b, repo, t) by {
    }
    assert forall|d: DigestView| #[trigger] a.manifests.contains_key((repo, d)) implies b.manifests.contains_key(
        (repo, d),
    ) && copy::has_blobs(read, a, b, (repo, d)) by {
    }
}

proof fn lemma_target_grows<S: Storage>(
    read: Reading,
    was: Seq<Partition<S>>,
    now: Seq<Partition<S>>,
    rules: Seq<RuleView>,
    rule: int,
    sources: Seq<usize>,
    target: usize,
    lists: Seq<Vec<String>>,
    h: Seq<Holdings>,
    h2: Seq<Holdings>,
)
    requires
        migrate::backfilled(was, now, rules, rule, sources, target, lists),
        place::evolves(read, was, now, h, h2),
        target < was.len(),
        sources.len() > 0,
    ensures
        copy::includes(h2[target as int], h[target as int]),
        copy::still_leads(h[target as int], h2[target as int]),
{
    let t = target as int;
    let v = migrate::calls_at(was, now, t);
    assert(place::came_from(read, h[t], v, h2[t]));
    let hv = choose|path: Seq<Holdings>| #[trigger]
        model::works(read, path, v) && path[0] == h[t] && path.last() == h2[t];
    assert(transfer::gentle(migrate::calls_at(was, now, sources[0] as int), v));
    copy::lemma_additions(read, hv, v, 0, v.len() as int);
    assert(copy::spares(v)) by {
        assert forall|i: int| 0 <= i < v.len() implies !((#[trigger] v[i]) is BlobDelete) && !(
        v[i] is ManifestDelete) by {
            assert(transfer::is_addition(v[i]));
        }
    }
    copy::lemma_spared(read, hv, v, v.len() as int);
}

/// After a migration went through, its rule leads to the new volume alone.
proof fn lemma_rule_moved<S: Storage>(
    was: RepoRouter<S>,
    mid: RepoRouter<S>,
    pattern: Seq<char>,
    new: usize,
    drained: bool,
    report: migrate::MigrateReport,
    rule: int,
    filled: Seq<Partition<S>>,
    lists: Seq<Vec<String>>,
)
    requires
        migrate::moved(was, mid, pattern, new, drained, report, rule, filled, lists),
    ensures
        repo_router::first_with_pattern(mid.table(), pattern, rule),
        mid.table()[rule].chain == seq![new],
{
    let rules = was.table();
    let over = overlaid(rules, pattern, rule, new);
    repo_router::lemma_first_with_pattern(rules, pattern, rule);
    assert(repo_router::first_with_pattern(over, pattern, rule)) by {
        assert forall|j: int| 0 <= j < rule implies (#[trigger] over[j]).pattern != pattern by {
            assert(rules[j].pattern != pattern);
        }
    }
    repo_router::lemma_first_with_pattern(over, pattern, rule);
    let table = mid.table();
    assert(repo_router::first_with_pattern(table, pattern, rule)) by {
        assert forall|j: int| 0 <= j < rule implies (#[trigger] table[j]).pattern != pattern by {
            assert(over[j].pattern != pattern);
        }
    }
}

/// A migration to the volume that its rule leads to alone does nothing.
pub proof fn migration_to_where_it_is_does_nothing<S: Storage>(
    was: RepoRouter<S>,
    now: RepoRouter<S>,
    pattern: Seq<char>,
    new: usize,
    rule: int,
    drains: bool,
    r: Result<migrate::MigrateReport, StorageError>,
)
    requires
        repo_router::first_with_pattern(was.table(), pattern, rule),
        was.table()[rule].chain == seq![new],
        migrate::migrated(was, now, pattern, new, drains, r),
    ensures
        r is Ok,
        r->Ok_0.blank(),
        now.rules == was.rules,
        now.volumes == was.volumes,
{
    let table = was.table();
    repo_router::lemma_first_with_pattern(table, pattern, rule);
    assert forall|k: int| #[trigger] repo_router::first_with_pattern(table, pattern, k) implies k
        == rule by {
        repo_router::lemma_first_with_pattern(table, pattern, k);
    }
    assert(repo_router::has_pattern(table, pattern));
}

/// A migration that is asked for again after it went through does nothing.
pub proof fn second_migration_does_nothing<S: Storage>(
    was: RepoRouter<S>,
    mid: RepoRouter<S>,
    now: RepoRouter<S>,
    pattern: Seq<char>,
    new: usize,
    drained: bool,
    report: migrate::MigrateReport,
    rule: int,
    filled: Seq<Partition<S>>,
    lists: Seq<Vec<String>>,
    drains: bool,
    r: Result<migrate::MigrateReport, StorageError>,
)
    requires
        migrate::moved(was, mid, pattern, new, drained, report, rule, filled, lists),
        migrate::migrated(mid, now, pattern, new, drains, r),
    ensures
        r is Ok,
        r->Ok_0.blank(),
        now.rules == mid.rules,
        now.volumes == mid.volumes,
{
    lemma_rule_moved(was, mid, pattern, new, drained, report, rule, filled, lists);
    migration_to_where_it_is_does_nothing(mid, now, pattern, new, rule, drains, r);
}

/// A directory keeps its place among the volumes: opened again under its name, it is the
/// volume that it was, and none is added.
pub proof fn directory_keeps_its_place<S>(
    was: Seq<Partition<S>>,
    mid: Seq<Partition<S>>,
    between: Seq<Partition<S>>,
    now: Seq<Partition<S>>,
    first: Partition<S>,
    second: Partition<S>,
    i: usize,
    j: usize,
)
    requires
        repo_router::placed_at(was, mid, first, i),
        between.len() == mid.len(),
        forall|k: int| 0 <= k < mid.len() ==> (#[trigger] between[k]).name@ == mid[k].name@,
        repo_router::placed_at(between, now, second, j),
        second.name@ == first.name@,
    ensures
        now == between,
        j == i,
{
    assert(mid[i as int].name@ == first.name@);
    assert(between[i as int].name@ == second.name@);
    if j < i {
        assert(between[j as int].name@ == mid[j as int].name@);
        assert(mid[j as int].name@ != first.name@) by {
            assert(was[j as int] == mid[j as int]);
        }
    }
}

/// A request for a migration that is made again after it went through, drain or not,
/// does nothing.
pub proof fn repeated_request_does_nothing<S: Storage>(
    was: RepoRouter<S>,
    opened: RepoRouter<S>,
    mid: RepoRouter<S>,
    again: RepoRouter<S>,
    now: RepoRouter<S>,
    root: Seq<char>,
    first: S,
    second: S,
    new: usize,
    new2: usize,
    pattern: Seq<char>,
    drained: bool,
    report: migrate::MigrateReport,
    rule: int,
    filled: Seq<Partition<S>>,
    lists: Seq<Vec<String>>,
    drains: bool,
    r: Result<migrate::MigrateReport, StorageError>,
)
    requires
        admin::with_root(was, opened, root, first, new),
        migrate::moved(opened, mid, pattern, new, drained, report, rule, filled, lists),
        admin::with_root(mid, again, root, second, new2),
        migrate::migrated(again, now, pattern, new2, drains, r),
    ensures
        r is Ok,
        r->Ok_0.blank(),
        now.rules == mid.rules,
        now.volumes@ == mid.volumes@,
{
    let v = choose|v: Partition<S>| #[trigger]
        admin::is_root(v, root, first) && repo_router::placed_at(
            was.volumes@,
            opened.volumes@,
            v,
            new,
        );
    let w = choose|v: Partition<S>| #[trigger]
        admin::is_root(v, root, second) && repo_router::placed_at(
            mid.volumes@,
            again.volumes@,
            v,
            new2,
        );
    assert forall|k: int| 0 <= k < opened.volumes@.len() implies (#[trigger] mid.volumes@[k]).name@
        == opened.volumes@[k].name@ by {
        assert(filled[k].name == opened.volumes@[k].name);
    }
    directory_keeps_its_place(
        was.volumes@,
        opened.volumes@,
        mid.volumes@,
        again.volumes@,
        v,
        w,
        new,
        new2,
    );
    lemma_rule_moved(opened, mid, pattern, new, drained, report, rule, filled, lists);
    migration_to_where_it_is_does_nothing(again, now, pattern, new, rule, drains, r);
}

/// A drain leaves the new volume alone.
pub proof fn drain_leaves_the_target<S: Storage>(
    mid: Seq<Partition<S>>,
    now: Seq<Partition<S>>,
    sources: Seq<usize>,
    lists: Seq<Vec<String>>,
    gs: Seq<crate::gc::GcReport>,
    target: usize,
)
    requires
        migrate::all_drained(mid, now, sources, lists, gs),
        target < mid.len(),
        !sources.contains(target),
    ensures
        now[target as int] == mid[target as int],
{
    let t = target as int;
    assert(!migrate::source_set(sources).contains(t)) by {
        if exists|k: int| 0 <= k < sources.len() && sources[k] == t {
            let k = choose|k: int| 0 <= k < sources.len() && sources[k] == t;
            assert(sources[k] == target);
        }
    }
}

/// A second copy of a repository between stores that nothing else changes copies
/// nothing.
pub proof fn second_copy_copies_nothing(
    read: Reading,
    src: Holdings,
    u1: Seq<Call>,
    h1: Seq<Holdings>,
    v1: Seq<Call>,
    u2: Seq<Call>,
    h2: Seq<Holdings>,
    v2: Seq<Call>,
    repo: Seq<char>,
    was: migrate::MigrateReport,
    now: migrate::MigrateReport,
)
    requires
        src.sound(),
        copy::all_told(read, src, u1),
        copy::all_told(read, src, u2),
        model::works(read, h1, v1),
        model::works(read, h2, v2),
        h2[0] == h1.last(),
        migrate::repo_copied(u1, v1, repo),
        migrate::repo_copied(u2, v2, repo),
        migrate::counted_copy(v2, was, now),
    ensures
        transfer::writes(v2) == 0,
        transfer::puts(v2) == 0,
        now == was,
{
    lemma_repo_copied(read, src, u1, h1, v1, repo);
    let dst = h2[0];
    let (m, found, tags) = choose|m: int, found: Found, tags: Seq<TagPointerView>| #[trigger]
        migrate::repo_copied_at(u2, v2, repo, m, found, tags);
    let w = u2.take(m);
    let u = u2.subrange(m, u2.len() as int);
    assert forall|k: int| 0 <= k < w.len() implies model::step(read, src, #[trigger] w[k], src) by {
        assert(w[k] == u2[k]);
    }
    assert forall|k: int| 0 <= k < u.len() implies model::step(read, src, #[trigger] u[k], src) by {
        assert(u[k] == u2[m + k]);
    }
    replica::lemma_found_is_held(read, src, w, None, found, tags);
    assert forall|q: Place| #[trigger] found.manifests@.contains(q) implies q.0 == repo by {
        assert(walk::some_shows(w, q));
        let i = choose|i: int| 0 <= i < w.len() && walk::shows(#[trigger] w[i], q);
        assert(walk::in_repo(w[i], repo));
    }
    assert forall|q: Place| #[trigger]
        found.manifests@.contains(q) && src.manifests.contains_key(q) implies dst.manifests.contains_key(
        q,
    ) by {
        assert(src.manifests.contains_key((repo, q.1)));
    }
    assert forall|q: Place| #[trigger]
        found.blobs@.contains(q) && src.blobs.contains_key(q.1) implies dst.blobs.contains_key(
        q.1,
    ) by {
        assert(replica::needed(read, src, found.manifests@, q));
        let k = choose|k: Place| #[trigger]
            found.manifests@.contains(k) && k.0 == q.0 && replica::needs_blob(read, src, k, q.1);
        assert(src.manifests.contains_key((repo, k.1)));
        assert(copy::has_blobs(read, src, dst, (repo, k.1)));
    }
    copy::nothing_is_written_twice(
        read,
        src,
        u,
        h2,
        v2,
        found.manifests@,
        found.blobs@,
        tags,
        false,
    );
    let n = choose|n: transfer::Copied| #[trigger] n.counts(v2) && now == was.plus(n);
}

// ---- Clients meanwhile ----------------------------------------------------

/// The call deletes something.
pub open spec fn deletes(c: Call) -> bool {
    c is BlobDelete || c is ManifestDelete
}

proof fn lemma_still_included(read: Reading, hs: Seq<Holdings>, calls: Seq<Call>, i: int, j: int)
    requires
        model::works(read, hs, calls),
        0 <= i <= j <= calls.len(),
        forall|k: int| i <= k < j ==> !deletes(#[trigger] calls[k]),
    ensures
        copy::includes(hs[j], hs[i]),
    decreases j - i,
{
    if i < j {
        lemma_still_included(read, hs, calls, i, j - 1);
        assert(!deletes(calls[j - 1]));
        assert(model::step(read, hs[j - 1], calls[j - 1], hs[j - 1 + 1]));
        let a = hs[j - 1];
        let b = hs[j];
        assert(copy::includes(b, a));
        assert forall|d: DigestView| #[trigger] hs[i].blobs.contains_key(d) implies b.blobs.contains_key(
            d,
        ) by {
            assert(a.blobs.contains_key(d));
        }
        assert forall|p: Place| #[trigger] hs[i].manifests.contains_key(p) implies b.manifests.contains_key(
            p,
        ) by {
            assert(a.manifests.contains_key(p));
        }
        assert forall|t: (Seq<char>, Seq<char>)| #[trigger]
            hs[i].tags.contains_key(t) implies b.tags.contains_key(t) by {
            assert(a.tags.contains_key(t));
        }
    }
}

/// What clients write through the router while a migration runs goes to the new volume
/// and is there when it has gone through: `calls` are all calls on the new volume from
/// the overlay to the end, those of the migration and those of clients, and nothing that
/// was held after the first `i` of them is lost unless somebody deletes it. Reads go to
/// that volume then. Blobs and manifests are under their own digests all the time.
pub proof fn written_meanwhile_stays(
    read: Reading,
    rules: Seq<RuleView>,
    pattern: Seq<char>,
    rule: int,
    new: usize,
    repo: Seq<char>,
    hs: Seq<Holdings>,
    calls: Seq<Call>,
    i: int,
)
    requires
        repo_router::first_with_pattern(rules, pattern, rule),
        led_by(rules, pattern, repo),
        model::works(read, hs, calls),
        hs[0].sound(),
        0 <= i <= calls.len(),
        forall|k: int| i <= k < calls.len() ==> !deletes(#[trigger] calls[k]),
    ensures
        repo_router::placed(overlaid(rules, pattern, rule, new), repo)[0] == new,
        repo_router::placed(
            repo_router::upserted(overlaid(rules, pattern, rule, new), pattern, seq![new]),
            repo,
        ) == seq![new],
        copy::includes(hs.last(), hs[i]),
        hs[i].sound(),
        hs.last().sound(),
{
    let sources = repo_router::without(rules[rule].chain, new);
    let chain = seq![new] + sources;
    let over = overlaid(rules, pattern, rule, new);
    repointing_moves_only_its_own(rules, pattern, chain, rule, repo);
    repo_router::lemma_first_with_pattern(rules, pattern, rule);
    assert(over == repo_router::repointed(rules, pattern, chain));
    assert(repo_router::first_with_pattern(over, pattern, rule)) by {
        assert forall|j: int| 0 <= j < rule implies (#[trigger] over[j]).pattern != pattern by {
            assert(rules[j].pattern != pattern);
        }
    }
    some_rule_decides(rules, repo);
    assert(over[repo_router::deciding_rule(rules, repo)].pattern == pattern);
    repointing_moves_only_its_own(over, pattern, seq![new], rule, repo);
    lemma_still_included(read, hs, calls, i, calls.len() as int);
    assert(hs.last() == hs[calls.len() as int]);
    lemma_sound_all_along(read, hs, calls, i);
    lemma_sound_all_along(read, hs, calls, calls.len() as int);
}

proof fn lemma_sound_all_along(read: Reading, hs: Seq<Holdings>, calls: Seq<Call>, i: int)
    requires
        model::works(read, hs, calls),
        hs[0].sound(),
        0 <= i <= calls.len(),
    ensures
        hs[i].sound(),
    decreases i,
{
    if i > 0 {
        lemma_sound_all_along(read, hs, calls, i - 1);
        assert(model::step(read, hs[i - 1], calls[i - 1], hs[i - 1 + 1]));
        model::everything_stays_under_its_digest(read, hs[i - 1], calls[i - 1], hs[i]);
    }
}

/// The calls of a backfill on the new volume delete nothing.
pub proof fn backfill_deletes_nothing<S: Storage>(
    was: Seq<Partition<S>>,
    now: Seq<Partition<S>>,
    sources: Seq<usize>,
    target: usize,
    k: int,
)
    requires
        migrate::gentle_to(was, now, sources, target),
        sources.len() > 0,
        0 <= k < migrate::calls_at(was, now, target as int).len(),
    ensures
        !deletes(migrate::calls_at(was, now, target as int)[k]),
{
    let v = migrate::calls_at(was, now, target as int);
    assert(transfer::gentle(migrate::calls_at(was, now, sources[0] as int), v));
    assert(transfer::is_addition(v[k]));
}

/// A migration under way can go on whatever rules are repointed or added and whatever
/// volumes are added meanwhile.
pub proof fn migration_can_go_on<S>(
    m: migrate::Migration,
    was: RepoRouter<S>,
    now: RepoRouter<S>,
    pattern: Seq<char>,
    chain: Seq<usize>,
)
    requires
        m.fits(was),
        now.ruled(),
        now.table() == was.table() || now.table() == repo_router::upserted(
            was.table(),
            pattern,
            chain,
        ),
        now.volumes@.len() >= was.volumes@.len(),
    ensures
        m.fits(now),
{
    let a = was.table();
    let b = now.table();
    assert forall|j: int| 0 <= j < m.rule implies (#[trigger] b[j]).pattern != m.pattern@ by {
        assert(a[j].pattern != m.pattern@);
        assert(b[j].pattern == a[j].pattern);
    }
}

/// A request for a class does what one for the pattern of the class does, to the router
/// and in its answer.
pub proof fn class_is_its_pattern<S: Storage>(
    was: RepoRouter<S>,
    now: RepoRouter<S>,
    by_class: RepoMigrateRequest,
    by_pattern: RepoMigrateRequest,
    opened: Result<S, String>,
    r: Result<migrate::MigrateReport, OciError>,
)
    requires
        by_class.pattern is None || by_class.pattern->0@.len() == 0,
        by_class.class is Some,
        by_class.class->0@.len() > 0,
        by_pattern.pattern is Some,
        by_pattern.pattern->0@ == by_class.class->0@ + "/*"@,
        by_pattern.to@ == by_class.to@,
        by_pattern.drain == by_class.drain,
    ensures
        admin::pattern_of(text::opt(by_class.pattern), text::opt(by_class.class)) == Some(
            by_class.class->0@ + "/*"@,
        ),
        admin::pattern_of(text::opt(by_pattern.pattern), text::opt(by_pattern.class)) == Some(
            by_class.class->0@ + "/*"@,
        ),
        admin::migrate_ended(was, now, by_class, opened, r) <==> admin::migrate_ended(
            was,
            now,
            by_pattern,
            opened,
            r,
        ),
{
    reveal_strlit("/*");
}

/// A request that names neither a pattern nor a class is refused as a bad request, and
/// nothing is done.
pub proof fn request_for_nothing_is_refused<S: Storage>(
    was: RepoRouter<S>,
    now: RepoRouter<S>,
    body: RepoMigrateRequest,
    opened: Result<S, String>,
    r: Result<migrate::MigrateReport, OciError>,
)
    requires
        body.pattern is None || body.pattern->0@.len() == 0,
        body.class is None || body.class->0@.len() == 0,
        admin::migrate_ended(was, now, body, opened, r),
    ensures
        now == was,
        r is Err,
        r->Err_0@.status == 400,
{
}

} // verus!
