//! What reports count: what is there afterwards that was not there before. And what a
//! migration writes.

use vstd::prelude::*;

use crate::admin;
use crate::admin::{PartitionInfo, RepoMigrateRequest};
use crate::digest::DigestView;
use crate::error::OciError;
use crate::glob;
use crate::laws::collect;
use crate::laws::copy;
use crate::laws::mirror;
use crate::laws::patterns;
use crate::laws::place;
use crate::laws::replica;
use crate::migrate;
use crate::migrate::MigrateReport;
use crate::model;
use crate::model::{Holdings, Reading};
use crate::multi::MultiStore;
use crate::order;
use crate::replicate;
use crate::replicate::ReplicateReport;
use crate::repo_router;
use crate::repo_router::{RepoRouter, RuleView};
use crate::storage;
use crate::storage::{Call, ReferenceView, Storage, StorageError};
use crate::text;
use crate::transfer;
use crate::transfer::TagPointerView;
use crate::walk::{Found, Place};

verus! {

/// `new` has the keys that are there now and were not before, each once.
pub open spec fn are_new<K, V>(a: Map<K, V>, b: Map<K, V>, new: Seq<K>) -> bool {
    &&& new.no_duplicates()
    &&& forall|k: K| #[trigger] new.contains(k) <==> b.contains_key(k) && !a.contains_key(k)
}

proof fn lemma_before(read: Reading, u: Seq<Call>, hv: Seq<Holdings>, v: Seq<Call>, strict: bool)
    requires
        model::works(read, hv, v),
        transfer::honest(u, v, strict),
        v.len() > 0,
    ensures
        model::works(read, hv.drop_last(), v.drop_last()),
        transfer::honest(u, v.drop_last(), strict),
        hv.drop_last().last() == hv[v.len() - 1],
        hv.drop_last()[0] == hv[0],
        model::step(read, hv[v.len() - 1], v.last(), hv.last()),
        transfer::in_order(u, v.drop_last(), v.last(), strict),
        v.len() > 1 ==> model::step(read, hv[v.len() - 2], v.drop_last().last(), hv[v.len() - 1]),
{
    let w = v.drop_last();
    let h = hv.drop_last();
    let n = v.len() - 1;
    assert(v.take(n) =~= w);
    assert(transfer::in_order(u, v.take(n), v[n], strict));
    assert(model::step(read, hv[n], v[n], hv[n + 1]));
    assert forall|i: int| 0 <= i < w.len() implies model::step(read, h[i], #[trigger] w[i], h[i + 1]) by {
        assert(w[i] == v[i]);
        assert(model::step(read, hv[i], v[i], hv[i + 1]));
    }
    assert forall|i: int| 0 <= i < w.len() implies transfer::in_order(
        u,
        w.take(i),
        #[trigger] w[i],
        strict,
    ) by {
        assert(w[i] == v[i]);
        assert(w.take(i) =~= v.take(i));
        assert(transfer::in_order(u, v.take(i), v[i], strict));
    }
    if n > 0 {
        assert(model::step(read, hv[n - 1], v[n - 1], hv[n - 1 + 1]));
        assert(w.last() == v[n - 1]);
    }
}

proof fn lemma_same_sizes(a: Holdings, b: Holdings, blobs: Seq<DigestView>)
    requires
        forall|d: DigestView| #[trigger] blobs.contains(d) ==> a.blobs[d] == b.blobs[d],
    ensures
        collect::total_size(a, blobs) == collect::total_size(b, blobs),
    decreases blobs.len(),
{
    if blobs.len() > 0 {
        let rest = blobs.drop_last();
        assert forall|d: DigestView| #[trigger] rest.contains(d) implies a.blobs[d] == b.blobs[d] by {
            let i = choose|i: int| 0 <= i < rest.len() && rest[i] == d;
            assert(blobs[i] == d);
            assert(blobs.contains(d));
        }
        lemma_same_sizes(a, b, rest);
        assert(blobs.contains(blobs.last()));
    }
}

/// One more call of a copy adds the blob that it writes, and nothing else.
proof fn lemma_one_more(
    read: Reading,
    u: Seq<Call>,
    w: Seq<Call>,
    c: Call,
    strict: bool,
    first: Holdings,
    prev: Holdings,
    a: Holdings,
    b: Holdings,
    before: Seq<DigestView>,
) -> (new: Seq<DigestView>)
    requires
        transfer::in_order(u, w, c, strict),
        model::step(read, a, c, b),
        w.len() > 0 ==> model::step(read, prev, w.last(), a),
        are_new(first.blobs, a.blobs, before),
        first.blobs.submap_of(a.blobs),
    ensures
        are_new(first.blobs, b.blobs, new),
        first.blobs.submap_of(b.blobs),
        match c {
            Call::BlobWrite { content, reply: Ok(_), .. } => new.len() == before.len() + 1
                && collect::total_size(b, new) == collect::total_size(a, before) + content.len(),
            _ => new.len() == before.len() && collect::total_size(b, new) == collect::total_size(
                a,
                before,
            ),
        },
{
    match c {
        Call::BlobWrite { repo, digest, content, reply: Ok(_) } => {
            let q = Call::BlobExists { repo, digest, reply: Ok(false) };
            assert(w.contains(q));
            assert(w.last() == q);
            assert(!a.blobs.contains_key(digest));
            let new = before.push(digest);
            assert(b.blobs == a.blobs.insert(digest, content));
            assert(!first.blobs.contains_key(digest));
            lemma_one_new(first.blobs, a.blobs, b.blobs, before, digest, content);
            assert forall|d: DigestView| #[trigger] before.contains(d) implies a.blobs[d]
                == b.blobs[d] by {
                assert(a.blobs.contains_key(d));
            }
            lemma_same_sizes(a, b, before);
            assert(new.drop_last() =~= before);
            new
        },
        _ => {
            assert(a.blobs == b.blobs);
            lemma_same_sizes(a, b, before);
            before
        },
    }
}

/// The blobs that a copy reports are those that the target has now and had not before, and
/// the bytes are theirs.
pub proof fn copy_counts_the_new_blobs(
    read: Reading,
    u: Seq<Call>,
    hv: Seq<Holdings>,
    v: Seq<Call>,
    strict: bool,
) -> (new: Seq<DigestView>)
    requires
        model::works(read, hv, v),
        transfer::honest(u, v, strict),
    ensures
        are_new(hv[0].blobs, hv.last().blobs, new),
        hv[0].blobs.submap_of(hv.last().blobs),
        transfer::writes(v) == new.len(),
        transfer::written(v) == collect::total_size(hv.last(), new),
    decreases v.len(),
{
    if v.len() == 0 {
        assert(hv.last() == hv[0]);
        Seq::empty()
    } else {
        lemma_before(read, u, hv, v, strict);
        let w = v.drop_last();
        let before = copy_counts_the_new_blobs(read, u, hv.drop_last(), w, strict);
        lemma_one_more(
            read,
            u,
            w,
            v.last(),
            strict,
            hv[0],
            hv[v.len() - 2],
            hv[v.len() - 1],
            hv.last(),
            before,
        )
    }
}

/// One more key that was not there is one more that is new.
proof fn lemma_one_new<K, V>(
    first: Map<K, V>,
    a: Map<K, V>,
    b: Map<K, V>,
    before: Seq<K>,
    k: K,
    v: V,
)
    requires
        are_new(first, a, before),
        !a.contains_key(k),
        b == a.insert(k, v),
        !first.contains_key(k),
    ensures
        are_new(first, b, before.push(k)),
{
    let new = before.push(k);
    assert(!before.contains(k));
    assert forall|x: K| #[trigger] new.contains(x) <==> b.contains_key(x) && !first.contains_key(
        x,
    ) by {
        if new.contains(x) {
            let i = choose|i: int| 0 <= i < new.len() && new[i] == x;
            if i < before.len() {
                assert(before[i] == x);
                assert(before.contains(x));
            }
        }
        if b.contains_key(x) && !first.contains_key(x) {
            if x == k {
                assert(new[before.len() as int] == x);
            } else {
                assert(before.contains(x));
                let i = choose|i: int| 0 <= i < before.len() && before[i] == x;
                assert(new[i] == x);
            }
        }
    }
    assert(new.no_duplicates()) by {
        assert forall|i: int, j: int| 0 <= i < new.len() && 0 <= j < new.len() && i != j implies new[i]
            != new[j] by {
            if i < before.len() && j < before.len() {
                assert(before[i] != before[j]);
            } else if i < before.len() {
                assert(before.contains(before[i]));
            } else if j < before.len() {
                assert(before.contains(before[j]));
            }
        }
    }
}

/// Where a call writes a tag, the manifest is there already.
pub open spec fn is_there(h: Holdings, c: Call) -> bool {
    match c {
        Call::ManifestPut { repo, reference: ReferenceView::Tag(_), content, .. } => {
            h.manifests.contains_key((repo, model::named(content)))
        },
        _ => true,
    }
}

/// One more call of a copy adds the manifest that it puts under its digest, and no other.
proof fn lemma_one_more_manifest(
    read: Reading,
    src: Holdings,
    u: Seq<Call>,
    w: Seq<Call>,
    c: Call,
    strict: bool,
    first: Holdings,
    prev: Holdings,
    a: Holdings,
    b: Holdings,
    before: Seq<Place>,
) -> (new: Seq<Place>)
    requires
        src.sound(),
        copy::all_told(read, src, u),
        transfer::in_order(u, w, c, strict),
        model::step(read, a, c, b),
        w.len() > 0 ==> model::step(read, prev, w.last(), a),
        is_there(a, c),
        are_new(first.manifests, a.manifests, before),
        first.manifests.dom().subset_of(a.manifests.dom()),
    ensures
        are_new(first.manifests, b.manifests, new),
        first.manifests.dom().subset_of(b.manifests.dom()),
        match c {
            Call::ManifestPut { reference: ReferenceView::Digest(_), reply: Ok(_), .. } => new.len()
                == before.len() + 1,
            _ => new.len() == before.len(),
        },
{
    match c {
        Call::ManifestPut { repo, reference, content, reply } => {
            match reference {
                ReferenceView::Digest(d) => {
                    let p: Place = (repo, d);
                    assert(transfer::denied(w.last(), p, strict));
                    assert(transfer::lacked(w, p, strict));
                    assert(w.len() > 0);
                    assert(!a.manifests.contains_key(p));
                    copy::lemma_gave(read, src, u, p, content);
                    assert(model::named(content) == d);
                    assert(!first.manifests.dom().contains(p));
                    lemma_one_new(first.manifests, a.manifests, b.manifests, before, p, content);
                    before.push(p)
                },
                ReferenceView::Tag(_) => {
                    assert(b.manifests.dom() =~= a.manifests.dom());
                    assert forall|k: Place| #[trigger] before.contains(k)
                        <==> b.manifests.contains_key(k) && !first.manifests.contains_key(k) by {
                        assert(b.manifests.dom().contains(k) == a.manifests.dom().contains(k));
                    }
                    before
                },
            }
        },
        _ => {
            assert(a.manifests == b.manifests);
            before
        },
    }
}

/// The manifests that a copy reports are those that the target has now and had not before,
/// where a tag is written only for a manifest that is there.
pub proof fn copy_counts_the_new_manifests(
    read: Reading,
    src: Holdings,
    u: Seq<Call>,
    hv: Seq<Holdings>,
    v: Seq<Call>,
    strict: bool,
) -> (new: Seq<Place>)
    requires
        src.sound(),
        copy::all_told(read, src, u),
        model::works(read, hv, v),
        transfer::honest(u, v, strict),
        forall|k: int| 0 <= k < v.len() ==> is_there(hv[k], #[trigger] v[k]),
    ensures
        are_new(hv[0].manifests, hv.last().manifests, new),
        hv[0].manifests.dom().subset_of(hv.last().manifests.dom()),
        transfer::puts(v) == new.len(),
    decreases v.len(),
{
    if v.len() == 0 {
        assert(hv.last() == hv[0]);
        Seq::empty()
    } else {
        lemma_before(read, u, hv, v, strict);
        let w = v.drop_last();
        let h = hv.drop_last();
        assert forall|k: int| 0 <= k < w.len() implies is_there(h[k], #[trigger] w[k]) by {
            assert(w[k] == v[k]);
        }
        let before = copy_counts_the_new_manifests(read, src, u, h, w, strict);
        assert(is_there(hv[v.len() - 1], v[v.len() - 1]));
        lemma_one_more_manifest(
            read,
            src,
            u,
            w,
            v.last(),
            strict,
            hv[0],
            hv[v.len() - 2],
            hv[v.len() - 1],
            hv.last(),
            before,
        )
    }
}

proof fn lemma_tagged_is_there(
    read: Reading,
    src: Holdings,
    w: Seq<Call>,
    u: Seq<Call>,
    hv: Seq<Holdings>,
    v: Seq<Call>,
    filter: Option<Seq<char>>,
    found: Found,
    tags: Seq<TagPointerView>,
    strict: bool,
)
    requires
        src.sound(),
        copy::all_told(read, src, u),
        model::works(read, hv, v),
        transfer::search_state(w, filter, found, tags),
        transfer::honest(u, v, strict),
        transfer::staged(v),
        transfer::tags_right(u, v, tags),
        transfer::all_done(u, v, found.manifests@, found.blobs@, tags, strict),
    ensures
        forall|k: int| 0 <= k < v.len() ==> is_there(hv[k], #[trigger] v[k]),
{
    assert forall|k: int| 0 <= k < v.len() implies is_there(hv[k], #[trigger] v[k]) by {
        if transfer::writes_tag(v[k]) {
            let j = choose|j: int|
                0 <= j < tags.len() && transfer::points(u, v[k], #[trigger] tags[j]);
            let t = tags[j];
            copy::lemma_pointer_found(w, found, tags, filter, j);
            let p = transfer::place(t.repo, t.digest);
            match v[k] {
                Call::ManifestPut { repo, content, .. } => {
                    copy::lemma_gave(read, src, u, p, content);
                    assert(model::named(content) == t.digest);
                    mirror::lemma_whole_when_tagged(
                        read,
                        src,
                        u,
                        hv,
                        v,
                        found.manifests@,
                        found.blobs@,
                        tags,
                        strict,
                        k,
                    );
                    assert(found.manifests@.contains(p));
                },
                _ => {},
            }
        }
    }
}

/// What became new, over all partitions.
pub struct News {
    pub blobs: Seq<Seq<DigestView>>,
    pub manifests: Seq<Seq<Place>>,
}

pub open spec fn total_len<T>(lists: Seq<Seq<T>>) -> nat
    decreases lists.len(),
{
    if lists.len() == 0 {
        0
    } else {
        total_len(lists.drop_last()) + lists.last().len()
    }
}

/// The sizes of the blobs in the lists, each on its partition, added up.
pub open spec fn total_bytes(hs: Seq<Seq<Holdings>>, lists: Seq<Seq<DigestView>>) -> nat
    decreases lists.len(),
{
    if lists.len() == 0 {
        0
    } else {
        total_bytes(hs, lists.drop_last()) + collect::total_size(
            hs[lists.len() - 1].last(),
            lists.last(),
        )
    }
}

/// The lists have, for each of the first partitions, what is new on it.
pub open spec fn are_news(hs: Seq<Seq<Holdings>>, n: nat, news: News) -> bool {
    &&& news.blobs.len() == n
    &&& news.manifests.len() == n
    &&& forall|i: int|
        0 <= i < n ==> are_new(hs[i][0].blobs, hs[i].last().blobs, #[trigger] news.blobs[i])
    &&& forall|i: int|
        0 <= i < n ==> are_new(
            hs[i][0].manifests,
            hs[i].last().manifests,
            #[trigger] news.manifests[i],
        )
}

proof fn lemma_news<S: Storage>(
    read: Reading,
    was: MultiStore<S>,
    now: MultiStore<S>,
    filter: Option<Seq<char>>,
    m: int,
    found: Found,
    tags: Seq<TagPointerView>,
    hs: Seq<Seq<Holdings>>,
    n: nat,
) -> (news: News)
    requires
        replicate::replicated(was, now, filter, m, found, tags),
        was.primary < was.partitions@.len(),
        n <= was.partitions@.len(),
        hs.len() == was.partitions@.len(),
        forall|i: int|
            0 <= i < hs.len() ==> model::works(
                read,
                #[trigger] hs[i],
                replicate::calls_at(was.partitions@, now.partitions@, i),
            ),
        hs[was.primary as int][0].sound(),
    ensures
        are_news(hs, n, news),
        replicate::total_writes(was.partitions@, now.partitions@, was.primary as int, n)
            == total_len(news.blobs),
        replicate::total_written(was.partitions@, now.partitions@, was.primary as int, n)
            == total_bytes(hs, news.blobs),
        replicate::total_puts(was.partitions@, now.partitions@, was.primary as int, n)
            == total_len(news.manifests),
    decreases n,
{
    let a = was.partitions@;
    let b = now.partitions@;
    let p = was.primary as int;
    if n == 0 {
        News { blobs: Seq::empty(), manifests: Seq::empty() }
    } else {
        let rest = lemma_news(read, was, now, filter, m, found, tags, hs, (n - 1) as nat);
        let i = n - 1;
        let src = hs[p][0];
        replica::lemma_primary_quiet(read, was, now, filter, m, found, tags, hs[p]);
        let calls = replicate::calls_at(a, b, p);
        let u = calls.subrange(m, calls.len() as int);
        let v = replicate::calls_at(a, b, i);
        let (x, y) = if i == p {
            assert(hs[p].last() == hs[p][0]);
            (Seq::<DigestView>::empty(), Seq::<Place>::empty())
        } else {
            assert(replicate::caught_up(a, b, u, i, found, tags));
            lemma_tagged_is_there(
                read,
                src,
                calls.take(m),
                u,
                hs[i],
                v,
                filter,
                found,
                tags,
                true,
            );
            (
                copy_counts_the_new_blobs(read, u, hs[i], v, true),
                copy_counts_the_new_manifests(read, src, u, hs[i], v, true),
            )
        };
        let news = News { blobs: rest.blobs.push(x), manifests: rest.manifests.push(y) };
        assert(news.blobs.drop_last() =~= rest.blobs);
        assert(news.manifests.drop_last() =~= rest.manifests);
        assert(collect::total_size(hs[p].last(), Seq::<DigestView>::empty()) == 0);
        assert forall|k: int| 0 <= k < n implies are_new(
            hs[k][0].blobs,
            hs[k].last().blobs,
            #[trigger] news.blobs[k],
        ) by {
            if k < i {
                assert(news.blobs[k] == rest.blobs[k]);
            }
        }
        assert forall|k: int| 0 <= k < n implies are_new(
            hs[k][0].manifests,
            hs[k].last().manifests,
            #[trigger] news.manifests[k],
        ) by {
            if k < i {
                assert(news.manifests[k] == rest.manifests[k]);
            }
        }
        news
    }
}

/// A report of a replication says how many blobs and manifests are on the secondaries now
/// that were not before, and how many bytes these blobs have.
///
/// `hs[i]` is what the partition `i` holds during the pass.
pub proof fn replication_reports_what_is_new<S: Storage>(
    read: Reading,
    was: MultiStore<S>,
    now: MultiStore<S>,
    filter: Option<Seq<char>>,
    m: int,
    found: Found,
    tags: Seq<TagPointerView>,
    r: ReplicateReport,
    hs: Seq<Seq<Holdings>>,
) -> (news: News)
    requires
        replicate::replicated(was, now, filter, m, found, tags),
        replicate::reported(was, now, r),
        was.primary < was.partitions@.len(),
        hs.len() == was.partitions@.len(),
        forall|i: int|
            0 <= i < hs.len() ==> model::works(
                read,
                #[trigger] hs[i],
                replicate::calls_at(was.partitions@, now.partitions@, i),
            ),
        hs[was.primary as int][0].sound(),
    ensures
        are_news(hs, was.partitions@.len(), news),
        r.partitions_scanned == was.partitions@.len() - 1,
        total_len(news.blobs) <= usize::MAX ==> r.blobs_copied == total_len(news.blobs),
        total_bytes(hs, news.blobs) <= u64::MAX ==> r.bytes_copied == total_bytes(hs, news.blobs),
        total_len(news.manifests) <= usize::MAX ==> r.manifests_copied == total_len(news.manifests),
{
    lemma_news(read, was, now, filter, m, found, tags, hs, was.partitions@.len())
}

/// A migration that went through says that the rule points at the new volume, and counts
/// what the calls at that volume wrote; without a drain nothing was purged.
pub proof fn migration_reports_what_it_wrote<S: Storage>(
    was: RepoRouter<S>,
    now: RepoRouter<S>,
    pattern: Seq<char>,
    new: usize,
    drains: bool,
    r: MigrateReport,
    i: int,
)
    requires
        migrate::migrated(was, now, pattern, new, drains, Ok(r)),
        repo_router::first_with_pattern(was.table(), pattern, i),
        was.table()[i].chain != seq![new],
        new < was.volumes@.len(),
    ensures
        ({
            let v = storage::added(
                was.volumes@[new as int].storage.log(),
                now.volumes@[new as int].storage.log(),
            );
            &&& r.cutover
            &&& r.duration_ms == 0
            &&& transfer::writes(v) <= usize::MAX ==> r.blobs_copied == transfer::writes(v)
            &&& transfer::written(v) <= u64::MAX ==> r.bytes_copied == transfer::written(v)
            &&& transfer::puts(v) <= usize::MAX ==> r.manifests_copied == transfer::puts(v)
            &&& !drains ==> r.blobs_purged == 0 && r.bytes_purged == 0
        }),
{
    if migrate::already_there(was, now, pattern, new) {
        let j = choose|j: int| #[trigger]
            repo_router::first_with_pattern(was.table(), pattern, j) && was.table()[j].chain
                == seq![new];
        assert(i == j);
    } else {
        let (rule, mid, lists) = choose|
            rule: int,
            mid: Seq<crate::fanout::Partition<S>>,
            lists: Seq<Vec<String>>,
        | #[trigger] migrate::moved(was, now, pattern, new, drains, r, rule, mid, lists);
        let sources = repo_router::without(was.table()[rule].chain, new);
        if drains {
            lemma_left_out(was.table()[rule].chain, new);
            assert(!migrate::source_set(sources).contains(new as int));
            assert(now.volumes@[new as int] == mid[new as int]);
        }
    }
}

proof fn lemma_left_out(chain: Seq<usize>, x: usize)
    ensures
        !repo_router::without(chain, x).contains(x),
    decreases chain.len(),
{
    let w = repo_router::without(chain, x);
    if chain.len() > 0 {
        lemma_left_out(chain.drop_last(), x);
        let rest = repo_router::without(chain.drop_last(), x);
        if w.contains(x) {
            let k = choose|k: int| 0 <= k < w.len() && w[k] == x;
            assert(k < rest.len());
            assert(rest[k] == x);
        }
    }
}

/// The repositories that move with a rule are those of the list for which it is chosen and
/// that its pattern matches.
pub proof fn what_the_rule_is_chosen_for_moves(
    rules: Seq<RuleView>,
    i: int,
    list: Seq<Seq<char>>,
    repo: Seq<char>,
)
    requires
        0 <= i < rules.len(),
    ensures
        migrate::moving(rules, i, list).contains(repo) <==> list.contains(repo)
            && patterns::is_chosen(rules, repo, i) && glob::matches(rules[i].pattern, repo),
        list.no_duplicates() ==> migrate::moving(rules, i, list).no_duplicates(),
        migrate::moving(rules, i, list).len() <= list.len(),
    decreases list.len(),
{
    let all = migrate::moving(rules, i, list);
    if list.len() > 0 {
        let rest = list.drop_last();
        let x = list.last();
        what_the_rule_is_chosen_for_moves(rules, i, rest, repo);
        what_the_rule_is_chosen_for_moves(rules, i, rest, x);
        patterns::deciding_is_being_chosen(rules, repo, i);
        patterns::deciding_is_being_chosen(rules, x, i);
        let before = migrate::moving(rules, i, rest);
        if all.contains(repo) {
            let k = choose|k: int| 0 <= k < all.len() && all[k] == repo;
            if k < before.len() {
                assert(before[k] == repo);
                assert(before.contains(repo));
                let j = choose|j: int| 0 <= j < rest.len() && rest[j] == repo;
                assert(list[j] == repo);
            } else {
                assert(list[list.len() - 1] == repo);
            }
        }
        if list.contains(repo) && patterns::is_chosen(rules, repo, i) && glob::matches(
            rules[i].pattern,
            repo,
        ) {
            let j = choose|j: int| 0 <= j < list.len() && list[j] == repo;
            if j < rest.len() {
                assert(rest[j] == repo);
                assert(before.contains(repo));
                let k = choose|k: int| 0 <= k < before.len() && before[k] == repo;
                assert(all[k] == repo);
            } else {
                assert(all[before.len() as int] == repo);
            }
        }
        if list.no_duplicates() {
            assert(rest.no_duplicates());
            assert(!rest.contains(x)) by {
                if rest.contains(x) {
                    let j = choose|j: int| 0 <= j < rest.len() && rest[j] == x;
                    assert(list[j] == list[list.len() - 1]);
                }
            }
            assert forall|a: int, b: int|
                0 <= a < all.len() && 0 <= b < all.len() && a != b implies all[a] != all[b] by {
                if a < before.len() && b < before.len() {
                    assert(before[a] != before[b]);
                } else if a < before.len() {
                    assert(before.contains(before[a]));
                } else if b < before.len() {
                    assert(before.contains(before[b]));
                }
            }
        }
    } else {
        if all.contains(repo) {
            let k = choose|k: int| 0 <= k < all.len() && all[k] == repo;
        }
    }
}

/// A filter lets the tags through that it matches, and without one all go through.
pub proof fn filter_lets_through_what_it_matches(g: Seq<char>, tag: Seq<char>)
    ensures
        transfer::selected(None, tag),
        transfer::selected(Some(g), tag) <==> glob::matches(g, tag),
{
}

/// What is told of a partition is what it holds: as many blobs and repositories as are
/// listed, each once.
pub proof fn partition_is_counted(
    read: Reading,
    hs: Seq<Holdings>,
    calls: Seq<Call>,
    info: PartitionInfo,
)
    requires
        model::works(read, hs, calls),
        admin::counted(calls, info),
        calls[0]->ListAllBlobs_reply->Ok_0.no_duplicates(),
        calls[1]->ListRepos_reply->Ok_0.no_duplicates(),
    ensures
        hs.last() == hs[0],
        hs[0].blobs.dom().finite(),
        info.blob_count == hs[0].blobs.dom().len(),
        info.repo_count == calls[1]->ListRepos_reply->Ok_0.len(),
        forall|r: Seq<char>| #[trigger]
            calls[1]->ListRepos_reply->Ok_0.contains(r) <==> hs[0].knows(r),
{
    assert forall|i: int| 0 <= i < calls.len() implies model::quiet(#[trigger] calls[i]) by {
    }
    model::lemma_quiet(read, hs, calls, calls.len() as int);
    assert(hs.last() == hs[hs.len() - 1]);
    assert(hs[1] == hs[0]);
    assert(model::step(read, hs[0], calls[0], hs[1]));
    assert(model::step(read, hs[1], calls[1], hs[2]));
    let list = calls[0]->ListAllBlobs_reply->Ok_0;
    list.unique_seq_to_set();
    assert(list.to_set() =~= hs[0].blobs.dom());
}

/// How many manifests a partition has: those of all its repositories, added up.
pub open spec fn told(calls: Seq<Call>) -> Seq<Seq<DigestView>> {
    Seq::new(
        (calls.len() - 2) as nat,
        |i: int| calls[i + 2]->ListManifestDigests_reply->Ok_0,
    )
}

proof fn lemma_told(calls: Seq<Call>, n: nat)
    requires
        admin::counting(calls),
        2 <= n <= calls.len(),
        storage::error_of(calls.last()) is None,
    ensures
        admin::manifests_listed(calls.take(n as int)) == total_len(told(calls.take(n as int))),
    decreases n,
{
    let c = calls.take(n as int);
    if n == 2 {
        assert(c.drop_last().drop_last() =~= Seq::<Call>::empty());
        assert(c.last() == calls[1]);
        assert(c.drop_last().last() == calls[0]);
        assert(admin::manifests_listed(Seq::<Call>::empty()) == 0);
        assert(admin::manifests_listed(c.drop_last()) == 0);
        assert(told(c) =~= Seq::<Seq<DigestView>>::empty());
    } else {
        lemma_told(calls, (n - 1) as nat);
        assert(c.drop_last() =~= calls.take(n - 1));
        assert(told(c).drop_last() =~= told(calls.take(n - 1)));
        let x = calls[n - 1];
        assert(c.last() == x);
        assert(storage::error_of(x) is None) by {
            if n < calls.len() {
                assert(x->ListManifestDigests_reply is Ok);
            }
        }
        assert(x is ListManifestDigests);
        assert(told(c).last() == x->ListManifestDigests_reply->Ok_0);
    }
}

/// The manifests that are told of a partition are those of its repositories.
pub proof fn manifests_are_counted(
    read: Reading,
    hs: Seq<Holdings>,
    calls: Seq<Call>,
    info: PartitionInfo,
)
    requires
        model::works(read, hs, calls),
        admin::counted(calls, info),
        total_len(told(calls)) <= usize::MAX,
    ensures
        info.manifest_count == total_len(told(calls)),
        told(calls).len() == calls[1]->ListRepos_reply->Ok_0.len(),
        forall|i: int|
            0 <= i < told(calls).len() ==> are_manifests_of(
                hs[0],
                calls[1]->ListRepos_reply->Ok_0[i],
                #[trigger] told(calls)[i],
            ),
{
    assert forall|i: int| 0 <= i < calls.len() implies model::quiet(#[trigger] calls[i]) by {
    }
    model::lemma_quiet(read, hs, calls, calls.len() as int);
    lemma_told(calls, calls.len());
    assert(calls.take(calls.len() as int) =~= calls);
    assert forall|i: int| 0 <= i < told(calls).len() implies are_manifests_of(
        hs[0],
        calls[1]->ListRepos_reply->Ok_0[i],
        #[trigger] told(calls)[i],
    ) by {
        assert(hs[i + 2] == hs[0]);
        lemma_listed(read, hs, calls, i + 2);
    }
}

/// The list has the manifests of the repository.
pub open spec fn are_manifests_of(h: Holdings, repo: Seq<char>, ds: Seq<DigestView>) -> bool {
    forall|d: DigestView| #[trigger] ds.contains(d) <==> h.manifests.contains_key((repo, d))
}

proof fn lemma_listed(read: Reading, hs: Seq<Holdings>, calls: Seq<Call>, i: int)
    requires
        model::works(read, hs, calls),
        admin::counting(calls),
        2 <= i < calls.len(),
    ensures
        are_manifests_of(
            hs[i],
            calls[1]->ListRepos_reply->Ok_0[i - 2],
            calls[i]->ListManifestDigests_reply->Ok_0,
        ),
{
    assert(model::step(read, hs[i], calls[i], hs[i + 1]));
}

/// Every partition is told of under its name, and exactly one of them as the primary.
pub proof fn partitions_are_told_by_name<S: Storage>(
    was: MultiStore<S>,
    now: MultiStore<S>,
    infos: Seq<PartitionInfo>,
    i: int,
)
    requires
        admin::partitions_counted(was, now, infos, was.partitions@.len() as int),
        0 <= i < was.partitions@.len(),
    ensures
        infos[i].name@ == was.partitions@[i].name@,
        infos[i].primary <==> was.primary == i,
        admin::counted(
            storage::added(
                was.partitions@[i].storage.log(),
                now.partitions@[i].storage.log(),
            ),
            infos[i],
        ),
{
    assert(admin::partition_counted(was, now, i, infos[i]));
}

proof fn lemma_total_len(lists: Seq<Vec<String>>)
    ensures
        migrate::total_len(lists) == total_len(names_in(lists)),
    decreases lists.len(),
{
    if lists.len() > 0 {
        lemma_total_len(lists.drop_last());
        assert(names_in(lists).drop_last() =~= names_in(lists.drop_last()));
        assert(names_in(lists).last() == order::views_of(lists.last()@));
    }
}

/// The lists as mathematical values.
pub open spec fn names_in(lists: Seq<Vec<String>>) -> Seq<Seq<Seq<char>>> {
    Seq::new(lists.len(), |j: int| order::views_of(lists[j]@))
}

/// The first call that a volume was asked since then.
pub open spec fn first_call<S: Storage>(
    was: RepoRouter<S>,
    now: RepoRouter<S>,
    s: int,
) -> Call {
    now.volumes@[s].storage.log()[was.volumes@[s].storage.log().len() as int]
}

/// The names that a volume listed, of repositories that move with the rule.
pub open spec fn are_moved(c: Call, rules: Seq<RuleView>, i: int, names: Seq<Seq<char>>) -> bool {
    &&& c is ListRepos
    &&& c->ListRepos_reply is Ok
    &&& names == migrate::moving(rules, i, c->ListRepos_reply->Ok_0)
}

/// A migration that went through reports as many repositories as moved, from all the old
/// volumes: those that a volume listed and that move with the rule.
pub proof fn migration_reports_how_many_moved<S: Storage>(
    was: RepoRouter<S>,
    now: RepoRouter<S>,
    pattern: Seq<char>,
    new: usize,
    drains: bool,
    r: MigrateReport,
    i: int,
) -> (lists: Seq<Seq<Seq<char>>>)
    requires
        migrate::migrated(was, now, pattern, new, drains, Ok(r)),
        repo_router::first_with_pattern(was.table(), pattern, i),
        was.table()[i].chain != seq![new],
        forall|k: int|
            0 <= k < was.table()[i].chain.len() ==> #[trigger] was.table()[i].chain[k]
                < was.volumes@.len(),
    ensures
        total_len(lists) <= usize::MAX ==> r.repos_migrated == total_len(lists),
        ({
            let sources = repo_router::without(was.table()[i].chain, new);
            let overlay = repo_router::upserted(was.table(), pattern, seq![new] + sources);
            &&& lists.len() == sources.len()
            &&& forall|j: int|
                0 <= j < lists.len() ==> are_moved(
                    first_call(was, now, sources[sources.len() - 1 - j] as int),
                    overlay,
                    i,
                    #[trigger] lists[j],
                )
        }),
{
    if migrate::already_there(was, now, pattern, new) {
        let j = choose|j: int| #[trigger]
            repo_router::first_with_pattern(was.table(), pattern, j) && was.table()[j].chain
                == seq![new];
        assert(i == j);
    }
    let (rule, mid, lists) = choose|
        rule: int,
        mid: Seq<crate::fanout::Partition<S>>,
        lists: Seq<Vec<String>>,
    | #[trigger] migrate::moved(was, now, pattern, new, drains, r, rule, mid, lists);
    assert(rule == i);
    let sources = repo_router::without(was.table()[i].chain, new);
    let overlay = repo_router::upserted(was.table(), pattern, seq![new] + sources);
    let out = names_in(lists);
    lemma_total_len(lists);
    lemma_from_chain(was.table()[i].chain, new);
    assert forall|j: int| 0 <= j < out.len() implies are_moved(
        first_call(was, now, sources[sources.len() - 1 - j] as int),
        overlay,
        i,
        #[trigger] out[j],
    ) by {
        let s = sources[sources.len() - 1 - j] as int;
        assert(was.table()[i].chain.contains(sources[sources.len() - 1 - j]));
        let k = choose|k: int|
            0 <= k < was.table()[i].chain.len() && was.table()[i].chain[k]
                == sources[sources.len() - 1 - j];
        assert(was.table()[i].chain[k] < was.volumes@.len());
        assert(s == migrate::source_of(sources, j));
        let u = migrate::calls_at(was.volumes@, mid, s);
        assert(migrate::filled_from(
            migrate::calls_at(was.volumes@, mid, migrate::source_of(sources, j)),
            migrate::calls_at(was.volumes@, mid, new as int),
            overlay,
            i,
            order::views_of(lists[j]@),
        ));
        let a = was.volumes@[s].storage.log();
        let b = mid[s].storage.log();
        let c = now.volumes@[s].storage.log();
        assert(u[0] == b[a.len() as int]);
        if drains {
            assert(storage::extends(b, c));
            assert(c.subrange(0, b.len() as int)[a.len() as int] == c[a.len() as int]);
        }
    }
    out
}

/// What is left of a chain was in it.
proof fn lemma_from_chain(chain: Seq<usize>, x: usize)
    ensures
        forall|k: int|
            0 <= k < repo_router::without(chain, x).len() ==> chain.contains(
                #[trigger] repo_router::without(chain, x)[k],
            ),
    decreases chain.len(),
{
    if chain.len() > 0 {
        let head = chain.drop_last();
        lemma_from_chain(head, x);
        let w = repo_router::without(chain, x);
        let v = repo_router::without(head, x);
        assert forall|k: int| 0 <= k < w.len() implies chain.contains(#[trigger] w[k]) by {
            if k < v.len() {
                assert(w[k] == v[k]);
                assert(head.contains(v[k]));
                let i = choose|i: int| 0 <= i < head.len() && head[i] == v[k];
                assert(chain[i] == w[k]);
            } else {
                assert(chain[chain.len() - 1] == w[k]);
            }
        }
    }
}

/// The repository that a call writes to.
pub open spec fn written_to(c: Call) -> Option<Seq<char>> {
    match c {
        Call::BlobWrite { repo, .. } => Some(repo),
        Call::ManifestPut { repo, .. } => Some(repo),
        _ => None,
    }
}

/// However a migration ends, it writes nothing to the new volume but repositories that the
/// pattern matches and for which its rule is chosen.
pub proof fn migration_writes_only_what_moves<S: Storage>(
    was: RepoRouter<S>,
    now: RepoRouter<S>,
    pattern: Seq<char>,
    new: usize,
    drains: bool,
    r: Result<MigrateReport, StorageError>,
    i: int,
    k: int,
)
    requires
        migrate::migrated(was, now, pattern, new, drains, r),
        repo_router::first_with_pattern(was.table(), pattern, i),
        new < was.volumes@.len(),
        was.volumes@[new as int].storage.log().len() <= k
            < now.volumes@[new as int].storage.log().len(),
    ensures
        written_to(now.volumes@[new as int].storage.log()[k]) matches Some(repo) ==> glob::matches(
            pattern,
            repo,
        ) && patterns::is_chosen(
            repo_router::upserted(
                was.table(),
                pattern,
                seq![new] + repo_router::without(was.table()[i].chain, new),
            ),
            repo,
            i,
        ),
{
    let sources = repo_router::without(was.table()[i].chain, new);
    let overlay = repo_router::upserted(was.table(), pattern, seq![new] + sources);
    let t = new as int;
    let a = was.volumes@[t].storage.log();
    let b = now.volumes@[t].storage.log();
    assert(repo_router::has_pattern(was.table(), pattern));
    assert(overlay[i].pattern == pattern && i < overlay.len());
    lemma_left_out(was.table()[i].chain, new);
    assert(!migrate::source_set(sources).contains(t));
    let v = migrate::calls_at(was.volumes@, now.volumes@, t);
    if now.volumes != was.volumes {
        match r {
            Ok(report) => {
                let (rule, mid, lists) = choose|
                    rule: int,
                    mid: Seq<crate::fanout::Partition<S>>,
                    lists: Seq<Vec<String>>,
                | #[trigger]
                    migrate::moved(was, now, pattern, new, drains, report, rule, mid, lists);
                assert(rule == i);
                assert(now.volumes@[t] == mid[t]);
            },
            Err(e) => {
                if exists|rule: int| #[trigger]
                    migrate::left_on_overlay(was, now, pattern, new, rule, e) {
                    let rule = choose|rule: int| #[trigger]
                        migrate::left_on_overlay(was, now, pattern, new, rule, e);
                    assert(rule == i);
                } else {
                    let (rule, mid) = choose|rule: int, mid: Seq<crate::fanout::Partition<S>>|
                        #[trigger] migrate::left_undrained(was, now, pattern, new, rule, mid, e);
                    assert(rule == i);
                    assert(now.volumes@[t] == mid[t]);
                }
            },
        }
        assert(migrate::only_moving(v, overlay, i));
        assert(v[k - a.len()] == b[k]);
        if let Some(repo) = written_to(b[k]) {
            assert(migrate::writes_moving(v[k - a.len()], overlay, i));
            patterns::deciding_is_being_chosen(overlay, repo, i);
        }
    }
}

/// A request to migrate names a pattern, or a class, which stands for all its repositories;
/// a pattern that is not empty comes first. One that names neither is bad, and a directory
/// that cannot be opened is told of.
pub proof fn request_names_a_pattern_or_a_class(
    p: Seq<char>,
    c: Seq<char>,
    other: Option<Seq<char>>,
    message: Seq<char>,
    root: Seq<char>,
)
    requires
        p.len() > 0,
        c.len() > 0,
    ensures
        admin::pattern_of(Some(p), other) == Some(p),
        admin::pattern_of(None, Some(c)) == Some(c + seq!['/', '*']),
        admin::pattern_of(Some(Seq::empty()), Some(c)) == Some(c + seq!['/', '*']),
        admin::pattern_of(None, None) is None,
        admin::pattern_of(None, Some(Seq::empty())) is None,
        admin::pattern_of(Some(Seq::empty()), None) is None,
        admin::pattern_of(Some(Seq::empty()), Some(Seq::empty())) is None,
        admin::bad_request(message).status == 400,
        admin::bad_request(message).message == message,
        admin::cannot_open(root, message).status == 500,
        admin::cannot_open(root, message).message == "opening root "@ + root + ": "@ + message,
{
    reveal_strlit("/*");
    assert("/*"@ =~= seq!['/', '*']);
}

/// A request to migrate that does not ask for a drain purges nothing.
pub proof fn no_drain_unless_asked_for<S: Storage>(
    was: RepoRouter<S>,
    now: RepoRouter<S>,
    body: RepoMigrateRequest,
    opened: Result<S, String>,
    report: MigrateReport,
)
    requires
        admin::migrate_ended(was, now, body, opened, Ok::<MigrateReport, OciError>(report)),
        !body.drain,
    ensures
        opened is Ok,
        report.blobs_purged == 0,
        report.bytes_purged == 0,
{
    let pattern = admin::pattern_of(text::opt(body.pattern), text::opt(body.class))->0;
    let (w, new, got) = choose|
        w: RepoRouter<S>,
        new: usize,
        got: Result<MigrateReport, StorageError>,
    |
        admin::with_root(was, w, body.to@, opened->Ok_0, new) && #[trigger] migrate::migrated(
            w,
            now,
            pattern,
            new,
            body.drain,
            got,
        ) && got == Ok::<_, StorageError>(report);
    assert(got == Ok::<_, StorageError>(report));
    if !migrate::already_there(w, now, pattern, new) {
        let (rule, mid, lists) = choose|
            rule: int,
            mid: Seq<crate::fanout::Partition<S>>,
            lists: Seq<Vec<String>>,
        | #[trigger] migrate::moved(w, now, pattern, new, false, report, rule, mid, lists);
    }
}

} // verus!
