//! A replication pass makes every secondary hold what the primary holds.

use vstd::prelude::*;

use crate::digest::DigestView;
use crate::laws::copy;
use crate::laws::refers;
use crate::model;
use crate::model::{Holdings, Reading};
use crate::multi::MultiStore;
use crate::replicate;
use crate::replicate::ReplicateReport;
use crate::storage::{Call, ReferenceView, Storage};
use crate::transfer;
use crate::transfer::TagPointerView;
use crate::walk;
use crate::walk::{Found, Place};

verus! {

/// Every tag of the primary that passes the filter and leads to a manifest points to the
/// same manifest on the secondary, and without a filter every manifest is there.
pub open spec fn replica_of(
    src: Holdings,
    dst: Holdings,
    filter: Option<Seq<char>>,
    m: Set<Place>,
) -> bool {
    &&& forall|repo: Seq<char>, t: Seq<char>| #[trigger]
        src.tags.contains_key((repo, t)) && transfer::selected(filter, t)
            && src.manifests.contains_key((repo, src.tags[(repo, t)])) ==> {
            let d = src.tags[(repo, t)];
            &&& dst.tags.contains_key((repo, t))
            &&& dst.tags[(repo, t)] == d
            &&& m.contains((repo, d))
        }
    &&& filter is None ==> forall|p: Place| #[trigger]
        src.manifests.contains_key(p) ==> m.contains(p)
}

/// The primary is only read.
pub proof fn lemma_primary_quiet<S: Storage>(
    read: Reading,
    was: MultiStore<S>,
    now: MultiStore<S>,
    filter: Option<Seq<char>>,
    m: int,
    found: Found,
    tags: Seq<TagPointerView>,
    hp: Seq<Holdings>,
)
    requires
        replicate::replicated(was, now, filter, m, found, tags),
        model::works(
            read,
            hp,
            replicate::calls_at(was.partitions@, now.partitions@, was.primary as int),
        ),
    ensures
        ({
            let calls = replicate::calls_at(was.partitions@, now.partitions@, was.primary as int);
            &&& copy::all_told(read, hp[0], calls.take(m))
            &&& copy::all_told(read, hp[0], calls.subrange(m, calls.len() as int))
            &&& hp.last() == hp[0]
        }),
{
    let calls = replicate::calls_at(was.partitions@, now.partitions@, was.primary as int);
    let w = calls.take(m);
    let u = calls.subrange(m, calls.len() as int);
    assert forall|k: int| 0 <= k < calls.len() implies transfer::is_read(#[trigger] calls[k]) by {
        if k < m {
            assert(w[k] == calls[k]);
            assert(walk::looks(w[k]));
        } else {
            assert(u[k - m] == calls[k]);
            assert(transfer::asks_wanted(u[k - m], found.manifests@, found.blobs@, tags));
        }
    }
    copy::lemma_reads(read, hp, calls);
    assert forall|k: int| 0 <= k < w.len() implies model::step(read, hp[0], #[trigger] w[k], hp[0]) by {
        assert(w[k] == calls[k]);
    }
    assert forall|k: int| 0 <= k < u.len() implies model::step(read, hp[0], #[trigger] u[k], hp[0]) by {
        assert(u[k] == calls[m + k]);
    }
    assert(hp.last() == hp[hp.len() - 1]);
}

/// After a pass a secondary holds, besides what it held, everything wanted that the
/// primary holds: the tags that pass the filter, pointing to the same manifests, these
/// manifests with their children and blobs, and without a filter all manifests. The
/// primary is unchanged.
pub proof fn replica_has_everything<S: Storage>(
    read: Reading,
    was: MultiStore<S>,
    now: MultiStore<S>,
    filter: Option<Seq<char>>,
    m: int,
    found: Found,
    tags: Seq<TagPointerView>,
    i: int,
    hp: Seq<Holdings>,
    hs: Seq<Holdings>,
)
    requires
        replicate::replicated(was, now, filter, m, found, tags),
        0 <= i < was.partitions@.len(),
        i != was.primary,
        model::works(
            read,
            hp,
            replicate::calls_at(was.partitions@, now.partitions@, was.primary as int),
        ),
        model::works(read, hs, replicate::calls_at(was.partitions@, now.partitions@, i)),
        hp[0].sound(),
    ensures
        hp.last() == hp[0],
        copy::includes(hs.last(), hs[0]),
        copy::mirrored(read, hp[0], hs.last(), found.manifests@),
        replica_of(hp[0], hs.last(), filter, found.manifests@),
{
    let calls = replicate::calls_at(was.partitions@, now.partitions@, was.primary as int);
    let w = calls.take(m);
    let u = calls.subrange(m, calls.len() as int);
    let v = replicate::calls_at(was.partitions@, now.partitions@, i);
    let src = hp[0];
    let dst = hs.last();
    lemma_primary_quiet(read, was, now, filter, m, found, tags, hp);
    assert(replicate::caught_up(was.partitions@, now.partitions@, u, i, found, tags));
    copy::copy_brings_everything(read, src, w, u, hs, v, filter, found, tags, true);
    assert(model::step(read, src, w[0], src));
    let repos = w[0]->ListRepos_reply->Ok_0;
    assert forall|repo: Seq<char>, t: Seq<char>| #[trigger]
        src.tags.contains_key((repo, t)) && transfer::selected(filter, t)
            && src.manifests.contains_key((repo, src.tags[(repo, t)])) implies {
        let d = src.tags[(repo, t)];
        &&& dst.tags.contains_key((repo, t))
        &&& dst.tags[(repo, t)] == d
        &&& found.manifests@.contains((repo, d))
    } by {
        assert(src.knows(repo));
        assert(repos.contains(repo));
        let j = choose|j: int| 0 <= j < repos.len() && repos[j] == repo;
        assert(transfer::repo_searched(w, repos[j], filter, found.manifests@, tags));
        copy::search_finds_all(read, src, w, repo, filter, found.manifests@, tags);
        let x = choose|x: TagPointerView| #[trigger]
            tags.contains(x) && x.repo == repo && x.tag == t;
        let q = choose|q: int| 0 <= q < tags.len() && tags[q] == x;
        assert(copy::true_pointer(src, tags[q]));
        assert(copy::true_pointer(dst, tags[q]));
    }
    if filter is None {
        assert forall|p: Place| #[trigger]
            src.manifests.contains_key(p) implies found.manifests@.contains(p) by {
            let repo = p.0;
            assert(src.manifests.contains_key((repo, p.1)));
            assert(src.knows(repo));
            assert(repos.contains(repo));
            let j = choose|j: int| 0 <= j < repos.len() && repos[j] == repo;
            assert(transfer::repo_searched(w, repos[j], filter, found.manifests@, tags));
            copy::search_finds_all(read, src, w, repo, filter, found.manifests@, tags);
            assert(found.manifests@.contains((repo, p.1)));
        }
    }
}

/// Nothing was written to any of the first `n` partitions other than `p`.
proof fn lemma_totals_zero<S: Storage>(
    was: Seq<crate::fanout::Partition<S>>,
    now: Seq<crate::fanout::Partition<S>>,
    p: int,
    n: nat,
)
    requires
        forall|i: int|
            0 <= i < n && i != p ==> {
                let v = #[trigger] replicate::calls_at(was, now, i);
                &&& transfer::writes(v) == 0
                &&& transfer::written(v) == 0
                &&& transfer::puts(v) == 0
            },
    ensures
        replicate::total_writes(was, now, p, n) == 0,
        replicate::total_written(was, now, p, n) == 0,
        replicate::total_puts(was, now, p, n) == 0,
    decreases n,
{
    if n > 0 {
        lemma_totals_zero(was, now, p, (n - 1) as nat);
        if n - 1 != p {
            let v = replicate::calls_at(was, now, n - 1);
            assert(transfer::writes(v) == 0);
        }
    }
}

/// A manifest that was found needs the blob.
pub open spec fn needed(read: Reading, h: Holdings, m: Set<Place>, b: Place) -> bool {
    exists|k: Place| #[trigger] m.contains(k) && k.0 == b.0 && needs_blob(read, h, k, b.1)
}

/// The manifest at `k` needs the blob `d`.
pub open spec fn needs_blob(read: Reading, h: Holdings, k: Place, d: DigestView) -> bool {
    &&& h.manifests.contains_key(k)
    &&& read(h.manifests[k]) is Some
    &&& refers::has_as_blob(read(h.manifests[k])->0, d)
}

/// What a search of a store that works found is there: the manifests, and for each
/// blob a manifest that needs it; and the tags point to found manifests.
pub proof fn lemma_found_is_held(
    read: Reading,
    src: Holdings,
    w: Seq<Call>,
    filter: Option<Seq<char>>,
    found: Found,
    tags: Seq<TagPointerView>,
)
    requires
        src.sound(),
        copy::all_told(read, src, w),
        transfer::search_state(w, filter, found, tags),
    ensures
        forall|p: Place| #[trigger]
            found.manifests@.contains(p) ==> src.manifests.contains_key(p),
        forall|b: Place| #[trigger]
            found.blobs@.contains(b) ==> needed(read, src, found.manifests@, b),
        forall|i: int|
            0 <= i < tags.len() ==> found.manifests@.contains(
                ((#[trigger] tags[i]).repo, tags[i].digest),
            ),
{
    assert forall|p: Place| #[trigger] found.manifests@.contains(p) implies src.manifests.contains_key(
        p,
    ) by {
        assert(walk::some_shows(w, p));
        let i = choose|i: int| 0 <= i < w.len() && walk::shows(#[trigger] w[i], p);
        assert(model::step(read, src, w[i], src));
        copy::lemma_shown(read, src, w[i]);
    }
    assert forall|b: Place| #[trigger] found.blobs@.contains(b) implies needed(
        read,
        src,
        found.manifests@,
        b,
    ) by {
        assert(walk::some_needs(w, b));
        let i = choose|i: int| 0 <= i < w.len() && walk::needs(#[trigger] w[i], b);
        assert(model::step(read, src, w[i], src));
        copy::lemma_shown(read, src, w[i]);
        let (k, _) = walk::shown(w[i])->0;
        assert(walk::shows(w[i], k));
        assert(walk::some_shows(w, k));
        assert(found.manifests@.contains(k));
        assert(needs_blob(read, src, k, b.1));
    }
    assert forall|i: int| 0 <= i < tags.len() implies found.manifests@.contains(
        ((#[trigger] tags[i]).repo, tags[i].digest),
    ) by {
        copy::lemma_pointer_found(w, found, tags, filter, i);
    }
}

/// Whatever one search of a store that works asks for, another with the same filter
/// finds.
proof fn lemma_shown_is_found(
    read: Reading,
    src: Holdings,
    filter: Option<Seq<char>>,
    w1: Seq<Call>,
    found1: Found,
    tags1: Seq<TagPointerView>,
    w2: Seq<Call>,
    i: int,
)
    requires
        src.sound(),
        copy::all_told(read, src, w1),
        copy::all_told(read, src, w2),
        replicate::gathered(w1, filter, found1, tags1),
        transfer::reasoned(w2, filter),
        0 <= i < w2.len(),
        walk::shown(w2[i]) is Some,
    ensures
        ({
            let (p, _) = walk::shown(w2[i])->0;
            found1.manifests@.contains(p)
        }),
    decreases i,
{
    let (p, _) = walk::shown(w2[i])->0;
    let repo = p.0;
    assert(model::step(read, src, w2[i], src));
    copy::lemma_shown(read, src, w2[i]);
    assert(src.manifests.contains_key((repo, p.1)));
    assert(src.knows(repo));
    assert(model::step(read, src, w1[0], src));
    let repos = w1[0]->ListRepos_reply->Ok_0;
    assert(repos.contains(repo));
    let q = choose|q: int| 0 <= q < repos.len() && repos[q] == repo;
    assert(transfer::repo_searched(w1, repos[q], filter, found1.manifests@, tags1));
    copy::search_finds_all(read, src, w1, repo, filter, found1.manifests@, tags1);
    assert(transfer::reasoned_at(w2, filter, i));
    match w2[i] {
        Call::ManifestGet { reference: ReferenceView::Tag(t), .. } => {
            assert(src.tags.contains_key((repo, t)));
            let x = choose|x: TagPointerView| #[trigger]
                tags1.contains(x) && x.repo == repo && x.tag == t;
            let k = choose|k: int| 0 <= k < tags1.len() && tags1[k] == x;
            copy::lemma_true_pointers(read, src, w1, filter, tags1);
            assert(copy::true_pointer(src, tags1[k]));
            copy::lemma_pointer_found(w1, found1, tags1, filter, k);
        },
        Call::ManifestGet { reference: ReferenceView::Digest(d), .. } => {
            if filter is Some {
                let before = w2.take(i);
                assert(walk::parent_shown(before, (repo, d)));
                let j = choose|j: int|
                    0 <= j < before.len() && walk::is_child(#[trigger] before[j], (repo, d));
                assert(before[j] == w2[j]);
                lemma_shown_is_found(read, src, filter, w1, found1, tags1, w2, j);
                let (parent, refs) = walk::shown(w2[j])->0;
                assert(model::step(read, src, w2[j], src));
                copy::lemma_shown(read, src, w2[j]);
                copy::lemma_closed(read, src, w1, filter, found1, tags1, parent);
                assert(copy::has_children(read, src, found1.manifests@, parent));
            }
        },
        _ => {},
    }
}

/// A second pass right after a first one with the same filter copies nothing.
///
/// `first[i]` and `second[i]` are what the partition `i` holds during the passes.
pub proof fn second_pass_copies_nothing<S: Storage>(
    read: Reading,
    was: MultiStore<S>,
    mid: MultiStore<S>,
    now: MultiStore<S>,
    filter: Option<Seq<char>>,
    m1: int,
    found1: Found,
    tags1: Seq<TagPointerView>,
    m2: int,
    found2: Found,
    tags2: Seq<TagPointerView>,
    report: ReplicateReport,
    first: Seq<Seq<Holdings>>,
    second: Seq<Seq<Holdings>>,
)
    requires
        replicate::replicated(was, mid, filter, m1, found1, tags1),
        replicate::replicated(mid, now, filter, m2, found2, tags2),
        replicate::reported(mid, now, report),
        mid.primary == was.primary,
        was.primary < was.partitions@.len(),
        mid.partitions@.len() == was.partitions@.len(),
        first.len() == was.partitions@.len(),
        second.len() == was.partitions@.len(),
        forall|i: int|
            0 <= i < first.len() ==> model::works(
                read,
                #[trigger] first[i],
                replicate::calls_at(was.partitions@, mid.partitions@, i),
            ),
        forall|i: int|
            0 <= i < second.len() ==> model::works(
                read,
                #[trigger] second[i],
                replicate::calls_at(mid.partitions@, now.partitions@, i),
            ),
        forall|i: int|
            0 <= i < second.len() ==> (#[trigger] second[i])[0] == first[i].last(),
        first[was.primary as int][0].sound(),
    ensures
        report.blobs_copied == 0,
        report.bytes_copied == 0,
        report.manifests_copied == 0,
{
    let p = was.primary as int;
    let a = mid.partitions@;
    let b = now.partitions@;
    let calls1 = replicate::calls_at(was.partitions@, a, p);
    let calls = replicate::calls_at(a, b, p);
    let w1 = calls1.take(m1);
    let w = calls.take(m2);
    let u = calls.subrange(m2, calls.len() as int);
    let hp = second[p];
    assert(model::works(read, first[p], calls1));
    assert(model::works(read, second[p], calls));
    lemma_primary_quiet(read, was, mid, filter, m1, found1, tags1, first[p]);
    lemma_primary_quiet(read, mid, now, filter, m2, found2, tags2, hp);
    let src = hp[0];
    assert(src == first[p][0]);
    lemma_found_is_held(read, src, w, filter, found2, tags2);
    assert forall|q: Place| #[trigger] found2.manifests@.contains(q) implies found1.manifests@.contains(
        q,
    ) by {
        assert(walk::some_shows(w, q));
        let i = choose|i: int| 0 <= i < w.len() && walk::shows(#[trigger] w[i], q);
        lemma_shown_is_found(read, src, filter, w1, found1, tags1, w, i);
    }
    assert forall|i: int| 0 <= i < a.len() && i != p implies {
        let v = #[trigger] replicate::calls_at(a, b, i);
        &&& transfer::writes(v) == 0
        &&& transfer::written(v) == 0
        &&& transfer::puts(v) == 0
    } by {
        let v = replicate::calls_at(a, b, i);
        assert(model::works(read, first[i], replicate::calls_at(was.partitions@, a, i)));
        assert(model::works(read, second[i], v));
        assert(second[i][0] == first[i].last());
        replica_has_everything(
            read,
            was,
            mid,
            filter,
            m1,
            found1,
            tags1,
            i,
            first[p],
            first[i],
        );
        let dst = second[i][0];
        assert(replicate::caught_up(a, b, u, i, found2, tags2));
        assert forall|q: Place| #[trigger]
            found2.manifests@.contains(q) && src.manifests.contains_key(q) implies dst.manifests.contains_key(
            q,
        ) by {
            assert(found1.manifests@.contains(q));
        }
        assert forall|q: Place| #[trigger]
            found2.blobs@.contains(q) && src.blobs.contains_key(q.1) implies dst.blobs.contains_key(
            q.1,
        ) by {
            assert(needed(read, src, found2.manifests@, q));
            let k = choose|k: Place| #[trigger]
                found2.manifests@.contains(k) && k.0 == q.0 && needs_blob(read, src, k, q.1);
            assert(found1.manifests@.contains(k));
            assert(copy::has_blobs(read, src, dst, k));
        }
        copy::nothing_is_written_twice(
            read,
            src,
            u,
            second[i],
            v,
            found2.manifests@,
            found2.blobs@,
            tags2,
            true,
        );
    }
    lemma_totals_zero(a, b, p, a.len());
}

} // verus!
