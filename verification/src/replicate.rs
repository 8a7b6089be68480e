//! Replication: a catch-up pass that copies content from the primary partition to
//! each secondary.
//!
//! Everything is known by its digest, so a pass with nothing new to copy writes no
//! blob and no manifest. A tag glob restricts the pass to what hangs on matching
//! tags.

use vstd::prelude::*;

use crate::fanout::Partition;
use crate::multi::MultiStore;
use crate::order;
use crate::storage;
use crate::storage::{Call, Storage, StorageError};
use crate::text;
use crate::transfer;
use crate::transfer::{Copied, TagPointer, TagPointerView};
use crate::walk;
use crate::walk::Found;

pub use crate::glob::glob_match;

verus! {

#[derive(Debug, Clone, Copy)]
pub struct ReplicateReport {
    pub partitions_scanned: usize,
    pub blobs_copied: usize,
    pub bytes_copied: u64,
    pub manifests_copied: usize,
    /// Left at zero here; whoever holds a clock fills it in.
    pub duration_ms: u128,
}

impl Default for ReplicateReport {
    fn default() -> (r: ReplicateReport)
        ensures
            r.partitions_scanned == 0,
            r.blobs_copied == 0,
            r.bytes_copied == 0,
            r.manifests_copied == 0,
            r.duration_ms == 0,
    {
        ReplicateReport {
            partitions_scanned: 0,
            blobs_copied: 0,
            bytes_copied: 0,
            manifests_copied: 0,
            duration_ms: 0,
        }
    }
}

#[derive(Debug, Clone)]
pub struct ReplicateConfig {
    /// Restricts the tags that are replicated, e.g. `prod-*`. `None` replicates
    /// everything.
    pub tag_glob: Option<String>,
}

impl Default for ReplicateConfig {
    fn default() -> (r: ReplicateConfig)
        ensures
            r.tag_glob is None,
    {
        ReplicateConfig { tag_glob: None }
    }
}

/// `w` lists the repositories of a store and finds everything wanted of each.
pub open spec fn gathered(
    w: Seq<Call>,
    filter: Option<Seq<char>>,
    found: Found,
    tags: Seq<TagPointerView>,
) -> bool {
    &&& transfer::search_state(w, filter, found, tags)
    &&& w.len() > 0
    &&& w[0] matches Call::ListRepos { reply: Ok(repos) } && forall|i: int|
        0 <= i < repos.len() ==> transfer::repo_searched(
            w,
            #[trigger] repos[i],
            filter,
            found.manifests@,
            tags,
        )
}

/// Finds everything wanted on a store.
pub fn gather<S: Storage>(src: &mut S, filter: &Option<String>) -> (r: Result<
    (Found, Vec<TagPointer>),
    StorageError,
>)
    requires
        old(src).wf(),
    ensures
        final(src).wf(),
        final(src).origin() == old(src).origin(),
        storage::extends(old(src).log(), final(src).log()),
        match r {
            Ok(x) => gathered(
                storage::added(old(src).log(), final(src).log()),
                text::opt(*filter),
                x.0,
                order::views_of(x.1@),
            ),
            Err(e) => walk::search_failed(storage::added(old(src).log(), final(src).log()), e),
        },
{
    let ghost start = src.log();
    let mut found = Found::new();
    let mut tags: Vec<TagPointer> = Vec::new();
    let ghost f = text::opt(*filter);
    proof {
        storage::lemma_added_none(start);
        assert(order::views_of(tags@) =~= Seq::<TagPointerView>::empty());
    }
    let listed = src.list_repos();
    let ghost c = src.log().last();
    proof {
        storage::lemma_added_push(start, start, c);
        walk::lemma_searching_push(Seq::empty(), c);
        walk::lemma_explained_other(
            found.manifests@,
            found.blobs@,
            Seq::empty(),
            c,
            Seq::empty(),
            Seq::empty(),
        );
        assert(storage::added(start, src.log())[0] == c);
    }
    let repos = match listed {
        Ok(v) => v,
        Err(e) => return Err(e),
    };
    let ghost names = order::views_of(repos@);
    let mut i: usize = 0;
    while i < repos.len()
        invariant
            i <= repos@.len(),
            names == order::views_of(repos@),
            f == text::opt(*filter),
            start == old(src).log(),
            src.wf(),
            src.origin() == old(src).origin(),
            storage::extends(start, src.log()),
            transfer::search_state(
                storage::added(start, src.log()),
                f,
                found,
                order::views_of(tags@),
            ),
            storage::added(start, src.log()).len() > 0,
            storage::added(start, src.log())[0] == (Call::ListRepos { reply: Ok(names) }),
            forall|j: int|
                0 <= j < i ==> transfer::repo_searched(
                    storage::added(start, src.log()),
                    #[trigger] names[j],
                    f,
                    found.manifests@,
                    order::views_of(tags@),
                ),
        decreases repos@.len() - i,
    {
        let ghost was = src.log();
        let ghost calls = storage::added(start, was);
        let ghost m1 = found.manifests@;
        let ghost t1 = order::views_of(tags@);
        let done = transfer::search_repo(
            src,
            repos[i].as_str(),
            filter,
            &mut found,
            &mut tags,
            Ghost(start),
        );
        match done {
            Ok(()) => {},
            Err(e) => return Err(e),
        }
        proof {
            let more = storage::added(start, src.log());
            assert(more.subrange(0, calls.len() as int)[0] == more[0]);
            assert forall|j: int| 0 <= j < i + 1 implies transfer::repo_searched(
                more,
                #[trigger] names[j],
                f,
                found.manifests@,
                order::views_of(tags@),
            ) by {
                if j < i {
                    transfer::lemma_searched_kept(
                        calls,
                        more,
                        names[j],
                        f,
                        m1,
                        found.manifests@,
                        t1,
                        order::views_of(tags@),
                    );
                }
            }
        }
        i = i + 1;
    }
    Ok((found, tags))
}

/// The calls added at the partition `i`.
pub open spec fn calls_at<S: Storage>(
    was: Seq<Partition<S>>,
    now: Seq<Partition<S>>,
    i: int,
) -> Seq<Call> {
    storage::added(was[i].storage.log(), now[i].storage.log())
}

/// Blobs written at the first `n` partitions other than `p`.
pub open spec fn total_writes<S: Storage>(
    was: Seq<Partition<S>>,
    now: Seq<Partition<S>>,
    p: int,
    n: nat,
) -> nat
    decreases n,
{
    if n == 0 {
        0
    } else {
        total_writes(was, now, p, (n - 1) as nat) + (if n - 1 == p {
            0
        } else {
            transfer::writes(calls_at(was, now, n - 1))
        })
    }
}

/// Bytes of blobs written at the first `n` partitions other than `p`.
pub open spec fn total_written<S: Storage>(
    was: Seq<Partition<S>>,
    now: Seq<Partition<S>>,
    p: int,
    n: nat,
) -> nat
    decreases n,
{
    if n == 0 {
        0
    } else {
        total_written(was, now, p, (n - 1) as nat) + (if n - 1 == p {
            0
        } else {
            transfer::written(calls_at(was, now, n - 1))
        })
    }
}

/// Manifests put at the first `n` partitions other than `p`.
pub open spec fn total_puts<S: Storage>(
    was: Seq<Partition<S>>,
    now: Seq<Partition<S>>,
    p: int,
    n: nat,
) -> nat
    decreases n,
{
    if n == 0 {
        0
    } else {
        total_puts(was, now, p, (n - 1) as nat) + (if n - 1 == p {
            0
        } else {
            transfer::puts(calls_at(was, now, n - 1))
        })
    }
}

/// The same partitions, each with more calls on its record.
pub open spec fn same_partitions<S: Storage>(
    was: Seq<Partition<S>>,
    now: Seq<Partition<S>>,
) -> bool {
    &&& now.len() == was.len()
    &&& forall|i: int|
        0 <= i < was.len() ==> (#[trigger] now[i]).name == was[i].name && storage::extends(
            was[i].storage.log(),
            now[i].storage.log(),
        )
}

/// The secondary at `i` has caught up with what was found: everything is settled
/// between it and the primary, and it was only given what the primary gave.
pub open spec fn caught_up<S: Storage>(
    was: Seq<Partition<S>>,
    now: Seq<Partition<S>>,
    u: Seq<Call>,
    i: int,
    found: Found,
    tags: Seq<TagPointerView>,
) -> bool {
    let v = calls_at(was, now, i);
    &&& transfer::honest(u, v, true)
    &&& transfer::staged(v)
    &&& transfer::target_fine(v, true)
    &&& transfer::tags_right(u, v, tags)
    &&& transfer::all_done(u, v, found.manifests@, found.blobs@, tags, true)
}

/// A whole pass: the first `m` calls at the primary find everything wanted, the rest
/// ask for nothing else, and every secondary has caught up with it.
pub open spec fn replicated<S: Storage>(
    was: MultiStore<S>,
    now: MultiStore<S>,
    filter: Option<Seq<char>>,
    m: int,
    found: Found,
    tags: Seq<TagPointerView>,
) -> bool {
    let a = was.partitions@;
    let b = now.partitions@;
    let p = was.primary as int;
    let calls = calls_at(a, b, p);
    &&& 0 <= m <= calls.len()
    &&& gathered(calls.take(m), filter, found, tags)
    &&& transfer::asked_for(
        calls.subrange(m, calls.len() as int),
        found.manifests@,
        found.blobs@,
        tags,
    )
    &&& forall|i: int|
        0 <= i < a.len() && i != p ==> #[trigger] caught_up(
            a,
            b,
            calls.subrange(m, calls.len() as int),
            i,
            found,
            tags,
        )
}

/// The report of a whole pass.
pub open spec fn reported<S: Storage>(
    was: MultiStore<S>,
    now: MultiStore<S>,
    r: ReplicateReport,
) -> bool {
    let a = was.partitions@;
    let b = now.partitions@;
    let p = was.primary as int;
    let n = a.len();
    &&& r.partitions_scanned == n - 1
    &&& r.blobs_copied == storage::sat_count(total_writes(a, b, p, n))
    &&& r.bytes_copied == storage::sat(total_written(a, b, p, n))
    &&& r.manifests_copied == storage::sat_count(total_puts(a, b, p, n))
    &&& r.duration_ms == 0
}

/// The secondary at `i` was only given what the primary gave, part by part, and only
/// tags that were found.
pub open spec fn rightly_given<S: Storage>(
    was: Seq<Partition<S>>,
    now: Seq<Partition<S>>,
    u: Seq<Call>,
    i: int,
    tags: Seq<TagPointerView>,
) -> bool {
    let v = calls_at(was, now, i);
    &&& transfer::honest(u, v, true)
    &&& transfer::staged(v)
    &&& transfer::tags_right(u, v, tags)
}

/// A pass that broke off: the first `m` calls at the primary find everything wanted, the
/// rest ask for nothing else, and the copy to one secondary failed.
pub open spec fn broke_off<S: Storage>(
    was: MultiStore<S>,
    now: MultiStore<S>,
    filter: Option<Seq<char>>,
    m: int,
    found: Found,
    tags: Seq<TagPointerView>,
    e: StorageError,
) -> bool {
    let a = was.partitions@;
    let b = now.partitions@;
    let p = was.primary as int;
    let calls = calls_at(a, b, p);
    &&& 0 <= m <= calls.len()
    &&& gathered(calls.take(m), filter, found, tags)
    &&& transfer::asked_for(
        calls.subrange(m, calls.len() as int),
        found.manifests@,
        found.blobs@,
        tags,
    )
    &&& forall|i: int|
        0 <= i < a.len() && i != p ==> #[trigger] rightly_given(
            a,
            b,
            calls.subrange(m, calls.len() as int),
            i,
            tags,
        )
    &&& exists|i: int, k: int|
        0 <= i < a.len() && i != p && m <= k <= calls.len() && #[trigger] transfer::copy_failed(
            calls.subrange(k, calls.len() as int),
            calls_at(a, b, i),
            true,
            e,
        )
}

/// A pass that failed: the search at the primary did, with the secondaries
/// untouched, or a copy to one secondary did.
pub open spec fn failed<S: Storage>(
    was: MultiStore<S>,
    now: MultiStore<S>,
    filter: Option<Seq<char>>,
    e: StorageError,
) -> bool {
    let a = was.partitions@;
    let b = now.partitions@;
    let p = was.primary as int;
    ||| walk::search_failed(calls_at(a, b, p), e) && forall|i: int|
        0 <= i < a.len() && i != p ==> #[trigger] b[i] == a[i]
    ||| exists|m: int, found: Found, tags: Seq<TagPointerView>| #[trigger]
        broke_off(was, now, filter, m, found, tags, e)
}

/// The calls at untouched partitions stay, so their sums do.
proof fn lemma_totals_kept<S: Storage>(
    a: Seq<Partition<S>>,
    before: Seq<Partition<S>>,
    now: Seq<Partition<S>>,
    p: int,
    n: nat,
)
    requires
        forall|j: int| 0 <= j < n && j != p ==> #[trigger] now[j] == before[j],
    ensures
        total_writes(a, now, p, n) == total_writes(a, before, p, n),
        total_written(a, now, p, n) == total_written(a, before, p, n),
        total_puts(a, now, p, n) == total_puts(a, before, p, n),
    decreases n,
{
    if n > 0 {
        lemma_totals_kept(a, before, now, p, (n - 1) as nat);
        if n - 1 != p {
            assert(now[n - 1] == before[n - 1]);
        }
    }
}

/// A copy to the secondary at `i` leaves the other secondaries as they are.
proof fn lemma_pass_step<S: Storage>(
    a: Seq<Partition<S>>,
    before: Seq<Partition<S>>,
    now: Seq<Partition<S>>,
    log1: Seq<Call>,
    p: int,
    i: int,
    found: Found,
    tags: Seq<TagPointerView>,
)
    requires
        same_partitions(a, before),
        now.len() == a.len(),
        0 <= i < a.len(),
        0 <= p < a.len(),
        i != p,
        before[i] == a[i],
        now[i].name == before[i].name,
        now[p].name == before[p].name,
        forall|j: int|
            0 <= j < a.len() && j != i && j != p ==> #[trigger] now[j] == before[j],
        storage::extends(log1, before[p].storage.log()),
        storage::extends(before[p].storage.log(), now[p].storage.log()),
        storage::extends(before[i].storage.log(), now[i].storage.log()),
        forall|j: int|
            0 <= j < i && j != p ==> #[trigger] caught_up(
                a,
                before,
                storage::added(log1, before[p].storage.log()),
                j,
                found,
                tags,
            ),
    ensures
        same_partitions(a, now),
        storage::extends(log1, now[p].storage.log()),
        total_writes(a, now, p, i as nat) == total_writes(a, before, p, i as nat),
        total_written(a, now, p, i as nat) == total_written(a, before, p, i as nat),
        total_puts(a, now, p, i as nat) == total_puts(a, before, p, i as nat),
        forall|j: int|
            0 <= j < i && j != p ==> #[trigger] caught_up(
                a,
                now,
                storage::added(log1, now[p].storage.log()),
                j,
                found,
                tags,
            ),
        ({
            let u = storage::added(before[p].storage.log(), now[p].storage.log());
            let v = storage::added(before[i].storage.log(), now[i].storage.log());
            transfer::copying(u, v, true) && transfer::tags_right(u, v, tags) && transfer::all_done(
                u,
                v,
                found.manifests@,
                found.blobs@,
                tags,
                true,
            ) ==> caught_up(
                a,
                now,
                storage::added(log1, now[p].storage.log()),
                i,
                found,
                tags,
            )
        }),
{
    storage::lemma_added_twice(log1, before[p].storage.log(), now[p].storage.log());
    transfer::lemma_grown(log1, before[p].storage.log(), now[p].storage.log());
    lemma_totals_kept(a, before, now, p, i as nat);
    let x = storage::added(log1, before[p].storage.log());
    let y = storage::added(log1, now[p].storage.log());
    assert forall|j: int| 0 <= j < a.len() implies (#[trigger] now[j]).name == a[j].name
        && storage::extends(a[j].storage.log(), now[j].storage.log()) by {
        assert(before[j].name == a[j].name);
        if j == p {
            storage::lemma_added_twice(
                a[p].storage.log(),
                before[p].storage.log(),
                now[p].storage.log(),
            );
        } else if j != i {
            assert(now[j] == before[j]);
        }
    }
    assert forall|j: int| 0 <= j < i && j != p implies #[trigger] caught_up(
        a,
        now,
        y,
        j,
        found,
        tags,
    ) by {
        assert(caught_up(a, before, x, j, found, tags));
        assert(now[j] == before[j]);
        let v = calls_at(a, now, j);
        transfer::lemma_tags_right_more(x, v, y, Seq::empty(), tags);
        assert(v + Seq::<Call>::empty() =~= v);
        transfer::lemma_honest_grows(x, y, v, true);
        transfer::lemma_done_grows(x, v, y, v);
    }
    let u = storage::added(before[p].storage.log(), now[p].storage.log());
    let v = storage::added(before[i].storage.log(), now[i].storage.log());
    if transfer::copying(u, v, true) && transfer::tags_right(u, v, tags) && transfer::all_done(
        u,
        v,
        found.manifests@,
        found.blobs@,
        tags,
        true,
    ) {
        transfer::lemma_tags_right_more(u, v, y, Seq::empty(), tags);
        assert(v + Seq::<Call>::empty() =~= v);
        transfer::lemma_honest_grows(u, y, v, true);
        transfer::lemma_done_grows(u, v, y, v);
    }
}

/// A copy to the secondary at `i` that failed ends the pass.
proof fn lemma_pass_failed<S: Storage>(
    old_multi: MultiStore<S>,
    new_multi: MultiStore<S>,
    before: Seq<Partition<S>>,
    log1: Seq<Call>,
    i: int,
    filter: Option<Seq<char>>,
    found: Found,
    tags: Seq<TagPointerView>,
    e: StorageError,
)
    requires
        ({
            let a = old_multi.partitions@;
            let now = new_multi.partitions@;
            let p = old_multi.primary as int;
            &&& same_partitions(a, now)
            &&& 0 <= i < a.len()
            &&& 0 <= p < a.len()
            &&& i != p
            &&& before.len() == a.len()
            &&& before[i] == a[i]
            &&& storage::extends(a[p].storage.log(), log1)
            &&& storage::extends(log1, before[p].storage.log())
            &&& storage::extends(before[p].storage.log(), now[p].storage.log())
            &&& forall|j: int| i < j < a.len() && j != p ==> #[trigger] now[j] == a[j]
            &&& forall|j: int|
                0 <= j < i && j != p ==> #[trigger] caught_up(
                    a,
                    now,
                    storage::added(log1, now[p].storage.log()),
                    j,
                    found,
                    tags,
                )
            &&& gathered(storage::added(a[p].storage.log(), log1), filter, found, tags)
            &&& transfer::asked_for(
                storage::added(log1, now[p].storage.log()),
                found.manifests@,
                found.blobs@,
                tags,
            )
            &&& transfer::copy_broken(
                storage::added(before[p].storage.log(), now[p].storage.log()),
                storage::added(before[i].storage.log(), now[i].storage.log()),
                found.manifests@,
                found.blobs@,
                tags,
                true,
                e,
            )
        }),
    ensures
        failed(old_multi, new_multi, filter, e),
{
    let a = old_multi.partitions@;
    let now = new_multi.partitions@;
    let p = old_multi.primary as int;
    let calls = calls_at(a, now, p);
    let u = storage::added(before[p].storage.log(), now[p].storage.log());
    let y = storage::added(log1, now[p].storage.log());
    storage::lemma_added_twice(a[p].storage.log(), log1, before[p].storage.log());
    storage::lemma_added_twice(
        a[p].storage.log(),
        before[p].storage.log(),
        now[p].storage.log(),
    );
    storage::lemma_added_twice(log1, before[p].storage.log(), now[p].storage.log());
    transfer::lemma_grown(log1, before[p].storage.log(), now[p].storage.log());
    let m = storage::added(a[p].storage.log(), log1).len() as int;
    storage::lemma_added_twice(a[p].storage.log(), log1, now[p].storage.log());
    assert(calls.take(m) =~= storage::added(a[p].storage.log(), log1));
    assert(calls.subrange(m, calls.len() as int) =~= y);
    assert forall|j: int| 0 <= j < a.len() && j != p implies #[trigger] rightly_given(
        a,
        now,
        y,
        j,
        tags,
    ) by {
        let v = calls_at(a, now, j);
        if j < i {
            assert(caught_up(a, now, y, j, found, tags));
        } else if j == i {
            transfer::lemma_honest_grows(u, y, v, true);
            transfer::lemma_tags_right_more(u, v, y, Seq::empty(), tags);
            assert(v + Seq::<Call>::empty() =~= v);
        } else {
            assert(now[j] == a[j]);
            storage::lemma_added_none(a[j].storage.log());
        }
    }
    let k = calls.len() - u.len();
    assert(calls.subrange(k, calls.len() as int) =~= u);
    assert(transfer::copy_failed(
        calls.subrange(k, calls.len() as int),
        calls_at(a, now, i),
        true,
        e,
    ));
    assert(broke_off(old_multi, new_multi, filter, m, found, tags, e));
}

/// One catch-up pass.
pub fn run<S: Storage>(multi: &mut MultiStore<S>, cfg: &ReplicateConfig) -> (r: Result<
    ReplicateReport,
    StorageError,
>)
    requires
        old(multi).wf(),
    ensures
        final(multi).wf(),
        final(multi).primary == old(multi).primary,
        same_partitions(old(multi).partitions@, final(multi).partitions@),
        match r {
            Ok(report) => reported(*old(multi), *final(multi), report) && exists|
                m: int,
                found: Found,
                tags: Seq<TagPointerView>,
            | #[trigger]
                replicated(*old(multi), *final(multi), text::opt(cfg.tag_glob), m, found, tags),
            Err(e) => failed(*old(multi), *final(multi), text::opt(cfg.tag_glob), e),
        },
{
    let ghost a = multi.partitions@;
    let p: usize = multi.primary;
    let n: usize = multi.partitions.len();
    let ghost pi = p as int;
    proof {
        assert forall|i: int| 0 <= i < a.len() implies storage::extends(
            #[trigger] a[i].storage.log(),
            a[i].storage.log(),
        ) by {
            storage::lemma_added_none(a[i].storage.log());
        }
        assert(a[pi].storage.wf());
    }
    let searched = gather(&mut multi.partitions[p].storage, &cfg.tag_glob);
    let ghost b0 = multi.partitions@;
    let ghost m = calls_at(a, b0, pi).len() as int;
    proof {
        assert forall|i: int| 0 <= i < a.len() && i != pi implies #[trigger] b0[i] == a[i] by {
        }
        assert(same_partitions(a, b0));
    }
    let (found, tags): (Found, Vec<TagPointer>) = match searched {
        Ok(x) => x,
        Err(e) => return Err(e),
    };
    let ghost tv = order::views_of(tags@);
    let ghost log1 = b0[pi].storage.log();
    proof {
        storage::lemma_added_none(log1);
    }
    let mut report = ReplicateReport::default();
    let mut i: usize = 0;
    while i < n
        invariant
            i <= n,
            n == a.len(),
            p < n,
            pi == p,
            a == old(multi).partitions@,
            p == old(multi).primary,
            multi.primary == p,
            multi.partitions@.len() == n,
            multi.wf(),
            found.wf(),
            tv == order::views_of(tags@),
            report.duration_ms == 0,
            same_partitions(a, multi.partitions@),
            storage::extends(a[pi].storage.log(), log1),
            m == storage::added(a[pi].storage.log(), log1).len(),
            storage::extends(log1, multi.partitions@[pi].storage.log()),
            gathered(
                storage::added(a[pi].storage.log(), log1),
                text::opt(cfg.tag_glob),
                found,
                tv,
            ),
            transfer::asked_for(
                storage::added(log1, multi.partitions@[pi].storage.log()),
                found.manifests@,
                found.blobs@,
                tv,
            ),
            forall|j: int|
                i <= j < n && j != pi ==> #[trigger] multi.partitions@[j] == a[j],
            forall|j: int|
                0 <= j < i && j != pi ==> #[trigger] caught_up(
                    a,
                    multi.partitions@,
                    storage::added(log1, multi.partitions@[pi].storage.log()),
                    j,
                    found,
                    tv,
                ),
            report.partitions_scanned == (if i <= p {
                i as int
            } else {
                i - 1
            }),
            report.blobs_copied == storage::sat_count(
                total_writes(a, multi.partitions@, pi, i as nat),
            ),
            report.bytes_copied == storage::sat(
                total_written(a, multi.partitions@, pi, i as nat),
            ),
            report.manifests_copied == storage::sat_count(
                total_puts(a, multi.partitions@, pi, i as nat),
            ),
        decreases n - i,
    {
        if i == p {
            i = i + 1;
            continue;
        }
        let ghost before = multi.partitions@;
        let ghost ii = i as int;
        let mut target = multi.partitions.remove(i);
        let src: usize = if p > i {
            p - 1
        } else {
            p
        };
        let ghost rest = multi.partitions@;
        proof {
            assert(rest[src as int] == before[pi]);
            assert(target == before[ii]);
            assert(before[ii] == a[ii]);
        }
        let mut c = Copied::none();
        let done = transfer::copy_all(
            &mut multi.partitions[src].storage,
            &mut target.storage,
            &found,
            &tags,
            true,
            &mut c,
        );
        let ghost now_rest = multi.partitions@;
        let ghost t2 = target;
        multi.partitions.insert(i, target);
        let ghost now = multi.partitions@;
        proof {
            assert forall|j: int| 0 <= j < n && j != ii && j != pi implies #[trigger] now[j]
                == before[j] by {
                if j < ii {
                    assert(now[j] == now_rest[j]);
                    assert(rest[j] == before[j]);
                } else {
                    assert(now[j] == now_rest[j - 1]);
                    assert(rest[j - 1] == before[j]);
                }
            }
            assert(now[ii] == t2);
            assert(now[pi] == now_rest[src as int]);
            lemma_pass_step(a, before, now, log1, pi, ii, found, tv);
            storage::lemma_added_twice(log1, before[pi].storage.log(), now[pi].storage.log());
            transfer::lemma_asked_concat(
                storage::added(log1, before[pi].storage.log()),
                storage::added(before[pi].storage.log(), now[pi].storage.log()),
                found.manifests@,
                found.blobs@,
                tv,
            );
        }
        match done {
            Ok(()) => {
                report.partitions_scanned = report.partitions_scanned + 1;
                report.blobs_copied = report.blobs_copied.saturating_add(c.blobs);
                report.bytes_copied = report.bytes_copied.saturating_add(c.bytes);
                report.manifests_copied = report.manifests_copied.saturating_add(c.manifests);
            },
            Err(e) => {
                proof {
                    lemma_pass_failed(
                        *old(multi),
                        *multi,
                        before,
                        log1,
                        ii,
                        text::opt(cfg.tag_glob),
                        found,
                        tv,
                        e,
                    );
                }
                return Err(e);
            },
        }
        i = i + 1;
    }
    proof {
        let b = multi.partitions@;
        let calls = calls_at(a, b, pi);
        storage::lemma_added_twice(a[pi].storage.log(), log1, b[pi].storage.log());
        assert(calls.take(m) =~= storage::added(a[pi].storage.log(), log1));
        assert(calls.subrange(m, calls.len() as int) =~= storage::added(
            log1,
            b[pi].storage.log(),
        ));
        assert(replicated(*old(multi), *multi, text::opt(cfg.tag_glob), m, found, tv));
    }
    Ok(report)
}

} // verus!
