//! Quotas hold.

use vstd::prelude::*;

use crate::digest::Digest;
use crate::fanout;
use crate::fanout::{Ask, Partition};
use crate::glob;
use crate::laws::place;
use crate::quota;
use crate::quota::{Quota, QuotaStorage, Usage};
use crate::storage;
use crate::storage::{Call, Storage, StorageError};
use crate::text;
use crate::trail;

verus! {

/// The usage that a guarded write was judged by.
pub open spec fn judged<S: Storage>(
    was: QuotaStorage<S>,
    repo: Seq<char>,
    size: u64,
    i: int,
    used: u64,
) -> bool {
    &&& quota::governs(was.quotas@, repo, i)
    &&& quota::fits(was.quotas@[i], used, size)
    &&& exists|checked: QuotaStorage<S>| #[trigger]
        quota::usage_read(was, checked, was.router.route(repo), Ok(used))
}

/// A write to a repository with a quota that is not refused fits under the quota, on
/// top of the usage that is remembered or measured for its volumes.
pub proof fn accepted_write_fits<S: Storage, W: Ask<Answer = ()>>(
    was: QuotaStorage<S>,
    now: QuotaStorage<S>,
    repo: Seq<char>,
    size: u64,
    w: W,
    r: Result<(), StorageError>,
)
    requires
        quota::guarded(was, now, repo, size, w, r),
        !quota::ungoverned(was.quotas@, repo),
        r is Ok,
    ensures
        exists|i: int, used: u64| #[trigger] judged(was, repo, size, i, used),
{
    let (d, checked) = choose|d: Result<(), StorageError>, checked: QuotaStorage<S>| #[trigger]
        quota::enforced(was, checked, repo, size, d) && match d {
            Err(e) => quota::refused(checked, now, r, e),
            Ok(_) => true,
        };
    let (i, used) = choose|i: int, used: Result<u64, StorageError>| #[trigger]
        quota::enforced_by(was, checked, repo, size, d, i, used);
    assert(quota::usage_read(was, checked, was.router.route(repo), Ok(used->Ok_0)));
    assert(judged(was, repo, size, i, used->Ok_0));
}

/// Something fits exactly when it and what is used are together no more than the limit;
/// the greatest limit there is limits nothing.
pub proof fn fitting_is_within_the_limit(q: Quota, used: u64, size: u64)
    ensures
        used + size <= q.max_bytes ==> quota::fits(q, used, size),
        used + size > q.max_bytes && q.max_bytes < u64::MAX ==> !quota::fits(q, used, size),
        q.max_bytes == u64::MAX ==> quota::fits(q, used, size),
{
}

/// A number that is kept in 64 bits is itself, or the greatest where it is greater.
pub proof fn kept_in_64_bits(n: nat)
    ensures
        n <= u64::MAX ==> storage::sat(n) == n,
        n > u64::MAX ==> storage::sat(n) == u64::MAX,
        n <= usize::MAX ==> storage::sat_count(n) == n,
        n > usize::MAX ==> storage::sat_count(n) == usize::MAX,
{
}

/// Of the quotas that match a repository the one with the longest pattern governs, and of
/// several as long the last; there is one where any matches.
pub proof fn longest_pattern_governs(quotas: Seq<Quota>, repo: Seq<char>, i: int, j: int)
    requires
        quota::governs(quotas, repo, i),
        0 <= j < quotas.len(),
        glob::matches(quotas[j].pattern@, repo),
    ensures
        0 <= i < quotas.len(),
        glob::matches(quotas[i].pattern@, repo),
        vstd::utf8::encode_utf8(quotas[j].pattern@).len() <= vstd::utf8::encode_utf8(
            quotas[i].pattern@,
        ).len(),
        vstd::utf8::encode_utf8(quotas[j].pattern@).len() == vstd::utf8::encode_utf8(
            quotas[i].pattern@,
        ).len() ==> j <= i,
{
    assert(quota::quota_matches(quotas, repo, j));
}

/// No quota governs only where none matches.
pub proof fn some_quota_governs_what_any_matches(quotas: Seq<Quota>, repo: Seq<char>, j: int)
    requires
        0 <= j < quotas.len(),
        glob::matches(quotas[j].pattern@, repo),
    ensures
        !quota::ungoverned(quotas, repo),
        exists|i: int| #[trigger] quota::governs(quotas, repo, i),
{
    assert(quota::quota_matches(quotas, repo, j));
    lemma_some_governs(quotas, repo);
}

/// The message of a refusal names the class, what is used, what comes and the limit.
pub proof fn refusal_says_why(q: Quota, used: u64, size: u64)
    ensures
        quota::refusal(q, used, size) == "class "@ + text::debug_text(q.pattern@) + ": "@
            + text::decimal(used as nat) + " B used + "@ + text::decimal(size as nat)
            + " B incoming exceeds limit "@ + text::decimal(q.max_bytes as nat) + " B"@,
{
}

/// The call only asks what there is and how large it is.
pub open spec fn measures(c: Call) -> bool {
    c is ListAllBlobs || c is BlobSize
}

/// The stores were asked nothing but what there is and how large it is.
pub open spec fn only_measured<S: Storage>(
    was: Seq<Partition<S>>,
    now: Seq<Partition<S>>,
) -> bool {
    &&& place::grew(was, now)
    &&& forall|p: int, k: int|
        0 <= p < was.len() && was[p].storage.log().len() <= k < now[p].storage.log().len()
            ==> measures(#[trigger] now[p].storage.log()[k])
}

/// The write was handed to the volume that takes the writes of `repo`, and to no
/// other; beside that, the volumes were only measured.
pub open spec fn handed_on<S: Storage, W: Ask<Answer = ()>>(
    was: QuotaStorage<S>,
    now: QuotaStorage<S>,
    repo: Seq<char>,
    w: W,
    r: Result<(), StorageError>,
) -> bool {
    exists|mid: Seq<Partition<S>>| #[trigger]
        only_measured(was.router.volumes@, mid) && trail::alone(
            mid,
            now.router.volumes@,
            was.router.route(repo)[0],
            w,
            r,
        )
}

pub proof fn lemma_only_measured<S: Storage>(
    a: Seq<Partition<S>>,
    b: Seq<Partition<S>>,
    c: Seq<Partition<S>>,
)
    requires
        only_measured(a, b),
        only_measured(b, c),
    ensures
        only_measured(a, c),
{
    place::lemma_grew(a, b, c);
    assert forall|p: int, k: int|
        0 <= p < a.len() && a[p].storage.log().len() <= k < c[p].storage.log().len() implies measures(
        #[trigger] c[p].storage.log()[k],
    ) by {
        assert(storage::extends(b[p].storage.log(), c[p].storage.log()));
        if k < b[p].storage.log().len() {
            assert(c[p].storage.log().subrange(0, b[p].storage.log().len() as int)[k]
                == b[p].storage.log()[k]);
        }
    }
}

proof fn lemma_asked_measures<S: Storage, A: Ask>(
    was: Seq<Partition<S>>,
    now: Seq<Partition<S>>,
    order: Seq<usize>,
    a: A,
    replies: Seq<Result<A::Answer, StorageError>>,
)
    requires
        fanout::asked(was, now, order, a, replies),
        forall|r: Result<A::Answer, StorageError>| measures(#[trigger] a.call(r)),
    ensures
        only_measured(was, now),
{
    place::lemma_asked_grew(was, now, order, a, replies);
    assert forall|p: int, k: int|
        0 <= p < was.len() && was[p].storage.log().len() <= k < now[p].storage.log().len() implies measures(
        #[trigger] now[p].storage.log()[k],
    ) by {
        if exists|i: int| 0 <= i < replies.len() && order[i] == p {
            let i = choose|i: int| 0 <= i < replies.len() && order[i] == p;
            assert(now[p].storage.log() == was[p].storage.log().push(a.call(replies[i])));
        } else {
            assert(now[p] == was[p]);
        }
    }
}

pub proof fn lemma_sizes_measure<S: Storage>(
    states: Seq<Seq<Partition<S>>>,
    order: Seq<usize>,
    list: Seq<Digest>,
    sizes: Seq<Result<u64, StorageError>>,
    n: int,
)
    requires
        quota::sizes_read(states, order, list, sizes),
        0 <= n <= list.len(),
    ensures
        only_measured(states[0], states[n]),
    decreases n,
{
    if n == 0 {
        lemma_unmeasured(states[0]);
    } else {
        lemma_sizes_measure(states, order, list, sizes, n - 1);
        let a = fanout::BlobSize { repo: "", digest: &list[n - 1] };
        assert(quota::size_read(states[n - 1], states[n - 1 + 1], order, a, sizes[n - 1]));
        let replies = choose|replies: Seq<Result<u64, StorageError>>|
            #![trigger fanout::asked(states[n - 1], states[n], order, a, replies)]
            fanout::asked(states[n - 1], states[n], order, a, replies) && fanout::first_answer(
                replies,
                order.len(),
                sizes[n - 1],
            );
        lemma_asked_measures(states[n - 1], states[n], order, a, replies);
        lemma_only_measured(states[0], states[n - 1], states[n]);
    }
}

pub proof fn lemma_unmeasured<S: Storage>(was: Seq<Partition<S>>)
    ensures
        only_measured(was, was),
{
    assert forall|p: int| 0 <= p < was.len() implies storage::extends(
        was[p].storage.log(),
        (#[trigger] was[p]).storage.log(),
    ) by {
        storage::lemma_added_none(was[p].storage.log());
    }
}

pub proof fn lemma_measured_only<S: Storage>(
    was: Seq<Partition<S>>,
    now: Seq<Partition<S>>,
    order: Seq<usize>,
    r: Result<u64, StorageError>,
)
    requires
        quota::measured(was, now, order, r),
    ensures
        only_measured(was, now),
{
    let (listed, states, sizes) = choose|
        listed: Result<Vec<Digest>, StorageError>,
        states: Seq<Seq<Partition<S>>>,
        sizes: Seq<Result<u64, StorageError>>,
    | #[trigger]
        quota::measured_by(was, now, order, r, listed, states, sizes);
    let first = if listed is Ok {
        states[0]
    } else {
        now
    };
    let replies = choose|replies: Seq<Result<Vec<Digest>, StorageError>>|
        #![trigger fanout::asked(was, first, order, fanout::ListAllBlobs, replies)]
        fanout::asked(was, first, order, fanout::ListAllBlobs, replies) && fanout::union_answer(
            replies,
            order.len(),
            listed,
        );
    lemma_asked_measures(was, first, order, fanout::ListAllBlobs, replies);
    if let Ok(list) = listed {
        lemma_sizes_measure(states, order, list@, sizes, list@.len() as int);
        lemma_only_measured(was, first, now);
    }
}

pub proof fn lemma_enforced_measures<S: Storage>(
    was: QuotaStorage<S>,
    now: QuotaStorage<S>,
    repo: Seq<char>,
    size: u64,
    d: Result<(), StorageError>,
)
    requires
        quota::enforced(was, now, repo, size, d),
    ensures
        only_measured(was.router.volumes@, now.router.volumes@),
        now.kept(&was),
{
    if quota::ungoverned(was.quotas@, repo) {
        lemma_unmeasured(was.router.volumes@);
    } else {
        let (i, used) = choose|i: int, used: Result<u64, StorageError>| #[trigger]
            quota::enforced_by(was, now, repo, size, d, i, used);
        let chain = was.router.route(repo);
        match quota::remembered(was.usage@, chain, was.now) {
            Some(_) => lemma_unmeasured(was.router.volumes@),
            None => lemma_measured_only(was.router.volumes@, now.router.volumes@, chain, used),
        }
    }
}

/// A write to a repository without a quota is handed on whatever its size.
pub proof fn ungoverned_is_unlimited<S: Storage, W: Ask<Answer = ()>>(
    was: QuotaStorage<S>,
    now: QuotaStorage<S>,
    repo: Seq<char>,
    size: u64,
    w: W,
    r: Result<(), StorageError>,
)
    requires
        quota::guarded(was, now, repo, size, w, r),
        quota::ungoverned(was.quotas@, repo),
    ensures
        trail::alone(
            was.router.volumes@,
            now.router.volumes@,
            was.router.route(repo)[0],
            w,
            r,
        ),
{
}

/// A write is either handed to the volume of its class and to no other, or it is
/// refused and reaches no volume.
pub proof fn write_lands_in_its_class_or_nowhere<S: Storage, W: Ask<Answer = ()>>(
    was: QuotaStorage<S>,
    now: QuotaStorage<S>,
    repo: Seq<char>,
    size: u64,
    w: W,
    r: Result<(), StorageError>,
)
    requires
        quota::guarded(was, now, repo, size, w, r),
    ensures
        handed_on(was, now, repo, w, r) || (r is Err && only_measured(
            was.router.volumes@,
            now.router.volumes@,
        )),
        r is Ok ==> handed_on(was, now, repo, w, r),
{
    let (d, checked) = choose|d: Result<(), StorageError>, checked: QuotaStorage<S>| #[trigger]
        quota::enforced(was, checked, repo, size, d) && match d {
            Err(e) => quota::refused(checked, now, r, e),
            Ok(_) => quota::passed_on(checked, now, repo, w, r),
        };
    lemma_enforced_measures(was, checked, repo, size, d);
}

/// A write that does not fit on top of what is remembered of its class reaches no
/// volume: nothing happens to them at all.
pub proof fn write_over_the_limit_is_refused<S: Storage, W: Ask<Answer = ()>>(
    was: QuotaStorage<S>,
    now: QuotaStorage<S>,
    repo: Seq<char>,
    size: u64,
    w: W,
    r: Result<(), StorageError>,
    i: int,
    used: u64,
)
    requires
        quota::guarded(was, now, repo, size, w, r),
        quota::governs(was.quotas@, repo, i),
        quota::remembered(was.usage@, was.router.route(repo), was.now) == Some(used),
        !quota::fits(was.quotas@[i], used, size),
    ensures
        r is Err,
        r->Err_0 matches StorageError::QuotaExceeded(m) && m@ == quota::refusal(
            was.quotas@[i],
            used,
            size,
        ),
        now.router.volumes == was.router.volumes,
        now.usage == was.usage,
{
    let (d, checked) = choose|d: Result<(), StorageError>, checked: QuotaStorage<S>| #[trigger]
        quota::enforced(was, checked, repo, size, d) && match d {
            Err(e) => quota::refused(checked, now, r, e),
            Ok(_) => quota::passed_on(checked, now, repo, w, r),
        };
    assert(!quota::ungoverned(was.quotas@, repo)) by {
        assert(quota::quota_matches(was.quotas@, repo, i));
    }
    let (k, u) = choose|k: int, u: Result<u64, StorageError>| #[trigger]
        quota::enforced_by(was, checked, repo, size, d, k, u);
    assert(quota::quota_matches(was.quotas@, repo, k));
    assert(quota::quota_matches(was.quotas@, repo, i));
    assert(k == i);
}

/// What was written counts at once: the next write is judged by a usage that holds it.
pub proof fn accepted_write_counts<S: Storage, W: Ask<Answer = ()>>(
    was: QuotaStorage<S>,
    now: QuotaStorage<S>,
    repo: Seq<char>,
    size: u64,
    w: W,
    r: Result<(), StorageError>,
)
    requires
        quota::guarded(was, now, repo, size, w, r),
        !quota::ungoverned(was.quotas@, repo),
        r is Ok,
        was.ttl > 0,
        was.now < u64::MAX,
    ensures
        exists|i: int, used: u64| #[trigger]
            judged(was, repo, size, i, used) && quota::remembered(
                now.usage@,
                was.router.route(repo),
                was.now,
            ) == Some(storage::sat((used + size) as nat)),
{
    let chain = was.router.route(repo);
    let (d, checked) = choose|d: Result<(), StorageError>, checked: QuotaStorage<S>| #[trigger]
        quota::enforced(was, checked, repo, size, d) && match d {
            Err(e) => quota::refused(checked, now, r, e),
            Ok(_) => quota::bumped(checked.usage@, now.usage@, chain, size),
        };
    let (i, u) = choose|i: int, used: Result<u64, StorageError>| #[trigger]
        quota::enforced_by(was, checked, repo, size, d, i, used);
    let used = u->Ok_0;
    assert(quota::usage_read(was, checked, chain, Ok(used)));
    assert(judged(was, repo, size, i, used));
    // The entry that the judgement left behind counts and says `used`.
    let a = checked.usage@;
    let k = match quota::remembered(was.usage@, chain, was.now) {
        Some(_) => choose|k: int| quota::entry_at(a, chain, k),
        None => if quota::has_entry(was.usage@, chain) {
            choose|k: int| quota::entry_at(was.usage@, chain, k)
        } else {
            was.usage@.len() as int
        },
    };
    lemma_first_entry(was.usage@, chain);
    lemma_first_entry(a, chain);
    assert(quota::entry_at(a, chain, k)) by {
        if quota::remembered(was.usage@, chain, was.now) is None {
            if quota::has_entry(was.usage@, chain) {
                assert(quota::entry_at(was.usage@, chain, k));
                assert forall|j: int| 0 <= j < k implies (#[trigger] a[j]).chain@ != chain by {
                    assert(was.usage@[j].chain@ != chain);
                }
            } else {
                assert(a[k].chain@ == chain);
                assert forall|j: int| 0 <= j < k implies (#[trigger] a[j]).chain@ != chain by {
                    assert(a.drop_last()[j] == was.usage@[j]);
                    assert(was.usage@[j].chain@ != chain);
                }
            }
        }
    }
    quota::lemma_one_entry(a, chain, k);
    assert(a[k].value == used && a[k].expires > was.now);
    let b = now.usage@;
    assert(quota::entry_at(b, chain, k)) by {
        assert forall|j: int| 0 <= j < k implies (#[trigger] b[j]).chain@ != chain by {
            assert(a[j].chain@ != chain);
        }
    }
    quota::lemma_one_entry(b, chain, k);
}

/// Where a quota matches, one governs.
pub proof fn lemma_some_governs(quotas: Seq<Quota>, repo: Seq<char>)
    requires
        !quota::ungoverned(quotas, repo),
    ensures
        exists|i: int| #[trigger] quota::governs(quotas, repo, i),
{
    let i = choose|i: int| quota::quota_matches(quotas, repo, i);
    lemma_best(quotas, repo, quotas.len() as int);
    let b = choose|b: int| best_before(quotas, repo, quotas.len() as int, b);
    assert(quota::governs(quotas, repo, b)) by {
        assert(quota::quota_matches(quotas, repo, i));
    }
}

/// The quota at `b` is the best match among the first `n`, if there is one.
spec fn best_before(quotas: Seq<Quota>, repo: Seq<char>, n: int, b: int) -> bool {
    &&& quota::quota_matches(quotas, repo, b) || forall|j: int|
        0 <= j < n ==> !quota::quota_matches(quotas, repo, j)
    &&& forall|j: int|
        0 <= j < n && #[trigger] quota::quota_matches(quotas, repo, j) ==> {
            let x = text::byte_len(quotas[j].pattern@);
            let y = text::byte_len(quotas[b].pattern@);
            x < y || (x == y && j <= b)
        }
}

proof fn lemma_best(quotas: Seq<Quota>, repo: Seq<char>, n: int)
    requires
        0 <= n <= quotas.len(),
    ensures
        exists|b: int| best_before(quotas, repo, n, b),
    decreases n,
{
    if n == 0 {
        assert(best_before(quotas, repo, 0, 0));
    } else {
        let m = n - 1;
        lemma_best(quotas, repo, m);
        let b = choose|b: int| best_before(quotas, repo, m, b);
        let x = text::byte_len(quotas[n - 1].pattern@);
        let y = text::byte_len(quotas[b].pattern@);
        if quota::quota_matches(quotas, repo, n - 1) && (x >= y || forall|j: int|
            0 <= j < n - 1 ==> !quota::quota_matches(quotas, repo, j)) {
            assert(best_before(quotas, repo, n, n - 1));
        } else {
            assert(best_before(quotas, repo, n, b));
        }
    }
}

pub proof fn lemma_first_entry(usage: Seq<Usage>, chain: Seq<usize>)
    ensures
        quota::has_entry(usage, chain) ==> exists|k: int| quota::entry_at(usage, chain, k),
    decreases usage.len(),
{
    if quota::has_entry(usage, chain) {
        let k = choose|k: int| 0 <= k < usage.len() && (#[trigger] usage[k]).chain@ == chain;
        lemma_first_before(usage, chain, k);
    }
}

proof fn lemma_first_before(usage: Seq<Usage>, chain: Seq<usize>, k: int)
    requires
        0 <= k < usage.len(),
        usage[k].chain@ == chain,
    ensures
        exists|j: int| quota::entry_at(usage, chain, j),
    decreases k,
{
    if exists|j: int| 0 <= j < k && (#[trigger] usage[j]).chain@ == chain {
        let j = choose|j: int| 0 <= j < k && (#[trigger] usage[j]).chain@ == chain;
        lemma_first_before(usage, chain, j);
    } else {
        assert(quota::entry_at(usage, chain, k));
    }
}

} // verus!
