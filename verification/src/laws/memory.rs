//! How long a measurement is remembered.

use vstd::prelude::*;

use crate::fanout::Partition;
use crate::laws::limits;
use crate::quota;
use crate::quota::{QuotaStatus, QuotaStorage, Usage};
use crate::storage;
use crate::storage::{Storage, StorageError};

verus! {

/// The first number of a chain is the one that is remembered, until it expires.
pub proof fn first_number_counts_until_it_expires(
    usage: Seq<Usage>,
    chain: Seq<usize>,
    k: int,
    at: u64,
)
    requires
        0 <= k < usage.len(),
        usage[k].chain@ == chain,
        forall|j: int| 0 <= j < k ==> (#[trigger] usage[j]).chain@ != chain,
    ensures
        at < usage[k].expires ==> quota::remembered(usage, chain, at) == Some(usage[k].value),
        at >= usage[k].expires ==> quota::remembered(usage, chain, at) is None,
{
    assert(quota::entry_at(usage, chain, k));
    quota::lemma_one_entry(usage, chain, k);
}

/// Of a chain without a number nothing is remembered.
pub proof fn nothing_is_remembered_of_others(usage: Seq<Usage>, chain: Seq<usize>, at: u64)
    requires
        forall|j: int| 0 <= j < usage.len() ==> (#[trigger] usage[j]).chain@ != chain,
    ensures
        quota::remembered(usage, chain, at) is None,
{
}

/// A measurement is remembered for the time that measurements are kept, and no longer; what
/// is remembered of other chains stays.
pub proof fn measurement_is_kept_for_its_time<S: Storage>(
    was: QuotaStorage<S>,
    now: QuotaStorage<S>,
    chain: Seq<usize>,
    v: u64,
    at: u64,
    other: Seq<usize>,
)
    requires
        quota::usage_read(was, now, chain, Ok::<u64, StorageError>(v)),
        quota::remembered(was.usage@, chain, was.now) is None,
        was.now + was.ttl <= u64::MAX,
    ensures
        at < was.now + was.ttl ==> quota::remembered(now.usage@, chain, at) == Some(v),
        at >= was.now + was.ttl ==> quota::remembered(now.usage@, chain, at) is None,
        other != chain ==> quota::remembered(now.usage@, other, at) == quota::remembered(
            was.usage@,
            other,
            at,
        ),
{
    let a = was.usage@;
    let b = now.usage@;
    let e = storage::sat((was.now + was.ttl) as nat);
    limits::lemma_first_entry(a, chain);
    assert(quota::noted(a, b, chain, v, e));
    lemma_noted(a, b, chain, v, e, at);
    if other != chain {
        lemma_noted_elsewhere(a, b, chain, v, e, at, other);
    }
}

proof fn lemma_noted(
    a: Seq<Usage>,
    b: Seq<Usage>,
    chain: Seq<usize>,
    v: u64,
    e: u64,
    at: u64,
)
    requires
        quota::noted(a, b, chain, v, e),
    ensures
        at < e ==> quota::remembered(b, chain, at) == Some(v),
        at >= e ==> quota::remembered(b, chain, at) is None,
{
    limits::lemma_first_entry(a, chain);
    if quota::has_entry(a, chain) {
        let k = choose|k: int| quota::entry_at(a, chain, k);
        assert forall|j: int| 0 <= j < k implies (#[trigger] b[j]).chain@ != chain by {
            assert(a[j].chain@ != chain);
        }
        first_number_counts_until_it_expires(b, chain, k, at);
    } else {
        let k = a.len() as int;
        assert forall|j: int| 0 <= j < k implies (#[trigger] b[j]).chain@ != chain by {
            assert(b.drop_last()[j] == a[j]);
            assert(a[j].chain@ != chain);
        }
        first_number_counts_until_it_expires(b, chain, k, at);
    }
}

proof fn lemma_noted_elsewhere(
    a: Seq<Usage>,
    b: Seq<Usage>,
    chain: Seq<usize>,
    v: u64,
    e: u64,
    at: u64,
    other: Seq<usize>,
)
    requires
        quota::noted(a, b, chain, v, e),
        other != chain,
    ensures
        quota::remembered(b, other, at) == quota::remembered(a, other, at),
{
    limits::lemma_first_entry(a, chain);
    limits::lemma_first_entry(a, other);
    limits::lemma_first_entry(b, other);
    assert forall|j: int| 0 <= j < a.len() implies (#[trigger] b[j]).chain@ == a[j].chain@ by {
        if !quota::has_entry(a, chain) {
            assert(b.drop_last()[j] == a[j]);
        }
    }
    if quota::has_entry(a, other) {
        let k = choose|k: int| quota::entry_at(a, other, k);
        assert forall|j: int| 0 <= j < k implies (#[trigger] b[j]).chain@ != other by {
            assert(a[j].chain@ != other);
        }
        assert(b[k].chain@ == other);
        assert(b[k].value == a[k].value && b[k].expires == a[k].expires) by {
            if !quota::has_entry(a, chain) {
                assert(b.drop_last()[k] == a[k]);
            }
        }
        first_number_counts_until_it_expires(b, other, k, at);
        first_number_counts_until_it_expires(a, other, k, at);
    } else {
        assert forall|j: int| 0 <= j < b.len() implies (#[trigger] b[j]).chain@ != other by {
            if j < a.len() {
                assert(a[j].chain@ != other);
            } else {
                assert(b[j] == b.last());
            }
        }
        nothing_is_remembered_of_others(b, other, at);
        nothing_is_remembered_of_others(a, other, at);
    }
}

/// What is remembered is told without looking at a volume.
pub proof fn what_is_remembered_is_not_measured<S: Storage>(
    was: QuotaStorage<S>,
    now: QuotaStorage<S>,
    chain: Seq<usize>,
    v: u64,
    r: Result<u64, StorageError>,
)
    requires
        quota::usage_read(was, now, chain, r),
        quota::remembered(was.usage@, chain, was.now) == Some(v),
    ensures
        r == Ok::<u64, StorageError>(v),
        now.router.volumes@ == was.router.volumes@,
        now.usage@ == was.usage@,
{
}

/// What is written is added to what is remembered of its chain, which expires when it would
/// have; what is remembered of other chains stays.
pub proof fn what_is_written_is_added(
    a: Seq<Usage>,
    b: Seq<Usage>,
    chain: Seq<usize>,
    size: u64,
    at: u64,
    other: Seq<usize>,
)
    requires
        quota::bumped(a, b, chain, size),
    ensures
        quota::remembered(a, chain, at) is None ==> quota::remembered(b, chain, at) is None,
        quota::remembered(a, chain, at) matches Some(v) ==> quota::remembered(b, chain, at) == Some(
            if v + size <= u64::MAX {
                (v + size) as u64
            } else {
                u64::MAX
            },
        ),
        other != chain ==> quota::remembered(b, other, at) == quota::remembered(a, other, at),
{
    limits::lemma_first_entry(a, chain);
    if quota::has_entry(a, chain) {
        let k = choose|k: int| quota::entry_at(a, chain, k);
        assert forall|j: int| 0 <= j < k implies (#[trigger] b[j]).chain@ != chain by {
            assert(a[j].chain@ != chain);
        }
        first_number_counts_until_it_expires(a, chain, k, at);
        first_number_counts_until_it_expires(b, chain, k, at);
        if other != chain {
            assert forall|j: int| 0 <= j < a.len() implies (#[trigger] b[j]).chain@
                == a[j].chain@ by {
            }
            limits::lemma_first_entry(a, other);
            if quota::has_entry(a, other) {
                let i = choose|i: int| quota::entry_at(a, other, i);
                assert forall|j: int| 0 <= j < i implies (#[trigger] b[j]).chain@ != other by {
                    assert(a[j].chain@ != other);
                }
                assert(b[i] == a[i]);
                first_number_counts_until_it_expires(a, other, i, at);
                first_number_counts_until_it_expires(b, other, i, at);
            } else {
                assert forall|j: int| 0 <= j < b.len() implies (#[trigger] b[j]).chain@ != other by {
                    assert(a[j].chain@ != other);
                }
                nothing_is_remembered_of_others(b, other, at);
                nothing_is_remembered_of_others(a, other, at);
            }
        }
    }
}

/// The report has a line for each quota, in their order, with its pattern and its limit; for
/// a pattern that no rule has, it says nothing of what is used.
pub proof fn report_has_a_line_for_each_quota<S: Storage>(
    was: QuotaStorage<S>,
    now: QuotaStorage<S>,
    states: Seq<Seq<Partition<S>>>,
    out: Seq<QuotaStatus>,
    j: int,
)
    requires
        quota::quotas_measured(was, now, states, out),
        0 <= j < out.len(),
    ensures
        out.len() == was.quotas@.len(),
        out[j].pattern@ == was.quotas@[j].pattern@,
        out[j].max_bytes == was.quotas@[j].max_bytes,
        (forall|k: int|
            0 <= k < was.router.table().len() ==> (#[trigger] was.router.table()[k]).pattern
                != was.quotas@[j].pattern@) ==> out[j].used_bytes is None,
{
    assert(quota::quota_measured(was, was.quotas@[j], states[j], states[j + 1], out[j]));
}

} // verus!
