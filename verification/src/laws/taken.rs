//! What a class of repositories takes up on volumes that work.

use vstd::prelude::*;

use crate::digest;
use crate::digest::{Digest, DigestView};
use crate::error::{OciCode, OciErrorView};
use crate::fanout;
use crate::fanout::{Ask, Partition};
use crate::handlers;
use crate::http::ResponseView;
use crate::laws::limits;
use crate::laws::moving;
use crate::laws::place;
use crate::model;
use crate::model::{Holdings, Reading};
use crate::order;
use crate::quota;
use crate::quota::{Quota, QuotaStatus, QuotaStorage, Stand, Usage};
use crate::repo_router;
use crate::repo_router::RuleView;
use crate::storage;
use crate::storage::{Call, Storage, StorageError, UploadStatus};
use crate::trail;

verus! {

/// The volumes of a chain hold these blobs.
pub open spec fn held(h: Seq<Holdings>, chain: Seq<usize>) -> Set<DigestView> {
    Set::new(|d: DigestView| is_held(h, chain, d))
}

pub open spec fn is_held(h: Seq<Holdings>, chain: Seq<usize>, d: DigestView) -> bool {
    exists|k: int| 0 <= k < chain.len() && place::holds_blob(h, chain, d, k)
}

/// The size of a blob on the first volume of a chain that holds it.
pub open spec fn size_on(h: Seq<Holdings>, chain: Seq<usize>, d: DigestView) -> nat
    decreases chain.len(),
{
    if chain.len() == 0 {
        0
    } else if h[chain[0] as int].blobs.contains_key(d) {
        h[chain[0] as int].blobs[d].len()
    } else {
        size_on(h, chain.drop_first(), d)
    }
}

/// The sizes of some blobs on a chain, added up.
pub open spec fn sum_on(h: Seq<Holdings>, chain: Seq<usize>, s: Set<DigestView>) -> nat
    decreases s.len(),
{
    if s.finite() && s.len() > 0 {
        let d = s.choose();
        size_on(h, chain, d) + sum_on(h, chain, s.remove(d))
    } else {
        0
    }
}

/// The bytes that the blobs of a chain take up, each blob counted once.
pub open spec fn taken(h: Seq<Holdings>, chain: Seq<usize>) -> nat {
    sum_on(h, chain, held(h, chain))
}

proof fn lemma_size_on(h: Seq<Holdings>, chain: Seq<usize>, d: DigestView, k: int)
    requires
        0 <= k < chain.len(),
        place::holds_blob(h, chain, d, k),
        forall|j: int| 0 <= j < k ==> !place::holds_blob(h, chain, d, j),
    ensures
        size_on(h, chain, d) == h[chain[k] as int].blobs[d].len(),
    decreases k,
{
    if k > 0 {
        assert(!place::holds_blob(h, chain, d, 0));
        let rest = chain.drop_first();
        assert(rest[k - 1] == chain[k]);
        assert forall|j: int| 0 <= j < k - 1 implies !place::holds_blob(h, rest, d, j) by {
            assert(rest[j] == chain[j + 1]);
            assert(!place::holds_blob(h, chain, d, j + 1));
        }
        lemma_size_on(h, rest, d, k - 1);
    }
}

proof fn lemma_sum_with(h: Seq<Holdings>, chain: Seq<usize>, s: Set<DigestView>, d: DigestView)
    requires
        s.finite(),
        s.contains(d),
    ensures
        sum_on(h, chain, s) == size_on(h, chain, d) + sum_on(h, chain, s.remove(d)),
    decreases s.len(),
{
    let c = s.choose();
    assert(s.len() > 0);
    assert(s.contains(c));
    if c != d {
        lemma_sum_with(h, chain, s.remove(c), d);
        lemma_sum_with(h, chain, s.remove(d), c);
        assert(s.remove(c).remove(d) =~= s.remove(d).remove(c));
    }
}

/// Volumes on which the sizes of some blobs agree.
proof fn lemma_same_sum(h: Seq<Holdings>, h2: Seq<Holdings>, chain: Seq<usize>, s: Set<DigestView>)
    requires
        s.finite(),
        forall|d: DigestView| #[trigger]
            s.contains(d) ==> size_on(h2, chain, d) == size_on(h, chain, d),
    ensures
        sum_on(h2, chain, s) == sum_on(h, chain, s),
    decreases s.len(),
{
    if s.len() > 0 {
        let c = s.choose();
        assert(s.contains(c));
        lemma_same_sum(h, h2, chain, s.remove(c));
    }
}

/// The sum over the distinct members of a list.
proof fn lemma_sum_of_list(
    h: Seq<Holdings>,
    chain: Seq<usize>,
    list: Seq<DigestView>,
    sizes: Seq<Result<u64, StorageError>>,
)
    requires
        list.no_duplicates(),
        sizes.len() == list.len(),
        forall|i: int|
            0 <= i < list.len() ==> (#[trigger] sizes[i]) is Ok && sizes[i]->Ok_0 == size_on(
                h,
                chain,
                list[i],
            ),
    ensures
        quota::sum_sizes(sizes) == sum_on(h, chain, list.to_set()),
    decreases list.len(),
{
    list.unique_seq_to_set();
    if list.len() == 0 {
        assert(list.to_set() =~= Set::empty());
    } else {
        let rest = list.drop_last();
        let d = list.last();
        assert(rest.no_duplicates());
        assert forall|i: int| 0 <= i < rest.len() implies (#[trigger] sizes.drop_last()[i]) is Ok
            && sizes.drop_last()[i]->Ok_0 == size_on(h, chain, rest[i]) by {
            assert(sizes.drop_last()[i] == sizes[i]);
        }
        lemma_sum_of_list(h, chain, rest, sizes.drop_last());
        assert(list[list.len() - 1] == d);
        assert(list.to_set().contains(d));
        assert(list.to_set().remove(d) =~= rest.to_set()) by {
            assert forall|x: DigestView| list.to_set().remove(d).contains(x) == rest.to_set().contains(x) by {
                if rest.contains(x) {
                    let i = choose|i: int| 0 <= i < rest.len() && rest[i] == x;
                    assert(list[i] == x);
                    assert(list[i] != list[list.len() - 1]);
                }
                if list.contains(x) && x != d {
                    let i = choose|i: int| 0 <= i < list.len() && list[i] == x;
                    assert(rest[i] == x);
                }
            }
        }
        lemma_sum_with(h, chain, list.to_set(), d);
        assert(sizes.last() == sizes[sizes.len() - 1]);
    }
}

/// The size that is read is that on the first volume that holds the blob.
proof fn lemma_size_read<S: Storage>(
    read: Reading,
    was: Seq<Partition<S>>,
    now: Seq<Partition<S>>,
    h: Seq<Holdings>,
    h2: Seq<Holdings>,
    order: Seq<usize>,
    a: fanout::BlobSize,
    r: Result<u64, StorageError>,
)
    requires
        place::evolves(read, was, now, h, h2),
        fanout::places(order, was.len()),
        quota::size_read(was, now, order, a, r),
    ensures
        h2 == h,
        is_held(h, order, a.digest@) ==> r is Ok && r->Ok_0 == size_on(h, order, a.digest@),
{
    let d = a.digest@;
    let replies = choose|replies: Seq<Result<u64, StorageError>>|
        #![trigger fanout::asked(was, now, order, a, replies)]
        fanout::asked(was, now, order, a, replies) && fanout::first_answer(replies, order.len(), r);
    place::lemma_asked(read, was, now, h, h2, order, a, replies);
    let n = replies.len() as int;
    assert forall|i: int| 0 <= i < n implies h2[order[i] as int] == h[order[i] as int] && (
    place::holds_blob(h, order, d, i) <==> #[trigger] replies[i] is Ok) by {
        assert(model::step(read, h[order[i] as int], a.call(replies[i]), h2[order[i] as int]));
    }
    assert forall|i: int| 0 <= i < n implies h2[#[trigger] order[i] as int]
        == h[order[i] as int] by {
        assert(replies[i] is Ok || replies[i] is Err);
    }
    lemma_unchanged(h, h2, order, n);
    assert(model::step(
        read,
        h[order[n - 1] as int],
        a.call(replies[n - 1]),
        h2[order[n - 1] as int],
    ));
    if is_held(h, order, d) {
        let k = choose|k: int| 0 <= k < order.len() && place::holds_blob(h, order, d, k);
        if k < n {
            assert(replies[k] is Ok);
        }
        assert(r is Ok);
        assert forall|j: int| 0 <= j < n - 1 implies !place::holds_blob(h, order, d, j) by {
            assert(!(replies[j] is Ok));
        }
        lemma_size_on(h, order, d, n - 1);
    }
}

/// Where nothing changed at the places that were asked, nor elsewhere, nothing changed.
proof fn lemma_unchanged(h: Seq<Holdings>, h2: Seq<Holdings>, order: Seq<usize>, n: int)
    requires
        h2.len() == h.len(),
        forall|i: int| 0 <= i < n ==> h2[#[trigger] order[i] as int] == h[order[i] as int],
        forall|p: int|
            0 <= p < h.len() && (forall|i: int| 0 <= i < n ==> order[i] != p) ==> #[trigger] h2[p]
                == h[p],
    ensures
        h2 == h,
{
    assert forall|p: int| 0 <= p < h.len() implies h2[p] == h[p] by {
        if exists|i: int| 0 <= i < n && order[i] == p {
            let i = choose|i: int| 0 <= i < n && order[i] == p;
            assert(h2[order[i] as int] == h[order[i] as int]);
        }
    }
    assert(h2 =~= h);
}

proof fn lemma_sizes<S: Storage>(
    read: Reading,
    states: Seq<Seq<Partition<S>>>,
    h: Seq<Holdings>,
    h2: Seq<Holdings>,
    order: Seq<usize>,
    list: Seq<Digest>,
    sizes: Seq<Result<u64, StorageError>>,
    n: int,
)
    requires
        quota::sizes_read(states, order, list, sizes),
        0 <= n <= list.len(),
        place::evolves(read, states[0], states[n], h, h2),
        fanout::places(order, states[0].len()),
        forall|i: int| 0 <= i < list.len() ==> is_held(h, order, (#[trigger] list[i])@),
    ensures
        h2 == h,
        forall|i: int|
            0 <= i < n ==> (#[trigger] sizes[i]) is Ok && sizes[i]->Ok_0 == size_on(
                h,
                order,
                list[i]@,
            ),
    decreases n,
{
    limits::lemma_sizes_measure(states, order, list, sizes, n);
    if n == 0 {
        assert(h2 =~= h) by {
            assert forall|p: int| 0 <= p < h.len() implies h2[p] == h[p] by {
                storage::lemma_added_none(states[0][p].storage.log());
                assert(place::came_from(
                    read,
                    h[p],
                    storage::added(states[0][p].storage.log(), states[0][p].storage.log()),
                    h2[p],
                ));
            }
        }
    } else {
        limits::lemma_sizes_measure(states, order, list, sizes, n - 1);
        let a = fanout::BlobSize { repo: "", digest: &list[n - 1] };
        assert(quota::size_read(states[n - 1], states[n - 1 + 1], order, a, sizes[n - 1]));
        let replies = choose|replies: Seq<Result<u64, StorageError>>|
            #![trigger fanout::asked(states[n - 1], states[n], order, a, replies)]
            fanout::asked(states[n - 1], states[n], order, a, replies) && fanout::first_answer(
                replies,
                order.len(),
                sizes[n - 1],
            );
        place::lemma_asked_grew(states[n - 1], states[n], order, a, replies);
        let hm = place::lemma_between(read, states[0], states[n - 1], states[n], h, h2);
        lemma_sizes(read, states, h, hm, order, list, sizes, n - 1);
        lemma_size_read(read, states[n - 1], states[n], hm, h2, order, a, sizes[n - 1]);
        assert(is_held(h, order, list[n - 1]@));
        assert forall|i: int| 0 <= i < n implies (#[trigger] sizes[i]) is Ok && sizes[i]->Ok_0
            == size_on(h, order, list[i]@) by {
            if i == n - 1 {
                assert(a.digest@ == list[i]@);
            }
        }
    }
}

/// Measuring a chain gives the bytes that its blobs take up, and changes nothing.
pub proof fn measurement_is_right<S: Storage>(
    read: Reading,
    was: Seq<Partition<S>>,
    now: Seq<Partition<S>>,
    h: Seq<Holdings>,
    h2: Seq<Holdings>,
    chain: Seq<usize>,
    r: Result<u64, StorageError>,
)
    requires
        place::evolves(read, was, now, h, h2),
        fanout::places(chain, was.len()),
        chain.len() > 0,
        quota::measured(was, now, chain, r),
    ensures
        h2 == h,
        r == Ok::<u64, StorageError>(storage::sat(taken(h, chain))),
{
    let (listed, states, sizes) = choose|
        listed: Result<Vec<Digest>, StorageError>,
        states: Seq<Seq<Partition<S>>>,
        sizes: Seq<Result<u64, StorageError>>,
    | #[trigger]
        quota::measured_by(was, now, chain, r, listed, states, sizes);
    let first = if listed is Ok {
        states[0]
    } else {
        now
    };
    let a = fanout::ListAllBlobs;
    let replies = choose|replies: Seq<Result<Vec<Digest>, StorageError>>|
        #![trigger fanout::asked(was, first, chain, a, replies)]
        fanout::asked(was, first, chain, a, replies) && fanout::union_answer(
            replies,
            chain.len(),
            listed,
        );
    place::lemma_asked_grew(was, first, chain, a, replies);
    if listed is Ok {
        limits::lemma_sizes_measure(states, chain, listed->Ok_0@, sizes, sizes.len() as int);
    } else {
        limits::lemma_unmeasured(now);
    }
    let hm = place::lemma_between(read, was, first, now, h, h2);
    place::list_is_the_union(read, was, first, h, hm, chain, replies, listed);
    place::lemma_asked(read, was, first, h, hm, chain, a, replies);
    assert forall|i: int| 0 <= i < replies.len() implies hm[#[trigger] chain[i] as int]
        == h[chain[i] as int] by {
        assert(model::step(read, h[chain[i] as int], a.call(replies[i]), hm[chain[i] as int]));
    }
    lemma_unchanged(h, hm, chain, replies.len() as int);
    let list = listed->Ok_0@;
    let names = order::views_of(list);
    assert(names.to_set() =~= held(h, chain));
    assert forall|i: int| 0 <= i < list.len() implies is_held(h, chain, (#[trigger] list[i])@) by {
        assert(names[i] == list[i]@);
        assert(names.to_set().contains(list[i]@));
    }
    lemma_sizes(read, states, h, h2, chain, list, sizes, list.len() as int);
    order::lemma_increasing_distinct(list);
    assert forall|i: int| 0 <= i < names.len() implies (#[trigger] sizes[i]) is Ok
        && sizes[i]->Ok_0 == size_on(h, chain, names[i]) by {
        assert(names[i] == list[i]@);
    }
    lemma_sum_of_list(h, chain, names, sizes);
}

/// The report shows, for a quota whose pattern a rule has, the bytes that the blobs on
/// the rule's volumes take up.
pub proof fn report_shows_what_is_taken<S: Storage>(
    read: Reading,
    was: QuotaStorage<S>,
    now: QuotaStorage<S>,
    h: Seq<Holdings>,
    h2: Seq<Holdings>,
    states: Seq<Seq<Partition<S>>>,
    out: Seq<QuotaStatus>,
    j: int,
    k: int,
)
    requires
        was.wf(),
        quota::quotas_measured(was, now, states, out),
        place::evolves(read, was.router.volumes@, now.router.volumes@, h, h2),
        0 <= j < out.len(),
        repo_router::first_with_pattern(was.router.table(), was.quotas@[j].pattern@, k),
    ensures
        out[j].used_bytes == Some(storage::sat(taken(h, was.router.table()[k].chain))),
        h2 == h,
{
    lemma_report(read, was, h, h2, states, out, out.len() as int, j, k);
}

proof fn lemma_status_measures<S: Storage>(
    was: QuotaStorage<S>,
    states: Seq<Seq<Partition<S>>>,
    out: Seq<QuotaStatus>,
    n: int,
)
    requires
        0 <= n <= out.len(),
        states.len() == out.len() + 1,
        forall|j: int|
            0 <= j < out.len() ==> quota::quota_measured(
                was,
                was.quotas@[j],
                states[j],
                states[j + 1],
                #[trigger] out[j],
            ),
    ensures
        limits::only_measured(states[0], states[n]),
    decreases n,
{
    if n == 0 {
        limits::lemma_unmeasured(states[0]);
    } else {
        lemma_status_measures(was, states, out, n - 1);
        let q = was.quotas@[n - 1];
        let table = was.router.table();
        assert(quota::quota_measured(was, q, states[n - 1], states[n - 1 + 1], out[n - 1]));
        if repo_router::has_pattern(table, q.pattern@) {
            let (k, r) = choose|k: int, r: Result<u64, StorageError>|
                #![trigger quota::measured(states[n - 1], states[n], table[k].chain, r)]
                repo_router::first_with_pattern(table, q.pattern@, k) && quota::measured(
                    states[n - 1],
                    states[n],
                    table[k].chain,
                    r,
                );
            limits::lemma_measured_only(states[n - 1], states[n], table[k].chain, r);
        } else {
            limits::lemma_unmeasured(states[n]);
        }
        limits::lemma_only_measured(states[0], states[n - 1], states[n]);
    }
}

proof fn lemma_report<S: Storage>(
    read: Reading,
    was: QuotaStorage<S>,
    h: Seq<Holdings>,
    h2: Seq<Holdings>,
    states: Seq<Seq<Partition<S>>>,
    out: Seq<QuotaStatus>,
    n: int,
    j: int,
    k: int,
)
    requires
        was.wf(),
        0 <= n <= out.len(),
        states.len() == out.len() + 1,
        out.len() == was.quotas@.len(),
        states[0] == was.router.volumes@,
        forall|j: int|
            0 <= j < out.len() ==> quota::quota_measured(
                was,
                was.quotas@[j],
                states[j],
                states[j + 1],
                #[trigger] out[j],
            ),
        place::evolves(read, states[0], states[n], h, h2),
        0 <= j < out.len(),
        repo_router::first_with_pattern(was.router.table(), was.quotas@[j].pattern@, k),
    ensures
        h2 == h,
        j < n ==> out[j].used_bytes == Some(storage::sat(taken(h, was.router.table()[k].chain))),
    decreases n,
{
    let table = was.router.table();
    if n == 0 {
        assert(h2 =~= h) by {
            assert forall|p: int| 0 <= p < h.len() implies h2[p] == h[p] by {
                storage::lemma_added_none(states[0][p].storage.log());
                assert(place::came_from(
                    read,
                    h[p],
                    storage::added(states[0][p].storage.log(), states[0][p].storage.log()),
                    h2[p],
                ));
            }
        }
    } else {
        lemma_status_measures(was, states, out, n - 1);
        lemma_status_measures(was, states, out, n);
        let q = was.quotas@[n - 1];
        assert(quota::quota_measured(was, q, states[n - 1], states[n - 1 + 1], out[n - 1]));
        if repo_router::has_pattern(table, q.pattern@) {
            let (x, r) = choose|x: int, r: Result<u64, StorageError>|
                #![trigger quota::measured(states[n - 1], states[n], table[x].chain, r)]
                repo_router::first_with_pattern(table, q.pattern@, x) && quota::measured(
                    states[n - 1],
                    states[n],
                    table[x].chain,
                    r,
                ) && out[n - 1].used_bytes == match r {
                    Ok(n) => Some(n),
                    Err(_) => None,
                };
            limits::lemma_measured_only(states[n - 1], states[n], table[x].chain, r);
            let hm = place::lemma_between(read, states[0], states[n - 1], states[n], h, h2);
            lemma_report(read, was, h, hm, states, out, n - 1, j, k);
            assert(table[x].chain.len() > 0);
            measurement_is_right(read, states[n - 1], states[n], hm, h2, table[x].chain, r);
            if j == n - 1 {
                assert(x == k);
            }
        } else {
            assert(states[n] == states[n - 1]);
            lemma_report(read, was, h, h2, states, out, n - 1, j, k);
            if j == n - 1 {
                assert(repo_router::has_pattern(table, q.pattern@));
            }
        }
    }
}

/// The volumes of a chain tell whether one of them holds the blob.
pub proof fn lemma_asked_whether_held<S: Storage>(
    read: Reading,
    was: Seq<Partition<S>>,
    now: Seq<Partition<S>>,
    h: Seq<Holdings>,
    h2: Seq<Holdings>,
    order: Seq<usize>,
    a: fanout::BlobExists,
    r: Result<bool, StorageError>,
)
    requires
        place::evolves(read, was, now, h, h2),
        fanout::places(order, was.len()),
        trail::until_true(was, now, order, a, r),
    ensures
        h2 == h,
        r == Ok::<bool, StorageError>(is_held(h, order, a.digest@)),
{
    let d = a.digest@;
    let replies = choose|replies: Seq<Result<bool, StorageError>>| #[trigger]
        fanout::asked(was, now, order, a, replies) && fanout::any_answer(replies, order.len(), r);
    place::lemma_asked(read, was, now, h, h2, order, a, replies);
    let n = replies.len() as int;
    assert forall|i: int| 0 <= i < n implies h2[#[trigger] order[i] as int] == h[order[i] as int]
        && replies[i] == Ok::<bool, StorageError>(place::holds_blob(h, order, d, i)) by {
        assert(model::step(read, h[order[i] as int], a.call(replies[i]), h2[order[i] as int]));
    }
    lemma_unchanged(h, h2, order, n);
    if is_held(h, order, d) {
        let k = choose|k: int| 0 <= k < order.len() && place::holds_blob(h, order, d, k);
        if k < n {
            assert(order[k] == order[k]);
        }
    }
    if n > 0 {
        assert(order[n - 1] == order[n - 1]);
        assert(replies.last() == replies[n - 1]);
    }
    assert(r == Ok::<bool, StorageError>(is_held(h, order, d)));
}

/// What is remembered of a chain, if anything, is what its blobs take up.
pub open spec fn counted<S: Storage>(
    q: QuotaStorage<S>,
    h: Seq<Holdings>,
    chain: Seq<usize>,
) -> bool {
    quota::remembered(q.usage@, chain, q.now) matches Some(v) ==> v == storage::sat(
        taken(h, chain),
    )
}

/// The call was answered by the volume at `at`; the others hold what they held.
pub open spec fn lands(
    read: Reading,
    h: Seq<Holdings>,
    h2: Seq<Holdings>,
    at: usize,
    c: Call,
) -> bool {
    &&& h2.len() == h.len()
    &&& at < h.len()
    &&& model::step(read, h[at as int], c, h2[at as int])
    &&& forall|p: int| 0 <= p < h.len() && p != at ==> #[trigger] h2[p] == h[p]
}

pub proof fn lemma_lands<S: Storage, W: Ask>(
    read: Reading,
    was: Seq<Partition<S>>,
    now: Seq<Partition<S>>,
    h: Seq<Holdings>,
    h2: Seq<Holdings>,
    at: usize,
    w: W,
    r: Result<W::Answer, StorageError>,
)
    requires
        place::evolves(read, was, now, h, h2),
        at < was.len(),
        trail::alone(was, now, at, w, r),
    ensures
        lands(read, h, h2, at, w.call(r)),
{
    let order = seq![at];
    place::lemma_asked(read, was, now, h, h2, order, w, seq![r]);
    assert(model::step(read, h[order[0] as int], w.call(seq![r][0]), h2[order[0] as int]));
    assert forall|p: int| 0 <= p < h.len() && p != at implies #[trigger] h2[p] == h[p] by {
        assert forall|i: int| 0 <= i < seq![r].len() implies order[i] != p by {}
    }
}

/// How a quota decides on a write of `size` new bytes.
pub open spec fn decided<S: Storage>(
    read: Reading,
    q: QuotaStorage<S>,
    h: Seq<Holdings>,
    h2: Seq<Holdings>,
    repo: Seq<char>,
    size: u64,
    c: Call,
    r: Result<(), StorageError>,
) -> bool {
    let chain = q.router.route(repo);
    let used = storage::sat(taken(h, chain));
    &&& quota::ungoverned(q.quotas@, repo) ==> lands(read, h, h2, chain[0], c)
    &&& forall|i: int| #[trigger]
        quota::governs(q.quotas@, repo, i) ==> if stays_within(
            taken(h, chain) + size,
            q.quotas@[i].max_bytes,
        ) {
            lands(read, h, h2, chain[0], c)
        } else {
            &&& r matches Err(StorageError::QuotaExceeded(m)) && m@ == quota::refusal(
                q.quotas@[i],
                used,
                size,
            )
            &&& h2 == h
        }
}

/// The number is no more than the limit, of which the greatest limits nothing.
pub open spec fn stays_within(n: int, limit: u64) -> bool {
    n <= limit || limit == u64::MAX
}

proof fn lemma_fits(q: Quota, n: nat, size: u64)
    ensures
        quota::fits(q, storage::sat(n), size) <==> stays_within(n + size, q.max_bytes),
{
    limits::fitting_is_within_the_limit(q, storage::sat(n), size);
    limits::kept_in_64_bits(n);
}

/// The entry that a look at the usage leaves behind.
proof fn lemma_noted<S: Storage>(
    was: QuotaStorage<S>,
    now: QuotaStorage<S>,
    h: Seq<Holdings>,
    chain: Seq<usize>,
    v: u64,
)
    requires
        quota::usage_read(was, now, chain, Ok(v)),
        now.kept(&was),
        v == storage::sat(taken(h, chain)),
        counted(was, h, chain),
    ensures
        counted(now, h, chain),
{
    limits::lemma_first_entry(was.usage@, chain);
    if quota::remembered(was.usage@, chain, was.now) is None {
        let a = now.usage@;
        let k = if quota::has_entry(was.usage@, chain) {
            choose|k: int| quota::entry_at(was.usage@, chain, k)
        } else {
            was.usage@.len() as int
        };
        assert(quota::entry_at(a, chain, k)) by {
            if quota::has_entry(was.usage@, chain) {
                assert(quota::entry_at(was.usage@, chain, k));
                assert forall|j: int| 0 <= j < k implies (#[trigger] a[j]).chain@ != chain by {
                    assert(was.usage@[j].chain@ != chain);
                }
            } else {
                assert(a[k].chain@ == chain);
                assert forall|j: int| 0 <= j < k implies (#[trigger] a[j]).chain@ != chain by {
                    assert(a.drop_last()[j] == was.usage@[j]);
                    assert(was.usage@[j].chain@ != chain);
                }
            }
        }
        quota::lemma_one_entry(a, chain, k);
    }
}

/// What is remembered grows with what was written.
proof fn lemma_bumped(was: Seq<Usage>, now: Seq<Usage>, chain: Seq<usize>, size: u64, at: u64)
    requires
        quota::bumped(was, now, chain, size),
    ensures
        match quota::remembered(was, chain, at) {
            Some(v) => quota::remembered(now, chain, at) == Some(storage::sat((v + size) as nat)),
            None => quota::remembered(now, chain, at) is None,
        },
{
    limits::lemma_first_entry(was, chain);
    if quota::has_entry(was, chain) {
        let k = choose|k: int| quota::entry_at(was, chain, k);
        assert(quota::entry_at(was, chain, k));
        assert(quota::entry_at(now, chain, k)) by {
            assert forall|j: int| 0 <= j < k implies (#[trigger] now[j]).chain@ != chain by {
                assert(was[j].chain@ != chain);
            }
        }
        quota::lemma_one_entry(now, chain, k);
    }
}

/// A guarded write on volumes that work.
proof fn lemma_guarded<S: Storage, W: Ask<Answer = ()>>(
    read: Reading,
    was: QuotaStorage<S>,
    now: QuotaStorage<S>,
    h: Seq<Holdings>,
    h2: Seq<Holdings>,
    repo: Seq<char>,
    size: u64,
    w: W,
    r: Result<(), StorageError>,
)
    requires
        was.router.ruled(),
        quota::guarded(was, now, repo, size, w, r),
        place::evolves(read, was.router.volumes@, now.router.volumes@, h, h2),
        counted(was, h, was.router.route(repo)),
    ensures
        decided(read, was, h, h2, repo, size, w.call(r), r),
        r is Err && h2 == h && now.now == was.now ==> counted(now, h2, was.router.route(repo)),
        now.now == was.now && r is Ok && taken(h2, was.router.route(repo)) == taken(
            h,
            was.router.route(repo),
        ) + size ==> counted(now, h2, was.router.route(repo)),
{
    let chain = was.router.route(repo);
    let volumes = was.router.volumes@;
    let (d, checked) = choose|d: Result<(), StorageError>, checked: QuotaStorage<S>| #[trigger]
        quota::enforced(was, checked, repo, size, d) && match d {
            Err(e) => quota::refused(checked, now, r, e),
            Ok(_) => {
                &&& quota::passed_on(checked, now, repo, w, r)
                &&& if r is Ok {
                    quota::bumped(checked.usage@, now.usage@, was.router.route(repo), size)
                } else {
                    now.usage == checked.usage
                }
            },
        };
    limits::lemma_enforced_measures(was, checked, repo, size, d);
    moving::some_rule_decides(was.router.table(), repo);
    assert(was.router.table()[repo_router::deciding_rule(was.router.table(), repo)].chain.len()
        > 0);
    assert(chain[0] < volumes.len());
    let end = now.router.volumes@;
    if d is Ok {
        place::lemma_asked_grew(checked.router.volumes@, end, seq![chain[0]], w, seq![r]);
    } else {
        limits::lemma_unmeasured(end);
    }
    let hm = place::lemma_between(read, volumes, checked.router.volumes@, end, h, h2);
    if d is Ok {
        lemma_lands(read, checked.router.volumes@, end, hm, h2, chain[0], w, r);
    } else {
        lemma_still(read, end, hm, h2);
    }
    if quota::ungoverned(was.quotas@, repo) {
        lemma_still(read, volumes, h, hm);
    } else {
        let (i, used) = choose|i: int, used: Result<u64, StorageError>| #[trigger]
            quota::enforced_by(was, checked, repo, size, d, i, used);
        match quota::remembered(was.usage@, chain, was.now) {
            Some(_) => lemma_still(read, volumes, h, hm),
            None => measurement_is_right(
                read,
                volumes,
                checked.router.volumes@,
                h,
                hm,
                chain,
                used,
            ),
        }
        assert(used == Ok::<u64, StorageError>(storage::sat(taken(h, chain))));
        lemma_noted(was, checked, h, chain, used->Ok_0);
        assert forall|j: int| #[trigger] quota::governs(was.quotas@, repo, j) implies j == i by {
            assert(quota::quota_matches(was.quotas@, repo, i));
            assert(quota::quota_matches(was.quotas@, repo, j));
        }
        lemma_fits(was.quotas@[i], taken(h, chain), size);
    }
    assert(counted(checked, h, chain));
    if d is Ok && r is Ok {
        lemma_bumped(checked.usage@, now.usage@, chain, size, was.now);
    }
    assert forall|j: int| #[trigger] quota::governs(was.quotas@, repo, j) implies !quota::ungoverned(
        was.quotas@,
        repo,
    ) by {
        assert(quota::quota_matches(was.quotas@, repo, j));
    }
}

/// Stores that were asked nothing hold what they held.
pub proof fn lemma_still<S: Storage>(
    read: Reading,
    was: Seq<Partition<S>>,
    h: Seq<Holdings>,
    h2: Seq<Holdings>,
)
    requires
        place::evolves(read, was, was, h, h2),
    ensures
        h2 == h,
{
    assert forall|p: int| 0 <= p < h.len() implies h2[p] == h[p] by {
        storage::lemma_added_none(was[p].storage.log());
        assert(place::came_from(
            read,
            h[p],
            storage::added(was[p].storage.log(), was[p].storage.log()),
            h2[p],
        ));
    }
    assert(h2 =~= h);
}

/// One more blob on the first volume of a chain.
proof fn lemma_one_more(
    h: Seq<Holdings>,
    h2: Seq<Holdings>,
    chain: Seq<usize>,
    d: DigestView,
    content: Seq<u8>,
)
    requires
        chain.len() > 0,
        forall|k: int| 0 <= k < chain.len() ==> (#[trigger] chain[k]) < h.len(),
        h2.len() == h.len(),
        h2[chain[0] as int].blobs == h[chain[0] as int].blobs.insert(d, content),
        forall|p: int| 0 <= p < h.len() && p != chain[0] ==> #[trigger] h2[p] == h[p],
        !is_held(h, chain, d),
        held(h, chain).finite(),
    ensures
        taken(h2, chain) == taken(h, chain) + content.len(),
        held(h2, chain) == held(h, chain).insert(d),
{
    let s = held(h, chain);
    let t = held(h2, chain);
    assert forall|x: DigestView| x != d implies is_held(h2, chain, x) == is_held(h, chain, x)
        && size_on(h2, chain, x) == size_on(h, chain, x) by {
        lemma_same_size(h, h2, chain, x);
        if is_held(h, chain, x) {
            let k = choose|k: int| 0 <= k < chain.len() && place::holds_blob(h, chain, x, k);
            assert(place::holds_blob(h2, chain, x, k));
        }
        if is_held(h2, chain, x) {
            let k = choose|k: int| 0 <= k < chain.len() && place::holds_blob(h2, chain, x, k);
            assert(place::holds_blob(h, chain, x, k));
        }
    }
    assert(place::holds_blob(h2, chain, d, 0));
    assert(t =~= s.insert(d));
    assert(t.remove(d) =~= s);
    lemma_sum_with(h2, chain, t, d);
    lemma_same_sum(h, h2, chain, s);
    lemma_size_on(h2, chain, d, 0);
}

proof fn lemma_same_size(h: Seq<Holdings>, h2: Seq<Holdings>, chain: Seq<usize>, x: DigestView)
    requires
        forall|k: int|
            0 <= k < chain.len() ==> h2[#[trigger] chain[k] as int].blobs.contains_key(x)
                == h[chain[k] as int].blobs.contains_key(x) && (h[chain[k] as int].blobs.contains_key(
                x,
            ) ==> h2[chain[k] as int].blobs[x] == h[chain[k] as int].blobs[x]),
    ensures
        size_on(h2, chain, x) == size_on(h, chain, x),
    decreases chain.len(),
{
    if chain.len() > 0 {
        assert(chain[0] == chain[0]);
        let rest = chain.drop_first();
        assert forall|k: int| 0 <= k < rest.len() implies h2[#[trigger] rest[k] as int].blobs.contains_key(
            x,
        ) == h[rest[k] as int].blobs.contains_key(x) && (h[rest[k] as int].blobs.contains_key(x)
            ==> h2[rest[k] as int].blobs[x] == h[rest[k] as int].blobs[x]) by {
            assert(rest[k] == chain[k + 1]);
        }
        lemma_same_size(h, h2, rest, x);
    }
}

proof fn lemma_chain(table: Seq<RuleView>, repo: Seq<char>, n: nat)
    requires
        table.len() > 0,
        repo_router::rules_valid(table, n),
    ensures
        repo_router::placed(table, repo).len() > 0,
        fanout::places(repo_router::placed(table, repo), n),
{
    moving::some_rule_decides(table, repo);
    assert(table[repo_router::deciding_rule(table, repo)].chain.len() > 0);
}

/// What follows the question whether a blob is there keeps the records.
proof fn lemma_first_asked<S: Storage, W: Ask<Answer = ()>>(
    was: QuotaStorage<S>,
    asked: QuotaStorage<S>,
    now: QuotaStorage<S>,
    repo: &str,
    digest: &Digest,
    size: u64,
    w: W,
    there: Result<bool, StorageError>,
    r: Result<(), StorageError>,
)
    requires
        quota::asked_first(was, asked, repo, digest, there),
        match there {
            Err(e) => quota::refused(asked, now, r, e),
            Ok(true) => quota::passed_on(asked, now, repo@, w, r),
            Ok(false) => quota::guarded(asked, now, repo@, size, w, r),
        },
    ensures
        place::grew(was.router.volumes@, asked.router.volumes@),
        place::grew(asked.router.volumes@, now.router.volumes@),
        trail::until_true(
            was.router.volumes@,
            asked.router.volumes@,
            was.router.route(repo@),
            (fanout::BlobExists { repo, digest }),
            there,
        ),
{
    let a = fanout::BlobExists { repo, digest };
    let x = was.router.volumes@;
    let y = asked.router.volumes@;
    let replies = choose|replies: Seq<Result<bool, StorageError>>|
        #![trigger fanout::asked(x, y, was.router.route(repo@), a, replies)]
        fanout::asked(x, y, was.router.route(repo@), a, replies) && fanout::any_answer(
            replies,
            was.router.route(repo@).len(),
            there,
        );
    place::lemma_asked_grew(x, y, was.router.route(repo@), a, replies);
    match there {
        Err(_) => limits::lemma_unmeasured(y),
        Ok(true) => {
            let at = asked.router.route(repo@)[0];
            place::lemma_asked_grew(y, now.router.volumes@, seq![at], w, seq![r]);
        },
        Ok(false) => lemma_guarded_grew(asked, now, repo@, size, w, r),
    }
}

proof fn lemma_guarded_grew<S: Storage, W: Ask<Answer = ()>>(
    was: QuotaStorage<S>,
    now: QuotaStorage<S>,
    repo: Seq<char>,
    size: u64,
    w: W,
    r: Result<(), StorageError>,
)
    requires
        quota::guarded(was, now, repo, size, w, r),
    ensures
        place::grew(was.router.volumes@, now.router.volumes@),
{
    limits::write_lands_in_its_class_or_nowhere(was, now, repo, size, w, r);
    if limits::handed_on(was, now, repo, w, r) {
        let x = was.router.volumes@;
        let at = was.router.route(repo)[0];
        let mid = choose|mid: Seq<Partition<S>>| #[trigger]
            limits::only_measured(x, mid) && trail::alone(mid, now.router.volumes@, at, w, r);
        place::lemma_asked_grew(mid, now.router.volumes@, seq![at], w, seq![r]);
        place::lemma_grew(x, mid, now.router.volumes@);
    }
}

/// An accepted write was handed on.
proof fn lemma_accepted<S: Storage>(
    read: Reading,
    q: QuotaStorage<S>,
    h: Seq<Holdings>,
    h2: Seq<Holdings>,
    repo: Seq<char>,
    size: u64,
    c: Call,
    r: Result<(), StorageError>,
)
    requires
        decided(read, q, h, h2, repo, size, c, r),
        !(r matches Err(StorageError::QuotaExceeded(_))),
    ensures
        lands(read, h, h2, q.router.route(repo)[0], c),
{
    if !quota::ungoverned(q.quotas@, repo) {
        limits::lemma_some_governs(q.quotas@, repo);
        let i = choose|i: int| #[trigger] quota::governs(q.quotas@, repo, i);
        assert(quota::governs(q.quotas@, repo, i));
    }
}

/// The volume holds the blob with this content.
pub open spec fn written_again(
    h: Seq<Holdings>,
    at: usize,
    d: DigestView,
    content: Seq<u8>,
) -> bool {
    h[at as int].blobs.contains_key(d) && h[at as int].blobs[d] == content
}

/// A write through the quotas on volumes that work. A blob that its class holds already
/// is written whatever the quota, which changes nothing where its volume has it. A new
/// one is written where its class has no quota or where it fits on top of what the class
/// takes up; else it is refused and nothing changes. What is written goes to the volume
/// of the class and to no other, and counts at once.
pub proof fn quota_is_kept<S: Storage>(
    read: Reading,
    was: QuotaStorage<S>,
    now: QuotaStorage<S>,
    h: Seq<Holdings>,
    h2: Seq<Holdings>,
    w: fanout::BlobWrite,
    r: Result<(), StorageError>,
)
    requires
        was.router.ruled(),
        now.kept(&was),
        quota::written(was, now, w, r),
        place::evolves(read, was.router.volumes@, now.router.volumes@, h, h2),
        counted(was, h, was.router.route(w.repo@)),
        held(h, was.router.route(w.repo@)).finite(),
        w.content@.len() <= u64::MAX,
    ensures
        ({
            let chain = was.router.route(w.repo@);
            let size = w.content@.len();
            if is_held(h, chain, w.digest@) {
                &&& lands(read, h, h2, chain[0], w.call(r))
                &&& written_again(h, chain[0], w.digest@, w.content@) ==> h2 == h && counted(
                    now,
                    h2,
                    chain,
                )
            } else {
                &&& decided(read, was, h, h2, w.repo@, size as u64, w.call(r), r)
                &&& taken(h2, chain) == taken(h, chain) + if r is Ok {
                    size
                } else {
                    0
                }
                &&& counted(now, h2, chain)
                &&& held(h2, chain).finite()
            }
        }),
{
    let chain = was.router.route(w.repo@);
    let volumes = was.router.volumes@;
    let end = now.router.volumes@;
    let (there, asked) = choose|there: Result<bool, StorageError>, asked: QuotaStorage<S>| #[trigger]
        quota::asked_first(was, asked, w.repo, w.digest, there) && match there {
            Err(e) => quota::refused(asked, now, r, e),
            Ok(true) => quota::passed_on(asked, now, w.repo@, w, r) && now.usage == asked.usage,
            Ok(false) => quota::guarded(asked, now, w.repo@, w.content@.len() as u64, w, r),
        };
    lemma_chain(was.router.table(), w.repo@, volumes.len());
    lemma_first_asked(
        was,
        asked,
        now,
        w.repo,
        w.digest,
        w.content@.len() as u64,
        w,
        there,
        r,
    );
    let mid = asked.router.volumes@;
    let hm = place::lemma_between(read, volumes, mid, end, h, h2);
    let a = fanout::BlobExists { repo: w.repo, digest: w.digest };
    lemma_asked_whether_held(read, volumes, mid, h, hm, chain, a, there);
    assert(asked.router.table() == was.router.table());
    if is_held(h, chain, w.digest@) {
        lemma_lands(read, mid, end, hm, h2, chain[0], w, r);
        if written_again(h, chain[0], w.digest@, w.content@) {
            let at = chain[0] as int;
            assert(h[at].blobs.insert(w.digest@, w.content@) =~= h[at].blobs);
            assert(h2 =~= h);
        }
    } else {
        lemma_guarded(read, asked, now, h, h2, w.repo@, w.content@.len() as u64, w, r);
        if r is Ok {
            lemma_accepted(read, asked, h, h2, w.repo@, w.content@.len() as u64, w.call(r), r);
            lemma_one_more(h, h2, chain, w.digest@, w.content@);
        } else {
            if !(r->Err_0 is QuotaExceeded) {
                lemma_accepted(read, asked, h, h2, w.repo@, w.content@.len() as u64, w.call(r), r);
                assert(h2 =~= h);
            }
        }
    }
}

/// The size of an upload on the volume that takes the writes.
pub open spec fn upload_size(h: Seq<Holdings>, at: usize, id: u128) -> nat {
    if h[at as int].uploads.contains_key(id) {
        h[at as int].uploads[id].len()
    } else {
        0
    }
}

/// The same for an upload that is finished: its size is what it holds.
pub proof fn quota_is_kept_for_uploads<S: Storage>(
    read: Reading,
    was: QuotaStorage<S>,
    now: QuotaStorage<S>,
    h: Seq<Holdings>,
    h2: Seq<Holdings>,
    w: fanout::UploadFinalize,
    r: Result<(), StorageError>,
)
    requires
        was.router.ruled(),
        now.kept(&was),
        quota::finished(was, now, w, r),
        place::evolves(read, was.router.volumes@, now.router.volumes@, h, h2),
        counted(was, h, was.router.route(w.repo@)),
        held(h, was.router.route(w.repo@)).finite(),
    ensures
        ({
            let chain = was.router.route(w.repo@);
            let size = upload_size(h, chain[0], w.id);
            if is_held(h, chain, w.digest@) {
                lands(read, h, h2, chain[0], w.call(r))
            } else {
                &&& decided(read, was, h, h2, w.repo@, size as u64, w.call(r), r)
                &&& taken(h2, chain) == taken(h, chain) + if r is Ok {
                    size
                } else {
                    0
                }
                &&& counted(now, h2, chain)
                &&& held(h2, chain).finite()
            }
        }),
{
    let chain = was.router.route(w.repo@);
    let volumes = was.router.volumes@;
    let end = now.router.volumes@;
    let (there, asked) = choose|there: Result<bool, StorageError>, asked: QuotaStorage<S>| #[trigger]
        quota::asked_first(was, asked, w.repo, w.digest, there) && match there {
            Err(e) => quota::refused(asked, now, r, e),
            Ok(true) => quota::passed_on(asked, now, w.repo@, w, r) && now.usage == asked.usage,
            Ok(false) => exists|size: u64, sized: QuotaStorage<S>| #[trigger]
                quota::upload_sized(asked, sized, w.repo, w.id, size) && quota::guarded(
                    sized,
                    now,
                    w.repo@,
                    size,
                    w,
                    r,
                ),
        };
    lemma_chain(was.router.table(), w.repo@, volumes.len());
    let mid = asked.router.volumes@;
    let a = fanout::BlobExists { repo: w.repo, digest: w.digest };
    assert(asked.router.table() == was.router.table());
    if there matches Ok(false) {
        let (size, sized) = choose|size: u64, sized: QuotaStorage<S>| #[trigger]
            quota::upload_sized(asked, sized, w.repo, w.id, size) && quota::guarded(
                sized,
                now,
                w.repo@,
                size,
                w,
                r,
            );
        let state = choose|state: Result<UploadStatus, StorageError>| #[trigger]
            trail::alone(
                mid,
                sized.router.volumes@,
                chain[0],
                (fanout::UploadState { repo: w.repo, id: w.id }),
                state,
            ) && size == match state {
                Ok(s) => s.offset,
                Err(_) => 0,
            };
        let u = fanout::UploadState { repo: w.repo, id: w.id };
        let third = sized.router.volumes@;
        lemma_first_only(was, asked, w.repo, w.digest, there);
        place::lemma_asked_grew(mid, third, seq![chain[0]], u, seq![state]);
        lemma_guarded_grew(sized, now, w.repo@, size, w, r);
        place::lemma_grew(mid, third, end);
        let hm = place::lemma_between(read, volumes, mid, end, h, h2);
        lemma_asked_whether_held(read, volumes, mid, h, hm, chain, a, there);
        let hn = place::lemma_between(read, mid, third, end, hm, h2);
        lemma_lands(read, mid, third, hm, hn, chain[0], u, state);
        assert(hn =~= hm);
        assert(size == upload_size(h, chain[0], w.id));
        lemma_guarded(read, sized, now, h, h2, w.repo@, size, w, r);
        if r is Ok {
            lemma_accepted(read, sized, h, h2, w.repo@, size, w.call(r), r);
            lemma_one_more(h, h2, chain, w.digest@, h[chain[0] as int].uploads[w.id]);
        } else if !(r->Err_0 is QuotaExceeded) {
            lemma_accepted(read, sized, h, h2, w.repo@, size, w.call(r), r);
            assert(h2 =~= h);
        }
        assert(decided(read, was, h, h2, w.repo@, size, w.call(r), r));
    } else {
        lemma_first_asked(was, asked, now, w.repo, w.digest, 0, w, there, r);
        let hm = place::lemma_between(read, volumes, mid, end, h, h2);
        lemma_asked_whether_held(read, volumes, mid, h, hm, chain, a, there);
        lemma_lands(read, mid, end, hm, h2, chain[0], w, r);
    }
}

proof fn lemma_first_only<S: Storage>(
    was: QuotaStorage<S>,
    asked: QuotaStorage<S>,
    repo: &str,
    digest: &Digest,
    there: Result<bool, StorageError>,
)
    requires
        quota::asked_first(was, asked, repo, digest, there),
    ensures
        place::grew(was.router.volumes@, asked.router.volumes@),
        trail::until_true(
            was.router.volumes@,
            asked.router.volumes@,
            was.router.route(repo@),
            (fanout::BlobExists { repo, digest }),
            there,
        ),
{
    let a = fanout::BlobExists { repo, digest };
    let x = was.router.volumes@;
    let y = asked.router.volumes@;
    let replies = choose|replies: Seq<Result<bool, StorageError>>|
        #![trigger fanout::asked(x, y, was.router.route(repo@), a, replies)]
        fanout::asked(x, y, was.router.route(repo@), a, replies) && fanout::any_answer(
            replies,
            was.router.route(repo@).len(),
            there,
        );
    place::lemma_asked_grew(x, y, was.router.route(repo@), a, replies);
}

/// What requests did to a store with quotas can be told from the calls that they added
/// to its record.
pub proof fn calls_tell_what_was_done<S: Storage>(was: QuotaStorage<S>, now: QuotaStorage<S>)
    requires
        was.begins(),
        now.wf(),
        now.origin() == was.origin(),
        storage::extends(was.log(), now.log()),
    ensures
        now.terms() == was.terms(),
        exists|states: Seq<Stand<S>>| #[trigger]
            quota::led(was.terms(), states, storage::added(was.log(), now.log())) && states[0]
                == was.stand() && states.last() == now.stand(),
{
    let t = now.path();
    let log = now.log();
    assert(log.skip(log.len() as int) =~= Seq::empty());
    assert(t.start() == trail::begun(was.terms(), was.log().len(), was.stand()).start());
    quota::lemma_followed(t, was.log(), log);
}

/// A blob that is pushed in one go through the quotas: it is refused where it does not
/// fit, and else answered by the volume of its class. What was accepted shows at once in
/// what the class takes up.
pub proof fn pushed_blob_counts<S: Storage>(
    read: Reading,
    was: QuotaStorage<S>,
    now: QuotaStorage<S>,
    h: Seq<Holdings>,
    h2: Seq<Holdings>,
    repo: Seq<char>,
    name: Seq<char>,
    body: Seq<u8>,
    r: Result<ResponseView, OciErrorView>,
)
    requires
        was.router.ruled(),
        was.begins(),
        now.wf(),
        now.origin() == was.origin(),
        storage::extends(was.log(), now.log()),
        handlers::upload_started(
            storage::added(was.log(), now.log()),
            repo,
            Some(name),
            None,
            None,
            body,
            r,
        ),
        handlers::valid_name(repo),
        handlers::digest_of(name) is Ok,
        place::evolves(read, was.router.volumes@, now.router.volumes@, h, h2),
        counted(was, h, was.router.route(repo)),
        held(h, was.router.route(repo)).finite(),
        body.len() <= u64::MAX,
    ensures
        ({
            let chain = was.router.route(repo);
            let d = handlers::digest_of(name)->Ok_0;
            !is_held(h, chain, d) ==> {
                &&& taken(h2, chain) == taken(h, chain) + if r is Ok {
                    body.len()
                } else {
                    0
                }
                &&& counted(now, h2, chain)
                &&& forall|i: int| #[trigger]
                    quota::governs(was.quotas@, repo, i) && !stays_within(
                        (taken(h, chain) + body.len()) as int,
                        was.quotas@[i].max_bytes,
                    ) ==> r is Err && r->Err_0.code == OciCode::Denied && r->Err_0.status == 413
                        && r->Err_0.message == quota::refusal(
                        was.quotas@[i],
                        storage::sat(taken(h, chain)),
                        body.len() as u64,
                    ) && h2 == h
                &&& (quota::ungoverned(was.quotas@, repo) || exists|i: int| #[trigger]
                    quota::governs(was.quotas@, repo, i) && stays_within(
                        (taken(h, chain) + body.len()) as int,
                        was.quotas@[i].max_bytes,
                    )) && digest::content_digest(d.algorithm, body) == d ==> r == Ok::<
                    _,
                    OciErrorView,
                >(handlers::blob_created(repo, d)) && h2[chain[0] as int].blobs[d] == body
            }
        }),
{
    let calls = storage::added(was.log(), now.log());
    let chain = was.router.route(repo);
    let d = handlers::digest_of(name)->Ok_0;
    let (k, m) = choose|k: int, m: Result<Option<DigestView>, OciErrorView>|
        0 <= k <= calls.len() && #[trigger] handlers::mount_tried(
            calls.take(k),
            repo,
            None,
            None,
            m,
        ) && match m {
            Err(e) => k == calls.len() && r == Err::<ResponseView, _>(e),
            Ok(Some(d)) => k == calls.len() && r == Ok::<_, OciErrorView>(
                handlers::blob_created(repo, d),
            ),
            Ok(None) => handlers::started(
                calls.subrange(k, calls.len() as int),
                repo,
                Some(name),
                body,
                r,
            ),
        };
    assert(k == 0);
    assert(calls.subrange(0, calls.len() as int) =~= calls);
    calls_tell_what_was_done(was, now);
    let states = choose|states: Seq<Stand<S>>| #[trigger]
        quota::led(was.terms(), states, calls) && states[0] == was.stand() && states.last()
            == now.stand();
    assert(quota::answered(was.terms(), states[0], calls[0], states[1]));
    let (x, y) = choose|x: QuotaStorage<S>, y: QuotaStorage<S>| #[trigger]
        quota::handled(x, y, calls[0]) && x.terms() == was.terms() && x.stand() == states[0]
            && y.stand() == states[1];
    let (w, reply) = choose|w: fanout::BlobWrite, reply: Result<(), StorageError>| #[trigger]
        quota::written(x, y, w, reply) && w.call(reply) == calls[0];
    assert(w.repo@ == repo && w.digest@ == d && w.content@ == body);
    assert(x.router.table().len() == x.router.rules@.len());
    assert(was.router.table().len() == was.router.rules@.len());
    assert(x.router.volumes@ == was.router.volumes@ && y.router.volumes@ == now.router.volumes@);
    quota_is_kept(read, x, y, h, h2, w, reply);
    if !is_held(h, chain, d) {
        if quota::ungoverned(was.quotas@, repo) || exists|i: int| #[trigger]
            quota::governs(was.quotas@, repo, i) && stays_within(
                (taken(h, chain) + body.len()) as int,
                was.quotas@[i].max_bytes,
            ) {
            assert(lands(read, h, h2, chain[0], w.call(reply)));
        }
    }
}

/// What was pushed and accepted shows in the next report: the quota of the class shows what
/// its blobs took up before and the pushed bytes.
pub proof fn pushed_bytes_are_reported<S: Storage>(
    read: Reading,
    was: QuotaStorage<S>,
    now: QuotaStorage<S>,
    later: QuotaStorage<S>,
    h: Seq<Holdings>,
    h2: Seq<Holdings>,
    h3: Seq<Holdings>,
    repo: Seq<char>,
    name: Seq<char>,
    body: Seq<u8>,
    r: Result<ResponseView, OciErrorView>,
    states: Seq<Seq<Partition<S>>>,
    out: Seq<QuotaStatus>,
    j: int,
    k: int,
)
    requires
        was.router.ruled(),
        was.begins(),
        now.wf(),
        now.origin() == was.origin(),
        storage::extends(was.log(), now.log()),
        handlers::upload_started(
            storage::added(was.log(), now.log()),
            repo,
            Some(name),
            None,
            None,
            body,
            r,
        ),
        handlers::valid_name(repo),
        handlers::digest_of(name) is Ok,
        r is Ok,
        place::evolves(read, was.router.volumes@, now.router.volumes@, h, h2),
        counted(was, h, was.router.route(repo)),
        held(h, was.router.route(repo)).finite(),
        !is_held(h, was.router.route(repo), handlers::digest_of(name)->Ok_0),
        body.len() <= u64::MAX,
        quota::quotas_measured(now, later, states, out),
        place::evolves(read, now.router.volumes@, later.router.volumes@, h2, h3),
        0 <= j < out.len(),
        repo_router::first_with_pattern(now.router.table(), now.quotas@[j].pattern@, k),
        now.router.table()[k].chain == was.router.route(repo),
    ensures
        out[j].used_bytes == Some(
            storage::sat(taken(h, was.router.route(repo)) + body.len()),
        ),
{
    pushed_blob_counts(read, was, now, h, h2, repo, name, body, r);
    report_shows_what_is_taken(read, now, later, h2, h3, states, out, j, k);
}

} // verus!
