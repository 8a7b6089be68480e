//! What several stores answer as one, and how the volumes of a router are put together.

use vstd::prelude::*;

use crate::digest;
use crate::digest::{Algorithm, DigestView};
use crate::fanout;
use crate::fanout::Partition;
use crate::laws::lists;
use crate::multi;
use crate::order;
use crate::order::Key;
use crate::repo_router;
use crate::repo_router::RuleView;
use crate::storage::StorageError;

verus! {

/// Where stores are read in turn, only one that has no such thing is passed over: a failure
/// is handed on, and nothing behind an answer is asked.
pub proof fn only_what_lacks_it_is_passed_over<T>(
    replies: Seq<Result<T, StorageError>>,
    n: nat,
    r: Result<T, StorageError>,
    i: int,
)
    requires
        fanout::first_answer(replies, n, r),
        0 <= i < replies.len(),
    ensures
        replies[i] is Ok ==> r == replies[i] && i == replies.len() - 1,
        replies[i] is Err && replies[i]->Err_0 != StorageError::NotFound ==> r == replies[i] && i
            == replies.len() - 1,
        r is Err && r->Err_0 == StorageError::NotFound ==> replies.len() == n,
{
    if i < replies.len() - 1 {
        assert(replies[i] == Err::<T, _>(StorageError::NotFound));
    }
}

/// Something is there where one store says so, and not there where all of them say so; a
/// failure is handed on.
pub proof fn there_where_one_has_it(
    replies: Seq<Result<bool, StorageError>>,
    n: nat,
    r: Result<bool, StorageError>,
)
    requires
        fanout::any_answer(replies, n, r),
    ensures
        r == Ok::<bool, StorageError>(true) <==> exists|i: int|
            0 <= i < replies.len() && #[trigger] replies[i] == Ok::<bool, StorageError>(true),
        r == Ok::<bool, StorageError>(false) ==> replies.len() == n && forall|i: int|
            0 <= i < replies.len() ==> #[trigger] replies[i] == Ok::<bool, StorageError>(false),
        r is Err <==> exists|i: int| 0 <= i < replies.len() && #[trigger] replies[i] is Err,
        r is Err ==> r == replies.last(),
{
    if replies.len() > 0 {
        assert(replies[replies.len() - 1] == replies.last());
    }
    if exists|i: int|
        0 <= i < replies.len() && #[trigger] replies[i] == Ok::<bool, StorageError>(true) {
        let i = choose|i: int|
            0 <= i < replies.len() && #[trigger] replies[i] == Ok::<bool, StorageError>(true);
        if i < replies.len() - 1 {
            assert(replies[i] == Ok::<bool, StorageError>(false));
        }
    }
    if exists|i: int| 0 <= i < replies.len() && #[trigger] replies[i] is Err {
        let i = choose|i: int| 0 <= i < replies.len() && #[trigger] replies[i] is Err;
        if i < replies.len() - 1 {
            assert(replies[i] == Ok::<bool, StorageError>(false));
        }
    }
}

proof fn lemma_union<K: View>(replies: Seq<Result<Vec<K>, StorageError>>, x: K::V)
    ensures
        fanout::union_of(replies).contains(x) <==> exists|i: int|
            0 <= i < replies.len() && (#[trigger] replies[i]) is Ok && order::views_of(
                replies[i]->Ok_0@,
            ).contains(x),
    decreases replies.len(),
{
    if replies.len() > 0 {
        let rest = replies.drop_last();
        lemma_union(rest, x);
        let n = replies.len() - 1;
        if fanout::union_of(rest).contains(x) {
            let i = choose|i: int|
                0 <= i < rest.len() && (#[trigger] rest[i]) is Ok && order::views_of(
                    rest[i]->Ok_0@,
                ).contains(x);
            assert(replies[i] == rest[i]);
        }
        if replies[n] is Ok {
            assert(order::views_of(replies[n]->Ok_0@).to_set().contains(x) <==> order::views_of(
                replies[n]->Ok_0@,
            ).contains(x));
        }
        if exists|i: int|
            0 <= i < replies.len() && (#[trigger] replies[i]) is Ok && order::views_of(
                replies[i]->Ok_0@,
            ).contains(x) {
            let i = choose|i: int|
                0 <= i < replies.len() && (#[trigger] replies[i]) is Ok && order::views_of(
                    replies[i]->Ok_0@,
                ).contains(x);
            if i < n {
                assert(rest[i] == replies[i]);
            }
        }
    }
}

/// A listing over several stores has what one of them lists, and nothing else; it succeeds
/// where all of them do, and else hands a failure on.
pub proof fn listing_has_what_one_lists<K: Key>(
    replies: Seq<Result<Vec<K>, StorageError>>,
    n: nat,
    r: Result<Vec<K>, StorageError>,
    x: K::V,
)
    requires
        fanout::union_answer(replies, n, r),
    ensures
        r is Ok ==> replies.len() == n && forall|i: int|
            0 <= i < replies.len() ==> (#[trigger] replies[i]) is Ok,
        r is Ok ==> (order::views_of(r->Ok_0@).contains(x) <==> exists|i: int|
            0 <= i < replies.len() && order::views_of((#[trigger] replies[i])->Ok_0@).contains(x)),
        r is Err ==> replies.len() > 0 && replies.last() == r,
{
    if r is Ok {
        assert forall|i: int| 0 <= i < replies.len() implies (#[trigger] replies[i]) is Ok by {
            if i == replies.len() - 1 {
                assert(replies[i] == replies.last());
            }
        }
        lemma_union(replies, x);
        let v = order::views_of(r->Ok_0@);
        assert(v.to_set().contains(x) <==> v.contains(x));
        if exists|i: int|
            0 <= i < replies.len() && order::views_of((#[trigger] replies[i])->Ok_0@).contains(x) {
            let i = choose|i: int|
                0 <= i < replies.len() && order::views_of((#[trigger] replies[i])->Ok_0@).contains(
                    x,
                );
            assert(replies[i] is Ok);
        }
    }
}

/// Digests are ordered by their algorithm, and those of one algorithm as in a dictionary.
pub proof fn digests_are_ordered(a: DigestView, b: DigestView)
    ensures
        a.algorithm == b.algorithm ==> (order::before(digest::digest_rank(a), digest::digest_rank(b))
            <==> lists::later(a.hex, b.hex)),
        a.algorithm == Algorithm::Sha256 && b.algorithm == Algorithm::Sha512 ==> order::before(
            digest::digest_rank(a),
            digest::digest_rank(b),
        ),
        a.algorithm == Algorithm::Sha512 && b.algorithm == Algorithm::Sha256 ==> !order::before(
            digest::digest_rank(a),
            digest::digest_rank(b),
        ),
{
    let x = digest::digest_rank(a);
    let y = digest::digest_rank(b);
    let p = order::code_points(a.hex);
    let q = order::code_points(b.hex);
    lists::texts_are_ordered_as_in_a_dictionary(a.hex, b.hex);
    assert forall|i: int| 0 <= i < p.len() implies x[i + 1] == p[i] by {
    }
    assert forall|i: int| 0 <= i < q.len() implies y[i + 1] == q[i] by {
    }
    if order::before(x, y) {
        let k = choose|k: int| order::before_at(x, y, k);
        if x[0] == y[0] {
            assert(k > 0);
            assert forall|j: int| 0 <= j < k - 1 implies p[j] == q[j] by {
                assert(x[j + 1] == y[j + 1]);
            }
            if k - 1 < p.len() {
                assert(x[k - 1 + 1] == p[k - 1]);
                assert(y[k - 1 + 1] == q[k - 1]);
            }
            assert(order::before_at(p, q, k - 1));
        } else {
            assert(k == 0) by {
                if k > 0 {
                    let zero: int = 0;
                    assert(x[zero] == y[zero]);
                }
            }
        }
    }
    if x[0] == y[0] && order::before(p, q) {
        let k = choose|k: int| order::before_at(p, q, k);
        assert forall|j: int| 0 <= j < k + 1 implies x[j] == y[j] by {
            if j > 0 {
                assert(p[j - 1] == q[j - 1]);
                assert(x[j - 1 + 1] == p[j - 1]);
                assert(y[j - 1 + 1] == q[j - 1]);
            }
        }
        if k < p.len() {
            assert(x[k + 1] == p[k]);
        }
        assert(y[k + 1] == q[k]);
        assert(order::before_at(x, y, k + 1));
    }
    if x[0] < y[0] {
        assert(order::before_at(x, y, 0));
    }
}

proof fn lemma_volumes_stay<S>(
    mounts: Seq<(String, Partition<S>)>,
    states: Seq<Seq<Partition<S>>>,
    table: Seq<RuleView>,
    a: int,
    b: int,
)
    requires
        repo_router::assembled(mounts, states, table),
        0 <= a <= b < states.len(),
    ensures
        states[a].len() <= states[b].len(),
        forall|j: int| 0 <= j < states[a].len() ==> #[trigger] states[b][j] == states[a][j],
    decreases b - a,
{
    if a < b {
        lemma_volumes_stay(mounts, states, table, a, b - 1);
        assert(repo_router::mounted(states[b - 1], states[b - 1 + 1], mounts[b - 1], table[b - 1]));
        assert forall|j: int| 0 <= j < states[a].len() implies #[trigger] states[b][j]
            == states[a][j] by {
            assert(states[b - 1][j] == states[a][j]);
            assert(states[b][j] == states[b - 1][j]);
        }
    }
}

/// Every mount makes a rule: for its pattern, and for one volume, which has the name of what
/// is mounted. Mounts of one name share the volume.
pub proof fn every_mount_makes_a_rule<S>(
    mounts: Seq<(String, Partition<S>)>,
    states: Seq<Seq<Partition<S>>>,
    table: Seq<RuleView>,
    i: int,
    j: int,
)
    requires
        repo_router::assembled(mounts, states, table),
        0 <= i < mounts.len(),
        0 <= j < mounts.len(),
    ensures
        table.len() == mounts.len(),
        table[i].pattern == mounts[i].0@,
        table[i].chain.len() == 1,
        table[i].chain[0] < states.last().len(),
        states.last()[table[i].chain[0] as int].name@ == mounts[i].1.name@,
        mounts[i].1.name@ == mounts[j].1.name@ <==> table[i].chain[0] == table[j].chain[0],
{
    lemma_rule(mounts, states, table, i);
    lemma_rule(mounts, states, table, j);
    lemma_names_once(mounts, states, table, states.len() - 1);
    let last = states.last();
    let x = table[i].chain[0] as int;
    let y = table[j].chain[0] as int;
    if x < y {
        assert(last[x].name@ != last[y].name@);
    } else if y < x {
        assert(last[y].name@ != last[x].name@);
    }
}

proof fn lemma_rule<S>(
    mounts: Seq<(String, Partition<S>)>,
    states: Seq<Seq<Partition<S>>>,
    table: Seq<RuleView>,
    i: int,
)
    requires
        repo_router::assembled(mounts, states, table),
        0 <= i < mounts.len(),
    ensures
        table[i].chain[0] < states.last().len(),
        states.last()[table[i].chain[0] as int].name@ == mounts[i].1.name@,
{
    assert(repo_router::mounted(states[i], states[i + 1], mounts[i], table[i]));
    lemma_volumes_stay(mounts, states, table, i + 1, states.len() - 1);
    let r = table[i].chain[0] as int;
    assert(states[i + 1][r].name@ == mounts[i].1.name@);
    assert(states[states.len() - 1][r] == states[i + 1][r]);
}

/// No two volumes have one name.
proof fn lemma_names_once<S>(
    mounts: Seq<(String, Partition<S>)>,
    states: Seq<Seq<Partition<S>>>,
    table: Seq<RuleView>,
    n: int,
)
    requires
        repo_router::assembled(mounts, states, table),
        0 <= n < states.len(),
    ensures
        multi::names_differ(states[n]),
    decreases n,
{
    if n > 0 {
        lemma_names_once(mounts, states, table, n - 1);
        let was = states[n - 1];
        let v = mounts[n - 1].1;
        assert(repo_router::mounted(was, states[n - 1 + 1], mounts[n - 1], table[n - 1]));
        if !(exists|i: int| 0 <= i < was.len() && (#[trigger] was[i]).name@ == v.name@) {
            assert forall|i: int, j: int| 0 <= i < j < states[n].len() implies (#[trigger] states[n][i]).name@
                != (#[trigger] states[n][j]).name@ by {
                if j < was.len() {
                    assert(was[i].name@ != was[j].name@);
                } else {
                    assert(was[i].name@ != v.name@);
                }
            }
        }
    }
}

/// Partitions of which two have one name are refused: a first one that repeats a name is
/// there if and only if the names do not all differ.
pub proof fn a_repeated_name_is_found<S>(parts: Seq<Partition<S>>)
    ensures
        (exists|j: int| multi::first_repeat(parts, j)) <==> exists|i: int, j: int|
            0 <= i < j < parts.len() && (#[trigger] parts[i]).name@ == (#[trigger] parts[j]).name@,
{
    if exists|i: int, j: int|
        0 <= i < j < parts.len() && (#[trigger] parts[i]).name@ == (#[trigger] parts[j]).name@ {
        let (i, j) = choose|i: int, j: int|
            0 <= i < j < parts.len() && (#[trigger] parts[i]).name@ == (#[trigger] parts[j]).name@;
        lemma_first_repeat(parts, i, j);
    }
    if exists|j: int| multi::first_repeat(parts, j) {
        let j = choose|j: int| multi::first_repeat(parts, j);
        let i = choose|i: int| 0 <= i < j && (#[trigger] parts[i]).name@ == parts[j].name@;
        assert(parts[i].name@ == parts[j].name@);
    }
}

proof fn lemma_first_repeat<S>(parts: Seq<Partition<S>>, i: int, j: int)
    requires
        0 <= i < j < parts.len(),
        parts[i].name@ == parts[j].name@,
    ensures
        exists|j: int| multi::first_repeat(parts, j),
    decreases j,
{
    let head = parts.take(j);
    if multi::names_differ(head) {
        assert(multi::first_repeat(parts, j));
    } else {
        let (a, b) = choose|a: int, b: int|
            0 <= a < b < head.len() && (#[trigger] head[a]).name@ == (#[trigger] head[b]).name@;
        assert(parts[a] == head[a] && parts[b] == head[b]);
        lemma_first_repeat(parts, a, b);
    }
}

} // verus!
