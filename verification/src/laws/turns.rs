//! In which order stores are asked, and what is told of a store and of jobs.

use vstd::prelude::*;

use crate::digest::DigestView;
use crate::fanout;
use crate::fanout::{Ask, Partition};
use crate::files::FileOp;
use crate::fs;
use crate::jobs;
use crate::jobs::JobRecord;
use crate::k8s;
use crate::k8s::Review;
use crate::laws::collect;
use crate::model;
use crate::model::{Holdings, Reading};
use crate::multi;
use crate::multi::MultiStore;
use crate::repo_router;
use crate::repo_router::RepoRouter;
use crate::storage;
use crate::storage::{Call, Storage, StorageError};

verus! {

/// The store at `p` was asked, once, and gave this answer.
pub open spec fn was_asked<S: Storage, A: Ask>(
    was: Seq<Partition<S>>,
    now: Seq<Partition<S>>,
    p: int,
    a: A,
    x: Result<A::Answer, StorageError>,
) -> bool {
    now[p].storage.log() == was[p].storage.log().push(a.call(x))
}

/// All stores but this one are as they were.
pub open spec fn only_one<S>(was: Seq<Partition<S>>, now: Seq<Partition<S>>, p: int) -> bool {
    forall|q: int| 0 <= q < was.len() && q != p ==> #[trigger] now[q] == was[q]
}

proof fn lemma_first_asked<S: Storage, A: Ask>(
    was: Seq<Partition<S>>,
    now: Seq<Partition<S>>,
    order: Seq<usize>,
    a: A,
    replies: Seq<Result<A::Answer, StorageError>>,
)
    requires
        fanout::asked(was, now, order, a, replies),
        replies.len() > 0,
    ensures
        was_asked(was, now, order[0] as int, a, replies[0]),
        replies.len() == 1 ==> only_one(was, now, order[0] as int),
{
    assert(now[order[0] as int].storage.log() == was[order[0] as int].storage.log().push(
        a.call(replies[0]),
    ));
}

/// A read asks the primary first; what it answers is the answer, and no other is asked,
/// unless it has no such thing.
pub proof fn reads_begin_at_the_primary<S: Storage, A: Ask>(
    was: MultiStore<S>,
    now: MultiStore<S>,
    a: A,
    r: Result<A::Answer, StorageError>,
) -> (x: Result<A::Answer, StorageError>)
    requires
        multi::fell_through(was, now, a, r),
        was.primary < was.partitions@.len(),
    ensures
        was_asked(was.partitions@, now.partitions@, was.primary as int, a, x),
        x is Ok || x->Err_0 != StorageError::NotFound ==> r == x && only_one(
            was.partitions@,
            now.partitions@,
            was.primary as int,
        ),
{
    let n = was.partitions@.len();
    let order = multi::read_order(n, was.primary as int);
    let replies = choose|replies: Seq<Result<A::Answer, StorageError>>|
        #![trigger fanout::asked(was.partitions@, now.partitions@, order, a, replies)]
        fanout::asked(was.partitions@, now.partitions@, order, a, replies) && fanout::first_answer(
            replies,
            n,
            r,
        );
    lemma_first_asked(was.partitions@, now.partitions@, order, a, replies);
    if replies.len() > 1 {
        assert(replies[0] == Err::<A::Answer, _>(StorageError::NotFound));
    }
    replies[0]
}

/// So does a question whether something is there, which ends with the first that says so.
pub proof fn questions_begin_at_the_primary<S: Storage, A: Ask<Answer = bool>>(
    was: MultiStore<S>,
    now: MultiStore<S>,
    a: A,
    r: Result<bool, StorageError>,
) -> (x: Result<bool, StorageError>)
    requires
        multi::asked_any(was, now, a, r),
        was.primary < was.partitions@.len(),
    ensures
        was_asked(was.partitions@, now.partitions@, was.primary as int, a, x),
        x != Ok::<bool, StorageError>(false) ==> r == x && only_one(
            was.partitions@,
            now.partitions@,
            was.primary as int,
        ),
{
    let n = was.partitions@.len();
    let order = multi::read_order(n, was.primary as int);
    let replies = choose|replies: Seq<Result<bool, StorageError>>|
        #![trigger fanout::asked(was.partitions@, now.partitions@, order, a, replies)]
        fanout::asked(was.partitions@, now.partitions@, order, a, replies) && fanout::any_answer(
            replies,
            n,
            r,
        );
    lemma_first_asked(was.partitions@, now.partitions@, order, a, replies);
    if replies.len() > 1 {
        assert(replies[0] == Ok::<bool, StorageError>(false));
    }
    replies[0]
}

/// What is done everywhere is asked of every partition, once.
pub proof fn deletions_reach_every_partition<S: Storage, A: Ask<Answer = ()>>(
    was: MultiStore<S>,
    now: MultiStore<S>,
    a: A,
    r: Result<(), StorageError>,
    p: int,
)
    requires
        multi::asked_all(was, now, a, r),
        0 <= p < was.partitions@.len(),
        was.partitions@.len() <= usize::MAX,
    ensures
        exists|x: Result<(), StorageError>| #[trigger]
            was_asked(was.partitions@, now.partitions@, p, a, x) && (r is Ok ==> x is Ok
                || x->Err_0 == StorageError::NotFound),
{
    let n = was.partitions@.len();
    let order = multi::declared_order(n);
    let replies = choose|replies: Seq<Result<(), StorageError>>|
        #![trigger fanout::asked(was.partitions@, now.partitions@, order, a, replies)]
        fanout::asked(was.partitions@, now.partitions@, order, a, replies) && replies.len() == n
            && fanout::all_answer(replies, r);
    assert(order[p] == p);
    assert(was_asked(was.partitions@, now.partitions@, p, a, replies[p]));
    lemma_no_failure(replies, p);
}

proof fn lemma_no_failure(replies: Seq<Result<(), StorageError>>, p: int)
    requires
        0 <= p < replies.len(),
    ensures
        replies[p] is Err && replies[p]->Err_0 != StorageError::NotFound ==> fanout::last_failure(
            replies,
        ) is Err && fanout::last_failure(replies)->Err_0 != StorageError::NotFound,
    decreases replies.len(),
{
    if p < replies.len() - 1 {
        lemma_no_failure(replies.drop_last(), p);
        assert(replies.drop_last()[p] == replies[p]);
    }
}

/// A listing asks every partition, once.
pub proof fn listings_reach_every_partition<S: Storage, K: crate::order::Key, A: Ask<Answer = Vec<K>>>(
    was: MultiStore<S>,
    now: MultiStore<S>,
    a: A,
    v: Vec<K>,
    p: int,
)
    requires
        multi::asked_union(was, now, a, Ok::<Vec<K>, StorageError>(v)),
        0 <= p < was.partitions@.len(),
        was.partitions@.len() <= usize::MAX,
    ensures
        exists|x: Result<Vec<K>, StorageError>| #[trigger]
            was_asked(was.partitions@, now.partitions@, p, a, x) && x is Ok,
{
    let n = was.partitions@.len();
    let order = multi::declared_order(n);
    let r = Ok::<Vec<K>, StorageError>(v);
    let replies = choose|replies: Seq<Result<Vec<K>, StorageError>>|
        #![trigger fanout::asked(was.partitions@, now.partitions@, order, a, replies)]
        fanout::asked(was.partitions@, now.partitions@, order, a, replies) && fanout::union_answer(
            replies,
            n,
            r,
        );
    assert(order[p] == p);
    assert(was_asked(was.partitions@, now.partitions@, p, a, replies[p]));
    if p == replies.len() - 1 {
        assert(replies[p] == replies.last());
    }
}

/// A read of a repository asks first the volume that takes its writes; what that answers is
/// the answer, and no other is asked, unless it has no such thing.
pub proof fn reads_begin_where_writes_go<S: Storage, A: Ask>(
    was: RepoRouter<S>,
    now: RepoRouter<S>,
    repo: Seq<char>,
    a: A,
    r: Result<A::Answer, StorageError>,
) -> (x: Result<A::Answer, StorageError>)
    requires
        repo_router::asked_until_found(was, now, repo, a, r),
    ensures
        was_asked(was.volumes@, now.volumes@, was.route(repo)[0] as int, a, x),
        x is Ok || x->Err_0 != StorageError::NotFound ==> r == x && only_one(
            was.volumes@,
            now.volumes@,
            was.route(repo)[0] as int,
        ),
{
    let order = was.route(repo);
    let replies = choose|replies: Seq<Result<A::Answer, StorageError>>|
        #![trigger fanout::asked(was.volumes@, now.volumes@, order, a, replies)]
        fanout::asked(was.volumes@, now.volumes@, order, a, replies) && fanout::first_answer(
            replies,
            order.len(),
            r,
        );
    lemma_first_asked(was.volumes@, now.volumes@, order, a, replies);
    if replies.len() > 1 {
        assert(replies[0] == Err::<A::Answer, _>(StorageError::NotFound));
    }
    replies[0]
}

/// What is done to a repository everywhere is asked of each of its volumes.
pub proof fn deletions_reach_every_volume<S: Storage, A: Ask<Answer = ()>>(
    was: RepoRouter<S>,
    now: RepoRouter<S>,
    repo: Seq<char>,
    a: A,
    r: Result<(), StorageError>,
    i: int,
)
    requires
        repo_router::asked_all(was, now, repo, a, r),
        0 <= i < was.route(repo).len(),
    ensures
        exists|x: Result<(), StorageError>| #[trigger]
            was_asked(was.volumes@, now.volumes@, was.route(repo)[i] as int, a, x) && (r is Ok
                ==> x is Ok || x->Err_0 == StorageError::NotFound),
{
    let order = was.route(repo);
    let replies = choose|replies: Seq<Result<(), StorageError>>|
        #![trigger fanout::asked(was.volumes@, now.volumes@, order, a, replies)]
        fanout::asked(was.volumes@, now.volumes@, order, a, replies) && replies.len()
            == order.len() && fanout::all_answer(replies, r);
    assert(was_asked(was.volumes@, now.volumes@, order[i] as int, a, replies[i]));
    lemma_no_failure(replies, i);
}

/// A listing of a repository asks each of its volumes.
pub proof fn listings_reach_every_volume<S: Storage, K: crate::order::Key, A: Ask<Answer = Vec<K>>>(
    was: RepoRouter<S>,
    now: RepoRouter<S>,
    repo: Seq<char>,
    a: A,
    v: Vec<K>,
    i: int,
)
    requires
        repo_router::asked_list(was, now, repo, a, Ok::<Vec<K>, StorageError>(v)),
        0 <= i < was.route(repo).len(),
    ensures
        exists|x: Result<Vec<K>, StorageError>| #[trigger]
            was_asked(was.volumes@, now.volumes@, was.route(repo)[i] as int, a, x) && x is Ok,
{
    let order = was.route(repo);
    let r = Ok::<Vec<K>, StorageError>(v);
    if order.len() == 1 {
        lemma_first_asked(was.volumes@, now.volumes@, order, a, seq![r]);
        assert(seq![r][0] == r);
        assert(was_asked(was.volumes@, now.volumes@, order[i] as int, a, r));
    } else {
        let replies = choose|replies: Seq<Result<Vec<K>, StorageError>>|
            #![trigger fanout::asked(was.volumes@, now.volumes@, order, a, replies)]
            fanout::asked(was.volumes@, now.volumes@, order, a, replies) && fanout::union_answer(
                replies,
                order.len(),
                r,
            );
        assert(was_asked(was.volumes@, now.volumes@, order[i] as int, a, replies[i]));
        if i == replies.len() - 1 {
            assert(replies[i] == replies.last());
        }
    }
}

proof fn lemma_sizes(
    read: Reading,
    hs: Seq<Holdings>,
    calls: Seq<Call>,
    h: Holdings,
    blobs: Seq<DigestView>,
)
    requires
        model::works(read, hs, calls),
        hs[0] == h,
        storage::sizes_asked(calls, blobs),
        forall|i: int| 0 <= i < blobs.len() ==> h.blobs.contains_key(#[trigger] blobs[i]),
    ensures
        hs.last() == h,
        storage::size_sum(calls) == collect::total_size(h, blobs),
    decreases calls.len(),
{
    if calls.len() == 0 {
        assert(hs.last() == hs[0]);
    } else {
        let n = calls.len() - 1;
        let c = calls.drop_last();
        let b = blobs.drop_last();
        model::lemma_part(read, hs, calls, 0, n);
        assert(calls.subrange(0, n) =~= c);
        assert forall|i: int| 0 <= i < c.len() implies (#[trigger] c[i] matches Call::BlobSize {
            repo,
            digest,
            ..
        } && repo == ""@ && digest == b[i]) by {
            assert(c[i] == calls[i]);
        }
        assert forall|i: int| 0 <= i < b.len() implies h.blobs.contains_key(#[trigger] b[i]) by {
            assert(b[i] == blobs[i]);
        }
        lemma_sizes(read, hs.subrange(0, n + 1), c, h, b);
        assert(hs[n] == h);
        assert(model::step(read, hs[n], calls[n], hs[n + 1]));
        assert(h.blobs.contains_key(blobs[n]));
        assert(calls.last() == calls[n]);
        assert(hs.last() == hs[n + 1]);
    }
}

/// What a store takes up is the sizes of the blobs that it lists, added up: of all that it
/// holds, and of no other.
pub proof fn usage_is_the_size_of_all_blobs(
    read: Reading,
    hs: Seq<Holdings>,
    calls: Seq<Call>,
    r: Result<u64, StorageError>,
) -> (blobs: Seq<DigestView>)
    requires
        model::works(read, hs, calls),
        storage::summed_up(calls, r),
    ensures
        hs.last() == hs[0],
        forall|d: DigestView| #[trigger] blobs.contains(d) <==> hs[0].blobs.contains_key(d),
        r is Ok,
        collect::total_size(hs[0], blobs) <= u64::MAX ==> r->Ok_0 == collect::total_size(
            hs[0],
            blobs,
        ),
        collect::total_size(hs[0], blobs) > u64::MAX ==> r->Ok_0 == u64::MAX,
{
    let h = hs[0];
    assert(model::step(read, hs[0], calls[0], hs[1]));
    let blobs = calls[0]->ListAllBlobs_reply->Ok_0;
    let e = calls.len() as int;
    model::lemma_part(read, hs, calls, 1, e);
    assert forall|i: int| 0 <= i < blobs.len() implies h.blobs.contains_key(#[trigger] blobs[i]) by {
        assert(blobs.contains(blobs[i]));
    }
    lemma_sizes(read, hs.subrange(1, e + 1), calls.subrange(1, e), h, blobs);
    blobs
}

/// A job is told of by the record that has its id.
pub proof fn job_is_told_by_its_record(records: Seq<JobRecord>, id: Seq<char>, k: int)
    requires
        0 <= k < records.len(),
        records[k].id@ == id,
        forall|i: int, j: int|
            0 <= i < j < records.len() ==> (#[trigger] records[i]).id@ != (
            #[trigger] records[j]).id@,
    ensures
        jobs::known(records, id),
        jobs::record_of(records, id) == records[k],
{
    assert(jobs::record_at(records, id, k));
    jobs::lemma_record(records, id, k);
}

/// A job is unknown if no record has its id.
pub proof fn job_without_a_record_is_unknown(records: Seq<JobRecord>, id: Seq<char>)
    requires
        forall|i: int| 0 <= i < records.len() ==> (#[trigger] records[i]).id@ != id,
    ensures
        !jobs::known(records, id),
{
}

/// What changes one job leaves every other as it was.
pub proof fn other_jobs_stay(
    was: Seq<JobRecord>,
    now: Seq<JobRecord>,
    id: Seq<char>,
    k: int,
)
    requires
        jobs::only_changed(was, now, id),
        0 <= k < was.len(),
    ensures
        now.len() == was.len(),
        now[k].id@ == was[k].id@,
        was[k].id@ != id ==> now[k] == was[k],
{
}

/// A store that can be written to gets its directories, and only these: the root, and in it
/// those of the blobs, the manifests and the uploads.
pub proof fn store_gets_its_directories(ops: Seq<FileOp>, r: Result<(), Seq<char>>)
    requires
        fs::laid_out(0, ops, r),
        forall|i: int|
            0 <= i < ops.len() && (#[trigger] ops[i]) is MakeDir ==> ops[i]->MakeDir_reply is Ok,
    ensures
        r is Ok,
        ops.len() == 4,
        forall|i: int| 0 <= i < 4 ==> (#[trigger] ops[i]) is MakeDir,
        ops[0]->MakeDir_path.len() == 0,
        ops[1]->MakeDir_path == "blobs"@,
        ops[2]->MakeDir_path == "manifests"@,
        ops[3]->MakeDir_path == "uploads"@,
{
    reveal_with_fuel(fs::laid_out, 5);
    let a = ops.skip(1);
    assert(ops[0] is MakeDir);
    assert(a[0] == ops[1]);
    let b = a.skip(1);
    assert(b[0] == ops[2]);
    let c = b.skip(1);
    assert(c[0] == ops[3]);
    assert(c.skip(1).len() == 0);
}

/// A directory that cannot be made is told of, unless the tree is there and only cannot be
/// written to.
pub proof fn store_without_its_root_is_refused(ops: Seq<FileOp>, r: Result<(), Seq<char>>)
    requires
        fs::laid_out(0, ops, r),
        ops[0]->MakeDir_reply is Err,
    ensures
        !ops[0]->MakeDir_reply->Err_0.read_only ==> ops.len() == 1 && r == Err::<(), _>(
            ops[0]->MakeDir_reply->Err_0.text@,
        ),
        ops[0]->MakeDir_reply->Err_0.read_only ==> ops.len() > 1 && ops[1] is IsDir && (
        !ops[1]->IsDir_reply ==> r is Err),
{
    reveal_with_fuel(fs::laid_out, 2);
}

/// What was added to a record is what stands behind its old end.
pub proof fn record_grows_at_its_end(before: Seq<Call>, more: Seq<Call>, after: Seq<Call>)
    ensures
        storage::extends(before, before + more),
        storage::added(before, before + more) == more,
        storage::extends(before, after) ==> after == before + storage::added(before, after),
{
    assert((before + more).subrange(0, before.len() as int) =~= before);
    assert(storage::added(before, before + more) =~= more);
    if storage::extends(before, after) {
        assert(after =~= after.subrange(0, before.len() as int) + storage::added(before, after));
    }
}

/// So is what was added to the reviews of a cluster.
pub proof fn reviews_grow_at_their_end(before: Seq<Review>, more: Seq<Review>, after: Seq<Review>)
    ensures
        k8s::grown(before, before + more),
        k8s::newly(before, before + more) == more,
        k8s::grown(before, after) ==> after == before + k8s::newly(before, after),
{
    assert((before + more).subrange(0, before.len() as int) =~= before);
    assert(k8s::newly(before, before + more) =~= more);
    if k8s::grown(before, after) {
        assert(after =~= after.subrange(0, before.len() as int) + k8s::newly(before, after));
    }
}

} // verus!
