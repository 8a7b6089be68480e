//! The operations for those who run the registry.

use vstd::prelude::*;

use crate::error;
use crate::error::{OciCode, OciError, OciErrorView};
use crate::fanout::Partition;
use crate::gc;
use crate::gc::GcReport;
use crate::jobs;
use crate::jobs::{JobRecord, Jobs};
use crate::migrate;
use crate::migrate::MigrateReport;
use crate::multi::MultiStore;
use crate::order;
use crate::replicate;
use crate::replicate::{ReplicateConfig, ReplicateReport};
use crate::repo_router;
use crate::repo_router::{Backend, RepoRouter};
use crate::storage;
use crate::storage::{Call, Storage, StorageError};
use crate::text;
use crate::transfer::TagPointerView;
use crate::walk::Found;

verus! {

/// Collects garbage.
pub fn gc_run<S: Storage>(store: &mut S) -> (r: Result<GcReport, OciError>)
    requires
        old(store).wf(),
    ensures
        final(store).wf(),
        final(store).origin() == old(store).origin(),
        storage::extends(old(store).log(), final(store).log()),
        gc::careful(storage::added(old(store).log(), final(store).log())),
        match r {
            Ok(report) => gc::collected(
                storage::added(old(store).log(), final(store).log()),
                report,
            ),
            Err(x) => exists|e: StorageError|
                #[trigger] gc::ended_by(storage::added(old(store).log(), final(store).log()), e)
                    && x@ == error::storage_error(e),
        },
{
    match gc::run(store) {
        Ok(report) => Ok(report),
        Err(e) => Err(OciError::from_storage(e)),
    }
}

// ---- Partitions -----------------------------------------------------------

/// What one partition holds.
#[derive(Debug, Clone)]
pub struct PartitionInfo {
    pub name: String,
    pub primary: bool,
    pub blob_count: usize,
    pub manifest_count: usize,
    pub repo_count: usize,
}

/// The calls that count what a store holds, up to the end or to the first failure:
/// its blobs are listed, its repositories, and the manifests of each.
pub open spec fn counting(calls: Seq<Call>) -> bool {
    &&& calls.len() > 0
    &&& calls[0] is ListAllBlobs
    &&& calls.len() > 1 ==> calls[0]->ListAllBlobs_reply is Ok && calls[1] is ListRepos
    &&& calls.len() > 2 ==> {
        &&& calls[1]->ListRepos_reply is Ok
        &&& calls.len() <= 2 + calls[1]->ListRepos_reply->Ok_0.len()
    }
    &&& forall|i: int|
        2 <= i < calls.len() ==> match #[trigger] calls[i] {
            Call::ListManifestDigests { repo, reply } => {
                &&& repo == calls[1]->ListRepos_reply->Ok_0[i - 2]
                &&& i + 1 < calls.len() ==> reply is Ok
            },
            _ => false,
        }
}

/// How many manifests were listed.
pub open spec fn manifests_listed(calls: Seq<Call>) -> nat
    decreases calls.len(),
{
    if calls.len() == 0 {
        0
    } else {
        manifests_listed(calls.drop_last()) + match calls.last() {
            Call::ListManifestDigests { reply: Ok(ds), .. } => ds.len(),
            _ => 0,
        }
    }
}

/// The calls counted all that a store holds, and found what `info` says.
pub open spec fn counted(calls: Seq<Call>, info: PartitionInfo) -> bool {
    &&& counting(calls)
    &&& calls.len() >= 2
    &&& calls[1]->ListRepos_reply is Ok
    &&& calls.len() == 2 + calls[1]->ListRepos_reply->Ok_0.len()
    &&& storage::error_of(calls.last()) is None
    &&& info.blob_count == calls[0]->ListAllBlobs_reply->Ok_0.len()
    &&& info.repo_count == calls[1]->ListRepos_reply->Ok_0.len()
    &&& info.manifest_count == storage::sat_count(manifests_listed(calls))
}

/// The calls began to count and ended with the failure `e`.
pub open spec fn counting_failed(calls: Seq<Call>, e: StorageError) -> bool {
    counting(calls) && storage::ends_with_error(calls, e)
}

/// Counts what a store holds.
fn count_store<S: Storage>(store: &mut S, name: &str, primary: bool) -> (r: Result<
    PartitionInfo,
    StorageError,
>)
    requires
        old(store).wf(),
    ensures
        final(store).wf(),
        final(store).origin() == old(store).origin(),
        storage::extends(old(store).log(), final(store).log()),
        match r {
            Ok(info) => {
                &&& counted(storage::added(old(store).log(), final(store).log()), info)
                &&& info.name@ == name@
                &&& info.primary == primary
            },
            Err(e) => counting_failed(storage::added(old(store).log(), final(store).log()), e),
        },
{
    let ghost start = store.log();
    proof {
        storage::lemma_added_none(start);
    }
    let listed = store.list_all_blobs();
    let ghost one = store.log();
    proof {
        storage::lemma_added_push(start, start, one.last());
        assert(storage::added(start, one) =~= seq![one.last()]);
    }
    let blobs = match listed {
        Err(e) => return Err(e),
        Ok(v) => v,
    };
    let listed = store.list_repos();
    let ghost two = store.log();
    proof {
        storage::lemma_added_push(start, one, two.last());
        assert(storage::added(start, two) =~= seq![one.last(), two.last()]);
    }
    let repos = match listed {
        Err(e) => return Err(e),
        Ok(v) => v,
    };
    let ghost names = order::views_of(repos@);
    let blob_count: usize = blobs.len();
    let mut manifest_count: usize = 0;
    let mut i: usize = 0;
    proof {
        reveal_with_fuel(manifests_listed, 3);
        assert(seq![one.last(), two.last()].drop_last() =~= seq![one.last()]);
    }
    while i < repos.len()
        invariant
            i <= repos@.len(),
            store.wf(),
            store.origin() == old(store).origin(),
            start == old(store).log(),
            storage::extends(start, store.log()),
            names == order::views_of(repos@),
            counting(storage::added(start, store.log())),
            storage::added(start, store.log()).len() == 2 + i,
            storage::added(start, store.log())[0]->ListAllBlobs_reply->Ok_0.len() == blob_count,
            storage::added(start, store.log())[1]->ListRepos_reply == Ok::<_, StorageError>(names),
            storage::error_of(storage::added(start, store.log()).last()) is None,
            manifest_count == storage::sat_count(
                manifests_listed(storage::added(start, store.log())),
            ),
        decreases repos@.len() - i,
    {
        let ghost before = store.log();
        let ghost so_far = storage::added(start, before);
        let listed = store.list_manifest_digests(repos[i].as_str());
        let ghost c = store.log().last();
        proof {
            storage::lemma_added_push(start, before, c);
            assert(so_far.push(c).drop_last() =~= so_far);
            assert(names[i as int] == repos@[i as int]@);
            assert forall|k: int| 2 <= k < so_far.push(c).len() implies match #[trigger] so_far.push(
                c,
            )[k] {
                Call::ListManifestDigests { repo, reply } => {
                    &&& repo == so_far.push(c)[1]->ListRepos_reply->Ok_0[k - 2]
                    &&& k + 1 < so_far.push(c).len() ==> reply is Ok
                },
                _ => false,
            } by {
                if k < so_far.len() {
                    assert(so_far.push(c)[k] == so_far[k]);
                    if k + 1 == so_far.len() {
                        assert(so_far.last() == so_far[k]);
                    }
                }
            }
        }
        match listed {
            Err(e) => return Err(e),
            Ok(v) => {
                manifest_count = manifest_count.saturating_add(v.len());
            },
        }
        i = i + 1;
    }
    Ok(
        PartitionInfo {
            name: name.to_owned(),
            primary,
            blob_count,
            manifest_count,
            repo_count: repos.len(),
        },
    )
}

/// One partition was counted, and `info` says what it holds.
pub open spec fn partition_counted<S: Storage>(
    was: MultiStore<S>,
    now: MultiStore<S>,
    i: int,
    info: PartitionInfo,
) -> bool {
    &&& counted(replicate::calls_at(was.partitions@, now.partitions@, i), info)
    &&& info.name@ == was.partitions@[i].name@
    &&& info.primary == (i == was.primary)
}

/// The first `k` partitions were counted, and `infos` says what they hold.
pub open spec fn partitions_counted<S: Storage>(
    was: MultiStore<S>,
    now: MultiStore<S>,
    infos: Seq<PartitionInfo>,
    k: int,
) -> bool {
    forall|i: int|
        0 <= i < k ==> #[trigger] partition_counted(was, now, i, infos[i])
}

/// The partitions from `k` on were not asked.
pub open spec fn untouched<S: Storage>(was: MultiStore<S>, now: MultiStore<S>, k: int) -> bool {
    forall|i: int| k <= i < was.partitions@.len() ==> #[trigger] now.partitions@[i]
        == was.partitions@[i]
}

/// Counting stopped at partition `k`: those before it were counted, it failed with
/// `e`, and those behind it were not asked.
pub open spec fn stopped_at<S: Storage>(
    was: MultiStore<S>,
    now: MultiStore<S>,
    infos: Seq<PartitionInfo>,
    k: int,
    e: StorageError,
) -> bool {
    &&& 0 <= k < was.partitions@.len()
    &&& partitions_counted(was, now, infos, k)
    &&& counting_failed(replicate::calls_at(was.partitions@, now.partitions@, k), e)
    &&& untouched(was, now, k + 1)
}

/// Says what each partition holds.
pub fn partitions_list<S: Storage>(multi: &mut MultiStore<S>) -> (r: Result<
    Vec<PartitionInfo>,
    OciError,
>)
    requires
        old(multi).wf(),
    ensures
        final(multi).wf(),
        final(multi).primary == old(multi).primary,
        replicate::same_partitions(old(multi).partitions@, final(multi).partitions@),
        match r {
            Ok(infos) => {
                &&& infos@.len() == old(multi).partitions@.len()
                &&& partitions_counted(*old(multi), *final(multi), infos@, infos@.len() as int)
            },
            Err(x) => exists|infos: Seq<PartitionInfo>, k: int, e: StorageError|
                #[trigger] stopped_at(*old(multi), *final(multi), infos, k, e) && x@
                    == error::storage_error(e),
        },
{
    let ghost was = *multi;
    let n: usize = multi.partitions.len();
    let mut out: Vec<PartitionInfo> = Vec::new();
    let mut i: usize = 0;
    proof {
        assert forall|j: int| 0 <= j < n implies storage::extends(
            #[trigger] was.partitions@[j].storage.log(),
            was.partitions@[j].storage.log(),
        ) by {
            storage::lemma_added_none(was.partitions@[j].storage.log());
        }
    }
    while i < n
        invariant
            i <= n,
            was == *old(multi),
            multi.wf(),
            multi.primary == was.primary,
            multi.partitions@.len() == n,
            n == was.partitions@.len(),
            out@.len() == i,
            replicate::same_partitions(was.partitions@, multi.partitions@),
            partitions_counted(was, *multi, out@, i as int),
            untouched(was, *multi, i as int),
        decreases n - i,
    {
        let ghost before = *multi;
        let name = multi.partitions[i].name.clone();
        let primary: bool = i == multi.primary;
        assert(multi.partitions@[i as int].storage.wf());
        assert(multi.partitions@[i as int] == was.partitions@[i as int]);
        let got = count_store(&mut multi.partitions[i].storage, name.as_str(), primary);
        proof {
            assert forall|j: int| 0 <= j < n && j != i implies #[trigger] multi.partitions@[j]
                == before.partitions@[j] by {}
            assert forall|j: int| 0 <= j < i implies #[trigger] partition_counted(
                was,
                *multi,
                j,
                out@[j],
            ) by {
                assert(partition_counted(was, before, j, out@[j]));
            }
        }
        match got {
            Err(e) => {
                proof {
                    assert(stopped_at(was, *multi, out@, i as int, e));
                }
                return Err(OciError::from_storage(e));
            },
            Ok(info) => {
                let ghost prior = out@;
                out.push(info);
                proof {
                    assert forall|j: int| 0 <= j < i + 1 implies #[trigger] partition_counted(
                        was,
                        *multi,
                        j,
                        out@[j],
                    ) by {
                        if j < i {
                            assert(partition_counted(was, *multi, j, prior[j]));
                        }
                    }
                }
            },
        }
        i = i + 1;
    }
    Ok(out)
}

// ---- Replication ----------------------------------------------------------

#[derive(Debug, Clone)]
pub struct ReplicateRequest {
    /// A glob for the tags to replicate; all of them where there is none.
    pub tag_glob: Option<String>,
}

/// Runs one catch-up pass.
pub fn replicate_run<S: Storage>(multi: &mut MultiStore<S>, body: ReplicateRequest) -> (r: Result<
    ReplicateReport,
    OciError,
>)
    requires
        old(multi).wf(),
    ensures
        final(multi).wf(),
        final(multi).primary == old(multi).primary,
        replicate::same_partitions(old(multi).partitions@, final(multi).partitions@),
        match r {
            Ok(report) => replicate::reported(*old(multi), *final(multi), report) && exists|
                m: int,
                found: Found,
                tags: Seq<TagPointerView>,
            | #[trigger]
                replicate::replicated(
                    *old(multi),
                    *final(multi),
                    text::opt(body.tag_glob),
                    m,
                    found,
                    tags,
                ),
            Err(x) => exists|e: StorageError|
                #[trigger] replicate::failed(
                    *old(multi),
                    *final(multi),
                    text::opt(body.tag_glob),
                    e,
                ) && x@
                    == error::storage_error(e),
        },
{
    let cfg = ReplicateConfig { tag_glob: body.tag_glob };
    match replicate::run(multi, &cfg) {
        Ok(report) => Ok(report),
        Err(e) => Err(OciError::from_storage(e)),
    }
}

// ---- Routing --------------------------------------------------------------

/// The patterns of the routing rules, in order.
pub fn repo_roots_list<S>(router: &RepoRouter<S>) -> (r: Vec<String>)
    ensures
        r@.len() == router.table().len(),
        forall|i: int| 0 <= i < r@.len() ==> (#[trigger] r@[i])@ == router.table()[i].pattern,
{
    let mut out: Vec<String> = Vec::new();
    let mut i: usize = 0;
    while i < router.rules.len()
        invariant
            i <= router.rules@.len(),
            out@.len() == i,
            forall|j: int| 0 <= j < i ==> (#[trigger] out@[j])@ == router.table()[j].pattern,
        decreases router.rules@.len() - i,
    {
        out.push(router.rules[i].pattern.clone());
        i = i + 1;
    }
    out
}

#[derive(Debug, Clone)]
pub struct RepoRootRequest {
    pub pattern: String,
    /// The directory that the pattern leads to from now on.
    pub root: String,
}

pub open spec fn bad_request(message: Seq<char>) -> OciErrorView {
    OciErrorView { status: 400, ..error::plain_error(OciCode::BlobUploadInvalid, message) }
}

/// The error for the body of a request that does not read as what it should be.
pub fn bad_body(what: &str, problem: &str) -> (r: OciError)
    ensures
        r@ == bad_request("bad "@ + what@ + " body: "@ + problem@),
{
    let mut m = text::cat3("bad ", what, " body: ");
    m.append(problem);
    OciError::new(OciCode::BlobUploadInvalid, m).with_status(400)
}

pub open spec fn cannot_open(root: Seq<char>, problem: Seq<char>) -> OciErrorView {
    OciErrorView {
        status: 500,
        ..error::plain_error(OciCode::Unsupported, "opening root "@ + root + ": "@ + problem)
    }
}

/// The error for a directory that cannot be opened as a store.
pub fn open_failure(root: &str, problem: &str) -> (r: OciError)
    ensures
        r@ == cannot_open(root@, problem@),
{
    let mut m = text::cat3("opening root ", root, ": ");
    m.append(problem);
    OciError::new(OciCode::Unsupported, m).with_status(500)
}

/// Checks a request to lead a pattern elsewhere, before its directory is opened.
pub fn check_root_request(body: &RepoRootRequest) -> (r: Result<(), OciError>)
    ensures
        match r {
            Ok(_) => body.pattern@.len() > 0,
            Err(e) => body.pattern@.len() == 0 && e@ == bad_request("pattern must be non-empty"@),
        },
{
    if body.pattern.as_str().is_empty() {
        return Err(
            OciError::new(
                OciCode::BlobUploadInvalid,
                "pattern must be non-empty".to_owned(),
            ).with_status(400),
        );
    }
    Ok(())
}

/// How a pattern was led elsewhere.
#[derive(Debug, Clone)]
pub struct RootChange {
    pub pattern: String,
    pub root: String,
    /// Whether there was no rule with this pattern before.
    pub added: bool,
    pub rule_count: usize,
}

/// The volume of a directory that was opened.
pub open spec fn is_root<S>(v: Partition<S>, root: Seq<char>, storage: S) -> bool {
    v.name@ == root && v.storage == storage
}

/// Leads a pattern to the directory of the request, which has been opened as
/// `opened`: the rule with this pattern is repointed, or one is added at the end. A
/// directory that is among the volumes already is not added again.
pub fn repo_root_upsert<S>(
    router: &mut RepoRouter<S>,
    body: RepoRootRequest,
    opened: Result<S, String>,
) -> (r: Result<RootChange, OciError>)
    requires
        old(router).ruled(),
    ensures
        final(router).ruled(),
        final(router).record == old(router).record,
        final(router).trail == old(router).trail,
        match r {
            Ok(x) => {
                &&& body.pattern@.len() > 0
                &&& opened is Ok
                &&& exists|v: Partition<S>, new: usize|
                    is_root(v, body.root@, opened->Ok_0) && #[trigger] repo_router::placed_at(
                        old(router).volumes@,
                        final(router).volumes@,
                        v,
                        new,
                    ) && final(router).table() == repo_router::upserted(
                        old(router).table(),
                        body.pattern@,
                        seq![new],
                    )
                &&& x.pattern == body.pattern
                &&& x.root == body.root
                &&& x.added == !repo_router::has_pattern(old(router).table(), body.pattern@)
                &&& x.rule_count == final(router).table().len()
            },
            Err(e) => {
                &&& *final(router) == *old(router)
                &&& body.pattern@.len() == 0 || opened is Err
                &&& body.pattern@.len() == 0 ==> e@ == bad_request("pattern must be non-empty"@)
                &&& body.pattern@.len() > 0 ==> e@ == cannot_open(body.root@, opened->Err_0@)
            },
        },
{
    match check_root_request(&body) {
        Ok(()) => {},
        Err(e) => return Err(e),
    }
    let storage = match opened {
        Err(m) => return Err(open_failure(body.root.as_str(), m.as_str())),
        Ok(s) => s,
    };
    let ghost was = *router;
    let volume = Partition { name: body.root.clone(), storage };
    let ghost v = volume;
    let new: usize = router.place(volume);
    assert(router.table() =~= was.table());
    let backend = Backend::volume(new);
    let pattern = body.pattern.clone();
    let added: bool = router.upsert(pattern, backend);
    let rule_count: usize = router.rules.len();
    assert(is_root(v, body.root@, opened->Ok_0));
    assert(repo_router::placed_at(was.volumes@, router.volumes@, v, new));
    Ok(RootChange { pattern: body.pattern, root: body.root, added, rule_count })
}

// ---- Migration ------------------------------------------------------------

#[derive(Debug, Clone)]
pub struct RepoMigrateRequest {
    /// The pattern whose repositories move.
    pub pattern: Option<String>,
    /// Or the class whose repositories move.
    pub class: Option<String>,
    /// The directory to move to.
    pub to: String,
    /// Whether to delete what has moved from where it was.
    pub drain: bool,
    /// Whether to answer at once and move in the background.
    pub background: bool,
}

/// The pattern that a request to migrate is about: its pattern, or that of its
/// class.
pub open spec fn pattern_of(pattern: Option<Seq<char>>, class: Option<Seq<char>>) -> Option<
    Seq<char>,
> {
    if pattern is Some && pattern->0.len() > 0 {
        pattern
    } else if class is Some && class->0.len() > 0 {
        Some(class->0 + "/*"@)
    } else {
        None
    }
}

/// The pattern to migrate: the given one, or that of the given class.
pub fn choose_pattern(pattern: &Option<String>, class: &Option<String>) -> (r: Option<String>)
    ensures
        text::opt(r) == pattern_of(text::opt(*pattern), text::opt(*class)),
{
    if let Some(p) = pattern {
        if !p.as_str().is_empty() {
            return Some(p.clone());
        }
    }
    if let Some(c) = class {
        if !c.as_str().is_empty() {
            return Some(text::cat(c.as_str(), "/*"));
        }
    }
    None
}

/// The pattern that a request to migrate is about.
pub fn migrate_pattern(body: &RepoMigrateRequest) -> (r: Result<String, OciError>)
    ensures
        match r {
            Ok(p) => pattern_of(text::opt(body.pattern), text::opt(body.class)) == Some(p@),
            Err(e) => {
                &&& pattern_of(text::opt(body.pattern), text::opt(body.class)) is None
                &&& e@ == bad_request("one of non-empty `pattern` or `class` is required"@)
            },
        },
{
    match choose_pattern(&body.pattern, &body.class) {
        Some(p) => Ok(p),
        None => Err(
            OciError::new(
                OciCode::BlobUploadInvalid,
                "one of non-empty `pattern` or `class` is required".to_owned(),
            ).with_status(400),
        ),
    }
}

/// The same rules, with the volume of a directory that was opened at `new`.
pub open spec fn with_root<S>(
    was: RepoRouter<S>,
    now: RepoRouter<S>,
    root: Seq<char>,
    storage: S,
    new: usize,
) -> bool {
    &&& now.rules == was.rules
    &&& now.record == was.record
    &&& now.trail == was.trail
    &&& exists|v: Partition<S>| #[trigger]
        is_root(v, root, storage) && repo_router::placed_at(was.volumes@, now.volumes@, v, new)
}

/// How a request to migrate ended.
pub open spec fn migrate_ended<S: Storage>(
    was: RepoRouter<S>,
    now: RepoRouter<S>,
    body: RepoMigrateRequest,
    opened: Result<S, String>,
    r: Result<MigrateReport, OciError>,
) -> bool {
    match pattern_of(text::opt(body.pattern), text::opt(body.class)) {
        None => {
            &&& now == was
            &&& r matches Err(x) && x@ == bad_request(
                "one of non-empty `pattern` or `class` is required"@,
            )
        },
        Some(pattern) => match opened {
            Err(m) => {
                &&& now == was
                &&& r matches Err(x) && x@ == cannot_open(body.to@, m@)
            },
            Ok(s) => exists|
                w: RepoRouter<S>,
                new: usize,
                got: Result<MigrateReport, StorageError>,
            |
                with_root(was, w, body.to@, s, new) && #[trigger] migrate::migrated(
                    w,
                    now,
                    pattern,
                    new,
                    body.drain,
                    got,
                ) && match r {
                    Ok(report) => got == Ok::<_, StorageError>(report),
                    Err(x) => got is Err && x@ == error::storage_error(got->Err_0),
                },
        },
    }
}

/// Moves the repositories of a pattern or a class to the directory of the request,
/// which has been opened as `opened`. A directory that is among the volumes already is
/// not added again, so that a request can be repeated.
pub fn repo_migrate<S: Storage>(
    router: &mut RepoRouter<S>,
    body: &RepoMigrateRequest,
    opened: Result<S, String>,
) -> (r: Result<MigrateReport, OciError>)
    requires
        old(router).wf(),
        opened matches Ok(s) ==> s.wf(),
    ensures
        final(router).wf(),
        migrate_ended(*old(router), *final(router), *body, opened, r),
{
    let pattern = match migrate_pattern(body) {
        Ok(p) => p,
        Err(e) => return Err(e),
    };
    let storage = match opened {
        Err(m) => return Err(open_failure(body.to.as_str(), m.as_str())),
        Ok(s) => s,
    };
    let ghost was = *router;
    let volume = Partition { name: body.to.clone(), storage };
    let ghost v = volume;
    let new: usize = router.place(volume);
    let ghost w = *router;
    proof {
        assert(is_root(v, body.to@, storage));
        assert(with_root(was, w, body.to@, storage, new));
        assert forall|i: int| 0 <= i < w.volumes@.len() implies (
        #[trigger] w.volumes@[i]).storage.wf() by {
            if i < was.volumes@.len() {
                assert(w.volumes@[i] == was.volumes@[i]);
            }
        }
    }
    let got = migrate::run(router, pattern.as_str(), new, body.drain);
    assert(migrate::migrated(w, *router, pattern@, new, body.drain, got));
    match got {
        Ok(report) => Ok(report),
        Err(e) => Err(OciError::from_storage(e)),
    }
}

// ---- Background operations ------------------------------------------------

/// The record of a background operation.
pub fn job_get<'a>(jobs: &'a Jobs, id: &str) -> (r: Result<&'a JobRecord, OciError>)
    ensures
        match r {
            Ok(x) => jobs::known(jobs.records@, id@) && *x == jobs::record_of(jobs.records@, id@),
            Err(e) => !jobs::known(jobs.records@, id@) && e@ == error::plain_error(
                OciCode::NameUnknown,
                "job not found"@,
            ),
        },
{
    match jobs.get(id) {
        Some(x) => Ok(x),
        None => Err(OciError::new(OciCode::NameUnknown, "job not found".to_owned())),
    }
}

} // verus!
