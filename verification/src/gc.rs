//! Mark-and-sweep garbage collection.
//!
//! Marks every manifest of every repository and every digest that one references,
//! then deletes each listed blob that is not marked. An operation that takes a
//! repository is sent to the first repository whose store holds the blob.

use vstd::prelude::*;

use crate::digest::{Digest, DigestView};
use crate::order;
use crate::order::{Key, SortedSet};
use crate::storage;
use crate::storage::{Call, Reference, ReferenceView, Storage, StorageError};

verus! {

#[derive(Debug, Clone, Copy)]
pub struct GcReport {
    pub repos_scanned: usize,
    pub manifests_scanned: usize,
    pub reachable_blobs: usize,
    pub deleted_blobs: usize,
    pub deleted_bytes: u64,
}

impl Default for GcReport {
    fn default() -> (r: GcReport)
        ensures
            r.repos_scanned == 0,
            r.manifests_scanned == 0,
            r.reachable_blobs == 0,
            r.deleted_blobs == 0,
            r.deleted_bytes == 0,
    {
        GcReport {
            repos_scanned: 0,
            manifests_scanned: 0,
            reachable_blobs: 0,
            deleted_blobs: 0,
            deleted_bytes: 0,
        }
    }
}

/// The digests that the answer of one call shows to be in use.
pub open spec fn marks(c: Call) -> Set<DigestView> {
    match c {
        Call::ListManifestDigests { reply: Ok(ds), .. } => ds.to_set(),
        Call::ManifestGet { reply: Ok((_, Some(m))), .. } => m.references().to_set(),
        _ => Set::empty(),
    }
}

/// The digests that the answers of some calls show to be in use.
pub open spec fn marked(calls: Seq<Call>) -> Set<DigestView>
    decreases calls.len(),
{
    if calls.len() == 0 {
        Set::empty()
    } else {
        marked(calls.drop_last()).union(marks(calls.last()))
    }
}

/// The failure with which a call ends the collection: any failed listing, and a
/// failure other than `NotFound` of reading a manifest or deleting a blob.
pub open spec fn fatal(c: Call) -> Option<StorageError> {
    match c {
        Call::ListRepos { reply: Err(e) } => Some(e),
        Call::ListManifestDigests { reply: Err(e), .. } => Some(e),
        Call::ListAllBlobs { reply: Err(e) } => Some(e),
        Call::ManifestGet { reply: Err(e), .. } => if e == StorageError::NotFound {
            None
        } else {
            Some(e)
        },
        Call::BlobDelete { reply: Err(e), .. } => if e == StorageError::NotFound {
            None
        } else {
            Some(e)
        },
        _ => None,
    }
}

pub open spec fn none_fatal(calls: Seq<Call>) -> bool {
    forall|i: int| 0 <= i < calls.len() ==> fatal(#[trigger] calls[i]) is None
}

/// `calls` list the manifests of one repository and read each of them.
pub open spec fn repo_marked(calls: Seq<Call>, repo: Seq<char>) -> bool {
    &&& calls.len() > 0
    &&& calls[0] matches Call::ListManifestDigests { repo: r, reply: Ok(ds) } && r == repo
        && calls.len() == 1 + ds.len() && forall|i: int|
        0 <= i < ds.len() ==> (#[trigger] calls[1 + i] matches Call::ManifestGet {
            repo: q,
            reference,
            ..
        } && q == repo && reference == ReferenceView::Digest(ds[i]))
}

/// `calls` mark the repositories one after the other.
pub open spec fn repos_marked(calls: Seq<Call>, repos: Seq<Seq<char>>) -> bool
    decreases repos.len(),
{
    if repos.len() == 0 {
        calls.len() == 0
    } else {
        exists|n: int|
            0 <= n <= calls.len() && #[trigger] repo_marked(
                calls.subrange(n, calls.len() as int),
                repos.last(),
            ) && repos_marked(calls.subrange(0, n), repos.drop_last())
    }
}

/// `calls` ask the repository for `blob` and, where its store has it, take its size and
/// delete it there.
pub open spec fn repo_swept(calls: Seq<Call>, repo: Seq<char>, blob: DigestView) -> bool {
    &&& calls.len() > 0
    &&& calls[0] is BlobExists
    &&& calls[0]->BlobExists_repo == repo
    &&& calls[0]->BlobExists_digest == blob
    &&& if there(calls[0]) {
        calls.len() == 3 && deletion(calls[1], calls[2], repo, blob)
    } else {
        calls.len() == 1
    }
}

/// The call said that a blob is there.
pub open spec fn there(c: Call) -> bool {
    c matches Call::BlobExists { reply, .. } && reply == Ok::<bool, StorageError>(true)
}

/// Two calls that take the size of a blob and delete it.
pub open spec fn deletion(a: Call, b: Call, repo: Seq<char>, blob: DigestView) -> bool {
    &&& a matches Call::BlobSize { repo: r, digest, .. } && r == repo && digest == blob
    &&& b matches Call::BlobDelete { repo: r, digest, .. } && r == repo && digest == blob
}

/// `calls` do so with the repositories one after the other.
pub open spec fn repos_swept(calls: Seq<Call>, repos: Seq<Seq<char>>, blob: DigestView) -> bool
    decreases repos.len(),
{
    if repos.len() == 0 {
        calls.len() == 0
    } else {
        exists|n: int|
            0 <= n <= calls.len() && #[trigger] repo_swept(
                calls.subrange(n, calls.len() as int),
                repos.last(),
                blob,
            ) && repos_swept(calls.subrange(0, n), repos.drop_last(), blob)
    }
}

/// One of the calls said that a blob is there.
pub open spec fn found_there(calls: Seq<Call>) -> bool {
    exists|i: int| 0 <= i < calls.len() && there(#[trigger] calls[i])
}

/// `calls` delete `blob` wherever it is: with every repository whose store has it, and
/// with the empty one where its store has it too, or where none was found to have it.
pub open spec fn blob_swept(calls: Seq<Call>, repos: Seq<Seq<char>>, blob: DigestView) -> bool {
    exists|k: int| #[trigger] swept_at(calls, repos, blob, k)
}

pub open spec fn swept_at(
    calls: Seq<Call>,
    repos: Seq<Seq<char>>,
    blob: DigestView,
    k: int,
) -> bool {
    &&& 0 <= k < calls.len()
    &&& repos_swept(calls.subrange(0, k), repos, blob)
    &&& calls[k] is BlobExists
    &&& calls[k]->BlobExists_repo == ""@
    &&& calls[k]->BlobExists_digest == blob
    &&& if there(calls[k]) || !found_there(calls.subrange(0, k)) {
        calls.len() == k + 3 && deletion(calls[k + 1], calls[k + 2], ""@, blob)
    } else {
        calls.len() == k + 1
    }
}

/// `calls` delete those of `blobs` that are not in `live`, in this order.
pub open spec fn blobs_swept(
    calls: Seq<Call>,
    repos: Seq<Seq<char>>,
    live: Set<DigestView>,
    blobs: Seq<DigestView>,
) -> bool
    decreases blobs.len(),
{
    if blobs.len() == 0 {
        calls.len() == 0
    } else if live.contains(blobs.last()) {
        blobs_swept(calls, repos, live, blobs.drop_last())
    } else {
        exists|n: int|
            0 <= n <= calls.len() && #[trigger] blob_swept(
                calls.subrange(n, calls.len() as int),
                repos,
                blobs.last(),
            ) && blobs_swept(calls.subrange(0, n), repos, live, blobs.drop_last())
    }
}

/// How many calls read a manifest.
pub open spec fn reads(calls: Seq<Call>) -> nat
    decreases calls.len(),
{
    if calls.len() == 0 {
        0
    } else {
        reads(calls.drop_last()) + (if calls.last() is ManifestGet {
            1nat
        } else {
            0
        })
    }
}

/// How many blobs the calls deleted.
pub open spec fn deleted(calls: Seq<Call>) -> nat
    decreases calls.len(),
{
    if calls.len() == 0 {
        0
    } else {
        deleted(calls.drop_last()) + match calls.last() {
            Call::BlobDelete { reply: Ok(_), .. } => 1nat,
            _ => 0,
        }
    }
}

/// The bytes that the calls freed: the size taken right before each deletion.
pub open spec fn freed(calls: Seq<Call>) -> nat
    decreases calls.len(),
{
    if calls.len() == 0 {
        0
    } else {
        freed(calls.drop_last()) + match calls.last() {
            Call::BlobDelete { reply: Ok(_), .. } => if calls.len() > 1 {
                match calls[calls.len() - 2] {
                    Call::BlobSize { reply: Ok(n), .. } => n as nat,
                    _ => 0,
                }
            } else {
                0
            },
            _ => 0,
        }
    }
}

/// The calls of a whole collection, and its report: list the repositories, mark
/// them, list the blobs, and sweep those that are not marked.
pub open spec fn collected(calls: Seq<Call>, report: GcReport) -> bool {
    exists|repos: Seq<Seq<char>>, blobs: Seq<DigestView>, m: int|
        #[trigger] phases(calls, repos, blobs, m) && {
            let live = marked(calls.subrange(1, m));
            &&& report.repos_scanned == repos.len()
            &&& report.manifests_scanned == storage::sat_count(reads(calls.subrange(1, m)))
            &&& live.finite() && report.reachable_blobs == live.len()
            &&& report.deleted_blobs == storage::sat_count(
                deleted(calls.subrange(m + 1, calls.len() as int)),
            )
            &&& report.deleted_bytes == storage::sat(
                freed(calls.subrange(m + 1, calls.len() as int)),
            )
        }
}

/// The calls before `m` mark `repos`; the call at `m` lists `blobs`; the calls
/// behind it sweep them.
pub open spec fn phases(
    calls: Seq<Call>,
    repos: Seq<Seq<char>>,
    blobs: Seq<DigestView>,
    m: int,
) -> bool {
    &&& 1 <= m < calls.len()
    &&& none_fatal(calls)
    &&& calls[0] == (Call::ListRepos { reply: Ok(repos) })
    &&& repos_marked(calls.subrange(1, m), repos)
    &&& calls[m] == (Call::ListAllBlobs { reply: Ok(blobs) })
    &&& blobs_swept(
        calls.subrange(m + 1, calls.len() as int),
        repos,
        marked(calls.subrange(1, m)),
        blobs,
    )
}

/// None of the calls deletes a blob.
pub open spec fn undeleted(calls: Seq<Call>) -> bool {
    forall|i: int| 0 <= i < calls.len() ==> !((#[trigger] calls[i]) is BlobDelete)
}

/// Whatever the store answers, a blob is deleted only when no answer before that
/// showed it to be in use and only after everything was listed and read, and nothing
/// else is changed.
pub open spec fn careful(calls: Seq<Call>) -> bool {
    forall|i: int| 0 <= i < calls.len() ==> careful_call(calls.take(i), #[trigger] calls[i])
}

/// The call may follow the others.
pub open spec fn careful_call(calls: Seq<Call>, c: Call) -> bool {
    match c {
        Call::BlobDelete { digest, .. } => !marked(calls).contains(digest),
        Call::ListRepos { .. } => undeleted(calls),
        Call::ListManifestDigests { .. } => undeleted(calls),
        Call::ManifestGet { .. } => undeleted(calls),
        Call::ListAllBlobs { .. } => undeleted(calls),
        Call::BlobExists { .. } => true,
        Call::BlobSize { .. } => true,
        _ => false,
    }
}

/// The calls end with the failure `e`, and none before it was fatal.
pub open spec fn ended_by(calls: Seq<Call>, e: StorageError) -> bool {
    &&& calls.len() > 0
    &&& fatal(calls.last()) == Some(e)
    &&& none_fatal(calls.drop_last())
}

proof fn lemma_none_fatal_push(calls: Seq<Call>, c: Call)
    requires
        none_fatal(calls),
        fatal(c) is None,
    ensures
        none_fatal(calls.push(c)),
{
    assert forall|i: int| 0 <= i < calls.push(c).len() implies fatal(#[trigger] calls.push(c)[i]) is None by {
        if i < calls.len() {
            assert(calls.push(c)[i] == calls[i]);
        }
    }
}

proof fn lemma_careful_push(calls: Seq<Call>, c: Call)
    requires
        careful(calls),
        careful_call(calls, c),
    ensures
        careful(calls.push(c)),
{
    let t = calls.push(c);
    assert forall|i: int| 0 <= i < t.len() implies careful_call(t.take(i), #[trigger] t[i]) by {
        assert(t.take(i) =~= calls.take(i));
        if i < calls.len() {
            assert(t[i] == calls[i]);
        } else {
            assert(calls.take(i) =~= calls);
        }
    }
}

proof fn lemma_undeleted_push(calls: Seq<Call>, c: Call)
    requires
        undeleted(calls),
        !(c is BlobDelete),
    ensures
        undeleted(calls.push(c)),
{
    assert forall|i: int| 0 <= i < calls.push(c).len() implies !((
    #[trigger] calls.push(c)[i]) is BlobDelete) by {
        if i < calls.len() {
            assert(calls.push(c)[i] == calls[i]);
        }
    }
}

/// What a stage of the collection keeps: the record grows by careful calls, none
/// of them fatal.
spec fn stage(start: Seq<Call>, now: Seq<Call>) -> bool {
    &&& storage::extends(start, now)
    &&& careful(storage::added(start, now))
    &&& none_fatal(storage::added(start, now))
}

proof fn lemma_stage_push(start: Seq<Call>, was: Seq<Call>, c: Call)
    requires
        stage(start, was),
        careful_call(storage::added(start, was), c),
    ensures
        storage::extends(start, was.push(c)),
        storage::added(start, was.push(c)) == storage::added(start, was).push(c),
        careful(storage::added(start, was.push(c))),
        fatal(c) is None ==> stage(start, was.push(c)),
        fatal(c) matches Some(e) ==> ended_by(storage::added(start, was.push(c)), e),
{
    storage::lemma_added_push(start, was, c);
    let t = storage::added(start, was);
    lemma_careful_push(t, c);
    assert(t.push(c).drop_last() =~= t);
    if fatal(c) is None {
        lemma_none_fatal_push(t, c);
    }
}

/// Adding calls adds marks.
proof fn lemma_marked_push(calls: Seq<Call>, c: Call)
    ensures
        marked(calls.push(c)) == marked(calls).union(marks(c)),
        reads(calls.push(c)) == reads(calls) + (if c is ManifestGet {
            1nat
        } else {
            0
        }),
{
    assert(calls.push(c).drop_last() =~= calls);
}

/// Reads every manifest of `repo` and marks what it is and references.
fn mark_repo<S: Storage>(
    store: &mut S,
    repo: &str,
    live: &mut SortedSet<Digest>,
    scanned: &mut usize,
    Ghost(start): Ghost<Seq<Call>>,
) -> (r: Result<(), StorageError>)
    requires
        old(store).wf(),
        old(live).wf(),
        stage(start, old(store).log()),
        undeleted(storage::added(start, old(store).log())),
        old(live)@ == marked(storage::added(start, old(store).log())),
        *old(scanned) == storage::sat_count(reads(storage::added(start, old(store).log()))),
    ensures
        final(store).wf(),
        final(store).origin() == old(store).origin(),
        final(live).wf(),
        storage::extends(start, final(store).log()),
        storage::extends(old(store).log(), final(store).log()),
        careful(storage::added(start, final(store).log())),
        match r {
            Ok(_) => {
                &&& stage(start, final(store).log())
                &&& undeleted(storage::added(start, final(store).log()))
                &&& repo_marked(storage::added(old(store).log(), final(store).log()), repo@)
                &&& final(live)@ == marked(storage::added(start, final(store).log()))
                &&& *final(scanned) == storage::sat_count(
                    reads(storage::added(start, final(store).log())),
                )
            },
            Err(e) => ended_by(storage::added(start, final(store).log()), e),
        },
{
    let ghost first = store.log();
    proof {
        storage::lemma_added_none(first);
    }
    let list = store.list_manifest_digests(repo);
    let ghost listed = store.log().last();
    proof {
        lemma_stage_push(start, first, listed);
        lemma_undeleted_push(storage::added(start, first), listed);
        storage::lemma_added_push(first, first, listed);
        lemma_marked_push(storage::added(start, first), listed);
    }
    let ds = match list {
        Ok(v) => v,
        Err(e) => return Err(e),
    };
    let ghost mid = store.log();
    let ghost base = live@;
    let mut i: usize = 0;
    assert(order::views_of(ds@).take(0).to_set() =~= Set::<DigestView>::empty());
    let ghost mut refs: Set<DigestView> = Set::empty();
    proof {
        assert(storage::added(first, mid) =~= seq![listed]);
        assert(marked(storage::added(start, mid)) =~= base.union(order::views_of(ds@).to_set()));
    }
    // The digests marked so far: `base`, those of `ds` up to `i`, and `refs`.
    proof {
        assert(live@ =~= base.union(order::views_of(ds@.take(0)).to_set()).union(refs));
        assert(marked(storage::added(start, mid)) =~= base.union(
            order::views_of(ds@).to_set(),
        ).union(refs));
    }
    while i < ds.len()
        invariant
            i <= ds@.len(),
            store.wf(),
            store.origin() == old(store).origin(),
            live.wf(),
            first == old(store).log(),
            stage(start, store.log()),
            undeleted(storage::added(start, store.log())),
            storage::extends(first, store.log()),
            live@ == base.union(order::views_of(ds@.take(i as int)).to_set()).union(refs),
            marked(storage::added(start, store.log())) == base.union(
                order::views_of(ds@).to_set(),
            ).union(refs),
            *scanned == storage::sat_count(reads(storage::added(start, store.log()))),
            ({
                let calls = storage::added(first, store.log());
                &&& calls.len() == 1 + i
                &&& calls[0] == (Call::ListManifestDigests {
                    repo: repo@,
                    reply: Ok(order::views_of(ds@)),
                })
                &&& forall|j: int|
                    0 <= j < i ==> (#[trigger] calls[1 + j] matches Call::ManifestGet {
                        repo: q,
                        reference,
                        ..
                    } && q == repo@ && reference == ReferenceView::Digest(
                        order::views_of(ds@)[j],
                    ))
            }),
        decreases ds@.len() - i,
    {
        let ghost was = store.log();
        let ghost calls = storage::added(first, was);
        *scanned = scanned.saturating_add(1);
        live.insert(ds[i].dup());
        proof {
            order::lemma_take_set(ds@, i as int);
            assert(live@ =~= base.union(order::views_of(ds@.take(i + 1)).to_set()).union(refs));
        }
        let reference = Reference::Digest(ds[i].dup());
        let got = store.manifest_get(repo, &reference);
        let ghost c = store.log().last();
        proof {
            assert(store.log() == was.push(c));
            lemma_stage_push(start, was, c);
            lemma_undeleted_push(storage::added(start, was), c);
            storage::lemma_added_push(first, was, c);
            lemma_marked_push(storage::added(start, was), c);
            assert(order::views_of(ds@)[i as int] == ds@[i as int]@);
            let now = storage::added(first, store.log());
            assert forall|j: int| 0 <= j < i + 1 implies (#[trigger] now[1 + j] matches Call::ManifestGet {
                repo: q,
                reference,
                ..
            } && q == repo@ && reference == ReferenceView::Digest(order::views_of(ds@)[j])) by {
                if j < i {
                    assert(now[1 + j] == calls[1 + j]);
                }
            }
        }
        match got {
            Ok(m) => {
                if let Some(parsed) = m.refs {
                    let more = parsed.referenced_digests();
                    live.insert_all(more);
                    proof {
                        let all = parsed.references().to_set();
                        assert(base.union(order::views_of(ds@.take(i + 1)).to_set()).union(
                            refs,
                        ).union(all) =~= base.union(
                            order::views_of(ds@.take(i + 1)).to_set(),
                        ).union(refs.union(all)));
                        assert(base.union(order::views_of(ds@).to_set()).union(refs).union(all)
                            =~= base.union(order::views_of(ds@).to_set()).union(refs.union(all)));
                        refs = refs.union(all);
                    }
                } else {
                    assert(marks(c) =~= Set::<DigestView>::empty());
                }
            },
            Err(StorageError::NotFound) => {
                assert(marks(c) =~= Set::<DigestView>::empty());
            },
            Err(e) => {
                return Err(e);
            },
        }
        proof {
            assert(marked(storage::added(start, store.log())) =~= base.union(
                order::views_of(ds@).to_set(),
            ).union(refs));
        }
        i = i + 1;
    }
    assert(ds@.take(i as int) =~= ds@);
    Ok(())
}

proof fn lemma_freed_push(calls: Seq<Call>, c: Call)
    ensures
        c !is BlobDelete ==> freed(calls.push(c)) == freed(calls) && deleted(calls.push(c))
            == deleted(calls),
        c matches Call::BlobDelete { reply: Ok(_), .. } ==> deleted(calls.push(c)) == deleted(calls)
            + 1 && (calls.len() > 0 ==> freed(calls.push(c)) == freed(calls) + (
        match calls.last() {
            Call::BlobSize { reply: Ok(n), .. } => n as nat,
            _ => 0,
        })),
        c matches Call::BlobDelete { reply: Err(_), .. } ==> freed(calls.push(c)) == freed(calls)
            && deleted(calls.push(c)) == deleted(calls),
{
    assert(calls.push(c).drop_last() =~= calls);
    if calls.len() > 0 {
        assert(calls.push(c)[calls.push(c).len() - 2] == calls.last());
    }
}

/// What was deleted so far, and how much that freed.
#[derive(Clone, Copy)]
struct Swept {
    blobs: usize,
    bytes: u64,
}

impl Swept {
    /// These are the numbers of the calls.
    spec fn counts(self, calls: Seq<Call>) -> bool {
        &&& self.blobs == storage::sat_count(deleted(calls))
        &&& self.bytes == storage::sat(freed(calls))
    }
}

/// What sweeping keeps: a stage, in which the marks stay and deletions are counted.
spec fn sweeping(
    start: Seq<Call>,
    from: Seq<Call>,
    now: Seq<Call>,
    live: Set<DigestView>,
    swept: Swept,
) -> bool {
    &&& stage(start, now)
    &&& storage::extends(from, now)
    &&& marked(storage::added(start, now)) == live
    &&& swept.counts(storage::added(from, now))
}

/// A call that neither marks nor deletes.
proof fn lemma_sweeping_on(
    start: Seq<Call>,
    from: Seq<Call>,
    was: Seq<Call>,
    live: Set<DigestView>,
    swept: Swept,
    c: Call,
)
    requires
        sweeping(start, from, was, live, swept),
        c is BlobExists || c is BlobSize,
    ensures
        sweeping(start, from, was.push(c), live, swept),
{
    lemma_stage_push(start, was, c);
    lemma_marked_push(storage::added(start, was), c);
    storage::lemma_added_push(from, was, c);
    lemma_freed_push(storage::added(from, was), c);
    assert(live.union(marks(c)) =~= live);
}

/// Takes the size of a blob that is not in use and deletes it.
fn delete_at<S: Storage>(
    store: &mut S,
    repo: &str,
    blob: &Digest,
    swept: &mut Swept,
    Ghost(start): Ghost<Seq<Call>>,
    Ghost(from): Ghost<Seq<Call>>,
    Ghost(live): Ghost<Set<DigestView>>,
) -> (r: Result<(), StorageError>)
    requires
        old(store).wf(),
        sweeping(start, from, old(store).log(), live, *old(swept)),
        !live.contains(blob@),
    ensures
        final(store).wf(),
        final(store).origin() == old(store).origin(),
        storage::extends(start, final(store).log()),
        storage::extends(old(store).log(), final(store).log()),
        careful(storage::added(start, final(store).log())),
        match r {
            Ok(_) => {
                let calls = storage::added(old(store).log(), final(store).log());
                &&& sweeping(start, from, final(store).log(), live, *final(swept))
                &&& calls.len() == 2
                &&& deletion(calls[0], calls[1], repo@, blob@)
            },
            Err(e) => ended_by(storage::added(start, final(store).log()), e),
        },
{
    let ghost first = store.log();
    proof {
        storage::lemma_added_none(first);
    }
    let size = match store.blob_size(repo, blob) {
        Ok(n) => n,
        Err(_) => 0,
    };
    let ghost sized = store.log();
    let ghost c = sized.last();
    proof {
        assert(sized == first.push(c));
        lemma_sweeping_on(start, from, first, live, *swept, c);
        storage::lemma_added_push(first, first, c);
        storage::lemma_added_push(from, first, c);
    }
    let gone = store.blob_delete(repo, blob);
    let ghost d = store.log().last();
    proof {
        assert(store.log() == sized.push(d));
        lemma_stage_push(start, sized, d);
        storage::lemma_added_push(first, sized, d);
        storage::lemma_added_push(from, sized, d);
        lemma_marked_push(storage::added(start, sized), d);
        lemma_freed_push(storage::added(from, sized), d);
        assert(live.union(marks(d)) =~= live);
        assert(storage::added(from, sized).last() == c);
        let calls = storage::added(first, store.log());
        assert(calls =~= seq![c, d]);
        assert(calls[0] == c && calls[1] == d);
    }
    match gone {
        Ok(()) => {
            swept.blobs = swept.blobs.saturating_add(1);
            swept.bytes = swept.bytes.saturating_add(size);
            Ok(())
        },
        Err(StorageError::NotFound) => Ok(()),
        Err(e) => Err(e),
    }
}

/// Deletes one blob that is not in use wherever it is.
fn sweep_blob<S: Storage>(
    store: &mut S,
    repos: &Vec<String>,
    blob: &Digest,
    swept: &mut Swept,
    Ghost(start): Ghost<Seq<Call>>,
    Ghost(from): Ghost<Seq<Call>>,
    Ghost(live): Ghost<Set<DigestView>>,
) -> (r: Result<(), StorageError>)
    requires
        old(store).wf(),
        sweeping(start, from, old(store).log(), live, *old(swept)),
        !live.contains(blob@),
    ensures
        final(store).wf(),
        final(store).origin() == old(store).origin(),
        storage::extends(start, final(store).log()),
        storage::extends(old(store).log(), final(store).log()),
        careful(storage::added(start, final(store).log())),
        match r {
            Ok(_) => {
                &&& sweeping(start, from, final(store).log(), live, *final(swept))
                &&& blob_swept(
                    storage::added(old(store).log(), final(store).log()),
                    order::views_of(repos@),
                    blob@,
                )
            },
            Err(e) => ended_by(storage::added(start, final(store).log()), e),
        },
{
    let ghost first = store.log();
    let ghost names = order::views_of(repos@);
    proof {
        storage::lemma_added_none(first);
        assert(names.take(0) =~= Seq::<Seq<char>>::empty());
    }
    let mut found = false;
    let mut i: usize = 0;
    while i < repos.len()
        invariant
            i <= repos@.len(),
            store.wf(),
            store.origin() == old(store).origin(),
            first == old(store).log(),
            names == order::views_of(repos@),
            !live.contains(blob@),
            sweeping(start, from, store.log(), live, *swept),
            storage::extends(first, store.log()),
            repos_swept(storage::added(first, store.log()), names.take(i as int), blob@),
            found == found_there(storage::added(first, store.log())),
        decreases repos@.len() - i,
    {
        let ghost was = store.log();
        let ghost calls = storage::added(first, was);
        let reply = store.blob_exists(repos[i].as_str(), blob);
        let ghost asked = store.log();
        let ghost c = asked.last();
        proof {
            assert(asked == was.push(c));
            lemma_sweeping_on(start, from, was, live, *swept, c);
            storage::lemma_added_push(first, was, c);
            storage::lemma_added_none(was);
            storage::lemma_added_push(was, was, c);
            assert(storage::added(was, asked) =~= seq![c]);
        }
        if let Ok(true) = reply {
            match delete_at(
                store,
                repos[i].as_str(),
                blob,
                swept,
                Ghost(start),
                Ghost(from),
                Ghost(live),
            ) {
                Ok(()) => {},
                Err(e) => {
                    proof {
                        storage::lemma_added_twice(first, asked, store.log());
                    }
                    return Err(e);
                },
            }
            found = true;
            proof {
                storage::lemma_added_twice(was, asked, store.log());
                storage::lemma_added_twice(first, was, store.log());
                let more = storage::added(was, store.log());
                let two = storage::added(asked, store.log());
                assert(more =~= seq![c] + two);
                assert(more[0] == c && more[1] == two[0] && more[2] == two[1]);
            }
        } else {
            proof {
                storage::lemma_added_twice(first, was, store.log());
            }
        }
        proof {
            let more = storage::added(was, store.log());
            let all = storage::added(first, store.log());
            let n = calls.len() as int;
            assert(all =~= calls + more);
            assert(all.subrange(n, all.len() as int) =~= more);
            assert(all.subrange(0, n) =~= calls);
            assert(names.take(i + 1).drop_last() =~= names.take(i as int));
            assert(names.take(i + 1).last() == repos@[i as int]@);
            assert(repo_swept(all.subrange(n, all.len() as int), names.take(i + 1).last(), blob@));
            assert(all[n] == more[0]);
            if there(more[0]) {
                assert(there(all[n]));
            } else {
                if found_there(all) {
                    let k = choose|k: int| 0 <= k < all.len() && there(#[trigger] all[k]);
                    assert(k < n);
                    assert(there(calls[k]));
                }
            }
            if found_there(calls) {
                let k = choose|k: int| 0 <= k < calls.len() && there(#[trigger] calls[k]);
                assert(there(all[k]));
            }
        }
        i = i + 1;
    }
    assert(names.take(i as int) =~= names);
    let ghost probed = store.log();
    let ghost probes = storage::added(first, probed);
    let ghost k = probes.len() as int;
    let reply = store.blob_exists("", blob);
    let ghost asked = store.log();
    let ghost c = asked.last();
    proof {
        assert(asked == probed.push(c));
        lemma_sweeping_on(start, from, probed, live, *swept, c);
        storage::lemma_added_push(first, probed, c);
    }
    let there_too = match reply {
        Ok(b) => b,
        Err(_) => false,
    };
    if there_too || !found {
        match delete_at(store, "", blob, swept, Ghost(start), Ghost(from), Ghost(live)) {
            Ok(()) => {},
            Err(e) => {
                proof {
                    storage::lemma_added_twice(first, asked, store.log());
                }
                return Err(e);
            },
        }
        proof {
            storage::lemma_added_twice(first, asked, store.log());
            let two = storage::added(asked, store.log());
            let all = storage::added(first, store.log());
            assert(all =~= probes.push(c) + two);
            assert(all.subrange(0, k) =~= probes);
            assert(all[k] == c);
            assert(all[k + 1] == two[0] && all[k + 2] == two[1]);
            assert(swept_at(all, names, blob@, k));
        }
    } else {
        proof {
            let all = storage::added(first, store.log());
            assert(all =~= probes.push(c));
            assert(all.subrange(0, k) =~= probes);
            assert(all[k] == c);
            assert(swept_at(all, names, blob@, k));
        }
    }
    Ok(())
}

/// A first call that marks nothing leaves the marks of the others.
proof fn lemma_marked_behind(c: Call, calls: Seq<Call>)
    requires
        marks(c) == Set::<DigestView>::empty(),
    ensures
        marked(seq![c] + calls) == marked(calls),
    decreases calls.len(),
{
    let all = seq![c] + calls;
    if calls.len() == 0 {
        assert(all.drop_last() =~= Seq::<Call>::empty());
        assert(all.last() == c);
        assert(marked(all.drop_last()) =~= Set::<DigestView>::empty());
        assert(marked(all) =~= Set::<DigestView>::empty());
        assert(calls =~= Seq::<Call>::empty());
    } else {
        assert(all.drop_last() =~= seq![c] + calls.drop_last());
        lemma_marked_behind(c, calls.drop_last());
    }
}

proof fn lemma_careful_behind(c: Call, calls: Seq<Call>)
    requires
        c is ListRepos,
        careful(calls),
    ensures
        careful(seq![c] + calls),
{
    let all = seq![c] + calls;
    assert forall|i: int| 0 <= i < all.len() implies careful_call(all.take(i), #[trigger] all[i]) by {
        if i > 0 {
            let some = calls.take(i - 1);
            assert(all[i] == calls[i - 1]);
            assert(careful_call(some, calls[i - 1]));
            assert(all.take(i) =~= seq![c] + some);
            lemma_marked_behind(c, some);
            if undeleted(some) {
                assert forall|j: int| 0 <= j < all.take(i).len() implies !((
                #[trigger] all.take(i)[j]) is BlobDelete) by {
                    if j > 0 {
                        assert(all.take(i)[j] == some[j - 1]);
                    }
                }
            }
        }
    }
}

/// Runs one collection.
///
/// On success the calls are those of a whole collection, and the report counts
/// them. On failure the last call failed, and it was the first to fail fatally.
/// Either way no blob is deleted that an earlier answer showed to be in use, and none
/// at all where a listing or the reading of a manifest failed.
pub fn run<S: Storage>(store: &mut S) -> (r: Result<GcReport, StorageError>)
    requires
        old(store).wf(),
    ensures
        final(store).wf(),
        final(store).origin() == old(store).origin(),
        storage::extends(old(store).log(), final(store).log()),
        careful(storage::added(old(store).log(), final(store).log())),
        match r {
            Ok(report) => collected(storage::added(old(store).log(), final(store).log()), report),
            Err(e) => ended_by(storage::added(old(store).log(), final(store).log()), e),
        },
{
    let ghost zero = store.log();
    let listed = store.list_repos();
    let ghost start = store.log();
    let ghost c0 = start.last();
    proof {
        storage::lemma_added_none(zero);
        storage::lemma_added_push(zero, zero, c0);
        storage::lemma_added_none(start);
        assert(storage::added(zero, start) =~= seq![c0]);
        lemma_careful_behind(c0, Seq::empty());
        assert(seq![c0] + Seq::<Call>::empty() =~= seq![c0]);
        assert(seq![c0].drop_last() =~= Seq::<Call>::empty());
    }
    let repos = match listed {
        Ok(v) => v,
        Err(e) => return Err(e),
    };
    let ghost names = order::views_of(repos@);
    let mut live: SortedSet<Digest> = SortedSet::new();
    let mut scanned: usize = 0;
    let mut i: usize = 0;
    assert(names.take(0) =~= Seq::<Seq<char>>::empty());
    while i < repos.len()
        invariant
            i <= repos@.len(),
            store.wf(),
            store.origin() == old(store).origin(),
            live.wf(),
            names == order::views_of(repos@),
            zero == old(store).log(),
            storage::extends(zero, start),
            storage::added(zero, start) == seq![c0],
            c0 is ListRepos,
            fatal(c0) is None,
            stage(start, store.log()),
            undeleted(storage::added(start, store.log())),
            repos_marked(storage::added(start, store.log()), names.take(i as int)),
            live@ == marked(storage::added(start, store.log())),
            scanned == storage::sat_count(reads(storage::added(start, store.log()))),
        decreases repos@.len() - i,
    {
        let ghost was = store.log();
        let done = mark_repo(store, repos[i].as_str(), &mut live, &mut scanned, Ghost(start));
        proof {
            storage::lemma_added_twice(zero, start, store.log());
            lemma_careful_behind(c0, storage::added(start, store.log()));
            storage::lemma_added_twice(start, was, store.log());
        }
        match done {
            Ok(()) => {},
            Err(e) => {
                proof {
                    lemma_ended_behind(c0, storage::added(start, store.log()), e);
                }
                return Err(e);
            },
        }
        proof {
            let a = storage::added(start, was);
            let b = storage::added(start, store.log());
            let n = a.len() as int;
            assert(b.subrange(n, b.len() as int) =~= storage::added(was, store.log()));
            assert(b.subrange(0, n) =~= a);
            assert(names.take(i + 1).drop_last() =~= names.take(i as int));
            assert(names.take(i + 1).last() == repos@[i as int]@);
            assert(repo_marked(b.subrange(n, b.len() as int), names.take(i + 1).last()));
        }
        i = i + 1;
    }
    assert(names.take(i as int) =~= names);
    let ghost mid = store.log();
    let ghost inuse = live@;
    let reachable: usize = live.items.len();
    proof {
        live.lemma_len();
    }
    let all = store.list_all_blobs();
    let ghost from = store.log();
    let ghost c1 = from.last();
    proof {
        assert(from == mid.push(c1));
        lemma_stage_push(start, mid, c1);
        lemma_marked_push(storage::added(start, mid), c1);
        assert(marked(storage::added(start, mid)).union(marks(c1)) =~= inuse);
        storage::lemma_added_twice(zero, start, from);
        lemma_careful_behind(c0, storage::added(start, from));
    }
    let blobs = match all {
        Ok(v) => v,
        Err(e) => {
            proof {
                lemma_ended_behind(c0, storage::added(start, from), e);
            }
            return Err(e);
        },
    };
    let ghost list = order::views_of(blobs@);
    let mut swept = Swept { blobs: 0, bytes: 0 };
    let mut k: usize = 0;
    proof {
        storage::lemma_added_none(from);
        assert(list.take(0) =~= Seq::<DigestView>::empty());
    }
    while k < blobs.len()
        invariant
            k <= blobs@.len(),
            store.wf(),
            store.origin() == old(store).origin(),
            live.wf(),
            live@ == inuse,
            names == order::views_of(repos@),
            list == order::views_of(blobs@),
            zero == old(store).log(),
            storage::extends(zero, start),
            storage::added(zero, start) == seq![c0],
            c0 is ListRepos,
            fatal(c0) is None,
            storage::extends(start, from),
            sweeping(start, from, store.log(), inuse, swept),
            blobs_swept(storage::added(from, store.log()), names, inuse, list.take(k as int)),
        decreases blobs@.len() - k,
    {
        let ghost was = store.log();
        proof {
            assert(list.take(k + 1).drop_last() =~= list.take(k as int));
            assert(list.take(k + 1).last() == blobs@[k as int]@);
        }
        if live.contains(&blobs[k]) {
            k = k + 1;
            continue;
        }
        let gone = sweep_blob(
            store,
            &repos,
            &blobs[k],
            &mut swept,
            Ghost(start),
            Ghost(from),
            Ghost(inuse),
        );
        proof {
            storage::lemma_added_twice(zero, start, store.log());
            lemma_careful_behind(c0, storage::added(start, store.log()));
            storage::lemma_added_twice(from, was, store.log());
        }
        match gone {
            Ok(()) => {},
            Err(e) => {
                proof {
                    lemma_ended_behind(c0, storage::added(start, store.log()), e);
                }
                return Err(e);
            },
        }
        proof {
            let a = storage::added(from, was);
            let b = storage::added(from, store.log());
            let n = a.len() as int;
            assert(b.subrange(n, b.len() as int) =~= storage::added(was, store.log()));
            assert(b.subrange(0, n) =~= a);
            assert(blob_swept(
                b.subrange(n, b.len() as int),
                names,
                list.take(k + 1).last(),
            ));
        }
        k = k + 1;
    }
    assert(list.take(k as int) =~= list);
    let report = GcReport {
        repos_scanned: repos.len(),
        manifests_scanned: scanned,
        reachable_blobs: reachable,
        deleted_blobs: swept.blobs,
        deleted_bytes: swept.bytes,
    };
    proof {
        storage::lemma_added_twice(zero, start, store.log());
        storage::lemma_added_none(mid);
        storage::lemma_added_push(mid, mid, c1);
        storage::lemma_added_twice(start, mid, from);
        storage::lemma_added_twice(start, from, store.log());
        let calls = storage::added(zero, store.log());
        let tail = storage::added(start, store.log());
        lemma_careful_behind(c0, tail);
        lemma_none_fatal_behind(c0, tail);
        let marking = storage::added(start, mid);
        let sweeping = storage::added(from, store.log());
        let m = 1 + marking.len() as int;
        assert(storage::added(mid, from) =~= seq![c1]);
        assert(calls =~= seq![c0] + ((marking + seq![c1]) + sweeping));
        assert(calls.subrange(1, m) =~= marking);
        assert(calls[m] == c1);
        assert(calls.subrange(m + 1, calls.len() as int) =~= sweeping);
        assert(phases(calls, names, list, m));
    }
    Ok(report)
}

proof fn lemma_none_fatal_behind(c: Call, calls: Seq<Call>)
    requires
        fatal(c) is None,
        none_fatal(calls),
    ensures
        none_fatal(seq![c] + calls),
{
    let all = seq![c] + calls;
    assert forall|i: int| 0 <= i < all.len() implies fatal(#[trigger] all[i]) is None by {
        if i > 0 {
            assert(all[i] == calls[i - 1]);
        }
    }
}

proof fn lemma_ended_behind(c: Call, calls: Seq<Call>, e: StorageError)
    requires
        fatal(c) is None,
        ended_by(calls, e),
    ensures
        ended_by(seq![c] + calls, e),
{
    let all = seq![c] + calls;
    assert(all.last() == calls.last());
    assert(all.drop_last() =~= seq![c] + calls.drop_last());
    lemma_none_fatal_behind(c, calls.drop_last());
}

} // verus!
