//! Several stores composed into one.
//!
//! - Reads start at the primary partition and fall through to each secondary on
//!   `NotFound`.
//! - Writes go to the primary only.
//! - Deletes apply to every partition.
//! - Listings are the union over all partitions, sorted and without repetition.

use vstd::prelude::*;

use crate::digest::Digest;
use crate::fanout;
use crate::fanout::{Ask, Partition};
use crate::order::Key;
use crate::storage::{Call, Reference, Storage, StorageError, StoredManifest, UploadStatus};
use crate::text;
use crate::trail;
use crate::trail::{Layout, Start, Trail};

verus! {

pub struct MultiStore<S> {
    pub partitions: Vec<Partition<S>>,
    /// The place of the partition that receives writes.
    pub primary: usize,
    pub record: Ghost<Seq<Call>>,
    pub trail: Ghost<Trail<Layout, Seq<Partition<S>>>>,
}

/// No two partitions share a name.
pub open spec fn names_differ<S>(parts: Seq<Partition<S>>) -> bool {
    forall|i: int, j: int|
        0 <= i < j < parts.len() ==> (#[trigger] parts[i]).name@ != (#[trigger] parts[j]).name@
}

/// `j` is the first partition whose name an earlier one has.
pub open spec fn first_repeat<S>(parts: Seq<Partition<S>>, j: int) -> bool {
    &&& 0 <= j < parts.len()
    &&& exists|i: int| 0 <= i < j && (#[trigger] parts[i]).name@ == parts[j].name@
    &&& names_differ(parts.take(j))
}

/// The place that is asked `i`-th when a read falls through `n` partitions.
pub open spec fn reader(primary: int, i: int) -> int {
    if i == 0 {
        primary
    } else if i <= primary {
        i - 1
    } else {
        i
    }
}

/// The order of reads: the primary, then the others as declared.
pub open spec fn read_order(n: nat, primary: int) -> Seq<usize> {
    Seq::new(n, |i: int| reader(primary, i) as usize)
}

/// The declared order.
pub open spec fn declared_order(n: nat) -> Seq<usize> {
    Seq::new(n, |i: int| i as usize)
}

fn has_name<S>(parts: &Vec<Partition<S>>, upto: usize, name: &str) -> (r: Option<usize>)
    requires
        upto <= parts@.len(),
    ensures
        match r {
            Some(i) => i < upto && parts@[i as int].name@ == name@ && forall|k: int|
                0 <= k < i ==> (#[trigger] parts@[k]).name@ != name@,
            None => forall|k: int| 0 <= k < upto ==> (#[trigger] parts@[k]).name@ != name@,
        },
{
    let mut i: usize = 0;
    while i < upto
        invariant
            i <= upto <= parts@.len(),
            forall|k: int| 0 <= k < i ==> (#[trigger] parts@[k]).name@ != name@,
        decreases upto - i,
    {
        if text::same(parts[i].name.as_str(), name) {
            return Some(i);
        }
        i = i + 1;
    }
    None
}

impl<S> MultiStore<S> {
    /// The primary is one of the partitions.
    pub open spec fn placed(&self) -> bool {
        self.primary < self.partitions@.len()
    }

    /// Which partitions are asked.
    pub open spec fn layout(&self) -> Layout {
        Layout::Partitions(self.partitions@.len(), self.primary)
    }

    /// What the partitions went through, up to now.
    pub open spec fn path(&self) -> Trail<Layout, Seq<Partition<S>>> {
        self.trail@.current(self.layout(), self.record@.len(), self.partitions@)
    }

    /// The trail begins here.
    pub open spec fn begins(&self) -> bool {
        self.path() == trail::begun(self.layout(), self.record@.len(), self.partitions@)
    }

    /// Begins a new trail.
    pub fn begin(&mut self)
        ensures
            final(self).partitions == old(self).partitions,
            final(self).primary == old(self).primary,
            final(self).record == old(self).record,
            final(self).begins(),
    {
        self.trail = Ghost(trail::begun(self.layout(), self.record@.len(), self.partitions@));
    }

    /// Composes `partitions`; the one named `primary` receives the writes.
    pub fn new(partitions: Vec<Partition<S>>, primary: &str) -> (r: Result<
        MultiStore<S>,
        StorageError,
    >)
        ensures
            partitions@.len() == 0 ==> (r matches Err(StorageError::Invalid(m)) && m@
                == "MultiStore needs at least one partition"@),
            forall|j: int|
                #[trigger] first_repeat(partitions@, j) ==> (r matches Err(
                    StorageError::Invalid(m),
                ) && m@ == "duplicate partition name: "@ + partitions@[j].name@),
            partitions@.len() > 0 && names_differ(partitions@) ==> match r {
                Ok(s) => s.partitions == partitions && s.placed() && s.begins() && partitions@[s.primary as int].name@ == primary@,
                Err(e) => (forall|k: int|
                    0 <= k < partitions@.len() ==> (#[trigger] partitions@[k]).name@ != primary@)
                    && (e matches StorageError::Invalid(m) && m@ == "primary partition "@
                    + text::debug_text(primary@) + " not in list"@),
            },
    {
        if partitions.len() == 0 {
            return Err(
                StorageError::Invalid("MultiStore needs at least one partition".to_owned()),
            );
        }
        let mut i: usize = 0;
        while i < partitions.len()
            invariant
                i <= partitions@.len(),
                names_differ(partitions@.take(i as int)),
                forall|j: int| 0 <= j < i ==> !first_repeat(partitions@, j),
            decreases partitions@.len() - i,
        {
            if let Some(k) = has_name(&partitions, i, partitions[i].name.as_str()) {
                proof {
                    assert(first_repeat(partitions@, i as int));
                    assert forall|j: int| #[trigger] first_repeat(partitions@, j) implies j == i by {
                        if j > i {
                            let t = partitions@.take(j);
                            assert(t[k as int].name@ != t[i as int].name@);
                        }
                    }
                    assert(!names_differ(partitions@)) by {
                        assert(partitions@[k as int].name@ == partitions@[i as int].name@);
                    }
                }
                return Err(
                    StorageError::Invalid(
                        text::cat("duplicate partition name: ", partitions[i].name.as_str()),
                    ),
                );
            }
            proof {
                let a = partitions@.take(i as int);
                let b = partitions@.take(i + 1);
                assert forall|p: int, q: int| 0 <= p < q < b.len() implies (#[trigger] b[p]).name@
                    != (#[trigger] b[q]).name@ by {
                    if q < i {
                        assert(a[p].name@ != a[q].name@);
                    } else {
                        assert(partitions@[p].name@ != partitions@[i as int].name@);
                    }
                }
            }
            i = i + 1;
        }
        assert(partitions@.take(i as int) =~= partitions@);
        match has_name(&partitions, partitions.len(), primary) {
            Some(at) => {
                let ghost layout = Layout::Partitions(partitions@.len(), at);
                let ghost t = trail::begun(layout, 0, partitions@);
                Ok(MultiStore { partitions, primary: at, record: Ghost(Seq::empty()), trail: Ghost(t) })
            },
            None => {
                let q = text::debug_quote(primary);
                Err(
                    StorageError::Invalid(
                        text::cat3("primary partition ", q.as_str(), " not in list"),
                    ),
                )
            },
        }
    }

    pub fn partitions(&self) -> (r: &Vec<Partition<S>>)
        ensures
            *r == self.partitions,
    {
        &self.partitions
    }

    pub fn primary(&self) -> (r: &Partition<S>)
        requires
            self.placed(),
        ensures
            *r == self.partitions@[self.primary as int],
    {
        &self.partitions[self.primary]
    }

    /// The places of all other partitions, in declared order.
    pub fn secondaries(&self) -> (r: Vec<usize>)
        requires
            self.placed(),
        ensures
            r@ == read_order(self.partitions@.len(), self.primary as int).drop_first(),
    {
        let all = self.reading();
        let mut out: Vec<usize> = Vec::new();
        let mut i: usize = 1;
        while i < all.len()
            invariant
                1 <= i <= all@.len(),
                out@ == all@.subrange(1, i as int),
            decreases all@.len() - i,
        {
            out.push(all[i]);
            i = i + 1;
            assert(out@ =~= all@.subrange(1, i as int));
        }
        out
    }

    fn reading(&self) -> (r: Vec<usize>)
        requires
            self.placed(),
        ensures
            r@ == read_order(self.partitions@.len(), self.primary as int),
            r@.len() > 0,
            fanout::places(r@, self.partitions@.len()),
    {
        let n: usize = self.partitions.len();
        let mut out: Vec<usize> = Vec::new();
        out.push(self.primary);
        let mut i: usize = 1;
        while i < n
            invariant
                1 <= i <= n,
                n == self.partitions@.len(),
                self.primary < n,
                out@ == read_order(n as nat, self.primary as int).take(i as int),
            decreases n - i,
        {
            if i <= self.primary {
                out.push(i - 1);
            } else {
                out.push(i);
            }
            i = i + 1;
            assert(out@ =~= read_order(n as nat, self.primary as int).take(i as int));
        }
        assert(out@ =~= read_order(n as nat, self.primary as int));
        out
    }

    fn declared(&self) -> (r: Vec<usize>)
        ensures
            r@ == declared_order(self.partitions@.len()),
            fanout::places(r@, self.partitions@.len()),
    {
        let n: usize = self.partitions.len();
        let mut out: Vec<usize> = Vec::new();
        let mut i: usize = 0;
        while i < n
            invariant
                i <= n,
                n == self.partitions@.len(),
                out@ == declared_order(n as nat).take(i as int),
            decreases n - i,
        {
            out.push(i);
            i = i + 1;
            assert(out@ =~= declared_order(n as nat).take(i as int));
        }
        assert(out@ =~= declared_order(n as nat));
        out
    }
}

impl<S: Storage> MultiStore<S> {
    /// Nothing but the stores of the partitions has changed.
    pub open spec fn kept(&self, was: &MultiStore<S>) -> bool {
        self.primary == was.primary && self.partitions@.len() == was.partitions@.len()
    }

    /// Adds a call to the record, and to the trail what the partitions became by it.
    fn note(&mut self, was: Ghost<MultiStore<S>>, call: Ghost<Call>)
        requires
            was@.wf(),
            old(self).kept(&was@),
            fanout::all_wf(old(self).partitions@),
            old(self).record == was@.record,
            old(self).trail == was@.trail,
            trail::served(was@.layout(), was@.partitions@, call@, old(self).partitions@),
        ensures
            final(self).wf(),
            final(self).partitions == old(self).partitions,
            final(self).primary == old(self).primary,
            final(self).record@ == was@.record@.push(call@),
            final(self).origin() == was@.origin(),
    {
        proof {
            trail::lemma_begun(was@.layout(), was@.record@, was@.partitions@);
            trail::lemma_onward(
                was@.path(),
                was@.record@,
                was@.partitions@,
                call@,
                self.partitions@,
            );
        }
        self.record = Ghost(self.record@.push(call@));
        self.trail = Ghost(was@.path().onward(self.partitions@));
    }

    fn write<A: Ask>(&mut self, a: &A) -> (r: Result<A::Answer, StorageError>)
        requires
            old(self).wf(),
        ensures
            final(self).wf(),
            final(self).kept(old(self)),
            final(self).record == old(self).record,
            final(self).trail == old(self).trail,
            fanout::asked(
                old(self).partitions@,
                final(self).partitions@,
                seq![old(self).primary],
                *a,
                seq![r],
            ),
    {
        let at: usize = self.primary;
        fanout::ask_one(&mut self.partitions, at, a)
    }

    /// Asks the primary, then each secondary, until one answers other than
    /// `NotFound`.
    pub fn read_fallthrough<A: Ask>(&mut self, a: &A) -> (r: Result<A::Answer, StorageError>)
        requires
            old(self).wf(),
        ensures
            final(self).wf(),
            final(self).kept(old(self)),
            final(self).record == old(self).record,
            final(self).trail == old(self).trail,
            fell_through(*old(self), *final(self), *a, r),
    {
        let order = self.reading();
        assert(order@.len() == self.partitions@.len());
        fanout::ask_until_found(&mut self.partitions, &order, a)
    }
}

/// A read with operation `a` that gave `r`: the partitions were asked from the
/// primary on until one answered other than `NotFound`.
pub open spec fn fell_through<S: Storage, A: Ask>(
    was: MultiStore<S>,
    now: MultiStore<S>,
    a: A,
    r: Result<A::Answer, StorageError>,
) -> bool {
    let n = was.partitions@.len();
    exists|replies: Seq<Result<A::Answer, StorageError>>|
        #![trigger fanout::asked(was.partitions@, now.partitions@, read_order(n, was.primary as int), a, replies)]
        fanout::asked(was.partitions@, now.partitions@, read_order(n, was.primary as int), a, replies)
            && fanout::first_answer(replies, n, r)
}

/// `a` was asked of the partitions from the primary on until one said `true` or
/// failed.
pub open spec fn asked_any<S: Storage, A: Ask<Answer = bool>>(
    was: MultiStore<S>,
    now: MultiStore<S>,
    a: A,
    r: Result<bool, StorageError>,
) -> bool {
    let n = was.partitions@.len();
    exists|replies: Seq<Result<bool, StorageError>>|
        #![trigger fanout::asked(was.partitions@, now.partitions@, read_order(n, was.primary as int), a, replies)]
        fanout::asked(was.partitions@, now.partitions@, read_order(n, was.primary as int), a, replies)
            && fanout::any_answer(replies, n, r)
}

/// `a` was asked of every partition, and a failure of any of them is what it gave.
pub open spec fn asked_all<S: Storage, A: Ask<Answer = ()>>(
    was: MultiStore<S>,
    now: MultiStore<S>,
    a: A,
    r: Result<(), StorageError>,
) -> bool {
    let n = was.partitions@.len();
    exists|replies: Seq<Result<(), StorageError>>|
        #![trigger fanout::asked(was.partitions@, now.partitions@, declared_order(n), a, replies)]
        fanout::asked(was.partitions@, now.partitions@, declared_order(n), a, replies) && replies.len()
            == n && fanout::all_answer(replies, r)
}

/// The lists of all partitions, joined.
pub open spec fn asked_union<S: Storage, K: Key, A: Ask<Answer = Vec<K>>>(
    was: MultiStore<S>,
    now: MultiStore<S>,
    a: A,
    r: Result<Vec<K>, StorageError>,
) -> bool {
    let n = was.partitions@.len();
    exists|replies: Seq<Result<Vec<K>, StorageError>>|
        #![trigger fanout::asked(was.partitions@, now.partitions@, declared_order(n), a, replies)]
        fanout::asked(was.partitions@, now.partitions@, declared_order(n), a, replies)
            && fanout::union_answer(replies, n, r)
}

impl<S: Storage> Storage for MultiStore<S> {
    open spec fn log(&self) -> Seq<Call> {
        self.record@
    }

    open spec fn wf(&self) -> bool {
        self.placed() && fanout::all_wf(self.partitions@) && trail::traced(
            self.trail@,
            self.record@,
        )
    }

    type Origin = Start<Layout, Seq<Partition<S>>>;

    open spec fn origin(&self) -> Start<Layout, Seq<Partition<S>>> {
        self.path().start()
    }

    fn blob_exists(&mut self, repo: &str, digest: &Digest) -> (r: Result<bool, StorageError>)
        ensures
            final(self).kept(old(self)),
            asked_any(*old(self), *final(self), (fanout::BlobExists { repo, digest }), r),
    {
        let ghost was = *self;
        let a = fanout::BlobExists { repo, digest };
        let r = {
            let order = self.reading();
            fanout::ask_until_true(&mut self.partitions, &order, &a)
        };
        assert(a.call(r)->BlobExists_repo == repo@);
        assert(trail::until_true(was.partitions@, self.partitions@, was.layout().reads(repo@), a, r));
        self.note(Ghost(was), Ghost(a.call(r)));
        r
    }

    fn blob_size(&mut self, repo: &str, digest: &Digest) -> (r: Result<u64, StorageError>)
        ensures
            final(self).kept(old(self)),
            fell_through(*old(self), *final(self), (fanout::BlobSize { repo, digest }), r),
    {
        let ghost was = *self;
        let a = fanout::BlobSize { repo, digest };
        let r = self.read_fallthrough(&a);
        assert(a.call(r)->BlobSize_repo == repo@);
        assert(trail::until_found(was.partitions@, self.partitions@, was.layout().reads(repo@), a, r));
        self.note(Ghost(was), Ghost(a.call(r)));
        r
    }

    fn blob_read(&mut self, repo: &str, digest: &Digest) -> (r: Result<Vec<u8>, StorageError>)
        ensures
            final(self).kept(old(self)),
            fell_through(*old(self), *final(self), (fanout::BlobRead { repo, digest }), r),
    {
        let ghost was = *self;
        let a = fanout::BlobRead { repo, digest };
        let r = self.read_fallthrough(&a);
        assert(a.call(r)->BlobRead_repo == repo@);
        assert(trail::until_found(was.partitions@, self.partitions@, was.layout().reads(repo@), a, r));
        self.note(Ghost(was), Ghost(a.call(r)));
        r
    }

    fn blob_write(&mut self, repo: &str, expected: &Digest, content: &[u8]) -> (r: Result<(), StorageError>)
        ensures
            final(self).kept(old(self)),
            fanout::asked(
                old(self).partitions@,
                final(self).partitions@,
                seq![old(self).primary],
                (fanout::BlobWrite { repo, digest: expected, content }),
                seq![r],
            ),
    {
        let ghost was = *self;
        let a = fanout::BlobWrite { repo, digest: expected, content };
        let r = self.write(&a);
        assert(a.call(r)->BlobWrite_repo == repo@);
        assert(trail::alone(was.partitions@, self.partitions@, was.layout().writes(repo@), a, r));
        self.note(Ghost(was), Ghost(a.call(r)));
        r
    }

    fn blob_delete(&mut self, repo: &str, digest: &Digest) -> (r: Result<(), StorageError>)
        ensures
            final(self).kept(old(self)),
            asked_all(*old(self), *final(self), (fanout::BlobDelete { repo, digest }), r),
    {
        let ghost was = *self;
        let a = fanout::BlobDelete { repo, digest };
        let r = {
            let order = self.declared();
            fanout::ask_all(&mut self.partitions, &order, &a)
        };
        assert(a.call(r)->BlobDelete_repo == repo@);
        assert(trail::of_all(was.partitions@, self.partitions@, was.layout().holds(repo@), a, r));
        self.note(Ghost(was), Ghost(a.call(r)));
        r
    }

    fn upload_create(&mut self, repo: &str) -> (r: Result<UploadStatus, StorageError>)
        ensures
            final(self).kept(old(self)),
            fanout::asked(
                old(self).partitions@,
                final(self).partitions@,
                seq![old(self).primary],
                (fanout::UploadCreate { repo }),
                seq![r],
            ),
    {
        let ghost was = *self;
        let a = fanout::UploadCreate { repo };
        let r = self.write(&a);
        assert(a.call(r)->UploadCreate_repo == repo@);
        assert(trail::alone(was.partitions@, self.partitions@, was.layout().writes(repo@), a, r));
        self.note(Ghost(was), Ghost(a.call(r)));
        r
    }

    fn upload_status(&mut self, repo: &str, id: u128) -> (r: Result<UploadStatus, StorageError>)
        ensures
            final(self).kept(old(self)),
            fanout::asked(
                old(self).partitions@,
                final(self).partitions@,
                seq![old(self).primary],
                (fanout::UploadState { repo, id }),
                seq![r],
            ),
    {
        let ghost was = *self;
        let a = fanout::UploadState { repo, id };
        let r = self.write(&a);
        assert(a.call(r)->UploadState_repo == repo@);
        assert(trail::alone(was.partitions@, self.partitions@, was.layout().writes(repo@), a, r));
        self.note(Ghost(was), Ghost(a.call(r)));
        r
    }

    fn upload_append(&mut self, repo: &str, id: u128, chunk: &[u8]) -> (r: Result<UploadStatus, StorageError>)
        ensures
            final(self).kept(old(self)),
            fanout::asked(
                old(self).partitions@,
                final(self).partitions@,
                seq![old(self).primary],
                (fanout::UploadAppend { repo, id, chunk }),
                seq![r],
            ),
    {
        let ghost was = *self;
        let a = fanout::UploadAppend { repo, id, chunk };
        let r = self.write(&a);
        assert(a.call(r)->UploadAppend_repo == repo@);
        assert(trail::alone(was.partitions@, self.partitions@, was.layout().writes(repo@), a, r));
        self.note(Ghost(was), Ghost(a.call(r)));
        r
    }

    fn upload_finalize(&mut self, repo: &str, id: u128, expected: &Digest) -> (r: Result<(), StorageError>)
        ensures
            final(self).kept(old(self)),
            fanout::asked(
                old(self).partitions@,
                final(self).partitions@,
                seq![old(self).primary],
                (fanout::UploadFinalize { repo, id, digest: expected }),
                seq![r],
            ),
    {
        let ghost was = *self;
        let a = fanout::UploadFinalize { repo, id, digest: expected };
        let r = self.write(&a);
        assert(a.call(r)->UploadFinalize_repo == repo@);
        assert(trail::alone(was.partitions@, self.partitions@, was.layout().writes(repo@), a, r));
        self.note(Ghost(was), Ghost(a.call(r)));
        r
    }

    fn upload_cancel(&mut self, repo: &str, id: u128) -> (r: Result<(), StorageError>)
        ensures
            final(self).kept(old(self)),
            fanout::asked(
                old(self).partitions@,
                final(self).partitions@,
                seq![old(self).primary],
                (fanout::UploadCancel { repo, id }),
                seq![r],
            ),
    {
        let ghost was = *self;
        let a = fanout::UploadCancel { repo, id };
        let r = self.write(&a);
        assert(a.call(r)->UploadCancel_repo == repo@);
        assert(trail::alone(was.partitions@, self.partitions@, was.layout().writes(repo@), a, r));
        self.note(Ghost(was), Ghost(a.call(r)));
        r
    }

    fn manifest_get(&mut self, repo: &str, reference: &Reference) -> (r: Result<StoredManifest, StorageError>)
        ensures
            final(self).kept(old(self)),
            fell_through(*old(self), *final(self), (fanout::ManifestGet { repo, reference }), r),
    {
        let ghost was = *self;
        let a = fanout::ManifestGet { repo, reference };
        let r = self.read_fallthrough(&a);
        assert(a.call(r)->ManifestGet_repo == repo@);
        assert(trail::until_found(was.partitions@, self.partitions@, was.layout().reads(repo@), a, r));
        self.note(Ghost(was), Ghost(a.call(r)));
        r
    }

    fn manifest_put(&mut self, repo: &str, reference: &Reference, content: &[u8]) -> (r: Result<Digest, StorageError>)
        ensures
            final(self).kept(old(self)),
            fanout::asked(
                old(self).partitions@,
                final(self).partitions@,
                seq![old(self).primary],
                (fanout::ManifestPut { repo, reference, content }),
                seq![r],
            ),
    {
        let ghost was = *self;
        let a = fanout::ManifestPut { repo, reference, content };
        let r = self.write(&a);
        assert(a.call(r)->ManifestPut_repo == repo@);
        assert(trail::alone(was.partitions@, self.partitions@, was.layout().writes(repo@), a, r));
        self.note(Ghost(was), Ghost(a.call(r)));
        r
    }

    fn manifest_delete(&mut self, repo: &str, reference: &Reference) -> (r: Result<(), StorageError>)
        ensures
            final(self).kept(old(self)),
            asked_all(*old(self), *final(self), (fanout::ManifestDelete { repo, reference }), r),
    {
        let ghost was = *self;
        let a = fanout::ManifestDelete { repo, reference };
        let r = {
            let order = self.declared();
            fanout::ask_all(&mut self.partitions, &order, &a)
        };
        assert(a.call(r)->ManifestDelete_repo == repo@);
        assert(trail::of_all(was.partitions@, self.partitions@, was.layout().holds(repo@), a, r));
        self.note(Ghost(was), Ghost(a.call(r)));
        r
    }

    fn list_repos(&mut self) -> (r: Result<Vec<String>, StorageError>)
        ensures
            final(self).kept(old(self)),
            asked_union(*old(self), *final(self), fanout::ListRepos, r),
    {
        let ghost was = *self;
        let a = fanout::ListRepos;
        let r = {
            let order = self.declared();
            fanout::ask_union(&mut self.partitions, &order, &a)
        };
        assert(trail::put_together(was.partitions@, self.partitions@, was.layout().everywhere(), a, r));
        self.note(Ghost(was), Ghost(a.call(r)));
        r
    }

    fn list_tags(&mut self, repo: &str) -> (r: Result<Vec<String>, StorageError>)
        ensures
            final(self).kept(old(self)),
            asked_union(*old(self), *final(self), (fanout::ListTags { repo }), r),
    {
        let ghost was = *self;
        let a = fanout::ListTags { repo };
        let r = {
            let order = self.declared();
            fanout::ask_union(&mut self.partitions, &order, &a)
        };
        assert(a.call(r)->ListTags_repo == repo@);
        assert(trail::put_together(was.partitions@, self.partitions@, was.layout().holds(repo@), a, r));
        self.note(Ghost(was), Ghost(a.call(r)));
        r
    }

    fn list_manifest_digests(&mut self, repo: &str) -> (r: Result<Vec<Digest>, StorageError>)
        ensures
            final(self).kept(old(self)),
            asked_union(*old(self), *final(self), (fanout::ListManifestDigests { repo }), r),
    {
        let ghost was = *self;
        let a = fanout::ListManifestDigests { repo };
        let r = {
            let order = self.declared();
            fanout::ask_union(&mut self.partitions, &order, &a)
        };
        assert(a.call(r)->ListManifestDigests_repo == repo@);
        assert(trail::put_together(was.partitions@, self.partitions@, was.layout().holds(repo@), a, r));
        self.note(Ghost(was), Ghost(a.call(r)));
        r
    }

    fn list_all_blobs(&mut self) -> (r: Result<Vec<Digest>, StorageError>)
        ensures
            final(self).kept(old(self)),
            asked_union(*old(self), *final(self), fanout::ListAllBlobs, r),
    {
        let ghost was = *self;
        let a = fanout::ListAllBlobs;
        let r = {
            let order = self.declared();
            fanout::ask_union(&mut self.partitions, &order, &a)
        };
        assert(trail::put_together(was.partitions@, self.partitions@, was.layout().everywhere(), a, r));
        self.note(Ghost(was), Ghost(a.call(r)));
        r
    }
}

} // verus!
