//! What the stores behind a composed store went through.
//!
//! `MultiStore` and `RepoRouter` answer a call by asking some of their stores. Each
//! keeps, beside its record, the states that its stores went through from call to
//! call: the trail. Where the stores were changed otherwise, the trail begins anew.

use vstd::prelude::*;

use crate::digest::Digest;
use crate::fanout;
use crate::fanout::{Ask, Partition};
use crate::multi;
use crate::order::Key;
use crate::repo_router;
use crate::repo_router::RuleView;
use crate::storage;
use crate::storage::{Call, Storage, StorageError, StoredManifest, UploadStatus};

verus! {

/// By what a composed store picks the stores that it asks.
pub enum Layout {
    /// The number of partitions and the place of the primary.
    Partitions(nat, usize),
    /// The rules of a router.
    Rules(Seq<RuleView>),
}

impl Layout {
    /// The stores that a read in `repo` is asked of, in turn.
    pub open spec fn reads(self, repo: Seq<char>) -> Seq<usize> {
        match self {
            Layout::Partitions(n, primary) => multi::read_order(n, primary as int),
            Layout::Rules(rules) => repo_router::placed(rules, repo),
        }
    }

    /// The store that takes the writes to `repo`.
    pub open spec fn writes(self, repo: Seq<char>) -> usize {
        match self {
            Layout::Partitions(_, primary) => primary,
            Layout::Rules(rules) => repo_router::placed(rules, repo)[0],
        }
    }

    /// The stores that hold what is in `repo`.
    pub open spec fn holds(self, repo: Seq<char>) -> Seq<usize> {
        match self {
            Layout::Partitions(n, _) => multi::declared_order(n),
            Layout::Rules(rules) => repo_router::placed(rules, repo),
        }
    }

    /// All stores that are listed.
    pub open spec fn everywhere(self) -> Seq<usize> {
        match self {
            Layout::Partitions(n, _) => multi::declared_order(n),
            Layout::Rules(rules) => repo_router::listed_volumes(rules),
        }
    }
}

/// `a` was asked of one store.
pub open spec fn alone<S: Storage, A: Ask>(
    was: Seq<Partition<S>>,
    now: Seq<Partition<S>>,
    at: usize,
    a: A,
    r: Result<A::Answer, StorageError>,
) -> bool {
    fanout::asked(was, now, seq![at], a, seq![r])
}

/// `a` was asked of the stores of `order` until one answered other than `NotFound`.
pub open spec fn until_found<S: Storage, A: Ask>(
    was: Seq<Partition<S>>,
    now: Seq<Partition<S>>,
    order: Seq<usize>,
    a: A,
    r: Result<A::Answer, StorageError>,
) -> bool {
    exists|replies: Seq<Result<A::Answer, StorageError>>| #[trigger]
        fanout::asked(was, now, order, a, replies) && fanout::first_answer(replies, order.len(), r)
}

/// `a` was asked of the stores of `order` until one said `true` or failed.
pub open spec fn until_true<S: Storage, A: Ask<Answer = bool>>(
    was: Seq<Partition<S>>,
    now: Seq<Partition<S>>,
    order: Seq<usize>,
    a: A,
    r: Result<bool, StorageError>,
) -> bool {
    exists|replies: Seq<Result<bool, StorageError>>| #[trigger]
        fanout::asked(was, now, order, a, replies) && fanout::any_answer(replies, order.len(), r)
}

/// `a` was asked of every store of `order`.
pub open spec fn of_all<S: Storage, A: Ask<Answer = ()>>(
    was: Seq<Partition<S>>,
    now: Seq<Partition<S>>,
    order: Seq<usize>,
    a: A,
    r: Result<(), StorageError>,
) -> bool {
    exists|replies: Seq<Result<(), StorageError>>| #[trigger]
        fanout::asked(was, now, order, a, replies) && replies.len() == order.len()
            && fanout::all_answer(replies, r)
}

/// The lists of the stores of `order` were put together; the list of a single store
/// may be handed on as it is.
pub open spec fn put_together<S: Storage, K: Key, A: Ask<Answer = Vec<K>>>(
    was: Seq<Partition<S>>,
    now: Seq<Partition<S>>,
    order: Seq<usize>,
    a: A,
    r: Result<Vec<K>, StorageError>,
) -> bool {
    exists|replies: Seq<Result<Vec<K>, StorageError>>| #[trigger]
        fanout::asked(was, now, order, a, replies) && (fanout::union_answer(
            replies,
            order.len(),
            r,
        ) || (order.len() == 1 && replies == seq![r]))
}

/// The call was answered by the stores: they went from `was` to `now` by it.
pub open spec fn served<S: Storage>(
    layout: Layout,
    was: Seq<Partition<S>>,
    call: Call,
    now: Seq<Partition<S>>,
) -> bool {
    match call {
        Call::BlobExists { repo, .. } => exists|a: fanout::BlobExists, r: Result<bool, StorageError>| #[trigger]
            until_true(was, now, layout.reads(repo), a, r) && a.call(r) == call,
        Call::BlobSize { repo, .. } => exists|a: fanout::BlobSize, r: Result<u64, StorageError>| #[trigger]
            until_found(was, now, layout.reads(repo), a, r) && a.call(r) == call,
        Call::BlobRead { repo, .. } => exists|a: fanout::BlobRead, r: Result<Vec<u8>, StorageError>| #[trigger]
            until_found(was, now, layout.reads(repo), a, r) && a.call(r) == call,
        Call::BlobWrite { repo, .. } => exists|a: fanout::BlobWrite, r: Result<(), StorageError>| #[trigger]
            alone(was, now, layout.writes(repo), a, r) && a.call(r) == call,
        Call::BlobDelete { repo, .. } => exists|a: fanout::BlobDelete, r: Result<(), StorageError>| #[trigger]
            of_all(was, now, layout.holds(repo), a, r) && a.call(r) == call,
        Call::UploadCreate { repo, .. } => exists|a: fanout::UploadCreate, r: Result<UploadStatus, StorageError>| #[trigger]
            alone(was, now, layout.writes(repo), a, r) && a.call(r) == call,
        Call::UploadState { repo, .. } => exists|a: fanout::UploadState, r: Result<UploadStatus, StorageError>| #[trigger]
            alone(was, now, layout.writes(repo), a, r) && a.call(r) == call,
        Call::UploadAppend { repo, .. } => exists|a: fanout::UploadAppend, r: Result<UploadStatus, StorageError>| #[trigger]
            alone(was, now, layout.writes(repo), a, r) && a.call(r) == call,
        Call::UploadFinalize { repo, .. } => exists|a: fanout::UploadFinalize, r: Result<(), StorageError>| #[trigger]
            alone(was, now, layout.writes(repo), a, r) && a.call(r) == call,
        Call::UploadCancel { repo, .. } => exists|a: fanout::UploadCancel, r: Result<(), StorageError>| #[trigger]
            alone(was, now, layout.writes(repo), a, r) && a.call(r) == call,
        Call::ManifestGet { repo, .. } => exists|a: fanout::ManifestGet, r: Result<StoredManifest, StorageError>| #[trigger]
            until_found(was, now, layout.reads(repo), a, r) && a.call(r) == call,
        Call::ManifestPut { repo, .. } => exists|a: fanout::ManifestPut, r: Result<Digest, StorageError>| #[trigger]
            alone(was, now, layout.writes(repo), a, r) && a.call(r) == call,
        Call::ManifestDelete { repo, .. } => exists|a: fanout::ManifestDelete, r: Result<(), StorageError>| #[trigger]
            of_all(was, now, layout.holds(repo), a, r) && a.call(r) == call,
        Call::ListRepos { .. } => exists|r: Result<Vec<String>, StorageError>| #[trigger]
            put_together(was, now, layout.everywhere(), fanout::ListRepos, r) && fanout::ListRepos.call(r) == call,
        Call::ListTags { repo, .. } => exists|a: fanout::ListTags, r: Result<Vec<String>, StorageError>| #[trigger]
            put_together(was, now, layout.holds(repo), a, r) && a.call(r) == call,
        Call::ListManifestDigests { repo, .. } => exists|a: fanout::ListManifestDigests, r: Result<Vec<Digest>, StorageError>| #[trigger]
            put_together(was, now, layout.holds(repo), a, r) && a.call(r) == call,
        Call::ListAllBlobs { .. } => exists|r: Result<Vec<Digest>, StorageError>| #[trigger]
            put_together(was, now, layout.everywhere(), fanout::ListAllBlobs, r) && fanout::ListAllBlobs.call(r) == call,
    }
}

/// The states that a store with this layout went through since the call at `base` of
/// its record.
pub struct Trail<L, T> {
    pub layout: L,
    pub base: nat,
    pub states: Seq<T>,
}

/// Where a trail began.
pub struct Start<L, T> {
    pub layout: L,
    pub base: nat,
    pub stores: T,
}

/// A trail that begins with these stores, after `n` calls.
pub open spec fn begun<L, T>(layout: L, n: nat, stores: T) -> Trail<L, T> {
    Trail { layout, base: n, states: seq![stores] }
}

impl<L, T> Trail<L, T> {
    /// The trail leads to these stores.
    pub open spec fn leads_to(self, layout: L, stores: T) -> bool {
        self.layout == layout && self.states.len() > 0 && self.states.last() == stores
    }

    /// The trail of a store with this layout and these stores, after `n` calls: this
    /// one where it leads there, else a new one.
    pub open spec fn current(self, layout: L, n: nat, stores: T) -> Trail<L, T> {
        if self.leads_to(layout, stores) {
            self
        } else {
            begun(layout, n, stores)
        }
    }

    pub open spec fn start(self) -> Start<L, T> {
        Start { layout: self.layout, base: self.base, stores: self.states[0] }
    }

    /// The trail after one more call.
    pub open spec fn onward(self, stores: T) -> Trail<L, T> {
        Trail { layout: self.layout, base: self.base, states: self.states.push(stores) }
    }
}

/// The stores went through `states` by `calls`.
pub open spec fn led<S: Storage>(
    layout: Layout,
    states: Seq<Seq<Partition<S>>>,
    calls: Seq<Call>,
) -> bool {
    &&& states.len() == calls.len() + 1
    &&& forall|i: int|
        0 <= i < calls.len() ==> served(layout, states[i], #[trigger] calls[i], states[i + 1])
}

/// The trail accounts for every call since it began.
pub open spec fn traced<S: Storage>(t: Trail<Layout, Seq<Partition<S>>>, log: Seq<Call>) -> bool {
    t.base <= log.len() && led(t.layout, t.states, log.skip(t.base as int))
}

/// The stores went from `was` to `now` by `calls`.
pub open spec fn followed<S: Storage>(
    layout: Layout,
    was: Seq<Partition<S>>,
    calls: Seq<Call>,
    now: Seq<Partition<S>>,
) -> bool {
    exists|states: Seq<Seq<Partition<S>>>| #[trigger]
        led(layout, states, calls) && states[0] == was && states.last() == now
}

pub proof fn lemma_begun<S: Storage>(layout: Layout, log: Seq<Call>, stores: Seq<Partition<S>>)
    ensures
        traced(begun(layout, log.len(), stores), log),
{
    assert(log.skip(log.len() as int) =~= Seq::empty());
}

/// A call that was served carries a trail on.
pub proof fn lemma_onward<S: Storage>(
    t: Trail<Layout, Seq<Partition<S>>>,
    log: Seq<Call>,
    was: Seq<Partition<S>>,
    call: Call,
    now: Seq<Partition<S>>,
)
    requires
        traced(t, log),
        t.states.last() == was,
        served(t.layout, was, call, now),
    ensures
        traced(t.onward(now), log.push(call)),
        t.onward(now).leads_to(t.layout, now),
        t.onward(now).start() == t.start(),
{
    let n = t.onward(now);
    let a = log.skip(t.base as int);
    let b = log.push(call).skip(t.base as int);
    assert(b =~= a.push(call));
    assert forall|i: int| 0 <= i < b.len() implies served(
        n.layout,
        n.states[i],
        #[trigger] b[i],
        n.states[i + 1],
    ) by {
        if i < a.len() {
            assert(b[i] == a[i]);
            assert(n.states[i] == t.states[i]);
            assert(n.states[i + 1] == t.states[i + 1]);
        }
    }
}

/// A trail that began when the record was `old` tells how the stores came to be what
/// they are.
pub proof fn lemma_followed<S: Storage>(
    t: Trail<Layout, Seq<Partition<S>>>,
    old_log: Seq<Call>,
    log: Seq<Call>,
    stores: Seq<Partition<S>>,
)
    requires
        traced(t, log),
        t.leads_to(t.layout, stores),
        t.base == old_log.len(),
        storage::extends(old_log, log),
    ensures
        followed(t.layout, t.states[0], storage::added(old_log, log), stores),
{
    assert(storage::added(old_log, log) =~= log.skip(t.base as int));
    assert(led(t.layout, t.states, storage::added(old_log, log)));
}

} // verus!
