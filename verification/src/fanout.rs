//! One operation asked of several stores in turn.
//!
//! `Ask` is an operation with its arguments. The functions here ask it of chosen
//! members of a list of stores, in a given order, and combine the answers.

use vstd::prelude::*;

use crate::digest::Digest;
use crate::order;
use crate::order::{Key, SortedSet};
use crate::storage;
use crate::storage::{Call, Reference, Storage, StorageError, StoredManifest, UploadStatus};

verus! {

/// A named store.
#[derive(Debug, Clone)]
pub struct Partition<S> {
    pub name: String,
    pub storage: S,
}

/// An operation with its arguments.
pub trait Ask: Sized {
    type Answer;

    /// The record of this operation answered by `reply`.
    spec fn call(&self, reply: Result<Self::Answer, StorageError>) -> Call;

    fn ask<S: Storage>(&self, store: &mut S) -> (r: Result<Self::Answer, StorageError>)
        requires
            old(store).wf(),
        ensures
            final(store).wf(),
            final(store).log() == old(store).log().push(self.call(r)),
    ;
}

pub struct BlobExists<'a> {
    pub repo: &'a str,
    pub digest: &'a Digest,
}

impl<'a> Ask for BlobExists<'a> {
    type Answer = bool;

    open spec fn call(&self, reply: Result<bool, StorageError>) -> Call {
        Call::BlobExists { repo: self.repo@, digest: self.digest@, reply }
    }

    fn ask<S: Storage>(&self, store: &mut S) -> (r: Result<bool, StorageError>) {
        store.blob_exists(self.repo, self.digest)
    }
}

pub struct BlobSize<'a> {
    pub repo: &'a str,
    pub digest: &'a Digest,
}

impl<'a> Ask for BlobSize<'a> {
    type Answer = u64;

    open spec fn call(&self, reply: Result<u64, StorageError>) -> Call {
        Call::BlobSize { repo: self.repo@, digest: self.digest@, reply }
    }

    fn ask<S: Storage>(&self, store: &mut S) -> (r: Result<u64, StorageError>) {
        store.blob_size(self.repo, self.digest)
    }
}

pub struct BlobRead<'a> {
    pub repo: &'a str,
    pub digest: &'a Digest,
}

impl<'a> Ask for BlobRead<'a> {
    type Answer = Vec<u8>;

    open spec fn call(&self, reply: Result<Vec<u8>, StorageError>) -> Call {
        Call::BlobRead {
            repo: self.repo@,
            digest: self.digest@,
            reply: storage::bytes_reply(reply),
        }
    }

    fn ask<S: Storage>(&self, store: &mut S) -> (r: Result<Vec<u8>, StorageError>) {
        store.blob_read(self.repo, self.digest)
    }
}

pub struct BlobDelete<'a> {
    pub repo: &'a str,
    pub digest: &'a Digest,
}

impl<'a> Ask for BlobDelete<'a> {
    type Answer = ();

    open spec fn call(&self, reply: Result<(), StorageError>) -> Call {
        Call::BlobDelete { repo: self.repo@, digest: self.digest@, reply }
    }

    fn ask<S: Storage>(&self, store: &mut S) -> (r: Result<(), StorageError>) {
        store.blob_delete(self.repo, self.digest)
    }
}

pub struct BlobWrite<'a> {
    pub repo: &'a str,
    pub digest: &'a Digest,
    pub content: &'a [u8],
}

impl<'a> Ask for BlobWrite<'a> {
    type Answer = ();

    open spec fn call(&self, reply: Result<(), StorageError>) -> Call {
        Call::BlobWrite {
            repo: self.repo@,
            digest: self.digest@,
            content: self.content@,
            reply,
        }
    }

    fn ask<S: Storage>(&self, store: &mut S) -> (r: Result<(), StorageError>) {
        store.blob_write(self.repo, self.digest, self.content)
    }
}

pub struct UploadCreate<'a> {
    pub repo: &'a str,
}

impl<'a> Ask for UploadCreate<'a> {
    type Answer = UploadStatus;

    open spec fn call(&self, reply: Result<UploadStatus, StorageError>) -> Call {
        Call::UploadCreate { repo: self.repo@, reply }
    }

    fn ask<S: Storage>(&self, store: &mut S) -> (r: Result<UploadStatus, StorageError>) {
        store.upload_create(self.repo)
    }
}

pub struct UploadState<'a> {
    pub repo: &'a str,
    pub id: u128,
}

impl<'a> Ask for UploadState<'a> {
    type Answer = UploadStatus;

    open spec fn call(&self, reply: Result<UploadStatus, StorageError>) -> Call {
        Call::UploadState { repo: self.repo@, id: self.id, reply }
    }

    fn ask<S: Storage>(&self, store: &mut S) -> (r: Result<UploadStatus, StorageError>) {
        store.upload_status(self.repo, self.id)
    }
}

pub struct UploadAppend<'a> {
    pub repo: &'a str,
    pub id: u128,
    pub chunk: &'a [u8],
}

impl<'a> Ask for UploadAppend<'a> {
    type Answer = UploadStatus;

    open spec fn call(&self, reply: Result<UploadStatus, StorageError>) -> Call {
        Call::UploadAppend { repo: self.repo@, id: self.id, chunk: self.chunk@, reply }
    }

    fn ask<S: Storage>(&self, store: &mut S) -> (r: Result<UploadStatus, StorageError>) {
        store.upload_append(self.repo, self.id, self.chunk)
    }
}

pub struct UploadFinalize<'a> {
    pub repo: &'a str,
    pub id: u128,
    pub digest: &'a Digest,
}

impl<'a> Ask for UploadFinalize<'a> {
    type Answer = ();

    open spec fn call(&self, reply: Result<(), StorageError>) -> Call {
        Call::UploadFinalize { repo: self.repo@, id: self.id, digest: self.digest@, reply }
    }

    fn ask<S: Storage>(&self, store: &mut S) -> (r: Result<(), StorageError>) {
        store.upload_finalize(self.repo, self.id, self.digest)
    }
}

pub struct UploadCancel<'a> {
    pub repo: &'a str,
    pub id: u128,
}

impl<'a> Ask for UploadCancel<'a> {
    type Answer = ();

    open spec fn call(&self, reply: Result<(), StorageError>) -> Call {
        Call::UploadCancel { repo: self.repo@, id: self.id, reply }
    }

    fn ask<S: Storage>(&self, store: &mut S) -> (r: Result<(), StorageError>) {
        store.upload_cancel(self.repo, self.id)
    }
}

pub struct ManifestPut<'a> {
    pub repo: &'a str,
    pub reference: &'a Reference,
    pub content: &'a [u8],
}

impl<'a> Ask for ManifestPut<'a> {
    type Answer = Digest;

    open spec fn call(&self, reply: Result<Digest, StorageError>) -> Call {
        Call::ManifestPut {
            repo: self.repo@,
            reference: self.reference@,
            content: self.content@,
            reply: storage::digest_reply(reply),
        }
    }

    fn ask<S: Storage>(&self, store: &mut S) -> (r: Result<Digest, StorageError>) {
        store.manifest_put(self.repo, self.reference, self.content)
    }
}

pub struct ManifestGet<'a> {
    pub repo: &'a str,
    pub reference: &'a Reference,
}

impl<'a> Ask for ManifestGet<'a> {
    type Answer = StoredManifest;

    open spec fn call(&self, reply: Result<StoredManifest, StorageError>) -> Call {
        Call::ManifestGet {
            repo: self.repo@,
            reference: self.reference@,
            reply: storage::manifest_reply(reply),
        }
    }

    fn ask<S: Storage>(&self, store: &mut S) -> (r: Result<StoredManifest, StorageError>) {
        store.manifest_get(self.repo, self.reference)
    }
}

pub struct ManifestDelete<'a> {
    pub repo: &'a str,
    pub reference: &'a Reference,
}

impl<'a> Ask for ManifestDelete<'a> {
    type Answer = ();

    open spec fn call(&self, reply: Result<(), StorageError>) -> Call {
        Call::ManifestDelete { repo: self.repo@, reference: self.reference@, reply }
    }

    fn ask<S: Storage>(&self, store: &mut S) -> (r: Result<(), StorageError>) {
        store.manifest_delete(self.repo, self.reference)
    }
}

pub struct ListRepos;

impl Ask for ListRepos {
    type Answer = Vec<String>;

    open spec fn call(&self, reply: Result<Vec<String>, StorageError>) -> Call {
        Call::ListRepos { reply: storage::list_reply(reply) }
    }

    fn ask<S: Storage>(&self, store: &mut S) -> (r: Result<Vec<String>, StorageError>) {
        store.list_repos()
    }
}

pub struct ListTags<'a> {
    pub repo: &'a str,
}

impl<'a> Ask for ListTags<'a> {
    type Answer = Vec<String>;

    open spec fn call(&self, reply: Result<Vec<String>, StorageError>) -> Call {
        Call::ListTags { repo: self.repo@, reply: storage::list_reply(reply) }
    }

    fn ask<S: Storage>(&self, store: &mut S) -> (r: Result<Vec<String>, StorageError>) {
        store.list_tags(self.repo)
    }
}

pub struct ListManifestDigests<'a> {
    pub repo: &'a str,
}

impl<'a> Ask for ListManifestDigests<'a> {
    type Answer = Vec<Digest>;

    open spec fn call(&self, reply: Result<Vec<Digest>, StorageError>) -> Call {
        Call::ListManifestDigests { repo: self.repo@, reply: storage::list_reply(reply) }
    }

    fn ask<S: Storage>(&self, store: &mut S) -> (r: Result<Vec<Digest>, StorageError>) {
        store.list_manifest_digests(self.repo)
    }
}

pub struct ListAllBlobs;

impl Ask for ListAllBlobs {
    type Answer = Vec<Digest>;

    open spec fn call(&self, reply: Result<Vec<Digest>, StorageError>) -> Call {
        Call::ListAllBlobs { reply: storage::list_reply(reply) }
    }

    fn ask<S: Storage>(&self, store: &mut S) -> (r: Result<Vec<Digest>, StorageError>) {
        store.list_all_blobs()
    }
}

/// Every store of the list is well formed.
pub open spec fn all_wf<S: Storage>(parts: Seq<Partition<S>>) -> bool {
    forall|i: int| 0 <= i < parts.len() ==> (#[trigger] parts[i]).storage.wf()
}

/// Distinct places in a list of `n`.
pub open spec fn places(order: Seq<usize>, n: nat) -> bool {
    &&& forall|i: int| 0 <= i < order.len() ==> #[trigger] order[i] < n
    &&& forall|i: int, j: int| 0 <= i < j < order.len() ==> order[i] != order[j]
}

/// The stores at the first places of `order` were asked `a`, each once, and
/// answered with `replies` in turn; nothing else happened to the list.
pub open spec fn asked<S: Storage, A: Ask>(
    was: Seq<Partition<S>>,
    now: Seq<Partition<S>>,
    order: Seq<usize>,
    a: A,
    replies: Seq<Result<A::Answer, StorageError>>,
) -> bool {
    &&& now.len() == was.len()
    &&& replies.len() <= order.len()
    &&& forall|p: int| 0 <= p < was.len() ==> (#[trigger] now[p]).name == was[p].name
    &&& forall|i: int|
        0 <= i < replies.len() ==> now[order[i] as int].storage.log()
            == was[order[i] as int].storage.log().push(a.call(#[trigger] replies[i]))
    &&& forall|p: int|
        0 <= p < was.len() && (forall|i: int| 0 <= i < replies.len() ==> order[i] != p)
            ==> #[trigger] now[p] == was[p]
}

/// Asks one store.
pub fn ask_one<S: Storage, A: Ask>(parts: &mut Vec<Partition<S>>, at: usize, a: &A) -> (r: Result<
    A::Answer,
    StorageError,
>)
    requires
        at < old(parts)@.len(),
        all_wf(old(parts)@),
    ensures
        all_wf(final(parts)@),
        asked(old(parts)@, final(parts)@, seq![at], *a, seq![r]),
{
    let r = a.ask(&mut parts[at].storage);
    proof {
        let was = old(parts)@;
        let now = parts@;
        assert forall|i: int| 0 <= i < 1 implies now[seq![at][i] as int].storage.log()
            == was[seq![at][i] as int].storage.log().push(a.call(#[trigger] seq![r][i])) by {
        }
        assert forall|p: int|
            0 <= p < was.len() && (forall|i: int| 0 <= i < seq![r].len() ==> seq![at][i]
                != p) implies #[trigger] now[p] == was[p] by {
            assert(seq![at][0] != p);
        }
    }
    r
}

/// What reading in turn gives: the first answer other than `NotFound`, or
/// `NotFound` when all of the `n` stores gave that.
pub open spec fn first_answer<T>(
    replies: Seq<Result<T, StorageError>>,
    n: nat,
    r: Result<T, StorageError>,
) -> bool {
    &&& 0 < replies.len() <= n
    &&& forall|i: int| 0 <= i < replies.len() - 1 ==> #[trigger] replies[i] == Err::<T, _>(
        StorageError::NotFound,
    )
    &&& r == replies.last()
    &&& r == Err::<T, StorageError>(StorageError::NotFound) ==> replies.len() == n
}

proof fn lemma_asked_step<S: Storage, A: Ask>(
    first: Seq<Partition<S>>,
    was: Seq<Partition<S>>,
    now: Seq<Partition<S>>,
    order: Seq<usize>,
    a: A,
    replies: Seq<Result<A::Answer, StorageError>>,
    r: Result<A::Answer, StorageError>,
)
    requires
        places(order, first.len()),
        asked(first, was, order, a, replies),
        replies.len() < order.len(),
        asked(was, now, seq![order[replies.len() as int]], a, seq![r]),
    ensures
        asked(first, now, order, a, replies.push(r)),
{
    let at = order[replies.len() as int];
    let one = seq![at];
    let all = replies.push(r);
    assert(one[0] == at);
    assert(was[at as int] == first[at as int]);
    assert(now[one[0] as int].storage.log() == was[one[0] as int].storage.log().push(
        a.call(seq![r][0]),
    ));
    assert forall|p: int| 0 <= p < first.len() implies (#[trigger] now[p]).name == first[p].name by {
        assert(was[p].name == first[p].name);
    }
    assert forall|i: int| 0 <= i < all.len() implies now[order[i] as int].storage.log()
        == first[order[i] as int].storage.log().push(a.call(#[trigger] all[i])) by {
        if i < replies.len() {
            assert(all[i] == replies[i]);
            assert(order[i] != at);
            assert(now[order[i] as int] == was[order[i] as int]);
        }
    }
    assert forall|p: int|
        0 <= p < first.len() && (forall|i: int| 0 <= i < all.len() ==> order[i] != p) implies now[p]
        == first[p] by {
        assert(order[replies.len() as int] != p);
        assert(now[p] == was[p]);
        assert forall|i: int| 0 <= i < replies.len() implies order[i] != p by {
            assert(i < all.len());
        }
        assert(was[p] == first[p]);
    }
}

proof fn lemma_asked_none<S: Storage, A: Ask>(s: Seq<Partition<S>>, order: Seq<usize>, a: A)
    ensures
        asked(s, s, order, a, Seq::<Result<A::Answer, StorageError>>::empty()),
{
}

/// Asks stores in turn until one answers other than `NotFound`.
pub fn ask_until_found<S: Storage, A: Ask>(
    parts: &mut Vec<Partition<S>>,
    order: &Vec<usize>,
    a: &A,
) -> (r: Result<A::Answer, StorageError>)
    requires
        order@.len() > 0,
        places(order@, old(parts)@.len()),
        all_wf(old(parts)@),
    ensures
        all_wf(final(parts)@),
        exists|replies: Seq<Result<A::Answer, StorageError>>|
            #![trigger asked(old(parts)@, final(parts)@, order@, *a, replies)]
            asked(old(parts)@, final(parts)@, order@, *a, replies) && first_answer(
                replies,
                order@.len(),
                r,
            ),
{
    let ghost first = parts@;
    let ghost mut replies: Seq<Result<A::Answer, StorageError>> = Seq::empty();
    proof {
        lemma_asked_none::<S, A>(first, order@, *a);
    }
    let n: usize = order.len();
    let mut i: usize = 0;
    loop
        invariant
            i < n,
            n == order@.len(),
            first == old(parts)@,
            all_wf(parts@),
            places(order@, first.len()),
            asked(first, parts@, order@, *a, replies),
            replies.len() == i,
            forall|j: int| 0 <= j < i ==> #[trigger] replies[j] == Err::<A::Answer, _>(
                StorageError::NotFound,
            ),
        decreases n - i,
    {
        let ghost was = parts@;
        let r = ask_one(parts, order[i], a);
        let ghost before = replies;
        proof {
            lemma_asked_step(first, was, parts@, order@, *a, replies, r);
            replies = replies.push(r);
            assert(replies.last() == r);
        }
        match r {
            Err(StorageError::NotFound) => {
                i = i + 1;
                if i == n {
                    assert(first_answer(replies, order@.len(), r));
                    return r;
                }
            },
            _ => {
                assert(first_answer(replies, order@.len(), r));
                return r;
            },
        }
    }
}

/// What asking for existence in turn gives: the first `true` or failure, and
/// `false` when all of the `n` stores said so.
pub open spec fn any_answer(
    replies: Seq<Result<bool, StorageError>>,
    n: nat,
    r: Result<bool, StorageError>,
) -> bool {
    &&& forall|i: int| 0 <= i < replies.len() - 1 ==> #[trigger] replies[i] == Ok::<bool, StorageError>(
        false,
    )
    &&& replies.len() > 0 ==> r == replies.last()
    &&& replies.len() == 0 ==> r == Ok::<bool, StorageError>(false)
    &&& r == Ok::<bool, StorageError>(false) ==> replies.len() == n
}

/// Asks stores in turn until one says `true` or fails.
pub fn ask_until_true<S: Storage, A: Ask<Answer = bool>>(
    parts: &mut Vec<Partition<S>>,
    order: &Vec<usize>,
    a: &A,
) -> (r: Result<bool, StorageError>)
    requires
        places(order@, old(parts)@.len()),
        all_wf(old(parts)@),
    ensures
        all_wf(final(parts)@),
        exists|replies: Seq<Result<bool, StorageError>>|
            #![trigger asked(old(parts)@, final(parts)@, order@, *a, replies)]
            asked(old(parts)@, final(parts)@, order@, *a, replies) && any_answer(
                replies,
                order@.len(),
                r,
            ),
{
    let ghost first = parts@;
    let ghost mut replies: Seq<Result<bool, StorageError>> = Seq::empty();
    proof {
        lemma_asked_none::<S, A>(first, order@, *a);
    }
    let mut i: usize = 0;
    while i < order.len()
        invariant
            i <= order@.len(),
            first == old(parts)@,
            all_wf(parts@),
            places(order@, first.len()),
            asked(first, parts@, order@, *a, replies),
            replies.len() == i,
            forall|j: int| 0 <= j < i ==> #[trigger] replies[j] == Ok::<bool, StorageError>(false),
        decreases order@.len() - i,
    {
        let ghost was = parts@;
        let r = ask_one(parts, order[i], a);
        proof {
            lemma_asked_step(first, was, parts@, order@, *a, replies, r);
            replies = replies.push(r);
            assert(replies.last() == r);
        }
        match r {
            Ok(false) => {
                i = i + 1;
            },
            _ => {
                assert(any_answer(replies, order@.len(), r));
                return r;
            },
        }
    }
    let r: Result<bool, StorageError> = Ok(false);
    assert(any_answer(replies, order@.len(), r));
    r
}

/// What doing something everywhere gives: the last failure other than `NotFound`, so
/// that success means that none is left out; else success when one store succeeded, else
/// `NotFound`.
pub open spec fn all_answer(
    replies: Seq<Result<(), StorageError>>,
    r: Result<(), StorageError>,
) -> bool {
    if last_failure(replies) == Err::<(), _>(StorageError::NotFound) && exists|i: int|
        0 <= i < replies.len() && #[trigger] replies[i] is Ok {
        r is Ok
    } else {
        r == last_failure(replies)
    }
}

/// The last answer that is a failure other than `NotFound`, else `NotFound`.
pub open spec fn last_failure(replies: Seq<Result<(), StorageError>>) -> Result<(), StorageError>
    decreases replies.len(),
{
    if replies.len() == 0 {
        Err(StorageError::NotFound)
    } else if replies.last() is Err && replies.last() != Err::<(), _>(StorageError::NotFound) {
        replies.last()
    } else {
        last_failure(replies.drop_last())
    }
}

/// Asks every store, whatever the others answer.
pub fn ask_all<S: Storage, A: Ask<Answer = ()>>(
    parts: &mut Vec<Partition<S>>,
    order: &Vec<usize>,
    a: &A,
) -> (r: Result<(), StorageError>)
    requires
        places(order@, old(parts)@.len()),
        all_wf(old(parts)@),
    ensures
        all_wf(final(parts)@),
        exists|replies: Seq<Result<(), StorageError>>|
            #![trigger asked(old(parts)@, final(parts)@, order@, *a, replies)]
            asked(old(parts)@, final(parts)@, order@, *a, replies) && replies.len()
                == order@.len() && all_answer(replies, r),
{
    let ghost first = parts@;
    let ghost mut replies: Seq<Result<(), StorageError>> = Seq::empty();
    proof {
        lemma_asked_none::<S, A>(first, order@, *a);
    }
    let mut done = false;
    let mut failed: Option<StorageError> = None;
    let mut i: usize = 0;
    while i < order.len()
        invariant
            i <= order@.len(),
            first == old(parts)@,
            all_wf(parts@),
            places(order@, first.len()),
            asked(first, parts@, order@, *a, replies),
            replies.len() == i,
            done <==> exists|j: int| 0 <= j < replies.len() && #[trigger] replies[j] is Ok,
            match failed {
                Some(e) => e != StorageError::NotFound && last_failure(replies) == Err::<(), _>(e),
                None => last_failure(replies) == Err::<(), _>(StorageError::NotFound),
            },
        decreases order@.len() - i,
    {
        let ghost was = parts@;
        let r = ask_one(parts, order[i], a);
        let ghost before = replies;
        proof {
            lemma_asked_step(first, was, parts@, order@, *a, replies, r);
            replies = replies.push(r);
            assert(replies.last() == r);
            assert(replies.drop_last() =~= before);
            assert forall|j: int| 0 <= j < before.len() implies replies[j] == #[trigger] before[j] by {
            }
            if r is Ok {
                assert(replies[i as int] is Ok);
            }
            if exists|j: int| 0 <= j < before.len() && #[trigger] before[j] is Ok {
                let j = choose|j: int| 0 <= j < before.len() && #[trigger] before[j] is Ok;
                assert(replies[j] is Ok);
            }
        }
        match r {
            Ok(()) => {
                done = true;
            },
            Err(StorageError::NotFound) => {},
            Err(e) => {
                failed = Some(e);
            },
        }
        i = i + 1;
    }
    let r: Result<(), StorageError> = match failed {
        Some(e) => Err(e),
        None => if done {
            Ok(())
        } else {
            Err(StorageError::NotFound)
        },
    };
    assert(all_answer(replies, r));
    r
}

/// The members of all the lists that were given.
pub open spec fn union_of<K: View>(replies: Seq<Result<Vec<K>, StorageError>>) -> Set<K::V>
    decreases replies.len(),
{
    if replies.len() == 0 {
        Set::empty()
    } else {
        union_of(replies.drop_last()).union(
            match replies.last() {
                Ok(v) => order::views_of(v@).to_set(),
                Err(_) => Set::empty(),
            },
        )
    }
}

/// What a listing over `n` stores gives: all members of all lists, sorted and each
/// once; or the first failure.
pub open spec fn union_answer<K: Key>(
    replies: Seq<Result<Vec<K>, StorageError>>,
    n: nat,
    r: Result<Vec<K>, StorageError>,
) -> bool {
    &&& forall|i: int| 0 <= i < replies.len() - 1 ==> #[trigger] replies[i] is Ok
    &&& match r {
        Ok(v) => {
            &&& replies.len() == n
            &&& n > 0 ==> replies.last() is Ok
            &&& order::increasing(v@)
            &&& order::views_of(v@).to_set() == union_of(replies)
        },
        Err(e) => replies.len() > 0 && replies.last() == r,
    }
}

/// Asks every store for its list and joins the lists.
pub fn ask_union<S: Storage, K: Key, A: Ask<Answer = Vec<K>>>(
    parts: &mut Vec<Partition<S>>,
    order: &Vec<usize>,
    a: &A,
) -> (r: Result<Vec<K>, StorageError>)
    requires
        places(order@, old(parts)@.len()),
        all_wf(old(parts)@),
    ensures
        all_wf(final(parts)@),
        exists|replies: Seq<Result<Vec<K>, StorageError>>|
            #![trigger asked(old(parts)@, final(parts)@, order@, *a, replies)]
            asked(old(parts)@, final(parts)@, order@, *a, replies) && union_answer(
                replies,
                order@.len(),
                r,
            ),
{
    let ghost first = parts@;
    let ghost mut replies: Seq<Result<Vec<K>, StorageError>> = Seq::empty();
    proof {
        lemma_asked_none::<S, A>(first, order@, *a);
    }
    let mut set: SortedSet<K> = SortedSet::new();
    let mut i: usize = 0;
    while i < order.len()
        invariant
            i <= order@.len(),
            first == old(parts)@,
            all_wf(parts@),
            places(order@, first.len()),
            asked(first, parts@, order@, *a, replies),
            replies.len() == i,
            forall|j: int| 0 <= j < i ==> #[trigger] replies[j] is Ok,
            set.wf(),
            set@ == union_of(replies),
        decreases order@.len() - i,
    {
        let ghost was = parts@;
        let ghost before = replies;
        let r = ask_one(parts, order[i], a);
        proof {
            lemma_asked_step(first, was, parts@, order@, *a, replies, r);
            replies = replies.push(r);
            assert(replies.last() == r);
            assert(replies.drop_last() =~= before);
        }
        match r {
            Ok(list) => {
                set.insert_all(list);
            },
            Err(e) => {
                let r: Result<Vec<K>, StorageError> = Err(e);
                assert(union_answer(replies, order@.len(), r));
                return r;
            },
        }
        i = i + 1;
    }
    let r: Result<Vec<K>, StorageError> = Ok(set.items);
    assert(union_answer(replies, order@.len(), r));
    r
}

} // verus!
