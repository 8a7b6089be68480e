//! Several stores that work, asked as one.
//!
//! The laws are over `fanout::asked` and the answers that are made of the replies, as
//! the contracts of `MultiStore` and `RepoRouter` are: there `order` is the order in
//! which partitions are read, or the chain of volumes on which a repository is placed.

use vstd::prelude::*;

use crate::digest::{Digest, DigestView};
use crate::fanout;
use crate::fanout::{Ask, Partition};
use crate::model;
use crate::model::{Holdings, Reading};
use crate::order;
use crate::storage;
use crate::storage::{Call, Reference, Storage, StorageError, StoredManifest};

verus! {

/// A store that works held `a` before these calls and holds `b` after them.
pub open spec fn came_from(read: Reading, a: Holdings, calls: Seq<Call>, b: Holdings) -> bool {
    exists|path: Seq<Holdings>| #[trigger]
        model::works(read, path, calls) && path[0] == a && path.last() == b
}

/// Stores that work held `h` and hold `h2` after the calls that were added.
pub open spec fn evolves<S: Storage>(
    read: Reading,
    was: Seq<Partition<S>>,
    now: Seq<Partition<S>>,
    h: Seq<Holdings>,
    h2: Seq<Holdings>,
) -> bool {
    &&& h.len() == was.len()
    &&& h2.len() == was.len()
    &&& forall|i: int|
        0 <= i < was.len() ==> came_from(
            read,
            #[trigger] h[i],
            storage::added(was[i].storage.log(), now[i].storage.log()),
            h2[i],
        )
}

/// Every store has the calls of before on its record, and perhaps more.
pub open spec fn grew<S: Storage>(was: Seq<Partition<S>>, now: Seq<Partition<S>>) -> bool {
    &&& now.len() == was.len()
    &&& forall|p: int|
        0 <= p < was.len() ==> storage::extends(
            was[p].storage.log(),
            (#[trigger] now[p]).storage.log(),
        )
}

pub proof fn lemma_grew<S: Storage>(
    a: Seq<Partition<S>>,
    b: Seq<Partition<S>>,
    c: Seq<Partition<S>>,
)
    requires
        grew(a, b),
        grew(b, c),
    ensures
        grew(a, c),
{
    assert forall|p: int| 0 <= p < a.len() implies storage::extends(
        a[p].storage.log(),
        (#[trigger] c[p]).storage.log(),
    ) by {
        assert(storage::extends(a[p].storage.log(), b[p].storage.log()));
        assert(storage::extends(b[p].storage.log(), c[p].storage.log()));
        assert(c[p].storage.log().subrange(0, a[p].storage.log().len() as int)
            =~= b[p].storage.log().subrange(0, a[p].storage.log().len() as int)) by {
            assert(b[p].storage.log() =~= c[p].storage.log().subrange(
                0,
                b[p].storage.log().len() as int,
            ));
        }
    }
}

pub proof fn lemma_asked_grew<S: Storage, A: Ask>(
    was: Seq<Partition<S>>,
    now: Seq<Partition<S>>,
    order: Seq<usize>,
    a: A,
    replies: Seq<Result<A::Answer, StorageError>>,
)
    requires
        fanout::asked(was, now, order, a, replies),
    ensures
        grew(was, now),
{
    assert forall|p: int| 0 <= p < was.len() implies storage::extends(
        was[p].storage.log(),
        (#[trigger] now[p]).storage.log(),
    ) by {
        let log = was[p].storage.log();
        if exists|i: int| 0 <= i < replies.len() && order[i] == p {
            let i = choose|i: int| 0 <= i < replies.len() && order[i] == p;
            let c = a.call(replies[i]);
            assert(now[p].storage.log() == log.push(c));
            assert(log.push(c).subrange(0, log.len() as int) =~= log);
        } else {
            assert(now[p] == was[p]);
            assert(log.subrange(0, log.len() as int) =~= log);
        }
    }
}

/// What stores that work held in between.
pub proof fn lemma_between<S: Storage>(
    read: Reading,
    was: Seq<Partition<S>>,
    mid: Seq<Partition<S>>,
    now: Seq<Partition<S>>,
    h: Seq<Holdings>,
    h2: Seq<Holdings>,
) -> (hm: Seq<Holdings>)
    requires
        evolves(read, was, now, h, h2),
        grew(was, mid),
        grew(mid, now),
    ensures
        evolves(read, was, mid, h, hm),
        evolves(read, mid, now, hm, h2),
{
    let u = |p: int| storage::added(was[p].storage.log(), mid[p].storage.log());
    let v = |p: int| storage::added(mid[p].storage.log(), now[p].storage.log());
    let hm = Seq::new(
        was.len(),
        |p: int|
            choose|m: Holdings| #[trigger]
                came_from(read, h[p], u(p), m) && came_from(read, m, v(p), h2[p]),
    );
    assert forall|p: int| 0 <= p < was.len() implies came_from(read, h[p], u(p), #[trigger] hm[p])
        && came_from(read, hm[p], v(p), h2[p]) by {
        let a = was[p].storage.log();
        let b = mid[p].storage.log();
        let c = now[p].storage.log();
        assert(storage::extends(a, b));
        assert(storage::extends(b, c));
        let w = storage::added(a, c);
        let k = (b.len() - a.len()) as int;
        assert(came_from(read, h[p], w, h2[p]));
        let path = choose|path: Seq<Holdings>| #[trigger]
            model::works(read, path, w) && path[0] == h[p] && path.last() == h2[p];
        assert(b =~= c.subrange(0, b.len() as int));
        assert(w.subrange(0, k) =~= u(p));
        assert(w.subrange(k, w.len() as int) =~= v(p));
        model::lemma_part(read, path, w, 0, k);
        model::lemma_part(read, path, w, k, w.len() as int);
        assert(came_from(read, h[p], u(p), path[k]));
        assert(came_from(read, path[k], v(p), h2[p]));
    }
    assert forall|i: int| 0 <= i < was.len() implies came_from(
        read,
        #[trigger] h[i],
        storage::added(was[i].storage.log(), mid[i].storage.log()),
        hm[i],
    ) by {
        assert(came_from(read, h[i], u(i), hm[i]));
    }
    assert forall|i: int| 0 <= i < mid.len() implies came_from(
        read,
        #[trigger] hm[i],
        storage::added(mid[i].storage.log(), now[i].storage.log()),
        h2[i],
    ) by {
        assert(came_from(read, hm[i], v(i), h2[i]));
    }
    hm
}

/// A store that was asked once answers as one that works; one that was not asked
/// holds the same.
pub proof fn lemma_asked<S: Storage, A: Ask>(
    read: Reading,
    was: Seq<Partition<S>>,
    now: Seq<Partition<S>>,
    h: Seq<Holdings>,
    h2: Seq<Holdings>,
    order: Seq<usize>,
    a: A,
    replies: Seq<Result<A::Answer, StorageError>>,
)
    requires
        evolves(read, was, now, h, h2),
        fanout::asked(was, now, order, a, replies),
        fanout::places(order, was.len()),
    ensures
        forall|i: int|
            0 <= i < replies.len() ==> model::step(
                read,
                h[order[i] as int],
                a.call(#[trigger] replies[i]),
                h2[order[i] as int],
            ),
        forall|p: int|
            0 <= p < was.len() && (forall|i: int| 0 <= i < replies.len() ==> order[i] != p)
                ==> #[trigger] h2[p] == h[p],
{
    assert forall|i: int| 0 <= i < replies.len() implies model::step(
        read,
        h[order[i] as int],
        a.call(#[trigger] replies[i]),
        h2[order[i] as int],
    ) by {
        let p = order[i] as int;
        let c = a.call(replies[i]);
        assert(order[i] < was.len());
        storage::lemma_added_one(was[p].storage.log(), c);
        assert(came_from(
            read,
            h[p],
            storage::added(was[p].storage.log(), now[p].storage.log()),
            h2[p],
        ));
        let path = choose|path: Seq<Holdings>| #[trigger]
            model::works(read, path, seq![c]) && path[0] == h[p] && path.last() == h2[p];
        assert(model::step(read, path[0], seq![c][0], path[1]));
    }
    assert forall|p: int|
        0 <= p < was.len() && (forall|i: int| 0 <= i < replies.len() ==> order[i] != p) implies #[trigger] h2[p]
        == h[p] by {
        assert(now[p] == was[p]);
        storage::lemma_added_none(was[p].storage.log());
        assert(came_from(read, h[p], Seq::empty(), h2[p]));
    }
}

/// A blob is read exactly when one of the stores holds it, and what is read is what the
/// first that holds it holds.
pub proof fn read_finds_what_any_holds<S: Storage>(
    read: Reading,
    was: Seq<Partition<S>>,
    now: Seq<Partition<S>>,
    h: Seq<Holdings>,
    h2: Seq<Holdings>,
    order: Seq<usize>,
    repo: &str,
    digest: &Digest,
    replies: Seq<Result<Vec<u8>, StorageError>>,
    r: Result<Vec<u8>, StorageError>,
)
    requires
        evolves(read, was, now, h, h2),
        fanout::places(order, was.len()),
        fanout::asked(was, now, order, (fanout::BlobRead { repo, digest }), replies),
        fanout::first_answer(replies, order.len(), r),
    ensures
        h2 == h,
        r is Ok <==> exists|k: int| 0 <= k < order.len() && holds_blob(h, order, digest@, k),
        r is Err ==> r->Err_0 == StorageError::NotFound,
        forall|k: int| #[trigger]
            holds_blob(h, order, digest@, k) && 0 <= k < order.len() && (forall|j: int|
                0 <= j < k ==> !holds_blob(h, order, digest@, j)) ==> r->Ok_0@
                == h[order[k] as int].blobs[digest@],
{
    let a = fanout::BlobRead { repo, digest };
    lemma_asked(read, was, now, h, h2, order, a, replies);
    let n = replies.len() as int;
    assert forall|i: int| 0 <= i < n implies h2[order[i] as int] == h[order[i] as int] && (
    holds_blob(h, order, digest@, i) <==> #[trigger] replies[i] is Ok) by {
        assert(model::step(read, h[order[i] as int], a.call(replies[i]), h2[order[i] as int]));
    }
    assert(h2 =~= h) by {
        assert forall|p: int| 0 <= p < h.len() implies h2[p] == h[p] by {
            if exists|i: int| 0 <= i < n && order[i] == p {
                let i = choose|i: int| 0 <= i < n && order[i] == p;
                assert(replies[i] is Ok || replies[i] is Err);
            }
        }
    }
    assert(model::step(
        read,
        h[order[n - 1] as int],
        a.call(replies[n - 1]),
        h2[order[n - 1] as int],
    ));
    if r is Ok {
        assert(holds_blob(h, order, digest@, n - 1));
    }
    assert forall|k: int|
        #[trigger] holds_blob(h, order, digest@, k) && 0 <= k < order.len() && (forall|j: int|
            0 <= j < k ==> !holds_blob(h, order, digest@, j)) implies r->Ok_0@
        == h[order[k] as int].blobs[digest@] by {
        if k < n {
            assert(replies[k] is Ok);
        } else {
            assert(!holds_blob(h, order, digest@, n - 1));
        }
        assert(k == n - 1);
    }
    assert forall|k: int| 0 <= k < order.len() && holds_blob(h, order, digest@, k) implies r is Ok by {
        if k < n {
            assert(replies[k] is Ok);
        }
    }
}

/// The store at place `k` of the order holds the blob.
pub open spec fn holds_blob(h: Seq<Holdings>, order: Seq<usize>, d: DigestView, k: int) -> bool {
    h[order[k] as int].blobs.contains_key(d)
}

/// The store at place `k` of the order holds the manifest that the reference leads to.
pub open spec fn holds_manifest(
    h: Seq<Holdings>,
    order: Seq<usize>,
    repo: Seq<char>,
    reference: storage::ReferenceView,
    k: int,
) -> bool {
    h[order[k] as int].led_to(repo, reference) is Some
}

/// A manifest is read exactly when a reference leads to one on one of the stores.
pub proof fn read_finds_any_manifest<S: Storage>(
    read: Reading,
    was: Seq<Partition<S>>,
    now: Seq<Partition<S>>,
    h: Seq<Holdings>,
    h2: Seq<Holdings>,
    order: Seq<usize>,
    repo: &str,
    reference: &Reference,
    replies: Seq<Result<StoredManifest, StorageError>>,
    r: Result<StoredManifest, StorageError>,
)
    requires
        evolves(read, was, now, h, h2),
        fanout::places(order, was.len()),
        fanout::asked(was, now, order, (fanout::ManifestGet { repo, reference }), replies),
        fanout::first_answer(replies, order.len(), r),
    ensures
        r is Ok <==> exists|k: int|
            0 <= k < order.len() && holds_manifest(h, order, repo@, reference@, k),
        r is Err ==> r->Err_0 == StorageError::NotFound,
{
    let a = fanout::ManifestGet { repo, reference };
    lemma_asked(read, was, now, h, h2, order, a, replies);
    let n = replies.len() as int;
    assert forall|i: int| 0 <= i < n implies (holds_manifest(h, order, repo@, reference@, i)
        <==> #[trigger] replies[i] is Ok) by {
        assert(model::step(read, h[order[i] as int], a.call(replies[i]), h2[order[i] as int]));
    }
    assert(model::step(
        read,
        h[order[n - 1] as int],
        a.call(replies[n - 1]),
        h2[order[n - 1] as int],
    ));
    if r is Ok {
        assert(replies[n - 1] is Ok);
        assert(holds_manifest(h, order, repo@, reference@, n - 1));
    }
    assert forall|k: int|
        0 <= k < order.len() && holds_manifest(h, order, repo@, reference@, k) implies r is Ok by {
        if k < n {
            assert(replies[k] is Ok);
        }
    }
}

/// A blob that was written to the store that is read first is read back.
pub proof fn written_blob_is_read<S: Storage>(
    read: Reading,
    a: Seq<Partition<S>>,
    b: Seq<Partition<S>>,
    c: Seq<Partition<S>>,
    h0: Seq<Holdings>,
    h1: Seq<Holdings>,
    h2: Seq<Holdings>,
    order: Seq<usize>,
    repo: &str,
    digest: &Digest,
    content: &[u8],
    r1: Result<(), StorageError>,
    replies: Seq<Result<Vec<u8>, StorageError>>,
    r2: Result<Vec<u8>, StorageError>,
)
    requires
        evolves(read, a, b, h0, h1),
        evolves(read, b, c, h1, h2),
        fanout::places(order, a.len()),
        order.len() > 0,
        fanout::asked(
            a,
            b,
            seq![order[0]],
            (fanout::BlobWrite { repo, digest, content }),
            seq![r1],
        ),
        r1 is Ok,
        fanout::asked(b, c, order, (fanout::BlobRead { repo, digest }), replies),
        fanout::first_answer(replies, order.len(), r2),
    ensures
        r2 is Ok,
        r2->Ok_0@ == content@,
{
    let w = fanout::BlobWrite { repo, digest, content };
    lemma_asked(read, a, b, h0, h1, seq![order[0]], w, seq![r1]);
    assert(model::step(
        read,
        h0[order[0] as int],
        w.call(seq![r1][0]),
        h1[order[0] as int],
    ));
    read_finds_what_any_holds(read, b, c, h1, h2, order, repo, digest, replies, r2);
    assert(holds_blob(h1, order, digest@, 0));
}

/// A blob that was deleted from all the stores that are read is not found any more.
pub proof fn deleted_blob_is_not_read<S: Storage>(
    read: Reading,
    a: Seq<Partition<S>>,
    b: Seq<Partition<S>>,
    c: Seq<Partition<S>>,
    h0: Seq<Holdings>,
    h1: Seq<Holdings>,
    h2: Seq<Holdings>,
    all: Seq<usize>,
    order: Seq<usize>,
    repo: &str,
    digest: &Digest,
    told: Seq<Result<(), StorageError>>,
    replies: Seq<Result<Vec<u8>, StorageError>>,
    r: Result<Vec<u8>, StorageError>,
)
    requires
        evolves(read, a, b, h0, h1),
        evolves(read, b, c, h1, h2),
        fanout::places(all, a.len()),
        fanout::places(order, a.len()),
        forall|k: int| 0 <= k < order.len() ==> all.contains(#[trigger] order[k]),
        fanout::asked(a, b, all, (fanout::BlobDelete { repo, digest }), told),
        told.len() == all.len(),
        fanout::asked(b, c, order, (fanout::BlobRead { repo, digest }), replies),
        fanout::first_answer(replies, order.len(), r),
    ensures
        r is Err,
        r->Err_0 == StorageError::NotFound,
{
    let x = fanout::BlobDelete { repo, digest };
    lemma_asked(read, a, b, h0, h1, all, x, told);
    read_finds_what_any_holds(read, b, c, h1, h2, order, repo, digest, replies, r);
    assert forall|k: int| 0 <= k < order.len() implies !holds_blob(h1, order, digest@, k) by {
        assert(all.contains(order[k]));
        let i = choose|i: int| 0 <= i < all.len() && all[i] == order[k];
        assert(model::step(read, h0[all[i] as int], x.call(told[i]), h1[all[i] as int]));
    }
}

/// The list of all blobs is that of every blob that one of the stores holds.
pub proof fn list_is_the_union<S: Storage>(
    read: Reading,
    was: Seq<Partition<S>>,
    now: Seq<Partition<S>>,
    h: Seq<Holdings>,
    h2: Seq<Holdings>,
    places: Seq<usize>,
    replies: Seq<Result<Vec<Digest>, StorageError>>,
    r: Result<Vec<Digest>, StorageError>,
)
    requires
        evolves(read, was, now, h, h2),
        fanout::places(places, was.len()),
        fanout::asked(was, now, places, fanout::ListAllBlobs, replies),
        fanout::union_answer(replies, places.len(), r),
    ensures
        r is Ok,
        forall|d: DigestView| #[trigger]
            order::views_of(r->Ok_0@).to_set().contains(d) <==> exists|k: int|
                0 <= k < places.len() && holds_blob(h, places, d, k),
{
    let a = fanout::ListAllBlobs;
    lemma_asked(read, was, now, h, h2, places, a, replies);
    assert forall|i: int| 0 <= i < replies.len() implies #[trigger] replies[i] is Ok by {
        assert(model::step(read, h[places[i] as int], a.call(replies[i]), h2[places[i] as int]));
    }
    assert(r is Ok);
    assert forall|d: DigestView| #[trigger]
        order::views_of(r->Ok_0@).to_set().contains(d) <==> exists|k: int|
            0 <= k < places.len() && holds_blob(h, places, d, k) by {
        lemma_union(replies, d);
        if fanout::union_of(replies).contains(d) {
            let i = choose|i: int| 0 <= i < replies.len() && listed(#[trigger] replies[i], d);
            assert(model::step(read, h[places[i] as int], a.call(replies[i]), h2[places[i] as int]));
            let told = a.call(replies[i])->ListAllBlobs_reply->Ok_0;
            assert(told == order::views_of(replies[i]->Ok_0@));
            assert(told.contains(d));
            assert(holds_blob(h, places, d, i));
        }
        if exists|k: int| 0 <= k < places.len() && holds_blob(h, places, d, k) {
            let k = choose|k: int| 0 <= k < places.len() && holds_blob(h, places, d, k);
            assert(model::step(read, h[places[k] as int], a.call(replies[k]), h2[places[k] as int]));
            let told = a.call(replies[k])->ListAllBlobs_reply->Ok_0;
            assert(told.contains(d));
            assert(listed(replies[k], d));
        }
    }
}

/// The reply lists `d`.
spec fn listed(r: Result<Vec<Digest>, StorageError>, d: DigestView) -> bool {
    r is Ok && order::views_of(r->Ok_0@).to_set().contains(d)
}

proof fn lemma_union(replies: Seq<Result<Vec<Digest>, StorageError>>, d: DigestView)
    ensures
        fanout::union_of(replies).contains(d) <==> exists|i: int|
            0 <= i < replies.len() && listed(#[trigger] replies[i], d),
    decreases replies.len(),
{
    if replies.len() > 0 {
        let rest = replies.drop_last();
        lemma_union(rest, d);
        if fanout::union_of(rest).contains(d) {
            let i = choose|i: int| 0 <= i < rest.len() && listed(#[trigger] rest[i], d);
            assert(replies[i] == rest[i]);
        }
        if listed(replies.last(), d) {
            assert(replies[replies.len() - 1] == replies.last());
        }
        if exists|i: int| 0 <= i < replies.len() && listed(#[trigger] replies[i], d) {
            let i = choose|i: int| 0 <= i < replies.len() && listed(#[trigger] replies[i], d);
            if i < rest.len() {
                assert(rest[i] == replies[i]);
            }
        }
    }
}

} // verus!
