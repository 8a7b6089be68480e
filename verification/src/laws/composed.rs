//! Requests over a store that is composed of others, all of which work.
//!
//! `trail::followed` is what `calls_over_a_router` and `calls_over_partitions` show of
//! the volumes of a router and of the partitions of a composed store.

use vstd::prelude::*;

use crate::digest;
use crate::digest::{Digest, DigestView};
use crate::error::OciErrorView;
use crate::fanout;
use crate::fanout::{Ask, Partition};
use crate::handlers;
use crate::http::{BodyView, ResponseView};
use crate::laws::place;
use crate::laws::spread;
use crate::laws::taken;
use crate::manifest::Manifest;
use crate::model;
use crate::model::{Holdings, Reading};
use crate::storage::{Call, Storage, StorageError, StoredManifest};
use crate::trail;
use crate::trail::Layout;

verus! {

/// A repository is read first from the store that takes its writes.
pub open spec fn reads_first_what_it_writes(layout: Layout) -> bool {
    forall|repo: Seq<char>| (#[trigger] layout.reads(repo))[0] == layout.writes(repo)
}

/// Every layout does.
pub proof fn layouts_read_first_what_they_write(layout: Layout, n: nat)
    requires
        spread::sane(layout, n),
        layout matches Layout::Partitions(k, p) ==> k == n && n <= usize::MAX,
    ensures
        reads_first_what_it_writes(layout),
{
    assert forall|repo: Seq<char>| (#[trigger] layout.reads(repo))[0] == layout.writes(repo) by {
        assert(layout.reads(repo).len() > 0);
    }
}

/// One call that was answered by the stores.
proof fn lemma_one_call<S: Storage>(
    layout: Layout,
    was: Seq<Partition<S>>,
    calls: Seq<Call>,
    now: Seq<Partition<S>>,
)
    requires
        trail::followed(layout, was, calls, now),
        calls.len() == 1,
    ensures
        trail::served(layout, was, calls[0], now),
{
    let states = choose|states: Seq<Seq<Partition<S>>>| #[trigger]
        trail::led(layout, states, calls) && states[0] == was && states.last() == now;
    let i: int = 0;
    assert(trail::served(layout, states[i], calls[i], states[i + 1]));
    assert(states.last() == states[1]);
}

/// A manifest that was pushed is handed out byte for byte, under the name it was pushed
/// with and under its digest, by a store that is composed of others too.
pub proof fn pushed_manifest_is_pulled<S: Storage>(
    read: Reading,
    layout: Layout,
    a: Seq<Partition<S>>,
    calls1: Seq<Call>,
    b: Seq<Partition<S>>,
    calls2: Seq<Call>,
    c: Seq<Partition<S>>,
    h0: Seq<Holdings>,
    h1: Seq<Holdings>,
    h2: Seq<Holdings>,
    repo: Seq<char>,
    reference: Seq<char>,
    hint: Option<Seq<char>>,
    body: Seq<u8>,
    refs: Option<Manifest>,
    r1: Result<ResponseView, OciErrorView>,
    name: Seq<char>,
    head_only: bool,
    r2: Result<ResponseView, OciErrorView>,
)
    requires
        spread::sane(layout, a.len()),
        reads_first_what_it_writes(layout),
        trail::followed(layout, a, calls1, b),
        trail::followed(layout, b, calls2, c),
        place::evolves(read, a, b, h0, h1),
        place::evolves(read, b, c, h1, h2),
        handlers::manifest_kept(calls1, repo, reference, hint, body, refs, r1),
        r1 is Ok,
        handlers::manifest_fetched(calls2, repo, name, head_only, r2),
        model::named(body).wf(),
        name == reference || name == model::named(body).text(),
    ensures
        r2 == handlers::manifest_answer(Ok((body, read(body))), head_only),
        !head_only ==> r2->Ok_0.body == BodyView::Bytes(body),
{
    let d = model::named(body);
    digest::digest_round_trip(d);
    let put = calls1[0];
    let at = layout.writes(repo);
    let order = layout.reads(repo);
    assert(order[0] == at);
    assert(fanout::places(order, a.len()));
    lemma_one_call(layout, a, calls1, b);
    let (w, x) = choose|w: fanout::ManifestPut, x: Result<Digest, StorageError>| #[trigger]
        trail::alone(a, b, layout.writes(repo), w, x) && w.call(x) == put;
    taken::lemma_lands(read, a, b, h0, h1, at, w, x);
    assert(model::step(read, h0[at as int], put, h1[at as int]));
    let get = calls2[0];
    let reads = handlers::reference_of(name);
    lemma_one_call(layout, b, calls2, c);
    let (g, y) = choose|g: fanout::ManifestGet, y: Result<StoredManifest, StorageError>| #[trigger]
        trail::until_found(b, c, layout.reads(repo), g, y) && g.call(y) == get;
    let replies = choose|replies: Seq<Result<StoredManifest, StorageError>>| #[trigger]
        fanout::asked(b, c, order, g, replies) && fanout::first_answer(replies, order.len(), y);
    assert(g.repo@ == repo && g.reference@ == reads);
    place::lemma_asked(read, b, c, h1, h2, order, g, replies);
    assert(model::step(read, h1[order[0] as int], g.call(replies[0]), h2[order[0] as int]));
    let h = h1[at as int];
    assert(h.manifests.contains_key((repo, d)) && h.manifests[(repo, d)] == body);
    assert(h.led_to(repo, reads) == Some((repo, d)));
    assert(replies[0] is Ok);
    assert(replies.len() == 1) by {
        if replies.len() > 1 {
            assert(replies[0] == Err::<StoredManifest, _>(StorageError::NotFound));
        }
    }
    assert(y == replies[0]);
}

/// A blob that was pushed in one go is on the store that takes the writes of its
/// repository, on that one alone if it was nowhere before, and is handed out byte for
/// byte.
pub proof fn pushed_blob_is_pulled<S: Storage>(
    read: Reading,
    layout: Layout,
    a: Seq<Partition<S>>,
    calls1: Seq<Call>,
    b: Seq<Partition<S>>,
    calls2: Seq<Call>,
    c: Seq<Partition<S>>,
    h0: Seq<Holdings>,
    h1: Seq<Holdings>,
    h2: Seq<Holdings>,
    repo: Seq<char>,
    name: Seq<char>,
    body: Seq<u8>,
    r1: Result<ResponseView, OciErrorView>,
    head_only: bool,
    r2: Result<ResponseView, OciErrorView>,
)
    requires
        spread::sane(layout, a.len()),
        reads_first_what_it_writes(layout),
        trail::followed(layout, a, calls1, b),
        trail::followed(layout, b, calls2, c),
        place::evolves(read, a, b, h0, h1),
        place::evolves(read, b, c, h1, h2),
        handlers::upload_started(calls1, repo, Some(name), None, None, body, r1),
        handlers::valid_name(repo),
        handlers::digest_of(name) is Ok,
        digest::content_digest(handlers::digest_of(name)->Ok_0.algorithm, body)
            == handlers::digest_of(name)->Ok_0,
        handlers::blob_fetched(calls2, repo, name, head_only, r2),
    ensures
        ({
            let d = handlers::digest_of(name)->Ok_0;
            let at = layout.writes(repo) as int;
            &&& r1 == Ok::<_, OciErrorView>(handlers::blob_created(repo, d))
            &&& h1[at].blobs == h0[at].blobs.insert(d, body)
            &&& forall|p: int| 0 <= p < h0.len() && p != at ==> #[trigger] h1[p] == h0[p]
            &&& r2 == handlers::blob_answer(d, Ok(body), head_only)
            &&& !head_only ==> r2->Ok_0.body == BodyView::Bytes(body)
        }),
{
    let d = handlers::digest_of(name)->Ok_0;
    let at = layout.writes(repo);
    let order = layout.reads(repo);
    assert(order[0] == at);
    assert(fanout::places(order, a.len()));
    let (k, m) = choose|k: int, m: Result<Option<DigestView>, OciErrorView>|
        0 <= k <= calls1.len() && #[trigger] handlers::mount_tried(
            calls1.take(k),
            repo,
            None,
            None,
            m,
        ) && match m {
            Err(e) => k == calls1.len() && r1 == Err::<ResponseView, _>(e),
            Ok(Some(d)) => k == calls1.len() && r1 == Ok::<_, OciErrorView>(
                handlers::blob_created(repo, d),
            ),
            Ok(None) => handlers::started(
                calls1.subrange(k, calls1.len() as int),
                repo,
                Some(name),
                body,
                r1,
            ),
        };
    assert(k == 0);
    assert(calls1.subrange(0, calls1.len() as int) =~= calls1);
    lemma_one_call(layout, a, calls1, b);
    let (w, x) = choose|w: fanout::BlobWrite, x: Result<(), StorageError>| #[trigger]
        trail::alone(a, b, layout.writes(repo), w, x) && w.call(x) == calls1[0];
    taken::lemma_lands(read, a, b, h0, h1, at, w, x);
    lemma_one_call(layout, b, calls2, c);
    let (g, y) = choose|g: fanout::BlobRead, y: Result<Vec<u8>, StorageError>| #[trigger]
        trail::until_found(b, c, layout.reads(repo), g, y) && g.call(y) == calls2[0];
    let replies = choose|replies: Seq<Result<Vec<u8>, StorageError>>| #[trigger]
        fanout::asked(b, c, order, g, replies) && fanout::first_answer(replies, order.len(), y);
    assert(g.digest@ == d);
    place::read_finds_what_any_holds(
        read,
        b,
        c,
        h1,
        h2,
        order,
        g.repo,
        g.digest,
        replies,
        y,
    );
    assert(place::holds_blob(h1, order, d, 0));
}

} // verus!
