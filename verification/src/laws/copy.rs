//! A copy brings everything over, and a second copy brings nothing.

use vstd::prelude::*;

use crate::digest;
use crate::digest::DigestView;
use crate::laws::refers;
use crate::manifest::Manifest;
use crate::model;
use crate::model::{Holdings, Reading};
use crate::storage::{Call, ReferenceView, StorageError};
use crate::transfer;
use crate::transfer::TagPointerView;
use crate::walk;
use crate::walk::{Found, Place};

verus! {

/// What `b` lacks of `a` is nothing: every blob, manifest and tag of `a` is there.
pub open spec fn includes(b: Holdings, a: Holdings) -> bool {
    &&& forall|d: DigestView| #[trigger] a.blobs.contains_key(d) ==> b.blobs.contains_key(d)
    &&& forall|p: Place| #[trigger] a.manifests.contains_key(p) ==> b.manifests.contains_key(p)
    &&& forall|t: (Seq<char>, Seq<char>)| #[trigger] a.tags.contains_key(t) ==> b.tags.contains_key(t)
}

/// A store that is only added to loses nothing.
pub proof fn lemma_additions(read: Reading, hs: Seq<Holdings>, v: Seq<Call>, i: int, j: int)
    requires
        model::works(read, hs, v),
        forall|k: int| 0 <= k < v.len() ==> transfer::is_addition(#[trigger] v[k]),
        0 <= i <= j <= v.len(),
    ensures
        includes(hs[j], hs[i]),
    decreases j - i,
{
    if i < j {
        lemma_additions(read, hs, v, i, j - 1);
        assert(transfer::is_addition(v[j - 1]));
        assert(model::step(read, hs[j - 1], v[j - 1], hs[j - 1 + 1]));
        let a = hs[j - 1];
        let b = hs[j];
        assert(includes(b, a));
        assert forall|d: DigestView| #[trigger] hs[i].blobs.contains_key(d) implies b.blobs.contains_key(
            d,
        ) by {
            assert(a.blobs.contains_key(d));
        }
        assert forall|p: Place| #[trigger] hs[i].manifests.contains_key(p) implies b.manifests.contains_key(
            p,
        ) by {
            assert(a.manifests.contains_key(p));
        }
        assert forall|t: (Seq<char>, Seq<char>)| #[trigger]
            hs[i].tags.contains_key(t) implies b.tags.contains_key(t) by {
            assert(a.tags.contains_key(t));
        }
    }
}

/// The calls delete nothing.
pub open spec fn spares(calls: Seq<Call>) -> bool {
    forall|k: int|
        0 <= k < calls.len() ==> !((#[trigger] calls[k]) is BlobDelete) && !(
        calls[k] is ManifestDelete)
}

/// Where nothing is deleted, a reference that leads somewhere goes on leading somewhere,
/// and a blob stays.
pub proof fn lemma_spared(read: Reading, hs: Seq<Holdings>, calls: Seq<Call>, n: int)
    requires
        model::works(read, hs, calls),
        spares(calls),
        0 <= n <= calls.len(),
    ensures
        still_leads(hs[0], hs[n]),
    decreases n,
{
    if n > 0 {
        lemma_spared(read, hs, calls, n - 1);
        let a = hs[n - 1];
        let b = hs[n];
        let c = calls[n - 1];
        assert(!(c is BlobDelete) && !(c is ManifestDelete));
        assert(model::step(read, a, c, hs[n - 1 + 1]));
        assert(still_leads(a, b)) by {
            assert forall|repo: Seq<char>, x: ReferenceView| #[trigger]
                a.led_to(repo, x) is Some implies b.led_to(repo, x) is Some by {
                let p = a.led_to(repo, x)->0;
                assert(b.manifests.contains_key(p));
            }
        }
        lemma_still_leads(hs[0], a, b);
    }
}

/// Every reference that leads to a manifest in `a` leads to one in `b`, and every blob
/// of `a` is there.
pub open spec fn still_leads(a: Holdings, b: Holdings) -> bool {
    &&& forall|repo: Seq<char>, x: ReferenceView| #[trigger]
        a.led_to(repo, x) is Some ==> b.led_to(repo, x) is Some
    &&& forall|d: DigestView| #[trigger] a.blobs.contains_key(d) ==> b.blobs.contains_key(d)
}

pub proof fn lemma_still_leads(a: Holdings, b: Holdings, c: Holdings)
    requires
        still_leads(a, b),
        still_leads(b, c),
    ensures
        still_leads(a, c),
{
    assert forall|repo: Seq<char>, x: ReferenceView| #[trigger]
        a.led_to(repo, x) is Some implies c.led_to(repo, x) is Some by {
        assert(b.led_to(repo, x) is Some);
    }
    assert forall|d: DigestView| #[trigger] a.blobs.contains_key(d) implies c.blobs.contains_key(d) by {
        assert(b.blobs.contains_key(d));
    }
}

/// A store that is only read holds the same all the time.
pub proof fn lemma_reads(read: Reading, hs: Seq<Holdings>, u: Seq<Call>)
    requires
        model::works(read, hs, u),
        forall|k: int| 0 <= k < u.len() ==> transfer::is_read(#[trigger] u[k]),
    ensures
        forall|k: int| 0 <= k < hs.len() ==> #[trigger] hs[k] == hs[0],
        forall|k: int| 0 <= k < u.len() ==> model::step(read, hs[0], #[trigger] u[k], hs[0]),
{
    assert forall|k: int| 0 <= k < u.len() implies model::quiet(#[trigger] u[k]) by {
        assert(transfer::is_read(u[k]));
    }
    model::lemma_quiet(read, hs, u, u.len() as int);
    assert forall|k: int| 0 <= k < u.len() implies model::step(
        read,
        hs[0],
        #[trigger] u[k],
        hs[0],
    ) by {
        assert(model::step(read, hs[k], u[k], hs[k + 1]));
        assert(hs[k] == hs[0] && hs[k + 1] == hs[0]);
    }
}

/// All calls are answered by a store that holds `h` and goes on holding it.
pub open spec fn all_told(read: Reading, h: Holdings, u: Seq<Call>) -> bool {
    forall|k: int| 0 <= k < u.len() ==> model::step(read, h, #[trigger] u[k], h)
}

/// The manifests in `m` are on both sides; their blobs are on `dst` as far as they are
/// on `src`, and so are their children, which are in `m` too.
pub open spec fn mirrored(read: Reading, src: Holdings, dst: Holdings, m: Set<Place>) -> bool {
    forall|p: Place| #[trigger]
        m.contains(p) ==> {
            &&& src.manifests.contains_key(p)
            &&& dst.manifests.contains_key(p)
            &&& has_blobs(read, src, dst, p)
            &&& has_children(read, src, m, p)
        }
}

/// The blobs that the manifest at `p` needs are on `dst` as far as they are on `src`.
pub open spec fn has_blobs(read: Reading, src: Holdings, dst: Holdings, p: Place) -> bool {
    match read(src.manifests[p]) {
        Some(x) => forall|d: DigestView| #[trigger]
            refers::has_as_blob(x, d) && src.blobs.contains_key(d)
                ==> dst.blobs.contains_key(d),
        None => true,
    }
}

/// The children of the manifest at `p` are in `m` as far as they are on `src`.
pub open spec fn has_children(read: Reading, src: Holdings, m: Set<Place>, p: Place) -> bool {
    match read(src.manifests[p]) {
        Some(x) => forall|d: DigestView| #[trigger]
            refers::has_as_child(x, d) && src.manifests.contains_key((p.0, d)) ==> m.contains(
                (p.0, d),
            ),
        None => true,
    }
}

/// A manifest that a call shows is one that the store holds, with these references.
pub proof fn lemma_shown(read: Reading, h: Holdings, c: Call)
    requires
        h.sound(),
        model::step(read, h, c, h),
        walk::shown(c) is Some,
    ensures
        ({
            let (p, refs) = walk::shown(c)->0;
            &&& h.manifests.contains_key(p)
            &&& refs == read(h.manifests[p])
        }),
{
}

/// A blob that was found wanting is on the target in the end.
pub proof fn lemma_blob_done(
    read: Reading,
    src: Holdings,
    u: Seq<Call>,
    hv: Seq<Holdings>,
    v: Seq<Call>,
    p: Place,
)
    requires
        all_told(read, src, u),
        model::works(read, hv, v),
        forall|k: int| 0 <= k < v.len() ==> transfer::is_addition(#[trigger] v[k]),
        transfer::blob_done(u, v, p),
        src.blobs.contains_key(p.1),
    ensures
        hv.last().blobs.contains_key(p.1),
{
    let e = v.len() as int;
    let yes = Call::BlobExists { repo: p.0, digest: p.1, reply: Ok(true) };
    if v.contains(yes) {
        let k = choose|k: int| 0 <= k < v.len() && v[k] == yes;
        assert(model::step(read, hv[k], v[k], hv[k + 1]));
        lemma_additions(read, hv, v, k, e);
        assert(hv[k].blobs.contains_key(p.1));
    } else {
        let no = Call::BlobRead { repo: p.0, digest: p.1, reply: Err(StorageError::NotFound) };
        if u.contains(no) {
            let k = choose|k: int| 0 <= k < u.len() && u[k] == no;
            assert(model::step(read, src, u[k], src));
            assert(false);
        }
        let content = choose|content: Seq<u8>| #[trigger]
            u.contains(Call::BlobRead { repo: p.0, digest: p.1, reply: Ok(content) })
                && transfer::took_blob(v, p, content);
        let x = choose|x: ()| #[trigger]
            v.contains(Call::BlobWrite { repo: p.0, digest: p.1, content, reply: Ok(x) });
        let w = Call::BlobWrite { repo: p.0, digest: p.1, content, reply: Ok(x) };
        let k = choose|k: int| 0 <= k < v.len() && v[k] == w;
        assert(model::step(read, hv[k], v[k], hv[k + 1]));
        assert(hv[k + 1].blobs.contains_key(p.1));
        lemma_additions(read, hv, v, k + 1, e);
    }
}

/// The source gave, for a manifest it holds, its bytes.
pub proof fn lemma_gave(read: Reading, src: Holdings, u: Seq<Call>, p: Place, content: Seq<u8>)
    requires
        all_told(read, src, u),
        transfer::gave(u, p, content),
    ensures
        src.manifests.contains_key(p),
        content == src.manifests[p],
{
    let refs = choose|refs: Option<Manifest>| #[trigger]
        u.contains(
            Call::ManifestGet {
                repo: p.0,
                reference: ReferenceView::Digest(p.1),
                reply: Ok((content, refs)),
            },
        );
    let c = Call::ManifestGet {
        repo: p.0,
        reference: ReferenceView::Digest(p.1),
        reply: Ok((content, refs)),
    };
    let k = choose|k: int| 0 <= k < u.len() && u[k] == c;
    assert(model::step(read, src, u[k], src));
    assert(src.led_to(p.0, ReferenceView::Digest(p.1)) is Some);
    assert((p.0, p.1) == p);
}

proof fn lemma_not_gone(read: Reading, src: Holdings, u: Seq<Call>, p: Place)
    requires
        all_told(read, src, u),
        src.manifests.contains_key(p),
    ensures
        !transfer::gone(u, p),
        !walk::missing(u, p),
{
    let c = Call::ManifestGet {
        repo: p.0,
        reference: ReferenceView::Digest(p.1),
        reply: Err(StorageError::NotFound),
    };
    assert((p.0, p.1) == p);
    if u.contains(c) {
        let k = choose|k: int| 0 <= k < u.len() && u[k] == c;
        assert(model::step(read, src, u[k], src));
    }
    if walk::missing(u, p) {
        let k = choose|k: int| 0 <= k < u.len() && #[trigger] u[k] == c;
        assert(model::step(read, src, u[k], src));
    }
}

/// A manifest that was found is on the target in the end.
pub proof fn lemma_manifest_done(
    read: Reading,
    src: Holdings,
    u: Seq<Call>,
    hv: Seq<Holdings>,
    v: Seq<Call>,
    p: Place,
    strict: bool,
)
    requires
        src.sound(),
        all_told(read, src, u),
        model::works(read, hv, v),
        forall|k: int| 0 <= k < v.len() ==> transfer::is_addition(#[trigger] v[k]),
        transfer::manifest_done(u, v, p, strict),
        src.manifests.contains_key(p),
    ensures
        hv.last().manifests.contains_key(p),
{
    let e = v.len() as int;
    assert((p.0, p.1) == p);
    lemma_not_gone(read, src, u, p);
    if transfer::held(v, p) {
        let x = choose|x: (Seq<u8>, Option<Manifest>)| #[trigger]
            v.contains(
                Call::ManifestGet {
                    repo: p.0,
                    reference: ReferenceView::Digest(p.1),
                    reply: Ok(x),
                },
            );
        let c = Call::ManifestGet {
            repo: p.0,
            reference: ReferenceView::Digest(p.1),
            reply: Ok(x),
        };
        let k = choose|k: int| 0 <= k < v.len() && v[k] == c;
        assert(model::step(read, hv[k], v[k], hv[k + 1]));
        assert(hv[k].manifests.contains_key(p));
        lemma_additions(read, hv, v, k, e);
    } else {
        let content = choose|content: Seq<u8>| #[trigger]
            transfer::gave(u, p, content) && transfer::took(
                v,
                p.0,
                ReferenceView::Digest(p.1),
                content,
            );
        lemma_gave(read, src, u, p, content);
        let d = choose|d: DigestView| #[trigger]
            v.contains(
                Call::ManifestPut {
                    repo: p.0,
                    reference: ReferenceView::Digest(p.1),
                    content,
                    reply: Ok(d),
                },
            );
        let c = Call::ManifestPut {
            repo: p.0,
            reference: ReferenceView::Digest(p.1),
            content,
            reply: Ok(d),
        };
        let k = choose|k: int| 0 <= k < v.len() && v[k] == c;
        assert(model::step(read, hv[k], v[k], hv[k + 1]));
        assert(hv[k + 1].manifests.contains_key(p));
        lemma_additions(read, hv, v, k + 1, e);
    }
}

/// The pointer is to where the tag leads on the source.
pub open spec fn true_pointer(src: Holdings, t: TagPointerView) -> bool {
    &&& src.tags.contains_key((t.repo, t.tag))
    &&& src.tags[(t.repo, t.tag)] == t.digest
    &&& src.manifests.contains_key((t.repo, t.digest))
}

pub proof fn lemma_true_pointers(
    read: Reading,
    src: Holdings,
    w: Seq<Call>,
    filter: Option<Seq<char>>,
    tags: Seq<TagPointerView>,
)
    requires
        src.sound(),
        all_told(read, src, w),
        transfer::tags_explained(w, filter, tags),
    ensures
        forall|i: int| 0 <= i < tags.len() ==> true_pointer(src, #[trigger] tags[i]),
{
    assert forall|i: int| 0 <= i < tags.len() implies true_pointer(src, #[trigger] tags[i]) by {
        let t = tags[i];
        assert(transfer::tag_read(w, t));
        let x = choose|x: (Seq<u8>, Option<Manifest>)| #[trigger]
            w.contains(
                Call::ManifestGet {
                    repo: t.repo,
                    reference: ReferenceView::Tag(t.tag),
                    reply: Ok(x),
                },
            ) && t.digest == digest::content_digest(digest::Algorithm::Sha256, x.0);
        let c = Call::ManifestGet {
            repo: t.repo,
            reference: ReferenceView::Tag(t.tag),
            reply: Ok(x),
        };
        let k = choose|k: int| 0 <= k < w.len() && w[k] == c;
        assert(model::step(read, src, w[k], src));
        let p = src.led_to(t.repo, ReferenceView::Tag(t.tag))->0;
        assert(src.manifests.contains_key(p));
        assert(model::named(src.manifests[p]) == p.1);
    }
}

/// If the call writes the tag, it points it to `d`.
spec fn leaves_at(c: Call, repo: Seq<char>, tag: Seq<char>, d: DigestView) -> bool {
    match c {
        Call::ManifestPut { repo: r, reference: ReferenceView::Tag(t), content, .. } => r == repo
            && t == tag ==> model::named(content) == d,
        _ => true,
    }
}

/// Once written, a tag stays where it points, as long as every later write of it
/// points there.
proof fn lemma_tag_stays(
    read: Reading,
    hv: Seq<Holdings>,
    v: Seq<Call>,
    repo: Seq<char>,
    tag: Seq<char>,
    d: DigestView,
    i: int,
    j: int,
)
    requires
        model::works(read, hv, v),
        forall|k: int| 0 <= k < v.len() ==> transfer::is_addition(#[trigger] v[k]),
        forall|k: int| 0 <= k < v.len() ==> leaves_at(#[trigger] v[k], repo, tag, d),
        0 <= i <= j <= v.len(),
        hv[i].tags.contains_key((repo, tag)),
        hv[i].tags[(repo, tag)] == d,
    ensures
        hv[j].tags.contains_key((repo, tag)),
        hv[j].tags[(repo, tag)] == d,
    decreases j - i,
{
    if i < j {
        lemma_tag_stays(read, hv, v, repo, tag, d, i, j - 1);
        assert(transfer::is_addition(v[j - 1]));
        assert(model::step(read, hv[j - 1], v[j - 1], hv[j - 1 + 1]));
    }
}

/// A tag that was found points to the same manifest on the target in the end.
proof fn lemma_tag_done(
    read: Reading,
    src: Holdings,
    u: Seq<Call>,
    hv: Seq<Holdings>,
    v: Seq<Call>,
    tags: Seq<TagPointerView>,
    i: int,
)
    requires
        src.sound(),
        all_told(read, src, u),
        model::works(read, hv, v),
        forall|k: int| 0 <= k < v.len() ==> transfer::is_addition(#[trigger] v[k]),
        forall|k: int| 0 <= k < tags.len() ==> true_pointer(src, #[trigger] tags[k]),
        transfer::tags_right(u, v, tags),
        0 <= i < tags.len(),
        transfer::tag_done(u, v, tags[i]),
    ensures
        hv.last().tags.contains_key((tags[i].repo, tags[i].tag)),
        hv.last().tags[(tags[i].repo, tags[i].tag)] == tags[i].digest,
        hv.last().manifests.contains_key((tags[i].repo, tags[i].digest)),
{
    let t = tags[i];
    let p = (t.repo, t.digest);
    let e = v.len() as int;
    assert(true_pointer(src, t));
    lemma_not_gone(read, src, u, p);
    let content = choose|content: Seq<u8>| #[trigger]
        transfer::gave(u, p, content) && transfer::took(
            v,
            t.repo,
            ReferenceView::Tag(t.tag),
            content,
        );
    lemma_gave(read, src, u, p, content);
    assert(model::named(src.manifests[p]) == p.1);
    let d = choose|d: DigestView| #[trigger]
        v.contains(
            Call::ManifestPut {
                repo: t.repo,
                reference: ReferenceView::Tag(t.tag),
                content,
                reply: Ok(d),
            },
        );
    let c = Call::ManifestPut {
        repo: t.repo,
        reference: ReferenceView::Tag(t.tag),
        content,
        reply: Ok(d),
    };
    let k = choose|k: int| 0 <= k < v.len() && v[k] == c;
    assert(model::step(read, hv[k], v[k], hv[k + 1]));
    assert(hv[k + 1].manifests.contains_key(p));
    lemma_additions(read, hv, v, k + 1, e);
    assert(hv[e].manifests.contains_key(p));
    assert forall|q: int| 0 <= q < v.len() implies leaves_at(
        #[trigger] v[q],
        t.repo,
        t.tag,
        t.digest,
    ) by {
        if transfer::writes_tag(v[q]) {
            let j = choose|j: int| 0 <= j < tags.len() && transfer::points(u, v[q], #[trigger] tags[j]);
            let s = tags[j];
            assert(true_pointer(src, s));
            if let Call::ManifestPut { repo: r, reference: ReferenceView::Tag(x), content: body, .. } =
                v[q] {
                lemma_gave(read, src, u, transfer::place(s.repo, s.digest), body);
                assert(model::named(src.manifests[(s.repo, s.digest)]) == s.digest);
            }
        }
    }
    lemma_tag_stays(read, hv, v, t.repo, t.tag, t.digest, k + 1, e);
}

/// What a search found and a copy settled is mirrored, and the tags with it.
pub open spec fn brought_over(
    read: Reading,
    src: Holdings,
    dst: Holdings,
    m: Set<Place>,
    tags: Seq<TagPointerView>,
) -> bool {
    &&& mirrored(read, src, dst, m)
    &&& forall|i: int|
        0 <= i < tags.len() ==> {
            let t = #[trigger] tags[i];
            &&& true_pointer(src, t)
            &&& true_pointer(dst, t)
            &&& m.contains((t.repo, t.digest))
        }
}

/// A search of a source that works, and a copy of what it found to a target that
/// works: everything found is on the target then.
pub proof fn copy_brings_everything(
    read: Reading,
    src: Holdings,
    w: Seq<Call>,
    u: Seq<Call>,
    hv: Seq<Holdings>,
    v: Seq<Call>,
    filter: Option<Seq<char>>,
    found: Found,
    tags: Seq<TagPointerView>,
    strict: bool,
)
    requires
        src.sound(),
        all_told(read, src, w),
        all_told(read, src, u),
        model::works(read, hv, v),
        transfer::search_state(w, filter, found, tags),
        transfer::honest(u, v, strict),
        transfer::tags_right(u, v, tags),
        transfer::all_done(u, v, found.manifests@, found.blobs@, tags, strict),
    ensures
        brought_over(read, src, hv.last(), found.manifests@, tags),
        includes(hv.last(), hv[0]),
{
    let m = found.manifests@;
    assert forall|k: int| 0 <= k < v.len() implies transfer::is_addition(#[trigger] v[k]) by {
        assert(transfer::in_order(u, v.take(k), v[k], strict));
    }
    lemma_additions(read, hv, v, 0, v.len() as int);
    lemma_true_pointers(read, src, w, filter, tags);
    assert forall|p: Place| #[trigger] m.contains(p) implies {
        &&& src.manifests.contains_key(p)
        &&& hv.last().manifests.contains_key(p)
        &&& has_blobs(read, src, hv.last(), p)
        &&& has_children(read, src, m, p)
    } by {
        assert(walk::some_settles(w, p, m, found.blobs@, Seq::empty()));
        let i = choose|i: int|
            0 <= i < w.len() && walk::shows(#[trigger] w[i], p) && walk::settled(
                w[i],
                m,
                found.blobs@,
                w,
                Seq::empty(),
            );
        assert(model::step(read, src, w[i], src));
        lemma_shown(read, src, w[i]);
        lemma_manifest_done(read, src, u, hv, v, p, strict);
        match read(src.manifests[p]) {
            Some(x) => {
                assert(walk::shown(w[i]) == Some((p, Some(x))));
                refers::lemma_has(x);
                assert forall|d: DigestView| #[trigger]
                    refers::has_as_blob(x, d) && src.blobs.contains_key(d) implies hv.last().blobs.contains_key(
                    d,
                ) by {
                    assert(found.blobs@.contains((p.0, d)));
                    lemma_blob_done(read, src, u, hv, v, (p.0, d));
                }
            },
            None => {},
        }
        lemma_closed(read, src, w, filter, found, tags, p);
    }
    assert forall|i: int| 0 <= i < tags.len() implies {
        let t = #[trigger] tags[i];
        &&& true_pointer(src, t)
        &&& true_pointer(hv.last(), t)
        &&& m.contains((t.repo, t.digest))
    } by {
        lemma_tag_done(read, src, u, hv, v, tags, i);
        lemma_pointer_found(w, found, tags, filter, i);
    }
}

/// The children of a manifest that was found were found as far as they are held.
pub proof fn lemma_closed(
    read: Reading,
    src: Holdings,
    w: Seq<Call>,
    filter: Option<Seq<char>>,
    found: Found,
    tags: Seq<TagPointerView>,
    p: Place,
)
    requires
        src.sound(),
        all_told(read, src, w),
        transfer::search_state(w, filter, found, tags),
        found.manifests@.contains(p),
    ensures
        has_children(read, src, found.manifests@, p),
{
    let m = found.manifests@;
    assert(walk::some_settles(w, p, m, found.blobs@, Seq::empty()));
    let i = choose|i: int|
        0 <= i < w.len() && walk::shows(#[trigger] w[i], p) && walk::settled(
            w[i],
            m,
            found.blobs@,
            w,
            Seq::empty(),
        );
    assert(model::step(read, src, w[i], src));
    lemma_shown(read, src, w[i]);
    match read(src.manifests[p]) {
        Some(x) => {
            assert(walk::shown(w[i]) == Some((p, Some(x))));
            refers::lemma_has(x);
            assert forall|d: DigestView| #[trigger]
                refers::has_as_child(x, d) && src.manifests.contains_key((p.0, d)) implies m.contains(
                (p.0, d),
            ) by {
                lemma_not_gone(read, src, w, (p.0, d));
            }
        },
        None => {},
    }
}

/// The manifest that a pointer leads to was found.
pub proof fn lemma_pointer_found(
    w: Seq<Call>,
    found: Found,
    tags: Seq<TagPointerView>,
    filter: Option<Seq<char>>,
    i: int,
)
    requires
        transfer::search_state(w, filter, found, tags),
        0 <= i < tags.len(),
    ensures
        found.manifests@.contains((tags[i].repo, tags[i].digest)),
{
    let t = tags[i];
    assert(transfer::tag_read(w, t));
    let x = choose|x: (Seq<u8>, Option<Manifest>)| #[trigger]
        w.contains(
            Call::ManifestGet {
                repo: t.repo,
                reference: ReferenceView::Tag(t.tag),
                reply: Ok(x),
            },
        ) && t.digest == digest::content_digest(digest::Algorithm::Sha256, x.0);
    let c = Call::ManifestGet { repo: t.repo, reference: ReferenceView::Tag(t.tag), reply: Ok(x) };
    let k = choose|k: int| 0 <= k < w.len() && w[k] == c;
    assert(walk::shows(w[k], (t.repo, t.digest)));
    assert(walk::some_shows(w, (t.repo, t.digest)));
}

/// All of one repository was found: every selected tag that leads somewhere, and
/// without a filter every manifest.
pub proof fn search_finds_all(
    read: Reading,
    src: Holdings,
    w: Seq<Call>,
    repo: Seq<char>,
    filter: Option<Seq<char>>,
    m: Set<Place>,
    tags: Seq<TagPointerView>,
)
    requires
        all_told(read, src, w),
        transfer::repo_searched(w, repo, filter, m, tags),
    ensures
        forall|t: Seq<char>| #[trigger]
            src.tags.contains_key((repo, t)) && transfer::selected(filter, t) ==> exists|
                x: TagPointerView,
            | #[trigger] tags.contains(x) && x.repo == repo && x.tag == t,
        filter is None ==> forall|d: DigestView| #[trigger]
            src.manifests.contains_key((repo, d)) ==> m.contains((repo, d)),
{
    let list = choose|list: Seq<Seq<char>>| #[trigger]
        w.contains(Call::ListTags { repo, reply: Ok(list) }) && transfer::tags_noted(
            w,
            repo,
            filter,
            list,
            tags,
        );
    let c = Call::ListTags { repo, reply: Ok(list) };
    let k = choose|k: int| 0 <= k < w.len() && w[k] == c;
    assert(model::step(read, src, w[k], src));
    assert forall|t: Seq<char>| #[trigger]
        src.tags.contains_key((repo, t)) && transfer::selected(filter, t) implies exists|
        x: TagPointerView,
    | #[trigger] tags.contains(x) && x.repo == repo && x.tag == t by {
        let told = w[k]->ListTags_reply->Ok_0;
        assert(told == list);
        assert(told.contains(t));
        let i = choose|i: int| 0 <= i < list.len() && list[i] == t;
        assert(transfer::selected(filter, list[i]));
    }
    if filter is None {
        let ds = choose|ds: Seq<DigestView>| #[trigger]
            w.contains(Call::ListManifestDigests { repo, reply: Ok(ds) })
                && transfer::digests_noted(w, repo, ds, m);
        let c = Call::ListManifestDigests { repo, reply: Ok(ds) };
        let k = choose|k: int| 0 <= k < w.len() && w[k] == c;
        assert(model::step(read, src, w[k], src));
        assert forall|d: DigestView| #[trigger] src.manifests.contains_key((repo, d)) implies m.contains(
            (repo, d),
        ) by {
            let told = w[k]->ListManifestDigests_reply->Ok_0;
            assert(told == ds);
            assert(told.contains(d));
            let i = choose|i: int| 0 <= i < ds.len() && ds[i] == d;
            assert(m.contains((repo, ds[i])) || walk::missing(w, (repo, ds[i])));
            lemma_not_gone(read, src, w, (repo, d));
        }
    }
}

/// A copy writes no blob and no manifest where the target has everything that the
/// source has of what is wanted.
pub proof fn nothing_is_written_twice(
    read: Reading,
    src: Holdings,
    u: Seq<Call>,
    hv: Seq<Holdings>,
    v: Seq<Call>,
    m: Set<Place>,
    blobs: Set<Place>,
    tags: Seq<TagPointerView>,
    strict: bool,
)
    requires
        all_told(read, src, u),
        model::works(read, hv, v),
        transfer::honest(u, v, strict),
        transfer::asked_for(u, m, blobs, tags),
        forall|p: Place| #[trigger]
            blobs.contains(p) && src.blobs.contains_key(p.1) ==> hv[0].blobs.contains_key(p.1),
        forall|p: Place| #[trigger]
            m.contains(p) && src.manifests.contains_key(p) ==> hv[0].manifests.contains_key(p),
        forall|i: int|
            0 <= i < tags.len() ==> m.contains(((#[trigger] tags[i]).repo, tags[i].digest)),
    ensures
        transfer::writes(v) == 0,
        transfer::written(v) == 0,
        transfer::puts(v) == 0,
{
    assert forall|k: int| 0 <= k < v.len() implies transfer::is_addition(#[trigger] v[k]) by {
        assert(transfer::in_order(u, v.take(k), v[k], strict));
    }
    assert forall|k: int| 0 <= k < v.len() implies only_tags(#[trigger] v[k]) by {
        assert(transfer::in_order(u, v.take(k), v[k], strict));
        match v[k] {
            Call::BlobWrite { repo, digest: d, content, .. } => {
                let c = Call::BlobRead { repo, digest: d, reply: Ok(content) };
                let j = choose|j: int| 0 <= j < u.len() && u[j] == c;
                assert(model::step(read, src, u[j], src));
                assert(transfer::asks_wanted(u[j], m, blobs, tags));
                let p = choose|p: Place| #[trigger] blobs.contains(p) && transfer::asks_blob(u[j], p);
                assert(hv[0].blobs.contains_key(d));
                let no = Call::BlobExists { repo, digest: d, reply: Ok(false) };
                let q = choose|q: int| 0 <= q < v.take(k).len() && v.take(k)[q] == no;
                assert(v[q] == no);
                assert(model::step(read, hv[q], v[q], hv[q + 1]));
                lemma_additions(read, hv, v, 0, q);
            },
            Call::ManifestPut { repo, reference: ReferenceView::Digest(d), content, .. } => {
                let p = (repo, d);
                assert(transfer::gave(u, p, content));
                lemma_gave(read, src, u, p, content);
                let refs = choose|refs: Option<Manifest>| #[trigger]
                    u.contains(
                        Call::ManifestGet {
                            repo: p.0,
                            reference: ReferenceView::Digest(p.1),
                            reply: Ok((content, refs)),
                        },
                    );
                let c = Call::ManifestGet {
                    repo: p.0,
                    reference: ReferenceView::Digest(p.1),
                    reply: Ok((content, refs)),
                };
                let j = choose|j: int| 0 <= j < u.len() && u[j] == c;
                assert(transfer::asks_wanted(u[j], m, blobs, tags));
                if exists|x: Place| #[trigger] m.contains(x) && transfer::asks_manifest(u[j], x) {
                    let x = choose|x: Place| #[trigger]
                        m.contains(x) && transfer::asks_manifest(u[j], x);
                    assert(x == p);
                } else {
                    let i = choose|i: int|
                        0 <= i < tags.len() && transfer::asks_manifest(
                            u[j],
                            transfer::place((#[trigger] tags[i]).repo, tags[i].digest),
                        );
                    assert(m.contains((tags[i].repo, tags[i].digest)));
                }
                assert(m.contains(p));
                assert(hv[0].manifests.contains_key(p));
                assert(transfer::lacked(v.take(k), p, strict));
                let e = choose|e: StorageError| #[trigger]
                    v.take(k).contains(
                        Call::ManifestGet {
                            repo: p.0,
                            reference: ReferenceView::Digest(p.1),
                            reply: Err(e),
                        },
                    ) && (strict ==> e == StorageError::NotFound);
                let no = Call::ManifestGet {
                    repo: p.0,
                    reference: ReferenceView::Digest(p.1),
                    reply: Err(e),
                };
                let q = choose|q: int| 0 <= q < v.take(k).len() && v.take(k)[q] == no;
                assert(v[q] == no);
                assert(model::step(read, hv[q], v[q], hv[q + 1]));
                lemma_additions(read, hv, v, 0, q);
                assert(hv[q].manifests.contains_key(p));
            },
            _ => {},
        }
    }
    lemma_only_tags(v);
}

/// The call writes at most a tag.
spec fn only_tags(c: Call) -> bool {
    &&& !(c is BlobWrite)
    &&& !(c matches Call::ManifestPut { reference: ReferenceView::Digest(_), .. })
}

proof fn lemma_only_tags(v: Seq<Call>)
    requires
        forall|k: int| 0 <= k < v.len() ==> only_tags(#[trigger] v[k]),
    ensures
        transfer::writes(v) == 0,
        transfer::written(v) == 0,
        transfer::puts(v) == 0,
    decreases v.len(),
{
    if v.len() > 0 {
        assert(only_tags(v[v.len() - 1]));
        let rest = v.drop_last();
        assert forall|k: int| 0 <= k < rest.len() implies only_tags(#[trigger] rest[k]) by {
            assert(rest[k] == v[k]);
        }
        lemma_only_tags(rest);
    }
}

} // verus!
