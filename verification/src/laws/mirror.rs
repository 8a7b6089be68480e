//! A copy reads like the original.

use vstd::prelude::*;

use crate::digest::DigestView;
use crate::laws::copy;
use crate::laws::moving;
use crate::laws::replica;
use crate::laws::refers;
use crate::manifest::Manifest;
use crate::migrate;
use crate::migrate::MigrateReport;
use crate::model;
use crate::model::{Holdings, Reading};
use crate::multi::MultiStore;
use crate::replicate;
use crate::replicate::ReplicateReport;
use crate::storage::{Call, ReferenceView, Storage, StorageError};
use crate::transfer;
use crate::transfer::TagPointerView;
use crate::walk::{Found, Place};

verus! {

/// What both hold under one digest is the same.
pub open spec fn agrees(a: Holdings, b: Holdings) -> bool {
    &&& forall|p: Place| #[trigger]
        a.manifests.contains_key(p) && b.manifests.contains_key(p) ==> b.manifests[p]
            == a.manifests[p]
    &&& forall|d: DigestView| #[trigger]
        a.blobs.contains_key(d) && b.blobs.contains_key(d) ==> b.blobs[d] == a.blobs[d]
}

/// A copy writes what the source holds.
proof fn lemma_agrees(
    read: Reading,
    src: Holdings,
    u: Seq<Call>,
    hv: Seq<Holdings>,
    v: Seq<Call>,
    strict: bool,
    n: int,
)
    requires
        src.sound(),
        copy::all_told(read, src, u),
        model::works(read, hv, v),
        transfer::honest(u, v, strict),
        agrees(src, hv[0]),
        0 <= n <= v.len(),
    ensures
        agrees(src, hv[n]),
    decreases n,
{
    if n > 0 {
        let k = n - 1;
        lemma_agrees(read, src, u, hv, v, strict, k);
        let c = v[k];
        assert(transfer::in_order(u, v.take(k), c, strict));
        assert(model::step(read, hv[k], c, hv[k + 1]));
        match c {
            Call::BlobWrite { repo, digest, content, .. } => {
                let q = Call::BlobRead { repo, digest, reply: Ok(content) };
                let i = choose|i: int| 0 <= i < u.len() && u[i] == q;
                assert(model::step(read, src, u[i], src));
                assert(src.blobs[digest] == content);
            },
            Call::ManifestPut { repo, reference, content, .. } => {
                let d = match reference {
                    ReferenceView::Digest(d) => d,
                    ReferenceView::Tag(_) => choose|d: DigestView|
                        transfer::gave(u, #[trigger] transfer::place(repo, d), content),
                };
                copy::lemma_gave(read, src, u, transfer::place(repo, d), content);
                assert(model::named(src.manifests[(repo, d)]) == d);
            },
            _ => {},
        }
    }
}

/// Reads of the tag on `b` give the manifest, byte for byte, that reads of it on `a` give.
pub open spec fn reads_alike(a: Holdings, b: Holdings, repo: Seq<char>, tag: Seq<char>) -> bool {
    let x = ReferenceView::Tag(tag);
    &&& a.led_to(repo, x) is Some
    &&& b.led_to(repo, x) == a.led_to(repo, x)
    &&& b.manifests[b.led_to(repo, x)->0] == a.manifests[a.led_to(repo, x)->0]
}

/// A manifest is on `b` as it is on `a`, and so are the blobs that it needs, as far as
/// they are on `a`.
pub open spec fn is_whole(read: Reading, a: Holdings, b: Holdings, p: Place) -> bool {
    &&& b.manifests.contains_key(p)
    &&& b.manifests[p] == a.manifests[p]
    &&& read(a.manifests[p]) matches Some(m) ==> forall|d: DigestView| #[trigger]
        refers::has_as_blob(m, d) && a.blobs.contains_key(d) ==> b.blobs.contains_key(d)
            && b.blobs[d] == a.blobs[d]
}

proof fn lemma_whole(read: Reading, src: Holdings, dst: Holdings, m: Set<Place>, p: Place)
    requires
        copy::mirrored(read, src, dst, m),
        agrees(src, dst),
        m.contains(p),
    ensures
        is_whole(read, src, dst, p),
{
    assert(src.manifests.contains_key(p));
    assert(copy::has_blobs(read, src, dst, p));
    if let Some(x) = read(src.manifests[p]) {
        assert forall|d: DigestView| #[trigger]
            refers::has_as_blob(x, d) && src.blobs.contains_key(d) implies dst.blobs.contains_key(
            d,
        ) && dst.blobs[d] == src.blobs[d] by {
        }
    }
}

proof fn lemma_reads_alike(src: Holdings, dst: Holdings, t: TagPointerView)
    requires
        copy::true_pointer(src, t),
        copy::true_pointer(dst, t),
        agrees(src, dst),
    ensures
        reads_alike(src, dst, t.repo, t.tag),
{
}

/// A call of a part before that of the tags comes before every tag.
proof fn lemma_before_tags(v: Seq<Call>, k: int, c: Call)
    requires
        transfer::staged(v),
        0 <= k < v.len(),
        transfer::writes_tag(v[k]),
        v.contains(c),
        transfer::part_of(c) < 2,
    ensures
        v.take(k).contains(c),
{
    let i = choose|i: int| 0 <= i < v.len() && v[i] == c;
    if i > k {
        assert(transfer::part_of(v[k]) <= transfer::part_of(v[i]));
    }
    assert(v.take(k)[i] == c);
}

/// When a tag is written, every manifest and every blob that was found is on the target.
pub proof fn lemma_whole_when_tagged(
    read: Reading,
    src: Holdings,
    u: Seq<Call>,
    hv: Seq<Holdings>,
    v: Seq<Call>,
    manifests: Set<Place>,
    blobs: Set<Place>,
    tags: Seq<TagPointerView>,
    strict: bool,
    k: int,
)
    requires
        src.sound(),
        copy::all_told(read, src, u),
        model::works(read, hv, v),
        transfer::honest(u, v, strict),
        transfer::staged(v),
        transfer::all_done(u, v, manifests, blobs, tags, strict),
        0 <= k < v.len(),
        transfer::writes_tag(v[k]),
    ensures
        forall|p: Place| #[trigger]
            manifests.contains(p) && src.manifests.contains_key(p) ==> hv[k].manifests.contains_key(
                p,
            ),
        forall|p: Place| #[trigger]
            blobs.contains(p) && src.blobs.contains_key(p.1) ==> hv[k].blobs.contains_key(p.1),
{
    let w = v.take(k);
    assert(w =~= v.subrange(0, k));
    model::lemma_part(read, hv, v, 0, k);
    let hw = hv.subrange(0, k + 1);
    assert forall|i: int| 0 <= i < w.len() implies transfer::is_addition(#[trigger] w[i]) by {
        assert(w[i] == v[i]);
        assert(transfer::in_order(u, v.take(i), v[i], strict));
    }
    assert forall|p: Place| #[trigger]
        manifests.contains(p) && src.manifests.contains_key(p) implies hv[k].manifests.contains_key(
        p,
    ) by {
        assert(transfer::manifest_done(u, v, p, strict));
        lemma_manifest_before(u, v, k, p, strict);
        copy::lemma_manifest_done(read, src, u, hw, w, p, strict);
    }
    assert forall|p: Place| #[trigger]
        blobs.contains(p) && src.blobs.contains_key(p.1) implies hv[k].blobs.contains_key(p.1) by {
        assert(transfer::blob_done(u, v, p));
        lemma_blob_before(u, v, k, p);
        copy::lemma_blob_done(read, src, u, hw, w, p);
    }
}

proof fn lemma_blob_before(u: Seq<Call>, v: Seq<Call>, k: int, p: Place)
    requires
        transfer::staged(v),
        0 <= k < v.len(),
        transfer::writes_tag(v[k]),
        transfer::blob_done(u, v, p),
    ensures
        transfer::blob_done(u, v.take(k), p),
{
    let yes = Call::BlobExists { repo: p.0, digest: p.1, reply: Ok(true) };
    let no = Call::BlobExists { repo: p.0, digest: p.1, reply: Ok(false) };
    if v.contains(yes) {
        lemma_before_tags(v, k, yes);
    } else {
        lemma_before_tags(v, k, no);
        if exists|content: Seq<u8>| #[trigger]
            u.contains(Call::BlobRead { repo: p.0, digest: p.1, reply: Ok(content) })
                && transfer::took_blob(v, p, content) {
            let content = choose|content: Seq<u8>| #[trigger]
                u.contains(Call::BlobRead { repo: p.0, digest: p.1, reply: Ok(content) })
                    && transfer::took_blob(v, p, content);
            let x = choose|x: ()| #[trigger]
                v.contains(Call::BlobWrite { repo: p.0, digest: p.1, content, reply: Ok(x) });
            lemma_before_tags(
                v,
                k,
                Call::BlobWrite { repo: p.0, digest: p.1, content, reply: Ok(x) },
            );
            assert(transfer::took_blob(v.take(k), p, content));
        }
    }
}

proof fn lemma_manifest_before(u: Seq<Call>, v: Seq<Call>, k: int, p: Place, strict: bool)
    requires
        transfer::staged(v),
        0 <= k < v.len(),
        transfer::writes_tag(v[k]),
        transfer::manifest_done(u, v, p, strict),
    ensures
        transfer::manifest_done(u, v.take(k), p, strict),
{
    let w = v.take(k);
    if transfer::held(v, p) {
        let x = choose|x: (Seq<u8>, Option<Manifest>)| #[trigger]
            v.contains(
                Call::ManifestGet {
                    repo: p.0,
                    reference: ReferenceView::Digest(p.1),
                    reply: Ok(x),
                },
            );
        lemma_before_tags(
            v,
            k,
            Call::ManifestGet { repo: p.0, reference: ReferenceView::Digest(p.1), reply: Ok(x) },
        );
        assert(transfer::held(w, p));
    } else {
        let e = choose|e: StorageError| #[trigger]
            v.contains(
                Call::ManifestGet {
                    repo: p.0,
                    reference: ReferenceView::Digest(p.1),
                    reply: Err(e),
                },
            ) && (strict ==> e == StorageError::NotFound);
        lemma_before_tags(
            v,
            k,
            Call::ManifestGet { repo: p.0, reference: ReferenceView::Digest(p.1), reply: Err(e) },
        );
        assert(transfer::lacked(w, p, strict));
        if exists|content: Seq<u8>| #[trigger]
            transfer::gave(u, p, content) && transfer::took(
                v,
                p.0,
                ReferenceView::Digest(p.1),
                content,
            ) {
            let content = choose|content: Seq<u8>| #[trigger]
                transfer::gave(u, p, content) && transfer::took(
                    v,
                    p.0,
                    ReferenceView::Digest(p.1),
                    content,
                );
            let d = choose|d: DigestView| #[trigger]
                v.contains(
                    Call::ManifestPut {
                        repo: p.0,
                        reference: ReferenceView::Digest(p.1),
                        content,
                        reply: Ok(d),
                    },
                );
            lemma_before_tags(
                v,
                k,
                Call::ManifestPut {
                    repo: p.0,
                    reference: ReferenceView::Digest(p.1),
                    content,
                    reply: Ok(d),
                },
            );
            assert(transfer::took(w, p.0, ReferenceView::Digest(p.1), content));
        }
    }
}

/// A copy of what a search found, in one: when a tag is written, all that was found is on
/// the target already; in the end every tag that was found reads on the target as it does
/// on the source, and every manifest that was found is there whole; nothing was deleted,
/// and what the target held it still holds.
pub proof fn copy_in_one(
    read: Reading,
    src: Holdings,
    w: Seq<Call>,
    u: Seq<Call>,
    hv: Seq<Holdings>,
    v: Seq<Call>,
    filter: Option<Seq<char>>,
    found: Found,
    tags: Seq<TagPointerView>,
    strict: bool,
)
    requires
        src.sound(),
        copy::all_told(read, src, w),
        copy::all_told(read, src, u),
        model::works(read, hv, v),
        transfer::search_state(w, filter, found, tags),
        transfer::copying(u, v, strict),
        transfer::tags_right(u, v, tags),
        transfer::all_done(u, v, found.manifests@, found.blobs@, tags, strict),
        agrees(src, hv[0]),
    ensures
        forall|k: int, p: Place|
            0 <= k < v.len() && transfer::writes_tag(#[trigger] v[k])
                && #[trigger] found.manifests@.contains(p) && src.manifests.contains_key(p)
                ==> hv[k].manifests.contains_key(p),
        forall|k: int, p: Place|
            0 <= k < v.len() && transfer::writes_tag(#[trigger] v[k])
                && #[trigger] found.blobs@.contains(p) && src.blobs.contains_key(p.1)
                ==> hv[k].blobs.contains_key(p.1),
        forall|i: int|
            0 <= i < tags.len() ==> reads_alike(
                src,
                hv.last(),
                (#[trigger] tags[i]).repo,
                tags[i].tag,
            ),
        forall|p: Place| #[trigger]
            found.manifests@.contains(p) ==> is_whole(read, src, hv.last(), p),
        copy::spares(v),
        copy::includes(hv.last(), hv[0]),
        agrees(src, hv.last()),
{
    copy::copy_brings_everything(read, src, w, u, hv, v, filter, found, tags, strict);
    lemma_agrees(read, src, u, hv, v, strict, v.len() as int);
    let dst = hv.last();
    assert forall|k: int, p: Place|
        0 <= k < v.len() && transfer::writes_tag(#[trigger] v[k])
            && #[trigger] found.manifests@.contains(p) && src.manifests.contains_key(p) implies hv[k].manifests.contains_key(
        p,
    ) by {
        lemma_whole_when_tagged(
            read,
            src,
            u,
            hv,
            v,
            found.manifests@,
            found.blobs@,
            tags,
            strict,
            k,
        );
    }
    assert forall|k: int, p: Place|
        0 <= k < v.len() && transfer::writes_tag(#[trigger] v[k])
            && #[trigger] found.blobs@.contains(p) && src.blobs.contains_key(p.1) implies hv[k].blobs.contains_key(
        p.1,
    ) by {
        lemma_whole_when_tagged(
            read,
            src,
            u,
            hv,
            v,
            found.manifests@,
            found.blobs@,
            tags,
            strict,
            k,
        );
    }
    assert forall|i: int| 0 <= i < tags.len() implies reads_alike(
        src,
        dst,
        (#[trigger] tags[i]).repo,
        tags[i].tag,
    ) by {
        lemma_reads_alike(src, dst, tags[i]);
    }
    assert forall|p: Place| #[trigger] found.manifests@.contains(p) implies is_whole(
        read,
        src,
        dst,
        p,
    ) by {
        lemma_whole(read, src, dst, found.manifests@, p);
    }
    assert forall|k: int| 0 <= k < v.len() implies !((#[trigger] v[k]) is BlobDelete) && !(
    v[k] is ManifestDelete) by {
        assert(transfer::in_order(u, v.take(k), v[k], strict));
    }
}

/// A copy that breaks off before it got past the blobs has put no manifest on the target.
pub proof fn broken_off_at_the_blobs_adds_no_manifest(
    u: Seq<Call>,
    v: Seq<Call>,
    strict: bool,
    e: StorageError,
)
    requires
        transfer::copy_failed(u, v, strict, e),
        v.len() > 0 ==> v.last() is BlobExists || v.last() is BlobWrite,
    ensures
        forall|i: int| 0 <= i < v.len() ==> !((#[trigger] v[i]) is ManifestPut),
{
    assert forall|i: int| 0 <= i < v.len() implies !((#[trigger] v[i]) is ManifestPut) by {
        let n = v.len() - 1;
        if i < n {
            assert(transfer::part_of(v[i]) <= transfer::part_of(v[n]));
        }
    }
}

/// The copy of a repository, in one: the source is only read; the repository is on the
/// target whole, its tags reading there as on the source; of the report only the three
/// numbers of a copy change, and a second copy changes none.
pub proof fn repository_copy_in_one(
    read: Reading,
    su: Seq<Holdings>,
    u: Seq<Call>,
    hv: Seq<Holdings>,
    v: Seq<Call>,
    su2: Seq<Holdings>,
    u2: Seq<Call>,
    hv2: Seq<Holdings>,
    v2: Seq<Call>,
    repo: Seq<char>,
    r0: MigrateReport,
    r1: MigrateReport,
    r2: MigrateReport,
)
    requires
        model::works(read, su, u),
        model::works(read, hv, v),
        transfer::gentle(u, v),
        migrate::repo_copied(u, v, repo),
        migrate::counted_copy(v, r0, r1),
        su[0].sound(),
        agrees(su[0], hv[0]),
        model::works(read, su2, u2),
        model::works(read, hv2, v2),
        su2[0] == su.last(),
        hv2[0] == hv.last(),
        transfer::gentle(u2, v2),
        migrate::repo_copied(u2, v2, repo),
        migrate::counted_copy(v2, r1, r2),
    ensures
        su.last() == su[0],
        forall|t: Seq<char>| #[trigger]
            su[0].tags.contains_key((repo, t)) ==> reads_alike(su[0], hv.last(), repo, t),
        forall|d: DigestView| #[trigger]
            su[0].manifests.contains_key((repo, d)) ==> is_whole(
                read,
                su[0],
                hv.last(),
                (repo, d),
            ),
        r1 == (MigrateReport {
            blobs_copied: r1.blobs_copied,
            bytes_copied: r1.bytes_copied,
            manifests_copied: r1.manifests_copied,
            ..r0
        }),
        r2 == r1,
{
    copy::lemma_reads(read, su, u);
    copy::lemma_reads(read, su2, u2);
    assert(su.last() == su[su.len() - 1]);
    let src = su[0];
    let dst = hv.last();
    let (m, found, tags) = choose|m: int, found: Found, tags: Seq<TagPointerView>| #[trigger]
        migrate::repo_copied_at(u, v, repo, m, found, tags);
    let w = u.take(m);
    let rest = u.subrange(m, u.len() as int);
    assert forall|k: int| 0 <= k < w.len() implies model::step(read, src, #[trigger] w[k], src) by {
        assert(w[k] == u[k]);
    }
    assert forall|k: int| 0 <= k < rest.len() implies model::step(
        read,
        src,
        #[trigger] rest[k],
        src,
    ) by {
        assert(rest[k] == u[m + k]);
    }
    copy_in_one(read, src, w, rest, hv, v, None, found, tags, false);
    copy::search_finds_all(read, src, w, repo, None, found.manifests@, tags);
    assert forall|t: Seq<char>| #[trigger] src.tags.contains_key((repo, t)) implies reads_alike(
        src,
        dst,
        repo,
        t,
    ) by {
        assert(transfer::selected(None, t));
        let x = choose|x: TagPointerView| #[trigger]
            tags.contains(x) && x.repo == repo && x.tag == t;
        let q = choose|q: int| 0 <= q < tags.len() && tags[q] == x;
        assert(reads_alike(src, dst, tags[q].repo, tags[q].tag));
    }
    assert forall|d: DigestView| #[trigger]
        src.manifests.contains_key((repo, d)) implies is_whole(read, src, dst, (repo, d)) by {
        assert(found.manifests@.contains((repo, d)));
    }
    moving::second_copy_copies_nothing(read, src, u, hv, v, u2, hv2, v2, repo, r1, r2);
}

/// Every tag that passes the filter and leads to a manifest on the primary reads on the
/// secondary as it does there; every manifest such a tag leads to is on the secondary
/// whole, and without a filter every manifest is.
pub open spec fn is_replica(
    read: Reading,
    src: Holdings,
    dst: Holdings,
    filter: Option<Seq<char>>,
) -> bool {
    &&& forall|repo: Seq<char>, t: Seq<char>| #[trigger]
        src.tags.contains_key((repo, t)) && transfer::selected(filter, t)
            && src.manifests.contains_key((repo, src.tags[(repo, t)])) ==> reads_alike(
            src,
            dst,
            repo,
            t,
        ) && is_whole(read, src, dst, (repo, src.tags[(repo, t)]))
    &&& filter is None ==> forall|p: Place| #[trigger]
        src.manifests.contains_key(p) ==> is_whole(read, src, dst, p)
}

/// Replication, in one: the primary is unchanged; every secondary is a replica of it and
/// has lost nothing; the report says how many there are; and a second pass right after
/// copies nothing.
///
/// `first[i]` and `second[i]` are what the partition `i` holds during the two passes.
pub proof fn replication_in_one<S: Storage>(
    read: Reading,
    was: MultiStore<S>,
    mid: MultiStore<S>,
    now: MultiStore<S>,
    filter: Option<Seq<char>>,
    m1: int,
    found1: Found,
    tags1: Seq<TagPointerView>,
    r1: ReplicateReport,
    m2: int,
    found2: Found,
    tags2: Seq<TagPointerView>,
    r2: ReplicateReport,
    first: Seq<Seq<Holdings>>,
    second: Seq<Seq<Holdings>>,
)
    requires
        replicate::replicated(was, mid, filter, m1, found1, tags1),
        replicate::reported(was, mid, r1),
        replicate::replicated(mid, now, filter, m2, found2, tags2),
        replicate::reported(mid, now, r2),
        mid.primary == was.primary,
        was.primary < was.partitions@.len(),
        mid.partitions@.len() == was.partitions@.len(),
        first.len() == was.partitions@.len(),
        second.len() == was.partitions@.len(),
        forall|i: int|
            0 <= i < first.len() ==> model::works(
                read,
                #[trigger] first[i],
                replicate::calls_at(was.partitions@, mid.partitions@, i),
            ),
        forall|i: int|
            0 <= i < second.len() ==> model::works(
                read,
                #[trigger] second[i],
                replicate::calls_at(mid.partitions@, now.partitions@, i),
            ),
        forall|i: int|
            0 <= i < second.len() ==> (#[trigger] second[i])[0] == first[i].last(),
        first[was.primary as int][0].sound(),
        forall|i: int|
            0 <= i < first.len() ==> agrees(
                first[was.primary as int][0],
                (#[trigger] first[i])[0],
            ),
    ensures
        ({
            let src = first[was.primary as int][0];
            &&& first[was.primary as int].last() == src
            &&& forall|i: int|
                0 <= i < first.len() && i != was.primary ==> is_replica(
                    read,
                    src,
                    (#[trigger] first[i]).last(),
                    filter,
                ) && copy::includes(first[i].last(), first[i][0])
            &&& r1.partitions_scanned == was.partitions@.len() - 1
            &&& r2.partitions_scanned == was.partitions@.len() - 1
            &&& r2.blobs_copied == 0
            &&& r2.bytes_copied == 0
            &&& r2.manifests_copied == 0
        }),
{
    let p = was.primary as int;
    let src = first[p][0];
    let calls = replicate::calls_at(was.partitions@, mid.partitions@, p);
    let u = calls.subrange(m1, calls.len() as int);
    assert(model::works(read, first[p], calls));
    replica::lemma_primary_quiet(read, was, mid, filter, m1, found1, tags1, first[p]);
    assert forall|i: int| 0 <= i < first.len() && i != p implies is_replica(
        read,
        src,
        (#[trigger] first[i]).last(),
        filter,
    ) && copy::includes(first[i].last(), first[i][0]) by {
        let dst = first[i].last();
        let v = replicate::calls_at(was.partitions@, mid.partitions@, i);
        assert(model::works(read, first[i], v));
        assert(agrees(src, first[i][0]));
        replica::replica_has_everything(
            read,
            was,
            mid,
            filter,
            m1,
            found1,
            tags1,
            i,
            first[p],
            first[i],
        );
        assert(replicate::caught_up(was.partitions@, mid.partitions@, u, i, found1, tags1));
        lemma_agrees(read, src, u, first[i], v, true, v.len() as int);
        assert forall|repo: Seq<char>, t: Seq<char>| #[trigger]
            src.tags.contains_key((repo, t)) && transfer::selected(filter, t)
                && src.manifests.contains_key((repo, src.tags[(repo, t)])) implies reads_alike(
            src,
            dst,
            repo,
            t,
        ) && is_whole(read, src, dst, (repo, src.tags[(repo, t)])) by {
            lemma_whole(read, src, dst, found1.manifests@, (repo, src.tags[(repo, t)]));
        }
        if filter is None {
            assert forall|q: Place| #[trigger] src.manifests.contains_key(q) implies is_whole(
                read,
                src,
                dst,
                q,
            ) by {
                lemma_whole(read, src, dst, found1.manifests@, q);
            }
        }
    }
    replica::second_pass_copies_nothing(
        read,
        was,
        mid,
        now,
        filter,
        m1,
        found1,
        tags1,
        m2,
        found2,
        tags2,
        r2,
        first,
        second,
    );
}

} // verus!
