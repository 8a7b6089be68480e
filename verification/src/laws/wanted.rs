//! A replication with a filter brings what the filter asks for, and nothing else.

use vstd::prelude::*;

use crate::digest::DigestView;
use crate::glob;
use crate::laws::copy;
use crate::laws::refers;
use crate::laws::replica;
use crate::manifest::Manifest;
use crate::model;
use crate::model::{Holdings, Reading};
use crate::multi::MultiStore;
use crate::replicate;
use crate::storage::{Call, ReferenceView, Storage};
use crate::transfer;
use crate::transfer::TagPointerView;
use crate::walk;
use crate::walk::{Found, Place};

verus! {

/// The manifest is reached in `n` steps, from a tag that the filter matches to its manifest
/// and from there from parent to child.
pub open spec fn is_reached(read: Reading, h: Holdings, g: Seq<char>, p: Place, n: nat) -> bool
    decreases n,
{
    if n == 0 {
        exists|t: Seq<char>|
            glob::matches(g, t) && #[trigger] h.tags.contains_key((p.0, t)) && h.tags[(p.0, t)]
                == p.1
    } else {
        exists|d: DigestView| #[trigger]
            is_parent(read, h, p.0, d, p.1) && is_reached(read, h, g, (p.0, d), (n - 1) as nat)
    }
}

/// The manifest `d` of the repository lists `child`.
pub open spec fn is_parent(
    read: Reading,
    h: Holdings,
    repo: Seq<char>,
    d: DigestView,
    child: DigestView,
) -> bool {
    &&& h.manifests.contains_key((repo, d))
    &&& read(h.manifests[(repo, d)]) matches Some(m) && refers::has_as_child(m, child)
}

/// The filter asks for the manifest.
pub open spec fn is_wanted(read: Reading, h: Holdings, g: Seq<char>, p: Place) -> bool {
    exists|n: nat| #[trigger] is_reached(read, h, g, p, n)
}

/// What a call of a search shows is what the source holds there.
proof fn lemma_told(read: Reading, src: Holdings, w: Seq<Call>, k: int, p: Place, refs: Option<Manifest>)
    requires
        src.sound(),
        copy::all_told(read, src, w),
        0 <= k < w.len(),
        walk::shown(w[k]) == Some((p, refs)),
    ensures
        src.manifests.contains_key(p),
        refs == read(src.manifests[p]),
        w[k]->ManifestGet_reference matches ReferenceView::Tag(t) ==> src.tags.contains_key(
            (p.0, t),
        ) && src.tags[(p.0, t)] == p.1,
{
    assert(model::step(read, src, w[k], src));
    match w[k] {
        Call::ManifestGet { repo, reference: ReferenceView::Tag(t), reply: Ok((content, x)) } => {
            let q: Place = (repo, src.tags[(repo, t)]);
            assert(src.led_to(repo, ReferenceView::Tag(t)) == Some(q));
            assert(content == src.manifests[q]);
            assert(model::named(src.manifests[q]) == q.1);
            assert(p == q);
        },
        _ => {},
    }
}

proof fn lemma_shown_is_wanted(
    read: Reading,
    src: Holdings,
    w: Seq<Call>,
    g: Seq<char>,
    found: Found,
    tags: Seq<TagPointerView>,
    k: int,
    p: Place,
)
    requires
        src.sound(),
        copy::all_told(read, src, w),
        transfer::search_state(w, Some(g), found, tags),
        0 <= k < w.len(),
        walk::shows(w[k], p),
    ensures
        is_wanted(read, src, g, p),
    decreases k,
{
    let here = walk::shown(w[k])->0;
    let refs = here.1;
    lemma_told(read, src, w, k, p, refs);
    assert(transfer::reasoned_at(w, Some(g), k));
    match w[k]->ManifestGet_reference {
        ReferenceView::Tag(t) => {
            assert(transfer::selected(Some(g), t));
            assert(src.tags.contains_key((p.0, t)));
            assert(is_reached(read, src, g, p, 0));
        },
        ReferenceView::Digest(d) => {
            let before = w.take(k);
            assert(walk::parent_shown(before, p));
            let j = choose|j: int| 0 <= j < before.len() && walk::is_child(#[trigger] before[j], p);
            assert(before[j] == w[j]);
            let (q, of) = walk::shown(w[j])->0;
            let m = of->0;
            lemma_told(read, src, w, j, q, Some(m));
            lemma_shown_is_wanted(read, src, w, g, found, tags, j, q);
            let n = choose|n: nat| #[trigger] is_reached(read, src, g, q, n);
            refers::lemma_has(m);
            assert(is_parent(read, src, p.0, q.1, p.1));
            assert(q == (p.0, q.1));
            assert(is_reached(read, src, g, p, n + 1));
        },
    }
}

/// A search with a filter finds no manifest that the filter does not ask for.
pub proof fn only_what_is_wanted_is_found(
    read: Reading,
    src: Holdings,
    w: Seq<Call>,
    g: Seq<char>,
    found: Found,
    tags: Seq<TagPointerView>,
    p: Place,
)
    requires
        src.sound(),
        copy::all_told(read, src, w),
        transfer::search_state(w, Some(g), found, tags),
        found.manifests@.contains(p),
    ensures
        is_wanted(read, src, g, p),
{
    assert(walk::some_shows(w, p));
    let k = choose|k: int| 0 <= k < w.len() && walk::shows(#[trigger] w[k], p);
    lemma_shown_is_wanted(read, src, w, g, found, tags, k, p);
}

/// What the call puts is a manifest that was found.
proof fn lemma_put_is_found(
    read: Reading,
    src: Holdings,
    w: Seq<Call>,
    u: Seq<Call>,
    v: Seq<Call>,
    filter: Option<Seq<char>>,
    found: Found,
    tags: Seq<TagPointerView>,
    k: int,
)
    requires
        src.sound(),
        copy::all_told(read, src, u),
        transfer::search_state(w, filter, found, tags),
        transfer::honest(u, v, true),
        transfer::tags_right(u, v, tags),
        transfer::asked_for(u, found.manifests@, found.blobs@, tags),
        0 <= k < v.len(),
        v[k] is ManifestPut,
    ensures
        found.manifests@.contains(
            (v[k]->ManifestPut_repo, model::named(v[k]->ManifestPut_content)),
        ),
{
    let repo = v[k]->ManifestPut_repo;
    let content = v[k]->ManifestPut_content;
    assert(transfer::in_order(u, v.take(k), v[k], true));
    match v[k]->ManifestPut_reference {
        ReferenceView::Digest(d) => {
            let p = (repo, d);
            copy::lemma_gave(read, src, u, p, content);
            assert(model::named(content) == d);
            let refs = choose|refs: Option<Manifest>| #[trigger]
                u.contains(
                    Call::ManifestGet {
                        repo,
                        reference: ReferenceView::Digest(d),
                        reply: Ok((content, refs)),
                    },
                );
            let c = Call::ManifestGet {
                repo,
                reference: ReferenceView::Digest(d),
                reply: Ok((content, refs)),
            };
            let j = choose|j: int| 0 <= j < u.len() && u[j] == c;
            assert(transfer::asks_wanted(u[j], found.manifests@, found.blobs@, tags));
            if exists|i: int|
                0 <= i < tags.len() && transfer::asks_manifest(
                    u[j],
                    transfer::place((#[trigger] tags[i]).repo, tags[i].digest),
                ) {
                let i = choose|i: int|
                    0 <= i < tags.len() && transfer::asks_manifest(
                        u[j],
                        transfer::place((#[trigger] tags[i]).repo, tags[i].digest),
                    );
                copy::lemma_pointer_found(w, found, tags, filter, i);
            }
        },
        ReferenceView::Tag(_) => {
            assert(transfer::writes_tag(v[k]));
            let i = choose|i: int|
                0 <= i < tags.len() && transfer::points(u, v[k], #[trigger] tags[i]);
            let p = transfer::place(tags[i].repo, tags[i].digest);
            copy::lemma_gave(read, src, u, p, content);
            copy::lemma_pointer_found(w, found, tags, filter, i);
        },
    }
}

proof fn lemma_added_is_found(
    read: Reading,
    src: Holdings,
    w: Seq<Call>,
    u: Seq<Call>,
    v: Seq<Call>,
    hs: Seq<Holdings>,
    filter: Option<Seq<char>>,
    found: Found,
    tags: Seq<TagPointerView>,
    n: int,
    p: Place,
)
    requires
        src.sound(),
        copy::all_told(read, src, u),
        model::works(read, hs, v),
        transfer::search_state(w, filter, found, tags),
        transfer::honest(u, v, true),
        transfer::tags_right(u, v, tags),
        transfer::asked_for(u, found.manifests@, found.blobs@, tags),
        0 <= n <= v.len(),
    ensures
        hs[n].manifests.contains_key(p) ==> hs[0].manifests.contains_key(p)
            || found.manifests@.contains(p),
    decreases n,
{
    if n > 0 {
        let k = n - 1;
        lemma_added_is_found(read, src, w, u, v, hs, filter, found, tags, k, p);
        assert(model::step(read, hs[k], v[k], hs[k + 1]));
        assert(transfer::in_order(u, v.take(k), v[k], true));
        if v[k] is ManifestPut {
            lemma_put_is_found(read, src, w, u, v, filter, found, tags, k);
        }
    }
}

/// A pass with a filter adds no manifest to a secondary that the filter does not ask for.
pub proof fn only_wanted_manifests_are_added<S: Storage>(
    read: Reading,
    was: MultiStore<S>,
    now: MultiStore<S>,
    g: Seq<char>,
    m: int,
    found: Found,
    tags: Seq<TagPointerView>,
    i: int,
    hp: Seq<Holdings>,
    hs: Seq<Holdings>,
    p: Place,
)
    requires
        replicate::replicated(was, now, Some(g), m, found, tags),
        0 <= i < was.partitions@.len(),
        i != was.primary,
        model::works(
            read,
            hp,
            replicate::calls_at(was.partitions@, now.partitions@, was.primary as int),
        ),
        model::works(read, hs, replicate::calls_at(was.partitions@, now.partitions@, i)),
        hp[0].sound(),
        hs.last().manifests.contains_key(p),
        !hs[0].manifests.contains_key(p),
    ensures
        is_wanted(read, hp[0], g, p),
{
    let calls = replicate::calls_at(was.partitions@, now.partitions@, was.primary as int);
    let w = calls.take(m);
    let u = calls.subrange(m, calls.len() as int);
    let v = replicate::calls_at(was.partitions@, now.partitions@, i);
    replica::lemma_primary_quiet(read, was, now, Some(g), m, found, tags, hp);
    assert(replicate::caught_up(was.partitions@, now.partitions@, u, i, found, tags));
    assert(hs.last() == hs[v.len() as int]);
    lemma_added_is_found(
        read,
        hp[0],
        w,
        u,
        v,
        hs,
        Some(g),
        found,
        tags,
        v.len() as int,
        p,
    );
    only_what_is_wanted_is_found(read, hp[0], w, g, found, tags, p);
}

proof fn lemma_tag_stays(
    read: Reading,
    w: Seq<Call>,
    u: Seq<Call>,
    v: Seq<Call>,
    hs: Seq<Holdings>,
    g: Seq<char>,
    found: Found,
    tags: Seq<TagPointerView>,
    n: int,
    repo: Seq<char>,
    t: Seq<char>,
)
    requires
        model::works(read, hs, v),
        transfer::search_state(w, Some(g), found, tags),
        transfer::honest(u, v, true),
        transfer::tags_right(u, v, tags),
        !glob::matches(g, t),
        0 <= n <= v.len(),
    ensures
        hs[n].tags.contains_key((repo, t)) <==> hs[0].tags.contains_key((repo, t)),
        hs[0].tags.contains_key((repo, t)) ==> hs[n].tags[(repo, t)] == hs[0].tags[(repo, t)],
    decreases n,
{
    if n > 0 {
        let k = n - 1;
        lemma_tag_stays(read, w, u, v, hs, g, found, tags, k, repo, t);
        assert(model::step(read, hs[k], v[k], hs[k + 1]));
        assert(transfer::in_order(u, v.take(k), v[k], true));
        if transfer::writes_tag(v[k]) {
            let i = choose|i: int|
                0 <= i < tags.len() && transfer::points(u, v[k], #[trigger] tags[i]);
            assert(transfer::selected(Some(g), tags[i].tag));
            assert(tags[i].tag != t);
        }
    }
}

/// A pass with a filter leaves the tags of a secondary alone that the filter does not match.
pub proof fn other_tags_stay<S: Storage>(
    read: Reading,
    was: MultiStore<S>,
    now: MultiStore<S>,
    g: Seq<char>,
    m: int,
    found: Found,
    tags: Seq<TagPointerView>,
    i: int,
    hs: Seq<Holdings>,
    repo: Seq<char>,
    t: Seq<char>,
)
    requires
        replicate::replicated(was, now, Some(g), m, found, tags),
        0 <= i < was.partitions@.len(),
        i != was.primary,
        model::works(read, hs, replicate::calls_at(was.partitions@, now.partitions@, i)),
        !glob::matches(g, t),
    ensures
        hs.last().tags.contains_key((repo, t)) <==> hs[0].tags.contains_key((repo, t)),
        hs[0].tags.contains_key((repo, t)) ==> hs.last().tags[(repo, t)] == hs[0].tags[(repo, t)],
{
    let calls = replicate::calls_at(was.partitions@, now.partitions@, was.primary as int);
    let u = calls.subrange(m, calls.len() as int);
    let v = replicate::calls_at(was.partitions@, now.partitions@, i);
    assert(replicate::caught_up(was.partitions@, now.partitions@, u, i, found, tags));
    assert(hs.last() == hs[v.len() as int]);
    lemma_tag_stays(
        read,
        calls.take(m),
        u,
        v,
        hs,
        g,
        found,
        tags,
        v.len() as int,
        repo,
        t,
    );
}

} // verus!
