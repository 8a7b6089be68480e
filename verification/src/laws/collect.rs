//! Garbage collection removes exactly what is not in use.

use vstd::prelude::*;

use crate::digest::DigestView;
use crate::gc;
use crate::gc::GcReport;
use crate::laws::refers;
use crate::model;
use crate::model::{Holdings, Reading};
use crate::storage;
use crate::storage::{Call, StorageError};
use crate::walk::Place;

verus! {

/// The manifest at `p` is `d`, or it references `d`.
pub open spec fn uses(read: Reading, h: Holdings, p: Place, d: DigestView) -> bool {
    &&& h.manifests.contains_key(p)
    &&& p.1 == d || (read(h.manifests[p]) is Some && refers::has(
        read(h.manifests[p])->0,
        d,
    ))
}

/// A manifest is `d` or references it.
pub open spec fn in_use(read: Reading, h: Holdings, d: DigestView) -> bool {
    exists|p: Place| #[trigger] uses(read, h, p, d)
}

/// A manifest of one of `repos` is `d` or references it.
pub open spec fn in_use_by(read: Reading, h: Holdings, repos: Seq<Seq<char>>, d: DigestView) -> bool {
    exists|p: Place| #[trigger] uses(read, h, p, d) && repos.contains(p.0)
}

pub proof fn lemma_marked_concat(a: Seq<Call>, b: Seq<Call>)
    ensures
        gc::marked(a + b) == gc::marked(a).union(gc::marked(b)),
    decreases b.len(),
{
    if b.len() == 0 {
        assert(a + b =~= a);
        assert(gc::marked(a) =~= gc::marked(a).union(gc::marked(b)));
    } else {
        lemma_marked_concat(a, b.drop_last());
        assert((a + b).drop_last() =~= a + b.drop_last());
        assert((a + b).last() == b.last());
        assert(gc::marked(a + b) =~= gc::marked(a).union(gc::marked(b)));
    }
}

pub proof fn lemma_marked(calls: Seq<Call>, d: DigestView)
    ensures
        gc::marked(calls).contains(d) <==> exists|i: int|
            0 <= i < calls.len() && gc::marks(#[trigger] calls[i]).contains(d),
    decreases calls.len(),
{
    if calls.len() > 0 {
        let rest = calls.drop_last();
        lemma_marked(rest, d);
        if gc::marked(rest).contains(d) {
            let i = choose|i: int| 0 <= i < rest.len() && gc::marks(#[trigger] rest[i]).contains(d);
            assert(calls[i] == rest[i]);
        }
        if gc::marks(calls.last()).contains(d) {
            assert(calls[calls.len() - 1] == calls.last());
        }
        if exists|i: int| 0 <= i < calls.len() && gc::marks(#[trigger] calls[i]).contains(d) {
            let i = choose|i: int| 0 <= i < calls.len() && gc::marks(#[trigger] calls[i]).contains(d);
            if i < rest.len() {
                assert(rest[i] == calls[i]);
            }
        }
    }
}

/// All calls are answered by a store that holds `h`.
pub open spec fn all_answered(read: Reading, h: Holdings, calls: Seq<Call>) -> bool {
    forall|i: int| 0 <= i < calls.len() ==> model::step(read, h, #[trigger] calls[i], h)
}

/// Marking one repository finds what its manifests use.
proof fn lemma_repo_marked(read: Reading, h: Holdings, calls: Seq<Call>, repo: Seq<char>, d: DigestView)
    requires
        gc::repo_marked(calls, repo),
        all_answered(read, h, calls),
    ensures
        gc::marked(calls).contains(d) <==> exists|p: Place|
            #[trigger] uses(read, h, p, d) && p.0 == repo,
{
    lemma_marked(calls, d);
    let ds = calls[0]->ListManifestDigests_reply->Ok_0;
    assert(model::step(read, h, calls[0], h));
    if gc::marked(calls).contains(d) {
        let i = choose|i: int| 0 <= i < calls.len() && gc::marks(#[trigger] calls[i]).contains(d);
        if i == 0 {
            assert(ds.contains(d));
            assert(uses(read, h, (repo, d), d));
        } else {
            let j = i - 1;
            assert(calls[1 + j] == calls[i]);
            assert(model::step(read, h, calls[i], h));
            let p = (repo, ds[j]);
            refers::lemma_has(read(h.manifests[p])->0);
            assert(uses(read, h, p, d));
        }
    }
    if exists|p: Place| #[trigger] uses(read, h, p, d) && p.0 == repo {
        let p = choose|p: Place| #[trigger] uses(read, h, p, d) && p.0 == repo;
        assert(p == (repo, p.1));
        assert(ds.contains(p.1));
        if p.1 == d {
            assert(gc::marks(calls[0]).contains(d));
        } else {
            let j = choose|j: int| 0 <= j < ds.len() && ds[j] == p.1;
            assert(calls[1 + j] is ManifestGet);
            assert(model::step(read, h, calls[1 + j], h));
            refers::lemma_has(read(h.manifests[p])->0);
            assert(gc::marks(calls[1 + j]).contains(d));
        }
    }
}

/// Marking repositories finds what their manifests use, and changes nothing.
proof fn lemma_repos_marked(
    read: Reading,
    h: Holdings,
    calls: Seq<Call>,
    repos: Seq<Seq<char>>,
    d: DigestView,
)
    requires
        gc::repos_marked(calls, repos),
        all_answered(read, h, calls),
    ensures
        gc::marked(calls).contains(d) <==> in_use_by(read, h, repos, d),
    decreases repos.len(),
{
    if repos.len() == 0 {
        assert(calls =~= Seq::<Call>::empty());
    } else {
        let n = choose|n: int|
            0 <= n <= calls.len() && #[trigger] gc::repo_marked(
                calls.subrange(n, calls.len() as int),
                repos.last(),
            ) && gc::repos_marked(calls.subrange(0, n), repos.drop_last());
        let a = calls.subrange(0, n);
        let b = calls.subrange(n, calls.len() as int);
        assert(all_answered(read, h, a)) by {
            assert forall|i: int| 0 <= i < a.len() implies model::step(read, h, #[trigger] a[i], h) by {
                assert(a[i] == calls[i]);
            }
        }
        assert(all_answered(read, h, b)) by {
            assert forall|i: int| 0 <= i < b.len() implies model::step(read, h, #[trigger] b[i], h) by {
                assert(b[i] == calls[n + i]);
            }
        }
        lemma_repos_marked(read, h, a, repos.drop_last(), d);
        lemma_repo_marked(read, h, b, repos.last(), d);
        assert(a + b =~= calls);
        lemma_marked_concat(a, b);
        if in_use_by(read, h, repos, d) {
            let p = choose|p: Place| #[trigger] uses(read, h, p, d) && repos.contains(p.0);
            let i = choose|i: int| 0 <= i < repos.len() && repos[i] == p.0;
            if i < repos.len() - 1 {
                assert(repos.drop_last()[i] == p.0);
                assert(repos.drop_last().contains(p.0));
            }
        }
        if in_use_by(read, h, repos.drop_last(), d) {
            let p = choose|p: Place| #[trigger] uses(read, h, p, d) && repos.drop_last().contains(p.0);
            let i = choose|i: int| 0 <= i < repos.len() - 1 && repos.drop_last()[i] == p.0;
            assert(repos[i] == p.0);
            assert(repos.contains(p.0));
        }
        assert(repos[repos.len() - 1] == repos.last());
    }
}

pub proof fn lemma_marking_is_quiet(calls: Seq<Call>, repos: Seq<Seq<char>>)
    requires
        gc::repos_marked(calls, repos),
    ensures
        forall|i: int| 0 <= i < calls.len() ==> model::quiet(#[trigger] calls[i]),
    decreases repos.len(),
{
    if repos.len() > 0 {
        let n = choose|n: int|
            0 <= n <= calls.len() && #[trigger] gc::repo_marked(
                calls.subrange(n, calls.len() as int),
                repos.last(),
            ) && gc::repos_marked(calls.subrange(0, n), repos.drop_last());
        let a = calls.subrange(0, n);
        let b = calls.subrange(n, calls.len() as int);
        lemma_marking_is_quiet(a, repos.drop_last());
        assert forall|i: int| 0 <= i < calls.len() implies model::quiet(#[trigger] calls[i]) by {
            if i < n {
                assert(a[i] == calls[i]);
            } else {
                assert(b[i - n] == calls[i]);
                if i > n {
                    assert(b[1 + (i - n - 1)] is ManifestGet);
                }
            }
        }
    }
}

/// What the holdings are without a blob.
pub open spec fn without_blob(h: Holdings, blob: DigestView) -> Holdings {
    Holdings { blobs: h.blobs.remove(blob), ..h }
}

proof fn lemma_freed_concat(a: Seq<Call>, b: Seq<Call>)
    requires
        b.len() > 0 ==> !(b[0] is BlobDelete),
    ensures
        gc::deleted(a + b) == gc::deleted(a) + gc::deleted(b),
        gc::freed(a + b) == gc::freed(a) + gc::freed(b),
    decreases b.len(),
{
    if b.len() == 0 {
        assert(a + b =~= a);
    } else {
        let rest = b.drop_last();
        lemma_freed_concat(a, rest);
        assert((a + b).drop_last() =~= a + rest);
        assert((a + b).last() == b.last());
        if b.len() > 1 {
            assert((a + b)[(a + b).len() - 2] == b[b.len() - 2]);
        }
    }
}

/// The number of blobs that leave when `blob` does, and their size.
pub open spec fn one_if(h: Holdings, blob: DigestView) -> nat {
    if h.blobs.contains_key(blob) {
        1
    } else {
        0
    }
}

pub open spec fn size_if(h: Holdings, blob: DigestView) -> nat {
    if h.blobs.contains_key(blob) {
        h.blobs[blob].len()
    } else {
        0
    }
}

/// Taking the size of a blob and deleting it removes it and counts it.
proof fn lemma_deletion(
    read: Reading,
    hs: Seq<Holdings>,
    calls: Seq<Call>,
    repo: Seq<char>,
    blob: DigestView,
)
    requires
        model::works(read, hs, calls),
        calls.len() == 2,
        gc::deletion(calls[0], calls[1], repo, blob),
    ensures
        hs.last() == without_blob(hs[0], blob),
        gc::deleted(calls) == one_if(hs[0], blob),
        gc::freed(calls) == size_if(hs[0], blob),
{
    assert(model::step(read, hs[0], calls[0], hs[1]));
    assert(model::step(read, hs[1], calls[1], hs[2]));
    reveal_with_fuel(gc::deleted, 3);
    reveal_with_fuel(gc::freed, 3);
    assert(calls.drop_last().last() == calls[0]);
    if !hs[0].blobs.contains_key(blob) {
        assert(hs[0].blobs.remove(blob) =~= hs[0].blobs);
    }
}

/// Sweeping a blob with one repository removes it.
proof fn lemma_repo_swept(
    read: Reading,
    hs: Seq<Holdings>,
    calls: Seq<Call>,
    repo: Seq<char>,
    blob: DigestView,
)
    requires
        model::works(read, hs, calls),
        gc::repo_swept(calls, repo, blob),
    ensures
        hs.last() == without_blob(hs[0], blob),
        gc::there(calls[0]) <==> hs[0].blobs.contains_key(blob),
        gc::deleted(calls) == one_if(hs[0], blob),
        gc::freed(calls) == size_if(hs[0], blob),
{
    assert(model::step(read, hs[0], calls[0], hs[1]));
    let first = calls.subrange(0, 1);
    assert(first =~= seq![calls[0]]);
    reveal_with_fuel(gc::deleted, 2);
    reveal_with_fuel(gc::freed, 2);
    if gc::there(calls[0]) {
        let rest = calls.subrange(1, 3);
        model::lemma_part(read, hs, calls, 1, 3);
        lemma_deletion(read, hs.subrange(1, 4), rest, repo, blob);
        lemma_freed_concat(first, rest);
        assert(first + rest =~= calls);
    } else {
        assert(calls =~= first);
        assert(hs[0].blobs.remove(blob) =~= hs[0].blobs);
    }
}

proof fn lemma_repos_swept(
    read: Reading,
    hs: Seq<Holdings>,
    calls: Seq<Call>,
    repos: Seq<Seq<char>>,
    blob: DigestView,
)
    requires
        model::works(read, hs, calls),
        gc::repos_swept(calls, repos, blob),
    ensures
        repos.len() > 0 ==> hs.last() == without_blob(hs[0], blob),
        repos.len() == 0 ==> hs.last() == hs[0],
        gc::found_there(calls) <==> repos.len() > 0 && hs[0].blobs.contains_key(blob),
        repos.len() > 0 ==> gc::deleted(calls) == one_if(hs[0], blob) && gc::freed(calls)
            == size_if(hs[0], blob),
        repos.len() == 0 ==> calls.len() == 0,
        calls.len() > 0 ==> !(calls[0] is BlobDelete),
    decreases repos.len(),
{
    if repos.len() > 0 {
        let n = choose|n: int|
            0 <= n <= calls.len() && #[trigger] gc::repo_swept(
                calls.subrange(n, calls.len() as int),
                repos.last(),
                blob,
            ) && gc::repos_swept(calls.subrange(0, n), repos.drop_last(), blob);
        let e = calls.len() as int;
        let a = calls.subrange(0, n);
        let b = calls.subrange(n, e);
        model::lemma_part(read, hs, calls, 0, n);
        model::lemma_part(read, hs, calls, n, e);
        lemma_repos_swept(read, hs.subrange(0, n + 1), a, repos.drop_last(), blob);
        lemma_repo_swept(read, hs.subrange(n, e + 1), b, repos.last(), blob);
        lemma_freed_concat(a, b);
        assert(a + b =~= calls);
        assert(hs[0].blobs.remove(blob).remove(blob) =~= hs[0].blobs.remove(blob));
        if n > 0 {
            assert(calls[0] == a[0]);
        } else {
            assert(calls[0] == b[0]);
            assert(a =~= Seq::<Call>::empty());
        }
        assert(calls[n] == b[0]);
        if gc::found_there(a) {
            let i = choose|i: int| 0 <= i < a.len() && gc::there(#[trigger] a[i]);
            assert(gc::there(calls[i]));
        }
        if gc::there(b[0]) {
            assert(gc::there(calls[n]));
        }
        if gc::found_there(calls) {
            let i = choose|i: int| 0 <= i < calls.len() && gc::there(#[trigger] calls[i]);
            if i < n {
                assert(gc::there(a[i]));
            } else {
                assert(calls[i] == b[i - n]);
                assert(i == n);
            }
        }
    }
}

/// Sweeping one blob removes it and nothing else, and counts it once.
proof fn lemma_blob_swept(
    read: Reading,
    hs: Seq<Holdings>,
    calls: Seq<Call>,
    repos: Seq<Seq<char>>,
    blob: DigestView,
)
    requires
        model::works(read, hs, calls),
        gc::blob_swept(calls, repos, blob),
    ensures
        hs.last() == without_blob(hs[0], blob),
        gc::deleted(calls) == one_if(hs[0], blob),
        gc::freed(calls) == size_if(hs[0], blob),
        calls.len() > 0 ==> !(calls[0] is BlobDelete),
{
    let k = choose|k: int| #[trigger] gc::swept_at(calls, repos, blob, k);
    let e = calls.len() as int;
    let a = calls.subrange(0, k);
    let b = calls.subrange(k, e);
    model::lemma_part(read, hs, calls, 0, k);
    model::lemma_part(read, hs, calls, k, e);
    lemma_repos_swept(read, hs.subrange(0, k + 1), a, repos, blob);
    let hb = hs.subrange(k, e + 1);
    assert(a + b =~= calls);
    assert(b[0] == calls[k]);
    assert(model::step(read, hb[0], b[0], hb[1]));
    assert(hs[0].blobs.remove(blob).remove(blob) =~= hs[0].blobs.remove(blob));
    if k > 0 {
        assert(calls[0] == a[0]);
    }
    if repos.len() == 0 {
        assert(a =~= Seq::<Call>::empty());
    }
    let first = b.subrange(0, 1);
    assert(first =~= seq![b[0]]);
    reveal_with_fuel(gc::deleted, 2);
    reveal_with_fuel(gc::freed, 2);
    lemma_freed_concat(a, b);
    if b.len() == 3 {
        let rest = b.subrange(1, 3);
        assert(rest[0] == calls[k + 1] && rest[1] == calls[k + 2]);
        model::lemma_part(read, hb, b, 1, 3);
        lemma_deletion(read, hb.subrange(1, 4), rest, ""@, blob);
        lemma_freed_concat(first, rest);
        assert(first + rest =~= b);
    } else {
        assert(b =~= first);
        assert(!hb[0].blobs.contains_key(blob));
    }
    if !hs[0].blobs.contains_key(blob) {
        assert(hs[0].blobs.remove(blob) =~= hs[0].blobs);
    }
}

/// Sweeping removes the listed blobs that are not live, and nothing else.
proof fn lemma_blobs_swept(
    read: Reading,
    hs: Seq<Holdings>,
    calls: Seq<Call>,
    repos: Seq<Seq<char>>,
    live: Set<DigestView>,
    blobs: Seq<DigestView>,
)
    requires
        model::works(read, hs, calls),
        gc::blobs_swept(calls, repos, live, blobs),
    ensures
        hs.last().manifests == hs[0].manifests,
        hs.last().tags == hs[0].tags,
        hs.last().uploads == hs[0].uploads,
        forall|d: DigestView| #[trigger]
            hs.last().blobs.contains_key(d) <==> hs[0].blobs.contains_key(d) && (live.contains(d)
                || !blobs.contains(d)),
        forall|d: DigestView| #[trigger]
            hs.last().blobs.contains_key(d) ==> hs.last().blobs[d] == hs[0].blobs[d],
    decreases blobs.len(),
{
    if blobs.len() == 0 {
    } else {
        let rest = blobs.drop_last();
        assert forall|d: DigestView| #[trigger] blobs.contains(d) <==> rest.contains(d) || d
            == blobs.last() by {
            if blobs.contains(d) {
                let i = choose|i: int| 0 <= i < blobs.len() && blobs[i] == d;
                if i < rest.len() {
                    assert(rest[i] == d);
                }
            }
            if rest.contains(d) {
                let i = choose|i: int| 0 <= i < rest.len() && rest[i] == d;
                assert(blobs[i] == d);
            }
            assert(blobs[blobs.len() - 1] == blobs.last());
        }
        if live.contains(blobs.last()) {
            lemma_blobs_swept(read, hs, calls, repos, live, rest);
        } else {
            let n = choose|n: int|
                0 <= n <= calls.len() && #[trigger] gc::blob_swept(
                    calls.subrange(n, calls.len() as int),
                    repos,
                    blobs.last(),
                ) && gc::blobs_swept(calls.subrange(0, n), repos, live, rest);
            let e = calls.len() as int;
            model::lemma_part(read, hs, calls, 0, n);
            model::lemma_part(read, hs, calls, n, e);
            lemma_blobs_swept(
                read,
                hs.subrange(0, n + 1),
                calls.subrange(0, n),
                repos,
                live,
                rest,
            );
            lemma_blob_swept(
                read,
                hs.subrange(n, e + 1),
                calls.subrange(n, e),
                repos,
                blobs.last(),
            );
        }
    }
}

/// The first two phases change nothing, find what is in use and list the blobs.
proof fn lemma_phases(
    read: Reading,
    hs: Seq<Holdings>,
    calls: Seq<Call>,
    repos: Seq<Seq<char>>,
    blobs: Seq<DigestView>,
    m: int,
)
    requires
        model::works(read, hs, calls),
        gc::phases(calls, repos, blobs, m),
    ensures
        hs[m + 1] == hs[0],
        forall|d: DigestView| #[trigger]
            gc::marked(calls.subrange(1, m)).contains(d) <==> in_use(read, hs[0], d),
        forall|d: DigestView| #[trigger] blobs.contains(d) <==> hs[0].blobs.contains_key(d),
{
    let h = hs[0];
    let marking = calls.subrange(1, m);
    lemma_marking_is_quiet(marking, repos);
    assert forall|i: int| 0 <= i < m + 1 implies model::quiet(#[trigger] calls[i]) by {
        if 1 <= i < m {
            assert(marking[i - 1] == calls[i]);
        }
    }
    model::lemma_quiet(read, hs, calls, m + 1);
    assert(all_answered(read, h, marking)) by {
        assert forall|i: int| 0 <= i < marking.len() implies model::step(
            read,
            h,
            #[trigger] marking[i],
            h,
        ) by {
            assert(marking[i] == calls[1 + i]);
            assert(model::step(read, hs[1 + i], calls[1 + i], hs[1 + i + 1]));
            assert(hs[1 + i] == hs[0] && hs[1 + i + 1] == hs[0]);
        }
    }
    assert(model::step(read, hs[0], calls[0], hs[1]));
    assert(model::step(read, hs[m], calls[m], hs[m + 1]));
    assert(hs[m] == h && hs[m + 1] == h);
    assert forall|d: DigestView| #[trigger] blobs.contains(d) <==> h.blobs.contains_key(d) by {
        let listed = calls[m]->ListAllBlobs_reply->Ok_0;
        assert(listed == blobs);
        assert(listed.contains(d) <==> h.blobs.contains_key(d));
    }
    assert forall|d: DigestView| #[trigger] gc::marked(marking).contains(d) <==> in_use(
        read,
        h,
        d,
    ) by {
        lemma_repos_marked(read, h, marking, repos, d);
        if in_use(read, h, d) {
            let p = choose|p: Place| #[trigger] uses(read, h, p, d);
            assert(h.manifests.contains_key((p.0, p.1)));
            assert(h.knows(p.0));
            let listed = calls[0]->ListRepos_reply->Ok_0;
            assert(listed.contains(p.0));
            assert(listed == repos);
        }
    }
}

/// After a collection the store holds those of its blobs that are in use, unchanged,
/// and no others. Its manifests, tags and uploads are untouched.
pub proof fn collection_removes_what_is_not_in_use(
    read: Reading,
    hs: Seq<Holdings>,
    calls: Seq<Call>,
    report: GcReport,
)
    requires
        model::works(read, hs, calls),
        gc::collected(calls, report),
    ensures
        hs.last().manifests == hs[0].manifests,
        hs.last().tags == hs[0].tags,
        hs.last().uploads == hs[0].uploads,
        forall|d: DigestView| #[trigger]
            hs.last().blobs.contains_key(d) <==> hs[0].blobs.contains_key(d) && in_use(
                read,
                hs[0],
                d,
            ),
        forall|d: DigestView| #[trigger]
            hs.last().blobs.contains_key(d) ==> hs.last().blobs[d] == hs[0].blobs[d],
{
    let (repos, blobs, m) = choose|repos: Seq<Seq<char>>, blobs: Seq<DigestView>, m: int|
        #[trigger] gc::phases(calls, repos, blobs, m);
    let e = calls.len() as int;
    let live = gc::marked(calls.subrange(1, m));
    lemma_phases(read, hs, calls, repos, blobs, m);
    model::lemma_part(read, hs, calls, m + 1, e);
    let tail = hs.subrange(m + 1, e + 1);
    lemma_blobs_swept(read, tail, calls.subrange(m + 1, e), repos, live, blobs);
    assert(tail[0] == hs[0]);
    assert(tail.last() == hs.last());
    assert forall|d: DigestView| #[trigger]
        hs.last().blobs.contains_key(d) <==> hs[0].blobs.contains_key(d) && in_use(
            read,
            hs[0],
            d,
        ) by {
        assert(blobs.contains(d) <==> hs[0].blobs.contains_key(d));
        assert(live.contains(d) <==> in_use(read, hs[0], d));
        assert(tail.last().blobs.contains_key(d) <==> tail[0].blobs.contains_key(d) && (
        live.contains(d) || !blobs.contains(d)));
    }
}

/// A second collection right after a first deletes nothing.
pub proof fn second_collection_deletes_nothing(
    read: Reading,
    first: Seq<Holdings>,
    calls1: Seq<Call>,
    report1: GcReport,
    second: Seq<Holdings>,
    calls2: Seq<Call>,
    report2: GcReport,
)
    requires
        model::works(read, first, calls1),
        gc::collected(calls1, report1),
        model::works(read, second, calls2),
        gc::collected(calls2, report2),
        second[0] == first.last(),
    ensures
        report2.deleted_blobs == 0,
        report2.deleted_bytes == 0,
        second.last().blobs == second[0].blobs,
{
    collection_removes_what_is_not_in_use(read, first, calls1, report1);
    let h = second[0];
    assert forall|d: DigestView| #[trigger] h.blobs.contains_key(d) implies in_use(read, h, d) by {
        assert(in_use(read, first[0], d));
        let p = choose|p: Place| #[trigger] uses(read, first[0], p, d);
        assert(uses(read, h, p, d));
    }
    lemma_all_in_use(read, second, calls2, report2);
    collection_removes_what_is_not_in_use(read, second, calls2, report2);
    assert(second.last().blobs =~= h.blobs);
}

/// Where every blob is in use, a collection deletes nothing.
proof fn lemma_all_in_use(
    read: Reading,
    hs: Seq<Holdings>,
    calls: Seq<Call>,
    report: GcReport,
)
    requires
        model::works(read, hs, calls),
        gc::collected(calls, report),
        forall|d: DigestView| #[trigger] hs[0].blobs.contains_key(d) ==> in_use(read, hs[0], d),
    ensures
        report.deleted_blobs == 0,
        report.deleted_bytes == 0,
{
    let (repos, blobs, m) = choose|repos: Seq<Seq<char>>, blobs: Seq<DigestView>, m: int|
        #[trigger] gc::phases(calls, repos, blobs, m) && {
            &&& report.deleted_blobs == storage::sat_count(
                gc::deleted(calls.subrange(m + 1, calls.len() as int)),
            )
            &&& report.deleted_bytes == storage::sat(
                gc::freed(calls.subrange(m + 1, calls.len() as int)),
            )
        };
    let live = gc::marked(calls.subrange(1, m));
    lemma_phases(read, hs, calls, repos, blobs, m);
    assert forall|i: int| 0 <= i < blobs.len() implies live.contains(#[trigger] blobs[i]) by {
        let d = blobs[i];
        assert(blobs.contains(d));
        assert(hs[0].blobs.contains_key(d));
    }
    lemma_nothing_swept(calls.subrange(m + 1, calls.len() as int), repos, live, blobs);
}

proof fn lemma_nothing_swept(
    calls: Seq<Call>,
    repos: Seq<Seq<char>>,
    live: Set<DigestView>,
    blobs: Seq<DigestView>,
)
    requires
        gc::blobs_swept(calls, repos, live, blobs),
        forall|i: int| 0 <= i < blobs.len() ==> live.contains(#[trigger] blobs[i]),
    ensures
        calls.len() == 0,
        gc::deleted(calls) == 0,
        gc::freed(calls) == 0,
    decreases blobs.len(),
{
    if blobs.len() > 0 {
        assert(live.contains(blobs[blobs.len() - 1]));
        let rest = blobs.drop_last();
        assert forall|i: int| 0 <= i < rest.len() implies live.contains(#[trigger] rest[i]) by {
            assert(rest[i] == blobs[i]);
        }
        lemma_nothing_swept(calls, repos, live, rest);
    }
}

/// The sizes of some blobs, added up.
pub open spec fn total_size(h: Holdings, blobs: Seq<DigestView>) -> nat
    decreases blobs.len(),
{
    if blobs.len() == 0 {
        0
    } else {
        total_size(h, blobs.drop_last()) + h.blobs[blobs.last()].len()
    }
}

/// `removed` has the blobs that were there before and are not there now, each once.
pub open spec fn are_removed(a: Holdings, b: Holdings, removed: Seq<DigestView>) -> bool {
    &&& removed.no_duplicates()
    &&& forall|d: DigestView| #[trigger]
        removed.contains(d) <==> a.blobs.contains_key(d) && !b.blobs.contains_key(d)
}

proof fn lemma_one_more_removed(
    a: Holdings,
    mid: Holdings,
    b: Holdings,
    before: Seq<DigestView>,
    blob: DigestView,
)
    requires
        are_removed(a, mid, before),
        mid.blobs.contains_key(blob),
        b == without_blob(mid, blob),
        forall|d: DigestView| #[trigger]
            mid.blobs.contains_key(d) ==> a.blobs.contains_key(d) && mid.blobs[d] == a.blobs[d],
    ensures
        are_removed(a, b, before.push(blob)),
{
    let removed = before.push(blob);
    assert(!before.contains(blob));
    assert(removed.no_duplicates());
    assert forall|d: DigestView| #[trigger] removed.contains(d) <==> a.blobs.contains_key(d)
        && !b.blobs.contains_key(d) by {
        if removed.contains(d) {
            let i = choose|i: int| 0 <= i < removed.len() && removed[i] == d;
            if i < before.len() {
                assert(before[i] == d);
                assert(before.contains(d));
            }
        }
        if before.contains(d) {
            let i = choose|i: int| 0 <= i < before.len() && before[i] == d;
            assert(removed[i] == d);
        }
        assert(removed[before.len() as int] == blob);
    }
}

proof fn lemma_sweeps_counted(
    read: Reading,
    hs: Seq<Holdings>,
    calls: Seq<Call>,
    repos: Seq<Seq<char>>,
    live: Set<DigestView>,
    blobs: Seq<DigestView>,
) -> (removed: Seq<DigestView>)
    requires
        model::works(read, hs, calls),
        gc::blobs_swept(calls, repos, live, blobs),
    ensures
        are_removed(hs[0], hs.last(), removed),
        gc::deleted(calls) == removed.len(),
        gc::freed(calls) == total_size(hs[0], removed),
        calls.len() > 0 ==> !(calls[0] is BlobDelete),
    decreases blobs.len(),
{
    if blobs.len() == 0 {
        Seq::empty()
    } else if live.contains(blobs.last()) {
        lemma_sweeps_counted(read, hs, calls, repos, live, blobs.drop_last())
    } else {
        let blob = blobs.last();
        let rest = blobs.drop_last();
        let n = choose|n: int|
            0 <= n <= calls.len() && #[trigger] gc::blob_swept(
                calls.subrange(n, calls.len() as int),
                repos,
                blob,
            ) && gc::blobs_swept(calls.subrange(0, n), repos, live, rest);
        let e = calls.len() as int;
        let a = calls.subrange(0, n);
        let b = calls.subrange(n, e);
        model::lemma_part(read, hs, calls, 0, n);
        model::lemma_part(read, hs, calls, n, e);
        let before = lemma_sweeps_counted(read, hs.subrange(0, n + 1), a, repos, live, rest);
        lemma_blobs_swept(read, hs.subrange(0, n + 1), a, repos, live, rest);
        lemma_blob_swept(read, hs.subrange(n, e + 1), b, repos, blob);
        lemma_freed_concat(a, b);
        assert(a + b =~= calls);
        if n > 0 {
            assert(calls[0] == a[0]);
        } else {
            assert(a =~= Seq::<Call>::empty());
            if e > 0 {
                assert(calls[0] == b[0]);
            }
        }
        let mid = hs[n];
        if mid.blobs.contains_key(blob) {
            let removed = before.push(blob);
            assert(removed.drop_last() =~= before);
            assert(removed.last() == blob);
            assert forall|d: DigestView| #[trigger] mid.blobs.contains_key(d) implies hs[0].blobs.contains_key(
                d,
            ) && mid.blobs[d] == hs[0].blobs[d] by {
                assert(hs.subrange(0, n + 1).last().blobs.contains_key(d));
            }
            lemma_one_more_removed(hs[0], mid, hs[e], before, blob);
            removed
        } else {
            assert(mid.blobs.remove(blob) =~= mid.blobs);
            before
        }
    }
}

/// The report of a collection counts the blobs that were removed from the store, and
/// their size.
pub proof fn report_counts_what_was_removed(
    read: Reading,
    hs: Seq<Holdings>,
    calls: Seq<Call>,
    report: GcReport,
) -> (removed: Seq<DigestView>)
    requires
        model::works(read, hs, calls),
        gc::collected(calls, report),
    ensures
        are_removed(hs[0], hs.last(), removed),
        report.deleted_blobs == storage::sat_count(removed.len()),
        report.deleted_bytes == storage::sat(total_size(hs[0], removed)),
{
    let (repos, blobs, m) = choose|repos: Seq<Seq<char>>, blobs: Seq<DigestView>, m: int|
        #[trigger] gc::phases(calls, repos, blobs, m) && {
            &&& report.deleted_blobs == storage::sat_count(
                gc::deleted(calls.subrange(m + 1, calls.len() as int)),
            )
            &&& report.deleted_bytes == storage::sat(
                gc::freed(calls.subrange(m + 1, calls.len() as int)),
            )
        };
    let e = calls.len() as int;
    lemma_phases(read, hs, calls, repos, blobs, m);
    model::lemma_part(read, hs, calls, m + 1, e);
    let live = gc::marked(calls.subrange(1, m));
    lemma_sweeps_counted(
        read,
        hs.subrange(m + 1, e + 1),
        calls.subrange(m + 1, e),
        repos,
        live,
        blobs,
    )
}

/// The digests that are in use.
pub open spec fn all_in_use(read: Reading, h: Holdings) -> Set<DigestView> {
    Set::new(|d: DigestView| in_use(read, h, d))
}

/// A collection in one: the store holds those of its blobs that are in use, unchanged, and
/// no others, and everything else as before; the report says how many digests are in use,
/// how many blobs were removed and how many bytes they took up.
pub proof fn collection_does_what_it_reports(
    read: Reading,
    hs: Seq<Holdings>,
    calls: Seq<Call>,
    report: GcReport,
) -> (removed: Seq<DigestView>)
    requires
        model::works(read, hs, calls),
        gc::collected(calls, report),
    ensures
        ({
            let h = hs[0];
            let h2 = hs.last();
            &&& h2.manifests == h.manifests
            &&& h2.tags == h.tags
            &&& h2.uploads == h.uploads
            &&& h2.blobs == h.blobs.restrict(all_in_use(read, h))
            &&& all_in_use(read, h).finite()
            &&& report.reachable_blobs == all_in_use(read, h).len()
            &&& are_removed(h, h2, removed)
            &&& report.deleted_blobs == storage::sat_count(removed.len())
            &&& report.deleted_bytes == storage::sat(total_size(h, removed))
        }),
{
    collection_removes_what_is_not_in_use(read, hs, calls, report);
    let h = hs[0];
    let h2 = hs.last();
    assert(h2.blobs =~= h.blobs.restrict(all_in_use(read, h)));
    let (repos, blobs, m) = choose|repos: Seq<Seq<char>>, blobs: Seq<DigestView>, m: int|
        #[trigger] gc::phases(calls, repos, blobs, m) && {
            let live = gc::marked(calls.subrange(1, m));
            live.finite() && report.reachable_blobs == live.len()
        };
    lemma_phases(read, hs, calls, repos, blobs, m);
    assert(gc::marked(calls.subrange(1, m)) =~= all_in_use(read, h));
    report_counts_what_was_removed(read, hs, calls, report)
}

/// Where a listing or the reading of a manifest ends a collection, nothing was deleted.
pub proof fn failed_marking_deletes_nothing(calls: Seq<Call>, e: StorageError)
    requires
        gc::careful(calls),
        gc::ended_by(calls, e),
        !(calls.last() is BlobDelete),
    ensures
        gc::undeleted(calls),
{
    let n = calls.len() - 1;
    assert(gc::careful_call(calls.take(n), calls[n]));
    assert forall|i: int| 0 <= i < calls.len() implies !((#[trigger] calls[i]) is BlobDelete) by {
        if i < n {
            assert(calls.take(n)[i] == calls[i]);
        }
    }
}

} // verus!
