//! Finding everything that hangs on a manifest.
//!
//! A walk starts at a manifest and follows the child manifests of indexes. It
//! collects the manifests it meets and the blobs they need. What it found is
//! explained by the answers of the store: every manifest it knows was handed out by
//! a call, and the references of that manifest are found as well, unless the store
//! said that a child is not there.

use vstd::prelude::*;

use crate::digest;
use crate::digest::{Algorithm, Digest, DigestView};
use crate::manifest::Manifest;
use crate::order;
use crate::order::{Key, SortedSet};
use crate::storage;
use crate::storage::{Call, Reference, ReferenceView, Storage, StorageError};

verus! {

/// A repository and a digest in it.
pub type Place = (Seq<char>, DigestView);

/// What a walk has found, each thing with the repository it was found in.
pub struct Found {
    pub manifests: SortedSet<(String, Digest)>,
    pub blobs: SortedSet<(String, Digest)>,
}

/// The manifest that the answer of a call hands out: where it is, and its
/// references. A manifest asked for by tag is known by the SHA-256 of its bytes.
pub open spec fn shown(c: Call) -> Option<(Place, Option<Manifest>)> {
    match c {
        Call::ManifestGet { repo, reference, reply: Ok((content, refs)) } => match reference {
            ReferenceView::Tag(_) => Some(
                ((repo, digest::content_digest(Algorithm::Sha256, content)), refs),
            ),
            ReferenceView::Digest(d) => Some(((repo, d), refs)),
        },
        _ => None,
    }
}

/// The call hands out the manifest at `k`.
pub open spec fn shows(c: Call, k: Place) -> bool {
    shown(c) matches Some((p, _)) && p == k
}

/// The call hands out a manifest that needs the blob at `b`.
pub open spec fn needs(c: Call, b: Place) -> bool {
    shown(c) matches Some((p, Some(m))) && p.0 == b.0 && m.blob_references().contains(b.1)
}

/// A call said that the manifest at `k` is not there.
pub open spec fn missing(calls: Seq<Call>, k: Place) -> bool {
    exists|i: int|
        0 <= i < calls.len() && #[trigger] calls[i] == (Call::ManifestGet {
            repo: k.0,
            reference: ReferenceView::Digest(k.1),
            reply: Err(StorageError::NotFound),
        })
}

pub open spec fn some_shows(calls: Seq<Call>, k: Place) -> bool {
    exists|i: int| 0 <= i < calls.len() && shows(#[trigger] calls[i], k)
}

pub open spec fn some_needs(calls: Seq<Call>, b: Place) -> bool {
    exists|i: int| 0 <= i < calls.len() && needs(#[trigger] calls[i], b)
}

/// The call hands out a manifest of which `k` is a child.
pub open spec fn is_child(c: Call, k: Place) -> bool {
    shown(c) matches Some((p, Some(m))) && p.0 == k.0 && m.children().contains(k.1)
}

/// A call handed out a manifest of which `k` is a child.
pub open spec fn parent_shown(calls: Seq<Call>, k: Place) -> bool {
    exists|j: int| 0 <= j < calls.len() && is_child(#[trigger] calls[j], k)
}

/// The call asks for a manifest of which a parent was handed out before.
pub open spec fn asks_child(before: Seq<Call>, c: Call) -> bool {
    match c {
        Call::ManifestGet { repo, reference: ReferenceView::Digest(d), .. } => parent_shown(
            before,
            (repo, d),
        ),
        _ => false,
    }
}

/// From the call at `from` on, only children of what was handed out are asked for.
pub open spec fn descends(calls: Seq<Call>, from: int) -> bool {
    forall|i: int| 0 <= from <= i < calls.len() ==> #[trigger] child_at(calls, i)
}

/// The call at `i` asks for a child of what was handed out before.
pub open spec fn child_at(calls: Seq<Call>, i: int) -> bool {
    asks_child(calls.take(i), calls[i])
}

proof fn lemma_parent_kept(calls: Seq<Call>, more: Seq<Call>, k: Place)
    requires
        parent_shown(calls, k),
        storage::extends(calls, more),
    ensures
        parent_shown(more, k),
{
    let j = choose|j: int| 0 <= j < calls.len() && is_child(#[trigger] calls[j], k);
    assert(more.subrange(0, calls.len() as int)[j] == more[j]);
}

proof fn lemma_descends_push(calls: Seq<Call>, c: Call, from: int)
    requires
        descends(calls, from),
        0 <= from <= calls.len(),
        asks_child(calls, c),
    ensures
        descends(calls.push(c), from),
{
    let t = calls.push(c);
    assert forall|i: int| from <= i < t.len() implies #[trigger] child_at(t, i) by {
        if i < calls.len() {
            assert(child_at(calls, i));
            assert(t.take(i) =~= calls.take(i));
        } else {
            assert(t.take(i) =~= calls);
        }
    }
}

/// The references of the manifest that `c` hands out are found: its blobs, and each
/// child unless it is missing or still to be visited.
pub open spec fn settled(
    c: Call,
    manifests: Set<Place>,
    blobs: Set<Place>,
    calls: Seq<Call>,
    todo: Seq<Place>,
) -> bool {
    match shown(c) {
        Some((p, Some(m))) => {
            &&& forall|d: DigestView|
                #[trigger] m.blob_references().contains(d) ==> blobs.contains((p.0, d))
            &&& forall|d: DigestView|
                #[trigger] m.children().contains(d) ==> {
                    let k = (p.0, d);
                    manifests.contains(k) || missing(calls, k) || todo.contains(k)
                }
        },
        _ => true,
    }
}

pub open spec fn some_settles(
    calls: Seq<Call>,
    k: Place,
    manifests: Set<Place>,
    blobs: Set<Place>,
    todo: Seq<Place>,
) -> bool {
    exists|i: int|
        0 <= i < calls.len() && shows(#[trigger] calls[i], k) && settled(
            calls[i],
            manifests,
            blobs,
            calls,
            todo,
        )
}

/// What was found is explained by the answers of `calls`, with the places `todo`
/// still to be visited.
pub open spec fn explained(
    manifests: Set<Place>,
    blobs: Set<Place>,
    calls: Seq<Call>,
    todo: Seq<Place>,
) -> bool {
    &&& forall|k: Place| #[trigger] manifests.contains(k) <==> some_shows(calls, k)
    &&& forall|b: Place| #[trigger] blobs.contains(b) ==> some_needs(calls, b)
    &&& forall|k: Place| #[trigger]
        manifests.contains(k) ==> some_settles(calls, k, manifests, blobs, todo)
}

impl Found {
    pub open spec fn wf(&self) -> bool {
        self.manifests.wf() && self.blobs.wf()
    }

    /// Everything found is explained by the answers of `calls`.
    pub open spec fn explained_by(&self, calls: Seq<Call>) -> bool {
        explained(self.manifests@, self.blobs@, calls, Seq::empty())
    }

    pub fn new() -> (r: Found)
        ensures
            r.wf(),
            r.explained_by(Seq::empty()),
            r.manifests@ == Set::<Place>::empty(),
            r.blobs@ == Set::<Place>::empty(),
    {
        Found { manifests: SortedSet::new(), blobs: SortedSet::new() }
    }
}

/// The failure with which a call ends the search: any failed listing, any failure
/// to read a tag, and a failure other than `NotFound` to read a manifest by digest.
pub open spec fn fatal(c: Call) -> Option<StorageError> {
    match c {
        Call::ListRepos { reply: Err(e) } => Some(e),
        Call::ListTags { reply: Err(e), .. } => Some(e),
        Call::ListManifestDigests { reply: Err(e), .. } => Some(e),
        Call::ManifestGet { reference, reply: Err(e), .. } => if reference is Digest && e
            == StorageError::NotFound {
            None
        } else {
            Some(e)
        },
        _ => None,
    }
}

/// The call only reads: a listing of names or manifests, or a manifest.
pub open spec fn looks(c: Call) -> bool {
    c is ListRepos || c is ListTags || c is ListManifestDigests || c is ManifestGet
}

/// `calls` only read, and none of them failed fatally.
pub open spec fn searching(calls: Seq<Call>) -> bool {
    forall|i: int| 0 <= i < calls.len() ==> looks(#[trigger] calls[i]) && fatal(calls[i]) is None
}

/// `calls` only read, and the last, alone, failed fatally, with `e`.
pub open spec fn search_failed(calls: Seq<Call>, e: StorageError) -> bool {
    &&& calls.len() > 0
    &&& looks(calls.last())
    &&& fatal(calls.last()) == Some(e)
    &&& searching(calls.drop_last())
}

pub proof fn lemma_searching_push(calls: Seq<Call>, c: Call)
    requires
        searching(calls),
        looks(c),
    ensures
        fatal(c) is None ==> searching(calls.push(c)),
        fatal(c) matches Some(e) ==> search_failed(calls.push(c), e),
{
    let t = calls.push(c);
    assert(t.drop_last() =~= calls);
    assert forall|i: int| 0 <= i < calls.len() implies #[trigger] t[i] == calls[i] by {
    }
    if fatal(c) is None {
        assert forall|i: int| 0 <= i < t.len() implies looks(#[trigger] t[i]) && fatal(t[i]) is None by {
            if i < calls.len() {
                assert(t[i] == calls[i]);
            }
        }
    }
}

proof fn lemma_push_keeps(calls: Seq<Call>, c: Call, k: Place)
    ensures
        some_shows(calls, k) ==> some_shows(calls.push(c), k),
        some_needs(calls, k) ==> some_needs(calls.push(c), k),
        missing(calls, k) ==> missing(calls.push(c), k),
        some_shows(calls.push(c), k) ==> some_shows(calls, k) || shows(c, k),
{
    let t = calls.push(c);
    if some_shows(calls, k) {
        let i = choose|i: int| 0 <= i < calls.len() && shows(#[trigger] calls[i], k);
        assert(t[i] == calls[i]);
    }
    if some_needs(calls, k) {
        let i = choose|i: int| 0 <= i < calls.len() && needs(#[trigger] calls[i], k);
        assert(t[i] == calls[i]);
    }
    if missing(calls, k) {
        let i = choose|i: int|
            0 <= i < calls.len() && #[trigger] calls[i] == (Call::ManifestGet {
                repo: k.0,
                reference: ReferenceView::Digest(k.1),
                reply: Err(StorageError::NotFound),
            });
        assert(t[i] == calls[i]);
    }
    if some_shows(t, k) {
        let i = choose|i: int| 0 <= i < t.len() && shows(#[trigger] t[i], k);
        if i < calls.len() {
            assert(calls[i] == t[i]);
        }
    }
}

/// More calls and more finds keep a settled manifest settled.
proof fn lemma_settles_grows(
    calls: Seq<Call>,
    more: Seq<Call>,
    k: Place,
    m1: Set<Place>,
    b1: Set<Place>,
    t1: Seq<Place>,
    m2: Set<Place>,
    b2: Set<Place>,
    t2: Seq<Place>,
)
    requires
        some_settles(calls, k, m1, b1, t1),
        storage::extends(calls, more),
        m1.subset_of(m2),
        b1.subset_of(b2),
        forall|p: Place|
            #[trigger] t1.contains(p) ==> t2.contains(p) || m2.contains(p) || missing(more, p),
    ensures
        some_settles(more, k, m2, b2, t2),
{
    let i = choose|i: int|
        0 <= i < calls.len() && shows(#[trigger] calls[i], k) && settled(
            calls[i],
            m1,
            b1,
            calls,
            t1,
        );
    assert(more.subrange(0, calls.len() as int)[i] == more[i]);
    assert(more[i] == calls[i]);
    match shown(calls[i]) {
        Some((p, Some(m))) => {
            assert forall|d: DigestView| #[trigger] m.children().contains(d) implies {
                let q = (p.0, d);
                m2.contains(q) || missing(more, q) || t2.contains(q)
            } by {
                let q = (p.0, d);
                assert(m1.contains(q) || missing(calls, q) || t1.contains(q));
                if missing(calls, q) {
                    let j = choose|j: int|
                        0 <= j < calls.len() && #[trigger] calls[j] == (Call::ManifestGet {
                            repo: q.0,
                            reference: ReferenceView::Digest(q.1),
                            reply: Err(StorageError::NotFound),
                        });
                    assert(more.subrange(0, calls.len() as int)[j] == more[j]);
                    assert(more[j] == calls[j]);
                }
            }
            assert forall|d: DigestView| #[trigger] m.blob_references().contains(d) implies b2.contains(
                (p.0, d),
            ) by {
                assert(b1.contains((p.0, d)));
            }
        },
        _ => {},
    }
    assert(settled(more[i], m2, b2, more, t2));
}

/// A call that hands out no manifest keeps everything explained; one that reports a
/// missing child allows that child to be dropped from `todo`.
pub proof fn lemma_explained_other(
    m: Set<Place>,
    b: Set<Place>,
    calls: Seq<Call>,
    c: Call,
    todo: Seq<Place>,
    rest: Seq<Place>,
)
    requires
        explained(m, b, calls, todo),
        shown(c) is None,
        forall|p: Place|
            #[trigger] todo.contains(p) ==> rest.contains(p) || missing(calls.push(c), p)
                || m.contains(p),
    ensures
        explained(m, b, calls.push(c), rest),
{
    let t = calls.push(c);
    assert(t.subrange(0, calls.len() as int) =~= calls);
    assert forall|k: Place| #[trigger] m.contains(k) <==> some_shows(t, k) by {
        lemma_push_keeps(calls, c, k);
    }
    assert forall|k: Place| #[trigger] b.contains(k) implies some_needs(t, k) by {
        lemma_push_keeps(calls, c, k);
    }
    assert forall|k: Place| #[trigger] m.contains(k) implies some_settles(t, k, m, b, rest) by {
        lemma_settles_grows(calls, t, k, m, b, todo, m, b, rest);
    }
}

/// Dropping a place from `todo` that is known already.
proof fn lemma_explained_known(
    m: Set<Place>,
    b: Set<Place>,
    calls: Seq<Call>,
    todo: Seq<Place>,
    rest: Seq<Place>,
)
    requires
        explained(m, b, calls, todo),
        forall|p: Place| #[trigger] todo.contains(p) ==> rest.contains(p) || m.contains(p),
    ensures
        explained(m, b, calls, rest),
{
    assert(calls.subrange(0, calls.len() as int) =~= calls);
    assert forall|k: Place| #[trigger] m.contains(k) implies some_settles(calls, k, m, b, rest) by {
        lemma_settles_grows(calls, calls, k, m, b, todo, m, b, rest);
    }
}

/// A call that hands out a manifest which is known already.
pub proof fn lemma_explained_again(
    m: Set<Place>,
    b: Set<Place>,
    calls: Seq<Call>,
    c: Call,
    k: Place,
)
    requires
        explained(m, b, calls, Seq::empty()),
        shows(c, k),
        m.contains(k),
    ensures
        explained(m, b, calls.push(c), Seq::empty()),
{
    let t = calls.push(c);
    assert(t.subrange(0, calls.len() as int) =~= calls);
    assert(t[calls.len() as int] == c);
    assert forall|p: Place| #[trigger] m.contains(p) <==> some_shows(t, p) by {
        lemma_push_keeps(calls, c, p);
    }
    assert forall|p: Place| #[trigger] b.contains(p) implies some_needs(t, p) by {
        lemma_push_keeps(calls, c, p);
    }
    assert forall|p: Place| #[trigger] m.contains(p) implies some_settles(
        t,
        p,
        m,
        b,
        Seq::empty(),
    ) by {
        lemma_settles_grows(calls, t, p, m, b, Seq::empty(), m, b, Seq::empty());
    }
}

/// A call that hands out a new manifest: it and its blobs are found, and its
/// children are to be visited.
proof fn lemma_explained_new(
    m: Set<Place>,
    b: Set<Place>,
    calls: Seq<Call>,
    todo: Seq<Place>,
    c: Call,
    k: Place,
    refs: Option<Manifest>,
    b2: Set<Place>,
    rest: Seq<Place>,
)
    requires
        explained(m, b, calls, todo),
        shown(c) == Some((k, refs)),
        b2 == b.union(blobs_of(k.0, refs)),
        forall|p: Place|
            #[trigger] todo.contains(p) ==> rest.contains(p) || p == k || m.contains(p),
        forall|d: DigestView| #[trigger] has_child(refs, d) ==> rest.contains((k.0, d)),
    ensures
        explained(m.insert(k), b2, calls.push(c), rest),
{
    let t = calls.push(c);
    let m2 = m.insert(k);
    assert(t.subrange(0, calls.len() as int) =~= calls);
    assert(t[calls.len() as int] == c);
    assert(shows(c, k));
    assert forall|p: Place| #[trigger] m2.contains(p) <==> some_shows(t, p) by {
        lemma_push_keeps(calls, c, p);
        if p == k {
            assert(shows(t[calls.len() as int], k));
        }
    }
    assert forall|p: Place| #[trigger] b2.contains(p) implies some_needs(t, p) by {
        lemma_push_keeps(calls, c, p);
        if !b.contains(p) {
            assert(blobs_of(k.0, refs).contains(p));
            assert(needs(t[calls.len() as int], p));
        }
    }
    assert forall|p: Place| #[trigger] m2.contains(p) implies some_settles(t, p, m2, b2, rest) by {
        if p == k {
            if let Some(x) = refs {
                assert forall|d: DigestView| #[trigger] x.blob_references().contains(d) implies b2.contains(
                    (k.0, d),
                ) by {
                    assert(blobs_of(k.0, refs).contains((k.0, d)));
                }
                assert forall|d: DigestView| #[trigger] x.children().contains(d) implies {
                    let q = (k.0, d);
                    m2.contains(q) || missing(t, q) || rest.contains(q)
                } by {
                    assert(has_child(refs, d));
                }
            }
            assert(settled(t[calls.len() as int], m2, b2, t, rest));
        } else {
            assert(m.contains(p));
            lemma_settles_grows(calls, t, p, m, b, todo, m2, b2, rest);
        }
    }
}

/// `d` is a child of the manifest.
spec fn has_child(refs: Option<Manifest>, d: DigestView) -> bool {
    refs matches Some(x) && x.children().contains(d)
}

/// The blobs that a manifest in `repo` needs.
pub open spec fn blobs_of(repo: Seq<char>, refs: Option<Manifest>) -> Set<Place> {
    match refs {
        Some(m) => Set::new(|p: Place| p.0 == repo && m.blob_references().contains(p.1)),
        None => Set::empty(),
    }
}

spec fn at_repo(repo: Seq<char>, ds: Seq<DigestView>) -> Seq<Place> {
    Seq::new(ds.len(), |i: int| (repo, ds[i]))
}

/// Notes the blobs of a manifest and puts its children on the pile, the first on
/// top.
fn visit(repo: &str, refs: Option<Manifest>, found: &mut Found, pile: &mut Vec<Digest>)
    requires
        old(found).wf(),
    ensures
        final(found).wf(),
        final(found).manifests == old(found).manifests,
        final(found).blobs@ == old(found).blobs@.union(blobs_of(repo@, refs)),
        forall|d: DigestView|
            #[trigger] order::views_of(final(pile)@).contains(d) <==> order::views_of(
                old(pile)@,
            ).contains(d) || has_child(refs, d),
{
    match refs {
        None => {
            assert(found.blobs@ =~= old(found).blobs@.union(blobs_of(repo@, refs)));
        },
        Some(m) => {
            let needed = m.blob_digests();
            let mut i: usize = 0;
            let ghost b0 = found.blobs@;
            let ghost list = order::views_of(needed@);
            assert(found.blobs@ =~= b0.union(at_repo(repo@, list.take(0)).to_set()));
            while i < needed.len()
                invariant
                    i <= needed@.len(),
                    list == order::views_of(needed@),
                    found.wf(),
                    found.manifests == old(found).manifests,
                    found.blobs@ == b0.union(at_repo(repo@, list.take(i as int)).to_set()),
                decreases needed@.len() - i,
            {
                let entry: (String, Digest) = (repo.to_owned(), needed[i].dup());
                let ghost p = entry@;
                found.blobs.insert(entry);
                proof {
                    let x = at_repo(repo@, list.take(i as int));
                    let y = at_repo(repo@, list.take(i + 1));
                    assert(y =~= x.push(p));
                    assert forall|q: Place| y.to_set().contains(q) <==> #[trigger] x.to_set().insert(
                        p,
                    ).contains(q) by {
                        if y.contains(q) {
                            let j = choose|j: int| 0 <= j < y.len() && y[j] == q;
                            if j < x.len() {
                                assert(x[j] == q);
                            }
                        }
                        if x.contains(q) {
                            let j = choose|j: int| 0 <= j < x.len() && x[j] == q;
                            assert(y[j] == q);
                        }
                        if q == p {
                            assert(y[i as int] == q);
                        }
                    }
                    assert(y.to_set() =~= x.to_set().insert(p));
                    assert(b0.union(x.to_set()).insert(p) =~= b0.union(y.to_set()));
                }
                i = i + 1;
            }
            proof {
                assert(list.take(i as int) =~= list);
                let x = at_repo(repo@, list);
                assert forall|q: Place| x.to_set().contains(q) <==> #[trigger] blobs_of(
                    repo@,
                    refs,
                ).contains(q) by {
                    if x.contains(q) {
                        let j = choose|j: int| 0 <= j < x.len() && x[j] == q;
                        assert(list[j] == q.1);
                    }
                    if blobs_of(repo@, refs).contains(q) {
                        let j = choose|j: int| 0 <= j < list.len() && list[j] == q.1;
                        assert(x[j] == q);
                    }
                }
                assert(found.blobs@ =~= b0.union(blobs_of(repo@, refs)));
            }
            let children = m.child_digests();
            let ghost kids = order::views_of(children@);
            let ghost p0 = order::views_of(pile@);
            let mut k: usize = children.len();
            while k > 0
                invariant
                    k <= children@.len(),
                    kids == order::views_of(children@),
                    forall|d: DigestView|
                        #[trigger] order::views_of(pile@).contains(d) <==> p0.contains(d) || exists|
                            j: int,
                        | k <= j < kids.len() && kids[j] == d,
                decreases k,
            {
                k = k - 1;
                let ghost was = order::views_of(pile@);
                pile.push(children[k].dup());
                proof {
                    let now = order::views_of(pile@);
                    assert(now =~= was.push(kids[k as int]));
                    assert forall|d: DigestView| #[trigger] now.contains(d) <==> p0.contains(d)
                        || exists|j: int| k <= j < kids.len() && kids[j] == d by {
                        if now.contains(d) {
                            let j = choose|j: int| 0 <= j < now.len() && now[j] == d;
                            if j < was.len() {
                                assert(was[j] == d);
                                assert(was.contains(d));
                            } else {
                                assert(kids[k as int] == d);
                            }
                        }
                        if was.contains(d) {
                            let j = choose|j: int| 0 <= j < was.len() && was[j] == d;
                            assert(now[j] == d);
                        }
                        if exists|j: int| k <= j < kids.len() && kids[j] == d {
                            let j = choose|j: int| k <= j < kids.len() && kids[j] == d;
                            if j > k {
                                assert(was.contains(d));
                            } else {
                                assert(now[was.len() as int] == d);
                            }
                        }
                    }
                }
            }
            proof {
                assert forall|d: DigestView| #[trigger] order::views_of(pile@).contains(d) <==> (
                p0.contains(d) || m.children().contains(d)) by {
                    if kids.contains(d) {
                        let j = choose|j: int| 0 <= j < kids.len() && kids[j] == d;
                        assert(0 <= j < kids.len() && kids[j] == d);
                    }
                }
            }
        },
    }
}

/// The call is about the repository.
pub open spec fn in_repo(c: Call, repo: Seq<char>) -> bool {
    match c {
        Call::ListTags { repo: r, .. } => r == repo,
        Call::ListManifestDigests { repo: r, .. } => r == repo,
        Call::ManifestGet { repo: r, .. } => r == repo,
        _ => false,
    }
}

/// All calls are.
pub open spec fn about(calls: Seq<Call>, repo: Seq<char>) -> bool {
    forall|i: int| 0 <= i < calls.len() ==> in_repo(#[trigger] calls[i], repo)
}

pub proof fn lemma_about_concat(a: Seq<Call>, b: Seq<Call>, repo: Seq<char>)
    requires
        about(a, repo),
        about(b, repo),
    ensures
        about(a + b, repo),
{
    assert forall|i: int| 0 <= i < (a + b).len() implies in_repo(#[trigger] (a + b)[i], repo) by {
        if i < a.len() {
            assert((a + b)[i] == a[i]);
        } else {
            assert((a + b)[i] == b[i - a.len()]);
        }
    }
}

pub proof fn lemma_about_push(a: Seq<Call>, c: Call, repo: Seq<char>)
    requires
        about(a, repo),
        in_repo(c, repo),
    ensures
        about(a.push(c), repo),
{
    assert forall|i: int| 0 <= i < a.push(c).len() implies in_repo(
        #[trigger] a.push(c)[i],
        repo,
    ) by {
        if i < a.len() {
            assert(a.push(c)[i] == a[i]);
        }
    }
}

/// Walks from a manifest that the last call handed out: notes it and everything it
/// references, and reads its child manifests from the store.
pub fn walk<S: Storage>(
    store: &mut S,
    repo: &str,
    root: Digest,
    refs: Option<Manifest>,
    found: &mut Found,
    Ghost(start): Ghost<Seq<Call>>,
) -> (r: Result<(), StorageError>)
    requires
        old(store).wf(),
        old(found).wf(),
        storage::extends(start, old(store).log()),
        storage::added(start, old(store).log()).len() > 0,
        searching(storage::added(start, old(store).log())),
        shown(storage::added(start, old(store).log()).last()) == Some(((repo@, root@), refs)),
        old(found).explained_by(storage::added(start, old(store).log()).drop_last()),
    ensures
        final(store).wf(),
        final(store).origin() == old(store).origin(),
        final(found).wf(),
        storage::extends(start, final(store).log()),
        storage::extends(old(store).log(), final(store).log()),
        about(storage::added(old(store).log(), final(store).log()), repo@),
        match r {
            Ok(_) => {
                &&& searching(storage::added(start, final(store).log()))
                &&& final(found).explained_by(storage::added(start, final(store).log()))
                &&& old(found).manifests@.subset_of(final(found).manifests@)
                &&& final(found).manifests@.contains((repo@, root@))
                &&& descends(
                    storage::added(start, final(store).log()),
                    storage::added(start, old(store).log()).len() as int,
                )
            },
            Err(e) => search_failed(storage::added(start, final(store).log()), e),
        },
{
    let ghost place = (repo@, root@);
    let ghost all = storage::added(start, store.log());
    let ghost before = all.drop_last();
    proof {
        storage::lemma_added_none(store.log());
        assert(all =~= before.push(all.last()));
    }
    let entry: (String, Digest) = (repo.to_owned(), root);
    let ghost m0 = found.manifests@;
    let ghost b0 = found.blobs@;
    assert(entry@ == place);
    if !found.manifests.insert(entry) {
        proof {
            assert(m0.insert(place) =~= m0);
            lemma_explained_again(m0, b0, before, all.last(), place);
        }
        return Ok(());
    }
    let mut pile: Vec<Digest> = Vec::new();
    visit(repo, refs, found, &mut pile);
    let ghost todo = at_repo(repo@, order::views_of(pile@));
    proof {
        assert forall|d: DigestView| #[trigger] has_child(refs, d) implies todo.contains(
            (repo@, d),
        ) by {
            assert(order::views_of(pile@).contains(d));
            lemma_at_repo(repo@, order::views_of(pile@), d);
        }
        lemma_explained_new(
            m0,
            b0,
            before,
            Seq::empty(),
            all.last(),
            place,
            refs,
            found.blobs@,
            todo,
        );
        assert(explained(found.manifests@, found.blobs@, all, todo));
        assert forall|i: int| 0 <= i < pile@.len() implies parent_shown(
            all,
            (repo@, #[trigger] order::views_of(pile@)[i]),
        ) by {
            let d = order::views_of(pile@)[i];
            assert(order::views_of(pile@).contains(d));
            assert(has_child(refs, d));
            assert(is_child(all[all.len() - 1], (repo@, d)));
        }
    }
    while pile.len() > 0
        invariant
            store.wf(),
            store.origin() == old(store).origin(),
            found.wf(),
            storage::extends(old(store).log(), store.log()),
            about(storage::added(old(store).log(), store.log()), repo@),
            storage::extends(start, store.log()),
            searching(storage::added(start, store.log())),
            todo == at_repo(repo@, order::views_of(pile@)),
            explained(
                found.manifests@,
                found.blobs@,
                storage::added(start, store.log()),
                todo,
            ),
            m0.subset_of(found.manifests@),
            found.manifests@.contains(place),
            all == storage::added(start, old(store).log()),
            all.len() <= storage::added(start, store.log()).len(),
            descends(storage::added(start, store.log()), all.len() as int),
            forall|i: int|
                0 <= i < pile@.len() ==> parent_shown(
                    storage::added(start, store.log()),
                    (repo@, #[trigger] order::views_of(pile@)[i]),
                ),
        decreases usize::MAX - found.manifests.items@.len(), pile@.len(),
    {
        let ghost was = store.log();
        let ghost calls = storage::added(start, was);
        let ghost full = order::views_of(pile@);
        let child = pile.pop().unwrap();
        let ghost less = order::views_of(pile@);
        let ghost kid = (repo@, child@);
        let ghost rest = at_repo(repo@, less);
        proof {
            assert(full =~= less.push(child@));
            assert(parent_shown(calls, (repo@, full[full.len() - 1])));
            assert forall|i: int| 0 <= i < less.len() implies parent_shown(
                calls,
                (repo@, #[trigger] less[i]),
            ) by {
                assert(full[i] == less[i]);
            }
            assert forall|p: Place| #[trigger] todo.contains(p) implies rest.contains(p) || p
                == kid by {
                let j = choose|j: int| 0 <= j < todo.len() && todo[j] == p;
                if j < rest.len() {
                    assert(rest[j] == p);
                }
            }
        }
        let key: (String, Digest) = (repo.to_owned(), child.dup());
        assert(key@ == kid);
        if found.manifests.contains(&key) {
            proof {
                lemma_explained_known(found.manifests@, found.blobs@, calls, todo, rest);
                todo = rest;
            }
            continue;
        }
        let reference = Reference::Digest(child);
        let got = store.manifest_get(repo, &reference);
        let ghost c = store.log().last();
        proof {
            assert(store.log() == was.push(c));
            storage::lemma_added_push(start, was, c);
            storage::lemma_added_push(old(store).log(), was, c);
            lemma_about_push(storage::added(old(store).log(), was), c, repo@);
            lemma_searching_push(calls, c);
            lemma_descends_push(calls, c, all.len() as int);
            assert(calls.push(c).subrange(0, calls.len() as int) =~= calls);
            assert forall|i: int| 0 <= i < less.len() implies parent_shown(
                calls.push(c),
                (repo@, #[trigger] less[i]),
            ) by {
                lemma_parent_kept(calls, calls.push(c), (repo@, less[i]));
            }
        }
        match got {
            Ok(stored) => {
                let ghost m1 = found.manifests@;
                let ghost b1 = found.blobs@;
                let ghost refs2 = stored.refs;
                found.manifests.insert(key);
                visit(repo, stored.refs, found, &mut pile);
                proof {
                    assert(found.manifests.items.len() <= usize::MAX);
                    let next = at_repo(repo@, order::views_of(pile@));
                    assert(shown(c) == Some((kid, refs2)));
                    assert forall|p: Place| #[trigger] todo.contains(p) implies next.contains(p) || p
                        == kid || m1.contains(p) by {
                        if p != kid {
                            let j = choose|j: int| 0 <= j < rest.len() && rest[j] == p;
                            assert(less[j] == p.1);
                            assert(less.contains(p.1));
                            assert(order::views_of(pile@).contains(p.1));
                            lemma_at_repo(repo@, order::views_of(pile@), p.1);
                        }
                    }
                    assert forall|d: DigestView| #[trigger] has_child(refs2, d) implies next.contains(
                        (repo@, d),
                    ) by {
                        assert(order::views_of(pile@).contains(d));
                        lemma_at_repo(repo@, order::views_of(pile@), d);
                    }
                    lemma_explained_new(m1, b1, calls, todo, c, kid, refs2, found.blobs@, next);
                    let piled = order::views_of(pile@);
                    assert forall|i: int| 0 <= i < piled.len() implies parent_shown(
                        calls.push(c),
                        (repo@, #[trigger] piled[i]),
                    ) by {
                        let d = piled[i];
                        assert(piled.contains(d));
                        if has_child(refs2, d) {
                            assert(is_child(calls.push(c)[calls.len() as int], (repo@, d)));
                        } else {
                            assert(less.contains(d));
                            let j = choose|j: int| 0 <= j < less.len() && less[j] == d;
                            assert(parent_shown(calls.push(c), (repo@, less[j])));
                        }
                    }
                    todo = next;
                }
            },
            Err(StorageError::NotFound) => {
                proof {
                    let t = calls.push(c);
                    assert(t[calls.len() as int] == c);
                    assert(missing(t, kid));
                    lemma_explained_other(found.manifests@, found.blobs@, calls, c, todo, rest);
                    todo = rest;
                }
            },
            Err(e) => {
                return Err(e);
            },
        }
    }
    assert(todo =~= Seq::<Place>::empty());
    Ok(())
}

proof fn lemma_at_repo(repo: Seq<char>, ds: Seq<DigestView>, d: DigestView)
    requires
        ds.contains(d),
    ensures
        at_repo(repo, ds).contains((repo, d)),
{
    let j = choose|j: int| 0 <= j < ds.len() && ds[j] == d;
    assert(at_repo(repo, ds)[j] == (repo, d));
}

} // verus!
