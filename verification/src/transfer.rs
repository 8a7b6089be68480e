//! Copying repositories from one store to another.
//!
//! First everything that is wanted is found on the source; then what the target
//! lacks is written there: blobs before the manifests that reference them, and the
//! tags last. Everything is known by its digest, so a copy can be repeated.

use vstd::prelude::*;

use crate::digest;
use crate::digest::{Algorithm, Digest, DigestView};
use crate::glob;
use crate::manifest::Manifest;
use crate::order;
use crate::order::Key;
use crate::storage;
use crate::storage::{Call, Reference, ReferenceView, Storage, StorageError};
use crate::text;
use crate::walk;
use crate::walk::{Found, Place};

verus! {

/// A tag of a repository and the manifest it points to.
#[derive(Debug)]
pub struct TagPointer {
    pub repo: String,
    pub tag: String,
    pub digest: Digest,
}

pub struct TagPointerView {
    pub repo: Seq<char>,
    pub tag: Seq<char>,
    pub digest: DigestView,
}

impl View for TagPointer {
    type V = TagPointerView;

    open spec fn view(&self) -> TagPointerView {
        TagPointerView { repo: self.repo@, tag: self.tag@, digest: self.digest@ }
    }
}

/// The tag passes the filter.
pub open spec fn selected(filter: Option<Seq<char>>, tag: Seq<char>) -> bool {
    match filter {
        Some(g) => glob::matches(g, tag),
        None => true,
    }
}

/// A call handed out, for this tag, a manifest with this digest.
pub open spec fn tag_read(calls: Seq<Call>, t: TagPointerView) -> bool {
    exists|x: (Seq<u8>, Option<Manifest>)| #[trigger]
        calls.contains(
            Call::ManifestGet {
                repo: t.repo,
                reference: ReferenceView::Tag(t.tag),
                reply: Ok(x),
            },
        ) && t.digest == digest::content_digest(Algorithm::Sha256, x.0)
}

/// Every selected tag of the list has a pointer, for a manifest that was read.
pub open spec fn tags_noted(
    calls: Seq<Call>,
    repo: Seq<char>,
    filter: Option<Seq<char>>,
    list: Seq<Seq<char>>,
    tags: Seq<TagPointerView>,
) -> bool {
    forall|i: int|
        0 <= i < list.len() && selected(filter, #[trigger] list[i]) ==> exists|t: TagPointerView|
            #[trigger]
            tags.contains(t) && t.repo == repo && t.tag == list[i]
}

/// Every digest of the list is a manifest that was found, or that is missing.
pub open spec fn digests_noted(
    calls: Seq<Call>,
    repo: Seq<char>,
    list: Seq<DigestView>,
    manifests: Set<Place>,
) -> bool {
    forall|i: int|
        0 <= i < list.len() ==> manifests.contains((repo, #[trigger] list[i])) || walk::missing(
            calls,
            (repo, list[i]),
        )
}

/// Everything wanted of one repository was found: all selected tags, and without a
/// filter all manifests.
pub open spec fn repo_searched(
    calls: Seq<Call>,
    repo: Seq<char>,
    filter: Option<Seq<char>>,
    manifests: Set<Place>,
    tags: Seq<TagPointerView>,
) -> bool {
    &&& exists|list: Seq<Seq<char>>| #[trigger]
        calls.contains(Call::ListTags { repo, reply: Ok(list) }) && tags_noted(
            calls,
            repo,
            filter,
            list,
            tags,
        )
    &&& filter is None ==> exists|list: Seq<DigestView>| #[trigger]
        calls.contains(Call::ListManifestDigests { repo, reply: Ok(list) }) && digests_noted(
            calls,
            repo,
            list,
            manifests,
        )
}

/// Every pointer is for a selected tag and was read from the source.
pub open spec fn tags_explained(
    calls: Seq<Call>,
    filter: Option<Seq<char>>,
    tags: Seq<TagPointerView>,
) -> bool {
    forall|i: int|
        0 <= i < tags.len() ==> tag_read(calls, #[trigger] tags[i]) && selected(filter, tags[i].tag)
}

/// A step of the search keeps what was found: the calls grow, nothing is lost.
pub open spec fn kept(
    calls: Seq<Call>,
    more: Seq<Call>,
    m: Set<Place>,
    m2: Set<Place>,
    tags: Seq<TagPointerView>,
    tags2: Seq<TagPointerView>,
) -> bool {
    &&& storage::extends(calls, more)
    &&& m.subset_of(m2)
    &&& tags.len() <= tags2.len()
    &&& forall|i: int| 0 <= i < tags.len() ==> #[trigger] tags2[i] == tags[i]
}

pub proof fn lemma_extends_contains(calls: Seq<Call>, more: Seq<Call>)
    requires
        storage::extends(calls, more),
    ensures
        forall|c: Call| #[trigger] calls.contains(c) ==> more.contains(c),
        forall|k: Place| #[trigger] walk::missing(calls, k) ==> walk::missing(more, k),
{
    assert forall|c: Call| #[trigger] calls.contains(c) implies more.contains(c) by {
        let i = choose|i: int| 0 <= i < calls.len() && calls[i] == c;
        assert(more.subrange(0, calls.len() as int)[i] == more[i]);
        assert(more[i] == c);
    }
    assert forall|k: Place| #[trigger] walk::missing(calls, k) implies walk::missing(more, k) by {
        let i = choose|i: int|
            0 <= i < calls.len() && #[trigger] calls[i] == (Call::ManifestGet {
                repo: k.0,
                reference: ReferenceView::Digest(k.1),
                reply: Err(StorageError::NotFound),
            });
        assert(more.subrange(0, calls.len() as int)[i] == more[i]);
        assert(more[i] == calls[i]);
    }
}

pub proof fn lemma_searched_kept(
    calls: Seq<Call>,
    more: Seq<Call>,
    repo: Seq<char>,
    filter: Option<Seq<char>>,
    m: Set<Place>,
    m2: Set<Place>,
    tags: Seq<TagPointerView>,
    tags2: Seq<TagPointerView>,
)
    requires
        repo_searched(calls, repo, filter, m, tags),
        kept(calls, more, m, m2, tags, tags2),
    ensures
        repo_searched(more, repo, filter, m2, tags2),
{
    lemma_extends_contains(calls, more);
    let list = choose|list: Seq<Seq<char>>| #[trigger]
        calls.contains(Call::ListTags { repo, reply: Ok(list) }) && tags_noted(
            calls,
            repo,
            filter,
            list,
            tags,
        );
    assert(more.contains(Call::ListTags { repo, reply: Ok(list) }));
    lemma_tags_noted_kept(calls, more, repo, filter, list, m, m2, tags, tags2);
    if filter is None {
        let ds = choose|ds: Seq<DigestView>| #[trigger]
            calls.contains(Call::ListManifestDigests { repo, reply: Ok(ds) }) && digests_noted(
                calls,
                repo,
                ds,
                m,
            );
        assert(more.contains(Call::ListManifestDigests { repo, reply: Ok(ds) }));
        assert(digests_noted(more, repo, ds, m2));
    }
}

proof fn lemma_tags_noted_kept(
    calls: Seq<Call>,
    more: Seq<Call>,
    repo: Seq<char>,
    filter: Option<Seq<char>>,
    list: Seq<Seq<char>>,
    m: Set<Place>,
    m2: Set<Place>,
    tags: Seq<TagPointerView>,
    tags2: Seq<TagPointerView>,
)
    requires
        tags_noted(calls, repo, filter, list, tags),
        kept(calls, more, m, m2, tags, tags2),
    ensures
        tags_noted(more, repo, filter, list, tags2),
{
    assert forall|i: int| 0 <= i < list.len() && selected(filter, #[trigger] list[i]) implies exists|
        t: TagPointerView,
    | #[trigger] tags2.contains(t) && t.repo == repo && t.tag == list[i] by {
        let t = choose|t: TagPointerView| #[trigger]
            tags.contains(t) && t.repo == repo && t.tag == list[i];
        let j = choose|j: int| 0 <= j < tags.len() && tags[j] == t;
        assert(tags2[j] == t);
        assert(tags2.contains(t));
    }
}

proof fn lemma_tags_explained_kept(
    calls: Seq<Call>,
    more: Seq<Call>,
    filter: Option<Seq<char>>,
    tags: Seq<TagPointerView>,
)
    requires
        tags_explained(calls, filter, tags),
        storage::extends(calls, more),
    ensures
        tags_explained(more, filter, tags),
{
    lemma_extends_contains(calls, more);
    assert forall|i: int| 0 <= i < tags.len() implies tag_read(more, #[trigger] tags[i]) && selected(
        filter,
        tags[i].tag,
    ) by {
        let t = tags[i];
        let x = choose|x: (Seq<u8>, Option<Manifest>)| #[trigger]
            calls.contains(
                Call::ManifestGet {
                    repo: t.repo,
                    reference: ReferenceView::Tag(t.tag),
                    reply: Ok(x),
                },
            ) && t.digest == digest::content_digest(Algorithm::Sha256, x.0);
        assert(more.contains(
            Call::ManifestGet {
                repo: t.repo,
                reference: ReferenceView::Tag(t.tag),
                reply: Ok(x),
            },
        ));
    }
}

/// There is a reason to ask for the manifest at `i`: it has a selected tag, or all
/// manifests are wanted, or it is a child of one that was handed out before.
pub open spec fn reasoned_at(calls: Seq<Call>, filter: Option<Seq<char>>, i: int) -> bool {
    match calls[i] {
        Call::ManifestGet { reference: ReferenceView::Tag(t), .. } => selected(filter, t),
        Call::ManifestGet { repo, reference: ReferenceView::Digest(d), .. } => filter is None
            || walk::parent_shown(calls.take(i), (repo, d)),
        _ => true,
    }
}

/// No manifest is asked for without a reason.
pub open spec fn reasoned(calls: Seq<Call>, filter: Option<Seq<char>>) -> bool {
    forall|i: int| 0 <= i < calls.len() ==> #[trigger] reasoned_at(calls, filter, i)
}

proof fn lemma_reasoned_push(calls: Seq<Call>, c: Call, filter: Option<Seq<char>>)
    requires
        reasoned(calls, filter),
        match c {
            Call::ManifestGet { reference: ReferenceView::Tag(t), .. } => selected(filter, t),
            Call::ManifestGet { .. } => filter is None,
            _ => true,
        },
    ensures
        reasoned(calls.push(c), filter),
{
    let t = calls.push(c);
    assert forall|i: int| 0 <= i < t.len() implies #[trigger] reasoned_at(t, filter, i) by {
        if i < calls.len() {
            assert(reasoned_at(calls, filter, i));
            assert(t.take(i) =~= calls.take(i));
        }
    }
}

proof fn lemma_reasoned_walk(calls: Seq<Call>, more: Seq<Call>, filter: Option<Seq<char>>)
    requires
        reasoned(calls, filter),
        storage::extends(calls, more),
        walk::descends(more, calls.len() as int),
    ensures
        reasoned(more, filter),
{
    assert forall|i: int| 0 <= i < more.len() implies #[trigger] reasoned_at(more, filter, i) by {
        if i < calls.len() {
            assert(reasoned_at(calls, filter, i));
            assert(more.subrange(0, calls.len() as int)[i] == more[i]);
            assert(more.take(i) =~= calls.take(i)) by {
                assert forall|j: int| 0 <= j < i implies more[j] == calls[j] by {
                    assert(more.subrange(0, calls.len() as int)[j] == more[j]);
                }
            }
        } else {
            assert(walk::child_at(more, i));
        }
    }
}

/// The state of a search over the source: what was found is explained, and the
/// pointers too, and nothing was asked for without a reason.
pub open spec fn search_state(
    calls: Seq<Call>,
    filter: Option<Seq<char>>,
    found: Found,
    tags: Seq<TagPointerView>,
) -> bool {
    &&& found.wf()
    &&& walk::searching(calls)
    &&& found.explained_by(calls)
    &&& tags_explained(calls, filter, tags)
    &&& reasoned(calls, filter)
}

fn is_selected(filter: &Option<String>, tag: &str) -> (r: bool)
    ensures
        r == selected(text::opt(*filter), tag@),
{
    match filter {
        Some(g) => glob::glob_match(g.as_str(), tag),
        None => true,
    }
}

/// Finds everything wanted of one repository.
pub fn search_repo<S: Storage>(
    src: &mut S,
    repo: &str,
    filter: &Option<String>,
    found: &mut Found,
    tags: &mut Vec<TagPointer>,
    Ghost(start): Ghost<Seq<Call>>,
) -> (r: Result<(), StorageError>)
    requires
        old(src).wf(),
        storage::extends(start, old(src).log()),
        search_state(
            storage::added(start, old(src).log()),
            text::opt(*filter),
            *old(found),
            order::views_of(old(tags)@),
        ),
    ensures
        final(src).wf(),
        final(src).origin() == old(src).origin(),
        storage::extends(start, final(src).log()),
        storage::extends(old(src).log(), final(src).log()),
        walk::about(storage::added(old(src).log(), final(src).log()), repo@),
        final(found).wf(),
        match r {
            Ok(_) => {
                &&& search_state(
                    storage::added(start, final(src).log()),
                    text::opt(*filter),
                    *final(found),
                    order::views_of(final(tags)@),
                )
                &&& kept(
                    storage::added(start, old(src).log()),
                    storage::added(start, final(src).log()),
                    old(found).manifests@,
                    final(found).manifests@,
                    order::views_of(old(tags)@),
                    order::views_of(final(tags)@),
                )
                &&& repo_searched(
                    storage::added(start, final(src).log()),
                    repo@,
                    text::opt(*filter),
                    final(found).manifests@,
                    order::views_of(final(tags)@),
                )
            },
            Err(e) => walk::search_failed(storage::added(start, final(src).log()), e),
        },
{
    let ghost log0 = src.log();
    let ghost calls0 = storage::added(start, log0);
    let ghost tags0 = order::views_of(tags@);
    let ghost m0 = found.manifests@;
    proof {
        storage::lemma_added_none(log0);
        lemma_extends_self(calls0);
    }
    let listed = src.list_tags(repo);
    let ghost c = src.log().last();
    proof {
        lemma_search_step(start, log0, c, text::opt(*filter), *found, tags0);
        storage::lemma_added_push(log0, log0, c);
        walk::lemma_about_push(storage::added(log0, log0), c, repo@);
        lemma_extends_push(calls0, c);
        storage::lemma_contains_push(calls0, c);
    }
    let names = match listed {
        Ok(v) => v,
        Err(e) => return Err(e),
    };
    let ghost list = order::views_of(names@);
    let mut i: usize = 0;
    while i < names.len()
        invariant
            i <= names@.len(),
            list == order::views_of(names@),
            src.wf(),
            src.origin() == old(src).origin(),
            log0 == old(src).log(),
            calls0 == storage::added(start, log0),
            storage::extends(start, src.log()),
            storage::extends(log0, src.log()),
            walk::about(storage::added(log0, src.log()), repo@),
            search_state(
                storage::added(start, src.log()),
                text::opt(*filter),
                *found,
                order::views_of(tags@),
            ),
            kept(
                calls0,
                storage::added(start, src.log()),
                m0,
                found.manifests@,
                tags0,
                order::views_of(tags@),
            ),
            storage::added(start, src.log()).contains(
                Call::ListTags { repo: repo@, reply: Ok(list) },
            ),
            tags_noted(
                storage::added(start, src.log()),
                repo@,
                text::opt(*filter),
                list.take(i as int),
                order::views_of(tags@),
            ),
        decreases names@.len() - i,
    {
        let ghost was = src.log();
        let ghost calls = storage::added(start, was);
        let ghost t1 = order::views_of(tags@);
        let ghost m1 = found.manifests@;
        assert(list.take(i + 1) =~= list.take(i as int).push(list[i as int]));
        if !is_selected(filter, names[i].as_str()) {
            assert(tags_noted(calls, repo@, text::opt(*filter), list.take(i + 1), t1)) by {
                assert forall|j: int|
                    0 <= j < i + 1 && selected(text::opt(*filter), #[trigger] list.take(i + 1)[j]) implies exists|
                    t: TagPointerView,
                | #[trigger] t1.contains(t) && t.repo == repo@ && t.tag == list.take(i + 1)[j] by {
                    assert(j < i);
                    assert(list.take(i as int)[j] == list.take(i + 1)[j]);
                }
            }
            i = i + 1;
            continue;
        }
        let reference = Reference::Tag(names[i].clone());
        let got = src.manifest_get(repo, &reference);
        let ghost c = src.log().last();
        proof {
            assert(src.log() == was.push(c));
            storage::lemma_added_push(start, was, c);
            storage::lemma_added_push(log0, was, c);
            walk::lemma_about_push(storage::added(log0, was), c, repo@);
            storage::lemma_contains_push(calls, c);
            walk::lemma_searching_push(calls, c);
            lemma_reasoned_push(calls, c, text::opt(*filter));
        }
        let stored = match got {
            Ok(m) => m,
            Err(e) => return Err(e),
        };
        let d = digest::sha256_digest(stored.content.as_slice());
        let ghost dv = d@;
        let pointer = TagPointer { repo: repo.to_owned(), tag: names[i].clone(), digest: d.dup() };
        let ghost pv = pointer@;
        let ghost content = (stored.content@, stored.refs);
        tags.push(pointer);
        let ghost now = src.log();
        proof {
            assert(storage::added(start, now).last() == c);
            assert(storage::added(start, now).drop_last() =~= calls);
        }
        let walked = walk::walk(src, repo, d, stored.refs, found, Ghost(start));
        proof {
            storage::lemma_added_twice(log0, now, src.log());
            walk::lemma_about_concat(
                storage::added(log0, now),
                storage::added(now, src.log()),
                repo@,
            );
            storage::lemma_added_twice(start, now, src.log());
        }
        match walked {
            Ok(()) => {},
            Err(e) => return Err(e),
        }
        proof {
            let c1 = storage::added(start, now);
            let c2 = storage::added(start, src.log());
            let t2 = order::views_of(tags@);
            assert(t2 =~= t1.push(pv));
            assert(storage::extends(calls, c1)) by {
                assert(c1.subrange(0, calls.len() as int) =~= calls);
            }
            assert(storage::extends(c1, c2)) by {
                assert(c2.subrange(0, c1.len() as int) =~= c1);
            }
            lemma_reasoned_walk(c1, c2, text::opt(*filter));
            lemma_extends_extends(calls, c1, c2);
            lemma_extends_extends(calls0, calls, c2);
            lemma_extends_contains(calls, c2);
            lemma_extends_contains(c1, c2);
            lemma_tags_explained_kept(calls, c2, text::opt(*filter), t1);
            assert(c2.contains(
                Call::ManifestGet {
                    repo: pv.repo,
                    reference: ReferenceView::Tag(pv.tag),
                    reply: Ok(content),
                },
            ));
            assert(tag_read(c2, pv));
            assert(tags_explained(c2, text::opt(*filter), t2)) by {
                assert forall|j: int| 0 <= j < t2.len() implies tag_read(c2, #[trigger] t2[j])
                    && selected(text::opt(*filter), t2[j].tag) by {
                    if j < t1.len() {
                        assert(t2[j] == t1[j]);
                    }
                }
            }
            assert(kept(calls, c2, m1, found.manifests@, t1, t2));
            lemma_tags_noted_kept(
                calls,
                c2,
                repo@,
                text::opt(*filter),
                list.take(i as int),
                m1,
                found.manifests@,
                t1,
                t2,
            );
            assert(tags_noted(c2, repo@, text::opt(*filter), list.take(i + 1), t2)) by {
                assert forall|j: int|
                    0 <= j < i + 1 && selected(text::opt(*filter), #[trigger] list.take(i + 1)[j]) implies exists|
                    t: TagPointerView,
                | #[trigger] t2.contains(t) && t.repo == repo@ && t.tag == list.take(i + 1)[j] by {
                    if j < i {
                        assert(list.take(i as int)[j] == list.take(i + 1)[j]);
                    } else {
                        assert(t2[t1.len() as int] == pv);
                        assert(t2.contains(pv));
                    }
                }
            }
            assert(kept(calls0, c2, m0, found.manifests@, tags0, t2)) by {
                assert forall|j: int| 0 <= j < tags0.len() implies #[trigger] t2[j] == tags0[j] by {
                    assert(t1[j] == tags0[j]);
                }
            }
        }
        i = i + 1;
    }
    assert(list.take(i as int) =~= list);
    if filter.is_some() {
        return Ok(());
    }
    let ghost was = src.log();
    let ghost calls = storage::added(start, was);
    let ghost t1 = order::views_of(tags@);
    let all = src.list_manifest_digests(repo);
    let ghost c = src.log().last();
    proof {
        lemma_search_step(start, was, c, text::opt(*filter), *found, t1);
        storage::lemma_added_push(log0, was, c);
        walk::lemma_about_push(storage::added(log0, was), c, repo@);
        lemma_extends_push(calls, c);
        lemma_extends_extends(calls0, calls, calls.push(c));
        storage::lemma_contains_push(calls, c);
    }
    let ds = match all {
        Ok(v) => v,
        Err(e) => return Err(e),
    };
    let ghost dl = order::views_of(ds@);
    proof {
        lemma_tags_noted_kept(
            calls,
            calls.push(c),
            repo@,
            text::opt(*filter),
            list,
            found.manifests@,
            found.manifests@,
            t1,
            t1,
        );
    }
    let mut k: usize = 0;
    while k < ds.len()
        invariant
            k <= ds@.len(),
            dl == order::views_of(ds@),
            filter is None,
            src.wf(),
            src.origin() == old(src).origin(),
            log0 == old(src).log(),
            calls0 == storage::added(start, log0),
            storage::extends(start, src.log()),
            storage::extends(log0, src.log()),
            walk::about(storage::added(log0, src.log()), repo@),
            order::views_of(tags@) == t1,
            search_state(
                storage::added(start, src.log()),
                text::opt(*filter),
                *found,
                order::views_of(tags@),
            ),
            kept(
                calls0,
                storage::added(start, src.log()),
                m0,
                found.manifests@,
                tags0,
                order::views_of(tags@),
            ),
            storage::added(start, src.log()).contains(
                Call::ListTags { repo: repo@, reply: Ok(list) },
            ),
            storage::added(start, src.log()).contains(
                Call::ListManifestDigests { repo: repo@, reply: Ok(dl) },
            ),
            tags_noted(storage::added(start, src.log()), repo@, text::opt(*filter), list, t1),
            digests_noted(
                storage::added(start, src.log()),
                repo@,
                dl.take(k as int),
                found.manifests@,
            ),
        decreases ds@.len() - k,
    {
        let ghost was = src.log();
        let ghost calls = storage::added(start, was);
        let ghost m1 = found.manifests@;
        let key: (String, Digest) = (repo.to_owned(), ds[k].dup());
        assert(key@ == (repo@, dl[k as int]));
        if found.manifests.contains(&key) {
            assert(digests_noted(calls, repo@, dl.take(k + 1), m1)) by {
                assert forall|j: int| 0 <= j < k + 1 implies m1.contains(
                    (repo@, #[trigger] dl.take(k + 1)[j]),
                ) || walk::missing(calls, (repo@, dl.take(k + 1)[j])) by {
                    if j < k {
                        assert(dl.take(k as int)[j] == dl.take(k + 1)[j]);
                    }
                }
            }
            k = k + 1;
            continue;
        }
        let reference = Reference::Digest(ds[k].dup());
        let got = src.manifest_get(repo, &reference);
        let ghost c = src.log().last();
        let ghost now = src.log();
        let ghost c1 = calls.push(c);
        proof {
            assert(src.log() == was.push(c));
            storage::lemma_added_push(start, was, c);
            storage::lemma_added_push(log0, was, c);
            walk::lemma_about_push(storage::added(log0, was), c, repo@);
            storage::lemma_contains_push(calls, c);
            walk::lemma_searching_push(calls, c);
            lemma_reasoned_push(calls, c, text::opt(*filter));
            lemma_extends_push(calls, c);
            lemma_extends_self(c1);
            assert(c1.drop_last() =~= calls);
        }
        match got {
            Ok(stored) => {
                let walked = walk::walk(src, repo, ds[k].dup(), stored.refs, found, Ghost(start));
                proof {
                    storage::lemma_added_twice(log0, now, src.log());
                    walk::lemma_about_concat(
                        storage::added(log0, now),
                        storage::added(now, src.log()),
                        repo@,
                    );
                    storage::lemma_added_twice(start, now, src.log());
                    let c2 = storage::added(start, src.log());
                    assert(storage::extends(c1, c2)) by {
                        assert(c2.subrange(0, c1.len() as int) =~= c1);
                    }
                }
                match walked {
                    Ok(()) => {},
                    Err(e) => return Err(e),
                }
                proof {
                    lemma_reasoned_walk(c1, storage::added(start, src.log()), text::opt(*filter));
                }
            },
            Err(StorageError::NotFound) => {
                proof {
                    walk::lemma_explained_other(
                        found.manifests@,
                        found.blobs@,
                        calls,
                        c,
                        Seq::empty(),
                        Seq::empty(),
                    );
                    assert(c1[calls.len() as int] == c);
                    assert(walk::missing(c1, (repo@, dl[k as int])));
                }
            },
            Err(e) => return Err(e),
        }
        proof {
            let c2 = storage::added(start, src.log());
            lemma_extends_extends(calls, c1, c2);
            lemma_extends_extends(calls0, calls, c2);
            lemma_extends_contains(calls, c2);
            lemma_extends_contains(c1, c2);
            lemma_tags_explained_kept(calls, c2, text::opt(*filter), t1);
            lemma_tags_noted_kept(
                calls,
                c2,
                repo@,
                text::opt(*filter),
                list,
                m1,
                found.manifests@,
                t1,
                t1,
            );
            assert(digests_noted(c2, repo@, dl.take(k + 1), found.manifests@)) by {
                assert forall|j: int| 0 <= j < k + 1 implies found.manifests@.contains(
                    (repo@, #[trigger] dl.take(k + 1)[j]),
                ) || walk::missing(c2, (repo@, dl.take(k + 1)[j])) by {
                    if j < k {
                        assert(dl.take(k as int)[j] == dl.take(k + 1)[j]);
                    }
                }
            }
        }
        k = k + 1;
    }
    assert(dl.take(k as int) =~= dl);
    Ok(())
}

pub proof fn lemma_extends_self(calls: Seq<Call>)
    ensures
        storage::extends(calls, calls),
{
    assert(calls.subrange(0, calls.len() as int) =~= calls);
}

pub proof fn lemma_extends_push(calls: Seq<Call>, c: Call)
    ensures
        storage::extends(calls, calls.push(c)),
{
    assert(calls.push(c).subrange(0, calls.len() as int) =~= calls);
}

pub proof fn lemma_extends_extends(a: Seq<Call>, b: Seq<Call>, c: Seq<Call>)
    requires
        storage::extends(a, b),
        storage::extends(b, c),
    ensures
        storage::extends(a, c),
{
    storage::lemma_added_twice(a, b, c);
}

/// A listing that did not fail keeps the state of the search.
proof fn lemma_search_step(
    start: Seq<Call>,
    was: Seq<Call>,
    c: Call,
    filter: Option<Seq<char>>,
    found: Found,
    tags: Seq<TagPointerView>,
)
    requires
        storage::extends(start, was),
        search_state(storage::added(start, was), filter, found, tags),
        walk::looks(c),
        !(c is ManifestGet),
    ensures
        storage::extends(start, was.push(c)),
        storage::added(start, was.push(c)) == storage::added(start, was).push(c),
        walk::fatal(c) is None ==> search_state(
            storage::added(start, was.push(c)),
            filter,
            found,
            tags,
        ),
        walk::fatal(c) matches Some(e) ==> walk::search_failed(
            storage::added(start, was.push(c)),
            e,
        ),
{
    let calls = storage::added(start, was);
    storage::lemma_added_push(start, was, c);
    walk::lemma_searching_push(calls, c);
    walk::lemma_explained_other(
        found.manifests@,
        found.blobs@,
        calls,
        c,
        Seq::empty(),
        Seq::empty(),
    );
    lemma_extends_push(calls, c);
    lemma_tags_explained_kept(calls, calls.push(c), filter, tags);
    lemma_reasoned_push(calls, c, filter);
}

// ---- Writing what the target lacks ----------------------------------------

/// The blob at `p` is settled: the target has it, or the source no longer does, or
/// the target lacked it and took the bytes that the source gave.
pub open spec fn blob_done(u: Seq<Call>, v: Seq<Call>, p: Place) -> bool {
    ||| v.contains(Call::BlobExists { repo: p.0, digest: p.1, reply: Ok(true) })
    ||| v.contains(Call::BlobExists { repo: p.0, digest: p.1, reply: Ok(false) }) && (u.contains(
        Call::BlobRead { repo: p.0, digest: p.1, reply: Err(StorageError::NotFound) },
    ) || exists|content: Seq<u8>| #[trigger]
        u.contains(Call::BlobRead { repo: p.0, digest: p.1, reply: Ok(content) }) && took_blob(
            v,
            p,
            content,
        ))
}

/// The source gave these bytes for the manifest at `p`.
pub open spec fn gave(u: Seq<Call>, p: Place, content: Seq<u8>) -> bool {
    exists|refs: Option<Manifest>| #[trigger]
        u.contains(
            Call::ManifestGet {
                repo: p.0,
                reference: ReferenceView::Digest(p.1),
                reply: Ok((content, refs)),
            },
        )
}

/// The source gave these bytes for some manifest of `repo`.
pub open spec fn gave_some(u: Seq<Call>, repo: Seq<char>, content: Seq<u8>) -> bool {
    exists|d: DigestView| gave(u, #[trigger] place(repo, d), content)
}

pub open spec fn place(repo: Seq<char>, d: DigestView) -> Place {
    (repo, d)
}

/// The target took these bytes as a blob.
pub open spec fn took_blob(v: Seq<Call>, p: Place, content: Seq<u8>) -> bool {
    exists|x: ()| #[trigger]
        v.contains(Call::BlobWrite { repo: p.0, digest: p.1, content, reply: Ok(x) })
}

/// The source said that the manifest at `p` is not there.
pub open spec fn gone(u: Seq<Call>, p: Place) -> bool {
    u.contains(
        Call::ManifestGet {
            repo: p.0,
            reference: ReferenceView::Digest(p.1),
            reply: Err(StorageError::NotFound),
        },
    )
}

/// The target handed out the manifest at `p`.
pub open spec fn held(v: Seq<Call>, p: Place) -> bool {
    exists|x: (Seq<u8>, Option<Manifest>)| #[trigger]
        v.contains(
            Call::ManifestGet { repo: p.0, reference: ReferenceView::Digest(p.1), reply: Ok(x) },
        )
}

/// The target did not hand out the manifest at `p`; when `strict`, because it is
/// not there.
pub open spec fn lacked(v: Seq<Call>, p: Place, strict: bool) -> bool {
    exists|e: StorageError| #[trigger]
        v.contains(
            Call::ManifestGet { repo: p.0, reference: ReferenceView::Digest(p.1), reply: Err(e) },
        ) && (strict ==> e == StorageError::NotFound)
}

/// The call did not hand out the manifest at `p`; when `strict`, because it is not there.
pub open spec fn denied(c: Call, p: Place, strict: bool) -> bool {
    match c {
        Call::ManifestGet { repo, reference: ReferenceView::Digest(d), reply: Err(e) } => {
            &&& p == (repo, d)
            &&& strict ==> e == StorageError::NotFound
        },
        _ => false,
    }
}

/// The target took these bytes as the manifest for `reference`.
pub open spec fn took(
    v: Seq<Call>,
    repo: Seq<char>,
    reference: ReferenceView,
    content: Seq<u8>,
) -> bool {
    exists|d: DigestView| #[trigger]
        v.contains(Call::ManifestPut { repo, reference, content, reply: Ok(d) })
}

/// The manifest at `p` is settled: the target has it, or the source no longer does,
/// or the target lacked it and took the bytes that the source gave.
pub open spec fn manifest_done(u: Seq<Call>, v: Seq<Call>, p: Place, strict: bool) -> bool {
    ||| held(v, p)
    ||| lacked(v, p, strict) && (gone(u, p) || exists|content: Seq<u8>| #[trigger]
        gave(u, p, content) && took(v, p.0, ReferenceView::Digest(p.1), content))
}

/// The tag is settled: the source no longer has its manifest, or the target took
/// the bytes that the source gave for it.
pub open spec fn tag_done(u: Seq<Call>, v: Seq<Call>, t: TagPointerView) -> bool {
    let p = (t.repo, t.digest);
    gone(u, p) || exists|content: Seq<u8>| #[trigger]
        gave(u, p, content) && took(v, t.repo, ReferenceView::Tag(t.tag), content)
}

/// The call at the target is in order: a question, or a write of bytes that the
/// source gave, and unless it is a tag only right after the target said it lacks them.
pub open spec fn in_order(u: Seq<Call>, v: Seq<Call>, c: Call, strict: bool) -> bool {
    match c {
        Call::BlobExists { .. } => true,
        Call::ManifestGet { .. } => true,
        Call::BlobWrite { repo, digest, content, .. } => u.contains(
            Call::BlobRead { repo, digest, reply: Ok(content) },
        ) && v.contains(Call::BlobExists { repo, digest, reply: Ok(false) }) && v.last() == (
        Call::BlobExists { repo, digest, reply: Ok(false) }),
        Call::ManifestPut { repo, reference, content, .. } => match reference {
            ReferenceView::Digest(d) => gave(u, (repo, d), content) && lacked(v, (repo, d), strict)
                && denied(v.last(), (repo, d), strict),
            ReferenceView::Tag(_) => gave_some(u, repo, content),
        },
        _ => false,
    }
}

/// Every call at the target is in order.
pub open spec fn honest(u: Seq<Call>, v: Seq<Call>, strict: bool) -> bool {
    forall|i: int| 0 <= i < v.len() ==> in_order(u, v.take(i), #[trigger] v[i], strict)
}

/// Blobs and manifests are read, nothing else.
pub open spec fn reads_only(u: Seq<Call>) -> bool {
    forall|i: int| 0 <= i < u.len() ==> #[trigger] u[i] is BlobRead || u[i] is ManifestGet
}

/// The call reads: a listing, a manifest or a blob.
pub open spec fn is_read(c: Call) -> bool {
    ||| c is ListRepos
    ||| c is ListTags
    ||| c is ListManifestDigests
    ||| c is ManifestGet
    ||| c is BlobRead
}

/// The call asks for a blob or manifest, or adds one.
pub open spec fn is_addition(c: Call) -> bool {
    ||| c is BlobExists
    ||| c is ManifestGet
    ||| c is BlobWrite
    ||| c is ManifestPut
}

/// A source is only read, and a target only added to.
pub open spec fn gentle(u: Seq<Call>, v: Seq<Call>) -> bool {
    &&& forall|i: int| 0 <= i < u.len() ==> is_read(#[trigger] u[i])
    &&& forall|i: int| 0 <= i < v.len() ==> is_addition(#[trigger] v[i])
}

pub proof fn lemma_gentle_concat(u1: Seq<Call>, v1: Seq<Call>, u2: Seq<Call>, v2: Seq<Call>)
    requires
        gentle(u1, v1),
        gentle(u2, v2),
    ensures
        gentle(u1 + u2, v1 + v2),
{
    assert forall|i: int| 0 <= i < (u1 + u2).len() implies is_read(#[trigger] (u1 + u2)[i]) by {
        if i < u1.len() {
            assert((u1 + u2)[i] == u1[i]);
        } else {
            assert((u1 + u2)[i] == u2[i - u1.len()]);
        }
    }
    assert forall|i: int| 0 <= i < (v1 + v2).len() implies is_addition(#[trigger] (v1 + v2)[i]) by {
        if i < v1.len() {
            assert((v1 + v2)[i] == v1[i]);
        } else {
            assert((v1 + v2)[i] == v2[i - v1.len()]);
        }
    }
}

/// A search and a copy are gentle.
pub proof fn lemma_gentle(w: Seq<Call>, u: Seq<Call>, v: Seq<Call>, strict: bool)
    requires
        forall|i: int| 0 <= i < w.len() ==> walk::looks(#[trigger] w[i]),
        honest(u, v, strict),
        reads_only(u),
    ensures
        gentle(w + u, v),
{
    assert forall|i: int| 0 <= i < (w + u).len() implies is_read(#[trigger] (w + u)[i]) by {
        if i < w.len() {
            assert((w + u)[i] == w[i]);
        } else {
            assert((w + u)[i] == u[i - w.len()]);
        }
    }
    assert forall|i: int| 0 <= i < v.len() implies is_addition(#[trigger] v[i]) by {
        assert(in_order(u, v.take(i), v[i], strict));
    }
}

/// The call writes a tag.
pub open spec fn writes_tag(c: Call) -> bool {
    c matches Call::ManifestPut { reference, .. } && reference is Tag
}

/// The call writes the tag of the pointer `t`, with the bytes that the source gave for
/// its manifest.
pub open spec fn points(u: Seq<Call>, c: Call, t: TagPointerView) -> bool {
    match c {
        Call::ManifestPut { repo, reference: ReferenceView::Tag(x), content, .. } => {
            &&& repo == t.repo
            &&& x == t.tag
            &&& gave(u, place(t.repo, t.digest), content)
        },
        _ => false,
    }
}

/// Every tag that is written is written for one of the pointers.
pub open spec fn tags_right(u: Seq<Call>, v: Seq<Call>, tags: Seq<TagPointerView>) -> bool {
    forall|i: int|
        0 <= i < v.len() && writes_tag(#[trigger] v[i]) ==> exists|j: int|
            0 <= j < tags.len() && points(u, v[i], #[trigger] tags[j])
}

/// What the call writes to a target came from the source: the bytes of a blob or a
/// manifest are those that it gave for this very digest, and a tag is written for the
/// manifest that the tag showed there.
pub open spec fn came(u: Seq<Call>, c: Call) -> bool {
    match c {
        Call::BlobWrite { repo, digest, content, .. } => u.contains(
            Call::BlobRead { repo, digest, reply: Ok(content) },
        ),
        Call::ManifestPut { repo, reference, content, .. } => match reference {
            ReferenceView::Digest(d) => gave(u, (repo, d), content),
            ReferenceView::Tag(_) => exists|t: TagPointerView| #[trigger]
                tag_read(u, t) && points(u, c, t),
        },
        _ => true,
    }
}

/// All that is written to a target came from the source.
pub open spec fn given(u: Seq<Call>, v: Seq<Call>) -> bool {
    forall|i: int| 0 <= i < v.len() ==> came(u, #[trigger] v[i])
}

pub proof fn lemma_came_more(u: Seq<Call>, u2: Seq<Call>, c: Call)
    requires
        came(u, c),
        within(u, u2),
    ensures
        came(u2, c),
{
    lemma_gave_grows(u, u2);
    if let Call::BlobWrite { repo, digest, content, .. } = c {
        assert(u2.contains(Call::BlobRead { repo, digest, reply: Ok(content) }));
    }
    if writes_tag(c) {
        let t = choose|t: TagPointerView| #[trigger] tag_read(u, t) && points(u, c, t);
        let x = choose|x: (Seq<u8>, Option<Manifest>)| #[trigger]
            u.contains(
                Call::ManifestGet {
                    repo: t.repo,
                    reference: ReferenceView::Tag(t.tag),
                    reply: Ok(x),
                },
            ) && t.digest == digest::content_digest(Algorithm::Sha256, x.0);
        assert(u2.contains(
            Call::ManifestGet {
                repo: t.repo,
                reference: ReferenceView::Tag(t.tag),
                reply: Ok(x),
            },
        ));
        assert(tag_read(u2, t) && points(u2, c, t));
    }
}

pub proof fn lemma_given_concat(u1: Seq<Call>, v1: Seq<Call>, u2: Seq<Call>, v2: Seq<Call>)
    requires
        given(u1, v1),
        given(u2, v2),
    ensures
        given(u1 + u2, v1 + v2),
{
    let u = u1 + u2;
    let v = v1 + v2;
    lemma_within_concat(u1, u2);
    assert forall|i: int| 0 <= i < v.len() implies came(u, #[trigger] v[i]) by {
        if i < v1.len() {
            assert(v[i] == v1[i]);
            lemma_came_more(u1, u, v1[i]);
        } else {
            assert(v[i] == v2[i - v1.len()]);
            lemma_came_more(u2, u, v2[i - v1.len()]);
        }
    }
}

pub proof fn lemma_within_concat(u1: Seq<Call>, u2: Seq<Call>)
    ensures
        within(u1, u1 + u2),
        within(u2, u1 + u2),
{
    assert forall|c: Call| #[trigger] u1.contains(c) implies (u1 + u2).contains(c) by {
        let i = choose|i: int| 0 <= i < u1.len() && u1[i] == c;
        assert((u1 + u2)[i] == c);
    }
    assert forall|c: Call| #[trigger] u2.contains(c) implies (u1 + u2).contains(c) by {
        let i = choose|i: int| 0 <= i < u2.len() && u2[i] == c;
        assert((u1 + u2)[u1.len() + i] == c);
    }
}

/// A copy of what a search found gives what it read.
pub proof fn lemma_given(
    w: Seq<Call>,
    u: Seq<Call>,
    v: Seq<Call>,
    filter: Option<Seq<char>>,
    tags: Seq<TagPointerView>,
    strict: bool,
)
    requires
        honest(u, v, strict),
        tags_right(u, v, tags),
        tags_explained(w, filter, tags),
    ensures
        given(w + u, v),
{
    lemma_within_concat(w, u);
    lemma_gave_grows(u, w + u);
    assert forall|i: int| 0 <= i < v.len() implies came(w + u, #[trigger] v[i]) by {
        assert(in_order(u, v.take(i), v[i], strict));
        if writes_tag(v[i]) {
            let j = choose|j: int| 0 <= j < tags.len() && points(u, v[i], #[trigger] tags[j]);
            let t = tags[j];
            assert(tag_read(w, t));
            let x = choose|x: (Seq<u8>, Option<Manifest>)| #[trigger]
                w.contains(
                    Call::ManifestGet {
                        repo: t.repo,
                        reference: ReferenceView::Tag(t.tag),
                        reply: Ok(x),
                    },
                ) && t.digest == digest::content_digest(Algorithm::Sha256, x.0);
            assert((w + u).contains(
                Call::ManifestGet {
                    repo: t.repo,
                    reference: ReferenceView::Tag(t.tag),
                    reply: Ok(x),
                },
            ));
            assert(tag_read(w + u, t) && points(w + u, v[i], t));
        } else {
            lemma_untagged_came(u, w + u, v.take(i), v[i], strict);
        }
    }
}

proof fn lemma_untagged_came(u: Seq<Call>, u2: Seq<Call>, v: Seq<Call>, c: Call, strict: bool)
    requires
        in_order(u, v, c, strict),
        !writes_tag(c),
        within(u, u2),
    ensures
        came(u2, c),
{
    lemma_gave_grows(u, u2);
    if let Call::BlobWrite { repo, digest, content, .. } = c {
        assert(u2.contains(Call::BlobRead { repo, digest, reply: Ok(content) }));
    }
}

pub proof fn lemma_tags_right_more(
    u: Seq<Call>,
    v: Seq<Call>,
    u2: Seq<Call>,
    w: Seq<Call>,
    tags: Seq<TagPointerView>,
)
    requires
        tags_right(u, v, tags),
        tags_right(u2, w, tags),
        within(u, u2),
    ensures
        tags_right(u2, v + w, tags),
{
    lemma_gave_grows(u, u2);
    let all = v + w;
    assert forall|i: int| 0 <= i < all.len() && writes_tag(#[trigger] all[i]) implies exists|j: int|
        0 <= j < tags.len() && points(u2, all[i], #[trigger] tags[j]) by {
        if i < v.len() {
            assert(all[i] == v[i]);
            let j = choose|j: int| 0 <= j < tags.len() && points(u, v[i], #[trigger] tags[j]);
            assert(points(u2, all[i], tags[j]));
        } else {
            assert(all[i] == w[i - v.len()]);
            let j = choose|j: int|
                0 <= j < tags.len() && points(u2, w[i - v.len()], #[trigger] tags[j]);
            assert(points(u2, all[i], tags[j]));
        }
    }
}

/// The place that a read by digest asks for.
pub open spec fn asks_blob(c: Call, p: Place) -> bool {
    match c {
        Call::BlobRead { repo, digest, .. } => p == (repo, digest),
        _ => false,
    }
}

pub open spec fn asks_manifest(c: Call, p: Place) -> bool {
    match c {
        Call::ManifestGet { repo, reference: ReferenceView::Digest(d), .. } => p == (repo, d),
        _ => false,
    }
}

/// The call asks for something wanted.
pub open spec fn asks_wanted(
    c: Call,
    manifests: Set<Place>,
    blobs: Set<Place>,
    tags: Seq<TagPointerView>,
) -> bool {
    ||| exists|p: Place| #[trigger] blobs.contains(p) && asks_blob(c, p)
    ||| exists|p: Place| #[trigger] manifests.contains(p) && asks_manifest(c, p)
    ||| exists|i: int|
        0 <= i < tags.len() && asks_manifest(c, place((#[trigger] tags[i]).repo, tags[i].digest))
}

/// Nothing is asked of the source but what is wanted.
pub open spec fn asked_for(
    u: Seq<Call>,
    manifests: Set<Place>,
    blobs: Set<Place>,
    tags: Seq<TagPointerView>,
) -> bool {
    forall|i: int| 0 <= i < u.len() ==> asks_wanted(#[trigger] u[i], manifests, blobs, tags)
}

pub proof fn lemma_asked_concat(
    u: Seq<Call>,
    w: Seq<Call>,
    manifests: Set<Place>,
    blobs: Set<Place>,
    tags: Seq<TagPointerView>,
)
    requires
        asked_for(u, manifests, blobs, tags),
        asked_for(w, manifests, blobs, tags),
    ensures
        asked_for(u + w, manifests, blobs, tags),
{
    assert forall|i: int| 0 <= i < (u + w).len() implies asks_wanted(
        #[trigger] (u + w)[i],
        manifests,
        blobs,
        tags,
    ) by {
        if i < u.len() {
            assert((u + w)[i] == u[i]);
        } else {
            assert((u + w)[i] == w[i - u.len()]);
        }
    }
}

/// The failure of a read at the source that ends a copy.
pub open spec fn source_fatal(c: Call) -> Option<StorageError> {
    match c {
        Call::BlobRead { reply: Err(e), .. } => if e == StorageError::NotFound {
            None
        } else {
            Some(e)
        },
        Call::ManifestGet { reply: Err(e), .. } => if e == StorageError::NotFound {
            None
        } else {
            Some(e)
        },
        _ => None,
    }
}

/// The failure at the target that ends a copy. A manifest that cannot be read there
/// counts as lacking unless the copy is strict.
pub open spec fn target_fatal(c: Call, strict: bool) -> Option<StorageError> {
    match c {
        Call::BlobExists { reply: Err(e), .. } => Some(e),
        Call::BlobWrite { reply: Err(e), .. } => Some(e),
        Call::ManifestPut { reply: Err(e), .. } => Some(e),
        Call::ManifestGet { reply: Err(e), .. } => if e == StorageError::NotFound || !strict {
            None
        } else {
            Some(e)
        },
        _ => None,
    }
}

pub open spec fn source_fine(u: Seq<Call>) -> bool {
    forall|i: int| 0 <= i < u.len() ==> source_fatal(#[trigger] u[i]) is None
}

pub open spec fn target_fine(v: Seq<Call>, strict: bool) -> bool {
    forall|i: int| 0 <= i < v.len() ==> target_fatal(#[trigger] v[i], strict) is None
}

/// The part of a copy that a call at the target belongs to: the blobs, then the
/// manifests by their digests, then the tags.
pub open spec fn part_of(c: Call) -> int {
    match c {
        Call::BlobExists { .. } => 0,
        Call::BlobWrite { .. } => 0,
        Call::ManifestPut { reference: ReferenceView::Tag(_), .. } => 2,
        _ => 1,
    }
}

/// The calls at the target come part by part: no blob is written after a manifest, and
/// no manifest by its digest after one by a tag.
pub open spec fn staged(v: Seq<Call>) -> bool {
    forall|i: int, j: int|
        0 <= i < j < v.len() ==> part_of(#[trigger] v[i]) <= part_of(#[trigger] v[j])
}

/// None of the calls is of a later part.
pub open spec fn parts_upto(v: Seq<Call>, n: int) -> bool {
    forall|i: int| 0 <= i < v.len() ==> part_of(#[trigger] v[i]) <= n
}

/// A copy under way: every call is in order and none has failed fatally.
pub open spec fn copying(u: Seq<Call>, v: Seq<Call>, strict: bool) -> bool {
    honest(u, v, strict) && staged(v) && reads_only(u) && source_fine(u) && target_fine(v, strict)
}

/// The copy ended with a fatal failure of its last call, at the source or at the
/// target.
pub open spec fn copy_failed(
    u: Seq<Call>,
    v: Seq<Call>,
    strict: bool,
    e: StorageError,
) -> bool {
    &&& honest(u, v, strict)
    &&& staged(v)
    &&& reads_only(u)
    &&& {
        ||| u.len() > 0 && source_fatal(u.last()) == Some(e) && source_fine(u.drop_last())
            && target_fine(v, strict)
        ||| v.len() > 0 && target_fatal(v.last(), strict) == Some(e) && target_fine(
            v.drop_last(),
            strict,
        ) && source_fine(u)
    }
}

/// A copy of what is wanted that ended so.
pub open spec fn copy_broken(
    u: Seq<Call>,
    v: Seq<Call>,
    manifests: Set<Place>,
    blobs: Set<Place>,
    tags: Seq<TagPointerView>,
    strict: bool,
    e: StorageError,
) -> bool {
    &&& copy_failed(u, v, strict, e)
    &&& asked_for(u, manifests, blobs, tags)
    &&& tags_right(u, v, tags)
}

/// How many blobs the calls wrote.
pub open spec fn writes(v: Seq<Call>) -> nat
    decreases v.len(),
{
    if v.len() == 0 {
        0
    } else {
        writes(v.drop_last()) + match v.last() {
            Call::BlobWrite { reply: Ok(_), .. } => 1nat,
            _ => 0,
        }
    }
}

/// How many bytes of blobs the calls wrote.
pub open spec fn written(v: Seq<Call>) -> nat
    decreases v.len(),
{
    if v.len() == 0 {
        0
    } else {
        written(v.drop_last()) + match v.last() {
            Call::BlobWrite { content, reply: Ok(_), .. } => content.len(),
            _ => 0,
        }
    }
}

/// How many manifests the calls put under their digest.
pub open spec fn puts(v: Seq<Call>) -> nat
    decreases v.len(),
{
    if v.len() == 0 {
        0
    } else {
        puts(v.drop_last()) + match v.last() {
            Call::ManifestPut { reference: ReferenceView::Digest(_), reply: Ok(_), .. } => 1nat,
            _ => 0,
        }
    }
}

/// What a copy wrote.
#[derive(Debug, Clone, Copy)]
pub struct Copied {
    pub blobs: usize,
    pub bytes: u64,
    pub manifests: usize,
}

impl Copied {
    /// Nothing was written.
    pub fn none() -> (r: Copied)
        ensures
            r.counts(Seq::empty()),
    {
        Copied { blobs: 0, bytes: 0, manifests: 0 }
    }

    /// The numbers are those of the calls at the target.
    pub open spec fn counts(&self, v: Seq<Call>) -> bool {
        &&& self.blobs == storage::sat_count(writes(v))
        &&& self.bytes == storage::sat(written(v))
        &&& self.manifests == storage::sat_count(puts(v))
    }
}

proof fn lemma_count_push(v: Seq<Call>, c: Call)
    ensures
        writes(v.push(c)) == writes(v) + match c {
            Call::BlobWrite { reply: Ok(_), .. } => 1nat,
            _ => 0,
        },
        written(v.push(c)) == written(v) + match c {
            Call::BlobWrite { content, reply: Ok(_), .. } => content.len(),
            _ => 0,
        },
        puts(v.push(c)) == puts(v) + match c {
            Call::ManifestPut { reference: ReferenceView::Digest(_), reply: Ok(_), .. } => 1nat,
            _ => 0,
        },
{
    assert(v.push(c).drop_last() =~= v);
}

/// The numbers of two runs of calls add up.
pub proof fn lemma_count_concat(v: Seq<Call>, w: Seq<Call>)
    ensures
        writes(v + w) == writes(v) + writes(w),
        written(v + w) == written(v) + written(w),
        puts(v + w) == puts(v) + puts(w),
    decreases w.len(),
{
    if w.len() == 0 {
        assert(v + w =~= v);
    } else {
        lemma_count_concat(v, w.drop_last());
        assert((v + w).drop_last() =~= v + w.drop_last());
        assert((v + w).last() == w.last());
    }
}

/// Every call of `u` is a call of `u2`.
pub open spec fn within(u: Seq<Call>, u2: Seq<Call>) -> bool {
    forall|c: Call| #[trigger] u.contains(c) ==> u2.contains(c)
}

/// More calls keep a write in order.
pub proof fn lemma_in_order_grows(
    u: Seq<Call>,
    u2: Seq<Call>,
    v: Seq<Call>,
    c: Call,
    strict: bool,
)
    requires
        in_order(u, v, c, strict),
        within(u, u2),
    ensures
        in_order(u2, v, c, strict),
{
    lemma_gave_grows(u, u2);
    if let Call::ManifestPut { repo, reference, content, .. } = c {
        if let ReferenceView::Tag(_) = reference {
            let d = choose|d: DigestView| gave(u, #[trigger] place(repo, d), content);
            assert(gave(u2, place(repo, d), content));
        }
    }
}

pub proof fn lemma_gave_grows(u: Seq<Call>, u2: Seq<Call>)
    requires
        within(u, u2),
    ensures
        forall|p: Place, content: Seq<u8>| #[trigger] gave(u, p, content) ==> gave(u2, p, content),
        forall|p: Place| #[trigger] gone(u, p) ==> gone(u2, p),
        forall|p: Place| #[trigger] held(u, p) ==> held(u2, p),
        forall|p: Place, strict: bool| #[trigger] lacked(u, p, strict) ==> lacked(u2, p, strict),
        forall|repo: Seq<char>, reference: ReferenceView, content: Seq<u8>| #[trigger]
            took(u, repo, reference, content) ==> took(u2, repo, reference, content),
        forall|p: Place, content: Seq<u8>| #[trigger] took_blob(u, p, content) ==> took_blob(
            u2,
            p,
            content,
        ),
{
    assert forall|p: Place, content: Seq<u8>| #[trigger] gave(u, p, content) implies gave(
        u2,
        p,
        content,
    ) by {
        let refs = choose|refs: Option<Manifest>| #[trigger]
            u.contains(
                Call::ManifestGet {
                    repo: p.0,
                    reference: ReferenceView::Digest(p.1),
                    reply: Ok((content, refs)),
                },
            );
        assert(u2.contains(
            Call::ManifestGet {
                repo: p.0,
                reference: ReferenceView::Digest(p.1),
                reply: Ok((content, refs)),
            },
        ));
    }
    assert forall|p: Place| #[trigger] held(u, p) implies held(u2, p) by {
        let x = choose|x: (Seq<u8>, Option<Manifest>)| #[trigger]
            u.contains(
                Call::ManifestGet {
                    repo: p.0,
                    reference: ReferenceView::Digest(p.1),
                    reply: Ok(x),
                },
            );
        assert(u2.contains(
            Call::ManifestGet { repo: p.0, reference: ReferenceView::Digest(p.1), reply: Ok(x) },
        ));
    }
    assert forall|p: Place, strict: bool| #[trigger] lacked(u, p, strict) implies lacked(
        u2,
        p,
        strict,
    ) by {
        let e = choose|e: StorageError| #[trigger]
            u.contains(
                Call::ManifestGet {
                    repo: p.0,
                    reference: ReferenceView::Digest(p.1),
                    reply: Err(e),
                },
            ) && (strict ==> e == StorageError::NotFound);
        assert(u2.contains(
            Call::ManifestGet { repo: p.0, reference: ReferenceView::Digest(p.1), reply: Err(e) },
        ));
    }
    assert forall|repo: Seq<char>, reference: ReferenceView, content: Seq<u8>| #[trigger]
        took(u, repo, reference, content) implies took(u2, repo, reference, content) by {
        let d = choose|d: DigestView| #[trigger]
            u.contains(Call::ManifestPut { repo, reference, content, reply: Ok(d) });
        assert(u2.contains(Call::ManifestPut { repo, reference, content, reply: Ok(d) }));
    }
    assert forall|p: Place, content: Seq<u8>| #[trigger] took_blob(u, p, content) implies took_blob(
        u2,
        p,
        content,
    ) by {
        let x = choose|x: ()| #[trigger]
            u.contains(Call::BlobWrite { repo: p.0, digest: p.1, content, reply: Ok(x) });
        assert(u2.contains(Call::BlobWrite { repo: p.0, digest: p.1, content, reply: Ok(x) }));
    }
}

/// What is settled stays settled.
pub proof fn lemma_done_grows(u: Seq<Call>, v: Seq<Call>, u2: Seq<Call>, v2: Seq<Call>)
    requires
        within(u, u2),
        within(v, v2),
    ensures
        forall|p: Place| #[trigger] blob_done(u, v, p) ==> blob_done(u2, v2, p),
        forall|p: Place, strict: bool| #[trigger]
            manifest_done(u, v, p, strict) ==> manifest_done(u2, v2, p, strict),
        forall|t: TagPointerView| #[trigger] tag_done(u, v, t) ==> tag_done(u2, v2, t),
{
    lemma_gave_grows(u, u2);
    lemma_gave_grows(v, v2);
    assert forall|p: Place| #[trigger] blob_done(u, v, p) implies blob_done(u2, v2, p) by {
        if exists|content: Seq<u8>| #[trigger]
            u.contains(Call::BlobRead { repo: p.0, digest: p.1, reply: Ok(content) })
                && took_blob(v, p, content) {
            let content = choose|content: Seq<u8>| #[trigger]
                u.contains(Call::BlobRead { repo: p.0, digest: p.1, reply: Ok(content) })
                    && took_blob(v, p, content);
            assert(u2.contains(Call::BlobRead { repo: p.0, digest: p.1, reply: Ok(content) }));
        }
    }
    assert forall|p: Place, strict: bool| #[trigger]
        manifest_done(u, v, p, strict) implies manifest_done(u2, v2, p, strict) by {
        if !held(v, p) && !gone(u, p) {
            let content = choose|content: Seq<u8>| #[trigger]
                gave(u, p, content) && took(v, p.0, ReferenceView::Digest(p.1), content);
            assert(gave(u2, p, content));
        }
    }
    assert forall|t: TagPointerView| #[trigger] tag_done(u, v, t) implies tag_done(u2, v2, t) by {
        let p = (t.repo, t.digest);
        if !gone(u, p) {
            let content = choose|content: Seq<u8>| #[trigger]
                gave(u, p, content) && took(v, t.repo, ReferenceView::Tag(t.tag), content);
            assert(gave(u2, p, content));
        }
    }
}

/// More reads at the source keep the target honest.
pub proof fn lemma_honest_grows(u: Seq<Call>, u2: Seq<Call>, v: Seq<Call>, strict: bool)
    requires
        honest(u, v, strict),
        within(u, u2),
    ensures
        honest(u2, v, strict),
{
    assert forall|i: int| 0 <= i < v.len() implies in_order(
        u2,
        v.take(i),
        #[trigger] v[i],
        strict,
    ) by {
        lemma_in_order_grows(u, u2, v.take(i), v[i], strict);
    }
}

/// One more read at the source.
proof fn lemma_source_step(u: Seq<Call>, v: Seq<Call>, c: Call, strict: bool)
    requires
        copying(u, v, strict),
        c is BlobRead || c is ManifestGet,
    ensures
        source_fatal(c) is None ==> copying(u.push(c), v, strict),
        source_fatal(c) matches Some(e) ==> copy_failed(u.push(c), v, strict, e),
{
    let t = u.push(c);
    storage::lemma_contains_push(u, c);
    lemma_honest_grows(u, t, v, strict);
    assert forall|i: int| 0 <= i < u.len() implies #[trigger] t[i] == u[i] by {
    }
    assert(t.drop_last() =~= u);
    assert(reads_only(t)) by {
        assert forall|i: int| 0 <= i < t.len() implies #[trigger] t[i] is BlobRead
            || t[i] is ManifestGet by {
            if i < u.len() {
                assert(t[i] == u[i]);
            }
        }
    }
    if source_fatal(c) is None {
        assert forall|i: int| 0 <= i < t.len() implies source_fatal(#[trigger] t[i]) is None by {
            if i < u.len() {
                assert(t[i] == u[i]);
            }
        }
    }
}

/// One more call at the target.
proof fn lemma_target_step(u: Seq<Call>, v: Seq<Call>, c: Call, strict: bool)
    requires
        copying(u, v, strict),
        in_order(u, v, c, strict),
        parts_upto(v, part_of(c)),
    ensures
        parts_upto(v.push(c), part_of(c)),
        target_fatal(c, strict) is None ==> copying(u, v.push(c), strict),
        target_fatal(c, strict) matches Some(e) ==> copy_failed(u, v.push(c), strict, e),
{
    let t = v.push(c);
    assert(t.drop_last() =~= v);
    assert forall|i: int| 0 <= i < t.len() implies part_of(#[trigger] t[i]) <= part_of(c) by {
        if i < v.len() {
            assert(t[i] == v[i]);
        }
    }
    assert forall|i: int, j: int| 0 <= i < j < t.len() implies part_of(#[trigger] t[i]) <= part_of(
        #[trigger] t[j],
    ) by {
        assert(t[i] == v[i]);
        if j < v.len() {
            assert(t[j] == v[j]);
        }
    }
    assert forall|i: int| 0 <= i < t.len() implies in_order(
        u,
        t.take(i),
        #[trigger] t[i],
        strict,
    ) by {
        if i < v.len() {
            assert(t[i] == v[i]);
            assert(t.take(i) =~= v.take(i));
        } else {
            assert(t.take(i) =~= v);
        }
    }
    if target_fatal(c, strict) is None {
        assert forall|i: int| 0 <= i < t.len() implies target_fatal(#[trigger] t[i], strict) is None by {
            if i < v.len() {
                assert(t[i] == v[i]);
            }
        }
    }
}

/// The calls of a copy so far, none of a part after `part`.
spec fn so_far<S: Storage>(
    su: Seq<Call>,
    sv: Seq<Call>,
    src: S,
    dst: S,
    strict: bool,
    done: Copied,
    part: int,
) -> bool {
    &&& parts_upto(storage::added(sv, dst.log()), part)
    &&& src.wf()
    &&& dst.wf()
    &&& storage::extends(su, src.log())
    &&& storage::extends(sv, dst.log())
    &&& copying(storage::added(su, src.log()), storage::added(sv, dst.log()), strict)
    &&& done.counts(storage::added(sv, dst.log()))
}

/// What holds when a copy has failed.
spec fn broke_off<S: Storage>(
    su: Seq<Call>,
    sv: Seq<Call>,
    src: S,
    dst: S,
    strict: bool,
    done: Copied,
    e: StorageError,
) -> bool {
    &&& src.wf()
    &&& dst.wf()
    &&& storage::extends(su, src.log())
    &&& storage::extends(sv, dst.log())
    &&& done.counts(storage::added(sv, dst.log()))
    &&& copy_failed(storage::added(su, src.log()), storage::added(sv, dst.log()), strict, e)
}

/// The calls have grown.
spec fn grown<S: Storage>(a: S, b: S) -> bool {
    storage::extends(a.log(), b.log())
}

pub proof fn lemma_grown(start: Seq<Call>, a: Seq<Call>, b: Seq<Call>)
    requires
        storage::extends(start, a),
        storage::extends(a, b),
    ensures
        storage::extends(storage::added(start, a), storage::added(start, b)),
        within(storage::added(start, a), storage::added(start, b)),
        within(storage::added(a, b), storage::added(start, b)),
{
    storage::lemma_added_twice(start, a, b);
    let x = storage::added(start, a);
    let y = storage::added(start, b);
    let z = storage::added(a, b);
    assert(y.subrange(0, x.len() as int) =~= x);
    lemma_extends_contains(x, y);
    assert forall|c: Call| #[trigger] z.contains(c) implies y.contains(c) by {
        let i = choose|i: int| 0 <= i < z.len() && z[i] == c;
        assert(y[x.len() + i] == c);
    }
}

/// Copies one blob that the target lacks.
fn copy_blob<S: Storage>(
    src: &mut S,
    dst: &mut S,
    repo: &str,
    d: &Digest,
    strict: bool,
    done: &mut Copied,
    Ghost(su): Ghost<Seq<Call>>,
    Ghost(sv): Ghost<Seq<Call>>,
) -> (r: Result<(), StorageError>)
    requires
        so_far(su, sv, *old(src), *old(dst), strict, *old(done), 0),
    ensures
        grown(*old(src), *final(src)),
        grown(*old(dst), *final(dst)),
        forall|i: int|
            0 <= i < storage::added(old(src).log(), final(src).log()).len() ==> asks_blob(
                #[trigger] storage::added(old(src).log(), final(src).log())[i],
                (repo@, d@),
            ),
        forall|i: int|
            0 <= i < storage::added(old(dst).log(), final(dst).log()).len() ==> !writes_tag(
                #[trigger] storage::added(old(dst).log(), final(dst).log())[i],
            ),
        match r {
            Ok(_) => {
                &&& so_far(su, sv, *final(src), *final(dst), strict, *final(done), 0)
                &&& blob_done(
                    storage::added(su, final(src).log()),
                    storage::added(sv, final(dst).log()),
                    (repo@, d@),
                )
            },
            Err(e) => broke_off(su, sv, *final(src), *final(dst), strict, *final(done), e),
        },
{
    let ghost s0 = src.log();
    let ghost d0 = dst.log();
    let ghost u0 = storage::added(su, s0);
    let ghost v0 = storage::added(sv, d0);
    proof {
        storage::lemma_added_none(s0);
        storage::lemma_added_none(d0);
    }
    let there = dst.blob_exists(repo, d);
    let ghost c1 = dst.log().last();
    let ghost d1 = dst.log();
    let ghost v1 = v0.push(c1);
    proof {
        assert(d1 == d0.push(c1));
        storage::lemma_added_push(sv, d0, c1);
        storage::lemma_added_push(d0, d0, c1);
        storage::lemma_contains_push(v0, c1);
        lemma_target_step(u0, v0, c1, strict);
        lemma_count_push(v0, c1);
    }
    match there {
        Ok(true) => return Ok(()),
        Ok(false) => {},
        Err(e) => return Err(e),
    }
    let got = src.blob_read(repo, d);
    let ghost c2 = src.log().last();
    let ghost u1 = u0.push(c2);
    proof {
        assert(src.log() == s0.push(c2));
        storage::lemma_added_push(su, s0, c2);
        storage::lemma_added_push(s0, s0, c2);
        storage::lemma_contains_push(u0, c2);
        lemma_source_step(u0, v1, c2, strict);
    }
    let bytes = match got {
        Ok(b) => b,
        Err(StorageError::NotFound) => return Ok(()),
        Err(e) => return Err(e),
    };
    let size: u64 = bytes.len() as u64;
    let put = dst.blob_write(repo, d, bytes.as_slice());
    let ghost c3 = dst.log().last();
    proof {
        assert(dst.log() == d1.push(c3));
        storage::lemma_added_push(sv, d1, c3);
        storage::lemma_added_push(d0, d1, c3);
        storage::lemma_contains_push(v1, c3);
        lemma_target_step(u1, v1, c3, strict);
        lemma_count_push(v1, c3);
    }
    match put {
        Ok(()) => {},
        Err(e) => return Err(e),
    }
    done.blobs = done.blobs.saturating_add(1);
    done.bytes = done.bytes.saturating_add(size);
    proof {
        assert(v1.contains(Call::BlobExists { repo: repo@, digest: d@, reply: Ok(false) }));
        assert(v1.push(c3).contains(
            Call::BlobWrite { repo: repo@, digest: d@, content: bytes@, reply: Ok(put->Ok_0) },
        ));
        assert(took_blob(v1.push(c3), (repo@, d@), bytes@));
        assert(u1.contains(Call::BlobRead { repo: repo@, digest: d@, reply: Ok(bytes@) }));
    }
    Ok(())
}

/// Copies one manifest that the target lacks.
fn copy_manifest<S: Storage>(
    src: &mut S,
    dst: &mut S,
    repo: &str,
    d: &Digest,
    strict: bool,
    done: &mut Copied,
    Ghost(su): Ghost<Seq<Call>>,
    Ghost(sv): Ghost<Seq<Call>>,
) -> (r: Result<(), StorageError>)
    requires
        so_far(su, sv, *old(src), *old(dst), strict, *old(done), 1),
    ensures
        grown(*old(src), *final(src)),
        grown(*old(dst), *final(dst)),
        forall|i: int|
            0 <= i < storage::added(old(src).log(), final(src).log()).len()
                ==> asks_manifest(
                #[trigger] storage::added(old(src).log(), final(src).log())[i],
                (repo@, d@),
            ),
        forall|i: int|
            0 <= i < storage::added(old(dst).log(), final(dst).log()).len() ==> !writes_tag(
                #[trigger] storage::added(old(dst).log(), final(dst).log())[i],
            ),
        match r {
            Ok(_) => {
                &&& so_far(su, sv, *final(src), *final(dst), strict, *final(done), 1)
                &&& manifest_done(
                    storage::added(su, final(src).log()),
                    storage::added(sv, final(dst).log()),
                    (repo@, d@),
                    strict,
                )
            },
            Err(e) => broke_off(su, sv, *final(src), *final(dst), strict, *final(done), e),
        },
{
    let ghost s0 = src.log();
    let ghost d0 = dst.log();
    let ghost u0 = storage::added(su, s0);
    let ghost v0 = storage::added(sv, d0);
    let ghost p = (repo@, d@);
    proof {
        storage::lemma_added_none(s0);
        storage::lemma_added_none(d0);
    }
    let reference = Reference::Digest(d.dup());
    let there = dst.manifest_get(repo, &reference);
    let ghost c1 = dst.log().last();
    let ghost d1 = dst.log();
    let ghost v1 = v0.push(c1);
    proof {
        assert(d1 == d0.push(c1));
        storage::lemma_added_push(sv, d0, c1);
        storage::lemma_added_push(d0, d0, c1);
        storage::lemma_contains_push(v0, c1);
        lemma_target_step(u0, v0, c1, strict);
        lemma_count_push(v0, c1);
    }
    match there {
        Ok(m) => {
            proof {
                let x = (m.content@, m.refs);
                assert(v1.contains(
                    Call::ManifestGet {
                        repo: p.0,
                        reference: ReferenceView::Digest(p.1),
                        reply: Ok(x),
                    },
                ));
            }
            return Ok(());
        },
        Err(StorageError::NotFound) => {
            assert(v1.contains(
                Call::ManifestGet {
                    repo: p.0,
                    reference: ReferenceView::Digest(p.1),
                    reply: Err(StorageError::NotFound),
                },
            ));
            assert(lacked(v1, p, strict));
        },
        Err(e) => {
            if strict {
                return Err(e);
            }
            assert(v1.contains(
                Call::ManifestGet {
                    repo: p.0,
                    reference: ReferenceView::Digest(p.1),
                    reply: Err(e),
                },
            ));
            assert(lacked(v1, p, strict));
        },
    }
    let got = src.manifest_get(repo, &reference);
    let ghost c2 = src.log().last();
    let ghost u1 = u0.push(c2);
    proof {
        assert(src.log() == s0.push(c2));
        storage::lemma_added_push(su, s0, c2);
        storage::lemma_added_push(s0, s0, c2);
        storage::lemma_contains_push(u0, c2);
        lemma_source_step(u0, v1, c2, strict);
    }
    let m = match got {
        Ok(m) => m,
        Err(StorageError::NotFound) => return Ok(()),
        Err(e) => return Err(e),
    };
    let ghost content = m.content@;
    proof {
        assert(u1.contains(
            Call::ManifestGet {
                repo: p.0,
                reference: ReferenceView::Digest(p.1),
                reply: Ok((content, m.refs)),
            },
        ));
        assert(gave(u1, p, content));
    }
    let put = dst.manifest_put(repo, &reference, m.content.as_slice());
    let ghost c3 = dst.log().last();
    proof {
        assert(dst.log() == d1.push(c3));
        storage::lemma_added_push(sv, d1, c3);
        storage::lemma_added_push(d0, d1, c3);
        storage::lemma_contains_push(v1, c3);
        lemma_target_step(u1, v1, c3, strict);
        lemma_count_push(v1, c3);
        lemma_gave_grows(v1, v1.push(c3));
    }
    let stored = match put {
        Ok(x) => x,
        Err(e) => return Err(e),
    };
    done.manifests = done.manifests.saturating_add(1);
    proof {
        assert(v1.push(c3).contains(
            Call::ManifestPut {
                repo: p.0,
                reference: ReferenceView::Digest(p.1),
                content,
                reply: Ok(stored@),
            },
        ));
        assert(took(v1.push(c3), p.0, ReferenceView::Digest(p.1), content));
    }
    Ok(())
}

/// Writes one tag, whatever the target has there.
fn copy_tag<S: Storage>(
    src: &mut S,
    dst: &mut S,
    t: &TagPointer,
    strict: bool,
    done: &Copied,
    Ghost(su): Ghost<Seq<Call>>,
    Ghost(sv): Ghost<Seq<Call>>,
) -> (r: Result<(), StorageError>)
    requires
        so_far(su, sv, *old(src), *old(dst), strict, *done, 2),
    ensures
        grown(*old(src), *final(src)),
        grown(*old(dst), *final(dst)),
        forall|i: int|
            0 <= i < storage::added(old(src).log(), final(src).log()).len()
                ==> asks_manifest(
                #[trigger] storage::added(old(src).log(), final(src).log())[i],
                (t@.repo, t@.digest),
            ),
        forall|i: int|
            0 <= i < storage::added(old(dst).log(), final(dst).log()).len() ==> points(
                storage::added(su, final(src).log()),
                #[trigger] storage::added(old(dst).log(), final(dst).log())[i],
                t@,
            ),
        match r {
            Ok(_) => {
                &&& so_far(su, sv, *final(src), *final(dst), strict, *done, 2)
                &&& tag_done(
                    storage::added(su, final(src).log()),
                    storage::added(sv, final(dst).log()),
                    t@,
                )
            },
            Err(e) => broke_off(su, sv, *final(src), *final(dst), strict, *done, e),
        },
{
    let ghost s0 = src.log();
    let ghost d0 = dst.log();
    let ghost u0 = storage::added(su, s0);
    let ghost v0 = storage::added(sv, d0);
    let ghost p = (t.repo@, t.digest@);
    proof {
        storage::lemma_added_none(s0);
        storage::lemma_added_none(d0);
    }
    let reference = Reference::Digest(t.digest.dup());
    let got = src.manifest_get(t.repo.as_str(), &reference);
    let ghost c2 = src.log().last();
    let ghost u1 = u0.push(c2);
    proof {
        assert(src.log() == s0.push(c2));
        storage::lemma_added_push(su, s0, c2);
        storage::lemma_added_push(s0, s0, c2);
        storage::lemma_contains_push(u0, c2);
        lemma_source_step(u0, v0, c2, strict);
    }
    let m = match got {
        Ok(m) => m,
        Err(StorageError::NotFound) => return Ok(()),
        Err(e) => return Err(e),
    };
    let ghost content = m.content@;
    proof {
        assert(u1.contains(
            Call::ManifestGet {
                repo: p.0,
                reference: ReferenceView::Digest(p.1),
                reply: Ok((content, m.refs)),
            },
        ));
        assert(gave(u1, p, content));
    }
    let name = Reference::Tag(t.tag.clone());
    let put = dst.manifest_put(t.repo.as_str(), &name, m.content.as_slice());
    let ghost c3 = dst.log().last();
    proof {
        assert(dst.log() == d0.push(c3));
        storage::lemma_added_push(sv, d0, c3);
        storage::lemma_added_push(d0, d0, c3);
        storage::lemma_contains_push(v0, c3);
        assert(c3 == (Call::ManifestPut {
            repo: t.repo@,
            reference: ReferenceView::Tag(t.tag@),
            content,
            reply: storage::digest_reply(put),
        }));
        assert(gave(u1, place(t.repo@, t.digest@), content));
        assert(gave_some(u1, t.repo@, content));
        assert(in_order(u1, v0, c3, strict));
        lemma_target_step(u1, v0, c3, strict);
        lemma_count_push(v0, c3);
    }
    let stored = match put {
        Ok(x) => x,
        Err(e) => return Err(e),
    };
    proof {
        assert(v0.push(c3).contains(
            Call::ManifestPut {
                repo: p.0,
                reference: ReferenceView::Tag(t.tag@),
                content,
                reply: Ok(stored@),
            },
        ));
        assert(took(v0.push(c3), p.0, ReferenceView::Tag(t.tag@), content));
    }
    Ok(())
}

/// Everything wanted is settled between a source and a target.
pub open spec fn all_done(
    u: Seq<Call>,
    v: Seq<Call>,
    manifests: Set<Place>,
    blobs: Set<Place>,
    tags: Seq<TagPointerView>,
    strict: bool,
) -> bool {
    &&& forall|p: Place| #[trigger] blobs.contains(p) ==> blob_done(u, v, p)
    &&& forall|p: Place| #[trigger] manifests.contains(p) ==> manifest_done(u, v, p, strict)
    &&& forall|i: int| 0 <= i < tags.len() ==> tag_done(u, v, #[trigger] tags[i])
}

/// What holds when the first `t` tags were written.
spec fn tags_upto(
    u: Seq<Call>,
    v: Seq<Call>,
    manifests: Set<Place>,
    blobs: Set<Place>,
    tags: Seq<TagPointerView>,
    t: int,
    strict: bool,
) -> bool {
    &&& tags_right(u, v, tags)
    &&& asked_for(u, manifests, blobs, tags)
    &&& forall|p: Place| #[trigger] blobs.contains(p) ==> blob_done(u, v, p)
    &&& forall|p: Place| #[trigger] manifests.contains(p) ==> manifest_done(u, v, p, strict)
    &&& forall|j: int| 0 <= j < t ==> tag_done(u, v, #[trigger] tags[j])
}

/// The calls for one more tag ask for it and write it.
proof fn lemma_tag_calls(
    su: Seq<Call>,
    s0: Seq<Call>,
    s1: Seq<Call>,
    sv: Seq<Call>,
    d0: Seq<Call>,
    d1: Seq<Call>,
    manifests: Set<Place>,
    blobs: Set<Place>,
    tags: Seq<TagPointerView>,
    t: int,
)
    requires
        storage::extends(su, s0),
        storage::extends(s0, s1),
        storage::extends(sv, d0),
        storage::extends(d0, d1),
        0 <= t < tags.len(),
        tags_right(storage::added(su, s0), storage::added(sv, d0), tags),
        asked_for(storage::added(su, s0), manifests, blobs, tags),
        forall|i: int|
            0 <= i < storage::added(s0, s1).len() ==> asks_manifest(
                #[trigger] storage::added(s0, s1)[i],
                (tags[t].repo, tags[t].digest),
            ),
        forall|i: int|
            0 <= i < storage::added(d0, d1).len() ==> points(
                storage::added(su, s1),
                #[trigger] storage::added(d0, d1)[i],
                tags[t],
            ),
    ensures
        tags_right(storage::added(su, s1), storage::added(sv, d1), tags),
        asked_for(storage::added(su, s1), manifests, blobs, tags),
{
    lemma_grown(su, s0, s1);
    lemma_grown(sv, d0, d1);
    storage::lemma_added_twice(su, s0, s1);
    storage::lemma_added_twice(sv, d0, d1);
    let u = storage::added(s0, s1);
    let v = storage::added(d0, d1);
    assert(asked_for(u, manifests, blobs, tags)) by {
        assert(place(tags[t].repo, tags[t].digest) == (tags[t].repo, tags[t].digest));
    }
    lemma_asked_concat(storage::added(su, s0), u, manifests, blobs, tags);
    assert(tags_right(storage::added(su, s1), v, tags)) by {
        assert forall|i: int| 0 <= i < v.len() && writes_tag(#[trigger] v[i]) implies exists|j: int|
            0 <= j < tags.len() && points(storage::added(su, s1), v[i], #[trigger] tags[j]) by {
            assert(points(storage::added(su, s1), v[i], tags[t]));
        }
    }
    lemma_tags_right_more(
        storage::added(su, s0),
        storage::added(sv, d0),
        storage::added(su, s1),
        v,
        tags,
    );
}

/// Brings what was found from the source to the target: blobs first, then
/// manifests, then tags.
///
/// `done` counts what was written, also where the copy breaks off.
///
/// When `strict`, a target that cannot say whether it has a manifest ends the copy;
/// otherwise the manifest is written again.
pub fn copy_all<S: Storage>(
    src: &mut S,
    dst: &mut S,
    found: &Found,
    tags: &Vec<TagPointer>,
    strict: bool,
    done: &mut Copied,
) -> (r: Result<(), StorageError>)
    requires
        old(src).wf(),
        old(dst).wf(),
        found.wf(),
        old(done).counts(Seq::empty()),
    ensures
        final(src).wf(),
        final(dst).wf(),
        storage::extends(old(src).log(), final(src).log()),
        storage::extends(old(dst).log(), final(dst).log()),
        ({
            let u = storage::added(old(src).log(), final(src).log());
            let v = storage::added(old(dst).log(), final(dst).log());
            final(done).counts(v) && match r {
                Ok(_) => copying(u, v, strict) && all_done(
                    u,
                    v,
                    found.manifests@,
                    found.blobs@,
                    order::views_of(tags@),
                    strict,
                ) && asked_for(u, found.manifests@, found.blobs@, order::views_of(tags@)) && tags_right(
                    u,
                    v,
                    order::views_of(tags@),
                ),
                Err(e) => copy_broken(
                    u,
                    v,
                    found.manifests@,
                    found.blobs@,
                    order::views_of(tags@),
                    strict,
                    e,
                ),
            }
        }),
{
    let ghost su = src.log();
    let ghost sv = dst.log();
    proof {
        storage::lemma_added_none(su);
        storage::lemma_added_none(sv);
    }
    let mut i: usize = 0;
    while i < found.blobs.items.len()
        invariant
            i <= found.blobs.items@.len(),
            su == old(src).log(),
            sv == old(dst).log(),
            so_far(su, sv, *src, *dst, strict, *done, 0),
            tags_right(
                storage::added(su, src.log()),
                storage::added(sv, dst.log()),
                order::views_of(tags@),
            ),
            asked_for(
                storage::added(su, src.log()),
                found.manifests@,
                found.blobs@,
                order::views_of(tags@),
            ),
            forall|j: int|
                0 <= j < i ==> blob_done(
                    storage::added(su, src.log()),
                    storage::added(sv, dst.log()),
                    #[trigger] found.blobs.items@[j]@,
                ),
        decreases found.blobs.items@.len() - i,
    {
        let ghost s0 = src.log();
        let ghost d0 = dst.log();
        let r = copy_blob(
            src,
            dst,
            found.blobs.items[i].0.as_str(),
            &found.blobs.items[i].1,
            strict,
            done,
            Ghost(su),
            Ghost(sv),
        );
        proof {
            lemma_grown(su, s0, src.log());
            storage::lemma_added_twice(su, s0, src.log());
            assert(asked_for(
                storage::added(s0, src.log()),
                found.manifests@,
                found.blobs@,
                order::views_of(tags@),
            )) by {
                found.blobs.lemma_member(found.blobs.items@[i as int]@);
                assert(found.blobs@.contains(found.blobs.items@[i as int]@));
            }
            lemma_asked_concat(
                storage::added(su, s0),
                storage::added(s0, src.log()),
                found.manifests@,
                found.blobs@,
                order::views_of(tags@),
            );
            lemma_grown(sv, d0, dst.log());
            storage::lemma_added_twice(sv, d0, dst.log());
            lemma_tags_right_more(
                storage::added(su, s0),
                storage::added(sv, d0),
                storage::added(su, src.log()),
                storage::added(d0, dst.log()),
                order::views_of(tags@),
            );
            lemma_done_grows(
                storage::added(su, s0),
                storage::added(sv, d0),
                storage::added(su, src.log()),
                storage::added(sv, dst.log()),
            );
        }
        match r {
            Ok(()) => {},
            Err(e) => return Err(e),
        }
        i = i + 1;
    }
    proof {
        assert forall|p: Place| #[trigger] found.blobs@.contains(p) implies blob_done(
            storage::added(su, src.log()),
            storage::added(sv, dst.log()),
            p,
        ) by {
            found.blobs.lemma_member(p);
            let j = choose|j: int|
                0 <= j < found.blobs.items@.len() && #[trigger] found.blobs.items@[j]@ == p;
        }
    }
    let mut k: usize = 0;
    while k < found.manifests.items.len()
        invariant
            k <= found.manifests.items@.len(),
            su == old(src).log(),
            sv == old(dst).log(),
            so_far(su, sv, *src, *dst, strict, *done, 1),
            tags_right(
                storage::added(su, src.log()),
                storage::added(sv, dst.log()),
                order::views_of(tags@),
            ),
            asked_for(
                storage::added(su, src.log()),
                found.manifests@,
                found.blobs@,
                order::views_of(tags@),
            ),
            forall|p: Place| #[trigger] found.blobs@.contains(p) ==> blob_done(
                storage::added(su, src.log()),
                storage::added(sv, dst.log()),
                p,
            ),
            forall|j: int|
                0 <= j < k ==> manifest_done(
                    storage::added(su, src.log()),
                    storage::added(sv, dst.log()),
                    #[trigger] found.manifests.items@[j]@,
                    strict,
                ),
        decreases found.manifests.items@.len() - k,
    {
        let ghost s0 = src.log();
        let ghost d0 = dst.log();
        let r = copy_manifest(
            src,
            dst,
            found.manifests.items[k].0.as_str(),
            &found.manifests.items[k].1,
            strict,
            done,
            Ghost(su),
            Ghost(sv),
        );
        proof {
            lemma_grown(su, s0, src.log());
            storage::lemma_added_twice(su, s0, src.log());
            assert(asked_for(
                storage::added(s0, src.log()),
                found.manifests@,
                found.blobs@,
                order::views_of(tags@),
            )) by {
                found.manifests.lemma_member(found.manifests.items@[k as int]@);
                assert(found.manifests@.contains(found.manifests.items@[k as int]@));
            }
            lemma_asked_concat(
                storage::added(su, s0),
                storage::added(s0, src.log()),
                found.manifests@,
                found.blobs@,
                order::views_of(tags@),
            );
            lemma_grown(sv, d0, dst.log());
            storage::lemma_added_twice(sv, d0, dst.log());
            lemma_tags_right_more(
                storage::added(su, s0),
                storage::added(sv, d0),
                storage::added(su, src.log()),
                storage::added(d0, dst.log()),
                order::views_of(tags@),
            );
            lemma_done_grows(
                storage::added(su, s0),
                storage::added(sv, d0),
                storage::added(su, src.log()),
                storage::added(sv, dst.log()),
            );
        }
        match r {
            Ok(()) => {},
            Err(e) => return Err(e),
        }
        k = k + 1;
    }
    proof {
        assert forall|p: Place| #[trigger] found.manifests@.contains(p) implies manifest_done(
            storage::added(su, src.log()),
            storage::added(sv, dst.log()),
            p,
            strict,
        ) by {
            found.manifests.lemma_member(p);
            let j = choose|j: int|
                0 <= j < found.manifests.items@.len() && #[trigger] found.manifests.items@[j]@ == p;
        }
    }
    let ghost list = order::views_of(tags@);
    let mut t: usize = 0;
    while t < tags.len()
        invariant
            t <= tags@.len(),
            list == order::views_of(tags@),
            su == old(src).log(),
            sv == old(dst).log(),
            so_far(su, sv, *src, *dst, strict, *done, 2),
            tags_upto(
                storage::added(su, src.log()),
                storage::added(sv, dst.log()),
                found.manifests@,
                found.blobs@,
                list,
                t as int,
                strict,
            ),
        decreases tags@.len() - t,
    {
        let ghost s0 = src.log();
        let ghost d0 = dst.log();
        let r = copy_tag(src, dst, &tags[t], strict, done, Ghost(su), Ghost(sv));
        proof {
            assert(list[t as int] == tags@[t as int]@);
            lemma_tag_calls(
                su,
                s0,
                src.log(),
                sv,
                d0,
                dst.log(),
                found.manifests@,
                found.blobs@,
                list,
                t as int,
            );
            lemma_grown(su, s0, src.log());
            lemma_grown(sv, d0, dst.log());
            lemma_done_grows(
                storage::added(su, s0),
                storage::added(sv, d0),
                storage::added(su, src.log()),
                storage::added(sv, dst.log()),
            );
        }
        match r {
            Ok(()) => {},
            Err(e) => return Err(e),
        }
        t = t + 1;
    }
    Ok(())
}

} // verus!
