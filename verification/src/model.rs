//! An ideal store.
//!
//! The functions of this crate make no assumption on what a store answers. Here is
//! what a store that works answers, as a relation between what it holds before and
//! after a call. The laws in `laws` say what the processes of this crate do to such a
//! store.

use vstd::prelude::*;

use crate::digest;
use crate::digest::{Algorithm, DigestView};
use crate::manifest::Manifest;
use crate::storage::{Call, ReferenceView, StorageError};
use crate::walk::Place;

verus! {

/// What a store holds.
pub struct Holdings {
    pub blobs: Map<DigestView, Seq<u8>>,
    /// Manifests by repository and digest.
    pub manifests: Map<Place, Seq<u8>>,
    /// The digest that a tag of a repository points to.
    pub tags: Map<(Seq<char>, Seq<char>), DigestView>,
    pub uploads: Map<u128, Seq<u8>>,
}

/// How the bytes of a manifest are read.
pub type Reading = spec_fn(Seq<u8>) -> Option<Manifest>;

/// The digest of a manifest.
pub open spec fn named(content: Seq<u8>) -> DigestView {
    digest::content_digest(Algorithm::Sha256, content)
}

impl Holdings {
    /// The manifest that a reference leads to.
    pub open spec fn led_to(self, repo: Seq<char>, reference: ReferenceView) -> Option<Place> {
        match reference {
            ReferenceView::Digest(d) => if self.manifests.contains_key((repo, d)) {
                Some((repo, d))
            } else {
                None
            },
            ReferenceView::Tag(t) => if self.tags.contains_key((repo, t))
                && self.manifests.contains_key((repo, self.tags[(repo, t)])) {
                Some((repo, self.tags[(repo, t)]))
            } else {
                None
            },
        }
    }

    /// The repository has a manifest.
    pub open spec fn knows(self, repo: Seq<char>) -> bool {
        exists|d: DigestView| #[trigger] self.manifests.contains_key((repo, d))
    }

    /// Everything is held under its own digest.
    pub open spec fn sound(self) -> bool {
        &&& forall|d: DigestView| #[trigger]
            self.blobs.contains_key(d) ==> digest::content_digest(d.algorithm, self.blobs[d]) == d
        &&& forall|p: Place| #[trigger]
            self.manifests.contains_key(p) ==> named(self.manifests[p]) == p.1
    }
}

/// The answer is that there is no such thing.
pub open spec fn absent<T>(r: Result<T, StorageError>) -> bool {
    r is Err && r->Err_0 == StorageError::NotFound
}

/// The answer is that the content has another digest.
pub open spec fn mismatched(r: Result<(), StorageError>) -> bool {
    r is Err && r->Err_0 is DigestMismatch
}

/// A store that works, holds `a` and is asked `c` answers so and holds `b` then.
pub open spec fn step(read: Reading, a: Holdings, c: Call, b: Holdings) -> bool {
    match c {
        Call::BlobExists { digest, reply, .. } => {
            &&& b == a
            &&& reply == Ok::<bool, StorageError>(a.blobs.contains_key(digest))
        },
        Call::BlobSize { digest, reply, .. } => {
            &&& b == a
            &&& if a.blobs.contains_key(digest) {
                reply is Ok && reply->Ok_0 == a.blobs[digest].len()
            } else {
                absent(reply)
            }
        },
        Call::BlobRead { digest, reply, .. } => {
            &&& b == a
            &&& if a.blobs.contains_key(digest) {
                reply == Ok::<_, StorageError>(a.blobs[digest])
            } else {
                absent(reply)
            }
        },
        Call::BlobWrite { digest, content, reply, .. } => if digest::content_digest(
            digest.algorithm,
            content,
        ) == digest {
            reply is Ok && b == (Holdings { blobs: a.blobs.insert(digest, content), ..a })
        } else {
            mismatched(reply) && b == a
        },
        Call::BlobDelete { digest, reply, .. } => if a.blobs.contains_key(digest) {
            reply is Ok && b == (Holdings { blobs: a.blobs.remove(digest), ..a })
        } else {
            absent(reply) && b == a
        },
        Call::UploadCreate { reply, .. } => {
            &&& reply is Ok
            &&& reply->Ok_0.offset == 0
            &&& !a.uploads.contains_key(reply->Ok_0.id)
            &&& b == (Holdings { uploads: a.uploads.insert(reply->Ok_0.id, Seq::empty()), ..a })
        },
        Call::UploadState { id, reply, .. } => {
            &&& b == a
            &&& if a.uploads.contains_key(id) {
                reply is Ok && reply->Ok_0.id == id && reply->Ok_0.offset == a.uploads[id].len()
            } else {
                absent(reply)
            }
        },
        Call::UploadAppend { id, chunk, reply, .. } => if a.uploads.contains_key(id) {
            let all = a.uploads[id] + chunk;
            &&& reply is Ok
            &&& reply->Ok_0.id == id
            &&& reply->Ok_0.offset == all.len()
            &&& b == (Holdings { uploads: a.uploads.insert(id, all), ..a })
        } else {
            absent(reply) && b == a
        },
        Call::UploadFinalize { id, digest, reply, .. } => if !a.uploads.contains_key(id) {
            absent(reply) && b == a
        } else if digest::content_digest(digest.algorithm, a.uploads[id]) == digest {
            reply is Ok && b == (Holdings {
                blobs: a.blobs.insert(digest, a.uploads[id]),
                uploads: a.uploads.remove(id),
                ..a
            })
        } else {
            mismatched(reply) && b == a
        },
        Call::UploadCancel { id, reply, .. } => if a.uploads.contains_key(id) {
            reply is Ok && b == (Holdings { uploads: a.uploads.remove(id), ..a })
        } else {
            absent(reply) && b == a
        },
        Call::ManifestGet { repo, reference, reply } => {
            &&& b == a
            &&& match a.led_to(repo, reference) {
                Some(p) => reply == Ok::<_, StorageError>(
                    (a.manifests[p], read(a.manifests[p])),
                ),
                None => absent(reply),
            }
        },
        Call::ManifestPut { repo, reference, content, reply } => {
            let d = named(content);
            &&& reply == Ok::<_, StorageError>(d)
            &&& b == (Holdings {
                manifests: a.manifests.insert((repo, d), content),
                tags: match reference {
                    ReferenceView::Tag(t) => a.tags.insert((repo, t), d),
                    ReferenceView::Digest(_) => a.tags,
                },
                ..a
            })
        },
        Call::ManifestDelete { repo, reference, reply } => match reference {
            ReferenceView::Digest(d) => if a.manifests.contains_key((repo, d)) {
                reply is Ok && b == (Holdings { manifests: a.manifests.remove((repo, d)), ..a })
            } else {
                absent(reply) && b == a
            },
            ReferenceView::Tag(t) => if a.tags.contains_key((repo, t)) {
                reply is Ok && b == (Holdings { tags: a.tags.remove((repo, t)), ..a })
            } else {
                absent(reply) && b == a
            },
        },
        Call::ListRepos { reply } => {
            &&& b == a
            &&& reply is Ok
            &&& forall|r: Seq<char>| #[trigger]
                reply->Ok_0.contains(r) <==> a.knows(r)
        },
        Call::ListTags { repo, reply } => {
            &&& b == a
            &&& reply is Ok
            &&& forall|t: Seq<char>| #[trigger]
                reply->Ok_0.contains(t) <==> a.tags.contains_key((repo, t))
        },
        Call::ListManifestDigests { repo, reply } => {
            &&& b == a
            &&& reply is Ok
            &&& forall|d: DigestView| #[trigger]
                reply->Ok_0.contains(d) <==> a.manifests.contains_key((repo, d))
        },
        Call::ListAllBlobs { reply } => {
            &&& b == a
            &&& reply is Ok
            &&& forall|d: DigestView| #[trigger]
                reply->Ok_0.contains(d) <==> a.blobs.contains_key(d)
        },
    }
}

/// A store that works holds `hs[0]`, `hs[1]` and so on while it is asked `calls`.
pub open spec fn works(read: Reading, hs: Seq<Holdings>, calls: Seq<Call>) -> bool {
    &&& hs.len() == calls.len() + 1
    &&& forall|i: int|
        0 <= i < calls.len() ==> step(read, hs[i], #[trigger] calls[i], hs[i + 1])
}

/// The call changes nothing.
pub open spec fn quiet(c: Call) -> bool {
    match c {
        Call::BlobExists { .. } => true,
        Call::BlobSize { .. } => true,
        Call::BlobRead { .. } => true,
        Call::UploadState { .. } => true,
        Call::ManifestGet { .. } => true,
        Call::ListRepos { .. } => true,
        Call::ListTags { .. } => true,
        Call::ListManifestDigests { .. } => true,
        Call::ListAllBlobs { .. } => true,
        _ => false,
    }
}

/// While calls change nothing, a store holds the same.
pub proof fn lemma_quiet(read: Reading, hs: Seq<Holdings>, calls: Seq<Call>, n: int)
    requires
        works(read, hs, calls),
        0 <= n <= calls.len(),
        forall|i: int| 0 <= i < n ==> quiet(#[trigger] calls[i]),
    ensures
        forall|i: int| 0 <= i <= n ==> #[trigger] hs[i] == hs[0],
    decreases n,
{
    if n > 0 {
        lemma_quiet(read, hs, calls, n - 1);
        assert(quiet(calls[n - 1]));
        assert(step(read, hs[n - 1], calls[n - 1], hs[n - 1 + 1]));
        assert forall|i: int| 0 <= i <= n implies #[trigger] hs[i] == hs[0] by {
            if i == n {
                assert(hs[n] == hs[n - 1]);
            }
        }
    }
}

/// Some of the calls, with what the store holds meanwhile.
pub proof fn lemma_part(read: Reading, hs: Seq<Holdings>, calls: Seq<Call>, lo: int, hi: int)
    requires
        works(read, hs, calls),
        0 <= lo <= hi <= calls.len(),
    ensures
        works(read, hs.subrange(lo, hi + 1), calls.subrange(lo, hi)),
        hs.subrange(lo, hi + 1)[0] == hs[lo],
        hs.subrange(lo, hi + 1).last() == hs[hi],
{
    let s = hs.subrange(lo, hi + 1);
    let c = calls.subrange(lo, hi);
    assert forall|i: int| 0 <= i < c.len() implies step(read, s[i], #[trigger] c[i], s[i + 1]) by {
        assert(c[i] == calls[lo + i]);
        assert(step(read, hs[lo + i], calls[lo + i], hs[lo + i + 1]));
    }
}

/// A store that holds everything under its own digest goes on doing so, whatever it
/// is asked.
pub proof fn everything_stays_under_its_digest(read: Reading, a: Holdings, c: Call, b: Holdings)
    requires
        a.sound(),
        step(read, a, c, b),
    ensures
        b.sound(),
{
    assert forall|d: DigestView| #[trigger] b.blobs.contains_key(d) implies digest::content_digest(
        d.algorithm,
        b.blobs[d],
    ) == d by {
        if a.blobs.contains_key(d) && b.blobs[d] == a.blobs[d] {
        }
    }
    assert forall|p: Place| #[trigger] b.manifests.contains_key(p) implies named(b.manifests[p])
        == p.1 by {
        if a.manifests.contains_key(p) && b.manifests[p] == a.manifests[p] {
        }
    }
}

} // verus!
