//! What a manifest refers to.

use vstd::prelude::*;

use crate::digest::DigestView;
use crate::manifest;
use crate::manifest::{Descriptor, Manifest};

verus! {

/// The descriptor, if there is one, is of this digest.
pub open spec fn describes(x: Option<Descriptor>, d: DigestView) -> bool {
    x is Some && x->0.digest.algorithm == d.algorithm && x->0.digest.hex@ == d.hex
}

/// One of the descriptors, at whatever place, is of this digest.
pub open spec fn lists(s: Seq<Descriptor>, d: DigestView) -> bool {
    exists|i: int|
        0 <= i < s.len() && (#[trigger] s[i]).digest.algorithm == d.algorithm && s[i].digest.hex@
            == d.hex
}

/// The config, a layer or the subject of the manifest has this digest.
pub open spec fn has_as_blob(m: Manifest, d: DigestView) -> bool {
    describes(m.config, d) || lists(m.layers@, d) || describes(m.subject, d)
}

/// A child of the manifest has this digest.
pub open spec fn has_as_child(m: Manifest, d: DigestView) -> bool {
    lists(m.manifests@, d)
}

/// The config, a layer, a child or the subject of the manifest has this digest.
pub open spec fn has(m: Manifest, d: DigestView) -> bool {
    has_as_blob(m, d) || has_as_child(m, d)
}

proof fn lemma_digests_of(s: Seq<Descriptor>, d: DigestView)
    ensures
        manifest::digests_of(s).len() == s.len(),
        manifest::digests_of(s).contains(d) <==> lists(s, d),
{
    let v = manifest::digests_of(s);
    if v.contains(d) {
        let i = choose|i: int| 0 <= i < v.len() && v[i] == d;
        assert(v[i] == s[i].digest@);
    }
    if lists(s, d) {
        let i = choose|i: int|
            0 <= i < s.len() && (#[trigger] s[i]).digest.algorithm == d.algorithm
                && s[i].digest.hex@ == d.hex;
        assert(v[i] == s[i].digest@);
        assert(v[i] == d);
    }
}

proof fn lemma_digest_in(x: Option<Descriptor>, d: DigestView)
    ensures
        manifest::digest_in(x).len() == if x is Some {
            1nat
        } else {
            0
        },
        manifest::digest_in(x).contains(d) <==> describes(x, d),
{
    let v = manifest::digest_in(x);
    if let Some(y) = x {
        assert(v[0] == y.digest@);
        if v.contains(d) {
            let i = choose|i: int| 0 <= i < v.len() && v[i] == d;
            assert(i == 0);
        }
        if describes(x, d) {
            assert(v[0] == d);
        }
    }
}

proof fn lemma_either(a: Seq<DigestView>, b: Seq<DigestView>, d: DigestView)
    ensures
        (a + b).contains(d) <==> a.contains(d) || b.contains(d),
{
    let c = a + b;
    if c.contains(d) {
        let i = choose|i: int| 0 <= i < c.len() && c[i] == d;
        if i < a.len() {
            assert(a[i] == d);
        } else {
            assert(b[i - a.len()] == d);
        }
    }
    if a.contains(d) {
        let i = choose|i: int| 0 <= i < a.len() && a[i] == d;
        assert(c[i] == d);
    }
    if b.contains(d) {
        let i = choose|i: int| 0 <= i < b.len() && b[i] == d;
        assert(c[a.len() + i] == d);
    }
}

/// A manifest references its config, each of its layers, each of its children and its
/// subject, and nothing else, each place once.
pub proof fn references_are_all_it_has(m: Manifest, d: DigestView)
    ensures
        m.references().contains(d) <==> has(m, d),
        m.references().len() == (if m.config is Some {
            1int
        } else {
            0
        }) + m.layers@.len() + m.manifests@.len() + (if m.subject is Some {
            1int
        } else {
            0
        }),
{
    let a = manifest::digest_in(m.config);
    let b = manifest::digests_of(m.layers@);
    let c = manifest::digests_of(m.manifests@);
    let e = manifest::digest_in(m.subject);
    lemma_digest_in(m.config, d);
    lemma_digests_of(m.layers@, d);
    lemma_digests_of(m.manifests@, d);
    lemma_digest_in(m.subject, d);
    lemma_either(a, b, d);
    lemma_either(a + b, c, d);
    lemma_either(a + b + c, e, d);
}

/// What a copy of a manifest needs as blobs is its config, each of its layers and its
/// subject, and nothing else.
pub proof fn needed_blobs_are_config_layers_and_subject(m: Manifest, d: DigestView)
    ensures
        m.blob_references().contains(d) <==> has_as_blob(m, d),
        m.blob_references().len() == (if m.config is Some {
            1int
        } else {
            0
        }) + m.layers@.len() + (if m.subject is Some {
            1int
        } else {
            0
        }),
{
    let a = manifest::digest_in(m.config);
    let b = manifest::digests_of(m.layers@);
    let e = manifest::digest_in(m.subject);
    lemma_digest_in(m.config, d);
    lemma_digests_of(m.layers@, d);
    lemma_digest_in(m.subject, d);
    lemma_either(a, b, d);
    lemma_either(a + b, e, d);
}

/// The children of a manifest are what it lists as manifests, in this order.
pub proof fn children_are_all_it_lists(m: Manifest, d: DigestView)
    ensures
        m.children().contains(d) <==> has_as_child(m, d),
        m.children().len() == m.manifests@.len(),
        forall|i: int|
            0 <= i < m.manifests@.len() ==> (#[trigger] m.children()[i]).algorithm
                == m.manifests@[i].digest.algorithm && m.children()[i].hex
                == m.manifests@[i].digest.hex@,
{
    lemma_digests_of(m.manifests@, d);
}

/// The three at once, for every digest.
pub proof fn lemma_has(m: Manifest)
    ensures
        forall|d: DigestView|
            #![trigger m.references().contains(d)]
            #![trigger has(m, d)]
            m.references().contains(d) <==> has(m, d),
        forall|d: DigestView|
            #![trigger m.blob_references().contains(d)]
            #![trigger has_as_blob(m, d)]
            m.blob_references().contains(d) <==> has_as_blob(m, d),
        forall|d: DigestView|
            #![trigger m.children().contains(d)]
            #![trigger has_as_child(m, d)]
            m.children().contains(d) <==> has_as_child(m, d),
{
    assert forall|d: DigestView|
        #![trigger m.references().contains(d)]
        #![trigger has(m, d)]
        m.references().contains(d) <==> has(m, d) by {
        references_are_all_it_has(m, d);
    }
    assert forall|d: DigestView|
        #![trigger m.blob_references().contains(d)]
        #![trigger has_as_blob(m, d)]
        m.blob_references().contains(d) <==> has_as_blob(m, d) by {
        needed_blobs_are_config_layers_and_subject(m, d);
    }
    assert forall|d: DigestView|
        #![trigger m.children().contains(d)]
        #![trigger has_as_child(m, d)]
        m.children().contains(d) <==> has_as_child(m, d) by {
        children_are_all_it_lists(m, d);
    }
}

} // verus!
