//! OCI manifests, as far as a registry looks into them: the digests they
//! reference and the `subject` they are attached to.

use vstd::prelude::*;

use crate::digest::{Digest, DigestView};
use crate::order;
use crate::order::Key;

verus! {

pub const OCI_MANIFEST_MEDIA_TYPE: &'static str = "application/vnd.oci.image.manifest.v1+json";

pub const OCI_INDEX_MEDIA_TYPE: &'static str = "application/vnd.oci.image.index.v1+json";

pub const DOCKER_MANIFEST_V2_MEDIA_TYPE: &'static str =
    "application/vnd.docker.distribution.manifest.v2+json";

pub const DOCKER_MANIFEST_LIST_V2_MEDIA_TYPE: &'static str =
    "application/vnd.docker.distribution.manifest.list.v2+json";

/// A content descriptor.
#[derive(Debug, Clone)]
pub struct Descriptor {
    pub media_type: String,
    pub digest: Digest,
    pub size: u64,
    pub artifact_type: Option<String>,
    /// The annotations, as the text of a JSON object.
    pub annotations: Option<String>,
}

/// A loosely typed manifest: an image manifest (config and layers) or an image
/// index (manifests).
#[derive(Debug, Clone)]
pub struct Manifest {
    pub media_type: Option<String>,
    pub artifact_type: Option<String>,
    pub config: Option<Descriptor>,
    pub layers: Vec<Descriptor>,
    pub manifests: Vec<Descriptor>,
    pub subject: Option<Descriptor>,
    /// The annotations, as the text of a JSON object.
    pub annotations: Option<String>,
}

pub open spec fn digests_of(s: Seq<Descriptor>) -> Seq<DigestView> {
    s.map_values(|d: Descriptor| d.digest@)
}

pub open spec fn digest_in(d: Option<Descriptor>) -> Seq<DigestView> {
    match d {
        Some(x) => seq![x.digest@],
        None => Seq::empty(),
    }
}

impl Manifest {
    /// Config, layers, child manifests and subject, in this order.
    pub open spec fn references(&self) -> Seq<DigestView> {
        digest_in(self.config) + digests_of(self.layers@) + digests_of(self.manifests@) + digest_in(
            self.subject,
        )
    }

    /// Config, layers and subject: what a copy of the manifest needs as blobs.
    pub open spec fn blob_references(&self) -> Seq<DigestView> {
        digest_in(self.config) + digests_of(self.layers@) + digest_in(self.subject)
    }

    /// The child manifests of an index.
    pub open spec fn children(&self) -> Seq<DigestView> {
        digests_of(self.manifests@)
    }

    /// Digests this manifest references: config, layers, child manifests, subject.
    pub fn referenced_digests(&self) -> (r: Vec<Digest>)
        ensures
            order::views_of(r@) == self.references(),
    {
        let mut out: Vec<Digest> = Vec::new();
        push_digest(&mut out, &self.config);
        push_digests(&mut out, &self.layers);
        push_digests(&mut out, &self.manifests);
        push_digest(&mut out, &self.subject);
        assert(order::views_of(out@) =~= self.references());
        out
    }

    /// Digests of the blobs this manifest needs: config, layers, subject.
    pub fn blob_digests(&self) -> (r: Vec<Digest>)
        ensures
            order::views_of(r@) == self.blob_references(),
    {
        let mut out: Vec<Digest> = Vec::new();
        push_digest(&mut out, &self.config);
        push_digests(&mut out, &self.layers);
        push_digest(&mut out, &self.subject);
        assert(order::views_of(out@) =~= self.blob_references());
        out
    }

    /// Digests of the child manifests.
    pub fn child_digests(&self) -> (r: Vec<Digest>)
        ensures
            order::views_of(r@) == self.children(),
    {
        let mut out: Vec<Digest> = Vec::new();
        push_digests(&mut out, &self.manifests);
        assert(order::views_of(out@) =~= self.children());
        out
    }
}

fn push_digest(out: &mut Vec<Digest>, d: &Option<Descriptor>)
    ensures
        order::views_of(final(out)@) == order::views_of(old(out)@) + digest_in(*d),
{
    if let Some(x) = d {
        out.push(x.digest.dup());
    }
    assert(order::views_of(out@) =~= order::views_of(old(out)@) + digest_in(*d));
}

fn push_digests(out: &mut Vec<Digest>, list: &Vec<Descriptor>)
    ensures
        order::views_of(final(out)@) == order::views_of(old(out)@) + digests_of(list@),
{
    let mut i: usize = 0;
    assert(order::views_of(out@) =~= order::views_of(old(out)@) + digests_of(list@.take(0)));
    while i < list.len()
        invariant
            i <= list@.len(),
            order::views_of(out@) == order::views_of(old(out)@) + digests_of(list@.take(i as int)),
        decreases list@.len() - i,
    {
        let ghost was = out@;
        out.push(list[i].digest.dup());
        i = i + 1;
        proof {
            assert(order::views_of(out@) =~= order::views_of(was).push(list@[i - 1].digest@));
            assert(digests_of(list@.take(i as int)) =~= digests_of(list@.take(i - 1)).push(
                list@[i - 1].digest@,
            ));
            assert(order::views_of(out@) =~= order::views_of(old(out)@) + digests_of(
                list@.take(i as int),
            ));
        }
    }
    assert(list@.take(list@.len() as int) =~= list@);
}

} // verus!
