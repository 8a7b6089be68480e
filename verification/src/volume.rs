//! A store that keeps a record.
//!
//! `RawStorage` is what a place that holds bytes has to offer: a directory, a bucket, a
//! table in memory. Nothing is assumed of what it answers. `Volume` adds the record of
//! the calls and their answers, over which the rest of the crate speaks.

use vstd::prelude::*;

use crate::digest::Digest;
use crate::storage;
use crate::storage::{Call, Reference, Storage, StorageError, StoredManifest, UploadStatus};

verus! {

/// A place that holds blobs, manifests and uploads.
pub trait RawStorage: Sized {
    fn blob_exists(&mut self, repo: &str, digest: &Digest) -> (r: Result<bool, StorageError>);

    fn blob_size(&mut self, repo: &str, digest: &Digest) -> (r: Result<u64, StorageError>);

    fn blob_read(&mut self, repo: &str, digest: &Digest) -> (r: Result<Vec<u8>, StorageError>);

    /// Writes a blob whose content hashes to `expected`; `DigestMismatch` where it does
    /// not.
    fn blob_write(&mut self, repo: &str, expected: &Digest, content: &[u8]) -> (r: Result<(), StorageError>);

    fn blob_delete(&mut self, repo: &str, digest: &Digest) -> (r: Result<(), StorageError>);

    fn upload_create(&mut self, repo: &str) -> (r: Result<UploadStatus, StorageError>);

    fn upload_status(&mut self, repo: &str, id: u128) -> (r: Result<UploadStatus, StorageError>);

    /// Appends a chunk and gives the state after it.
    fn upload_append(&mut self, repo: &str, id: u128, chunk: &[u8]) -> (r: Result<UploadStatus, StorageError>);

    /// Ends an upload whose bytes hash to `expected` and makes it a blob;
    /// `DigestMismatch` where they do not.
    fn upload_finalize(&mut self, repo: &str, id: u128, expected: &Digest) -> (r: Result<(), StorageError>);

    fn upload_cancel(&mut self, repo: &str, id: u128) -> (r: Result<(), StorageError>);

    fn manifest_get(&mut self, repo: &str, reference: &Reference) -> (r: Result<StoredManifest, StorageError>);

    /// Stores a manifest and gives its canonical digest.
    fn manifest_put(&mut self, repo: &str, reference: &Reference, content: &[u8]) -> (r: Result<Digest, StorageError>);

    fn manifest_delete(&mut self, repo: &str, reference: &Reference) -> (r: Result<(), StorageError>);

    /// The repositories that have a manifest, sorted, each once.
    fn list_repos(&mut self) -> (r: Result<Vec<String>, StorageError>);

    /// The tags of a repository, sorted, each once.
    fn list_tags(&mut self, repo: &str) -> (r: Result<Vec<String>, StorageError>);

    /// The manifests of a repository.
    fn list_manifest_digests(&mut self, repo: &str) -> (r: Result<Vec<Digest>, StorageError>);

    /// All blobs.
    fn list_all_blobs(&mut self) -> (r: Result<Vec<Digest>, StorageError>);
}

/// A place that holds bytes, with a record of what was asked of it.
pub struct Volume<R> {
    pub raw: R,
    pub record: Ghost<Seq<Call>>,
}

impl<R> Volume<R> {
    pub fn new(raw: R) -> (r: Volume<R>)
        ensures
            r.raw == raw,
            r.record@ == Seq::<Call>::empty(),
    {
        Volume { raw, record: Ghost(Seq::empty()) }
    }
}

impl<R: RawStorage> Storage for Volume<R> {
    type Origin = ();

    open spec fn origin(&self) -> () {
        ()
    }

    open spec fn log(&self) -> Seq<Call> {
        self.record@
    }

    open spec fn wf(&self) -> bool {
        true
    }

    fn blob_exists(&mut self, repo: &str, digest: &Digest) -> (r: Result<bool, StorageError>) {
        let r = self.raw.blob_exists(repo, digest);
        self.record = Ghost(
            self.record@.push(
                Call::BlobExists { repo: repo@, digest: digest@, reply: r },
            ),
        );
        r
    }

    fn blob_size(&mut self, repo: &str, digest: &Digest) -> (r: Result<u64, StorageError>) {
        let r = self.raw.blob_size(repo, digest);
        self.record = Ghost(
            self.record@.push(
                Call::BlobSize { repo: repo@, digest: digest@, reply: r },
            ),
        );
        r
    }

    fn blob_read(&mut self, repo: &str, digest: &Digest) -> (r: Result<Vec<u8>, StorageError>) {
        let r = self.raw.blob_read(repo, digest);
        self.record = Ghost(
            self.record@.push(
                Call::BlobRead { repo: repo@, digest: digest@, reply: storage::bytes_reply(r) },
            ),
        );
        r
    }

    fn blob_write(&mut self, repo: &str, expected: &Digest, content: &[u8]) -> (r: Result<(), StorageError>) {
        let r = self.raw.blob_write(repo, expected, content);
        self.record = Ghost(
            self.record@.push(
                Call::BlobWrite { repo: repo@, digest: expected@, content: content@, reply: r },
            ),
        );
        r
    }

    fn blob_delete(&mut self, repo: &str, digest: &Digest) -> (r: Result<(), StorageError>) {
        let r = self.raw.blob_delete(repo, digest);
        self.record = Ghost(
            self.record@.push(
                Call::BlobDelete { repo: repo@, digest: digest@, reply: r },
            ),
        );
        r
    }

    fn upload_create(&mut self, repo: &str) -> (r: Result<UploadStatus, StorageError>) {
        let r = self.raw.upload_create(repo);
        self.record = Ghost(
            self.record@.push(
                Call::UploadCreate { repo: repo@, reply: r },
            ),
        );
        r
    }

    fn upload_status(&mut self, repo: &str, id: u128) -> (r: Result<UploadStatus, StorageError>) {
        let r = self.raw.upload_status(repo, id);
        self.record = Ghost(
            self.record@.push(
                Call::UploadState { repo: repo@, id, reply: r },
            ),
        );
        r
    }

    fn upload_append(&mut self, repo: &str, id: u128, chunk: &[u8]) -> (r: Result<UploadStatus, StorageError>) {
        let r = self.raw.upload_append(repo, id, chunk);
        self.record = Ghost(
            self.record@.push(
                Call::UploadAppend { repo: repo@, id, chunk: chunk@, reply: r },
            ),
        );
        r
    }

    fn upload_finalize(&mut self, repo: &str, id: u128, expected: &Digest) -> (r: Result<(), StorageError>) {
        let r = self.raw.upload_finalize(repo, id, expected);
        self.record = Ghost(
            self.record@.push(
                Call::UploadFinalize { repo: repo@, id, digest: expected@, reply: r },
            ),
        );
        r
    }

    fn upload_cancel(&mut self, repo: &str, id: u128) -> (r: Result<(), StorageError>) {
        let r = self.raw.upload_cancel(repo, id);
        self.record = Ghost(
            self.record@.push(
                Call::UploadCancel { repo: repo@, id, reply: r },
            ),
        );
        r
    }

    fn manifest_get(&mut self, repo: &str, reference: &Reference) -> (r: Result<StoredManifest, StorageError>) {
        let r = self.raw.manifest_get(repo, reference);
        self.record = Ghost(
            self.record@.push(
                Call::ManifestGet {
                    repo: repo@,
                    reference: reference@,
                    reply: storage::manifest_reply(r),
                },
            ),
        );
        r
    }

    fn manifest_put(&mut self, repo: &str, reference: &Reference, content: &[u8]) -> (r: Result<Digest, StorageError>) {
        let r = self.raw.manifest_put(repo, reference, content);
        self.record = Ghost(
            self.record@.push(
                Call::ManifestPut {
                    repo: repo@,
                    reference: reference@,
                    content: content@,
                    reply: storage::digest_reply(r),
                },
            ),
        );
        r
    }

    fn manifest_delete(&mut self, repo: &str, reference: &Reference) -> (r: Result<(), StorageError>) {
        let r = self.raw.manifest_delete(repo, reference);
        self.record = Ghost(
            self.record@.push(
                Call::ManifestDelete { repo: repo@, reference: reference@, reply: r },
            ),
        );
        r
    }

    fn list_repos(&mut self) -> (r: Result<Vec<String>, StorageError>) {
        let r = self.raw.list_repos();
        self.record = Ghost(
            self.record@.push(
                Call::ListRepos { reply: storage::list_reply(r) },
            ),
        );
        r
    }

    fn list_tags(&mut self, repo: &str) -> (r: Result<Vec<String>, StorageError>) {
        let r = self.raw.list_tags(repo);
        self.record = Ghost(
            self.record@.push(
                Call::ListTags { repo: repo@, reply: storage::list_reply(r) },
            ),
        );
        r
    }

    fn list_manifest_digests(&mut self, repo: &str) -> (r: Result<Vec<Digest>, StorageError>) {
        let r = self.raw.list_manifest_digests(repo);
        self.record = Ghost(
            self.record@.push(
                Call::ListManifestDigests { repo: repo@, reply: storage::list_reply(r) },
            ),
        );
        r
    }

    fn list_all_blobs(&mut self) -> (r: Result<Vec<Digest>, StorageError>) {
        let r = self.raw.list_all_blobs();
        self.record = Ghost(
            self.record@.push(
                Call::ListAllBlobs { reply: storage::list_reply(r) },
            ),
        );
        r
    }
}

} // verus!
