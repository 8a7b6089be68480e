//! Stores and what is composed of them.

use std::cell::RefCell;
use std::collections::BTreeMap;
use std::rc::Rc;

use rspace_registry::digest;
use rspace_registry::digest::{Algorithm, Digest};
use rspace_registry::fanout::Partition;
use rspace_registry::files::{FileError, Files, Recorded};
use rspace_registry::fs::FsStorage;
use rspace_registry::gc;
use rspace_registry::manifest::{Descriptor, Manifest};
use rspace_registry::migrate;
use rspace_registry::migrate::MigrateReport;
use rspace_registry::multi::MultiStore;
use rspace_registry::quota::{Quota, QuotaStorage};
use rspace_registry::replicate;
use rspace_registry::replicate::ReplicateConfig;
use rspace_registry::repo_router::{Backend, RepoRouter, RouteRule};
use rspace_registry::storage;
use rspace_registry::storage::{Reference, Storage, StorageError, StoredManifest, UploadStatus};
use rspace_registry::volume::{RawStorage, Volume};
use serde_json::Value;

/// The files of a directory, in memory. Handles share them.
#[derive(Clone)]
struct MemFs {
    files: Rc<RefCell<BTreeMap<String, Vec<u8>>>>,
    /// Files cannot be moved.
    no_rename: bool,
    /// Nothing can be written.
    frozen: bool,
    /// It cannot be said whether a file is there.
    no_has: bool,
    /// Nothing can be removed.
    no_remove: bool,
    /// No manifest can be written.
    no_manifests: bool,
}

fn missing() -> FileError {
    FileError { missing: true, read_only: false, text: "no such file".to_string() }
}

fn frozen() -> FileError {
    FileError { missing: false, read_only: true, text: "read-only file system".to_string() }
}

impl MemFs {
    fn new() -> MemFs {
        MemFs {
            files: Rc::new(RefCell::new(BTreeMap::new())),
            no_rename: false,
            frozen: false,
            no_has: false,
            no_remove: false,
            no_manifests: false,
        }
    }

    /// The names of the directories and of the files in a directory.
    fn names(&self, dir: &str) -> Result<(Vec<String>, Vec<String>), FileError> {
        let mut dirs: Vec<String> = Vec::new();
        let mut files: Vec<String> = Vec::new();
        let prefix = format!("{}/", dir);
        for path in self.files.borrow().keys() {
            if let Some(rest) = path.strip_prefix(&prefix) {
                match rest.split_once('/') {
                    Some((d, _)) => {
                        if !dirs.contains(&d.to_string()) {
                            dirs.push(d.to_string());
                        }
                    }
                    None => files.push(rest.to_string()),
                }
            }
        }
        if dirs.is_empty() && files.is_empty() {
            return Err(missing());
        }
        Ok((dirs, files))
    }
}

fn descriptor_of(v: &Value) -> Option<Descriptor> {
    Some(Descriptor {
        media_type: v.get("mediaType")?.as_str()?.to_string(),
        digest: Digest::parse(v.get("digest")?.as_str()?).ok()?,
        size: v.get("size")?.as_u64()?,
        artifact_type: None,
        annotations: None,
    })
}

fn descriptors_of(v: Option<&Value>) -> Option<Vec<Descriptor>> {
    match v {
        None => Some(vec![]),
        Some(list) => list.as_array()?.iter().map(descriptor_of).collect(),
    }
}

/// What a manifest references.
fn refs_of(content: &[u8]) -> Option<Manifest> {
    let v: Value = serde_json::from_slice(content).ok()?;
    let text = |k: &str| v.get(k).and_then(|x| x.as_str()).map(|x| x.to_string());
    Some(Manifest {
        media_type: text("mediaType"),
        artifact_type: text("artifactType"),
        config: match v.get("config") {
            None => None,
            Some(d) => Some(descriptor_of(d)?),
        },
        layers: descriptors_of(v.get("layers"))?,
        manifests: descriptors_of(v.get("manifests"))?,
        subject: match v.get("subject") {
            None => None,
            Some(d) => Some(descriptor_of(d)?),
        },
        annotations: v.get("annotations").map(|a| a.to_string()),
    })
}

impl Files for MemFs {
    fn make_dir(&mut self, _path: &str) -> Result<(), FileError> {
        if self.frozen {
            return Err(frozen());
        }
        Ok(())
    }

    fn is_dir(&mut self, path: &str) -> bool {
        path.is_empty() || self.names(path).is_ok()
    }

    fn has(&mut self, path: &str) -> Result<bool, FileError> {
        if self.no_has {
            return Err(frozen());
        }
        Ok(self.files.borrow().contains_key(path))
    }

    fn size(&mut self, path: &str) -> Result<u64, FileError> {
        Ok(self.read(path)?.len() as u64)
    }

    fn read(&mut self, path: &str) -> Result<Vec<u8>, FileError> {
        self.files.borrow().get(path).cloned().ok_or(missing())
    }

    fn replace(&mut self, path: &str, content: &[u8]) -> Result<(), FileError> {
        if self.frozen || (self.no_manifests && path.starts_with("manifests/")) {
            return Err(frozen());
        }
        self.files.borrow_mut().insert(path.to_string(), content.to_vec());
        Ok(())
    }

    fn create(&mut self, path: &str) -> Result<(), FileError> {
        self.replace(path, &[])
    }

    fn append(&mut self, path: &str, chunk: &[u8]) -> Result<u64, FileError> {
        let mut content = self.read(path)?;
        content.extend_from_slice(chunk);
        self.replace(path, &content)?;
        Ok(content.len() as u64)
    }

    fn rename(&mut self, from: &str, to: &str) -> Result<(), FileError> {
        if self.no_rename {
            return Err(FileError {
                missing: false,
                read_only: false,
                text: "cross-device link".to_string(),
            });
        }
        let content = self.read(from)?;
        self.replace(to, &content)?;
        self.remove(from)
    }

    fn remove(&mut self, path: &str) -> Result<(), FileError> {
        if self.no_remove {
            return Err(frozen());
        }
        self.files.borrow_mut().remove(path).map(|_| ()).ok_or(missing())
    }

    fn files_in(&mut self, dir: &str) -> Result<Vec<String>, FileError> {
        Ok(self.names(dir)?.1)
    }

    fn dirs_in(&mut self, dir: &str) -> Result<Vec<String>, FileError> {
        Ok(self.names(dir)?.0)
    }

    fn manifest(&mut self, content: &[u8]) -> Option<Manifest> {
        refs_of(content)
    }
}

type Store = FsStorage<Recorded<MemFs>>;

fn store() -> Store {
    FsStorage::new("/mem".to_string(), Recorded::new(MemFs::new())).unwrap()
}

/// Another handle on the same files.
fn again(s: &Store) -> Store {
    FsStorage::over(s.root().to_string(), Recorded::new(s.disk.files.files.clone()))
}

fn part(name: &str, s: &Store) -> Partition<Store> {
    Partition { name: name.to_string(), storage: again(s) }
}

fn tag(t: &str) -> Reference {
    Reference::Tag(t.to_string())
}

fn digest_of(bytes: &[u8]) -> Digest {
    digest::sha256_digest(bytes)
}

fn zeros() -> Digest {
    Digest { algorithm: Algorithm::Sha256, hex: "0".repeat(64) }
}

fn rule(pattern: &str, volume: usize) -> RouteRule {
    RouteRule { pattern: pattern.to_string(), backend: Backend::volume(volume) }
}

/// The bytes of a manifest with a config, layers and children.
fn manifest(config: &Digest, layers: &[&Digest], children: &[&Digest]) -> Vec<u8> {
    let d = |d: &Digest| format!(r#"{{"mediaType":"m","digest":"{}","size":1}}"#, d.to_string());
    let list = |v: &[&Digest]| v.iter().map(|x| d(x)).collect::<Vec<String>>().join(",");
    format!(
        r#"{{"schemaVersion":2,"config":{},"layers":[{}],"manifests":[{}]}}"#,
        d(config),
        list(layers),
        list(children)
    )
    .into_bytes()
}

// ---- A directory ----------------------------------------------------------

#[test]
fn blob_roundtrip() {
    let mut fs = store();
    let bytes = b"hello";
    let d = digest_of(bytes);
    fs.blob_write("x", &d, bytes).unwrap();
    assert!(fs.blob_exists("x", &d).unwrap());
    assert_eq!(fs.blob_size("x", &d).unwrap(), bytes.len() as u64);
    assert_eq!(fs.blob_read("x", &d).unwrap(), bytes);
    fs.blob_delete("x", &d).unwrap();
    assert!(!fs.blob_exists("x", &d).unwrap());
}

#[test]
fn blob_write_rejects_wrong_digest() {
    let mut fs = store();
    let err = fs.blob_write("x", &zeros(), b"hello").unwrap_err();
    assert!(matches!(err, StorageError::DigestMismatch { .. }));
}

#[test]
fn manifest_tag_then_digest() {
    let mut fs = store();
    let m = br#"{"schemaVersion":2}"#;
    let d = fs.manifest_put("library/foo", &tag("v1"), m).unwrap();
    let by_tag = fs.manifest_get("library/foo", &tag("v1")).unwrap();
    assert_eq!(by_tag.content, m);
    let by_digest = fs.manifest_get("library/foo", &Reference::Digest(d)).unwrap();
    assert_eq!(by_digest.content, m);
}

#[test]
fn upload_chunked_then_finalise() {
    let mut fs = store();
    let start = fs.upload_create("x").unwrap();
    assert_eq!(start.offset, 0);
    let s1 = fs.upload_append("x", start.id, b"hel").unwrap();
    assert_eq!(s1.offset, 3);
    let s2 = fs.upload_append("x", start.id, b"lo").unwrap();
    assert_eq!(s2.offset, 5);
    let digest = digest_of(b"hello");
    fs.upload_finalize("x", start.id, &digest).unwrap();
    assert_eq!(fs.blob_read("x", &digest).unwrap(), b"hello");
}

#[test]
fn upload_finalize_rejects_wrong_digest() {
    let mut fs = store();
    let s = fs.upload_create("x").unwrap();
    fs.upload_append("x", s.id, b"hello").unwrap();
    let err = fs.upload_finalize("x", s.id, &zeros()).unwrap_err();
    assert!(matches!(err, StorageError::DigestMismatch { .. }));
}

#[test]
fn list_repos_tags_blobs() {
    let mut fs = store();
    let m = br#"{"schemaVersion":2}"#;
    fs.manifest_put("library/alpine", &tag("v1"), m).unwrap();
    fs.manifest_put("library/alpine", &tag("v2"), m).unwrap();
    fs.manifest_put("test/busybox", &tag("latest"), m).unwrap();
    let d = digest_of(b"x");
    fs.blob_write("x", &d, b"x").unwrap();

    let repos = fs.list_repos().unwrap();
    assert_eq!(repos, vec!["library/alpine", "test/busybox"]);
    let tags = fs.list_tags("library/alpine").unwrap();
    assert_eq!(tags, vec!["v1", "v2"]);
    let blobs = fs.list_all_blobs().unwrap();
    assert_eq!(blobs.len(), 1);
    assert!(blobs[0].same(&d));
}

#[test]
fn files_of_a_store() {
    let mut s = store();
    assert_eq!(s.root(), "/mem");
    let d = digest_of(b"hello");
    s.blob_write("a/b", &d, b"hello").unwrap();
    let m = s.manifest_put("a/b", &tag("v1"), b"{}").unwrap();
    let up = s.upload_create("a/b").unwrap();
    let upload = format!("uploads/{}", uuid::Uuid::from_u128(up.id));
    let pointer = m.to_string();
    let files: Vec<(String, Vec<u8>)> =
        s.disk.files.files.files.borrow().iter().map(|(k, v)| (k.clone(), v.clone())).collect();
    let expected = vec![
        (
            "blobs/sha256/2c/2cf24dba5fb0a30e26e83b2ac5b9e29e1b161e5c1fa7425e73043362938b9824"
                .to_string(),
            b"hello".to_vec(),
        ),
        (format!("manifests/a/b/digests/{}", pointer), b"{}".to_vec()),
        ("manifests/a/b/tags/v1".to_string(), pointer.into_bytes()),
        (upload, vec![]),
    ];
    assert_eq!(files, expected);
}

#[test]
fn a_store_reads_what_lies_in_its_directories() {
    let mut s = store();
    let m = s.manifest_put("a", &tag("v2"), b"{}").unwrap();
    let mut files = s.disk.files.files.clone();
    files.replace("manifests/a/tags/v1.tmp", b"half").unwrap();
    files.replace("manifests/a/tags/v1", format!(" {}\n", m.to_string()).as_bytes()).unwrap();
    files.replace("manifests/a/tags/bad", b"nonsense").unwrap();
    files.replace("manifests/a/tags/raw", &[0xff]).unwrap();
    files.replace("manifests/a/digests/stray", b"").unwrap();
    files.replace("blobs/sha256/zz/stray", b"").unwrap();
    assert_eq!(s.list_tags("a").unwrap(), vec!["bad", "raw", "v1", "v2"]);
    assert_eq!(s.list_tags("other").unwrap(), Vec::<String>::new());
    assert_eq!(s.manifest_get("a", &tag("v1")).unwrap().content, b"{}");
    assert!(matches!(s.manifest_get("a", &tag("bad")), Err(StorageError::Internal(_))));
    assert!(matches!(s.manifest_get("a", &tag("raw")), Err(StorageError::Io(_))));
    assert!(matches!(s.manifest_get("a", &tag("none")), Err(StorageError::NotFound)));
    let digests = s.list_manifest_digests("a").unwrap();
    assert_eq!(digests.len(), 1);
    assert!(digests[0].same(&m));
    assert_eq!(s.list_all_blobs().unwrap().len(), 0);
    let short = Digest { algorithm: Algorithm::Sha256, hex: "a".to_string() };
    assert!(matches!(s.blob_read("a", &short), Err(StorageError::Invalid(_))));
}

#[test]
fn a_repository_without_manifests_is_not_listed() {
    let mut s = store();
    let d = s.manifest_put("a/b", &tag("v1"), b"{}").unwrap();
    s.manifest_put("c", &tag("v1"), b"{}").unwrap();
    assert_eq!(s.list_repos().unwrap(), vec!["a/b", "c"]);
    s.manifest_delete("a/b", &tag("v1")).unwrap();
    assert_eq!(s.list_repos().unwrap(), vec!["a/b", "c"]);
    s.manifest_delete("a/b", &Reference::Digest(d)).unwrap();
    assert_eq!(s.list_repos().unwrap(), vec!["c"]);
    s.manifest_put("team/tags/x", &tag("v1"), b"{}").unwrap();
    s.manifest_put("digests", &tag("v1"), b"{}").unwrap();
    assert_eq!(s.list_repos().unwrap(), vec!["c", "digests", "team/tags/x"]);
    s = store();
    s.manifest_put("c", &tag("v1"), b"{}").unwrap();
    let mut files = s.disk.files.files.clone();
    files.replace("manifests/a/b/digests/stray", b"").unwrap();
    assert_eq!(s.list_repos().unwrap(), vec!["c"]);
}

#[test]
fn an_upload_that_cannot_be_moved_is_copied() {
    let mut s = store();
    s.disk.files.files.no_rename = true;
    let up = s.upload_create("x").unwrap();
    s.upload_append("x", up.id, b"hello").unwrap();
    let d = digest_of(b"hello");
    s.upload_finalize("x", up.id, &d).unwrap();
    assert_eq!(s.blob_read("x", &d).unwrap(), b"hello");
    assert!(matches!(s.upload_status("x", up.id), Err(StorageError::NotFound)));
    let blobs = s.list_all_blobs().unwrap();
    assert_eq!(blobs.len(), 1);
    assert!(blobs[0].same(&d));
}

#[test]
fn a_tree_that_cannot_be_written_to_is_opened_and_read() {
    let mut s = store();
    let d = digest_of(b"hello");
    s.blob_write("x", &d, b"hello").unwrap();
    let mut files = s.disk.files.files.clone();
    files.frozen = true;
    let mut ro = FsStorage::new("/mem".to_string(), Recorded::new(files)).ok().unwrap();
    assert_eq!(ro.blob_read("x", &d).unwrap(), b"hello");
    assert!(matches!(ro.manifest_put("x", &tag("v1"), b"{}"), Err(StorageError::Io(_))));
    assert!(matches!(ro.upload_create("x"), Err(StorageError::Io(_))));
}

// ---- Partitions -----------------------------------------------------------

const R: &str = "x/y";

fn make_multi() -> (MultiStore<Store>, Store, Store) {
    let (a, b) = (store(), store());
    let multi = MultiStore::new(vec![part("a", &a), part("b", &b)], "a").ok().unwrap();
    (multi, a, b)
}

#[test]
fn writes_go_to_primary_only() {
    let (mut multi, mut a, mut b) = make_multi();
    let data = b"hello";
    let d = digest_of(data);
    multi.blob_write(R, &d, data).unwrap();
    assert!(a.blob_exists(R, &d).unwrap(), "primary should hold blob");
    assert!(!b.blob_exists(R, &d).unwrap(), "secondary should not");
}

#[test]
fn read_falls_through_to_secondary() {
    let (mut multi, mut a, mut b) = make_multi();
    let data = b"only-on-b";
    let d = digest_of(data);
    b.blob_write(R, &d, data).unwrap();
    assert_eq!(multi.blob_read(R, &d).unwrap(), data);
    assert!(!a.blob_exists(R, &d).unwrap());
}

#[test]
fn read_prefers_primary_over_secondary() {
    let (mut multi, mut a, mut b) = make_multi();
    let data = b"shared";
    let d = digest_of(data);
    a.blob_write(R, &d, data).unwrap();
    b.blob_write(R, &d, data).unwrap();
    assert_eq!(multi.blob_read(R, &d).unwrap(), data);
}

#[test]
fn delete_removes_from_all_partitions() {
    let (mut multi, mut a, mut b) = make_multi();
    let data = b"to-be-deleted";
    let d = digest_of(data);
    a.blob_write(R, &d, data).unwrap();
    b.blob_write(R, &d, data).unwrap();
    multi.blob_delete(R, &d).unwrap();
    assert!(!a.blob_exists(R, &d).unwrap());
    assert!(!b.blob_exists(R, &d).unwrap());
    assert!(matches!(multi.blob_delete(R, &d), Err(StorageError::NotFound)));
}

#[test]
fn existence_is_asked_of_the_primary_first() {
    let (mut a, mut b) = (store(), store());
    let d = digest_of(b"x");
    a.blob_write(R, &d, b"x").unwrap();
    b.disk.files.files.no_has = true;
    let mut m = MultiStore::new(vec![part("b", &b), part("a", &a)], "a").ok().unwrap();
    assert!(m.blob_exists(R, &d).unwrap());
    let mut m = MultiStore::new(vec![part("b", &b), part("a", &a)], "b").ok().unwrap();
    assert!(m.blob_exists(R, &d).is_err());
}

#[test]
fn a_delete_that_a_partition_refuses_is_a_failure() {
    let (mut a, mut b) = (store(), store());
    let d = digest_of(b"x");
    a.blob_write(R, &d, b"x").unwrap();
    b.blob_write(R, &d, b"x").unwrap();
    b.disk.files.files.no_remove = true;
    let mut m = MultiStore::new(vec![part("a", &a), part("b", &b)], "a").ok().unwrap();
    assert!(matches!(m.blob_delete(R, &d), Err(StorageError::Io(_))));
    assert!(!a.blob_exists(R, &d).unwrap());
    assert!(matches!(m.manifest_delete(R, &tag("v1")), Err(StorageError::Io(_))));
    b.disk.files.files.no_remove = false;
    let mut m = MultiStore::new(vec![part("a", &a), part("b", &b)], "a").ok().unwrap();
    m.blob_delete(R, &d).unwrap();
    assert!(matches!(m.blob_delete(R, &d), Err(StorageError::NotFound)));
}

#[test]
fn list_unions_across_partitions() {
    let (mut multi, mut a, mut b) = make_multi();
    a.manifest_put("alpha/foo", &tag("v1"), b"{}").unwrap();
    b.manifest_put("beta/bar", &tag("v1"), b"{}").unwrap();
    let repos = multi.list_repos().unwrap();
    assert_eq!(repos, vec!["alpha/foo", "beta/bar"]);
}

#[test]
fn rejects_duplicate_partition_names() {
    let s = store();
    let r = MultiStore::new(vec![part("a", &s), part("a", &s)], "a");
    assert!(matches!(r, Err(StorageError::Invalid(_))));
}

#[test]
fn rejects_unknown_primary() {
    let s = store();
    let r = MultiStore::new(vec![part("a", &s)], "missing");
    match r {
        Err(StorageError::Invalid(m)) => assert_eq!(m, "primary partition \"missing\" not in list"),
        _ => panic!("not refused"),
    }
    let r = MultiStore::<Store>::new(vec![], "a");
    assert!(matches!(r, Err(StorageError::Invalid(_))));
}

#[test]
fn places_of_the_partitions() {
    let s = store();
    let parts = vec![part("a", &s), part("b", &s), part("c", &s)];
    let multi = MultiStore::new(parts, "b").ok().unwrap();
    assert_eq!(multi.primary().name, "b");
    assert_eq!(multi.secondaries(), vec![0, 2]);
    assert_eq!(multi.partitions().len(), 3);
}

// ---- Routing --------------------------------------------------------------

/// Holds nothing, and remembers which repositories it was written for.
#[derive(Clone)]
struct Recorder {
    name: String,
    writes: Rc<RefCell<Vec<String>>>,
}

impl Recorder {
    fn new(name: &str) -> Recorder {
        Recorder { name: name.to_string(), writes: Rc::new(RefCell::new(vec![])) }
    }

    fn writes(&self) -> Vec<String> {
        self.writes.borrow().clone()
    }
}

impl RawStorage for Recorder {
    fn blob_exists(&mut self, _r: &str, _d: &Digest) -> Result<bool, StorageError> {
        Ok(false)
    }
    fn blob_size(&mut self, _r: &str, _d: &Digest) -> Result<u64, StorageError> {
        Err(StorageError::NotFound)
    }
    fn blob_read(&mut self, _r: &str, _d: &Digest) -> Result<Vec<u8>, StorageError> {
        Err(StorageError::NotFound)
    }
    fn blob_write(&mut self, r: &str, _d: &Digest, _c: &[u8]) -> Result<(), StorageError> {
        self.writes.borrow_mut().push(format!("{}:{}", self.name, r));
        Ok(())
    }
    fn blob_delete(&mut self, _r: &str, _d: &Digest) -> Result<(), StorageError> {
        Ok(())
    }
    fn upload_create(&mut self, _r: &str) -> Result<UploadStatus, StorageError> {
        Ok(UploadStatus { id: 0, offset: 0 })
    }
    fn upload_status(&mut self, _r: &str, _id: u128) -> Result<UploadStatus, StorageError> {
        Err(StorageError::NotFound)
    }
    fn upload_append(&mut self, _r: &str, id: u128, _c: &[u8]) -> Result<UploadStatus, StorageError> {
        Ok(UploadStatus { id, offset: 0 })
    }
    fn upload_finalize(&mut self, _r: &str, _id: u128, _d: &Digest) -> Result<(), StorageError> {
        Ok(())
    }
    fn upload_cancel(&mut self, _r: &str, _id: u128) -> Result<(), StorageError> {
        Ok(())
    }
    fn manifest_get(&mut self, _r: &str, _ref: &Reference) -> Result<StoredManifest, StorageError> {
        Err(StorageError::NotFound)
    }
    fn manifest_put(&mut self, r: &str, _ref: &Reference, _c: &[u8]) -> Result<Digest, StorageError> {
        self.writes.borrow_mut().push(format!("{}:{}", self.name, r));
        Ok(zeros())
    }
    fn manifest_delete(&mut self, _r: &str, _ref: &Reference) -> Result<(), StorageError> {
        Ok(())
    }
    fn list_repos(&mut self) -> Result<Vec<String>, StorageError> {
        Ok(vec![self.name.clone()])
    }
    fn list_tags(&mut self, _r: &str) -> Result<Vec<String>, StorageError> {
        Ok(vec![])
    }
    fn list_manifest_digests(&mut self, _r: &str) -> Result<Vec<Digest>, StorageError> {
        Ok(vec![])
    }
    fn list_all_blobs(&mut self) -> Result<Vec<Digest>, StorageError> {
        Ok(vec![])
    }
}

fn recorded(rules: &[(&str, &Recorder)]) -> RepoRouter<Volume<Recorder>> {
    let mut volumes = Vec::new();
    let mut table = Vec::new();
    for (i, (pattern, r)) in rules.iter().enumerate() {
        volumes.push(Partition { name: r.name.clone(), storage: Volume::new((*r).clone()) });
        table.push(rule(pattern, i));
    }
    RepoRouter::new(volumes, table).ok().unwrap()
}

fn add(router: &mut RepoRouter<Volume<Recorder>>, r: &Recorder) -> Backend {
    Backend::volume(router.add_volume(Partition { name: r.name.clone(), storage: Volume::new(r.clone()) }))
}

#[test]
fn exact_pattern_wins_over_wildcard() {
    let fast = Recorder::new("fast");
    let slow = Recorder::new("slow");
    let mut router = recorded(&[("4.18.2/kernel", &fast), ("*", &slow)]);
    router.blob_write("4.18.2/kernel", &zeros(), b"x").unwrap();
    router.blob_write("4.18.2/system", &zeros(), b"x").unwrap();
    assert_eq!(fast.writes(), vec!["fast:4.18.2/kernel"]);
    assert_eq!(slow.writes(), vec!["slow:4.18.2/system"]);
}

#[test]
fn longest_prefix_wins() {
    let kernel = Recorder::new("kernel");
    let group = Recorder::new("group");
    let global = Recorder::new("global");
    let mut router =
        recorded(&[("4.18.2/kernel", &kernel), ("4.18.2/*", &group), ("*", &global)]);
    router.blob_write("4.18.2/kernel", &zeros(), b"x").unwrap();
    router.blob_write("4.18.2/system", &zeros(), b"x").unwrap();
    router.blob_write("other/repo", &zeros(), b"x").unwrap();
    assert_eq!(kernel.writes(), vec!["kernel:4.18.2/kernel"]);
    assert_eq!(group.writes(), vec!["group:4.18.2/system"]);
    assert_eq!(global.writes(), vec!["global:other/repo"]);
}

#[test]
fn repoint_swaps_backend_for_existing_pattern() {
    let original = Recorder::new("original");
    let replacement = Recorder::new("replacement");
    let mut router = recorded(&[("*", &original)]);
    router.blob_write("foo/bar", &zeros(), b"x").unwrap();
    assert_eq!(original.writes(), vec!["original:foo/bar"]);

    let backend = add(&mut router, &replacement);
    let n = router.repoint("*", backend);
    assert_eq!(n, 1);

    router.blob_write("foo/bar", &zeros(), b"x").unwrap();
    assert_eq!(replacement.writes(), vec!["replacement:foo/bar"]);
    assert_eq!(original.writes(), vec!["original:foo/bar"]);
}

#[test]
fn upsert_adds_new_rule_or_swaps_existing() {
    let a = Recorder::new("a");
    let b = Recorder::new("b");
    let mut router = recorded(&[("*", &a)]);

    let backend = add(&mut router, &b);
    let added = router.upsert("prod/*".to_string(), backend);
    assert!(added);

    router.blob_write("prod/svc", &zeros(), b"x").unwrap();
    router.blob_write("dev/svc", &zeros(), b"x").unwrap();
    assert_eq!(b.writes(), vec!["b:prod/svc"]);
    assert_eq!(a.writes(), vec!["a:dev/svc"]);

    let c = Recorder::new("c");
    let backend = add(&mut router, &c);
    let added = router.upsert("prod/*".to_string(), backend);
    assert!(!added);
    assert_eq!(router.rules().len(), 2);
}

#[test]
fn list_repos_unions_across_backends() {
    let a = Recorder::new("alpha");
    let b = Recorder::new("beta");
    let mut router = recorded(&[("alpha/*", &a), ("*", &b)]);
    let repos = router.list_repos().unwrap();
    assert_eq!(repos, vec!["alpha", "beta"]);
}

#[test]
fn empty_rules_rejected() {
    let r = RepoRouter::<Store>::new(vec![], vec![]);
    assert!(matches!(r, Err(StorageError::Invalid(_))));
}

#[test]
fn upsert_swaps_every_rule_with_the_pattern() {
    let (a, b, c) = (store(), store(), store());
    let mut r = RepoRouter::new(
        vec![part("a", &a), part("b", &b), part("c", &c)],
        vec![rule("data/*", 0), rule("data/*", 1)],
    )
    .ok()
    .unwrap();
    assert!(!r.upsert("data/*".to_string(), Backend::volume(2)));
    let chains: Vec<Vec<usize>> = r.rules().iter().map(|x| x.backend.chain.clone()).collect();
    assert_eq!(chains, vec![vec![2], vec![2]]);
}

#[test]
fn patterns_on_the_same_directory_share_a_volume() {
    let (a, b) = (store(), store());
    let mounts = vec![
        ("data/*".to_string(), part("/a", &a)),
        ("x/*".to_string(), part("/b", &b)),
        ("*".to_string(), part("/a", &a)),
    ];
    let r = RepoRouter::assemble(mounts).ok().unwrap();
    let names: Vec<&str> = r.volumes.iter().map(|v| v.name.as_str()).collect();
    assert_eq!(names, vec!["/a", "/b"]);
    let chains: Vec<Vec<usize>> = r.rules().iter().map(|x| x.backend.chain.clone()).collect();
    assert_eq!(chains, vec![vec![0], vec![1], vec![0]]);
    assert!(RepoRouter::<Store>::assemble(vec![]).is_err());
}

#[test]
fn ties_go_to_the_earlier_rule_and_strangers_to_the_last() {
    let a = Recorder::new("a");
    let b = Recorder::new("b");
    let mut router = recorded(&[("x/?", &a), ("x/*", &b)]);
    router.blob_write("x/y", &zeros(), b"x").unwrap();
    router.blob_write("elsewhere", &zeros(), b"x").unwrap();
    assert_eq!(a.writes(), vec!["a:x/y"]);
    assert_eq!(b.writes(), vec!["b:elsewhere"]);
    assert!(router.backend_for_pattern("x/*").unwrap().same(&Backend::volume(1)));
    assert!(router.backend_for_pattern("nope").is_none());
}

// ---- Garbage collection ---------------------------------------------------

#[test]
fn collection_keeps_what_is_referenced() {
    let mut s = store();
    let (config, layer, loose) = (b"config", b"layer", b"loose");
    for b in [&config[..], &layer[..], &loose[..]] {
        s.blob_write("a", &digest_of(b), b).unwrap();
    }
    s.manifest_put("a", &tag("v1"), &manifest(&digest_of(config), &[&digest_of(layer)], &[])).unwrap();
    let report = gc::run(&mut s).unwrap();
    assert_eq!(report.repos_scanned, 1);
    assert_eq!(report.manifests_scanned, 1);
    // The manifest itself counts.
    assert_eq!(report.reachable_blobs, 3);
    assert_eq!(report.deleted_blobs, 1);
    assert_eq!(report.deleted_bytes, loose.len() as u64);
    assert!(s.blob_exists("a", &digest_of(layer)).unwrap());
    assert!(!s.blob_exists("a", &digest_of(loose)).unwrap());
    let report = gc::run(&mut s).unwrap();
    assert_eq!(report.deleted_blobs, 0);
}

#[test]
fn collection_over_a_router_deletes_every_copy() {
    let (mut a, mut b) = (store(), store());
    let d = digest_of(b"junk");
    a.manifest_put("a/x", &tag("v1"), b"{}").unwrap();
    b.manifest_put("y", &tag("v1"), b"{}").unwrap();
    a.blob_write("a/x", &d, b"junk").unwrap();
    b.blob_write("y", &d, b"junk").unwrap();
    let mut r = RepoRouter::new(
        vec![part("a", &a), part("b", &b)],
        vec![rule("a/*", 0), rule("*", 1)],
    )
    .ok()
    .unwrap();
    let report = gc::run(&mut r).ok().unwrap();
    assert_eq!((report.deleted_blobs, report.deleted_bytes), (2, 8));
    assert_eq!(r.list_all_blobs().unwrap().len(), 0);
    // So is a copy on the volume of whatever no repository leads to.
    let (mut a, mut b) = (store(), store());
    a.manifest_put("a/x", &tag("v1"), b"{}").unwrap();
    a.blob_write("a/x", &d, b"junk").unwrap();
    b.blob_write("y", &d, b"junk").unwrap();
    let mut r = RepoRouter::new(
        vec![part("a", &a), part("b", &b)],
        vec![rule("a/*", 0), rule("*", 1)],
    )
    .ok()
    .unwrap();
    assert_eq!(gc::run(&mut r).ok().unwrap().deleted_blobs, 2);
    assert_eq!(r.list_all_blobs().unwrap().len(), 0);
    // A blob that no repository leads to is deleted with none named.
    let mut lone = store();
    lone.blob_write("", &d, b"junk").unwrap();
    let report = gc::run(&mut lone).ok().unwrap();
    assert_eq!((report.deleted_blobs, report.deleted_bytes), (1, 4));
}

#[test]
fn a_copy_that_breaks_off_shows_no_manifest_without_its_blobs() {
    let (mut src, mut dst) = (store(), store());
    let (config, layer) = (digest_of(b"config"), digest_of(b"layer"));
    src.blob_write("r", &config, b"config").unwrap();
    src.blob_write("r", &layer, b"layer").unwrap();
    let m = manifest(&config, &[&layer], &[]);
    let md = src.manifest_put("r", &tag("v1"), &m).unwrap();
    let mut report = MigrateReport::default();
    dst.disk.files.files.frozen = true;
    assert!(migrate::copy_repo(&mut src, &mut dst, "r", &mut report).is_err());
    assert_eq!((report.blobs_copied, report.manifests_copied), (0, 0));
    dst.disk.files.files.frozen = false;
    // What was copied before the failure is counted.
    let mut half = again(&dst);
    half.disk.files.files.no_manifests = true;
    assert!(migrate::copy_repo(&mut src, &mut half, "r", &mut report).is_err());
    assert_eq!((report.blobs_copied, report.bytes_copied, report.manifests_copied), (2, 11, 0));
    assert!(matches!(dst.manifest_get("r", &Reference::Digest(md)), Err(StorageError::NotFound)));
    migrate::copy_repo(&mut src, &mut dst, "r", &mut report).ok().unwrap();
    assert_eq!((report.blobs_copied, report.manifests_copied), (2, 1));
    migrate::copy_repo(&mut src, &mut dst, "r", &mut report).ok().unwrap();
    assert_eq!((report.blobs_copied, report.manifests_copied), (2, 1));
    assert_eq!(dst.manifest_get("r", &tag("v1")).unwrap().content, m);
}

#[test]
fn used_bytes_are_those_of_all_blobs() {
    let mut s = store();
    s.blob_write("a", &digest_of(b"12345"), b"12345").unwrap();
    s.blob_write("b", &digest_of(b"678"), b"678").unwrap();
    assert_eq!(storage::used_bytes(&mut s).unwrap(), 8);
}

// ---- Replication ----------------------------------------------------------

#[test]
fn replication_copies_an_index_and_its_children() {
    let (mut multi, mut a, mut b) = make_multi();
    let (config, layer) = (b"config", b"layer");
    a.blob_write("r", &digest_of(config), config).unwrap();
    a.blob_write("r", &digest_of(layer), layer).unwrap();
    let child = manifest(&digest_of(config), &[&digest_of(layer)], &[]);
    let child_digest = a.manifest_put("r", &Reference::Digest(digest_of(&child)), &child).unwrap();
    let index = format!(
        r#"{{"schemaVersion":2,"manifests":[{{"mediaType":"m","digest":"{}","size":1}}]}}"#,
        child_digest.to_string()
    );
    a.manifest_put("r", &tag("v1"), index.as_bytes()).unwrap();

    let all = ReplicateConfig { tag_glob: None };
    let report = replicate::run(&mut multi, &all).unwrap();
    assert_eq!(report.partitions_scanned, 1);
    assert_eq!(report.blobs_copied, 2);
    assert_eq!(report.bytes_copied, (config.len() + layer.len()) as u64);
    assert_eq!(b.manifest_get("r", &tag("v1")).unwrap().content, index.as_bytes());
    assert_eq!(b.manifest_get("r", &Reference::Digest(child_digest)).unwrap().content, child);
    assert_eq!(b.blob_read("r", &digest_of(layer)).unwrap(), layer);

    let report = replicate::run(&mut multi, &all).unwrap();
    assert_eq!(report.blobs_copied, 0);
    assert_eq!(report.manifests_copied, 0);
}

// ---- Migration ------------------------------------------------------------

/// A config, a layer and a manifest tagged `latest`.
fn seed_image(s: &mut Store, repo: &str) -> (Digest, Digest) {
    let config = br#"{"architecture":"amd64","os":"linux"}"#;
    let layer = b"a fake layer's worth of bytes";
    let (config_d, layer_d) = (digest_of(config), digest_of(layer));
    s.blob_write(repo, &config_d, config).unwrap();
    s.blob_write(repo, &layer_d, layer).unwrap();
    s.manifest_put(repo, &tag("latest"), &manifest(&config_d, &[&layer_d], &[])).unwrap();
    (config_d, layer_d)
}

fn router_with(data: &Store, rest: &Store, new: &Store) -> RepoRouter<Store> {
    RepoRouter::new(
        vec![part("data", data), part("rest", rest), part("new", new)],
        vec![rule("data/*", 0), rule("*", 1)],
    )
    .ok()
    .unwrap()
}

const NEW: usize = 2;

#[test]
fn migrate_copies_class_and_cuts_over() {
    let (mut old, mut new, rest) = (store(), store(), store());
    let (config_d, layer_d) = seed_image(&mut old, "data/vol1");
    let mut router = router_with(&old, &rest, &new);

    let report = migrate::run(&mut router, "data/*", NEW, false).unwrap();
    assert!(report.cutover);
    assert_eq!(report.repos_migrated, 1);
    assert_eq!(report.blobs_copied, 2);
    assert!(report.manifests_copied >= 1);

    assert!(new.blob_exists("data/vol1", &config_d).unwrap());
    assert!(new.blob_exists("data/vol1", &layer_d).unwrap());
    assert!(new.manifest_get("data/vol1", &tag("latest")).is_ok());
    assert!(router.backend_for("data/vol1").same(&Backend::volume(NEW)));
    assert!(old.blob_exists("data/vol1", &config_d).unwrap());
}

#[test]
fn migrate_is_idempotent() {
    let (mut old, new, rest) = (store(), store(), store());
    seed_image(&mut old, "data/vol1");
    let mut router = router_with(&old, &rest, &new);
    migrate::run(&mut router, "data/*", NEW, false).unwrap();
    let again = migrate::run(&mut router, "data/*", NEW, false).unwrap();
    assert_eq!(again.blobs_copied, 0);
    assert_eq!(again.manifests_copied, 0);
}

#[test]
fn migrate_with_drain_reclaims_old_volume() {
    let (mut old, mut new, rest) = (store(), store(), store());
    let (config_d, layer_d) = seed_image(&mut old, "data/vol1");
    let mut router = router_with(&old, &rest, &new);

    let report = migrate::run(&mut router, "data/*", NEW, true).unwrap();
    assert!(report.cutover);
    assert_eq!(report.blobs_purged, 2, "both blobs swept from old");
    assert!(report.bytes_purged > 0);

    assert!(new.blob_exists("data/vol1", &config_d).unwrap());
    assert!(!old.blob_exists("data/vol1", &config_d).unwrap());
    assert!(!old.blob_exists("data/vol1", &layer_d).unwrap());
    assert!(old.manifest_get("data/vol1", &tag("latest")).is_err());
}

#[test]
fn migrate_unknown_pattern_errors() {
    let (old, new) = (store(), store());
    let mut router = RepoRouter::single(part("old", &old));
    let at = router.add_volume(part("new", &new));
    let r = migrate::run(&mut router, "data/*", at, false);
    match r {
        Err(StorageError::Invalid(m)) => assert_eq!(m, "no route rule with pattern \"data/*\""),
        _ => panic!("not refused"),
    }
}

#[test]
fn migrate_leaves_more_specific_rules_alone() {
    let (mut old, mut new, mut pinned) = (store(), store(), store());
    let (moved_cfg, _) = seed_image(&mut old, "data/vol1");
    seed_image(&mut pinned, "data/keep");
    let mut router = RepoRouter::new(
        vec![part("pinned", &pinned), part("old", &old), part("new", &new)],
        vec![rule("data/keep", 0), rule("data/*", 1), rule("*", 1)],
    )
    .ok()
    .unwrap();

    let report = migrate::run(&mut router, "data/*", 2, false).unwrap();
    assert_eq!(report.repos_migrated, 1);
    assert!(new.blob_exists("data/vol1", &moved_cfg).unwrap());
    assert!(new.manifest_get("data/vol1", &tag("latest")).is_ok(), "data/vol1 manifest migrated to new");
    assert!(
        new.manifest_get("data/keep", &tag("latest")).is_err(),
        "data/keep manifest must NOT be on new"
    );
    assert!(router.backend_for("data/keep").same(&Backend::volume(0)));
}

#[test]
fn what_clients_write_during_a_migration_is_kept() {
    let (mut old, rest, new) = (store(), store(), store());
    seed_image(&mut old, "data/vol1");
    let mut r = RepoRouter::new(
        vec![part("old", &old), part("rest", &rest)],
        vec![rule("data/*", 0), rule("*", 1)],
    )
    .ok()
    .unwrap();
    let overlaid = migrate::start_at(&mut r, part("new", &new), "data/*", true).ok().unwrap().unwrap();
    let d = digest_of(b"meanwhile");
    r.blob_write("data/vol2", &d, b"meanwhile").unwrap();
    let m = r.manifest_put("data/vol2", &tag("v1"), &manifest(&d, &[], &[])).unwrap();
    let filled = overlaid.fill(&mut r).ok().unwrap();
    assert!(!filled.report.cutover);
    // The rules may change meanwhile.
    r.upsert("other/*".to_string(), Backend::volume(1));
    let cut = filled.cut_over(&mut r);
    assert_eq!(r.backend_for("data/vol2").chain, vec![2]);
    let report = cut.reclaim(&mut r).ok().unwrap();
    assert!(report.cutover);
    assert_eq!((report.repos_migrated, report.blobs_copied, report.blobs_purged), (1, 2, 2));
    assert_eq!(r.blob_read("data/vol2", &d).unwrap(), b"meanwhile");
    assert!(r.manifest_get("data/vol2", &Reference::Digest(m)).is_ok());
    assert!(r.manifest_get("data/vol1", &tag("latest")).is_ok());
    assert!(migrate::start_at(&mut r, part("new", &new), "data/*", true).ok().unwrap().is_none());
    assert!(migrate::start_at(&mut r, part("new", &new), "none/*", true).is_err());
    assert_eq!(r.volumes.len(), 3);
}

#[test]
fn nothing_is_missed_while_a_migration_runs() {
    let (mut old, new, rest) = (store(), store(), store());
    let (config_d, _) = seed_image(&mut old, "data/vol1");
    let mut router = router_with(&old, &rest, &new);
    let m = migrate::begin(&mut router, "data/*", NEW).unwrap().unwrap();
    // Before a byte is copied, everything is there.
    assert!(router.manifest_get("data/vol1", &tag("latest")).is_ok());
    assert!(router.blob_exists("data/vol1", &config_d).unwrap());
    // A write lands on the new volume, and both are listed.
    router.manifest_put("data/vol2", &tag("v1"), b"{}").unwrap();
    assert_eq!(router.list_repos().unwrap(), vec!["data/vol1", "data/vol2"]);
    let mut report = MigrateReport::default();
    migrate::backfill(&mut router, &m, &mut report).unwrap();
    assert!(router.manifest_get("data/vol1", &tag("latest")).is_ok());
    migrate::finish(&mut router, &m);
    assert!(router.manifest_get("data/vol1", &tag("latest")).is_ok());
    assert!(router.manifest_get("data/vol2", &tag("v1")).is_ok());
}

// ---- Quotas ---------------------------------------------------------------

fn quota_storage(max_bytes: u64) -> QuotaStorage<Store> {
    let (data, other) = (store(), store());
    let router = RepoRouter::new(
        vec![part("data", &data), part("other", &other)],
        vec![rule("data/*", 0), rule("*", 1)],
    )
    .ok()
    .unwrap();
    let quota = Quota { pattern: "data/*".to_string(), max_bytes };
    QuotaStorage::new(router, vec![quota], 30_000)
}

fn blob(n: usize, fill: u8) -> Vec<u8> {
    vec![fill; n]
}

#[test]
fn write_under_quota_succeeds_over_quota_rejected() {
    let mut qs = quota_storage(100);
    let b1 = blob(60, 1);
    qs.blob_write("data/vol1", &digest_of(&b1), &b1).unwrap();
    let b2 = blob(60, 2);
    let err = qs.blob_write("data/vol2", &digest_of(&b2), &b2).unwrap_err();
    assert!(matches!(err, StorageError::QuotaExceeded(_)));
}

#[test]
fn idempotent_repush_of_existing_blob_not_rejected() {
    let mut qs = quota_storage(100);
    let b = blob(90, 7);
    qs.blob_write("data/vol1", &digest_of(&b), &b).unwrap();
    qs.blob_write("data/vol1", &digest_of(&b), &b).unwrap();
}

#[test]
fn unmatched_repo_is_unlimited() {
    let mut qs = quota_storage(100);
    let b = blob(500, 3);
    qs.blob_write("other/thing", &digest_of(&b), &b).unwrap();
}

#[test]
fn report_shows_usage_against_limit() {
    let mut qs = quota_storage(1000);
    let b = blob(250, 9);
    qs.blob_write("data/vol1", &digest_of(&b), &b).unwrap();
    let report = qs.report();
    assert_eq!(report.len(), 1);
    assert_eq!(report[0].pattern, "data/*");
    assert_eq!(report[0].max_bytes, 1000);
    assert_eq!(report[0].used_bytes, Some(250));
}

#[test]
fn an_upload_over_quota_is_refused_at_its_end() {
    let mut qs = quota_storage(100);
    let b = blob(101, 4);
    let up = qs.upload_create("data/vol1").unwrap();
    qs.upload_append("data/vol1", up.id, &b).unwrap();
    let err = qs.upload_finalize("data/vol1", up.id, &digest_of(&b)).unwrap_err();
    assert!(matches!(err, StorageError::QuotaExceeded(_)));
    assert!(!qs.blob_exists("data/vol1", &digest_of(&b)).unwrap());
}

#[test]
fn writes_under_a_quota_land_on_the_volume_of_their_class() {
    let mut qs = quota_storage(100);
    let (mut data, mut other) =
        (again(&qs.router.volumes[0].storage), again(&qs.router.volumes[1].storage));
    let (small, large) = (blob(50, 1), blob(60, 2));
    let (sd, ld) = (digest_of(&small), digest_of(&large));
    qs.blob_write("data/vol1", &sd, &small).unwrap();
    assert!(data.blob_exists("", &sd).unwrap());
    assert!(!other.blob_exists("", &sd).unwrap());
    assert_eq!(qs.report()[0].used_bytes, Some(50));
    // The same again is no new blob; one too many reaches no volume.
    qs.blob_write("data/vol2", &sd, &small).unwrap();
    assert_eq!(qs.report()[0].used_bytes, Some(50));
    let e = qs.blob_write("data/vol1", &ld, &large).unwrap_err();
    assert_eq!(
        e.to_string(),
        "quota exceeded: class \"data/*\": 50 B used + 60 B incoming exceeds limit 100 B"
    );
    assert!(!data.blob_exists("", &ld).unwrap());
    assert!(!other.blob_exists("", &ld).unwrap());
    // A class without a quota takes it.
    qs.blob_write("misc/x", &ld, &large).unwrap();
    assert!(other.blob_exists("", &ld).unwrap());
    assert_eq!(qs.report()[0].used_bytes, Some(50));
}

#[test]
fn a_store_with_quotas_answers_as_its_router() {
    let mut qs = quota_storage(1000);
    let mut data = again(&qs.router.volumes[0].storage);
    let d = digest_of(b"layer");
    qs.blob_write("data/a", &d, b"layer").unwrap();
    let m = qs.manifest_put("data/a", &tag("v1"), &manifest(&d, &[], &[])).unwrap();
    assert_eq!(qs.blob_size("data/a", &d).unwrap(), 5);
    assert_eq!(qs.blob_read("data/a", &d).unwrap(), b"layer");
    assert!(qs.manifest_get("data/a", &Reference::Digest(m.clone())).is_ok());
    assert_eq!(qs.list_repos().unwrap(), vec!["data/a"]);
    assert_eq!(qs.list_tags("data/a").unwrap(), vec!["v1"]);
    assert_eq!(qs.list_manifest_digests("data/a").unwrap().len(), 1);
    assert_eq!(qs.list_all_blobs().unwrap().len(), 1);
    let up = qs.upload_create("data/a").unwrap();
    assert_eq!(qs.upload_append("data/a", up.id, b"xy").unwrap().offset, 2);
    assert_eq!(data.upload_status("data/a", up.id).unwrap().offset, 2);
    qs.upload_cancel("data/a", up.id).unwrap();
    assert!(qs.upload_status("data/a", up.id).is_err());
    qs.manifest_delete("data/a", &Reference::Digest(m)).unwrap();
    qs.blob_delete("data/a", &d).unwrap();
    assert!(!data.blob_exists("data/a", &d).unwrap());
    assert!(!qs.blob_exists("data/a", &d).unwrap());
}

#[test]
fn a_collection_over_partitions_sweeps_all_of_them() {
    let (mut multi, mut a, mut b) = make_multi();
    let (config, _) = seed_image(&mut a, "x/y");
    let stray = digest_of(b"stray");
    a.blob_write("x/y", &stray, b"stray").unwrap();
    b.blob_write("x/y", &stray, b"stray").unwrap();
    multi.begin();
    let report = gc::run(&mut multi).ok().unwrap();
    // The manifest, its config and its layer are in use.
    assert_eq!(report.reachable_blobs, 3);
    assert_eq!(report.deleted_blobs, 1);
    assert!(!a.blob_exists("", &stray).unwrap());
    assert!(!b.blob_exists("", &stray).unwrap());
    assert!(a.blob_exists("", &config).unwrap());
}

#[test]
fn a_migration_checks_that_its_rule_is_there() {
    let (mut old, rest, new) = (store(), store(), store());
    seed_image(&mut old, "data/vol1");
    let mut r = router_with(&old, &rest, &new);
    let m = migrate::begin(&mut r, "data/*", NEW).unwrap().unwrap();
    assert!(m.still_fits(&r));
    let other = RepoRouter::new(vec![part("rest", &rest)], vec![rule("*", 0)]).ok().unwrap();
    assert!(!m.still_fits(&other));
    let behind = RepoRouter::new(
        vec![part("old", &old), part("rest", &rest), part("new", &new)],
        vec![rule("*", 1), rule("data/*", 0)],
    )
    .ok()
    .unwrap();
    assert_eq!(m.still_fits(&behind), m.rule == 1);
    let few = RepoRouter::new(vec![part("old", &old)], vec![rule("data/*", 0)]).ok().unwrap();
    assert!(!m.still_fits(&few));
}

#[test]
fn a_drain_keeps_what_other_rules_have_on_the_old_volume() {
    let (mut old, new) = (store(), store());
    let (moved, _) = seed_image(&mut old, "data/vol1");
    let layer = digest_of(b"of another class");
    old.blob_write("misc/x", &layer, b"of another class").unwrap();
    let m = old.manifest_put("misc/x", &tag("v1"), &manifest(&layer, &[], &[])).unwrap();
    let mut r = RepoRouter::new(
        vec![part("old", &old), part("new", &new)],
        vec![rule("data/*", 0), rule("*", 0)],
    )
    .ok()
    .unwrap();
    let report = migrate::run(&mut r, "data/*", 1, true).unwrap();
    assert!(report.cutover);
    assert!(r.manifest_get("data/vol1", &tag("latest")).is_ok());
    assert!(r.blob_exists("data/vol1", &moved).unwrap());
    assert!(r.manifest_get("misc/x", &tag("v1")).is_ok());
    assert!(r.manifest_get("misc/x", &Reference::Digest(m)).is_ok());
    assert_eq!(r.blob_read("misc/x", &layer).unwrap(), b"of another class");
    assert!(old.manifest_get("data/vol1", &tag("latest")).is_err());
}

#[test]
fn a_replica_reads_like_the_primary() {
    let (mut multi, mut a, mut b) = make_multi();
    let (config, _) = seed_image(&mut a, "x/y");
    let none = ReplicateConfig { tag_glob: None };
    let first = replicate::run(&mut multi, &none).ok().unwrap();
    assert_eq!((first.partitions_scanned, first.blobs_copied), (1, 2));
    let there = a.manifest_get("x/y", &tag("latest")).ok().unwrap();
    let here = b.manifest_get("x/y", &tag("latest")).ok().unwrap();
    assert_eq!(here.content, there.content);
    assert_eq!(b.blob_read("", &config).unwrap(), a.blob_read("", &config).unwrap());
    let second = replicate::run(&mut multi, &none).ok().unwrap();
    assert_eq!((second.blobs_copied, second.bytes_copied, second.manifests_copied), (0, 0, 0));
}

#[test]
fn a_repository_copied_twice_is_counted_once() {
    let (mut src, mut dst) = (store(), store());
    seed_image(&mut src, "x/y");
    let mut report = MigrateReport::default();
    migrate::copy_repo(&mut src, &mut dst, "x/y", &mut report).unwrap();
    assert_eq!((report.blobs_copied, report.repos_migrated, report.cutover), (2, 0, false));
    let (blobs, bytes, manifests) =
        (report.blobs_copied, report.bytes_copied, report.manifests_copied);
    migrate::copy_repo(&mut src, &mut dst, "x/y", &mut report).unwrap();
    assert_eq!(
        (report.blobs_copied, report.bytes_copied, report.manifests_copied),
        (blobs, bytes, manifests)
    );
    let there = src.manifest_get("x/y", &tag("latest")).ok().unwrap();
    let here = dst.manifest_get("x/y", &tag("latest")).ok().unwrap();
    assert_eq!(here.content, there.content);
}

#[test]
fn a_collection_over_quotas_sweeps_the_volumes() {
    let mut qs = quota_storage(1000);
    let (mut data, mut other) =
        (again(&qs.router.volumes[0].storage), again(&qs.router.volumes[1].storage));
    let (kept, _) = seed_image(&mut data, "data/vol1");
    seed_image(&mut other, "misc/x");
    let stray = digest_of(b"stray");
    data.blob_write("data/vol1", &stray, b"stray").unwrap();
    other.blob_write("misc/x", &stray, b"stray").unwrap();
    qs.begin();
    let report = gc::run(&mut qs).ok().unwrap();
    assert_eq!(report.repos_scanned, 2);
    assert!(!data.blob_exists("", &stray).unwrap());
    assert!(!other.blob_exists("", &stray).unwrap());
    assert!(data.blob_exists("", &kept).unwrap());
    assert!(!qs.list_all_blobs().unwrap().iter().any(|d| d.to_string() == stray.to_string()));
}
