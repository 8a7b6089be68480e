//! Requests and their answers.

use std::cell::RefCell;
use std::collections::{BTreeMap, HashMap};
use std::rc::Rc;

use base64::Engine;
use rspace_registry::admin;
use rspace_registry::admin::{RepoMigrateRequest, RepoRootRequest, ReplicateRequest};
use rspace_registry::auth::Htpasswd;
use rspace_registry::digest;
use rspace_registry::digest::Digest;
use rspace_registry::error::OciError;
use rspace_registry::fanout::Partition;
use rspace_registry::files::{FileError, Files, Recorded};
use rspace_registry::fs::FsStorage;
use rspace_registry::http::{Body, Method, Peer, Refusal, Response};
use rspace_registry::jobs::Jobs;
use rspace_registry::k8s::Recorded as Recording;
use rspace_registry::k8s::{
    AccessReview, K8sAuth, K8sAuthConfig, ReviewError, Reviewer, TokenVerdict,
};
use rspace_registry::manifest::{Descriptor, Manifest};
use rspace_registry::multi::MultiStore;
use rspace_registry::quota::{Quota, QuotaStorage};
use rspace_registry::repo_router::{Backend, RepoRouter, RouteRule};
use rspace_registry::router;
use rspace_registry::router::{Auth, Features, Payload};
use rspace_registry::storage::{Reference, Storage, StorageError, StoredManifest, UploadStatus};
use serde_json::Value;

/// The files of a directory, in memory. Handles share them.
#[derive(Clone)]
struct MemFs {
    files: Rc<RefCell<BTreeMap<String, Vec<u8>>>>,
}

fn missing() -> FileError {
    FileError { missing: true, read_only: false, text: "no such file".to_string() }
}

impl MemFs {
    fn new() -> MemFs {
        MemFs { files: Rc::new(RefCell::new(BTreeMap::new())) }
    }

    /// The names of the directories and of the files in a directory.
    fn names(&self, dir: &str) -> Result<(Vec<String>, Vec<String>), FileError> {
        let mut dirs: Vec<String> = Vec::new();
        let mut files: Vec<String> = Vec::new();
        let prefix = format!("{}/", dir);
        for path in self.files.borrow().keys() {
            if let Some(rest) = path.strip_prefix(&prefix) {
                match rest.split_once('/') {
                    Some((d, _)) => {
                        if !dirs.contains(&d.to_string()) {
                            dirs.push(d.to_string());
                        }
                    }
                    None => files.push(rest.to_string()),
                }
            }
        }
        if dirs.is_empty() && files.is_empty() {
            return Err(missing());
        }
        Ok((dirs, files))
    }
}

fn descriptor_of(v: &Value) -> Option<Descriptor> {
    Some(Descriptor {
        media_type: v.get("mediaType")?.as_str()?.to_string(),
        digest: Digest::parse(v.get("digest")?.as_str()?).ok()?,
        size: v.get("size")?.as_u64()?,
        artifact_type: None,
        annotations: None,
    })
}

fn descriptors_of(v: Option<&Value>) -> Option<Vec<Descriptor>> {
    match v {
        None => Some(vec![]),
        Some(list) => list.as_array()?.iter().map(descriptor_of).collect(),
    }
}

/// What a manifest references.
fn refs_of(content: &[u8]) -> Option<Manifest> {
    let v: Value = serde_json::from_slice(content).ok()?;
    let text = |k: &str| v.get(k).and_then(|x| x.as_str()).map(|x| x.to_string());
    Some(Manifest {
        media_type: text("mediaType"),
        artifact_type: text("artifactType"),
        config: match v.get("config") {
            None => None,
            Some(d) => Some(descriptor_of(d)?),
        },
        layers: descriptors_of(v.get("layers"))?,
        manifests: descriptors_of(v.get("manifests"))?,
        subject: match v.get("subject") {
            None => None,
            Some(d) => Some(descriptor_of(d)?),
        },
        annotations: v.get("annotations").map(|a| a.to_string()),
    })
}

impl Files for MemFs {
    fn make_dir(&mut self, _path: &str) -> Result<(), FileError> {
        Ok(())
    }

    fn is_dir(&mut self, path: &str) -> bool {
        path.is_empty() || self.names(path).is_ok()
    }

    fn has(&mut self, path: &str) -> Result<bool, FileError> {
        Ok(self.files.borrow().contains_key(path))
    }

    fn size(&mut self, path: &str) -> Result<u64, FileError> {
        Ok(self.read(path)?.len() as u64)
    }

    fn read(&mut self, path: &str) -> Result<Vec<u8>, FileError> {
        self.files.borrow().get(path).cloned().ok_or(missing())
    }

    fn replace(&mut self, path: &str, content: &[u8]) -> Result<(), FileError> {
        self.files.borrow_mut().insert(path.to_string(), content.to_vec());
        Ok(())
    }

    fn create(&mut self, path: &str) -> Result<(), FileError> {
        self.replace(path, &[])
    }

    fn append(&mut self, path: &str, chunk: &[u8]) -> Result<u64, FileError> {
        let mut content = self.read(path)?;
        content.extend_from_slice(chunk);
        self.replace(path, &content)?;
        Ok(content.len() as u64)
    }

    fn rename(&mut self, from: &str, to: &str) -> Result<(), FileError> {
        let content = self.read(from)?;
        self.replace(to, &content)?;
        self.remove(from)
    }

    fn remove(&mut self, path: &str) -> Result<(), FileError> {
        self.files.borrow_mut().remove(path).map(|_| ()).ok_or(missing())
    }

    fn files_in(&mut self, dir: &str) -> Result<Vec<String>, FileError> {
        Ok(self.names(dir)?.1)
    }

    fn dirs_in(&mut self, dir: &str) -> Result<Vec<String>, FileError> {
        Ok(self.names(dir)?.0)
    }

    fn manifest(&mut self, content: &[u8]) -> Option<Manifest> {
        refs_of(content)
    }
}

type Store = FsStorage<Recorded<MemFs>>;

fn store() -> Store {
    FsStorage::new("/mem".to_string(), Recorded::new(MemFs::new())).unwrap()
}

/// Another handle on the same files.
fn again(s: &Store) -> Store {
    FsStorage::over(s.root().to_string(), Recorded::new(s.disk.files.files.clone()))
}

fn part(name: &str, s: &Store) -> Partition<Store> {
    Partition { name: name.to_string(), storage: again(s) }
}

fn tag(t: &str) -> Reference {
    Reference::Tag(t.to_string())
}

// ---- Requests -------------------------------------------------------------

struct Answer {
    status: u16,
    headers: Vec<(String, String)>,
    body: Body,
    error: Option<OciError>,
}

impl Answer {
    fn header(&self, name: &str) -> Option<&str> {
        self.headers.iter().find(|(k, _)| k == name).map(|(_, v)| v.as_str())
    }

    fn bytes(&self) -> &[u8] {
        match &self.body {
            Body::Bytes(b) => b,
            Body::Text(s) => s.as_bytes(),
            _ => panic!("no bytes"),
        }
    }

    fn code(&self) -> &str {
        self.error.as_ref().map(|e| e.code.as_str()).unwrap_or("")
    }
}

fn refused(x: Refusal) -> Answer {
    Answer { status: x.error.status, headers: x.headers, body: Body::Empty, error: Some(x.error) }
}

fn outcome(r: Result<Response, OciError>) -> Answer {
    match r {
        Ok(x) => Answer { status: x.status, headers: x.headers, body: x.body, error: None },
        Err(e) => Answer { status: e.status, headers: vec![], body: Body::Empty, error: Some(e) },
    }
}

const PLAIN: Features = Features { admin: true, multi: false, router: false, quota: false, token: false };

fn target(t: &str) -> (String, Option<String>) {
    match t.split_once('?') {
        Some((p, q)) => (p.to_string(), Some(q.to_string())),
        None => (t.to_string(), None),
    }
}

fn send<S: Storage>(s: &mut S, method: Method, to: &str, body: &[u8], content_type: Option<&str>) -> Answer {
    let (path, query) = target(to);
    let route = router::route(method, &path, &query, PLAIN);
    let payload = Payload {
        content_type: content_type.map(|c| c.to_string()),
        body: body.to_vec(),
        refs: refs_of(body),
    };
    outcome(router::dispatch(s, route, payload).expect("a route of the registry"))
}

fn sha(b: &[u8]) -> String {
    digest::sha256_digest(b).to_string()
}

const OCI: &str = "application/vnd.oci.image.manifest.v1+json";
const OCTETS: &str = "application/octet-stream";

fn entry(media: &str, digest: &str, size: usize) -> String {
    format!(r#"{{"mediaType":"{}","digest":"{}","size":{}}}"#, media, digest, size)
}

#[test]
fn version_check() {
    let mut s = store();
    let a = send(&mut s, Method::Get, "/v2/", b"", None);
    assert_eq!(a.status, 200);
    assert_eq!(a.bytes(), b"{}");
    assert_eq!(a.header("docker-distribution-api-version"), Some("registry/2.0"));
}

#[test]
fn full_push_pull_roundtrip() {
    let mut s = store();
    let repo = "library/alpine";
    let layer = b"layer-data-hello-world";
    let layer_digest = sha(layer);
    let config =
        br#"{"architecture":"amd64","os":"linux","rootfs":{"type":"layers","diff_ids":[]}}"#;
    let config_digest = sha(config);

    // The layer in chunks.
    let a = send(&mut s, Method::Post, &format!("/v2/{}/blobs/uploads", repo), b"", None);
    assert_eq!(a.status, 202);
    assert_eq!(a.header("range"), Some("0-0"));
    let location = a.header("location").unwrap().to_string();
    let mid = layer.len() / 2;
    let a = send(&mut s, Method::Patch, &location, &layer[..mid], Some(OCTETS));
    assert_eq!(a.status, 202);
    assert_eq!(a.header("range"), Some(format!("0-{}", mid - 1).as_str()));
    let a = send(&mut s, Method::Get, &location, b"", None);
    assert_eq!(a.status, 204);
    let put = format!("{}?digest={}", location, layer_digest);
    let a = send(&mut s, Method::Put, &put, &layer[mid..], Some(OCTETS));
    assert_eq!(a.status, 201, "finalise should 201");
    assert_eq!(a.header("docker-content-digest"), Some(layer_digest.as_str()));

    // The config in one go.
    let to = format!("/v2/{}/blobs/uploads?digest={}", repo, config_digest);
    assert_eq!(send(&mut s, Method::Post, &to, config, Some(OCTETS)).status, 201);

    for d in [&layer_digest, &config_digest] {
        let a = send(&mut s, Method::Head, &format!("/v2/{}/blobs/{}", repo, d), b"", None);
        assert_eq!(a.status, 200, "HEAD blob {}", d);
        assert!(a.header("docker-content-digest").is_some());
        assert!(matches!(a.body, Body::Empty));
    }

    // A manifest that references them.
    let m = format!(
        r#"{{"schemaVersion":2,"mediaType":"{}","config":{},"layers":[{}]}}"#,
        OCI,
        entry("application/vnd.oci.image.config.v1+json", &config_digest, config.len()),
        entry("application/vnd.oci.image.layer.v1.tar+gzip", &layer_digest, layer.len())
    )
    .into_bytes();
    let manifest_digest = sha(&m);
    let a = send(&mut s, Method::Put, &format!("/v2/{}/manifests/v1", repo), &m, Some(OCI));
    assert_eq!(a.status, 201);
    assert_eq!(a.header("docker-content-digest"), Some(manifest_digest.as_str()));

    for reference in ["v1", manifest_digest.as_str()] {
        let a = send(&mut s, Method::Get, &format!("/v2/{}/manifests/{}", repo, reference), b"", None);
        assert_eq!(a.status, 200);
        assert_eq!(a.bytes(), m);
        assert_eq!(a.header("content-type"), Some(OCI));
    }

    let a = send(&mut s, Method::Get, &format!("/v2/{}/tags/list", repo), b"", None);
    assert_eq!(a.status, 200);
    match a.body {
        Body::Tags { name, tags } => {
            assert_eq!(name, repo);
            assert_eq!(tags, vec!["v1"]);
        }
        _ => panic!("no tags"),
    }
    let a = send(&mut s, Method::Get, "/v2/_catalog", b"", None);
    match a.body {
        Body::Catalog(repos) => assert_eq!(repos, vec![repo]),
        _ => panic!("no catalog"),
    }

    // A signature that refers to the manifest.
    let signature = "application/vnd.example.signature.v1+json";
    let r = format!(
        r#"{{"schemaVersion":2,"mediaType":"{}","artifactType":"{}","config":{},"layers":[{}],"subject":{}}}"#,
        OCI,
        signature,
        entry("application/vnd.oci.empty.v1+json", &config_digest, config.len()),
        entry(signature, &layer_digest, layer.len()),
        entry(OCI, &manifest_digest, m.len())
    )
    .into_bytes();
    let ref_digest = sha(&r);
    let a = send(&mut s, Method::Put, &format!("/v2/{}/manifests/{}", repo, ref_digest), &r, Some(OCI));
    assert_eq!(a.status, 201);

    let base = format!("/v2/{}/referrers/{}", repo, manifest_digest);
    let a = send(&mut s, Method::Get, &base, b"", None);
    assert_eq!(a.status, 200);
    match &a.body {
        Body::Referrers(list) => {
            assert_eq!(list.len(), 1);
            assert_eq!(list[0].digest, ref_digest);
            assert_eq!(list[0].artifact_type.as_deref(), Some(signature));
            assert_eq!(list[0].size, r.len());
        }
        _ => panic!("no referrers"),
    }
    let a = send(
        &mut s,
        Method::Get,
        &format!("{}?artifactType=application/vnd.example.signature.v1%2Bjson", base),
        b"",
        None,
    );
    assert!(matches!(&a.body, Body::Referrers(list) if list.len() == 1));
    assert!(a.header("oci-filters-applied").is_none());
    let to = format!("{}?artifactType=application/vnd.nope.v1%2Bjson", base);
    let a = send(&mut s, Method::Get, &to, b"", None);
    assert_eq!(a.status, 200);
    assert!(matches!(&a.body, Body::Referrers(list) if list.is_empty()));
    assert_eq!(a.header("oci-filters-applied"), Some("artifactType"));

    // Everything is reachable.
    let report = admin::gc_run(&mut s).ok().unwrap();
    assert_eq!(report.deleted_blobs, 0);
    assert!(report.reachable_blobs >= 2);

    for reference in ["v1", manifest_digest.as_str(), ref_digest.as_str()] {
        let a = send(&mut s, Method::Delete, &format!("/v2/{}/manifests/{}", repo, reference), b"", None);
        assert_eq!(a.status, 202);
    }
    let report = admin::gc_run(&mut s).ok().unwrap();
    assert!(report.deleted_blobs >= 2);
}

#[test]
fn missing_blob_returns_404_oci_error() {
    let mut s = store();
    let to = format!("/v2/x/blobs/sha256:{}", "0".repeat(64));
    let a = send(&mut s, Method::Get, &to, b"", None);
    assert_eq!(a.status, 404);
    assert_eq!(a.code(), "BLOB_UNKNOWN");
}

#[test]
fn rejects_bad_repo_name() {
    let mut s = store();
    let a = send(&mut s, Method::Get, "/v2/UPPERCASE/tags/list", b"", None);
    assert_eq!(a.status, 400);
    assert_eq!(a.code(), "NAME_INVALID");
}

#[test]
fn cross_repo_mount_returns_201_immediately() {
    let mut s = store();
    let blob = b"shared-blob";
    let d = sha(blob);
    let a = send(&mut s, Method::Post, &format!("/v2/a/blobs/uploads?digest={}", d), blob, Some(OCTETS));
    assert_eq!(a.status, 201);
    let a = send(&mut s, Method::Post, &format!("/v2/b/blobs/uploads?mount={}&from=a", d), b"", None);
    assert_eq!(a.status, 201, "mount should 201");
    assert_eq!(a.header("docker-content-digest"), Some(d.as_str()));
}

#[test]
fn mount_copies_between_volumes() {
    let (one, two) = (store(), store());
    let mut router = RepoRouter::new(
        vec![part("one", &one), part("two", &two)],
        vec![rule("a/*", 0), rule("*", 1)],
    )
    .ok()
    .unwrap();
    let blob = b"moves over";
    let d = sha(blob);
    let to = format!("/v2/a/x/blobs/uploads?digest={}", d);
    assert_eq!(send(&mut router, Method::Post, &to, blob, None).status, 201);
    let to = format!("/v2/b/blobs/uploads?mount={}&from=a/x", d);
    assert_eq!(send(&mut router, Method::Post, &to, b"", None).status, 201);
    assert!(again(&two).blob_exists("b", &digest::sha256_digest(blob)).unwrap());
    // From nowhere, an upload begins instead.
    let missing = sha(b"nowhere");
    let to = format!("/v2/b/blobs/uploads?mount={}&from=a/x", missing);
    assert_eq!(send(&mut router, Method::Post, &to, b"", None).status, 202);
}

#[test]
fn refused_requests() {
    let mut s = store();
    let a = send(&mut s, Method::Get, "/v2/nobody/tags/list", b"", None);
    assert_eq!((a.status, a.code()), (404, "NAME_UNKNOWN"));
    let a = send(&mut s, Method::Get, "/v2/a/manifests/v1", b"", None);
    assert_eq!((a.status, a.code()), (404, "MANIFEST_UNKNOWN"));
    let a = send(&mut s, Method::Put, "/v2/a/manifests/v1", b"not json", None);
    assert_eq!((a.status, a.code()), (400, "MANIFEST_INVALID"));
    let zeros = format!("sha256:{}", "0".repeat(64));
    let a = send(&mut s, Method::Put, &format!("/v2/a/manifests/{}", zeros), b"{}", None);
    assert_eq!((a.status, a.code()), (400, "DIGEST_INVALID"));
    let a = send(&mut s, Method::Get, "/v2/a/blobs/nodigest", b"", None);
    assert_eq!((a.status, a.code()), (400, "DIGEST_INVALID"));
    let a = send(&mut s, Method::Delete, &format!("/v2/a/blobs/{}", zeros), b"", None);
    assert_eq!((a.status, a.code()), (404, "BLOB_UNKNOWN"));
    let gone = "/v2/a/blobs/uploads/00000000-0000-0000-0000-000000000000";
    for m in [Method::Get, Method::Patch, Method::Delete] {
        let a = send(&mut s, m, gone, b"x", None);
        assert_eq!((a.status, a.code()), (404, "BLOB_UPLOAD_UNKNOWN"));
    }
    let a = send(&mut s, Method::Put, gone, b"", None);
    assert_eq!((a.status, a.code()), (400, "DIGEST_INVALID"));
    let a = send(&mut s, Method::Get, "/v2/a/blobs/uploads/nouuid", b"", None);
    assert_eq!((a.status, a.code()), (400, "BLOB_UPLOAD_INVALID"));
    let to = format!("/v2/a/blobs/uploads?digest={}", zeros);
    let a = send(&mut s, Method::Post, &to, b"other", None);
    assert_eq!((a.status, a.code()), (400, "DIGEST_INVALID"));
    let a = send(&mut s, Method::Patch, "/v2/a/manifests/v1", b"", None);
    assert_eq!((a.status, a.code()), (405, "UNSUPPORTED"));
    let a = send(&mut s, Method::Get, "/v2/a", b"", None);
    assert_eq!((a.status, a.code()), (404, "NAME_UNKNOWN"));
}

#[test]
fn pages_of_the_catalog() {
    let mut s = store();
    for r in ["a", "b", "c"] {
        s.manifest_put(r, &tag("v1"), b"{}").unwrap();
    }
    let a = send(&mut s, Method::Get, "/v2/_catalog?n=2", b"", None);
    assert!(matches!(&a.body, Body::Catalog(v) if *v == vec!["a", "b"]));
    assert_eq!(a.header("link"), Some("</v2/_catalog?n=2&last=b>; rel=\"next\""));
    let a = send(&mut s, Method::Get, "/v2/_catalog?n=2&last=b", b"", None);
    assert!(matches!(&a.body, Body::Catalog(v) if *v == vec!["c"]));
    assert!(a.header("link").is_none());
    for t in ["v2", "v3"] {
        s.manifest_put("a", &tag(t), b"{}").unwrap();
    }
    let a = send(&mut s, Method::Get, "/v2/a/tags/list?n=1", b"", None);
    assert_eq!(a.header("link"), Some("</v2/a/tags/list?n=1&last=v1>; rel=\"next\""));
}

// ---- Partitions -----------------------------------------------------------

fn multi() -> (MultiStore<Store>, Store, Store) {
    let (a, b) = (store(), store());
    let m = MultiStore::new(vec![part("a", &a), part("b", &b)], "a").ok().unwrap();
    (m, a, b)
}

fn push_image<S: Storage>(s: &mut S, repo: &str, t: &str, layer: &[u8]) -> String {
    let config = format!(r#"{{"id":"{}"}}"#, t);
    for bytes in [layer, config.as_bytes()] {
        let to = format!("/v2/{}/blobs/uploads?digest={}", repo, sha(bytes));
        assert_eq!(send(s, Method::Post, &to, bytes, Some(OCTETS)).status, 201);
    }
    let m = format!(
        r#"{{"schemaVersion":2,"mediaType":"{}","config":{},"layers":[{}]}}"#,
        OCI,
        entry("application/vnd.oci.image.config.v1+json", &sha(config.as_bytes()), config.len()),
        entry("application/vnd.oci.image.layer.v1.tar+gzip", &sha(layer), layer.len())
    )
    .into_bytes();
    let a = send(s, Method::Put, &format!("/v2/{}/manifests/{}", repo, t), &m, Some(OCI));
    assert_eq!(a.status, 201);
    sha(&m)
}

fn everything() -> ReplicateRequest {
    ReplicateRequest { tag_glob: None }
}

#[test]
fn write_lands_on_primary_only() {
    let (mut m, mut a, mut b) = multi();
    push_image(&mut m, "app/one", "v1", b"layer-bytes-A");
    assert_eq!(a.list_repos().unwrap(), vec!["app/one"]);
    assert!(b.list_repos().unwrap().is_empty(), "secondary untouched");
}

#[test]
fn replicate_all_then_partitions_report_matching_counts() {
    let (mut m, _a, _b) = multi();
    push_image(&mut m, "app/one", "v1", b"layer-bytes-1");
    push_image(&mut m, "app/two", "v2", b"layer-bytes-2-larger");

    let report = admin::replicate_run(&mut m, everything()).ok().unwrap();
    assert_eq!(report.blobs_copied, 4);
    assert_eq!(report.manifests_copied, 2);

    let parts = admin::partitions_list(&mut m).ok().unwrap();
    assert_eq!(parts.len(), 2);
    assert_eq!(parts[0].name, "a");
    assert!(parts[0].primary);
    assert!(!parts[1].primary);
    assert_eq!(parts[0].blob_count, 4);
    assert_eq!(parts[0].repo_count, 2);
    assert_eq!(parts[0].blob_count, parts[1].blob_count);
    assert_eq!(parts[0].manifest_count, parts[1].manifest_count);

    let report = admin::replicate_run(&mut m, everything()).ok().unwrap();
    assert_eq!(report.blobs_copied, 0, "second pass should copy nothing");
    assert_eq!(report.manifests_copied, 0);
}

#[test]
fn replicate_tag_glob_filters() {
    let (mut m, _a, mut b) = multi();
    push_image(&mut m, "app/x", "prod-1", b"prod-layer-bytes");
    push_image(&mut m, "app/x", "dev-1", b"dev-layer-bytes");
    let req = ReplicateRequest { tag_glob: Some("prod-*".to_string()) };
    let report = admin::replicate_run(&mut m, req).ok().unwrap();
    assert_eq!(report.blobs_copied, 2);
    assert_eq!(report.manifests_copied, 1);
    assert_eq!(b.list_tags("app/x").unwrap(), vec!["prod-1"]);
}

#[test]
fn read_falls_through_to_secondary_via_http() {
    let (mut m, mut a, _b) = multi();
    let layer = b"shared-via-fallthrough";
    push_image(&mut m, "app/y", "v1", layer);
    admin::replicate_run(&mut m, everything()).ok().unwrap();
    a.blob_delete("app/y", &digest::sha256_digest(layer)).unwrap();
    let x = send(&mut m, Method::Get, &format!("/v2/app/y/blobs/{}", sha(layer)), b"", None);
    assert_eq!(x.status, 200, "fallthrough must serve from B");
    assert_eq!(x.bytes(), layer);
}

#[test]
fn replicate_without_multi_returns_404() {
    let mut s = store();
    let a = send(&mut s, Method::Post, "/admin/replicate", b"{}", Some("application/json"));
    assert_eq!(a.status, 404);
}

// ---- Routing --------------------------------------------------------------

fn rule(pattern: &str, volume: usize) -> RouteRule {
    RouteRule { pattern: pattern.to_string(), backend: Backend::volume(volume) }
}

fn routed() -> (RepoRouter<Store>, Store, Store, Store) {
    let (fast, slow, rest) = (store(), store(), store());
    let r = RepoRouter::new(
        vec![part("fast", &fast), part("slow", &slow), part("rest", &rest)],
        vec![rule("4.18.2/kernel", 0), rule("4.18.2/*", 1), rule("*", 2)],
    )
    .ok()
    .unwrap();
    (r, fast, slow, rest)
}

fn push_blob<S: Storage>(s: &mut S, repo: &str, bytes: &[u8]) -> Digest {
    let to = format!("/v2/{}/blobs/uploads?digest={}", repo, sha(bytes));
    assert_eq!(send(s, Method::Post, &to, bytes, Some(OCTETS)).status, 201);
    digest::sha256_digest(bytes)
}

#[test]
fn push_dispatches_by_longest_prefix() {
    let (mut r, mut fast, mut slow, mut rest) = routed();
    let kd = push_blob(&mut r, "4.18.2/kernel", b"kernel-bytes");
    let sd = push_blob(&mut r, "4.18.2/system", b"system-bytes");
    let ud = push_blob(&mut r, "other/repo", b"unrelated-bytes");
    assert!(fast.blob_exists("4.18.2/kernel", &kd).unwrap());
    assert!(!fast.blob_exists("4.18.2/system", &sd).unwrap());
    assert!(slow.blob_exists("4.18.2/system", &sd).unwrap());
    assert!(!slow.blob_exists("4.18.2/kernel", &kd).unwrap());
    assert!(rest.blob_exists("other/repo", &ud).unwrap());
}

#[test]
fn repo_roots_list_reports_three_rules() {
    let (r, _f, _s, _d) = routed();
    assert_eq!(admin::repo_roots_list(&r), vec!["4.18.2/kernel", "4.18.2/*", "*"]);
}

#[test]
fn admin_repo_root_adds_new_rule_and_dispatches_to_it() {
    let (mut r, _f, _s, mut rest) = routed();
    let new = store();
    let req = RepoRootRequest { pattern: "tenant/secret/*".to_string(), root: "/new".to_string() };
    let x = admin::repo_root_upsert(&mut r, req, Ok(again(&new))).ok().unwrap();
    assert!(x.added);
    assert_eq!(x.rule_count, 4);
    let sd = push_blob(&mut r, "tenant/secret/svc", b"secret-bytes");
    assert!(!rest.blob_exists("tenant/secret/svc", &sd).unwrap());
    assert!(again(&new).blob_exists("tenant/secret/svc", &sd).unwrap());
}

#[test]
fn admin_repo_root_repoint_redirects_subsequent_writes() {
    let (mut r, _f, _s, mut rest) = routed();
    let bd = push_blob(&mut r, "x/y", b"before");
    assert!(rest.blob_exists("x/y", &bd).unwrap());
    let new = store();
    let req = RepoRootRequest { pattern: "*".to_string(), root: "/new".to_string() };
    let x = admin::repo_root_upsert(&mut r, req, Ok(again(&new))).ok().unwrap();
    assert!(!x.added, "repoint of an existing pattern must not add");
    let ad = push_blob(&mut r, "x/y", b"after");
    assert!(again(&new).blob_exists("x/y", &ad).unwrap());
    assert!(rest.blob_exists("x/y", &bd).unwrap());
    assert!(!rest.blob_exists("x/y", &ad).unwrap());
}

#[test]
fn admin_repo_root_endpoints_404_without_router() {
    let mut s = store();
    assert_eq!(send(&mut s, Method::Get, "/admin/repo-roots", b"", None).status, 404);
    let body = br#"{"pattern":"*","root":"/tmp"}"#;
    let a = send(&mut s, Method::Post, "/admin/repo-root", body, Some("application/json"));
    assert_eq!(a.status, 404);
}

#[test]
fn bad_admin_requests() {
    let (mut r, _f, _s, _d) = routed();
    let req = RepoRootRequest { pattern: String::new(), root: "/new".to_string() };
    let e = admin::repo_root_upsert(&mut r, req, Ok(store())).err().unwrap();
    assert_eq!((e.status, e.message.as_str()), (400, "pattern must be non-empty"));
    let req = RepoRootRequest { pattern: "a".to_string(), root: "/new".to_string() };
    let e = admin::repo_root_upsert(&mut r, req, Err("denied".to_string())).err().unwrap();
    assert_eq!((e.status, e.message.as_str()), (500, "opening root /new: denied"));
    let e = admin::bad_body("replicate", "oops");
    assert_eq!((e.status, e.message.as_str()), (400, "bad replicate body: oops"));
    let e = admin::job_get(&Jobs::new(), "x").err().unwrap();
    assert_eq!((e.status, e.message.as_str()), (404, "job not found"));
    let mut req = RepoMigrateRequest {
        pattern: None,
        class: None,
        to: "/new".to_string(),
        drain: false,
        background: false,
    };
    let e = admin::migrate_pattern(&req).err().unwrap();
    assert_eq!((e.status, e.message.as_str()), (400, "one of non-empty `pattern` or `class` is required"));
    req.class = Some("data".to_string());
    assert_eq!(admin::migrate_pattern(&req).ok().unwrap(), "data/*");
    req.pattern = Some("x/*".to_string());
    assert_eq!(admin::migrate_pattern(&req).ok().unwrap(), "x/*");
}

#[test]
fn admin_repo_migrate_endpoint_moves_and_cuts_over() {
    let (old, rest, new) = (store(), store(), store());
    let mut r = RepoRouter::new(
        vec![part("old", &old), part("rest", &rest)],
        vec![rule("data/*", 0), rule("*", 1)],
    )
    .ok()
    .unwrap();
    push_image(&mut r, "data/vol1", "latest", b"a fake layer's worth of bytes");
    let req = RepoMigrateRequest {
        pattern: Some("data/*".to_string()),
        class: None,
        to: "/new".to_string(),
        drain: true,
        background: false,
    };
    let v = admin::repo_migrate(&mut r, &req, Ok(again(&new))).ok().unwrap();
    assert!(v.cutover);
    assert_eq!(v.repos_migrated, 1);
    assert_eq!(v.blobs_copied, 2);
    assert_eq!(v.blobs_purged, 2);
    assert_eq!(send(&mut r, Method::Get, "/v2/data/vol1/manifests/latest", b"", None).status, 200);
    let e = admin::repo_migrate(&mut r, &req, Err("denied".to_string())).err().unwrap();
    assert_eq!(e.status, 500);
}

#[test]
fn a_repeated_migration_request_changes_nothing() {
    let (old, new) = (store(), store());
    let mut r = RepoRouter::new(vec![part("old", &old)], vec![rule("data/*", 0)]).ok().unwrap();
    push_image(&mut r, "data/vol1", "latest", b"a layer");
    let req = RepoMigrateRequest {
        pattern: None,
        class: Some("data".to_string()),
        to: "/new".to_string(),
        drain: true,
        background: false,
    };
    let first = admin::repo_migrate(&mut r, &req, Ok(again(&new))).ok().unwrap();
    assert_eq!((first.cutover, first.repos_migrated, first.blobs_purged), (true, 1, 2));
    let second = admin::repo_migrate(&mut r, &req, Ok(again(&new))).ok().unwrap();
    assert_eq!((second.cutover, second.repos_migrated, second.blobs_purged), (false, 0, 0));
    assert_eq!(r.volumes.len(), 2);
    assert_eq!(send(&mut r, Method::Get, "/v2/data/vol1/manifests/latest", b"", None).status, 200);
}

#[test]
fn http_push_over_quota_returns_413_and_admin_reports() {
    let (data, other) = (store(), store());
    let r = RepoRouter::new(
        vec![part("data", &data), part("other", &other)],
        vec![rule("data/*", 0), rule("*", 1)],
    )
    .ok()
    .unwrap();
    let q = Quota { pattern: "data/*".to_string(), max_bytes: 100 };
    let mut qs = QuotaStorage::new(r, vec![q], 30_000);
    let body = vec![5u8; 200];
    let to = format!("/v2/data/vol1/blobs/uploads/?digest={}", sha(&body));
    assert_eq!(send(&mut qs, Method::Post, &to, &body, None).status, 413);
    let small = vec![6u8; 50];
    let to = format!("/v2/data/vol1/blobs/uploads/?digest={}", sha(&small));
    assert_eq!(send(&mut qs, Method::Post, &to, &small, None).status, 201);
    let report = qs.report();
    assert_eq!(report[0].pattern, "data/*");
    assert_eq!(report[0].max_bytes, 100);
    assert_eq!(report[0].used_bytes, Some(50));
}

// ---- Authentication -------------------------------------------------------

struct FakeReviewer {
    tokens: HashMap<String, TokenVerdict>,
    allowed: Vec<(String, String, String)>,
}

impl Reviewer for FakeReviewer {
    fn review_token(&mut self, token: &str) -> Result<TokenVerdict, ReviewError> {
        Ok(self.tokens.get(token).cloned().unwrap_or(TokenVerdict {
            authenticated: false,
            username: String::new(),
            uid: String::new(),
            groups: vec![],
            error: Some("unknown token".to_string()),
        }))
    }

    fn review_access(&mut self, req: &AccessReview) -> Result<bool, ReviewError> {
        Ok(self
            .allowed
            .iter()
            .any(|(u, ns, v)| u == &req.user && ns == &req.namespace && v == &req.verb))
    }
}

fn k8s(allow_loopback: bool) -> Option<Auth<Recording<FakeReviewer>>> {
    let mut tokens = HashMap::new();
    tokens.insert(
        "alice-token".to_string(),
        TokenVerdict {
            authenticated: true,
            username: "alice".to_string(),
            uid: "u1".to_string(),
            groups: vec!["system:authenticated".to_string()],
            error: None,
        },
    );
    let reviewer = FakeReviewer {
        tokens,
        // alice may pull and push in team-a, but not delete.
        allowed: vec![
            ("alice".to_string(), "team-a".to_string(), "get".to_string()),
            ("alice".to_string(), "team-a".to_string(), "update".to_string()),
        ],
    };
    let cfg = K8sAuthConfig {
        resource_group: "rspace.io".to_string(),
        resource: "repositories".to_string(),
        default_namespace: None,
        cache_ttl: 120_000,
        allow_loopback,
        token_realm: "rspace-registry/token".to_string(),
        service: "rspace-registry".to_string(),
    };
    Some(Auth::K8s(K8sAuth::new(cfg, Recording::new(reviewer))))
}

fn ask(
    auth: &mut Option<Auth<Recording<FakeReviewer>>>,
    method: Method,
    path: &str,
    header: Option<&str>,
    peer: Option<Peer>,
) -> Answer {
    let header = header.map(|h| h.to_string());
    match router::require_auth(auth, "rspace-registry", method, path, &header, peer, 0) {
        Some(x) => refused(x),
        None => send(&mut store(), method, path, b"", None),
    }
}

#[test]
fn version_check_is_unauthenticated() {
    assert_eq!(ask(&mut k8s(false), Method::Get, "/v2/", None, None).status, 200);
}

#[test]
fn no_token_gets_bearer_challenge() {
    let a = ask(&mut k8s(false), Method::Get, "/v2/team-a/nginx/tags/list", None, None);
    assert_eq!(a.status, 401);
    let challenge = a.header("www-authenticate").unwrap();
    assert!(challenge.starts_with("Bearer "), "got: {}", challenge);
    assert!(challenge.contains("realm=\"rspace-registry/token\""));
    assert!(challenge.contains("service=\"rspace-registry\""));
}

#[test]
fn k8s_auth_bad_token_is_unauthorized() {
    let path = "/v2/team-a/nginx/tags/list";
    assert_eq!(ask(&mut k8s(false), Method::Get, path, Some("Bearer wrong"), None).status, 401);
}

#[test]
fn permitted_pull_reaches_handler() {
    let path = "/v2/team-a/nginx/manifests/latest";
    assert_eq!(ask(&mut k8s(false), Method::Get, path, Some("Bearer alice-token"), None).status, 404);
}

#[test]
fn pull_via_basic_password_token_works() {
    let creds = base64::engine::general_purpose::STANDARD.encode("anyuser:alice-token");
    let header = format!("Basic {}", creds);
    let path = "/v2/team-a/nginx/manifests/latest";
    assert_eq!(ask(&mut k8s(false), Method::Get, path, Some(&header), None).status, 404);
}

#[test]
fn delete_denied_for_user_without_verb() {
    let path = format!("/v2/team-a/nginx/manifests/sha256:{}", "0".repeat(64));
    assert_eq!(ask(&mut k8s(false), Method::Delete, &path, Some("Bearer alice-token"), None).status, 403);
}

#[test]
fn pull_from_unpermitted_namespace_is_forbidden() {
    let path = "/v2/team-b/nginx/tags/list";
    assert_eq!(ask(&mut k8s(false), Method::Get, path, Some("Bearer alice-token"), None).status, 403);
}

#[test]
fn k8s_auth_loopback_skips_auth_when_enabled() {
    let peer = Some(Peer::V4(0x7f00_0001));
    assert_eq!(ask(&mut k8s(true), Method::Get, "/v2/team-a/nginx/tags/list", None, peer).status, 404);
}

#[test]
fn non_loopback_peer_still_requires_auth() {
    let peer = Some(Peer::V4(0x0a00_0005));
    assert_eq!(ask(&mut k8s(true), Method::Get, "/v2/team-a/nginx/tags/list", None, peer).status, 401);
}

#[test]
fn token_exchange_is_not_held_up() {
    let r = router::require_auth(&mut k8s(false), "r", Method::Get, "/token", &None, None, 0);
    assert!(r.is_none());
}

#[test]
fn htpasswd_guards_all_but_the_probe() {
    let mut h = Htpasswd::new();
    h.insert_plain("alice", "secret");
    let mut auth: Option<Auth<Recording<FakeReviewer>>> = Some(Auth::Htpasswd(h));
    assert_eq!(ask(&mut auth, Method::Get, "/v2/", None, None).status, 200);
    let a = ask(&mut auth, Method::Get, "/v2/a/tags/list", None, None);
    assert_eq!(a.status, 401);
    assert_eq!(a.header("www-authenticate"), Some("Basic realm=\"rspace-registry\""));
    let creds = base64::engine::general_purpose::STANDARD.encode("alice:secret");
    let header = format!("Basic {}", creds);
    assert_eq!(ask(&mut auth, Method::Get, "/v2/a/tags/list", Some(&header), None).status, 404);
    assert_eq!(ask(&mut auth, Method::Get, "/token", None, None).status, 401);
    assert_eq!(ask(&mut None, Method::Get, "/v2/a/tags/list", None, None).status, 404);
}

#[test]
fn a_header_that_cannot_be_sent_is_left_out() {
    let mut s = store();
    s.manifest_put("a\nb", &tag("v1"), b"{}").unwrap();
    s.manifest_put("c", &tag("v1"), b"{}").unwrap();
    s.manifest_put("d", &tag("v1"), b"{}").unwrap();
    let a = send(&mut s, Method::Get, "/v2/_catalog?n=1", b"", None);
    assert_eq!(a.status, 200);
    assert_eq!(a.header("link"), None);
    let a = send(&mut s, Method::Get, "/v2/_catalog?n=2", b"", None);
    assert_eq!(a.header("link"), Some("</v2/_catalog?n=2&last=c>; rel=\"next\""));
    let mut h = Htpasswd::new();
    h.insert_plain("alice", "secret");
    let r = router::check_basic(&h, "line\nbreak", &None).unwrap();
    assert_eq!(r.error.status, 401);
    assert!(r.headers.is_empty());
    let r = router::check_basic(&h, "caf\u{e9}\tbar", &None).unwrap();
    assert_eq!(r.headers.len(), 1);
}

#[test]
fn a_class_moves_like_its_pattern() {
    let request = |pattern: Option<&str>, class: Option<&str>| RepoMigrateRequest {
        pattern: pattern.map(|p| p.to_string()),
        class: class.map(|c| c.to_string()),
        to: "/new".to_string(),
        drain: true,
        background: false,
    };
    let run = |req: RepoMigrateRequest| {
        let (old, new) = (store(), store());
        let mut r = RepoRouter::new(vec![part("old", &old)], vec![rule("data/*", 0)]).ok().unwrap();
        push_image(&mut r, "data/vol1", "latest", b"a layer");
        let v = admin::repo_migrate(&mut r, &req, Ok(again(&new)));
        let table: Vec<(String, Vec<usize>)> =
            r.rules().into_iter().map(|x| (x.pattern, x.backend.chain)).collect();
        (v.map(|v| (v.repos_migrated, v.blobs_copied, v.blobs_purged, v.cutover)), table)
    };
    let (a, ta) = run(request(None, Some("data")));
    let (b, tb) = run(request(Some("data/*"), None));
    assert_eq!(a.ok().unwrap(), (1, 2, 2, true));
    assert_eq!(b.ok().unwrap(), (1, 2, 2, true));
    assert_eq!(ta, tb);
    assert_eq!(ta, vec![("data/*".to_string(), vec![1])]);
    let (e, te) = run(request(Some(""), None));
    assert_eq!(e.err().unwrap().status, 400);
    assert_eq!(te, vec![("data/*".to_string(), vec![0])]);
}

#[test]
fn pushed_bytes_show_in_the_quota_report() {
    let (data, other) = (store(), store());
    let r = RepoRouter::new(
        vec![part("data", &data), part("other", &other)],
        vec![rule("data/*", 0), rule("*", 1)],
    )
    .ok()
    .unwrap();
    let quota = Quota { pattern: "data/*".to_string(), max_bytes: 100 };
    let mut qs = QuotaStorage::new(r, vec![quota], 30_000);
    push_blob(&mut qs, "data/vol1", &[7u8; 50]);
    assert_eq!(qs.report()[0].used_bytes, Some(50));
    let big = [8u8; 60];
    let to = format!("/v2/data/vol1/blobs/uploads?digest={}", sha(&big));
    let a = send(&mut qs, Method::Post, &to, &big, Some(OCTETS));
    assert_eq!((a.status, a.code()), (413, "DENIED"));
    assert_eq!(qs.report()[0].used_bytes, Some(50));
}
