//! Digests, globs, texts, flags, credentials and errors.

use rspace_registry::auth;
use rspace_registry::auth::Htpasswd;
use rspace_registry::config;
use rspace_registry::config::{AuthFlags, AuthPlan, Layout, StorageFlags};
use rspace_registry::digest;
use rspace_registry::digest::{Algorithm, Digest, DigestError};
use rspace_registry::error::{OciCode, OciError};
use rspace_registry::glob;
use rspace_registry::handlers;
use rspace_registry::http::{Method, Peer};
use rspace_registry::jobs::{JobState, Jobs};
use rspace_registry::manifest::{Descriptor, Manifest};
use rspace_registry::quota;
use rspace_registry::quota::Quota;
use rspace_registry::replicate;
use rspace_registry::router;
use rspace_registry::router::{Features, Route};
use rspace_registry::storage::{Reference, StorageError};
use rspace_registry::text;

const EMPTY: &str = "sha256:e3b0c44298fc1c149afbf4c8996fb92427ae41e4649b934ca495991b7852b855";

#[test]
fn parse_sha256_roundtrip() {
    let s = "sha256:e3b0c44298fc1c149afbf4c8996fb92427ae41e4649b934ca495991b7852b855";
    let d: Digest = s.parse().unwrap();
    assert_eq!(d.algorithm, Algorithm::Sha256);
    assert_eq!(d.to_string(), s);
}

#[test]
fn reject_wrong_hex_len() {
    let r: Result<Digest, _> = "sha256:short".parse();
    assert!(matches!(r, Err(DigestError::HexLen { .. })));
}

#[test]
fn reject_non_hex() {
    let r: Result<Digest, _> =
        "sha256:zzzzzzzzzzzzzzzzzzzzzzzzzzzzzzzzzzzzzzzzzzzzzzzzzzzzzzzzzzzzzzzz".parse();
    assert!(matches!(r, Err(DigestError::NonHex)));
}

#[test]
fn reject_unknown_algorithm() {
    let r: Result<Digest, _> = "md5:abcd".parse();
    assert!(matches!(r, Err(DigestError::UnknownAlgorithm(_))));
}

#[test]
fn digest_errors_are_told() {
    let e = Digest::parse("abcd").err().unwrap();
    assert!(matches!(e, DigestError::MissingColon));
    let e = Digest::parse("sha256:abc").err().unwrap();
    assert!(matches!(e, DigestError::HexLen { expected: 64, got: 3 }));
    let e = Digest::parse("md5:abcd").err().unwrap();
    match e {
        DigestError::UnknownAlgorithm(a) => assert_eq!(a, "md5"),
        _ => panic!("another error"),
    }
}

#[test]
fn hex_len_is_that_of_the_algorithm() {
    assert_eq!(Algorithm::Sha256.hex_len(), 64);
    assert_eq!(Algorithm::Sha512.hex_len(), 128);
}

#[test]
fn content_hashes_to_known_digests() {
    assert_eq!(digest::sha256_digest(b"").to_string(), EMPTY);
    let d = digest::hash_content(Algorithm::Sha512, b"");
    assert_eq!(
        d.to_string(),
        "sha512:cf83e1357eefb8bdf1542850d66d8007d620e4050b5715dc83f4a921d36ce9ce\
         47d0d13c5d85f2b0ff8318d2877eec2f63b931bd47417a81a538327af927da3e"
    );
    assert_eq!(
        digest::sha256_digest(b"hello").hex,
        "2cf24dba5fb0a30e26e83b2ac5b9e29e1b161e5c1fa7425e73043362938b9824"
    );
}

#[test]
fn glob_basics() {
    assert!(replicate::glob_match("*", "anything"));
    assert!(replicate::glob_match("prod-*", "prod-v1"));
    assert!(!replicate::glob_match("prod-*", "dev-v1"));
    assert!(replicate::glob_match("v?.0", "v1.0"));
    assert!(!replicate::glob_match("v?.0", "v10.0"));
    assert!(replicate::glob_match("v*-rc?", "v1-rc2"));
    assert!(!replicate::glob_match("v*-rc?", "v1-rc"));
}

#[test]
fn glob_edges() {
    assert!(glob::glob_match("", ""));
    assert!(!glob::glob_match("", "a"));
    assert!(glob::glob_match("**", ""));
    assert!(glob::glob_match("data/*", "data/a/b"));
    assert!(!glob::glob_match("data/*", "data"));
    assert!(glob::glob_match("a*b*c", "a-b-b-c"));
}

fn descriptor(hex: char) -> Descriptor {
    Descriptor {
        media_type: "m".to_string(),
        digest: Digest { algorithm: Algorithm::Sha256, hex: hex.to_string().repeat(64) },
        size: 1,
        artifact_type: None,
        annotations: None,
    }
}

#[test]
fn references_of_a_manifest_in_order() {
    let m = Manifest {
        media_type: None,
        artifact_type: None,
        config: Some(descriptor('a')),
        layers: vec![descriptor('b'), descriptor('c')],
        manifests: vec![descriptor('d')],
        subject: Some(descriptor('e')),
        annotations: None,
    };
    let short = |v: Vec<Digest>| -> String { v.iter().map(|d| d.hex[..1].to_string()).collect() };
    assert_eq!(short(m.referenced_digests()), "abcde");
    assert_eq!(short(m.blob_digests()), "abce");
    assert_eq!(short(m.child_digests()), "d");
}

// ---- Names and references -------------------------------------------------

#[test]
fn repository_names() {
    for good in ["a", "library/alpine", "tenant/team/repo", "0/a.b_c-d", "a__b", "a---b", "a__b/c--d.e"] {
        assert!(handlers::validate_repo_name(good).is_ok(), "{}", good);
    }
    let problem = |n: &str| handlers::validate_repo_name(n).err().unwrap().message;
    assert_eq!(problem(""), "name out of range");
    assert_eq!(problem(&"a".repeat(256)), "name out of range");
    assert!(handlers::validate_repo_name(&"a".repeat(255)).is_ok());
    assert_eq!(problem("a//b"), "empty path component");
    assert_eq!(problem("/a"), "empty path component");
    assert_eq!(problem("A"), "component must start with [a-z0-9]");
    assert_eq!(problem("a/-b"), "component must start with [a-z0-9]");
    assert_eq!(problem("aB"), "component contains invalid character");
    for bad in ["a..b", "a-", "a.", "a_", "a___b", "a.-b", "a-.b", "a_.b", "a/b-_c", "x/a._b"] {
        assert_eq!(problem(bad), "component has a misplaced separator", "{}", bad);
    }
    let e = handlers::validate_repo_name("A").err().unwrap();
    assert_eq!(e.code.as_str(), "NAME_INVALID");
    assert_eq!(e.status, 400);
}

#[test]
fn references_are_digests_or_tags() {
    assert!(matches!(handlers::parse_reference(EMPTY), Reference::Digest(_)));
    match handlers::parse_reference("v1") {
        Reference::Tag(t) => assert_eq!(t, "v1"),
        Reference::Digest(_) => panic!("a tag"),
    }
    let e = handlers::parse_digest("nope").err().unwrap();
    assert_eq!(e.code.as_str(), "DIGEST_INVALID");
    assert!(e.message.starts_with("invalid digest: "));
}

#[test]
fn upload_ids_are_uuids() {
    let id = handlers::parse_uuid("00000000-0000-0000-0000-00000000002a").ok().unwrap();
    assert_eq!(id, 42);
    let e = handlers::parse_uuid("nope").err().unwrap();
    assert_eq!(e.code.as_str(), "BLOB_UPLOAD_INVALID");
    assert_eq!(e.message, "invalid upload uuid");
}

#[test]
fn media_type_by_hint_field_and_content() {
    let docker = "application/vnd.docker.distribution.manifest.v2+json";
    let oci = "application/vnd.oci.image.manifest.v1+json";
    let index = "application/vnd.oci.image.index.v1+json";
    let body = br#"{"mediaType":"application/vnd.docker.distribution.manifest.v2+json"}"#;
    assert_eq!(handlers::manifest_media_type(body, &None, &Some(index.to_string())), index);
    assert_eq!(handlers::manifest_media_type(body, &None, &Some("text/plain".to_string())), docker);
    assert_eq!(handlers::manifest_media_type(b"{}", &None, &None), oci);
    let refs = Some(Manifest {
        media_type: None,
        artifact_type: None,
        config: None,
        layers: vec![],
        manifests: vec![descriptor('d')],
        subject: None,
        annotations: None,
    });
    assert_eq!(handlers::manifest_media_type(b"{}", &refs, &None), index);
    assert_eq!(handlers::manifest_media_type(br#"{"mediaType":"x"}"#, &None, &None), oci);
    assert_eq!(handlers::pick_media_type(&Some(docker.to_string()), &refs, &None), docker);
}

// ---- Errors ---------------------------------------------------------------

#[test]
fn error_codes_and_statuses() {
    let cases = [
        (OciCode::BlobUnknown, "BLOB_UNKNOWN", 404),
        (OciCode::BlobUploadInvalid, "BLOB_UPLOAD_INVALID", 400),
        (OciCode::BlobUploadUnknown, "BLOB_UPLOAD_UNKNOWN", 404),
        (OciCode::DigestInvalid, "DIGEST_INVALID", 400),
        (OciCode::ManifestInvalid, "MANIFEST_INVALID", 400),
        (OciCode::ManifestUnknown, "MANIFEST_UNKNOWN", 404),
        (OciCode::NameInvalid, "NAME_INVALID", 400),
        (OciCode::NameUnknown, "NAME_UNKNOWN", 404),
        (OciCode::Unauthorized, "UNAUTHORIZED", 401),
        (OciCode::Denied, "DENIED", 403),
    ];
    for (code, name, status) in cases {
        assert_eq!(code.as_str(), name);
        assert_eq!(OciError::new(code, "m".to_string()).status, status);
    }
}

#[test]
fn storage_failures_as_responses() {
    let zero = || Digest { algorithm: Algorithm::Sha256, hex: "0".repeat(64) };
    let e = OciError::from_storage(StorageError::NotFound);
    assert_eq!((e.code.as_str(), e.status, e.message.as_str()), ("BLOB_UNKNOWN", 404, "not found"));
    let e = OciError::from_storage(StorageError::DigestMismatch { expected: zero(), got: zero() });
    assert_eq!((e.code.as_str(), e.status), ("DIGEST_INVALID", 400));
    let z = zero().to_string();
    assert_eq!(e.message, format!("digest mismatch: expected {}, got {}", z, z));
    let e = OciError::from_storage(StorageError::Invalid("x".to_string()));
    assert_eq!((e.code.as_str(), e.status, e.message.as_str()), ("BLOB_UPLOAD_INVALID", 400, "x"));
    let e = OciError::from_storage(StorageError::QuotaExceeded("full".to_string()));
    assert_eq!((e.code.as_str(), e.status, e.message.as_str()), ("DENIED", 413, "full"));
    let e = OciError::from_storage(StorageError::Io("disk".to_string()));
    assert_eq!((e.code.as_str(), e.status, e.message.as_str()), ("UNSUPPORTED", 500, "io: disk"));
    let e = OciError::from_storage(StorageError::Internal("bug".to_string()));
    assert_eq!((e.code.as_str(), e.status, e.message.as_str()), ("UNSUPPORTED", 500, "bug"));
    let e = OciError::new(OciCode::Denied, "m".to_string()).with_detail("{}".to_string());
    assert_eq!(e.detail.as_deref(), Some("{}"));
    assert_eq!(StorageError::QuotaExceeded("q".to_string()).to_string(), "quota exceeded: q");
    assert_eq!(StorageError::Internal("i".to_string()).to_string(), "internal: i");
}

// ---- Htpasswd -------------------------------------------------------------

#[test]
fn htpasswd_entries() {
    let bcrypt = "$2b$04$EGdrhbKUv8Oc9vGiXX0HQOxSg445d458Muh7DAHskb6QbtCvdxcie";
    let content = format!("# people\n\nalice:secret\nbob:{}\nmallory:$apr1$x$y\nnocolon\n", bcrypt);
    let h = Htpasswd::load(&content).ok().unwrap();
    assert!(h.verify("alice", "secret"));
    assert!(!h.verify("alice", "Secret"));
    assert!(!h.verify("mallory", "$apr1$x$y"));
    assert!(!h.verify("nocolon", ""));
    assert!(h.verify("bob", "correctbatteryhorsestapler"));
    assert!(!h.verify("bob", "wrong"));
    let mut h = h;
    h.insert_plain("carol", "pw");
    assert!(h.verify("carol", "pw"));
    assert_eq!(
        Htpasswd::load("# nothing\n").err().unwrap(),
        "htpasswd file has no usable entries"
    );
}

#[test]
fn basic_credentials() {
    // "alice:se:cret"
    let (u, p) = auth::parse_basic("Basic YWxpY2U6c2U6Y3JldA==").unwrap();
    assert_eq!((u.as_str(), p.as_str()), ("alice", "se:cret"));
    assert!(auth::parse_basic("basic YWxpY2U6c2U6Y3JldA==").is_some());
    assert!(auth::parse_basic("Bearer x").is_none());
    assert!(auth::parse_basic("Basic !!!").is_none());
    // "nocolon"
    assert!(auth::parse_basic("Basic bm9jb2xvbg==").is_none());
    assert!(auth::constant_eq(b"abc", b"abc"));
    assert!(!auth::constant_eq(b"abc", b"abd"));
    assert!(!auth::constant_eq(b"abc", b"ab"));
    assert_eq!(auth::challenge_headers("r"), "Basic realm=\"r\"");
}

// ---- Jobs -----------------------------------------------------------------

#[test]
fn job_lifecycle() {
    let mut jobs = Jobs::new();
    let id = jobs.start("repo-migrate", serde_json::Value::Null);
    assert_eq!(id.len(), 36);
    assert_eq!(jobs.get(&id).unwrap().state, JobState::Running);
    assert_eq!(jobs.get(&id).unwrap().kind, "repo-migrate");
    let other = jobs.start("repo-migrate", serde_json::Value::Bool(true));
    assert_ne!(id, other);
    jobs.finish(&id, serde_json::Value::from(7));
    assert_eq!(jobs.get(&id).unwrap().state, JobState::Done);
    assert_eq!(jobs.get(&id).unwrap().report, Some(serde_json::Value::from(7)));
    jobs.fail(&other, "went wrong".to_string());
    assert_eq!(jobs.get(&other).unwrap().state, JobState::Failed);
    assert_eq!(jobs.get(&other).unwrap().error.as_deref(), Some("went wrong"));
    assert!(jobs.get("nope").is_none());
    assert_eq!(jobs.list().len(), 2);
}

// ---- Flags ----------------------------------------------------------------

#[test]
fn sizes() {
    assert_eq!(config::parse_size("100"), Ok(100));
    assert_eq!(config::parse_size("100b"), Ok(100));
    assert_eq!(config::parse_size("500Gi"), Ok(500 << 30));
    assert_eq!(config::parse_size(" 2 Ti "), Ok(2 << 40));
    assert_eq!(config::parse_size("3k"), Ok(3072));
    assert_eq!(config::parse_size("4MI"), Ok(4 << 20));
    assert_eq!(config::parse_size("Gi"), Err("invalid size \"Gi\"".to_string()));
    assert_eq!(config::parse_size("1Xi"), Err("unknown size unit \"xi\" in \"1Xi\"".to_string()));
    assert_eq!(
        config::parse_size("99999999999Ti"),
        Err("size \"99999999999Ti\" overflows u64".to_string())
    );
}

#[test]
fn durations() {
    assert_eq!(config::parse_duration("0"), Ok(0));
    assert_eq!(config::parse_duration("60s"), Ok(60));
    assert_eq!(config::parse_duration("60"), Ok(60));
    assert_eq!(config::parse_duration("5m"), Ok(300));
    assert_eq!(config::parse_duration("1h"), Ok(3600));
    assert_eq!(config::parse_duration("m"), Err("invalid duration \"m\"".to_string()));
    assert_eq!(
        config::parse_duration("5d"),
        Err("unknown duration unit \"d\" in \"5d\"".to_string())
    );
    assert_eq!(config::measure_duration("18446744073709551615m"), Ok(None));
}

fn strings(v: &[&str]) -> Vec<String> {
    v.iter().map(|s| s.to_string()).collect()
}

#[test]
fn quota_flags() {
    let q = config::parse_quotas(&strings(&["customer/*=2Ti"]), &strings(&["data=500Gi"])).ok().unwrap();
    assert_eq!(q.len(), 2);
    assert_eq!((q[0].pattern.as_str(), q[0].max_bytes), ("data/*", 500 << 30));
    assert_eq!((q[1].pattern.as_str(), q[1].max_bytes), ("customer/*", 2 << 40));
    let problem = |a: &[&str], b: &[&str]| config::parse_quotas(&strings(a), &strings(b)).err().unwrap();
    assert_eq!(problem(&["x"], &[]), "--quota \"x\" must be pattern=size");
    assert_eq!(problem(&["=1"], &[]), "--quota \"=1\" has empty pattern");
    assert_eq!(problem(&[], &["x"]), "--quota-class \"x\" must be name=size");
    assert_eq!(problem(&[], &["=1"]), "--quota-class \"=1\" has empty name");
    assert_eq!(problem(&["a=z"], &[]), "invalid size \"z\"");
}

fn no_storage() -> StorageFlags {
    StorageFlags {
        repo_roots: vec![],
        repo_classes: vec![],
        quotas: vec![],
        quota_classes: vec![],
        partitions: vec![],
        primary: None,
    }
}

#[test]
fn storage_plans() {
    let p = config::plan_storage(&no_storage());
    assert!(p.opens.is_empty());
    assert!(matches!(p.end, Ok(Layout::Single)));

    let mut f = no_storage();
    f.repo_classes = strings(&["data=/mnt/bulk"]);
    f.repo_roots = strings(&["*=/mnt/rest"]);
    f.quota_classes = strings(&["data=1Ki"]);
    f.partitions = strings(&["ignored"]);
    let p = config::plan_storage(&f);
    assert_eq!(p.opens.len(), 2);
    assert_eq!(p.opens[0].context, "opening repo class data=/mnt/bulk");
    assert_eq!(p.opens[1].context, "opening repo root *=/mnt/rest");
    assert_eq!(p.opens[1].path, "/mnt/rest");
    match p.end {
        Ok(Layout::Routed { patterns, classes, quotas }) => {
            assert_eq!(patterns, strings(&["data/*", "*"]));
            assert_eq!(classes.len(), 1);
            assert_eq!(classes[0].pattern, "data/*");
            assert_eq!(classes[0].root, "/mnt/bulk");
            assert_eq!(quotas[0].max_bytes, 1024);
        }
        _ => panic!("not a router"),
    }

    let mut f = no_storage();
    f.partitions = strings(&["a=/a", "b=/b"]);
    assert_eq!(
        config::plan_storage(&f).end.err().unwrap(),
        "--primary required when more than one --partition is declared"
    );
    f.primary = Some("b".to_string());
    match config::plan_storage(&f).end {
        Ok(Layout::Partitions { names, primary }) => {
            assert_eq!(names, strings(&["a", "b"]));
            assert_eq!(primary, "b");
        }
        _ => panic!("not partitions"),
    }
    f.primary = None;
    f.partitions = strings(&["only=/x"]);
    match config::plan_storage(&f).end {
        Ok(Layout::Partitions { primary, .. }) => assert_eq!(primary, "only"),
        _ => panic!("not partitions"),
    }
}

#[test]
fn storage_flag_errors() {
    let class = |s: &str| {
        let mut f = no_storage();
        f.repo_classes = strings(&["ok=/ok", s]);
        let p = config::plan_storage(&f);
        assert_eq!(p.opens.len(), 1);
        p.end.err().unwrap()
    };
    assert_eq!(class("x"), "--repo-class \"x\" must be name=/path");
    assert_eq!(class("=/x"), "--repo-class \"=/x\" has empty name");
    assert_eq!(
        class("a/b=/x"),
        "--repo-class name \"a/b\" must be a bare class name (no '/' or '*')"
    );
    let mut f = no_storage();
    f.repo_roots = strings(&["x"]);
    assert_eq!(config::plan_storage(&f).end.err().unwrap(), "--repo-root \"x\" must be pattern=/path");
    f.repo_roots = strings(&["=/x"]);
    assert_eq!(config::plan_storage(&f).end.err().unwrap(), "--repo-root \"=/x\" has empty pattern");
    let mut f = no_storage();
    f.partitions = strings(&["x"]);
    assert_eq!(config::plan_storage(&f).end.err().unwrap(), "--partition \"x\" must be name=/path");
    f.partitions = strings(&["=/x"]);
    assert_eq!(config::plan_storage(&f).end.err().unwrap(), "--partition \"=/x\" has empty name");
}

fn auth_flags(mode: Option<&str>) -> AuthFlags {
    AuthFlags {
        auth: mode.map(|s| s.to_string()),
        has_file: false,
        resource: "rspace.io/repositories".to_string(),
        default_namespace: None,
        cache_ttl: "2m".to_string(),
        token_url: None,
        allow_loopback: true,
        has_cert: false,
        listen: "0.0.0.0:5000".to_string(),
    }
}

#[test]
fn auth_plans() {
    assert!(matches!(config::plan_auth(&auth_flags(None)), Ok(AuthPlan::Open)));
    let mut f = auth_flags(None);
    f.has_file = true;
    assert!(matches!(config::plan_auth(&f), Ok(AuthPlan::Htpasswd)));
    assert_eq!(
        config::plan_auth(&auth_flags(Some("htpasswd"))).err().unwrap(),
        "--auth htpasswd requires --auth-file"
    );
    assert_eq!(
        config::plan_auth(&auth_flags(Some("ldap"))).err().unwrap(),
        "unknown --auth mode \"ldap\" (expected none|htpasswd|k8s)"
    );
    match config::plan_auth(&auth_flags(Some("k8s"))) {
        Ok(AuthPlan::K8s(cfg)) => {
            assert_eq!(cfg.resource_group, "rspace.io");
            assert_eq!(cfg.resource, "repositories");
            assert_eq!(cfg.cache_ttl, 120_000);
            assert_eq!(cfg.token_realm, "http://0.0.0.0:5000/token");
            assert_eq!(cfg.service, "rspace-registry");
            assert!(cfg.allow_loopback);
        }
        _ => panic!("not k8s"),
    }
    let mut f = auth_flags(Some("k8s"));
    f.has_cert = true;
    match config::plan_auth(&f) {
        Ok(AuthPlan::K8s(cfg)) => assert_eq!(cfg.token_realm, "https://0.0.0.0:5000/token"),
        _ => panic!("not k8s"),
    }
    f.resource = "repositories".to_string();
    assert_eq!(
        config::plan_auth(&f).err().unwrap(),
        "--auth-k8s-resource must be group/resource"
    );
    f.resource = "a/b".to_string();
    f.cache_ttl = "soon".to_string();
    assert_eq!(config::plan_auth(&f).err().unwrap(), "invalid duration \"soon\"");
}

// ---- Routes ---------------------------------------------------------------

const ALL: Features = Features { admin: true, multi: true, router: true, quota: true, token: true };

fn go(method: Method, target: &str, f: Features) -> Route {
    match target.split_once('?') {
        Some((p, q)) => router::route(method, p, &Some(q.to_string()), f),
        None => router::route(method, target, &None, f),
    }
}

#[test]
fn queries_are_decoded() {
    let q = router::url_form_pairs("a=1&&b=x%2By+z&c&a=%zz&d=%C3%A9&e=100%");
    let shown: Vec<(&str, &str)> = q.iter().map(|(k, v)| (k.as_str(), v.as_str())).collect();
    assert_eq!(
        shown,
        vec![("a", "1"), ("b", "x+y z"), ("c", ""), ("a", "%zz"), ("d", "\u{e9}"), ("e", "100%")]
    );
    let q = router::url_form_pairs("x=%ff");
    assert_eq!(q[0].1, "\u{fffd}");
    assert_eq!(router::hex_nibble(b'f'), Some(15));
    assert_eq!(router::hex_nibble(b'F'), Some(15));
    assert_eq!(router::hex_nibble(b'7'), Some(7));
    assert_eq!(router::hex_nibble(b'g'), None);
}

#[test]
fn routes_of_the_registry() {
    assert!(matches!(go(Method::Get, "/v2/", ALL), Route::Version));
    assert!(matches!(go(Method::Head, "/v2", ALL), Route::Version));
    assert!(matches!(go(Method::Post, "/v2/", ALL), Route::MethodNotAllowed));
    match go(Method::Get, "/v2/_catalog?n=5&last=a%2Fb", ALL) {
        Route::Catalog { n, last } => {
            assert_eq!(n, Some(5));
            assert_eq!(last.as_deref(), Some("a/b"));
        }
        _ => panic!("not the catalog"),
    }
    assert!(matches!(go(Method::Get, "/v2/_catalog?n=x", ALL), Route::Catalog { n: None, .. }));
    match go(Method::Get, "/v2/a/b/tags/list?n=1&n=2", ALL) {
        Route::TagsList { repo, n, .. } => {
            assert_eq!(repo, "a/b");
            assert_eq!(n, Some(2));
        }
        _ => panic!("not the tags"),
    }
    for target in ["/v2/a/b/blobs/uploads", "/v2/a/b/blobs/uploads/"] {
        match go(Method::Post, target, ALL) {
            Route::UploadStart { repo, digest, .. } => {
                assert_eq!(repo, "a/b");
                assert!(digest.is_none());
            }
            _ => panic!("not an upload"),
        }
    }
    assert!(matches!(go(Method::Get, "/v2/a/blobs/uploads", ALL), Route::MethodNotAllowed));
    match go(Method::Put, "/v2/a/blobs/uploads/u?digest=d", ALL) {
        Route::UploadFinish { repo, uuid, digest } => {
            assert_eq!((repo.as_str(), uuid.as_str()), ("a", "u"));
            assert_eq!(digest.as_deref(), Some("d"));
        }
        _ => panic!("not a finish"),
    }
    assert!(matches!(go(Method::Get, "/v2/a/blobs/uploads/u", ALL), Route::UploadStatus { .. }));
    assert!(matches!(go(Method::Patch, "/v2/a/blobs/uploads/u", ALL), Route::UploadChunk { .. }));
    assert!(matches!(go(Method::Delete, "/v2/a/blobs/uploads/u", ALL), Route::UploadCancel { .. }));
    match go(Method::Head, "/v2/a/manifests/b/manifests/v1", ALL) {
        Route::ManifestGet { repo, reference, head_only } => {
            assert_eq!((repo.as_str(), reference.as_str()), ("a/manifests/b", "v1"));
            assert!(head_only);
        }
        _ => panic!("not a manifest"),
    }
    assert!(matches!(go(Method::Put, "/v2/a/manifests/v1", ALL), Route::ManifestPut { .. }));
    assert!(matches!(go(Method::Delete, "/v2/a/manifests/v1", ALL), Route::ManifestDelete { .. }));
    assert!(matches!(go(Method::Post, "/v2/a/manifests/v1", ALL), Route::MethodNotAllowed));
    assert!(matches!(go(Method::Get, "/v2/a/blobs/d", ALL), Route::BlobGet { head_only: false, .. }));
    assert!(matches!(go(Method::Delete, "/v2/a/blobs/d", ALL), Route::BlobDelete { .. }));
    match go(Method::Get, "/v2/a/referrers/d?artifactType=t", ALL) {
        Route::Referrers { artifact_type, .. } => assert_eq!(artifact_type.as_deref(), Some("t")),
        _ => panic!("not referrers"),
    }
    for unknown in ["/v2/a", "/v2/a/manifests/", "/v2/a/manifests/b/c", "/v2//blobs/x", "/x"] {
        assert!(matches!(go(Method::Get, unknown, ALL), Route::NotFound), "{}", unknown);
    }
}

#[test]
fn routes_beside_the_registry() {
    assert!(matches!(go(Method::Get, "/token", ALL), Route::Token));
    assert!(matches!(go(Method::Post, "/admin/gc", ALL), Route::Gc));
    assert!(matches!(go(Method::Get, "/admin/gc", ALL), Route::NotFound));
    assert!(matches!(go(Method::Get, "/admin/partitions", ALL), Route::Partitions));
    assert!(matches!(go(Method::Post, "/admin/replicate", ALL), Route::Replicate));
    assert!(matches!(go(Method::Get, "/admin/repo-roots", ALL), Route::RepoRoots));
    assert!(matches!(go(Method::Post, "/admin/repo-root", ALL), Route::RepoRoot));
    assert!(matches!(go(Method::Post, "/admin/repo-migrate", ALL), Route::RepoMigrate));
    assert!(matches!(go(Method::Get, "/admin/repo-classes", ALL), Route::RepoClasses));
    assert!(matches!(go(Method::Get, "/admin/quotas", ALL), Route::Quotas));
    assert!(matches!(go(Method::Get, "/admin/jobs", ALL), Route::Jobs));
    match go(Method::Get, "/admin/jobs/abc", ALL) {
        Route::Job { id } => assert_eq!(id, "abc"),
        _ => panic!("not a job"),
    }
    let none = Features { admin: false, multi: false, router: false, quota: false, token: false };
    for target in ["/token", "/admin/partitions", "/admin/repo-roots", "/admin/quotas", "/admin/jobs"] {
        assert!(matches!(go(Method::Get, target, none), Route::NotFound), "{}", target);
    }
}

#[test]
fn peers_on_this_machine() {
    assert!(Peer::V4(0x7f00_0001).is_loopback());
    assert!(Peer::V4(0x7fff_ffff).is_loopback());
    assert!(!Peer::V4(0x0a00_0005).is_loopback());
    assert!(Peer::V6(1).is_loopback());
    assert!(Peer::V6(0xffff_7f00_0001).is_loopback());
    assert!(!Peer::V6(0xffff_0a00_0005).is_loopback());
    assert!(!Peer::V6(2).is_loopback());
}

// ---- Texts and quotas -----------------------------------------------------

#[test]
fn texts() {
    let v: Vec<char> = " a b\t".chars().collect();
    assert_eq!(text::trimmed(&v).iter().collect::<String>(), "a b");
    let v: Vec<char> = "a,,b".chars().collect();
    assert_eq!(text::split_on(&v, ','), strings(&["a", "", "b"]));
    assert_eq!(text::decimal_text(0), "0");
    assert_eq!(text::decimal_text(1203), "1203");
    let digits: Vec<char> = "+17".chars().collect();
    assert_eq!(text::parse_u64(&digits), Some(17));
    assert_eq!(text::parse_usize(&digits), Some(17));
    let digits: Vec<char> = "18446744073709551616".chars().collect();
    assert_eq!(text::parse_u64(&digits), None);
}

#[test]
fn a_write_fits_up_to_the_limit() {
    let q = Quota { pattern: "data/*".to_string(), max_bytes: 100 };
    assert!(quota::check_fits(&q, 60, 40).is_ok());
    match quota::check_fits(&q, 60, 41) {
        Err(StorageError::QuotaExceeded(m)) => {
            assert!(m.contains("data/*"));
            assert!(m.contains("100"));
        }
        _ => panic!("fits"),
    }
    assert!(quota::check_fits(&q, u64::MAX, 1).is_err());
}

#[test]
fn when_to_replicate_and_how_to_serve() {
    assert_eq!(config::plan_loop(None, "nonsense").unwrap(), None);
    assert_eq!(config::plan_loop(Some(1), "60s").unwrap(), None);
    assert_eq!(config::plan_loop(Some(2), "60s").unwrap(), Some(60));
    assert_eq!(config::plan_loop(Some(2), "5m").unwrap(), Some(300));
    assert_eq!(config::plan_loop(Some(2), "0").unwrap(), None);
    assert!(config::plan_loop(Some(2), "soon").is_err());
    assert_eq!(config::plan_tls(true, true).unwrap(), true);
    assert_eq!(config::plan_tls(false, false).unwrap(), false);
    let m = config::plan_tls(true, false).unwrap_err();
    assert_eq!(m, "--cert and --key must be provided together");
}

#[test]
fn digests_are_read_from_texts() {
    let ok: Digest = EMPTY.parse().unwrap();
    assert_eq!(ok.to_string(), EMPTY);
    assert!(matches!(
        "sha256:short".parse::<Digest>(),
        Err(DigestError::HexLen { expected: 64, got: 5 })
    ));
    let z = format!("sha256:{}", "z".repeat(64));
    assert!(matches!(z.parse::<Digest>(), Err(DigestError::NonHex)));
    match "md5:abcd".parse::<Digest>() {
        Err(DigestError::UnknownAlgorithm(a)) => assert_eq!(a, "md5"),
        _ => panic!("not an algorithm"),
    }
    assert!(matches!("sha256".parse::<Digest>(), Err(DigestError::MissingColon)));
}

#[test]
fn the_id_of_an_operation_is_a_uuid() {
    let mut jobs = Jobs::new();
    let id = jobs.start("gc", serde_json::Value::Null);
    assert_eq!(id.len(), 36);
    assert_eq!(uuid::Uuid::parse_str(&id).unwrap().to_string(), id);
    assert_ne!(jobs.start("gc", serde_json::Value::Null), id);
}

#[test]
fn escapes_are_decoded_back() {
    let text = "a/b +%&=\u{e9}\u{1f600}\n";
    let lower: String = text.bytes().map(|b| format!("%{:02x}", b)).collect();
    let upper: String = text.bytes().map(|b| format!("%{:02X}", b)).collect();
    for e in [lower, upper] {
        let q = router::url_form_pairs(&e);
        assert_eq!(q, vec![(text.to_string(), String::new())]);
    }
    let q = router::url_form_pairs("caf\u{e9}/x.y-z");
    assert_eq!(q[0].0, "caf\u{e9}/x.y-z");
    let q = router::url_form_pairs("100%+%4g%");
    assert_eq!(q[0].0, "100% %4g%");
}
