//! Authentication by a cluster.

use std::collections::HashMap;

use base64::Engine;
use rspace_registry::http::{Method, Peer};
use rspace_registry::k8s;
use rspace_registry::k8s::{
    AccessReview, Action, AuthReject, K8sAuth, K8sAuthConfig, Operation, Recorded, ReviewError,
    Reviewer, Step,
    TokenVerdict,
};

/// Knows some tokens and who may do what where; counts what it is asked.
struct FakeReviewer {
    tokens: HashMap<String, TokenVerdict>,
    allowed: Vec<(String, String, String)>,
    down: bool,
    asked: usize,
}

impl Reviewer for FakeReviewer {
    fn review_token(&mut self, token: &str) -> Result<TokenVerdict, ReviewError> {
        self.asked += 1;
        if self.down {
            return Err(ReviewError::Unreachable("no route".to_string()));
        }
        Ok(self.tokens.get(token).cloned().unwrap_or(TokenVerdict {
            authenticated: false,
            username: String::new(),
            uid: String::new(),
            groups: vec![],
            error: Some("unknown token".to_string()),
        }))
    }

    fn review_access(&mut self, req: &AccessReview) -> Result<bool, ReviewError> {
        self.asked += 1;
        Ok(self
            .allowed
            .iter()
            .any(|(u, ns, verb)| u == &req.user && ns == &req.namespace && verb == &req.verb))
    }
}

fn auth_with(allow_loopback: bool, default_ns: Option<&str>) -> K8sAuth<Recorded<FakeReviewer>> {
    let mut tokens = HashMap::new();
    tokens.insert(
        "good".to_string(),
        TokenVerdict {
            authenticated: true,
            username: "alice".to_string(),
            uid: "u1".to_string(),
            groups: vec!["system:authenticated".to_string()],
            error: None,
        },
    );
    let reviewer = FakeReviewer {
        tokens,
        allowed: vec![
            ("alice".to_string(), "team-a".to_string(), "get".to_string()),
            ("alice".to_string(), "team-a".to_string(), "update".to_string()),
        ],
        down: false,
        asked: 0,
    };
    let cfg = K8sAuthConfig {
        resource_group: "rspace.io".to_string(),
        resource: "repositories".to_string(),
        default_namespace: default_ns.map(|s| s.to_string()),
        cache_ttl: 120_000,
        allow_loopback,
        token_realm: "https://reg.example/token".to_string(),
        service: "rspace-registry".to_string(),
    };
    K8sAuth::new(cfg, Recorded::new(reviewer))
}

fn bearer(token: &str) -> Option<String> {
    Some(format!("Bearer {}", token))
}

fn op(action: Action, repo: &str) -> Operation {
    Operation { action, repo: Some(repo.to_string()) }
}

const LOCALHOST: Option<Peer> = Some(Peer::V4(0x7f00_0001));

#[test]
fn pull_allowed_for_permitted_user() {
    let mut a = auth_with(false, None);
    let r = a.check(&op(Action::Pull, "team-a/nginx"), &bearer("good"), None, 0);
    assert!(r.is_ok());
}

#[test]
fn push_denied_when_not_permitted() {
    let mut a = auth_with(false, None);
    let r = a.check(&op(Action::Push, "team-b/nginx"), &bearer("good"), None, 0);
    match r {
        Err(AuthReject::Denied(m)) => assert_eq!(
            m,
            "user \"alice\" may not update rspace.io/repositories in namespace \"team-b\""
        ),
        _ => panic!("not denied"),
    }
}

#[test]
fn no_token_is_unauthorized() {
    let mut a = auth_with(false, None);
    let r = a.check(&op(Action::Pull, "team-a/nginx"), &None, None, 0);
    assert!(matches!(r, Err(AuthReject::Unauthorized(_))));
}

#[test]
fn k8s_bad_token_is_unauthorized() {
    let mut a = auth_with(false, None);
    let r = a.check(&op(Action::Pull, "team-a/nginx"), &bearer("nope"), None, 0);
    assert!(matches!(r, Err(AuthReject::Unauthorized(_))));
}

#[test]
fn k8s_loopback_skips_auth_when_enabled() {
    let mut a = auth_with(true, None);
    let r = a.check(&op(Action::Pull, "team-a/nginx"), &None, LOCALHOST, 0);
    assert!(r.is_ok());
    let peer6 = Some(Peer::V6(1));
    assert!(a.check(&op(Action::Push, "team-b/nginx"), &None, peer6, 0).is_ok());
    assert_eq!(a.reviewer.reviewer.asked, 0);
}

#[test]
fn loopback_not_skipped_when_disabled() {
    let mut a = auth_with(false, None);
    let r = a.check(&op(Action::Pull, "team-a/nginx"), &None, LOCALHOST, 0);
    assert!(matches!(r, Err(AuthReject::Unauthorized(_))));
}

#[test]
fn single_segment_repo_needs_default_ns() {
    let mut a = auth_with(false, None);
    let r = a.check(&op(Action::Pull, "nginx"), &bearer("good"), None, 0);
    assert!(matches!(r, Err(AuthReject::Denied(_))));

    let mut a = auth_with(false, Some("team-a"));
    let r = a.check(&op(Action::Pull, "nginx"), &bearer("good"), None, 0);
    assert!(r.is_ok());
}

#[test]
fn version_check_always_allowed() {
    let mut a = auth_with(false, None);
    let r = a.check(&Operation { action: Action::Version, repo: None }, &None, None, 0);
    assert!(r.is_ok());
}

#[test]
fn classify_maps_methods_to_verbs() {
    assert_eq!(k8s::classify(Method::Get, "/v2/").action, Action::Version);
    assert_eq!(k8s::classify(Method::Get, "/v2/_catalog").action, Action::List);

    let o = k8s::classify(Method::Get, "/v2/team-a/nginx/tags/list");
    assert_eq!(o.action, Action::List);
    assert_eq!(o.repo.as_deref(), Some("team-a/nginx"));

    let o = k8s::classify(Method::Get, "/v2/team-a/nginx/blobs/sha256:abc");
    assert_eq!(o.action, Action::Pull);
    assert_eq!(o.repo.as_deref(), Some("team-a/nginx"));

    let o = k8s::classify(Method::Put, "/v2/team-a/nginx/manifests/latest");
    assert_eq!(o.action, Action::Push);
    assert_eq!(o.repo.as_deref(), Some("team-a/nginx"));

    let o = k8s::classify(Method::Post, "/v2/team-a/nginx/blobs/uploads/");
    assert_eq!(o.action, Action::Push);
    assert_eq!(o.repo.as_deref(), Some("team-a/nginx"));

    let o = k8s::classify(Method::Delete, "/v2/team-a/nginx/manifests/sha256:abc");
    assert_eq!(o.action, Action::Delete);
    assert_eq!(o.repo.as_deref(), Some("team-a/nginx"));

    assert_eq!(k8s::classify(Method::Post, "/admin/gc").action, Action::Admin);
}

#[test]
fn the_repository_that_is_reached_is_authorised() {
    let o = k8s::classify(Method::Get, "/v2/team-b/blobs/x/manifests/latest");
    assert_eq!(o.repo.as_deref(), Some("team-b/blobs/x"));
    let o = k8s::classify(Method::Post, "/v2/a/manifests/b/blobs/uploads");
    assert_eq!((o.action, o.repo.as_deref()), (Action::Push, Some("a/manifests/b")));
    let o = k8s::classify(Method::Patch, "/v2/a/blobs/uploads/b/blobs/uploads/1");
    assert_eq!((o.action, o.repo.as_deref()), (Action::Push, Some("a/blobs/uploads/b")));
    let o = k8s::classify(Method::Get, "/v2/a/blobs/b/tags/list");
    assert_eq!((o.action, o.repo.as_deref()), (Action::List, Some("a/blobs/b")));
    let o = k8s::classify(Method::Delete, "/elsewhere/a/blobs/b");
    assert_eq!((o.action, o.repo.as_deref()), (Action::Pull, None));
}

#[test]
fn unknown_path_is_a_pull() {
    let o = k8s::classify(Method::Put, "/v2/nowhere");
    assert_eq!(o.action, Action::Pull);
    assert!(o.repo.is_none());
    let o = k8s::classify(Method::Get, "/v2/a/b/referrers/sha256:abc");
    assert_eq!(o.action, Action::Pull);
    assert_eq!(o.repo.as_deref(), Some("a/b"));
}

#[test]
fn verbs() {
    assert_eq!(Action::Pull.verb(), "get");
    assert_eq!(Action::Push.verb(), "update");
    assert_eq!(Action::Delete.verb(), "delete");
    assert_eq!(Action::List.verb(), "list");
    assert_eq!(Action::Admin.verb(), "update");
    assert_eq!(Action::Version.verb(), "get");
}

#[test]
fn extract_token_handles_bearer_and_basic() {
    assert_eq!(k8s::extract_token(&bearer("tok")).as_deref(), Some("tok"));

    let creds = base64::engine::general_purpose::STANDARD.encode("anything:mytoken");
    let h = Some(format!("Basic {}", creds));
    assert_eq!(k8s::extract_token(&h).as_deref(), Some("mytoken"));

    assert_eq!(k8s::extract_token(&None), None);
}

#[test]
fn odd_authorization_headers() {
    assert_eq!(k8s::extract_token(&Some("bEaReR  tok ".to_string())).as_deref(), Some("tok"));
    assert_eq!(k8s::extract_token(&Some("Bearer   ".to_string())), None);
    assert_eq!(k8s::extract_token(&Some("Digest x".to_string())), None);
    assert_eq!(k8s::extract_token(&Some("Basic ???".to_string())), None);
    let creds = base64::engine::general_purpose::STANDARD.encode("user:");
    assert_eq!(k8s::extract_token(&Some(format!("Basic {}", creds))), None);
    assert_eq!(k8s::token_of_password(b"user:to:ken".to_vec()).as_deref(), Some("to:ken"));
    assert_eq!(k8s::token_of_password(vec![0xff]), None);
}

#[test]
fn parse_scope_splits_repository_scope() {
    assert_eq!(
        k8s::parse_scope("repository:team-a/nginx:pull,push"),
        Some(("repository".to_string(), "team-a/nginx".to_string(), "pull,push".to_string()))
    );
    assert_eq!(
        k8s::parse_scope("repository:nginx:pull"),
        Some(("repository".to_string(), "nginx".to_string(), "pull".to_string()))
    );
    // No actions.
    assert_eq!(k8s::parse_scope("repository:nginx"), None);
    assert_eq!(k8s::parse_scope("garbage"), None);
}

#[test]
fn token_endpoint_issues_token_for_valid_credentials() {
    let mut a = auth_with(false, None);
    let creds = base64::engine::general_purpose::STANDARD.encode("anyuser:good");
    let h = Some(format!("Basic {}", creds));
    let grant = k8s::token_endpoint(&mut a, &h, 0).ok().unwrap();
    assert_eq!(grant.token, "good");
    assert_eq!(grant.expires_in, 120);
}

#[test]
fn token_endpoint_rejects_bad_and_missing_credentials() {
    let mut a = auth_with(false, None);
    let r = k8s::token_endpoint(&mut a, &bearer("nope"), 0).err().unwrap();
    assert_eq!(r.into_response(&a).error.status, 401);
    let r = k8s::token_endpoint(&mut a, &None, 0).err().unwrap();
    assert_eq!(r.into_response(&a).error.status, 401);
}

#[test]
fn verdicts_are_remembered_for_a_while() {
    let mut a = auth_with(false, None);
    let pull = op(Action::Pull, "team-a/nginx");
    assert!(a.check(&pull, &bearer("good"), None, 1_000).is_ok());
    assert_eq!(a.reviewer.reviewer.asked, 2);
    assert!(a.check(&pull, &bearer("good"), None, 120_999).is_ok());
    assert_eq!(a.reviewer.reviewer.asked, 2);
    assert!(a.check(&pull, &bearer("good"), None, 121_000).is_ok());
    assert_eq!(a.reviewer.reviewer.asked, 4);
    // A bad verdict too.
    assert!(a.check(&pull, &bearer("bad"), None, 0).is_err());
    assert!(a.check(&pull, &bearer("bad"), None, 1).is_err());
    assert_eq!(a.reviewer.reviewer.asked, 5);
}

#[test]
fn no_verdict_is_unavailable() {
    let mut a = auth_with(false, None);
    a.reviewer.reviewer.down = true;
    let pull = op(Action::Pull, "team-a/nginx");
    let r = a.check(&pull, &bearer("good"), None, 0).err().unwrap();
    let x = r.into_response(&a);
    assert_eq!(x.error.status, 503);
    assert_eq!(x.error.message, "auth backend unavailable: api server unreachable: no route");
    assert!(x.headers.is_empty());
    // Nothing was remembered of it.
    a.reviewer.reviewer.down = false;
    assert!(a.check(&pull, &bearer("good"), None, 0).is_ok());
}

#[test]
fn steps_of_a_check() {
    let mut a = auth_with(false, None);
    let pull = op(Action::Pull, "team-a/nginx");
    let token = match a.begin(&pull, &bearer("good"), None, 0) {
        Step::NeedToken(t) => t,
        _ => panic!("no token needed"),
    };
    assert_eq!(token, "good");
    let verdict = a.reviewer.reviewer.review_token(&token);
    let review = match a.token_reviewed(&pull, &token, verdict, 0) {
        Step::NeedAccess(r) => r,
        _ => panic!("no access needed"),
    };
    assert_eq!(review.namespace, "team-a");
    assert_eq!(review.groups, vec!["system:authenticated".to_string()]);
    assert!(matches!(a.access_reviewed(&review, Ok(true), 0), Step::Allowed));
    assert!(matches!(a.begin(&pull, &bearer("good"), None, 1), Step::Allowed));
    assert!(matches!(a.access_reviewed(&review, Ok(false), 2), Step::Rejected(AuthReject::Denied(_))));
}

#[test]
fn challenge_names_realm_and_service() {
    let a = auth_with(false, None);
    assert_eq!(
        a.bearer_challenge(),
        "Bearer realm=\"https://reg.example/token\",service=\"rspace-registry\""
    );
    assert_eq!(a.cache_ttl_secs(), 120);
}

#[test]
fn replies_of_the_api_server() {
    let body = r#"{"status":{"authenticated":true,"user":{"username":"alice","uid":"u1","groups":["g1",7,"g2"]}}}"#;
    let v = k8s::token_verdict(true, "200 OK", body).ok().unwrap();
    assert!(v.authenticated);
    assert_eq!((v.username.as_str(), v.uid.as_str()), ("alice", "u1"));
    assert_eq!(v.groups, vec!["g1".to_string(), "g2".to_string()]);
    assert!(v.error.is_none());

    let v = k8s::token_verdict(true, "200 OK", "{}").ok().unwrap();
    assert!(!v.authenticated);
    assert_eq!(v.error.as_deref(), Some("unauthenticated"));
    let v = k8s::token_verdict(true, "200 OK", r#"{"status":{"error":"expired"}}"#).ok().unwrap();
    assert_eq!(v.error.as_deref(), Some("expired"));

    let e = k8s::token_verdict(false, "403 Forbidden", "no").err().unwrap();
    assert_eq!(e.to_string(), "api server rejected review: 403 Forbidden: no");
    assert!(matches!(k8s::access_verdict(true, "200 OK", "not json"), Err(ReviewError::ApiError(_))));
    assert!(matches!(k8s::access_verdict(true, "200 OK", r#"{"status":{"allowed":true}}"#), Ok(true)));
    assert!(matches!(k8s::access_verdict(true, "200 OK", "{}"), Ok(false)));
}

#[test]
fn url_of_the_api_server() {
    let some = |s: &str| Some(s.to_string());
    assert_eq!(k8s::api_base(&some("https://api//"), &None, &None).as_deref(), Some("https://api"));
    assert_eq!(k8s::api_base(&None, &some("10.0.0.1"), &None).as_deref(), Some("https://10.0.0.1:443"));
    assert_eq!(k8s::api_base(&None, &some("fd00::1"), &some("6443")).as_deref(), Some("https://[fd00::1]:6443"));
    assert_eq!(k8s::api_base(&None, &None, &None), None);
}
