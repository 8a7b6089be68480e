//! Authentication and authorisation by a Kubernetes cluster.
//!
//! The registry holds no credentials. A token is authenticated by a TokenReview, and
//! each operation is authorised by a SubjectAccessReview in the namespace that the
//! repository path names. What the reviews say is remembered for a while.
//!
//! A client on this machine can be let through without a review, so that a node can
//! start before there is a cluster.

use vstd::hash_map::StringHashMap;
use vstd::prelude::*;

use crate::auth;
use crate::error;
use crate::error::{OciCode, OciError, OciErrorView};
use crate::http;
use crate::http::{Method, Peer, Refusal, RefusalView};
use crate::outside;
use crate::router;
use crate::text;

verus! {

// ---- The API server -------------------------------------------------------

/// What a TokenReview says.
#[derive(Debug, Clone)]
pub struct TokenVerdict {
    pub authenticated: bool,
    pub username: String,
    pub uid: String,
    pub groups: Vec<String>,
    /// Why the token is not authenticated.
    pub error: Option<String>,
}

pub struct TokenVerdictView {
    pub authenticated: bool,
    pub username: Seq<char>,
    pub uid: Seq<char>,
    pub groups: Seq<Seq<char>>,
    pub error: Option<Seq<char>>,
}

impl View for TokenVerdict {
    type V = TokenVerdictView;

    open spec fn view(&self) -> TokenVerdictView {
        TokenVerdictView {
            authenticated: self.authenticated,
            username: self.username@,
            uid: self.uid@,
            groups: text::views(self.groups@),
            error: text::opt(self.error),
        }
    }
}

/// A SubjectAccessReview: may `user` perform `verb` on `group`/`resource` in
/// `namespace`?
#[derive(Debug, Clone)]
pub struct AccessReview {
    pub user: String,
    pub uid: String,
    pub groups: Vec<String>,
    pub namespace: String,
    pub verb: String,
    pub group: String,
    pub resource: String,
}

pub struct AccessReviewView {
    pub user: Seq<char>,
    pub uid: Seq<char>,
    pub groups: Seq<Seq<char>>,
    pub namespace: Seq<char>,
    pub verb: Seq<char>,
    pub group: Seq<char>,
    pub resource: Seq<char>,
}

impl View for AccessReview {
    type V = AccessReviewView;

    open spec fn view(&self) -> AccessReviewView {
        AccessReviewView {
            user: self.user@,
            uid: self.uid@,
            groups: text::views(self.groups@),
            namespace: self.namespace@,
            verb: self.verb@,
            group: self.group@,
            resource: self.resource@,
        }
    }
}

/// Why a review gave no verdict.
#[derive(Debug, Clone)]
pub enum ReviewError {
    Unreachable(String),
    ApiError(String),
}

impl ReviewError {
    pub open spec fn text(self) -> Seq<char> {
        match self {
            ReviewError::Unreachable(m) => "api server unreachable: "@ + m@,
            ReviewError::ApiError(m) => "api server rejected review: "@ + m@,
        }
    }

    pub fn to_string(&self) -> (r: String)
        ensures
            r@ == self.text(),
    {
        match self {
            ReviewError::Unreachable(m) => text::cat("api server unreachable: ", m.as_str()),
            ReviewError::ApiError(m) => text::cat("api server rejected review: ", m.as_str()),
        }
    }
}

/// One review with its answer.
#[allow(inconsistent_fields)]
pub enum Review {
    Token { token: Seq<char>, reply: Result<TokenVerdictView, ReviewError> },
    Access { review: AccessReviewView, reply: Result<bool, ReviewError> },
}

pub open spec fn verdict_reply(r: Result<TokenVerdict, ReviewError>) -> Result<
    TokenVerdictView,
    ReviewError,
> {
    match r {
        Ok(v) => Ok(v@),
        Err(e) => Err(e),
    }
}

/// Whoever can review tokens and accesses: the API server of a cluster. Nothing is
/// assumed of what it answers.
pub trait Reviewer: Sized {
    fn review_token(&mut self, token: &str) -> (r: Result<TokenVerdict, ReviewError>);

    fn review_access(&mut self, req: &AccessReview) -> (r: Result<bool, ReviewError>);
}

/// Reviews, with a record of what was asked.
pub trait RecordedReviewer: Sized {
    /// The reviews so far with their answers, oldest first.
    spec fn log(&self) -> Seq<Review>;

    fn review_token(&mut self, token: &str) -> (r: Result<TokenVerdict, ReviewError>)
        ensures
            final(self).log() == old(self).log().push(
                Review::Token { token: token@, reply: verdict_reply(r) },
            ),
    ;

    fn review_access(&mut self, req: &AccessReview) -> (r: Result<bool, ReviewError>)
        ensures
            final(self).log() == old(self).log().push(Review::Access { review: req@, reply: r }),
    ;
}

/// Whoever can give them, with a record.
pub struct Recorded<R> {
    pub reviewer: R,
    pub record: Ghost<Seq<Review>>,
}

impl<R> Recorded<R> {
    pub fn new(reviewer: R) -> (r: Recorded<R>)
        ensures
            r.reviewer == reviewer,
            r.record@ == Seq::<Review>::empty(),
    {
        Recorded { reviewer, record: Ghost(Seq::empty()) }
    }
}

impl<R: Reviewer> RecordedReviewer for Recorded<R> {
    open spec fn log(&self) -> Seq<Review> {
        self.record@
    }

    fn review_token(&mut self, token: &str) -> (r: Result<TokenVerdict, ReviewError>) {
        let r = self.reviewer.review_token(token);
        self.record = Ghost(
            self.record@.push(Review::Token { token: token@, reply: verdict_reply(r) }),
        );
        r
    }

    fn review_access(&mut self, req: &AccessReview) -> (r: Result<bool, ReviewError>) {
        let r = self.reviewer.review_access(req);
        self.record = Ghost(self.record@.push(Review::Access { review: req@, reply: r }));
        r
    }
}

// ---- Operations -----------------------------------------------------------

/// What kind of operation a request is.
#[derive(Debug, Clone, Copy, PartialEq, Eq, Structural)]
pub enum Action {
    Pull,
    Push,
    Delete,
    List,
    Admin,
    Version,
}

impl Action {
    pub open spec fn verb_text(self) -> Seq<char> {
        match self {
            Action::Pull => "get"@,
            Action::Push => "update"@,
            Action::Delete => "delete"@,
            Action::List => "list"@,
            Action::Admin => "update"@,
            Action::Version => "get"@,
        }
    }

    /// The verb that a review asks about.
    pub fn verb(self) -> (r: &'static str)
        ensures
            r@ == self.verb_text(),
    {
        match self {
            Action::Pull => "get",
            Action::Push => "update",
            Action::Delete => "delete",
            Action::List => "list",
            Action::Admin => "update",
            Action::Version => "get",
        }
    }
}

/// What is done, and to which repository.
#[derive(Debug, Clone)]
pub struct Operation {
    pub action: Action,
    /// None for the catalog, `/admin/` and the version probe.
    pub repo: Option<String>,
}

pub struct OperationView {
    pub action: Action,
    pub repo: Option<Seq<char>>,
}

impl View for Operation {
    type V = OperationView;

    open spec fn view(&self) -> OperationView {
        OperationView { action: self.action, repo: text::opt(self.repo) }
    }
}

/// A text that is not empty.
pub open spec fn some_text(s: Seq<char>) -> Option<Seq<char>> {
    if s.len() == 0 {
        None
    } else {
        Some(s)
    }
}

/// The first of what a marker stands between.
pub open spec fn head_of(around: Option<(Seq<char>, Seq<char>)>) -> Option<Seq<char>> {
    match around {
        Some((head, _)) => Some(head),
        None => None,
    }
}

/// The repository whose content a path behind `/v2/` reaches, as the router reads it.
pub open spec fn repo_in(rest: Seq<char>) -> Option<Seq<char>> {
    let start = router::upload_root(rest);
    if router::before_suffix(start, "/blobs/uploads"@) is Some {
        router::before_suffix(start, "/blobs/uploads"@)
    } else if router::around(rest, "/blobs/uploads/"@) is Some {
        head_of(router::around(rest, "/blobs/uploads/"@))
    } else if router::around(rest, "/manifests/"@) is Some {
        head_of(router::around(rest, "/manifests/"@))
    } else if router::around(rest, "/blobs/"@) is Some {
        head_of(router::around(rest, "/blobs/"@))
    } else {
        head_of(router::around(rest, "/referrers/"@))
    }
}

/// What a method does to content.
pub open spec fn action_of(method: Method) -> Action {
    match method {
        Method::Post | Method::Patch | Method::Put => Action::Push,
        Method::Delete => Action::Delete,
        _ => Action::Pull,
    }
}

/// The operation that a path behind `/v2/` and a method stand for.
pub open spec fn classified_under(method: Method, rest: Seq<char>) -> OperationView {
    if rest == "_catalog"@ {
        OperationView { action: Action::List, repo: None }
    } else if router::before_suffix(rest, "/tags/list"@) is Some {
        OperationView {
            action: Action::List,
            repo: router::before_suffix(rest, "/tags/list"@),
        }
    } else if repo_in(rest) is Some {
        OperationView { action: action_of(method), repo: repo_in(rest) }
    } else {
        OperationView { action: Action::Pull, repo: None }
    }
}

/// The operation that a request is. A path that is not recognised is a pull, the
/// least of all.
pub open spec fn classified(method: Method, path: Seq<char>) -> OperationView {
    if path == "/v2"@ || path == "/v2/"@ {
        OperationView { action: Action::Version, repo: None }
    } else if text::starts_with(path, "/admin/"@) {
        OperationView { action: Action::Admin, repo: None }
    } else if text::starts_with(path, "/v2/"@) {
        classified_under(method, text::from_pos(path, "/v2/"@.len() as int))
    } else {
        OperationView { action: Action::Pull, repo: None }
    }
}

fn first_of(pair: Option<(String, String)>) -> (r: Option<String>)
    ensures
        text::opt(r) == head_of(router::pair_view(pair)),
{
    match pair {
        Some((head, _)) => Some(head),
        None => None,
    }
}

fn repo_from_rest(rest: &Vec<char>) -> (r: Option<String>)
    ensures
        text::opt(r) == repo_in(rest@),
{
    let start = router::without_slash(rest);
    if let Some(repo) = router::strip_suffix(&start, "/blobs/uploads") {
        return Some(repo);
    }
    if let Some((repo, _)) = router::strip_two_suffix(rest, "/blobs/uploads/") {
        return Some(repo);
    }
    if let Some((repo, _)) = router::strip_two_suffix(rest, "/manifests/") {
        return Some(repo);
    }
    if let Some((repo, _)) = router::strip_two_suffix(rest, "/blobs/") {
        return Some(repo);
    }
    first_of(router::strip_two_suffix(rest, "/referrers/"))
}

/// Says which operation a request is, from its method and path.
pub fn classify(method: Method, path: &str) -> (r: Operation)
    ensures
        r@ == classified(method, path@),
{
    if text::same(path, "/v2") || text::same(path, "/v2/") {
        return Operation { action: Action::Version, repo: None };
    }
    let p = text::chars_of(path);
    let admin = text::chars_of("/admin/");
    if text::has_prefix(&p, &admin) {
        return Operation { action: Action::Admin, repo: None };
    }
    let root = text::chars_of("/v2/");
    if !text::has_prefix(&p, &root) {
        return Operation { action: Action::Pull, repo: None };
    }
    let rest = text::cut(&p, root.len(), p.len());
    let name = text::text_of(&rest);
    if text::same(name.as_str(), "_catalog") {
        return Operation { action: Action::List, repo: None };
    }
    if let Some(repo) = router::strip_suffix(&rest, "/tags/list") {
        return Operation { action: Action::List, repo: Some(repo) };
    }
    let repo = repo_from_rest(&rest);
    if repo.is_none() {
        return Operation { action: Action::Pull, repo: None };
    }
    let action = match method {
        Method::Post | Method::Patch | Method::Put => Action::Push,
        Method::Delete => Action::Delete,
        _ => Action::Pull,
    };
    Operation { action, repo }
}

// ---- Credentials ----------------------------------------------------------

/// `s` without `prefix` in front, whatever its ASCII letter case.
pub open spec fn behind_prefix(s: Seq<char>, prefix: Seq<char>) -> Option<Seq<char>> {
    if s.len() >= prefix.len() && text::lowered(s.subrange(0, prefix.len() as int))
        == text::lowered(prefix) {
        Some(text::from_pos(s, prefix.len() as int))
    } else {
        None
    }
}

fn strip_ci(s: &Vec<char>, prefix: &str) -> (r: Option<Vec<char>>)
    ensures
        match r {
            Some(v) => behind_prefix(s@, prefix@) == Some(v@),
            None => behind_prefix(s@, prefix@) is None,
        },
{
    let p = text::chars_of(prefix);
    if s.len() < p.len() {
        return None;
    }
    let head = text::cut(s, 0, p.len());
    if text::same_letters(&head, &p) {
        Some(text::cut(s, p.len(), s.len()))
    } else {
        None
    }
}

/// The token in decoded Basic credentials: the password, whatever the user.
pub open spec fn password_token(bytes: Seq<u8>) -> Option<Seq<char>> {
    match auth::credentials(bytes) {
        None => None,
        Some((_, p)) => some_text(p),
    }
}

/// The token in an `Authorization` header: a bearer token, or the password of Basic
/// credentials.
pub open spec fn token_in(header: Option<Seq<char>>) -> Option<Seq<char>> {
    match header {
        None => None,
        Some(h) => if behind_prefix(h, "Bearer "@) is Some {
            some_text(text::trim(behind_prefix(h, "Bearer "@)->0))
        } else if behind_prefix(h, "Basic "@) is Some {
            match outside::base64_bytes(text::trim(behind_prefix(h, "Basic "@)->0)) {
                None => None,
                Some(bytes) => password_token(bytes),
            }
        } else {
            None
        },
    }
}

/// The token in decoded Basic credentials.
pub fn token_of_password(bytes: Vec<u8>) -> (r: Option<String>)
    ensures
        text::opt(r) == password_token(bytes@),
{
    match auth::split_credentials(bytes) {
        None => None,
        Some((_, p)) => if p.as_str().is_empty() {
            None
        } else {
            Some(p)
        },
    }
}

/// Finds the token in an `Authorization` header.
pub fn extract_token(header: &Option<String>) -> (r: Option<String>)
    ensures
        text::opt(r) == token_in(text::opt(*header)),
{
    let h = match header {
        None => return None,
        Some(h) => text::chars_of(h.as_str()),
    };
    if let Some(rest) = strip_ci(&h, "Bearer ") {
        let t = text::trimmed(&rest);
        return if t.len() == 0 {
            None
        } else {
            Some(text::text_of(&t))
        };
    }
    if let Some(rest) = strip_ci(&h, "Basic ") {
        let t = text::trimmed(&rest);
        let t = text::text_of(&t);
        return match outside::base64_decode(t.as_str()) {
            None => None,
            Some(bytes) => token_of_password(bytes),
        };
    }
    None
}

/// The parts of a scope `type:name:actions`, cut at its first and last colon.
pub open spec fn scope_parts(scope: Seq<char>) -> Option<(Seq<char>, Seq<char>, Seq<char>)> {
    let first = text::first_index(scope, seq![':']);
    let last = text::last_index(scope, seq![':']);
    if !text::occurs(scope, seq![':']) || first == last {
        None
    } else {
        let kind = scope.subrange(0, first);
        let name = scope.subrange(first + 1, last);
        let actions = text::from_pos(scope, last + 1);
        if kind.len() == 0 || name.len() == 0 || actions.len() == 0 {
            None
        } else {
            Some((kind, name, actions))
        }
    }
}

/// Reads a scope of the form `repository:<name>:<actions>`.
pub fn parse_scope(scope: &str) -> (r: Option<(String, String, String)>)
    ensures
        match r {
            Some((a, b, c)) => scope_parts(scope@) == Some((a@, b@, c@)),
            None => scope_parts(scope@) is None,
        },
{
    let v = text::chars_of(scope);
    let mut colon: Vec<char> = Vec::new();
    colon.push(':');
    assert(colon@ =~= seq![':']);
    let first: usize = match text::find(&v, &colon) {
        None => return None,
        Some(i) => i,
    };
    let last: usize = match text::rfind(&v, &colon) {
        None => return None,
        Some(i) => i,
    };
    proof {
        text::lemma_first_index(v@, seq![':'], first as int);
        text::lemma_last_index(v@, seq![':'], last as int);
        assert(text::occurs_at(v@, seq![':'], last as int));
        assert(first <= last);
    }
    if first == last {
        return None;
    }
    let n: usize = v.len();
    if first == 0 || first + 1 == last || last + 1 == n {
        return None;
    }
    Some((text::piece(&v, 0, first), text::piece(&v, first + 1, last), text::piece(&v, last + 1, n)))
}

// ---- Remembered verdicts --------------------------------------------------

/// A value that can be handed out again.
pub trait Keep: View + Sized {
    fn dup(&self) -> (r: Self)
        ensures
            r@ == self@,
    ;
}

impl Keep for bool {
    fn dup(&self) -> (r: bool) {
        *self
    }
}

impl Keep for TokenVerdict {
    fn dup(&self) -> (r: TokenVerdict) {
        let r = TokenVerdict {
            authenticated: self.authenticated,
            username: self.username.clone(),
            uid: self.uid.clone(),
            groups: text::dup_all(&self.groups),
            error: self.error.clone(),
        };
        r
    }
}

#[derive(Debug)]
pub struct Cached<T> {
    pub value: T,
    /// The time from which the value is no longer good.
    pub expires: u64,
}

/// Values that are good for a while.
#[verifier::reject_recursive_types(T)]
pub struct Cache<T> {
    pub entries: StringHashMap<Cached<T>>,
}

/// The values of a cache with the times from which they are no longer good.
pub type Remembered<V> = Map<Seq<char>, (V, u64)>;

impl<T: Keep> View for Cache<T> {
    type V = Remembered<T::V>;

    open spec fn view(&self) -> Remembered<T::V> {
        self.entries@.map_values(|c: Cached<T>| (c.value@, c.expires))
    }
}

/// There is a value of `key` that is still good.
pub open spec fn fresh<V>(m: Remembered<V>, key: Seq<char>, now: u64) -> bool {
    m.contains_key(key) && now < m[key].1
}

/// What is remembered after `key` was looked up: a value that is no longer good is
/// dropped.
pub open spec fn looked_up<V>(m: Remembered<V>, key: Seq<char>, now: u64) -> Remembered<V> {
    if m.contains_key(key) && !fresh(m, key, now) {
        m.remove(key)
    } else {
        m
    }
}

/// The time from which a value kept at `now` is no longer good.
pub open spec fn expiry(now: u64, ttl: u64) -> u64 {
    if now + ttl > u64::MAX {
        u64::MAX
    } else {
        (now + ttl) as u64
    }
}

impl<T: Keep> Cache<T> {
    pub fn new() -> (r: Cache<T>)
        ensures
            r@ == Map::<Seq<char>, (T::V, u64)>::empty(),
    {
        let r = Cache { entries: StringHashMap::new() };
        assert(r@ =~= Map::<Seq<char>, (T::V, u64)>::empty());
        r
    }

    /// The value of `key`, if there is one that is still good.
    fn get_cached(&mut self, key: &str, now: u64) -> (r: Option<T>)
        ensures
            final(self)@ == looked_up(old(self)@, key@, now),
            match r {
                Some(v) => fresh(old(self)@, key@, now) && v@ == old(self)@[key@].0,
                None => !fresh(old(self)@, key@, now),
            },
    {
        let stale: bool = match self.entries.get(key) {
            None => return None,
            Some(c) => {
                if now < c.expires {
                    return Some(c.value.dup());
                }
                true
            },
        };
        let ghost was = self@;
        if stale {
            self.entries.remove(key);
            assert(self@ =~= was.remove(key@));
        }
        None
    }

    /// Keeps a value for the time `ttl`.
    fn put_cached(&mut self, key: String, value: T, now: u64, ttl: u64)
        ensures
            final(self)@ == old(self)@.insert(key@, (value@, expiry(now, ttl))),
    {
        let ghost was = self@;
        let expires: u64 = now.saturating_add(ttl);
        self.entries.insert(key, Cached { value, expires });
        assert(self@ =~= was.insert(key@, (value@, expires)));
    }
}

/// The key of a token: its hash, so that no token is kept.
pub open spec fn token_key(token: Seq<char>) -> Seq<char> {
    outside::hex_text(outside::sha256(vstd::utf8::encode_utf8(token)))
}

fn cache_key(token: &str) -> (r: String)
    ensures
        r@ == token_key(token@),
{
    outside::hex_encode(outside::hash_sha256(token.as_bytes()).as_slice())
}

/// The key of an access: who does what where, without the groups.
pub open spec fn access_key(a: AccessReviewView) -> Seq<char> {
    a.user + seq!['\u{1f}'] + a.namespace + seq!['\u{1f}'] + a.verb + seq!['\u{1f}'] + a.group
        + seq!['\u{1f}'] + a.resource
}

fn review_key(a: &AccessReview) -> (r: String)
    ensures
        r@ == access_key(a@),
{
    let mut k = a.user.clone();
    k.push('\u{1f}');
    k.append(a.namespace.as_str());
    k.push('\u{1f}');
    k.append(a.verb.as_str());
    k.push('\u{1f}');
    k.append(a.group.as_str());
    k.push('\u{1f}');
    k.append(a.resource.as_str());
    assert(k@ =~= access_key(a@));
    k
}

// ---- The decision ---------------------------------------------------------

#[derive(Debug, Clone)]
pub struct K8sAuthConfig {
    /// The API group of the resource that reviews ask about.
    pub resource_group: String,
    /// The resource that reviews ask about.
    pub resource: String,
    /// The namespace for a repository without one and for what concerns none.
    /// Without it such a request is denied.
    pub default_namespace: Option<String>,
    /// For how many milliseconds a verdict is remembered.
    pub cache_ttl: u64,
    /// Whether a client on this machine is let through.
    pub allow_loopback: bool,
    /// The `realm` of the challenge.
    pub token_realm: String,
    /// The `service` of the challenge.
    pub service: String,
}

/// Why a request is refused.
#[derive(Debug)]
pub enum AuthReject {
    /// There is no valid token.
    Unauthorized(String),
    /// The token is valid, but its owner may not do this.
    Denied(String),
    /// There was no verdict.
    Unavailable(String),
}

pub enum RejectView {
    Unauthorized(Seq<char>),
    Denied(Seq<char>),
    Unavailable(Seq<char>),
}

impl View for AuthReject {
    type V = RejectView;

    open spec fn view(&self) -> RejectView {
        match *self {
            AuthReject::Unauthorized(m) => RejectView::Unauthorized(m@),
            AuthReject::Denied(m) => RejectView::Denied(m@),
            AuthReject::Unavailable(m) => RejectView::Unavailable(m@),
        }
    }
}

/// How a request stands.
#[derive(Debug)]
pub enum Step {
    Allowed,
    Rejected(AuthReject),
    /// This token is to be reviewed.
    NeedToken(String),
    /// This access is to be reviewed.
    NeedAccess(AccessReview),
}

pub enum StepView {
    Allowed,
    Rejected(RejectView),
    NeedToken(Seq<char>),
    NeedAccess(AccessReviewView),
}

impl View for Step {
    type V = StepView;

    open spec fn view(&self) -> StepView {
        match *self {
            Step::Allowed => StepView::Allowed,
            Step::Rejected(x) => StepView::Rejected(x@),
            Step::NeedToken(t) => StepView::NeedToken(t@),
            Step::NeedAccess(a) => StepView::NeedAccess(a@),
        }
    }
}

/// The namespace that an operation is authorised in: the first part of the
/// repository path, where it has more than one, else the default.
pub open spec fn namespace_of(cfg: K8sAuthConfig, op: OperationView) -> Option<Seq<char>> {
    if op.repo is Some && op.repo->0.contains('/') && text::index_of(op.repo->0, '/') > 0 {
        Some(op.repo->0.subrange(0, text::index_of(op.repo->0, '/')))
    } else {
        text::opt(cfg.default_namespace)
    }
}

/// The review of an operation by the owner of a token.
pub open spec fn review_of(
    cfg: K8sAuthConfig,
    op: OperationView,
    v: TokenVerdictView,
    namespace: Seq<char>,
) -> AccessReviewView {
    AccessReviewView {
        user: v.username,
        uid: v.uid,
        groups: v.groups,
        namespace,
        verb: op.action.verb_text(),
        group: cfg.resource_group@,
        resource: cfg.resource@,
    }
}

/// Why a token that was reviewed is refused.
pub open spec fn token_refused(v: TokenVerdictView) -> RejectView {
    RejectView::Unauthorized(
        match v.error {
            Some(m) => m,
            None => "token failed authentication"@,
        },
    )
}

pub open spec fn no_namespace() -> RejectView {
    RejectView::Denied("repository has no namespace and no --auth-k8s-default-ns is set"@)
}

pub open spec fn access_denied(a: AccessReviewView) -> RejectView {
    RejectView::Denied(
        "user "@ + text::debug_text(a.user) + " may not "@ + a.verb + " "@ + a.group + "/"@
            + a.resource + " in namespace "@ + text::debug_text(a.namespace),
    )
}

/// What a verdict on an access means.
pub open spec fn decision(a: AccessReviewView, allowed: bool) -> StepView {
    if allowed {
        StepView::Allowed
    } else {
        StepView::Rejected(access_denied(a))
    }
}

/// The request needs no token: it probes the version, or it comes from this machine
/// and such clients are let through.
pub open spec fn let_through(cfg: K8sAuthConfig, op: OperationView, peer: Option<Peer>) -> bool {
    op.action == Action::Version || (cfg.allow_loopback && peer is Some && peer->0.loopback())
}

/// What is remembered of reviews.
pub struct Memory {
    pub tokens: Remembered<TokenVerdictView>,
    pub accesses: Remembered<bool>,
}

/// How a request stands once its token has a verdict, and what is remembered then.
pub open spec fn with_verdict(
    cfg: K8sAuthConfig,
    op: OperationView,
    v: TokenVerdictView,
    m: Memory,
    now: u64,
) -> (StepView, Memory) {
    if !v.authenticated {
        (StepView::Rejected(token_refused(v)), m)
    } else {
        match namespace_of(cfg, op) {
            None => (StepView::Rejected(no_namespace()), m),
            Some(ns) => {
                let a = review_of(cfg, op, v, ns);
                let key = access_key(a);
                (
                    if fresh(m.accesses, key, now) {
                        decision(a, m.accesses[key].0)
                    } else {
                        StepView::NeedAccess(a)
                    },
                    Memory { accesses: looked_up(m.accesses, key, now), ..m },
                )
            },
        }
    }
}

/// How a request stands at first, and what is remembered then.
pub open spec fn begun(
    cfg: K8sAuthConfig,
    op: OperationView,
    header: Option<Seq<char>>,
    peer: Option<Peer>,
    m: Memory,
    now: u64,
) -> (StepView, Memory) {
    if let_through(cfg, op, peer) {
        (StepView::Allowed, m)
    } else {
        match token_in(header) {
            None => (
                StepView::Rejected(RejectView::Unauthorized("no bearer token presented"@)),
                m,
            ),
            Some(token) => {
                let key = token_key(token);
                let after = Memory { tokens: looked_up(m.tokens, key, now), ..m };
                if fresh(m.tokens, key, now) {
                    with_verdict(cfg, op, m.tokens[key].0, after, now)
                } else {
                    (StepView::NeedToken(token), after)
                }
            },
        }
    }
}

/// What is remembered once a token was reviewed.
pub open spec fn token_noted(
    cfg: K8sAuthConfig,
    token: Seq<char>,
    reply: Result<TokenVerdictView, ReviewError>,
    m: Memory,
    now: u64,
) -> Memory {
    match reply {
        Err(_) => m,
        Ok(v) => Memory {
            tokens: m.tokens.insert(token_key(token), (v, expiry(now, cfg.cache_ttl))),
            ..m
        },
    }
}

/// How a request stands once its token was reviewed, and what is remembered then.
/// Good and bad verdicts are both remembered.
pub open spec fn token_told(
    cfg: K8sAuthConfig,
    op: OperationView,
    token: Seq<char>,
    reply: Result<TokenVerdictView, ReviewError>,
    m: Memory,
    now: u64,
) -> (StepView, Memory) {
    match reply {
        Err(e) => (StepView::Rejected(RejectView::Unavailable(e.text())), m),
        Ok(v) => with_verdict(cfg, op, v, token_noted(cfg, token, reply, m, now), now),
    }
}

/// How a request stands once its access was reviewed, and what is remembered then.
pub open spec fn access_told(
    cfg: K8sAuthConfig,
    a: AccessReviewView,
    reply: Result<bool, ReviewError>,
    m: Memory,
    now: u64,
) -> (StepView, Memory) {
    match reply {
        Err(e) => (StepView::Rejected(RejectView::Unavailable(e.text())), m),
        Ok(allowed) => (
            decision(a, allowed),
            Memory {
                accesses: m.accesses.insert(
                    access_key(a),
                    (allowed, expiry(now, cfg.cache_ttl)),
                ),
                ..m
            },
        ),
    }
}

/// Delegates authentication and authorisation to a cluster.
pub struct K8sAuth<R> {
    pub cfg: K8sAuthConfig,
    pub reviewer: R,
    pub tokens: Cache<TokenVerdict>,
    pub accesses: Cache<bool>,
}

impl<R> K8sAuth<R> {
    /// What is remembered.
    pub open spec fn memory(&self) -> Memory {
        Memory { tokens: self.tokens@, accesses: self.accesses@ }
    }

    pub fn new(cfg: K8sAuthConfig, reviewer: R) -> (r: K8sAuth<R>)
        ensures
            r.cfg == cfg,
            r.reviewer == reviewer,
            r.memory() == (Memory { tokens: Map::empty(), accesses: Map::empty() }),
    {
        K8sAuth { cfg, reviewer, tokens: Cache::new(), accesses: Cache::new() }
    }

    pub open spec fn challenge(&self) -> Seq<char> {
        "Bearer realm=\""@ + self.cfg.token_realm@ + "\",service=\""@ + self.cfg.service@ + "\""@
    }

    /// The value of `WWW-Authenticate` that asks for a bearer token.
    pub fn bearer_challenge(&self) -> (r: String)
        ensures
            r@ == self.challenge(),
    {
        let mut s = text::cat3(
            "Bearer realm=\"",
            self.cfg.token_realm.as_str(),
            "\",service=\"",
        );
        s.append(self.cfg.service.as_str());
        s.append("\"");
        s
    }

    /// For how many whole seconds a verdict is remembered.
    pub fn cache_ttl_secs(&self) -> (r: u64)
        ensures
            r == self.cfg.cache_ttl / 1000,
    {
        self.cfg.cache_ttl / 1000
    }

    fn namespace_for(&self, op: &Operation) -> (r: Option<String>)
        ensures
            text::opt(r) == namespace_of(self.cfg, op@),
    {
        if let Some(repo) = &op.repo {
            let v = text::chars_of(repo.as_str());
            if let Some(i) = text::find_char(&v, '/') {
                proof {
                    text::lemma_index_of(v@, '/', i as int);
                }
                if i > 0 {
                    return Some(text::piece(&v, 0, i));
                }
            }
        }
        self.cfg.default_namespace.clone()
    }

    fn denied(a: &AccessReview) -> (r: AuthReject)
        ensures
            r@ == access_denied(a@),
    {
        let user = text::debug_quote(a.user.as_str());
        let namespace = text::debug_quote(a.namespace.as_str());
        let mut m = text::cat3("user ", user.as_str(), " may not ");
        m.append(a.verb.as_str());
        m.append(" ");
        m.append(a.group.as_str());
        m.append("/");
        m.append(a.resource.as_str());
        m.append(" in namespace ");
        m.append(namespace.as_str());
        AuthReject::Denied(m)
    }

    fn decide(a: &AccessReview, allowed: bool) -> (r: Step)
        ensures
            r@ == decision(a@, allowed),
    {
        if allowed {
            Step::Allowed
        } else {
            Step::Rejected(Self::denied(a))
        }
    }

    fn refused(v: TokenVerdict) -> (r: AuthReject)
        ensures
            r@ == token_refused(v@),
    {
        match v.error {
            Some(m) => AuthReject::Unauthorized(m),
            None => AuthReject::Unauthorized("token failed authentication".to_owned()),
        }
    }

    fn judge(&mut self, op: &Operation, v: TokenVerdict, now: u64) -> (r: Step)
        ensures
            final(self).cfg == old(self).cfg,
            final(self).reviewer == old(self).reviewer,
            (r@, final(self).memory()) == with_verdict(
                old(self).cfg,
                op@,
                v@,
                old(self).memory(),
                now,
            ),
    {
        if !v.authenticated {
            return Step::Rejected(Self::refused(v));
        }
        let namespace = match self.namespace_for(op) {
            Some(ns) => ns,
            None => return Step::Rejected(
                AuthReject::Denied(
                    "repository has no namespace and no --auth-k8s-default-ns is set".to_owned(),
                ),
            ),
        };
        let a = AccessReview {
            user: v.username,
            uid: v.uid,
            groups: v.groups,
            namespace,
            verb: op.action.verb().to_owned(),
            group: self.cfg.resource_group.clone(),
            resource: self.cfg.resource.clone(),
        };
        let key = review_key(&a);
        match self.accesses.get_cached(key.as_str(), now) {
            Some(allowed) => Self::decide(&a, allowed),
            None => Step::NeedAccess(a),
        }
    }

    /// Looks at a request. `header` is its `Authorization` header.
    pub fn begin(
        &mut self,
        op: &Operation,
        header: &Option<String>,
        peer: Option<Peer>,
        now: u64,
    ) -> (r: Step)
        ensures
            final(self).cfg == old(self).cfg,
            final(self).reviewer == old(self).reviewer,
            (r@, final(self).memory()) == begun(
                old(self).cfg,
                op@,
                text::opt(*header),
                peer,
                old(self).memory(),
                now,
            ),
    {
        if op.action == Action::Version {
            return Step::Allowed;
        }
        if self.cfg.allow_loopback {
            if let Some(p) = peer {
                if p.is_loopback() {
                    return Step::Allowed;
                }
            }
        }
        let token = match extract_token(header) {
            Some(t) => t,
            None => return Step::Rejected(
                AuthReject::Unauthorized("no bearer token presented".to_owned()),
            ),
        };
        let key = cache_key(token.as_str());
        match self.tokens.get_cached(key.as_str(), now) {
            Some(v) => self.judge(op, v, now),
            None => Step::NeedToken(token),
        }
    }

    /// Goes on with a request whose token was reviewed.
    pub fn token_reviewed(
        &mut self,
        op: &Operation,
        token: &str,
        reply: Result<TokenVerdict, ReviewError>,
        now: u64,
    ) -> (r: Step)
        ensures
            final(self).cfg == old(self).cfg,
            final(self).reviewer == old(self).reviewer,
            (r@, final(self).memory()) == token_told(
                old(self).cfg,
                op@,
                token@,
                verdict_reply(reply),
                old(self).memory(),
                now,
            ),
    {
        match reply {
            Err(e) => Step::Rejected(AuthReject::Unavailable(e.to_string())),
            Ok(v) => {
                let kept = v.dup();
                let ttl: u64 = self.cfg.cache_ttl;
                self.tokens.put_cached(cache_key(token), kept, now, ttl);
                self.judge(op, v, now)
            },
        }
    }

    /// Goes on with a request whose access was reviewed.
    pub fn access_reviewed(
        &mut self,
        a: &AccessReview,
        reply: Result<bool, ReviewError>,
        now: u64,
    ) -> (r: Step)
        ensures
            final(self).cfg == old(self).cfg,
            final(self).reviewer == old(self).reviewer,
            (r@, final(self).memory()) == access_told(
                old(self).cfg,
                a@,
                reply,
                old(self).memory(),
                now,
            ),
    {
        match reply {
            Err(e) => Step::Rejected(AuthReject::Unavailable(e.to_string())),
            Ok(allowed) => {
                let ttl: u64 = self.cfg.cache_ttl;
                self.accesses.put_cached(review_key(a), allowed, now, ttl);
                Self::decide(a, allowed)
            },
        }
    }
}

/// How a step ends a check.
pub open spec fn ends(s: StepView, r: Result<(), AuthReject>) -> bool {
    match s {
        StepView::Allowed => r is Ok,
        StepView::Rejected(x) => r is Err && r->Err_0@ == x,
        _ => false,
    }
}

/// A review of an access that ended a check.
pub open spec fn access_checked(
    cfg: K8sAuthConfig,
    reviews: Seq<Review>,
    a: AccessReviewView,
    was: Memory,
    after: Memory,
    now: u64,
    r: Result<(), AuthReject>,
) -> bool {
    &&& reviews.len() == 1
    &&& match reviews[0] {
        Review::Access { review, reply } => {
            let (step, m) = access_told(cfg, a, reply, was, now);
            review == a && after == m && ends(step, r)
        },
        _ => false,
    }
}

/// The reviews of a check, what was remembered before and after it, and how it
/// ended. A token and an access are reviewed only where no good verdict on them is
/// remembered.
pub open spec fn checked(
    cfg: K8sAuthConfig,
    reviews: Seq<Review>,
    op: OperationView,
    header: Option<Seq<char>>,
    peer: Option<Peer>,
    was: Memory,
    after: Memory,
    now: u64,
    r: Result<(), AuthReject>,
) -> bool {
    let (first, m0) = begun(cfg, op, header, peer, was, now);
    match first {
        StepView::NeedToken(token) => reviews.len() > 0 && match reviews[0] {
            Review::Token { token: t, reply } => t == token && {
                let (second, m1) = token_told(cfg, op, token, reply, m0, now);
                match second {
                    StepView::NeedAccess(a) => access_checked(
                        cfg,
                        reviews.drop_first(),
                        a,
                        m1,
                        after,
                        now,
                        r,
                    ),
                    _ => reviews.len() == 1 && after == m1 && ends(second, r),
                }
            },
            _ => false,
        },
        StepView::NeedAccess(a) => access_checked(cfg, reviews, a, m0, after, now, r),
        _ => reviews.len() == 0 && after == m0 && ends(first, r),
    }
}

/// The reviews added to a record.
pub open spec fn newly(before: Seq<Review>, after: Seq<Review>) -> Seq<Review> {
    after.subrange(before.len() as int, after.len() as int)
}

/// `after` is `before` with more reviews behind it.
pub open spec fn grown(before: Seq<Review>, after: Seq<Review>) -> bool {
    before.len() <= after.len() && after.subrange(0, before.len() as int) == before
}

/// What asking for a verdict on a token gives, with the reviews that were made and
/// what was remembered before and after.
pub open spec fn verdict_given(
    cfg: K8sAuthConfig,
    reviews: Seq<Review>,
    token: Seq<char>,
    was: Memory,
    after: Memory,
    now: u64,
    r: Result<TokenVerdictView, RejectView>,
) -> bool {
    let key = token_key(token);
    let m0 = Memory { tokens: looked_up(was.tokens, key, now), ..was };
    if fresh(was.tokens, key, now) {
        reviews.len() == 0 && after == m0 && r == Ok::<_, RejectView>(was.tokens[key].0)
    } else {
        reviews.len() == 1 && match reviews[0] {
            Review::Token { token: t, reply } => {
                &&& t == token
                &&& after == token_noted(cfg, token, reply, m0, now)
                &&& r == match reply {
                    Ok(v) => Ok::<TokenVerdictView, RejectView>(v),
                    Err(e) => Err(RejectView::Unavailable(e.text())),
                }
            },
            _ => false,
        }
    }
}

pub open spec fn verdict_view(r: Result<TokenVerdict, AuthReject>) -> Result<
    TokenVerdictView,
    RejectView,
> {
    match r {
        Ok(v) => Ok(v@),
        Err(x) => Err(x@),
    }
}

/// A token that was granted.
#[derive(Debug)]
pub struct Grant {
    pub token: String,
    /// For how many seconds it is good.
    pub expires_in: u64,
}

pub open spec fn grant_of(cfg: K8sAuthConfig, token: Seq<char>, r: Result<Grant, AuthReject>) -> bool {
    r is Ok && r->Ok_0.token@ == token && r->Ok_0.expires_in == cfg.cache_ttl / 1000
}

/// What a verdict on the token that was presented for exchange leads to.
pub open spec fn exchanged(
    cfg: K8sAuthConfig,
    token: Seq<char>,
    v: Result<TokenVerdictView, RejectView>,
    r: Result<Grant, AuthReject>,
) -> bool {
    match v {
        Err(x) => r is Err && r->Err_0@ == x,
        Ok(v) => if v.authenticated {
            grant_of(cfg, token, r)
        } else {
            r is Err && r->Err_0@ == token_refused(v)
        },
    }
}

impl<R> K8sAuth<R> {
    /// A verdict on a token that is remembered.
    pub fn remembered_verdict(&mut self, token: &str, now: u64) -> (r: Option<TokenVerdict>)
        ensures
            final(self).cfg == old(self).cfg,
            final(self).reviewer == old(self).reviewer,
            final(self).memory() == (Memory {
                tokens: looked_up(old(self).memory().tokens, token_key(token@), now),
                ..old(self).memory()
            }),
            match r {
                Some(v) => {
                    &&& fresh(old(self).memory().tokens, token_key(token@), now)
                    &&& v@ == old(self).memory().tokens[token_key(token@)].0
                },
                None => !fresh(old(self).memory().tokens, token_key(token@), now),
            },
    {
        let key = cache_key(token);
        self.tokens.get_cached(key.as_str(), now)
    }

    /// Remembers the verdict on a token.
    pub fn note_verdict(
        &mut self,
        token: &str,
        reply: Result<TokenVerdict, ReviewError>,
        now: u64,
    ) -> (r: Result<TokenVerdict, AuthReject>)
        ensures
            final(self).cfg == old(self).cfg,
            final(self).reviewer == old(self).reviewer,
            final(self).memory() == token_noted(
                old(self).cfg,
                token@,
                verdict_reply(reply),
                old(self).memory(),
                now,
            ),
            match reply {
                Ok(v) => r is Ok && r->Ok_0@ == v@,
                Err(e) => r is Err && r->Err_0@ == RejectView::Unavailable(e.text()),
            },
    {
        match reply {
            Err(e) => Err(AuthReject::Unavailable(e.to_string())),
            Ok(v) => {
                let kept = v.dup();
                let ttl: u64 = self.cfg.cache_ttl;
                self.tokens.put_cached(cache_key(token), kept, now, ttl);
                Ok(v)
            },
        }
    }

    /// Exchanges a token for itself, once there is a verdict on it.
    pub fn exchange(&self, token: String, verdict: Result<TokenVerdict, AuthReject>) -> (r: Result<
        Grant,
        AuthReject,
    >)
        ensures
            exchanged(
                self.cfg,
                token@,
                verdict_view(verdict),
                r,
            ),
    {
        match verdict {
            Err(x) => Err(x),
            Ok(v) => if v.authenticated {
                Ok(Grant { token, expires_in: self.cache_ttl_secs() })
            } else {
                Err(Self::refused(v))
            },
        }
    }
}

/// The token that is presented for exchange.
pub fn presented(header: &Option<String>) -> (r: Result<String, AuthReject>)
    ensures
        match r {
            Ok(t) => token_in(text::opt(*header)) == Some(t@),
            Err(x) => token_in(text::opt(*header)) is None && x@ == RejectView::Unauthorized(
                "no credentials presented to token endpoint"@,
            ),
        },
{
    match extract_token(header) {
        Some(t) => Ok(t),
        None => Err(
            AuthReject::Unauthorized("no credentials presented to token endpoint".to_owned()),
        ),
    }
}

impl<R: RecordedReviewer> K8sAuth<R> {
    /// The reviews so far with their answers, oldest first.
    pub open spec fn reviews(&self) -> Seq<Review> {
        self.reviewer.log()
    }

    fn ask_token(&mut self, token: &str) -> (r: Result<TokenVerdict, ReviewError>)
        ensures
            final(self).cfg == old(self).cfg,
            final(self).memory() == old(self).memory(),
            final(self).reviews() == old(self).reviews().push(
                Review::Token { token: token@, reply: verdict_reply(r) },
            ),
    {
        self.reviewer.review_token(token)
    }

    fn ask_access(&mut self, a: &AccessReview) -> (r: Result<bool, ReviewError>)
        ensures
            final(self).cfg == old(self).cfg,
            final(self).memory() == old(self).memory(),
            final(self).reviews() == old(self).reviews().push(
                Review::Access { review: a@, reply: r },
            ),
    {
        self.reviewer.review_access(a)
    }

    /// Decides whether a request may go on at the time `now`. `header` is its
    /// `Authorization` header, `peer` the address it comes from, where that is known.
    pub fn check(
        &mut self,
        op: &Operation,
        header: &Option<String>,
        peer: Option<Peer>,
        now: u64,
    ) -> (r: Result<(), AuthReject>)
        ensures
            final(self).cfg == old(self).cfg,
            grown(old(self).reviews(), final(self).reviews()),
            checked(
                old(self).cfg,
                newly(old(self).reviews(), final(self).reviews()),
                op@,
                text::opt(*header),
                peer,
                old(self).memory(),
                final(self).memory(),
                now,
                r,
            ),
    {
        let ghost start = self.reviews();
        assert(start.subrange(0, start.len() as int) =~= start);
        assert(newly(start, start) =~= Seq::<Review>::empty());
        let mut step = self.begin(op, header, peer, now);
        if let Step::NeedToken(token) = step {
            let reply = self.ask_token(token.as_str());
            proof {
                let c = self.reviews().last();
                assert(self.reviews().subrange(0, start.len() as int) =~= start);
                assert(newly(start, self.reviews()) =~= seq![c]);
            }
            step = self.token_reviewed(op, token.as_str(), reply, now);
        }
        let ghost mid = self.reviews();
        if let Step::NeedAccess(a) = step {
            let reply = self.ask_access(&a);
            proof {
                let c = self.reviews().last();
                assert(self.reviews().subrange(0, start.len() as int) =~= start) by {
                    assert(mid.subrange(0, start.len() as int) =~= start);
                    assert forall|i: int| 0 <= i < start.len() implies mid[i] == start[i] by {
                        assert(mid.subrange(0, start.len() as int)[i] == start[i]);
                    }
                }
                assert(newly(start, self.reviews()) =~= newly(start, mid).push(c));
                if newly(start, mid).len() == 1 {
                    assert(newly(start, self.reviews()).drop_first() =~= seq![c]);
                }
            }
            step = self.access_reviewed(&a, reply, now);
        }
        match step {
            Step::Allowed => Ok(()),
            Step::Rejected(x) => Err(x),
            // No step is left that asks for a review.
            _ => Err(AuthReject::Unavailable("undecided".to_owned())),
        }
    }

    /// A verdict on a token: the remembered one, where it is still good, else by a
    /// review.
    pub fn verify_token(&mut self, token: &str, now: u64) -> (r: Result<TokenVerdict, AuthReject>)
        ensures
            final(self).cfg == old(self).cfg,
            grown(old(self).reviews(), final(self).reviews()),
            verdict_given(
                old(self).cfg,
                newly(old(self).reviews(), final(self).reviews()),
                token@,
                old(self).memory(),
                final(self).memory(),
                now,
                verdict_view(r),
            ),
    {
        let ghost start = self.reviews();
        assert(start.subrange(0, start.len() as int) =~= start);
        assert(newly(start, start) =~= Seq::<Review>::empty());
        if let Some(v) = self.remembered_verdict(token, now) {
            return Ok(v);
        }
        let reply = self.ask_token(token);
        proof {
            let c = self.reviews().last();
            assert(self.reviews().subrange(0, start.len() as int) =~= start);
            assert(newly(start, self.reviews()) =~= seq![c]);
        }
        self.note_verdict(token, reply, now)
    }
}

/// What an exchange of the token in a header gives, with the reviews that were made.
pub open spec fn token_exchanged(
    cfg: K8sAuthConfig,
    reviews: Seq<Review>,
    header: Option<Seq<char>>,
    was: Memory,
    after: Memory,
    now: u64,
    r: Result<Grant, AuthReject>,
) -> bool {
    match token_in(header) {
        None => {
            &&& reviews.len() == 0
            &&& after == was
            &&& r is Err
            &&& r->Err_0@ == RejectView::Unauthorized(
                "no credentials presented to token endpoint"@,
            )
        },
        Some(token) => exists|v: Result<TokenVerdictView, RejectView>|
            #[trigger] verdict_given(cfg, reviews, token, was, after, now, v) && exchanged(
                cfg,
                token,
                v,
                r,
            ),
    }
}

/// Exchanges the token in an `Authorization` header for a bearer token: itself, once
/// it is authenticated.
pub fn token_endpoint<R: RecordedReviewer>(auth: &mut K8sAuth<R>, header: &Option<String>, now: u64) -> (r:
    Result<Grant, AuthReject>)
    ensures
        final(auth).cfg == old(auth).cfg,
        grown(old(auth).reviews(), final(auth).reviews()),
        token_exchanged(
            old(auth).cfg,
            newly(old(auth).reviews(), final(auth).reviews()),
            text::opt(*header),
            old(auth).memory(),
            final(auth).memory(),
            now,
            r,
        ),
{
    let ghost start = auth.reviews();
    assert(start.subrange(0, start.len() as int) =~= start);
    assert(newly(start, start) =~= Seq::<Review>::empty());
    let token = match presented(header) {
        Err(x) => return Err(x),
        Ok(t) => t,
    };
    let ghost t = token@;
    let verdict = auth.verify_token(token.as_str(), now);
    let ghost v = verdict_view(verdict);
    let r = auth.exchange(token, verdict);
    proof {
        let made = newly(start, auth.reviews());
        assert(token_in(text::opt(*header))->0 == t);
        assert(verdict_given(auth.cfg, made, t, old(auth).memory(), auth.memory(), now, v));
        assert(exchanged(auth.cfg, t, v, r));
    }
    r
}

impl AuthReject {
    /// The response that refuses a request; where a token is missing it carries the
    /// challenge.
    pub fn into_response<R>(self, auth: &K8sAuth<R>) -> (r: Refusal)
        ensures
            r@ == refusal_of(self@, auth.challenge()),
    {
        match self {
            AuthReject::Unauthorized(m) => Refusal::with_header(
                OciError::new(OciCode::Unauthorized, m).with_status(401),
                "www-authenticate",
                auth.bearer_challenge(),
            ),
            AuthReject::Denied(m) => Refusal::plain(
                OciError::new(OciCode::Denied, m).with_status(403),
            ),
            AuthReject::Unavailable(m) => Refusal::plain(
                OciError::new(
                    OciCode::Unsupported,
                    text::cat("auth backend unavailable: ", m.as_str()),
                ).with_status(503),
            ),
        }
    }
}

/// The response that refuses a request.
pub open spec fn refusal_of(x: RejectView, challenge: Seq<char>) -> RefusalView {
    match x {
        RejectView::Unauthorized(m) => RefusalView {
            error: OciErrorView { status: 401, ..error::plain_error(OciCode::Unauthorized, m) },
            headers: http::one_header("www-authenticate"@, challenge),
        },
        RejectView::Denied(m) => RefusalView {
            error: OciErrorView { status: 403, ..error::plain_error(OciCode::Denied, m) },
            headers: Seq::empty(),
        },
        RejectView::Unavailable(m) => RefusalView {
            error: OciErrorView {
                status: 503,
                ..error::plain_error(OciCode::Unsupported, "auth backend unavailable: "@ + m)
            },
            headers: Seq::empty(),
        },
    }
}

// ---- Replies of the API server --------------------------------------------

/// What is wrong with a reply of the API server.
pub open spec fn reply_problem(success: bool, status: Seq<char>, body: Seq<char>) -> Option<
    ReviewErrorView,
> {
    if !success {
        Some(ReviewErrorView::ApiError(status + ": "@ + body))
    } else {
        match outside::json_problem(vstd::utf8::encode_utf8(body)) {
            Some(m) => Some(ReviewErrorView::ApiError(m)),
            None => None,
        }
    }
}

pub enum ReviewErrorView {
    Unreachable(Seq<char>),
    ApiError(Seq<char>),
}

impl View for ReviewError {
    type V = ReviewErrorView;

    open spec fn view(&self) -> ReviewErrorView {
        match *self {
            ReviewError::Unreachable(m) => ReviewErrorView::Unreachable(m@),
            ReviewError::ApiError(m) => ReviewErrorView::ApiError(m@),
        }
    }
}

fn check_reply(success: bool, status: &str, body: &str) -> (r: Option<ReviewError>)
    ensures
        match r {
            Some(e) => reply_problem(success, status@, body@) == Some(e@),
            None => reply_problem(success, status@, body@) is None,
        },
{
    if !success {
        return Some(ReviewError::ApiError(text::cat3(status, ": ", body)));
    }
    match outside::json_check(body.as_bytes()) {
        Some(m) => Some(ReviewError::ApiError(m)),
        None => None,
    }
}

pub open spec fn or_else(o: Option<Seq<char>>, d: Seq<char>) -> Seq<char> {
    match o {
        Some(s) => s,
        None => d,
    }
}

/// The first `n` of a list of groups, those that are texts.
pub open spec fn groups_in(content: Seq<u8>, n: nat) -> Seq<Seq<char>>
    decreases n,
{
    if n == 0 {
        Seq::empty()
    } else {
        let rest = groups_in(content, (n - 1) as nat);
        match outside::json_text(
            content,
            "/status/user/groups/"@ + text::decimal((n - 1) as nat),
        ) {
            Some(g) => rest.push(g),
            None => rest,
        }
    }
}

/// The verdict in the body of a TokenReview.
pub open spec fn verdict_in(content: Seq<u8>) -> TokenVerdictView {
    let authenticated = outside::json_flag(content, "/status/authenticated"@) == Some(true);
    TokenVerdictView {
        authenticated,
        username: or_else(outside::json_text(content, "/status/user/username"@), ""@),
        uid: or_else(outside::json_text(content, "/status/user/uid"@), ""@),
        groups: match outside::json_len(content, "/status/user/groups"@) {
            Some(n) => groups_in(content, n as nat),
            None => Seq::empty(),
        },
        error: if authenticated {
            None
        } else {
            Some(or_else(outside::json_text(content, "/status/error"@), "unauthenticated"@))
        },
    }
}

fn text_or(content: &[u8], pointer: &str, d: &str) -> (r: String)
    ensures
        r@ == or_else(outside::json_text(content@, pointer@), d@),
{
    match outside::json_text_at(content, pointer) {
        Some(s) => s,
        None => d.to_owned(),
    }
}

/// Reads the verdict in the reply to a TokenReview.
pub fn token_verdict(success: bool, status: &str, body: &str) -> (r: Result<
    TokenVerdict,
    ReviewError,
>)
    ensures
        match r {
            Ok(v) => {
                &&& reply_problem(success, status@, body@) is None
                &&& v@ == verdict_in(vstd::utf8::encode_utf8(body@))
            },
            Err(e) => reply_problem(success, status@, body@) == Some(e@),
        },
{
    if let Some(e) = check_reply(success, status, body) {
        return Err(e);
    }
    let content = body.as_bytes();
    let authenticated: bool = match outside::json_flag_at(content, "/status/authenticated") {
        Some(b) => b,
        None => false,
    };
    let mut groups: Vec<String> = Vec::new();
    assert(text::views(groups@) =~= Seq::<Seq<char>>::empty());
    if let Some(n) = outside::json_len_at(content, "/status/user/groups") {
        let mut i: usize = 0;
        while i < n
            invariant
                i <= n,
                text::views(groups@) == groups_in(content@, i as nat),
            decreases n - i,
        {
            let at = text::decimal_text(i as u64);
            let pointer = text::cat("/status/user/groups/", at.as_str());
            let ghost was = text::views(groups@);
            if let Some(g) = outside::json_text_at(content, pointer.as_str()) {
                groups.push(g);
                assert(text::views(groups@) =~= was.push(g@));
            }
            i = i + 1;
        }
    }
    let error: Option<String> = if authenticated {
        None
    } else {
        Some(text_or(content, "/status/error", "unauthenticated"))
    };
    Ok(
        TokenVerdict {
            authenticated,
            username: text_or(content, "/status/user/username", ""),
            uid: text_or(content, "/status/user/uid", ""),
            groups,
            error,
        },
    )
}

/// Reads the verdict in the reply to a SubjectAccessReview.
pub fn access_verdict(success: bool, status: &str, body: &str) -> (r: Result<bool, ReviewError>)
    ensures
        match r {
            Ok(b) => {
                &&& reply_problem(success, status@, body@) is None
                &&& b == (outside::json_flag(
                    vstd::utf8::encode_utf8(body@),
                    "/status/allowed"@,
                ) == Some(true))
            },
            Err(e) => reply_problem(success, status@, body@) == Some(e@),
        },
{
    if let Some(e) = check_reply(success, status, body) {
        return Err(e);
    }
    match outside::json_flag_at(body.as_bytes(), "/status/allowed") {
        Some(b) => Ok(b),
        None => Ok(false),
    }
}

/// `s` without the slashes at its end.
pub open spec fn without_slashes(s: Seq<char>) -> Seq<char>
    decreases s.len(),
{
    if s.len() > 0 && s.last() == '/' {
        without_slashes(s.drop_last())
    } else {
        s
    }
}

/// The URL of the API server: the given one without slashes at its end, else from
/// the host and port that the cluster tells.
pub open spec fn api_url(
    given: Option<Seq<char>>,
    host: Option<Seq<char>>,
    port: Option<Seq<char>>,
) -> Option<Seq<char>> {
    match given {
        Some(u) => Some(without_slashes(u)),
        None => match host {
            None => None,
            Some(h) => {
                let p = or_else(port, "443"@);
                if h.contains(':') {
                    Some("https://["@ + h + "]:"@ + p)
                } else {
                    Some("https://"@ + h + ":"@ + p)
                }
            },
        },
    }
}

/// The URL of the API server; none where neither a URL nor a host is known.
pub fn api_base(given: &Option<String>, host: &Option<String>, port: &Option<String>) -> (r: Option<
    String,
>)
    ensures
        text::opt(r) == api_url(text::opt(*given), text::opt(*host), text::opt(*port)),
{
    if let Some(u) = given {
        let v = text::chars_of(u.as_str());
        let mut n: usize = v.len();
        assert(v@.subrange(0, n as int) =~= v@);
        while n > 0 && v[n - 1] == '/'
            invariant
                n <= v@.len(),
                without_slashes(v@.subrange(0, n as int)) == without_slashes(v@),
            decreases n,
        {
            assert(v@.subrange(0, n as int).drop_last() =~= v@.subrange(0, n - 1));
            n = n - 1;
        }
        return Some(text::piece(&v, 0, n));
    }
    let h = match host {
        None => return None,
        Some(h) => h,
    };
    let p: String = match port {
        None => "443".to_owned(),
        Some(p) => p.clone(),
    };
    let v = text::chars_of(h.as_str());
    let mut url = if text::find_char(&v, ':').is_some() {
        text::cat3("https://[", h.as_str(), "]:")
    } else {
        text::cat3("https://", h.as_str(), ":")
    };
    url.append(p.as_str());
    Some(url)
}

// ---- Laws -----------------------------------------------------------------

/// A version probe, and a client on this machine where such clients are let through,
/// passes without a token and without a review.
pub proof fn no_review_where_let_through(
    cfg: K8sAuthConfig,
    reviews: Seq<Review>,
    op: OperationView,
    header: Option<Seq<char>>,
    peer: Option<Peer>,
    was: Memory,
    after: Memory,
    now: u64,
    r: Result<(), AuthReject>,
)
    requires
        checked(cfg, reviews, op, header, peer, was, after, now, r),
        let_through(cfg, op, peer),
    ensures
        r is Ok,
        reviews.len() == 0,
        after == was,
{
}

/// Where loopback clients are not let through, and for any client that is not one, a
/// request other than a version probe needs a token.
pub proof fn no_token_is_unauthorized(
    cfg: K8sAuthConfig,
    reviews: Seq<Review>,
    op: OperationView,
    header: Option<Seq<char>>,
    peer: Option<Peer>,
    was: Memory,
    after: Memory,
    now: u64,
    r: Result<(), AuthReject>,
)
    requires
        checked(cfg, reviews, op, header, peer, was, after, now, r),
        !let_through(cfg, op, peer),
        token_in(header) is None,
    ensures
        r is Err,
        r->Err_0@ is Unauthorized,
        reviews.len() == 0,
{
}

/// A verdict on a token, good or bad, is used again until its time is over, and the
/// token is reviewed again from then on.
pub proof fn verdict_is_remembered(
    cfg: K8sAuthConfig,
    op: OperationView,
    header: Option<Seq<char>>,
    peer: Option<Peer>,
    v: TokenVerdictView,
    m: Memory,
    past: u64,
    now: u64,
)
    requires
        token_in(header) is Some,
        !let_through(cfg, op, peer),
    ensures
        ({
            let token = token_in(header)->0;
            let kept = token_noted(cfg, token, Ok(v), m, past);
            let step = begun(cfg, op, header, peer, kept, now).0;
            if now < expiry(past, cfg.cache_ttl) {
                step == with_verdict(cfg, op, v, kept, now).0 && !(step is NeedToken)
            } else {
                step == StepView::NeedToken(token)
            }
        }),
{
}

/// A verdict on an access is used again until its time is over, and the access is
/// reviewed again from then on.
pub proof fn access_is_remembered(
    cfg: K8sAuthConfig,
    op: OperationView,
    v: TokenVerdictView,
    allowed: bool,
    m: Memory,
    past: u64,
    now: u64,
)
    requires
        v.authenticated,
        namespace_of(cfg, op) is Some,
    ensures
        ({
            let a = review_of(cfg, op, v, namespace_of(cfg, op)->0);
            let kept = access_told(cfg, a, Ok(allowed), m, past).1;
            let step = with_verdict(cfg, op, v, kept, now).0;
            if now < expiry(past, cfg.cache_ttl) {
                step == decision(a, allowed)
            } else {
                step == StepView::NeedAccess(a)
            }
        }),
{
}

/// A review of a token with this key gave the verdict `v`.
pub open spec fn token_backed(reviews: Seq<Review>, key: Seq<char>, v: TokenVerdictView) -> bool {
    exists|i: int|
        0 <= i < reviews.len() && match #[trigger] reviews[i] {
            Review::Token { token, reply } => token_key(token) == key && reply == Ok::<
                _,
                ReviewError,
            >(v),
            _ => false,
        }
}

/// A review of an access with this key gave the verdict `allowed`.
pub open spec fn access_backed(reviews: Seq<Review>, key: Seq<char>, allowed: bool) -> bool {
    exists|i: int|
        0 <= i < reviews.len() && match #[trigger] reviews[i] {
            Review::Access { review, reply } => access_key(review) == key && reply == Ok::<
                _,
                ReviewError,
            >(allowed),
            _ => false,
        }
}

/// Everything that is remembered was said by a review.
pub open spec fn backed(m: Memory, reviews: Seq<Review>) -> bool {
    &&& forall|key: Seq<char>| #[trigger]
        m.tokens.contains_key(key) ==> token_backed(reviews, key, m.tokens[key].0)
    &&& forall|key: Seq<char>| #[trigger]
        m.accesses.contains_key(key) ==> access_backed(reviews, key, m.accesses[key].0)
}

proof fn lemma_backed_grows(m: Memory, before: Seq<Review>, more: Seq<Review>)
    requires
        backed(m, before),
    ensures
        backed(m, before + more),
{
    let all = before + more;
    assert forall|key: Seq<char>| #[trigger] m.tokens.contains_key(key) implies token_backed(
        all,
        key,
        m.tokens[key].0,
    ) by {
        let i = choose|i: int|
            0 <= i < before.len() && match #[trigger] before[i] {
                Review::Token { token, reply } => token_key(token) == key && reply == Ok::<
                    _,
                    ReviewError,
                >(m.tokens[key].0),
                _ => false,
            };
        assert(all[i] == before[i]);
    }
    assert forall|key: Seq<char>| #[trigger] m.accesses.contains_key(key) implies access_backed(
        all,
        key,
        m.accesses[key].0,
    ) by {
        let i = choose|i: int|
            0 <= i < before.len() && match #[trigger] before[i] {
                Review::Access { review, reply } => access_key(review) == key && reply == Ok::<
                    _,
                    ReviewError,
                >(m.accesses[key].0),
                _ => false,
            };
        assert(all[i] == before[i]);
    }
}

/// The presented token was found good by some review, and what it is presented for
/// was allowed by some review, each up to what is kept of a token and an access.
pub open spec fn granted(
    cfg: K8sAuthConfig,
    reviews: Seq<Review>,
    op: OperationView,
    header: Option<Seq<char>>,
) -> bool {
    &&& token_in(header) is Some
    &&& namespace_of(cfg, op) is Some
    &&& exists|v: TokenVerdictView|
        v.authenticated && #[trigger] token_backed(reviews, token_key(token_in(header)->0), v)
            && access_backed(
            reviews,
            access_key(review_of(cfg, op, v, namespace_of(cfg, op)->0)),
            true,
        )
}

/// Nothing is remembered but what reviews said, from one check to the next; and a
/// request that is not let through passes only when reviews found its token good and
/// allowed its operation.
pub proof fn passing_needs_a_grant(
    cfg: K8sAuthConfig,
    before: Seq<Review>,
    reviews: Seq<Review>,
    op: OperationView,
    header: Option<Seq<char>>,
    peer: Option<Peer>,
    was: Memory,
    after: Memory,
    now: u64,
    r: Result<(), AuthReject>,
)
    requires
        checked(cfg, reviews, op, header, peer, was, after, now, r),
        backed(was, before),
    ensures
        backed(after, before + reviews),
        r is Ok && !let_through(cfg, op, peer) ==> granted(cfg, before + reviews, op, header),
{
    let all = before + reviews;
    lemma_backed_grows(was, before, reviews);
    let (first, m0) = begun(cfg, op, header, peer, was, now);
    assert(backed(m0, all));
    if !let_through(cfg, op, peer) && token_in(header) is Some {
        let token = token_in(header)->0;
        let key = token_key(token);
        let fresh_token = fresh(was.tokens, key, now);
        let v = if fresh_token {
            was.tokens[key].0
        } else {
            match reviews[0] {
                Review::Token { reply: Ok(v), .. } => v,
                _ => arbitrary(),
            }
        };
        let (second, m1) = if fresh_token {
            (first, m0)
        } else {
            match reviews[0] {
                Review::Token { reply, .. } => token_told(cfg, op, token, reply, m0, now),
                _ => arbitrary(),
            }
        };
        if !fresh_token {
            assert(all[before.len() as int] == reviews[0]);
            let noted = token_noted(
                cfg,
                token,
                match reviews[0] {
                    Review::Token { reply, .. } => reply,
                    _ => arbitrary(),
                },
                m0,
                now,
            );
            assert forall|k: Seq<char>| #[trigger] noted.tokens.contains_key(k) implies token_backed(
                all,
                k,
                noted.tokens[k].0,
            ) by {
                if k != key || !(reviews[0] matches Review::Token { reply: Ok(_), .. }) {
                    assert(m0.tokens.contains_key(k));
                }
            }
            assert(backed(noted, all));
            assert(backed(m1, all));
        }
        if second is NeedAccess {
            let rest = if fresh_token {
                reviews
            } else {
                reviews.drop_first()
            };
            let a = second->NeedAccess_0;
            assert(access_checked(cfg, rest, a, m1, after, now, r));
            assert(all.last() == rest[0]);
            assert forall|k: Seq<char>| #[trigger] after.accesses.contains_key(k) implies access_backed(
                all,
                k,
                after.accesses[k].0,
            ) by {
                if k != access_key(a) || !(rest[0] matches Review::Access { reply: Ok(_), .. }) {
                    assert(m1.accesses.contains_key(k));
                } else {
                    assert(all[all.len() - 1] == rest[0]);
                }
            }
            assert forall|k: Seq<char>| #[trigger] after.tokens.contains_key(k) implies token_backed(
                all,
                k,
                after.tokens[k].0,
            ) by {
                assert(m1.tokens.contains_key(k));
            }
            if r is Ok {
                assert(all[all.len() - 1] == rest[0]);
                assert(access_backed(all, access_key(a), true));
                assert(token_backed(all, key, v));
            }
        } else if r is Ok {
            let ns = namespace_of(cfg, op)->0;
            let a = review_of(cfg, op, v, ns);
            assert(token_backed(all, key, v));
            assert(was.accesses.contains_key(access_key(a)));
            assert(access_backed(all, access_key(a), true));
        }
    }
}

} // verus!
