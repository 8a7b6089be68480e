//! Who may do what: credentials, tokens and the cluster's say.

use vstd::prelude::*;

use crate::auth;
use crate::auth::HashView;
use crate::http::Peer;
use crate::k8s;
use crate::k8s::{
    AccessReviewView, Action, AuthReject, K8sAuthConfig, Memory, OperationView, RejectView, Review,
    ReviewError, TokenVerdictView,
};
use crate::laws::words;
use crate::outside;
use crate::text;

verus! {

// ---- The cluster ----------------------------------------------------------

/// A repository `ns/...` is reviewed in the namespace `ns`, however much follows.
pub proof fn repository_is_reviewed_in_its_namespace(
    cfg: K8sAuthConfig,
    op: OperationView,
    ns: Seq<char>,
    rest: Seq<char>,
)
    requires
        ns.len() > 0,
        words::lacks(ns, '/'),
        op.repo == Some(ns + seq!['/'] + rest),
    ensures
        k8s::namespace_of(cfg, op) == Some(ns),
{
    words::first_place_of_a_character(ns, '/', rest);
    let repo = ns + seq!['/'] + rest;
    assert(repo.subrange(0, ns.len() as int) =~= ns);
}

/// Without a first part there is no namespace but the default: for a repository of one
/// part, for one that begins with a slash and for an operation on none.
pub proof fn other_operations_are_reviewed_in_the_default_namespace(
    cfg: K8sAuthConfig,
    op: OperationView,
)
    requires
        op.repo is None || words::lacks(op.repo->0, '/') || op.repo->0[0] == '/',
    ensures
        k8s::namespace_of(cfg, op) is Some <==> cfg.default_namespace is Some,
        cfg.default_namespace is Some ==> k8s::namespace_of(cfg, op) == Some(
            cfg.default_namespace->0@,
        ),
{
    if op.repo is Some {
        let repo = op.repo->0;
        if repo.contains('/') && words::lacks(repo, '/') {
            let i = choose|i: int| 0 <= i < repo.len() && repo[i] == '/';
            assert(repo[i] != '/');
        }
        if repo.len() > 0 && repo[0] == '/' {
            assert(text::index_of(repo, '/') == 0);
        }
    }
}

/// The namespace of a repository is never more than its first part.
pub proof fn namespace_has_no_slash(cfg: K8sAuthConfig, op: OperationView)
    requires
        cfg.default_namespace is None,
        k8s::namespace_of(cfg, op) is Some,
    ensures
        words::lacks(k8s::namespace_of(cfg, op)->0, '/'),
        k8s::namespace_of(cfg, op)->0.len() > 0,
{
    text::lemma_index_of_bounds(op.repo->0, '/');
}

/// What the cluster is asked to allow: the verb of an action.
pub proof fn verb_of_an_action(a: Action)
    ensures
        a == Action::Pull || a == Action::Version ==> a.verb_text() == "get"@,
        a == Action::Push || a == Action::Admin ==> a.verb_text() == "update"@,
        a == Action::Delete ==> a.verb_text() == "delete"@,
        a == Action::List ==> a.verb_text() == "list"@,
{
}

/// The review asks for what is done: by the user, the uid and the groups that the token
/// was found to be of, with the verb of the action, on the resource of the configuration.
pub open spec fn asks_for(
    cfg: K8sAuthConfig,
    op: OperationView,
    v: TokenVerdictView,
    ns: Seq<char>,
    a: AccessReviewView,
) -> bool {
    &&& a.user == v.username
    &&& a.uid == v.uid
    &&& a.groups == v.groups
    &&& a.namespace == ns
    &&& a.verb == op.action.verb_text()
    &&& a.group == cfg.resource_group@
    &&& a.resource == cfg.resource@
}

/// The client is on this machine: its address is in 127.0.0.0/8, also as mapped into
/// IPv6, or it is `::1`.
pub open spec fn is_local(p: Peer) -> bool {
    match p {
        Peer::V4(a) => 0x7f00_0000 <= a <= 0x7fff_ffff,
        Peer::V6(a) => a == 1 || 0xffff_7f00_0000 <= a <= 0xffff_7fff_ffff,
    }
}

pub proof fn local_clients_are_told(p: Peer)
    ensures
        p.loopback() <==> is_local(p),
{
}

/// A check of a request other than a version probe, from another machine or where those on
/// this one are not let through, when nothing is remembered: without a token it is
/// refused and nobody is asked. Else the token is reviewed. A token that is not good is
/// refused. With a good one the access is reviewed, in the namespace `ns`, and the
/// request passes exactly when that is allowed.
pub proof fn check_asks_and_obeys(
    cfg: K8sAuthConfig,
    reviews: Seq<Review>,
    op: OperationView,
    header: Option<Seq<char>>,
    peer: Option<Peer>,
    was: Memory,
    after: Memory,
    now: u64,
    r: Result<(), AuthReject>,
    ns: Option<Seq<char>>,
)
    requires
        k8s::checked(cfg, reviews, op, header, peer, was, after, now, r),
        op.action != Action::Version,
        !cfg.allow_loopback || peer is None || !is_local(peer->0),
        was.tokens == Map::<Seq<char>, (TokenVerdictView, u64)>::empty(),
        was.accesses == Map::<Seq<char>, (bool, u64)>::empty(),
        ns == k8s::namespace_of(cfg, op),
    ensures
        match k8s::token_in(header) {
            None => reviews.len() == 0 && r is Err && r->Err_0 is Unauthorized,
            Some(t) => reviews.len() > 0 && match reviews[0] {
                Review::Token { token, reply } => token == t && match reply {
                    Err(_) => reviews.len() == 1 && r is Err && r->Err_0 is Unavailable,
                    Ok(v) => if !v.authenticated {
                        reviews.len() == 1 && r is Err && r->Err_0 is Unauthorized
                    } else if ns is None {
                        reviews.len() == 1 && r is Err && r->Err_0 is Denied
                    } else {
                        reviews.len() == 2 && match reviews[1] {
                            Review::Access { review, reply: said } => {
                                &&& asks_for(cfg, op, v, ns->0, review)
                                &&& r is Ok <==> said == Ok::<bool, ReviewError>(true)
                                &&& said == Ok::<bool, ReviewError>(false) ==> r is Err
                                    && r->Err_0 is Denied
                                &&& said is Err ==> r is Err && r->Err_0 is Unavailable
                            },
                            _ => false,
                        }
                    },
                },
                _ => false,
            },
        },
{
    if peer is Some {
        local_clients_are_told(peer->0);
    }
    if reviews.len() > 1 {
        assert(reviews.drop_first()[0] == reviews[1]);
    }
}

/// A version probe passes without a review, and so does a request from this machine where
/// those are let through.
pub proof fn some_requests_need_no_token(
    cfg: K8sAuthConfig,
    reviews: Seq<Review>,
    op: OperationView,
    header: Option<Seq<char>>,
    peer: Option<Peer>,
    was: Memory,
    after: Memory,
    now: u64,
    r: Result<(), AuthReject>,
)
    requires
        k8s::checked(cfg, reviews, op, header, peer, was, after, now, r),
        op.action == Action::Version || (cfg.allow_loopback && peer is Some && is_local(peer->0)),
    ensures
        r is Ok,
        reviews.len() == 0,
{
    if peer is Some {
        local_clients_are_told(peer->0);
    }
}

/// A second check of the same request within the time that verdicts are kept asks nobody
/// and ends as the first did; from then on the token is reviewed again.
pub proof fn verdicts_are_kept_for_their_time(
    cfg: K8sAuthConfig,
    reviews1: Seq<Review>,
    reviews2: Seq<Review>,
    op: OperationView,
    header: Option<Seq<char>>,
    peer: Option<Peer>,
    m0: Memory,
    m1: Memory,
    m2: Memory,
    past: u64,
    now: u64,
    r1: Result<(), AuthReject>,
    r2: Result<(), AuthReject>,
)
    requires
        k8s::checked(cfg, reviews1, op, header, peer, m0, m1, past, r1),
        k8s::checked(cfg, reviews2, op, header, peer, m1, m2, now, r2),
        op.action != Action::Version,
        !cfg.allow_loopback || peer is None || !is_local(peer->0),
        k8s::token_in(header) is Some,
        m0.tokens == Map::<Seq<char>, (TokenVerdictView, u64)>::empty(),
        m0.accesses == Map::<Seq<char>, (bool, u64)>::empty(),
        r1 is Ok || r1->Err_0 is Denied,
        k8s::namespace_of(cfg, op) is Some,
        past + cfg.cache_ttl <= u64::MAX,
        past <= now,
    ensures
        now < past + cfg.cache_ttl ==> reviews2.len() == 0 && (r2 is Ok <==> r1 is Ok),
        now >= past + cfg.cache_ttl ==> reviews2.len() > 0 && (reviews2[0] matches Review::Token {
            token,
            ..
        } && token == k8s::token_in(header)->0),
{
    if peer is Some {
        local_clients_are_told(peer->0);
    }
    if reviews1.len() > 1 {
        assert(reviews1.drop_first()[0] == reviews1[1]);
    }
}

proof fn lemma_cut_once(x: Seq<char>, r: Seq<char>, y: Seq<char>, s: Seq<char>, c: char)
    requires
        words::lacks(x, c),
        words::lacks(y, c),
        x + seq![c] + r == y + seq![c] + s,
    ensures
        x == y,
        r == s,
{
    words::first_place_of_a_character(x, c, r);
    words::first_place_of_a_character(y, c, s);
    let a = x + seq![c] + r;
    let b = y + seq![c] + s;
    assert(x =~= a.subrange(0, x.len() as int));
    assert(y =~= b.subrange(0, y.len() as int));
    assert(r =~= a.subrange((x.len() + 1) as int, a.len() as int));
    assert(s =~= b.subrange((y.len() + 1) as int, b.len() as int));
}

/// What is remembered of one access is never taken for another: they are kept apart by
/// user, namespace, verb, group and resource.
pub proof fn accesses_are_kept_apart(a: AccessReviewView, b: AccessReviewView)
    requires
        words::lacks(a.user, '\u{1f}') && words::lacks(b.user, '\u{1f}'),
        words::lacks(a.namespace, '\u{1f}') && words::lacks(b.namespace, '\u{1f}'),
        words::lacks(a.verb, '\u{1f}') && words::lacks(b.verb, '\u{1f}'),
        words::lacks(a.group, '\u{1f}') && words::lacks(b.group, '\u{1f}'),
        k8s::access_key(a) == k8s::access_key(b),
    ensures
        a.user == b.user,
        a.namespace == b.namespace,
        a.verb == b.verb,
        a.group == b.group,
        a.resource == b.resource,
{
    let c = '\u{1f}';
    let a4 = a.group + seq![c] + a.resource;
    let b4 = b.group + seq![c] + b.resource;
    let a3 = a.verb + seq![c] + a4;
    let b3 = b.verb + seq![c] + b4;
    let a2 = a.namespace + seq![c] + a3;
    let b2 = b.namespace + seq![c] + b3;
    assert(k8s::access_key(a) =~= a.user + seq![c] + a2);
    assert(k8s::access_key(b) =~= b.user + seq![c] + b2);
    lemma_cut_once(a.user, a2, b.user, b2, c);
    lemma_cut_once(a.namespace, a3, b.namespace, b3, c);
    lemma_cut_once(a.verb, a4, b.verb, b4, c);
    lemma_cut_once(a.group, a.resource, b.group, b.resource, c);
}

/// A token is kept under its SHA-256 hash.
pub proof fn tokens_are_kept_by_their_hash(token: Seq<char>, i: int)
    requires
        0 <= i < outside::sha256(vstd::utf8::encode_utf8(token)).len(),
    ensures
        k8s::token_key(token).len() == 2 * outside::sha256(
            vstd::utf8::encode_utf8(token),
        ).len(),
        k8s::token_key(token)[2 * i] == outside::hex_digit(
            outside::sha256(vstd::utf8::encode_utf8(token))[i] as int / 16,
        ),
        k8s::token_key(token)[2 * i + 1] == outside::hex_digit(
            outside::sha256(vstd::utf8::encode_utf8(token))[i] as int % 16,
        ),
{
    assert((2 * i) / 2 == i);
    assert((2 * i + 1) / 2 == i);
}

/// How a refusal is answered: 401 with a challenge where a token is missing or bad, 403
/// where the access is denied, 503 where the cluster could not be asked.
pub proof fn refusals_have_their_status(x: RejectView, challenge: Seq<char>)
    ensures
        x is Unauthorized ==> k8s::refusal_of(x, challenge).error.status == 401,
        x is Denied ==> k8s::refusal_of(x, challenge).error.status == 403 && k8s::refusal_of(
            x,
            challenge,
        ).headers.len() == 0,
        x is Unavailable ==> k8s::refusal_of(x, challenge).error.status == 503 && k8s::refusal_of(
            x,
            challenge,
        ).headers.len() == 0,
        x is Unauthorized && (forall|i: int|
            0 <= i < challenge.len() ==> ' ' <= #[trigger] challenge[i] && challenge[i] <= '~')
            ==> k8s::refusal_of(x, challenge).headers == seq![("www-authenticate"@, challenge)],
{
}

/// The two letters are the same but for their case.
pub open spec fn same_letter(a: char, b: char) -> bool {
    a == b || ('A' <= a && a <= 'Z' && b as int == a as int + 32) || ('A' <= b && b <= 'Z'
        && a as int == b as int + 32)
}

/// The texts are the same but for the case of their letters.
pub open spec fn same_letters(a: Seq<char>, b: Seq<char>) -> bool {
    a.len() == b.len() && forall|i: int|
        0 <= i < a.len() ==> same_letter(#[trigger] a[i], b[i])
}

proof fn lemma_same_letters(a: Seq<char>, b: Seq<char>)
    ensures
        text::lowered(a) == text::lowered(b) <==> same_letters(a, b),
{
    let x = text::lowered(a);
    let y = text::lowered(b);
    if x == y {
        assert(a.len() == x.len() && b.len() == y.len());
        assert forall|i: int| 0 <= i < a.len() implies same_letter(#[trigger] a[i], b[i]) by {
            assert(x[i] == y[i]);
            assert(x[i] == text::ascii_lower(a[i]));
            assert(y[i] == text::ascii_lower(b[i]));
        }
    }
    if same_letters(a, b) {
        assert forall|i: int| 0 <= i < a.len() implies x[i] == y[i] by {
            assert(same_letter(a[i], b[i]));
            assert(x[i] == text::ascii_lower(a[i]));
            assert(y[i] == text::ascii_lower(b[i]));
        }
        assert(x =~= y);
    }
}

/// The scheme is told by its name, whatever the case of its letters; what follows it is
/// the token, without white space around it.
pub proof fn bearer_token_is_taken(scheme: Seq<char>, a: Seq<char>, token: Seq<char>, b: Seq<char>)
    requires
        same_letters(scheme, "Bearer "@),
        words::all_white(a),
        words::all_white(b),
        token.len() > 0,
        !text::is_white(token[0]),
        !text::is_white(token.last()),
    ensures
        k8s::token_in(Some(scheme + a + token + b)) == Some(token),
{
    let rest = a + token + b;
    let h = scheme + a + token + b;
    assert(h =~= scheme + rest);
    lemma_same_letters(scheme, "Bearer "@);
    assert(h.subrange(0, scheme.len() as int) =~= scheme);
    assert(text::from_pos(h, scheme.len() as int) =~= rest);
    words::trimming_takes_the_ends(a, token, b);
}

/// Of Basic credentials the password is the token, whoever the user.
pub proof fn basic_password_is_taken(
    scheme: Seq<char>,
    a: Seq<char>,
    coded: Seq<char>,
    b: Seq<char>,
    user: Seq<char>,
    password: Seq<char>,
)
    requires
        same_letters(scheme, "Basic "@),
        words::all_white(a),
        words::all_white(b),
        coded.len() > 0,
        !text::is_white(coded[0]),
        !text::is_white(coded.last()),
        outside::base64_bytes(coded) == Some(
            vstd::utf8::encode_utf8(user + seq![':'] + password),
        ),
        words::lacks(user, ':'),
        password.len() > 0,
    ensures
        k8s::token_in(Some(scheme + a + coded + b)) == Some(password),
{
    reveal_strlit("Basic ");
    reveal_strlit("Bearer ");
    let rest = a + coded + b;
    let h = scheme + a + coded + b;
    assert(h =~= scheme + rest);
    lemma_same_letters(scheme, "Basic "@);
    assert(h.subrange(0, scheme.len() as int) =~= scheme);
    assert(text::from_pos(h, scheme.len() as int) =~= rest);
    words::trimming_takes_the_ends(a, coded, b);
    assert(k8s::behind_prefix(h, "Bearer "@) is None) by {
        if h.len() >= 7 {
            let p = h.subrange(0, 7);
            lemma_same_letters(p, "Bearer "@);
            if same_letters(p, "Bearer "@) {
                assert(same_letter(p[1], "Bearer "@[1]));
                assert(same_letter(scheme[1], "Basic "@[1]));
                assert(p[1] == scheme[1]);
            }
        }
    }
    credentials_are_cut_at_the_first_colon(user, password);
}

/// A header of another scheme carries no token, and neither does one without a token or a
/// request without a header.
pub proof fn other_headers_carry_no_token(h: Seq<char>, scheme: Seq<char>, white: Seq<char>)
    requires
        same_letters(scheme, "Bearer "@),
        words::all_white(white),
    ensures
        k8s::token_in(None) is None,
        k8s::token_in(Some(scheme + white)) is None,
        (h.len() < 7 || !same_letters(h.take(7), "Bearer "@)) && (h.len() < 6 || !same_letters(
            h.take(6),
            "Basic "@,
        )) ==> k8s::token_in(Some(h)) is None,
{
    reveal_strlit("Bearer ");
    reveal_strlit("Basic ");
    let x = scheme + white;
    lemma_same_letters(scheme, "Bearer "@);
    assert(x.subrange(0, scheme.len() as int) =~= scheme);
    assert(text::from_pos(x, scheme.len() as int) =~= white);
    let none = Seq::<char>::empty();
    assert(white =~= white + none + none);
    words::trimming_takes_the_ends(white, none, none);
    if h.len() >= 7 {
        assert(h.take(7) =~= h.subrange(0, 7));
        lemma_same_letters(h.take(7), "Bearer "@);
    }
    if h.len() >= 6 {
        assert(h.take(6) =~= h.subrange(0, 6));
        lemma_same_letters(h.take(6), "Basic "@);
    }
}

/// Credentials that cannot be decoded, or that hold no password, carry no token; and a header
/// that begins otherwise carries no credentials.
pub proof fn other_credentials_carry_nothing(
    scheme: Seq<char>,
    coded: Seq<char>,
    user: Seq<char>,
    h: Seq<char>,
)
    requires
        same_letters(scheme, "Basic "@),
        words::lacks(user, ':'),
        coded.len() > 0,
        !text::is_white(coded[0]),
        !text::is_white(coded.last()),
    ensures
        outside::base64_bytes(coded) is None ==> k8s::token_in(Some(scheme + coded)) is None,
        outside::base64_bytes(coded) == Some(vstd::utf8::encode_utf8(user + seq![':']))
            ==> k8s::token_in(Some(scheme + coded)) is None,
        outside::base64_bytes(coded) == Some(vstd::utf8::encode_utf8(user)) ==> k8s::token_in(
            Some(scheme + coded),
        ) is None,
        (h.len() < 6 || (h.take(6) != "Basic "@ && h.take(6) != "basic "@))
            ==> auth::basic_credentials(h) is None,
{
    reveal_strlit("Bearer ");
    reveal_strlit("Basic ");
    reveal_strlit("basic ");
    let x = scheme + coded;
    let none = Seq::<char>::empty();
    lemma_same_letters(scheme, "Basic "@);
    assert(x.subrange(0, scheme.len() as int) =~= scheme);
    assert(text::from_pos(x, scheme.len() as int) =~= coded);
    assert(coded =~= none + coded + none);
    words::trimming_takes_the_ends(none, coded, none);
    assert(k8s::behind_prefix(x, "Bearer "@) is None) by {
        if x.len() >= 7 {
            let p = x.subrange(0, 7);
            lemma_same_letters(p, "Bearer "@);
            if same_letters(p, "Bearer "@) {
                assert(same_letter(p[1], "Bearer "@[1]));
                assert(same_letter(scheme[1], "Basic "@[1]));
                assert(p[1] == scheme[1]);
            }
        }
    }
    credentials_are_cut_at_the_first_colon(user, none);
    assert(user + seq![':'] + none =~= user + seq![':']);
    no_colon_no_credentials(user);
    if h.len() >= 6 {
        assert(h.take(6) =~= h.subrange(0, 6));
    }
}

// ---- Passwords ------------------------------------------------------------

/// The name ends at the first colon; the password may hold more of them.
pub proof fn credentials_are_cut_at_the_first_colon(user: Seq<char>, password: Seq<char>)
    requires
        words::lacks(user, ':'),
    ensures
        auth::credentials(vstd::utf8::encode_utf8(user + seq![':'] + password)) == Some(
            (user, password),
        ),
{
    let s = user + seq![':'] + password;
    vstd::utf8::encode_utf8_valid_utf8(s);
    vstd::utf8::encode_utf8_decode_utf8(s);
    words::first_place_of_a_character(user, ':', password);
    assert(s.subrange(0, user.len() as int) =~= user);
    assert(text::from_pos(s, (user.len() + 1) as int) =~= password);
}

/// Without a colon there are no credentials.
pub proof fn no_colon_no_credentials(s: Seq<char>)
    requires
        words::lacks(s, ':'),
    ensures
        auth::credentials(vstd::utf8::encode_utf8(s)) is None,
{
    vstd::utf8::encode_utf8_valid_utf8(s);
    vstd::utf8::encode_utf8_decode_utf8(s);
    if s.contains(':') {
        let i = choose|i: int| 0 <= i < s.len() && s[i] == ':';
        assert(s[i] != ':');
    }
}

/// A header of the Basic scheme carries what its code stands for.
pub proof fn basic_header_is_read(
    scheme: Seq<char>,
    a: Seq<char>,
    coded: Seq<char>,
    b: Seq<char>,
    user: Seq<char>,
    password: Seq<char>,
)
    requires
        scheme == "Basic "@ || scheme == "basic "@,
        words::all_white(a),
        words::all_white(b),
        coded.len() > 0,
        !text::is_white(coded[0]),
        !text::is_white(coded.last()),
        outside::base64_bytes(coded) == Some(
            vstd::utf8::encode_utf8(user + seq![':'] + password),
        ),
        words::lacks(user, ':'),
    ensures
        auth::basic_credentials(scheme + a + coded + b) == Some((user, password)),
{
    reveal_strlit("Basic ");
    reveal_strlit("basic ");
    let rest = a + coded + b;
    let h = scheme + a + coded + b;
    assert(h =~= scheme + rest);
    words::beginning_with(scheme, rest, h);
    words::trimming_takes_the_ends(a, coded, b);
    credentials_are_cut_at_the_first_colon(user, password);
    assert(h[0] == scheme[0]);
    if scheme == "basic "@ && text::starts_with(h, "Basic "@) {
        assert(h.subrange(0, 6)[0] == h[0]);
        assert("Basic "@[0] == 'B' && "basic "@[0] == 'b');
    }
}

/// A line `user:hash` names a user: with a bcrypt hash where it begins like one, with a
/// plain password where it begins with neither `$` nor `{`, and else not at all.
pub proof fn line_names_a_user(
    a: Seq<char>,
    user: Seq<char>,
    hash: Seq<char>,
    b: Seq<char>,
)
    requires
        words::all_white(a),
        words::all_white(b),
        words::lacks(user, ':'),
        user.len() > 0,
        !text::is_white(user[0]),
        user[0] != '#',
        hash.len() > 0,
        !text::is_white(hash.last()),
    ensures
        ({
            let line = a + (user + seq![':'] + hash) + b;
            let coded = hash.len() >= 4 && hash[0] == '$' && hash[1] == '2' && (hash[2] == 'y'
                || hash[2] == 'a' || hash[2] == 'b') && hash[3] == '$';
            &&& coded ==> auth::entry(line) == Some((user, HashView::Bcrypt(hash)))
            &&& !coded && (hash[0] == '$' || hash[0] == '{') ==> auth::entry(line) is None
            &&& hash[0] != '$' && hash[0] != '{' ==> auth::entry(line) == Some(
                (user, HashView::Plain(hash)),
            )
        }),
{
    reveal_strlit("$2y$");
    reveal_strlit("$2a$");
    reveal_strlit("$2b$");
    reveal_strlit("$");
    reveal_strlit("{");
    reveal_strlit("#");
    let s = user + seq![':'] + hash;
    let line = a + s + b;
    assert(s[0] == user[0]);
    assert(s.last() == hash.last());
    words::trimming_takes_the_ends(a, s, b);
    words::first_place_of_a_character(user, ':', hash);
    assert(s.subrange(0, user.len() as int) =~= user);
    assert(text::from_pos(s, (user.len() + 1) as int) =~= hash);
    lemma_starts(s, "#"@);
    lemma_starts(hash, "$2y$"@);
    lemma_starts(hash, "$2a$"@);
    lemma_starts(hash, "$2b$"@);
    lemma_starts(hash, "$"@);
    lemma_starts(hash, "{"@);
    let y = "$2y$"@;
    let x = "$2a$"@;
    let z = "$2b$"@;
    assert(y[0] == '$' && y[1] == '2' && y[2] == 'y' && y[3] == '$' && y.len() == 4);
    assert(x[0] == '$' && x[1] == '2' && x[2] == 'a' && x[3] == '$' && x.len() == 4);
    assert(z[0] == '$' && z[1] == '2' && z[2] == 'b' && z[3] == '$' && z.len() == 4);
    assert("$"@[0] == '$' && "$"@.len() == 1);
    assert("{"@[0] == '{' && "{"@.len() == 1);
    assert("#"@[0] == '#' && "#"@.len() == 1);
}

proof fn lemma_starts(s: Seq<char>, p: Seq<char>)
    ensures
        text::starts_with(s, p) <==> s.len() >= p.len() && forall|i: int|
            0 <= i < p.len() ==> s[i] == #[trigger] p[i],
{
    if s.len() >= p.len() {
        let t = s.subrange(0, p.len() as int);
        if t == p {
            assert forall|i: int| 0 <= i < p.len() implies s[i] == #[trigger] p[i] by {
                assert(t[i] == s[i]);
            }
        }
        if forall|i: int| 0 <= i < p.len() ==> s[i] == #[trigger] p[i] {
            assert(t =~= p) by {
                assert forall|i: int| 0 <= i < p.len() implies t[i] == p[i] by {
                    assert(s[i] == p[i]);
                }
            }
        }
    }
}

/// Comments, empty lines and lines without a colon name nobody.
pub proof fn other_lines_name_nobody(a: Seq<char>, s: Seq<char>, b: Seq<char>)
    requires
        words::all_white(a),
        words::all_white(b),
        s.len() > 0 ==> !text::is_white(s[0]) && !text::is_white(s.last()),
        s.len() == 0 || s[0] == '#' || words::lacks(s, ':'),
    ensures
        auth::entry(a + s + b) is None,
{
    reveal_strlit("#");
    words::trimming_takes_the_ends(a, s, b);
    lemma_starts(s, "#"@);
    if s.contains(':') && words::lacks(s, ':') {
        let i = choose|i: int| 0 <= i < s.len() && s[i] == ':';
        assert(s[i] != ':');
    }
}

/// A user who has a line may pass with that password, and of two lines the later counts.
pub proof fn later_lines_count(lines: Seq<Seq<char>>, line: Seq<char>, user: Seq<char>)
    ensures
        ({
            let was = auth::users_in(lines);
            let now = auth::users_in(lines.push(line));
            match auth::entry(line) {
                None => now == was,
                Some((u, h)) => {
                    &&& now.contains_key(u) && now[u] == h
                    &&& user != u ==> now.contains_key(user) == was.contains_key(user) && (
                    was.contains_key(user) ==> now[user] == was[user])
                },
            }
        }),
        auth::users_in(Seq::empty()) == Map::<Seq<char>, HashView>::empty(),
{
    assert(lines.push(line).drop_last() =~= lines);
}

/// Only a user of the list passes, with the plain password of the line or one that bcrypt
/// finds right.
pub proof fn password_is_the_users(users: auth::Users, user: Seq<char>, password: Seq<char>)
    ensures
        auth::accepts(users, user, password) <==> users.contains_key(user) && (users[user]
            == HashView::Plain(password) || exists|h: Seq<char>| #[trigger]
            outside::bcrypt_check(password, h) == Some(true) && users[user]
                == HashView::Bcrypt(h)),
{
    if users.contains_key(user) {
        match users[user] {
            HashView::Plain(_) => {},
            HashView::Bcrypt(h) => {
                if outside::bcrypt_check(password, h) == Some(true) {
                    assert(users[user] == HashView::Bcrypt(h));
                }
            },
        }
    }
}

} // verus!
