//! What the cluster is told and what it tells: scopes, tokens, replies and its address.

use vstd::prelude::*;

use crate::k8s;
use crate::k8s::{AuthReject, Grant, K8sAuthConfig, Memory, Review};
use crate::laws::words;
use crate::outside;
use crate::text;

verus! {

/// A scope `type:name:actions` has these parts, also where the name holds colons.
pub proof fn scope_has_three_parts(kind: Seq<char>, name: Seq<char>, actions: Seq<char>)
    requires
        words::lacks(kind, ':'),
        words::lacks(actions, ':'),
    ensures
        ({
            let s = kind + seq![':'] + name + seq![':'] + actions;
            if kind.len() > 0 && name.len() > 0 && actions.len() > 0 {
                k8s::scope_parts(s) == Some((kind, name, actions))
            } else {
                k8s::scope_parts(s) is None
            }
        }),
{
    let colon = seq![':'];
    let s = kind + colon + name + colon + actions;
    let m = kind + colon + name;
    assert(s =~= kind + colon + (name + colon + actions));
    assert(s =~= m + colon + actions);
    words::first_and_last_place(kind, colon, name + colon + actions);
    words::first_and_last_place(m, colon, actions);
    let i = text::first_index(s, colon);
    let j = text::last_index(s, colon);
    assert(s.subrange(i, i + 1)[0] == s[i]);
    assert(s.subrange(j, j + 1)[0] == s[j]);
    if i < kind.len() {
        assert(s[i] == kind[i]);
    }
    if j > m.len() {
        assert(s[j] == actions[j - m.len() - 1]);
    }
    assert(i == kind.len());
    assert(j == m.len());
    assert(s.subrange(0, i) =~= kind);
    assert(s.subrange(i + 1, j) =~= name);
    assert(text::from_pos(s, j + 1) =~= actions);
}

/// A text with fewer than two colons is no scope.
pub proof fn scope_has_two_colons(a: Seq<char>, b: Seq<char>)
    requires
        words::lacks(a, ':'),
        words::lacks(b, ':'),
    ensures
        k8s::scope_parts(a) is None,
        k8s::scope_parts(a + seq![':'] + b) is None,
{
    let colon = seq![':'];
    if text::occurs(a, colon) {
        let k = choose|k: int| text::occurs_at(a, colon, k);
        assert(a.subrange(k, k + 1)[0] == a[k]);
    }
    let s = a + colon + b;
    words::first_and_last_place(a, colon, b);
    let i = text::first_index(s, colon);
    let j = text::last_index(s, colon);
    assert(s.subrange(i, i + 1)[0] == s[i]);
    assert(s.subrange(j, j + 1)[0] == s[j]);
    if i < a.len() {
        assert(s[i] == a[i]);
    }
    if j > a.len() {
        assert(s[j] == b[j - a.len() - 1]);
    }
}

/// Without a token nothing is reviewed and nothing granted. A token is granted as it is, for
/// as many seconds as verdicts are kept, if and only if its verdict, remembered or asked
/// for once, is good.
pub proof fn good_tokens_are_granted(
    cfg: K8sAuthConfig,
    reviews: Seq<Review>,
    header: Option<Seq<char>>,
    was: Memory,
    after: Memory,
    now: u64,
    r: Result<Grant, AuthReject>,
)
    requires
        k8s::token_exchanged(cfg, reviews, header, was, after, now, r),
    ensures
        match k8s::token_in(header) {
            None => reviews.len() == 0 && r is Err && r->Err_0@ is Unauthorized && after == was,
            Some(token) => {
                let key = k8s::token_key(token);
                let kept = was.tokens.contains_key(key) && now < was.tokens[key].1;
                &&& r is Ok ==> r->Ok_0.token@ == token && r->Ok_0.expires_in == cfg.cache_ttl
                    / 1000
                &&& kept ==> reviews.len() == 0 && (r is Ok <==> was.tokens[key].0.authenticated)
                &&& !kept ==> reviews.len() == 1 && reviews[0] is Token && reviews[0]->token
                    == token
                &&& !kept && reviews[0]->Token_reply is Ok ==> (r is Ok
                    <==> reviews[0]->Token_reply->Ok_0.authenticated)
                &&& !kept && reviews[0]->Token_reply is Err ==> r is Err && r->Err_0@ is Unavailable
                &&& r is Err && (kept || reviews[0]->Token_reply is Ok)
                    ==> r->Err_0@ is Unauthorized
            },
        },
{
}

/// What a reply of the cluster says of a token: it is good where the reply says so, its
/// owner is the one that is named, and its groups are those that are listed.
pub proof fn verdict_is_read_from_the_reply(content: Seq<u8>, gs: Seq<Seq<char>>)
    ensures
        ({
            let v = k8s::verdict_in(content);
            let flag = outside::json_flag(content, "/status/authenticated"@);
            let name = outside::json_text(content, "/status/user/username"@);
            let uid = outside::json_text(content, "/status/user/uid"@);
            let n = outside::json_len(content, "/status/user/groups"@);
            &&& v.authenticated <==> flag == Some(true)
            &&& v.error is None <==> v.authenticated
            &&& name is Some ==> v.username == name->0
            &&& name is None ==> v.username.len() == 0
            &&& uid is Some ==> v.uid == uid->0
            &&& uid is None ==> v.uid.len() == 0
            &&& n is None ==> v.groups.len() == 0
            &&& n is Some && gs.len() == n->0 && (forall|i: int|
                0 <= i < gs.len() ==> outside::json_text(
                    content,
                    "/status/user/groups/"@ + text::decimal(i as nat),
                ) == Some(#[trigger] gs[i])) ==> v.groups == gs
        }),
{
    reveal_strlit("");
    let n = outside::json_len(content, "/status/user/groups"@);
    if n is Some && gs.len() == n->0 && (forall|i: int|
        0 <= i < gs.len() ==> outside::json_text(
            content,
            "/status/user/groups/"@ + text::decimal(i as nat),
        ) == Some(#[trigger] gs[i])) {
        lemma_groups(content, gs, gs.len());
        assert(gs.subrange(0, gs.len() as int) =~= gs);
    }
}

proof fn lemma_groups(content: Seq<u8>, gs: Seq<Seq<char>>, n: nat)
    requires
        n <= gs.len(),
        forall|i: int|
            0 <= i < gs.len() ==> outside::json_text(
                content,
                "/status/user/groups/"@ + text::decimal(i as nat),
            ) == Some(#[trigger] gs[i]),
    ensures
        k8s::groups_in(content, n) == gs.subrange(0, n as int),
    decreases n,
{
    if n > 0 {
        lemma_groups(content, gs, (n - 1) as nat);
        assert(outside::json_text(
            content,
            "/status/user/groups/"@ + text::decimal((n - 1) as nat),
        ) == Some(gs[n - 1]));
        assert(k8s::groups_in(content, n) =~= gs.subrange(0, n as int));
    } else {
        assert(k8s::groups_in(content, n) =~= gs.subrange(0, 0));
    }
}

/// A group that is no text is left out; every other counts, and nothing else does.
pub proof fn groups_are_the_texts_listed(content: Seq<u8>, n: nat, g: Seq<char>)
    ensures
        k8s::groups_in(content, n).contains(g) <==> exists|i: nat|
            i < n && outside::json_text(
                content,
                "/status/user/groups/"@ + #[trigger] text::decimal(i),
            ) == Some(g),
    decreases n,
{
    let all = k8s::groups_in(content, n);
    if n > 0 {
        let m = (n - 1) as nat;
        groups_are_the_texts_listed(content, m, g);
        let before = k8s::groups_in(content, m);
        let last = outside::json_text(content, "/status/user/groups/"@ + text::decimal(m));
        if all.contains(g) {
            let k = choose|k: int| 0 <= k < all.len() && all[k] == g;
            if k < before.len() {
                assert(before[k] == g);
                assert(before.contains(g));
                let i = choose|i: nat|
                    i < m && outside::json_text(
                        content,
                        "/status/user/groups/"@ + #[trigger] text::decimal(i),
                    ) == Some(g);
                assert(i < n);
            } else {
                assert(last == Some(g));
            }
        }
        if exists|i: nat|
            i < n && outside::json_text(
                content,
                "/status/user/groups/"@ + #[trigger] text::decimal(i),
            ) == Some(g) {
            let i = choose|i: nat|
                i < n && outside::json_text(
                    content,
                    "/status/user/groups/"@ + #[trigger] text::decimal(i),
                ) == Some(g);
            if i < m {
                assert(before.contains(g));
                let k = choose|k: int| 0 <= k < before.len() && before[k] == g;
                assert(all[k] == g);
            } else {
                assert(all[before.len() as int] == g);
            }
        }
    }
}

/// A reply is of use where the request succeeded and its body can be read.
pub proof fn reply_is_of_use(success: bool, status: Seq<char>, body: Seq<char>)
    ensures
        k8s::reply_problem(success, status, body) is None <==> success && outside::json_problem(
            vstd::utf8::encode_utf8(body),
        ) is None,
{
}

/// The address of the cluster: the one that is given, without slashes at its end, or host
/// and port, with a host that holds colons in brackets and the port of HTTPS where none is
/// told.
pub proof fn address_of_the_cluster(
    url: Seq<char>,
    slashes: Seq<char>,
    host: Seq<char>,
    port: Seq<char>,
    h: Option<Seq<char>>,
    p: Option<Seq<char>>,
)
    requires
        url.len() > 0 ==> url.last() != '/',
        forall|i: int| 0 <= i < slashes.len() ==> #[trigger] slashes[i] == '/',
    ensures
        k8s::api_url(Some(url + slashes), h, p) == Some(url),
        k8s::api_url(None, None, p) is None,
        words::lacks(host, ':') ==> k8s::api_url(None, Some(host), Some(port)) == Some(
            "https://"@ + host + ":"@ + port,
        ),
        words::lacks(host, ':') ==> k8s::api_url(None, Some(host), None) == Some(
            "https://"@ + host + ":"@ + "443"@,
        ),
        !words::lacks(host, ':') ==> k8s::api_url(None, Some(host), Some(port)) == Some(
            "https://["@ + host + "]:"@ + port,
        ),
        !words::lacks(host, ':') ==> k8s::api_url(None, Some(host), None) == Some(
            "https://["@ + host + "]:"@ + "443"@,
        ),
{
    lemma_slashes(url, slashes);
    if host.contains(':') {
        let i = choose|i: int| 0 <= i < host.len() && host[i] == ':';
        assert(host[i] == ':');
    }
    if !words::lacks(host, ':') {
        let i = choose|i: int| 0 <= i < host.len() && !(#[trigger] host[i] != ':');
        assert(host.contains(host[i]));
    }
}

proof fn lemma_slashes(url: Seq<char>, slashes: Seq<char>)
    requires
        url.len() > 0 ==> url.last() != '/',
        forall|i: int| 0 <= i < slashes.len() ==> #[trigger] slashes[i] == '/',
    ensures
        k8s::without_slashes(url + slashes) == url,
    decreases slashes.len(),
{
    let s = url + slashes;
    if slashes.len() == 0 {
        assert(s =~= url);
    } else {
        assert(s.last() == slashes[slashes.len() - 1]);
        lemma_slashes(url, slashes.drop_last());
        assert(s.drop_last() =~= url + slashes.drop_last());
    }
}

} // verus!
