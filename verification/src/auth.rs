//! HTTP Basic authentication against an htpasswd file.
//!
//! An entry holds a bcrypt hash (`$2y$`, `$2a$`, `$2b$`) or a plain password. An
//! entry with another hash scheme (`$...` or `{...}`) is left out, so that such a
//! user is locked out rather than let in.

use vstd::hash_map::StringHashMap;
use vstd::prelude::*;

use crate::outside;
use crate::text;

verus! {

/// What an entry holds.
#[derive(Debug, Clone)]
pub enum Hash {
    Bcrypt(String),
    Plain(String),
}

pub enum HashView {
    Bcrypt(Seq<char>),
    Plain(Seq<char>),
}

impl View for Hash {
    type V = HashView;

    open spec fn view(&self) -> HashView {
        match *self {
            Hash::Bcrypt(s) => HashView::Bcrypt(s@),
            Hash::Plain(s) => HashView::Plain(s@),
        }
    }
}

/// The users of an htpasswd file.
pub struct Htpasswd {
    pub users: StringHashMap<Hash>,
}

/// The users with what their entries hold.
pub type Users = Map<Seq<char>, HashView>;

/// The hash is one of bcrypt.
pub open spec fn is_bcrypt(hash: Seq<char>) -> bool {
    text::starts_with(hash, "$2y$"@) || text::starts_with(hash, "$2a$"@) || text::starts_with(
        hash,
        "$2b$"@,
    )
}

/// The hash is of a scheme that is not supported.
pub open spec fn is_refused(hash: Seq<char>) -> bool {
    !is_bcrypt(hash) && (text::starts_with(hash, "$"@) || text::starts_with(hash, "{"@))
}

/// The entry of a line: none for an empty line, a comment, a line without a colon or
/// one with a hash that is not supported.
pub open spec fn entry(line: Seq<char>) -> Option<(Seq<char>, HashView)> {
    let s = text::trim(line);
    if s.len() == 0 || text::starts_with(s, "#"@) || !s.contains(':') {
        None
    } else {
        let i = text::index_of(s, ':');
        let user = s.subrange(0, i);
        let hash = text::from_pos(s, i + 1);
        if is_bcrypt(hash) {
            Some((user, HashView::Bcrypt(hash)))
        } else if is_refused(hash) {
            None
        } else {
            Some((user, HashView::Plain(hash)))
        }
    }
}

/// The users of a list of lines; of two entries for one user the later counts.
pub open spec fn users_in(lines: Seq<Seq<char>>) -> Users
    decreases lines.len(),
{
    if lines.len() == 0 {
        Map::empty()
    } else {
        let rest = users_in(lines.drop_last());
        match entry(lines.last()) {
            Some((user, hash)) => rest.insert(user, hash),
            None => rest,
        }
    }
}

impl View for Htpasswd {
    type V = Users;

    open spec fn view(&self) -> Users {
        self.users@.map_values(|h: Hash| h@)
    }
}

fn begins(s: &Vec<char>, with: &str) -> (r: bool)
    ensures
        r == text::starts_with(s@, with@),
{
    let p = text::chars_of(with);
    text::has_prefix(s, &p)
}

/// Reads one line.
fn read_line(line: &str) -> (r: Option<(String, Hash)>)
    ensures
        match r {
            Some((u, h)) => entry(line@) == Some((u@, h@)),
            None => entry(line@) is None,
        },
{
    let raw = text::chars_of(line);
    let s = text::trimmed(&raw);
    if s.len() == 0 || begins(&s, "#") {
        return None;
    }
    let n: usize = s.len();
    let at: usize = match text::find_char(&s, ':') {
        None => return None,
        Some(i) => i,
    };
    proof {
        text::lemma_index_of(s@, ':', at as int);
    }
    let user = text::piece(&s, 0, at);
    let hash = text::cut(&s, at + 1, n);
    if begins(&hash, "$2y$") || begins(&hash, "$2a$") || begins(&hash, "$2b$") {
        Some((user, Hash::Bcrypt(text::text_of(&hash))))
    } else if begins(&hash, "$") || begins(&hash, "{") {
        None
    } else {
        Some((user, Hash::Plain(text::text_of(&hash))))
    }
}

impl Htpasswd {
    pub fn new() -> (r: Htpasswd)
        ensures
            r@ == Users::empty(),
    {
        let r = Htpasswd { users: StringHashMap::new() };
        assert(r@ =~= Users::empty());
        r
    }

    /// Reads the text of an htpasswd file, which must have a usable entry.
    pub fn load(content: &str) -> (r: Result<Htpasswd, String>)
        ensures
            ({
                let users = users_in(text::split(content@, '\n'));
                match r {
                    Ok(h) => h@ == users && users.dom().len() > 0,
                    Err(m) => users == Users::empty() && m@
                        == "htpasswd file has no usable entries"@,
                }
            }),
    {
        let chars = text::chars_of(content);
        let lines = text::split_on(&chars, '\n');
        let ghost all = text::views(lines@);
        let mut h = Htpasswd::new();
        let mut any = false;
        let mut i: usize = 0;
        assert(all.take(0) =~= Seq::<Seq<char>>::empty());
        while i < lines.len()
            invariant
                i <= lines@.len(),
                all == text::views(lines@),
                h@ == users_in(all.take(i as int)),
                h@.dom().finite(),
                any <==> h@.dom().len() > 0,
            decreases lines@.len() - i,
        {
            proof {
                assert(all.take(i + 1).drop_last() =~= all.take(i as int));
                assert(all.take(i + 1).last() == lines@[i as int]@);
            }
            if let Some((user, hash)) = read_line(lines[i].as_str()) {
                let ghost was = h@;
                h.put(user, hash);
                any = true;
                assert(h@.dom().contains(user@));
                assert(h@.dom().len() > 0) by {
                    if h@.dom().len() == 0 {
                        assert(h@.dom() =~= Set::<Seq<char>>::empty());
                    }
                }
            }
            i = i + 1;
        }
        assert(all.take(i as int) =~= all);
        if !any {
            proof {
                assert(h@.dom() =~= Set::<Seq<char>>::empty());
                assert(h@ =~= Users::empty());
            }
            return Err("htpasswd file has no usable entries".to_owned());
        }
        Ok(h)
    }

    fn put(&mut self, user: String, hash: Hash)
        ensures
            final(self)@ == old(self)@.insert(user@, hash@),
    {
        let ghost was = self@;
        let ghost u = user@;
        let ghost h = hash@;
        self.users.insert(user, hash);
        assert(self@ =~= was.insert(u, h));
    }

    /// Adds a plain entry.
    pub fn insert_plain(&mut self, user: &str, pw: &str)
        ensures
            final(self)@ == old(self)@.insert(user@, HashView::Plain(pw@)),
    {
        self.put(user.to_owned(), Hash::Plain(pw.to_owned()));
    }

    /// Whether the password is the user's.
    pub fn verify(&self, user: &str, password: &str) -> (r: bool)
        ensures
            r == accepts(self@, user@, password@),
    {
        match self.users.get(user) {
            None => false,
            Some(stored) => {
                assert(self@[user@] == stored@);
                match stored {
                    Hash::Plain(p) => {
                        proof {
                            vstd::utf8::encode_utf8_decode_utf8(p@);
                            vstd::utf8::encode_utf8_decode_utf8(password@);
                        }
                        constant_eq(p.as_str().as_bytes(), password.as_bytes())
                    },
                    Hash::Bcrypt(h) => match outside::bcrypt_verify(password, h.as_str()) {
                        Some(b) => b,
                        None => false,
                    },
                }
            },
        }
    }
}

/// The password is the user's: equal to a plain one, or passed by bcrypt.
pub open spec fn accepts(users: Users, user: Seq<char>, password: Seq<char>) -> bool {
    users.contains_key(user) && match users[user] {
        HashView::Plain(p) => p == password,
        HashView::Bcrypt(h) => outside::bcrypt_check(password, h) == Some(true),
    }
}

/// Equality of two byte strings, looking at every byte whatever the others are.
pub fn constant_eq(a: &[u8], b: &[u8]) -> (r: bool)
    ensures
        r == (a@ == b@),
{
    if a.len() != b.len() {
        return false;
    }
    let mut diff: u8 = 0;
    let mut i: usize = 0;
    while i < a.len()
        invariant
            i <= a@.len(),
            a@.len() == b@.len(),
            diff == 0 <==> forall|j: int| 0 <= j < i ==> a@[j] == b@[j],
        decreases a@.len() - i,
    {
        let x: u8 = a[i];
        let y: u8 = b[i];
        let next: u8 = diff | (x ^ y);
        assert(next == 0 <==> diff == 0 && x == y) by (bit_vector)
            requires
                next == diff | (x ^ y),
        ;
        diff = next;
        i = i + 1;
    }
    assert(diff == 0 ==> a@ =~= b@);
    diff == 0
}

/// The user and password of a decoded credential: what stands before and behind its
/// first colon.
pub open spec fn credentials(bytes: Seq<u8>) -> Option<(Seq<char>, Seq<char>)> {
    if !vstd::utf8::valid_utf8(bytes) {
        None
    } else {
        let s = vstd::utf8::decode_utf8(bytes);
        if !s.contains(':') {
            None
        } else {
            let i = text::index_of(s, ':');
            Some((s.subrange(0, i), text::from_pos(s, i + 1)))
        }
    }
}

/// Splits a decoded credential.
pub fn split_credentials(bytes: Vec<u8>) -> (r: Option<(String, String)>)
    ensures
        match r {
            Some((u, p)) => credentials(bytes@) == Some((u@, p@)),
            None => credentials(bytes@) is None,
        },
{
    let s = match outside::utf8_text(bytes) {
        None => return None,
        Some(s) => s,
    };
    let v = text::chars_of(s.as_str());
    let n: usize = v.len();
    match text::find_char(&v, ':') {
        None => None,
        Some(i) => {
            proof {
                text::lemma_index_of(v@, ':', i as int);
            }
            Some((text::piece(&v, 0, i), text::piece(&v, i + 1, n)))
        },
    }
}

/// The text behind `Basic ` or `basic `, without white space around it.
pub open spec fn basic_token(header: Seq<char>) -> Option<Seq<char>> {
    if text::starts_with(header, "Basic "@) {
        Some(text::trim(text::from_pos(header, "Basic "@.len() as int)))
    } else if text::starts_with(header, "basic "@) {
        Some(text::trim(text::from_pos(header, "basic "@.len() as int)))
    } else {
        None
    }
}

fn token_behind(header: &Vec<char>, prefix: &str) -> (r: Option<String>)
    ensures
        match r {
            Some(t) => text::starts_with(header@, prefix@) && t@ == text::trim(
                text::from_pos(header@, prefix@.len() as int),
            ),
            None => !text::starts_with(header@, prefix@),
        },
{
    let p = text::chars_of(prefix);
    if !text::has_prefix(header, &p) {
        return None;
    }
    let rest = text::cut(header, p.len(), header.len());
    let t = text::trimmed(&rest);
    Some(text::text_of(&t))
}

/// The user and password of an `Authorization` header.
pub fn parse_basic(header: &str) -> (r: Option<(String, String)>)
    ensures
        match r {
            Some((u, p)) => basic_credentials(header@) == Some((u@, p@)),
            None => basic_credentials(header@) is None,
        },
{
    let h = text::chars_of(header);
    let token = match token_behind(&h, "Basic ") {
        Some(t) => t,
        None => match token_behind(&h, "basic ") {
            Some(t) => t,
            None => return None,
        },
    };
    match outside::base64_decode(token.as_str()) {
        None => None,
        Some(bytes) => split_credentials(bytes),
    }
}

/// The user and password that an `Authorization` header stands for.
pub open spec fn basic_credentials(header: Seq<char>) -> Option<(Seq<char>, Seq<char>)> {
    match basic_token(header) {
        None => None,
        Some(t) => match outside::base64_bytes(t) {
            None => None,
            Some(bytes) => credentials(bytes),
        },
    }
}

/// The value of `WWW-Authenticate` that asks for Basic credentials.
pub fn challenge_headers(realm: &str) -> (r: String)
    ensures
        r@ == "Basic realm=\""@ + realm@ + "\""@,
{
    text::cat3("Basic realm=\"", realm, "\"")
}

/// The status of a request without valid credentials.
pub const UNAUTH_STATUS: u16 = 401;

} // verus!
