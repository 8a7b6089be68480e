//! A store in a directory tree that works is a store that works.
//!
//! `tree_step` says what a file system that works answers. On such a file system a
//! store answers every call as `model::step` says of what the files stand for.

use vstd::arithmetic::div_mod::{lemma_div_denominator, lemma_fundamental_div_mod};
use vstd::arithmetic::power::{lemma_pow0, lemma_pow1, lemma_pow_adds, lemma_pow_positive, pow};
use vstd::prelude::*;

use crate::digest;
use crate::digest::{Algorithm, DigestView};
use crate::files::{FileError, FileOp, RecordedFiles};
use crate::fs;
use crate::handlers;
use crate::model;
use crate::model::{Holdings, Reading};
use crate::outside;
use crate::storage::{Call, ReferenceView, StorageError};
use crate::text;
use crate::walk::Place;

verus! {

// ---- File systems ---------------------------------------------------------

/// The files and directories of a tree.
pub struct Tree {
    pub files: Map<Seq<char>, Seq<u8>>,
    pub dirs: Set<Seq<char>>,
}

/// A name that can stand in a directory.
pub open spec fn plain(name: Seq<char>) -> bool {
    name.len() > 0 && !name.contains('/')
}

impl Tree {
    /// Whatever is there lies in directories that are there.
    pub open spec fn rooted(self) -> bool {
        &&& forall|dir: Seq<char>, name: Seq<char>|
            self.files.contains_key(#[trigger] fs::below(dir, name)) ==> self.dirs.contains(dir)
        &&& forall|dir: Seq<char>, name: Seq<char>|
            self.dirs.contains(#[trigger] fs::below(dir, name)) ==> self.dirs.contains(dir)
    }
}

/// The answer is that there is no such file or directory.
pub open spec fn gone<T>(r: Result<T, FileError>) -> bool {
    r is Err && r->Err_0.missing
}

/// `b` is `a` with a file put in place, and the directories that it needs.
pub open spec fn with_file(a: Tree, path: Seq<char>, content: Seq<u8>, b: Tree) -> bool {
    &&& b.files == a.files.insert(path, content)
    &&& a.dirs.subset_of(b.dirs)
    &&& b.rooted()
}

pub open spec fn without_file(a: Tree, path: Seq<char>) -> Tree {
    Tree { files: a.files.remove(path), dirs: a.dirs }
}

/// A file system that works, holds `a` and is asked `op` answers so and holds `b` then.
/// It may refuse to move a file, as from one device to another.
pub open spec fn tree_step(read: Reading, a: Tree, op: FileOp, b: Tree) -> bool {
    match op {
        FileOp::MakeDir { reply, .. } => {
            &&& reply is Ok
            &&& b.files == a.files
            &&& a.dirs.subset_of(b.dirs)
            &&& b.rooted()
        },
        FileOp::IsDir { path, reply } => b == a && reply == (path.len() == 0 || a.dirs.contains(
            path,
        )),
        FileOp::Has { path, reply } => {
            &&& b == a
            &&& reply == Ok::<bool, FileError>(a.files.contains_key(path))
        },
        FileOp::Size { path, reply } => {
            &&& b == a
            &&& if a.files.contains_key(path) {
                reply is Ok && reply->Ok_0 == a.files[path].len()
            } else {
                gone(reply)
            }
        },
        FileOp::Read { path, reply } => {
            &&& b == a
            &&& if a.files.contains_key(path) {
                reply == Ok::<_, FileError>(a.files[path])
            } else {
                gone(reply)
            }
        },
        FileOp::Replace { path, content, reply } => reply is Ok && with_file(a, path, content, b),
        FileOp::Create { path, reply } => reply is Ok && with_file(a, path, Seq::empty(), b),
        FileOp::Append { path, chunk, reply } => if a.files.contains_key(path) {
            let all = a.files[path] + chunk;
            reply is Ok && reply->Ok_0 == all.len() && with_file(a, path, all, b)
        } else {
            gone(reply) && b == a
        },
        FileOp::Rename { from, to, reply } => if a.files.contains_key(from) && reply is Ok {
            with_file(without_file(a, from), to, a.files[from], b)
        } else {
            reply is Err && b == a
        },
        FileOp::Remove { path, reply } => if a.files.contains_key(path) {
            reply is Ok && b == without_file(a, path)
        } else {
            gone(reply) && b == a
        },
        FileOp::FilesIn { dir, reply } => {
            &&& b == a
            &&& if a.dirs.contains(dir) {
                &&& reply is Ok
                &&& forall|n: Seq<char>| #[trigger]
                    reply->Ok_0.contains(n) <==> plain(n) && a.files.contains_key(fs::below(dir, n))
            } else {
                gone(reply)
            }
        },
        FileOp::DirsIn { dir, reply } => {
            &&& b == a
            &&& if a.dirs.contains(dir) {
                &&& reply is Ok
                &&& forall|n: Seq<char>| #[trigger]
                    reply->Ok_0.contains(n) <==> plain(n) && a.dirs.contains(fs::below(dir, n))
            } else {
                gone(reply)
            }
        },
        FileOp::Manifest { content, reply } => b == a && reply == read(content),
    }
}

/// A file system that works holds `ts[0]`, `ts[1]` and so on while it is asked `ops`.
pub open spec fn files_work(read: Reading, ts: Seq<Tree>, ops: Seq<FileOp>) -> bool {
    &&& ts.len() == ops.len() + 1
    &&& forall|i: int|
        0 <= i < ops.len() ==> tree_step(read, ts[i], #[trigger] ops[i], ts[i + 1])
}

// ---- What files stand for -------------------------------------------------

/// Components with `/` between.
pub open spec fn joined(parts: Seq<Seq<char>>) -> Seq<char>
    decreases parts.len(),
{
    if parts.len() == 0 {
        Seq::empty()
    } else {
        fs::child(joined(parts.drop_last()), parts.last())
    }
}

/// A component of a repository's name that is listed as it is.
pub open spec fn ordinary_part(part: Seq<char>) -> bool {
    plain(part) && !part.contains('\\')
}

pub open spec fn ordinary_parts(repo: Seq<char>, parts: Seq<Seq<char>>) -> bool {
    &&& parts.len() > 0
    &&& forall|i: int| 0 <= i < parts.len() ==> ordinary_part(#[trigger] parts[i])
    &&& repo == joined(parts)
}

/// A repository whose name is made of such components.
pub open spec fn ordinary_repo(repo: Seq<char>) -> bool {
    exists|parts: Seq<Seq<char>>| #[trigger] ordinary_parts(repo, parts)
}

/// A tag whose file is not taken for one that is unfinished.
pub open spec fn ordinary_tag(tag: Seq<char>) -> bool {
    plain(tag) && !fs::unfinished(tag)
}

/// The digest that the content of a tag's file names.
pub open spec fn pointed(content: Seq<u8>) -> Option<DigestView> {
    if vstd::utf8::valid_utf8(content) {
        match digest::parsed(text::trim(vstd::utf8::decode_utf8(content))) {
            Ok(d) => Some(d),
            Err(_) => None,
        }
    } else {
        None
    }
}

pub open spec fn is_blob(p: Seq<char>, d: DigestView) -> bool {
    d.wf() && p == fs::blob_file(d)
}

pub open spec fn is_manifest(p: Seq<char>, repo: Seq<char>, d: DigestView) -> bool {
    ordinary_repo(repo) && d.wf() && p == fs::digest_file(repo, d)
}

pub open spec fn is_tag(p: Seq<char>, repo: Seq<char>, tag: Seq<char>) -> bool {
    ordinary_repo(repo) && ordinary_tag(tag) && p == fs::tag_file(repo, tag)
}

pub open spec fn is_upload(p: Seq<char>, id: u128) -> bool {
    p == fs::upload_file(id)
}

/// The file is one that a store keeps.
pub open spec fn of_store(p: Seq<char>) -> bool {
    ||| exists|d: DigestView| #[trigger] is_blob(p, d)
    ||| exists|repo: Seq<char>, d: DigestView| #[trigger] is_manifest(p, repo, d)
    ||| exists|repo: Seq<char>, tag: Seq<char>| #[trigger] is_tag(p, repo, tag)
    ||| exists|id: u128| #[trigger] is_upload(p, id)
}

impl Tree {
    /// There is nothing in the tree but what a store keeps there, and every tag names a
    /// digest.
    pub open spec fn tidy(self) -> bool {
        &&& self.rooted()
        &&& forall|p: Seq<char>| #[trigger] self.files.contains_key(p) ==> of_store(p)
        &&& forall|repo: Seq<char>, tag: Seq<char>|
            ordinary_repo(repo) && ordinary_tag(tag) && self.files.contains_key(
                #[trigger] fs::tag_file(repo, tag),
            ) ==> pointed(self.files[fs::tag_file(repo, tag)]) is Some
    }

    /// What the files stand for.
    pub open spec fn holds(self) -> Holdings {
        Holdings {
            blobs: Map::new(
                |d: DigestView| d.wf() && self.files.contains_key(fs::blob_file(d)),
                |d: DigestView| self.files[fs::blob_file(d)],
            ),
            manifests: Map::new(
                |p: Place|
                    ordinary_repo(p.0) && p.1.wf() && self.files.contains_key(
                        fs::digest_file(p.0, p.1),
                    ),
                |p: Place| self.files[fs::digest_file(p.0, p.1)],
            ),
            tags: Map::new(
                |k: (Seq<char>, Seq<char>)|
                    ordinary_repo(k.0) && ordinary_tag(k.1) && self.files.contains_key(
                        fs::tag_file(k.0, k.1),
                    ),
                |k: (Seq<char>, Seq<char>)| pointed(self.files[fs::tag_file(k.0, k.1)])->Some_0,
            ),
            uploads: Map::new(
                |id: u128| self.files.contains_key(fs::upload_file(id)),
                |id: u128| self.files[fs::upload_file(id)],
            ),
        }
    }
}

// ---- Different things, different files ------------------------------------

proof fn lemma_below(x: Seq<char>, n: Seq<char>, y: Seq<char>, m: Seq<char>)
    requires
        fs::below(x, n) == fs::below(y, m),
        !n.contains('/'),
        !m.contains('/'),
    ensures
        x == y,
        n == m,
{
    let s = fs::below(x, n);
    let t = fs::below(y, m);
    assert(s[x.len() as int] == '/');
    assert(t[y.len() as int] == '/');
    assert(s.len() == x.len() + 1 + n.len());
    assert(t.len() == y.len() + 1 + m.len());
    if x.len() < y.len() {
        assert(s[y.len() as int] == n[y.len() - x.len() - 1]);
        assert(n[y.len() - x.len() - 1] == s[y.len() as int]);
        assert(n.contains('/'));
    }
    if y.len() < x.len() {
        assert(m[x.len() - y.len() - 1] == t[x.len() as int]);
        assert(m.contains('/'));
    }
    assert(x =~= s.take(x.len() as int));
    assert(y =~= t.take(y.len() as int));
    assert(n =~= s.skip((x.len() + 1) as int));
    assert(m =~= t.skip((y.len() + 1) as int));
}

proof fn lemma_hex_digit(a: int, b: int)
    requires
        0 <= a < 16,
        0 <= b < 16,
    ensures
        outside::hex_digit(a) == outside::hex_digit(b) ==> a == b,
        outside::hex_digit(a) != '/',
{
}

proof fn lemma_pow_16_32()
    ensures
        pow(16, 32) == 0x1_0000_0000_0000_0000_0000_0000_0000_0000,
{
    lemma_pow1(16);
    lemma_pow_adds(16, 1, 1);
    assert(pow(16, 2) == 16 * 16);
    lemma_pow_adds(16, 2, 2);
    assert(pow(16, 4) == 0x100 * 0x100);
    lemma_pow_adds(16, 4, 4);
    assert(pow(16, 8) == 0x1_0000 * 0x1_0000);
    lemma_pow_adds(16, 8, 8);
    assert(pow(16, 16) == 0x1_0000_0000 * 0x1_0000_0000);
    lemma_pow_adds(16, 16, 16);
    assert(pow(16, 32) == 0x1_0000_0000_0000_0000 * 0x1_0000_0000_0000_0000);
}

proof fn lemma_same_digits(x: int, y: int, j: nat)
    requires
        0 <= x < pow(16, 32),
        0 <= y < pow(16, 32),
        j <= 32,
        forall|k: nat| k < 32 ==> (x / #[trigger] pow(16, k)) % 16 == (y / pow(16, k)) % 16,
    ensures
        x / pow(16, j) == y / pow(16, j),
    decreases 32 - j,
{
    lemma_pow_positive(16, j);
    if j == 32 {
        vstd::arithmetic::div_mod::lemma_basic_div(x, pow(16, 32));
        vstd::arithmetic::div_mod::lemma_basic_div(y, pow(16, 32));
    } else {
        lemma_same_digits(x, y, j + 1);
        lemma_pow1(16);
        lemma_pow_adds(16, j, 1);
        lemma_div_denominator(x, pow(16, j), 16);
        lemma_div_denominator(y, pow(16, j), 16);
        lemma_fundamental_div_mod(x / pow(16, j), 16);
        lemma_fundamental_div_mod(y / pow(16, j), 16);
    }
}

/// Different uploads have different names.
proof fn lemma_uuid(a: u128, b: u128)
    ensures
        !outside::uuid_hyphenated(a).contains('/'),
        outside::uuid_hyphenated(a).len() == 36,
        outside::uuid_hyphenated(a) == outside::uuid_hyphenated(b) ==> a == b,
{
    let s = outside::uuid_hyphenated(a);
    let t = outside::uuid_hyphenated(b);
    let d = Seq::new(32, |k: int| outside::uuid_digit(a, k));
    let e = Seq::new(32, |k: int| outside::uuid_digit(b, k));
    assert forall|k: int| 0 <= k < 32 implies #[trigger] d[k] != '/' by {
        lemma_hex_digit((a as int / pow(16, (31 - k) as nat)) % 16, 0);
    }
    assert forall|i: int| 0 <= i < s.len() implies s[i] != '/' by {
        if i < 8 {
            assert(s[i] == d[i]);
        } else if 8 < i < 13 {
            assert(s[i] == d[i - 1]);
        } else if 13 < i < 18 {
            assert(s[i] == d[i - 2]);
        } else if 18 < i < 23 {
            assert(s[i] == d[i - 3]);
        } else if 23 < i {
            assert(s[i] == d[i - 4]);
        }
    }
    if s == t {
        assert forall|k: int| 0 <= k < 32 implies #[trigger] d[k] == e[k] by {
            if k < 8 {
                assert(s[k] == d[k] && t[k] == e[k]);
            } else if k < 12 {
                assert(s[k + 1] == d[k] && t[k + 1] == e[k]);
            } else if k < 16 {
                assert(s[k + 2] == d[k] && t[k + 2] == e[k]);
            } else if k < 20 {
                assert(s[k + 3] == d[k] && t[k + 3] == e[k]);
            } else {
                assert(s[k + 4] == d[k] && t[k + 4] == e[k]);
            }
        }
        lemma_pow_16_32();
        let (x, y) = (a as int, b as int);
        assert forall|k: nat| k < 32 implies (x / #[trigger] pow(16, k)) % 16 == (y / pow(16, k))
            % 16 by {
            assert(d[31 - k] == e[31 - k]);
            assert((31 - (31 - k)) as nat == k);
            lemma_hex_digit((x / pow(16, k)) % 16, (y / pow(16, k)) % 16);
        }
        lemma_same_digits(x, y, 0);
        lemma_pow0(16);
        assert(x / 1 == x && y / 1 == y);
    }
}

proof fn lemma_names()
    ensures
        "blobs"@.len() == 5,
        "blobs"@[0] == 'b',
        "manifests"@.len() == 9,
        "manifests"@[0] == 'm',
        "uploads"@.len() == 7,
        "uploads"@[0] == 'u',
        "tags"@.len() == 4,
        plain("tags"@),
        "digests"@.len() == 7,
        plain("digests"@),
        "sha256"@.len() == 6,
        plain("sha256"@),
        "sha512"@.len() == 6,
        plain("sha512"@),
        "sha256"@ != "sha512"@,
{
    reveal_strlit("blobs");
    reveal_strlit("manifests");
    reveal_strlit("uploads");
    reveal_strlit("tags");
    reveal_strlit("digests");
    reveal_strlit("sha256");
    reveal_strlit("sha512");
    assert("sha256"@[3] != "sha512"@[3]);
}

/// What the name of a digest is like.
proof fn lemma_digest_name(d: DigestView)
    requires
        d.wf(),
    ensures
        plain(d.text()),
        plain(d.hex),
        d.hex.len() >= 64,
        plain(d.hex.take(2)),
        !fs::unfinished(d.text()),
        !fs::unfinished(d.hex),
{
    lemma_names();
    assert forall|i: int| 0 <= i < d.hex.len() implies d.hex[i] != '/' && d.hex[i] != '.' by {
        assert(digest::is_hex(d.hex[i]));
    }
    let s = d.text();
    let n = d.algorithm.spec_name();
    assert forall|i: int| 0 <= i < s.len() implies s[i] != '/' by {
        if i < n.len() {
            assert(s[i] == n[i]);
        } else if i > n.len() {
            assert(s[i] == d.hex[i - n.len() - 1]);
        }
    }
    reveal_strlit(".tmp");
    assert(s[s.len() - 4] == d.hex[d.hex.len() - 4]);
    assert(".tmp"@[0] == '.');
    if fs::unfinished(s) {
        assert(s.subrange(s.len() - 4, s.len() as int)[0] == ".tmp"@[0]);
    }
    if fs::unfinished(d.hex) {
        assert(d.hex.subrange(d.hex.len() - 4, d.hex.len() as int)[0] == ".tmp"@[0]);
    }
}

/// The kinds of files begin with different letters.
proof fn lemma_kinds()
    ensures
        forall|d: DigestView| (#[trigger] fs::blob_file(d))[0] == 'b',
        forall|repo: Seq<char>, d: DigestView| (#[trigger] fs::digest_file(repo, d))[0] == 'm',
        forall|repo: Seq<char>, tag: Seq<char>| (#[trigger] fs::tag_file(repo, tag))[0] == 'm',
        forall|id: u128| (#[trigger] fs::upload_file(id))[0] == 'u',
{
    lemma_names();
    assert forall|d: DigestView| (#[trigger] fs::blob_file(d))[0] == 'b' by {
        assert(fs::blob_file(d)[0] == "blobs"@[0]);
    }
    assert forall|repo: Seq<char>| (#[trigger] fs::repo_dir(repo))[0] == 'm' by {
    }
    assert forall|repo: Seq<char>, d: DigestView| (#[trigger] fs::digest_file(repo, d))[0]
        == 'm' by {
        assert(fs::digest_file(repo, d)[0] == fs::repo_dir(repo)[0]);
    }
    assert forall|repo: Seq<char>, tag: Seq<char>| (#[trigger] fs::tag_file(repo, tag))[0]
        == 'm' by {
        assert(fs::tag_file(repo, tag)[0] == fs::repo_dir(repo)[0]);
    }
    assert forall|id: u128| (#[trigger] fs::upload_file(id))[0] == 'u' by {
        assert(fs::upload_file(id)[0] == "uploads"@[0]);
    }
}

proof fn lemma_blob_files(d: DigestView, e: DigestView)
    requires
        d.wf(),
        e.wf(),
        fs::blob_file(d) == fs::blob_file(e),
    ensures
        d == e,
{
    lemma_names();
    lemma_digest_name(d);
    lemma_digest_name(e);
    lemma_below(fs::shelf(d), d.hex, fs::shelf(e), e.hex);
    lemma_below(fs::blob_dir(d.algorithm), d.hex.take(2), fs::blob_dir(e.algorithm), e.hex.take(2));
    lemma_below("blobs"@, d.algorithm.spec_name(), "blobs"@, e.algorithm.spec_name());
}

proof fn lemma_repo_dirs(repo: Seq<char>, other: Seq<char>)
    requires
        repo.len() > 0,
        other.len() > 0,
        fs::repo_dir(repo) == fs::repo_dir(other),
    ensures
        repo == other,
{
    let s = fs::repo_dir(repo);
    let n = ("manifests"@.len() + 1) as int;
    assert(repo =~= s.skip(n));
    assert(other =~= fs::repo_dir(other).skip(n));
}

proof fn lemma_manifest_files(repo: Seq<char>, d: DigestView, other: Seq<char>, e: DigestView)
    requires
        repo.len() > 0,
        other.len() > 0,
        d.wf(),
        e.wf(),
        fs::digest_file(repo, d) == fs::digest_file(other, e),
    ensures
        repo == other,
        d == e,
{
    lemma_names();
    lemma_digest_name(d);
    lemma_digest_name(e);
    lemma_below(fs::digests_dir(repo), d.text(), fs::digests_dir(other), e.text());
    lemma_below(fs::repo_dir(repo), "digests"@, fs::repo_dir(other), "digests"@);
    lemma_repo_dirs(repo, other);
    digest::digest_round_trip(d);
    digest::digest_round_trip(e);
}

proof fn lemma_tag_files(repo: Seq<char>, tag: Seq<char>, other: Seq<char>, tag2: Seq<char>)
    requires
        repo.len() > 0,
        other.len() > 0,
        plain(tag),
        plain(tag2),
        fs::tag_file(repo, tag) == fs::tag_file(other, tag2),
    ensures
        repo == other,
        tag == tag2,
{
    lemma_names();
    lemma_below(fs::tags_dir(repo), tag, fs::tags_dir(other), tag2);
    lemma_below(fs::repo_dir(repo), "tags"@, fs::repo_dir(other), "tags"@);
    lemma_repo_dirs(repo, other);
}

proof fn lemma_tag_is_no_manifest(repo: Seq<char>, tag: Seq<char>, other: Seq<char>, d: DigestView)
    requires
        plain(tag),
        d.wf(),
    ensures
        fs::tag_file(repo, tag) != fs::digest_file(other, d),
{
    lemma_names();
    lemma_digest_name(d);
    if fs::tag_file(repo, tag) == fs::digest_file(other, d) {
        lemma_below(fs::tags_dir(repo), tag, fs::digests_dir(other), d.text());
        lemma_below(fs::repo_dir(repo), "tags"@, fs::repo_dir(other), "digests"@);
    }
}

proof fn lemma_upload_files(a: u128, b: u128)
    requires
        fs::upload_file(a) == fs::upload_file(b),
    ensures
        a == b,
{
    lemma_uuid(a, b);
    lemma_uuid(b, a);
    lemma_below(
        "uploads"@,
        outside::uuid_hyphenated(a),
        "uploads"@,
        outside::uuid_hyphenated(b),
    );
}

/// What the name of a repository is like.
proof fn lemma_repo(repo: Seq<char>)
    requires
        ordinary_repo(repo),
    ensures
        repo.len() > 0,
        fs::shown(repo) == repo,
{
    let parts = choose|parts: Seq<Seq<char>>| #[trigger] ordinary_parts(repo, parts);
    lemma_joined(parts);
    assert(fs::shown(repo) =~= repo);
}

proof fn lemma_joined(parts: Seq<Seq<char>>)
    requires
        forall|i: int| 0 <= i < parts.len() ==> ordinary_part(#[trigger] parts[i]),
    ensures
        parts.len() > 0 ==> joined(parts).len() > 0,
        forall|i: int| 0 <= i < joined(parts).len() ==> #[trigger] joined(parts)[i] != '\\',
    decreases parts.len(),
{
    if parts.len() > 0 {
        let rest = parts.drop_last();
        let last = parts.last();
        assert forall|i: int| 0 <= i < rest.len() implies ordinary_part(#[trigger] rest[i]) by {
            assert(rest[i] == parts[i]);
        }
        lemma_joined(rest);
        assert(ordinary_part(last));
        let s = joined(parts);
        assert forall|i: int| 0 <= i < s.len() implies #[trigger] s[i] != '\\' by {
            if joined(rest).len() == 0 {
                assert(last.contains(last[i]));
            } else if i < joined(rest).len() {
                assert(s[i] == joined(rest)[i]);
            } else if i > joined(rest).len() {
                assert(s[i] == last[i - joined(rest).len() - 1]);
                assert(last.contains(last[i - joined(rest).len() - 1]));
            }
        }
    }
}

// ---- What an operation does to what files stand for -----------------------

proof fn lemma_put_blob(a: Tree, d: DigestView, content: Seq<u8>, b: Tree)
    requires
        a.tidy(),
        d.wf(),
        with_file(a, fs::blob_file(d), content, b),
    ensures
        b.tidy(),
        b.holds() == (Holdings { blobs: a.holds().blobs.insert(d, content), ..a.holds() }),
{
    let p = fs::blob_file(d);
    assert(is_blob(p, d));
    lemma_kinds();
    assert forall|e: DigestView| e.wf() && e != d implies #[trigger] fs::blob_file(e) != p by {
        if fs::blob_file(e) == p {
            lemma_blob_files(d, e);
        }
    }
    assert(b.holds().blobs =~= a.holds().blobs.insert(d, content));
    assert(b.holds().manifests =~= a.holds().manifests);
    assert(b.holds().tags =~= a.holds().tags);
    assert(b.holds().uploads =~= a.holds().uploads);
}

proof fn lemma_drop_blob(a: Tree, d: DigestView)
    requires
        a.tidy(),
        d.wf(),
    ensures
        without_file(a, fs::blob_file(d)).tidy(),
        without_file(a, fs::blob_file(d)).holds() == (Holdings {
            blobs: a.holds().blobs.remove(d),
            ..a.holds()
        }),
{
    let p = fs::blob_file(d);
    let b = without_file(a, p);
    lemma_kinds();
    assert forall|e: DigestView| e.wf() && e != d implies #[trigger] fs::blob_file(e) != p by {
        if fs::blob_file(e) == p {
            lemma_blob_files(d, e);
        }
    }
    assert(b.holds().blobs =~= a.holds().blobs.remove(d));
    assert(b.holds().manifests =~= a.holds().manifests);
    assert(b.holds().tags =~= a.holds().tags);
    assert(b.holds().uploads =~= a.holds().uploads);
}

proof fn lemma_put_upload(a: Tree, id: u128, content: Seq<u8>, b: Tree)
    requires
        a.tidy(),
        with_file(a, fs::upload_file(id), content, b),
    ensures
        b.tidy(),
        b.holds() == (Holdings { uploads: a.holds().uploads.insert(id, content), ..a.holds() }),
{
    let p = fs::upload_file(id);
    assert(is_upload(p, id));
    lemma_kinds();
    assert forall|x: u128| x != id implies #[trigger] fs::upload_file(x) != p by {
        if fs::upload_file(x) == p {
            lemma_upload_files(x, id);
        }
    }
    assert(b.holds().blobs =~= a.holds().blobs);
    assert(b.holds().manifests =~= a.holds().manifests);
    assert(b.holds().tags =~= a.holds().tags);
    assert(b.holds().uploads =~= a.holds().uploads.insert(id, content));
}

proof fn lemma_drop_upload(a: Tree, id: u128)
    requires
        a.tidy(),
    ensures
        without_file(a, fs::upload_file(id)).tidy(),
        without_file(a, fs::upload_file(id)).holds() == (Holdings {
            uploads: a.holds().uploads.remove(id),
            ..a.holds()
        }),
{
    let p = fs::upload_file(id);
    let b = without_file(a, p);
    lemma_kinds();
    assert forall|x: u128| x != id implies #[trigger] fs::upload_file(x) != p by {
        if fs::upload_file(x) == p {
            lemma_upload_files(x, id);
        }
    }
    assert(b.holds().blobs =~= a.holds().blobs);
    assert(b.holds().manifests =~= a.holds().manifests);
    assert(b.holds().tags =~= a.holds().tags);
    assert(b.holds().uploads =~= a.holds().uploads.remove(id));
}

/// A manifest's file is no other's.
proof fn lemma_own_manifest(repo: Seq<char>, d: DigestView)
    requires
        ordinary_repo(repo),
        d.wf(),
    ensures
        forall|x: Seq<char>, e: DigestView|
            ordinary_repo(x) && e.wf() && (x, e) != (repo, d) ==> #[trigger] fs::digest_file(x, e)
                != fs::digest_file(repo, d),
        forall|x: Seq<char>, tag: Seq<char>|
            plain(tag) ==> #[trigger] fs::tag_file(x, tag) != fs::digest_file(repo, d),
{
    lemma_repo(repo);
    assert forall|x: Seq<char>, e: DigestView|
        ordinary_repo(x) && e.wf() && (x, e) != (repo, d) implies #[trigger] fs::digest_file(x, e)
        != fs::digest_file(repo, d) by {
        lemma_repo(x);
        if fs::digest_file(x, e) == fs::digest_file(repo, d) {
            lemma_manifest_files(x, e, repo, d);
        }
    }
    assert forall|x: Seq<char>, tag: Seq<char>| plain(tag) implies #[trigger] fs::tag_file(x, tag)
        != fs::digest_file(repo, d) by {
        lemma_tag_is_no_manifest(x, tag, repo, d);
    }
}

/// A tag's file is no other's.
proof fn lemma_own_tag(repo: Seq<char>, tag: Seq<char>)
    requires
        ordinary_repo(repo),
        ordinary_tag(tag),
    ensures
        forall|x: Seq<char>, y: Seq<char>|
            ordinary_repo(x) && plain(y) && (x, y) != (repo, tag) ==> #[trigger] fs::tag_file(x, y)
                != fs::tag_file(repo, tag),
        forall|x: Seq<char>, d: DigestView|
            d.wf() ==> #[trigger] fs::digest_file(x, d) != fs::tag_file(repo, tag),
{
    lemma_repo(repo);
    assert forall|x: Seq<char>, y: Seq<char>|
        ordinary_repo(x) && plain(y) && (x, y) != (repo, tag) implies #[trigger] fs::tag_file(x, y)
        != fs::tag_file(repo, tag) by {
        lemma_repo(x);
        if fs::tag_file(x, y) == fs::tag_file(repo, tag) {
            lemma_tag_files(x, y, repo, tag);
        }
    }
    assert forall|x: Seq<char>, d: DigestView| d.wf() implies #[trigger] fs::digest_file(x, d)
        != fs::tag_file(repo, tag) by {
        lemma_tag_is_no_manifest(repo, tag, x, d);
    }
}

proof fn lemma_put_manifest(a: Tree, repo: Seq<char>, d: DigestView, content: Seq<u8>, b: Tree)
    requires
        a.tidy(),
        ordinary_repo(repo),
        d.wf(),
        with_file(a, fs::digest_file(repo, d), content, b),
    ensures
        b.tidy(),
        b.holds() == (Holdings {
            manifests: a.holds().manifests.insert((repo, d), content),
            ..a.holds()
        }),
{
    let p = fs::digest_file(repo, d);
    assert(is_manifest(p, repo, d));
    lemma_kinds();
    lemma_own_manifest(repo, d);
    assert(b.holds().blobs =~= a.holds().blobs);
    assert(b.holds().manifests =~= a.holds().manifests.insert((repo, d), content));
    assert(b.holds().tags =~= a.holds().tags);
    assert(b.holds().uploads =~= a.holds().uploads);
}

proof fn lemma_drop_manifest(a: Tree, repo: Seq<char>, d: DigestView)
    requires
        a.tidy(),
        ordinary_repo(repo),
        d.wf(),
    ensures
        without_file(a, fs::digest_file(repo, d)).tidy(),
        without_file(a, fs::digest_file(repo, d)).holds() == (Holdings {
            manifests: a.holds().manifests.remove((repo, d)),
            ..a.holds()
        }),
{
    let p = fs::digest_file(repo, d);
    let b = without_file(a, p);
    lemma_kinds();
    lemma_own_manifest(repo, d);
    assert(b.holds().blobs =~= a.holds().blobs);
    assert(b.holds().manifests =~= a.holds().manifests.remove((repo, d)));
    assert(b.holds().tags =~= a.holds().tags);
    assert(b.holds().uploads =~= a.holds().uploads);
}

proof fn lemma_put_tag(
    a: Tree,
    repo: Seq<char>,
    tag: Seq<char>,
    d: DigestView,
    content: Seq<u8>,
    b: Tree,
)
    requires
        a.tidy(),
        ordinary_repo(repo),
        ordinary_tag(tag),
        pointed(content) == Some(d),
        with_file(a, fs::tag_file(repo, tag), content, b),
    ensures
        b.tidy(),
        b.holds() == (Holdings { tags: a.holds().tags.insert((repo, tag), d), ..a.holds() }),
{
    let p = fs::tag_file(repo, tag);
    assert(is_tag(p, repo, tag));
    lemma_kinds();
    lemma_own_tag(repo, tag);
    assert(b.holds().blobs =~= a.holds().blobs);
    assert(b.holds().manifests =~= a.holds().manifests);
    assert(b.holds().tags =~= a.holds().tags.insert((repo, tag), d));
    assert(b.holds().uploads =~= a.holds().uploads);
}

proof fn lemma_drop_tag(a: Tree, repo: Seq<char>, tag: Seq<char>)
    requires
        a.tidy(),
        ordinary_repo(repo),
        ordinary_tag(tag),
    ensures
        without_file(a, fs::tag_file(repo, tag)).tidy(),
        without_file(a, fs::tag_file(repo, tag)).holds() == (Holdings {
            tags: a.holds().tags.remove((repo, tag)),
            ..a.holds()
        }),
{
    let p = fs::tag_file(repo, tag);
    let b = without_file(a, p);
    lemma_kinds();
    lemma_own_tag(repo, tag);
    assert(b.holds().blobs =~= a.holds().blobs);
    assert(b.holds().manifests =~= a.holds().manifests);
    assert(b.holds().tags =~= a.holds().tags.remove((repo, tag)));
    assert(b.holds().uploads =~= a.holds().uploads);
}

proof fn lemma_same_files(a: Tree, b: Tree)
    requires
        a.tidy(),
        b.files == a.files,
        b.rooted(),
    ensures
        b.tidy(),
        b.holds() == a.holds(),
{
    assert(b.holds().blobs =~= a.holds().blobs);
    assert(b.holds().manifests =~= a.holds().manifests);
    assert(b.holds().tags =~= a.holds().tags);
    assert(b.holds().uploads =~= a.holds().uploads);
}

// ---- Calls ----------------------------------------------------------------

/// The call names repositories, tags and digests as they should be.
pub open spec fn ordinary_reference(reference: ReferenceView) -> bool {
    match reference {
        ReferenceView::Tag(t) => ordinary_tag(t),
        ReferenceView::Digest(d) => d.wf(),
    }
}

pub open spec fn ordinary_call(c: Call) -> bool {
    match c {
        Call::BlobExists { digest, .. } => digest.wf(),
        Call::BlobSize { digest, .. } => digest.wf(),
        Call::BlobRead { digest, .. } => digest.wf(),
        Call::BlobDelete { digest, .. } => digest.wf(),
        Call::ManifestGet { repo, reference, .. } => ordinary_repo(repo) && ordinary_reference(
            reference,
        ),
        Call::ManifestPut { repo, reference, .. } => ordinary_repo(repo) && ordinary_reference(
            reference,
        ),
        Call::ManifestDelete { repo, reference, .. } => ordinary_repo(repo) && ordinary_reference(
            reference,
        ),
        Call::ListTags { repo, .. } => ordinary_repo(repo),
        Call::ListManifestDigests { repo, .. } => ordinary_repo(repo),
        _ => true,
    }
}

/// The id of a new upload is that of no other.
pub open spec fn fresh_upload(t: Tree, c: Call) -> bool {
    match c {
        Call::UploadCreate { reply: Ok(s), .. } => !t.files.contains_key(fs::upload_file(s.id)),
        _ => true,
    }
}

proof fn lemma_blob_calls(read: Reading, ts: Seq<Tree>, c: Call, ops: Seq<FileOp>)
    requires
        ts.len() > 0,
        ts[0].tidy(),
        files_work(read, ts, ops),
        fs::carried_out(c, ops),
        ordinary_call(c),
        fresh_upload(ts[0], c),
        match c {
            Call::BlobExists { .. } | Call::BlobSize { .. } | Call::BlobRead { .. }
            | Call::BlobWrite { .. } | Call::BlobDelete { .. } | Call::UploadCreate { .. }
            | Call::UploadState { .. } | Call::UploadAppend { .. } | Call::UploadCancel { .. } => true,
            _ => false,
        },
    ensures
        ts.last().tidy(),
        model::step(read, ts[0].holds(), c, ts.last().holds()),
{
    let a = ts[0];
    let b = ts.last();
    if ops.len() == 1 {
        assert(tree_step(read, ts[0], ops[0], ts[1]));
    }
    match c {
        Call::BlobWrite { digest, content, .. } => {
            if digest::content_digest(digest.algorithm, content) == digest {
                lemma_put_blob(a, digest, content, b);
            }
        },
        Call::BlobDelete { digest, .. } => {
            lemma_drop_blob(a, digest);
        },
        Call::UploadCreate { reply, .. } => {
            lemma_put_upload(a, reply->Ok_0.id, Seq::empty(), b);
        },
        Call::UploadAppend { id, chunk, .. } => {
            if a.files.contains_key(fs::upload_file(id)) {
                lemma_put_upload(a, id, a.files[fs::upload_file(id)] + chunk, b);
            }
        },
        Call::UploadCancel { id, .. } => {
            lemma_drop_upload(a, id);
        },
        _ => {},
    }
}

proof fn lemma_finalize(
    read: Reading,
    ts: Seq<Tree>,
    id: u128,
    d: DigestView,
    ops: Seq<FileOp>,
    reply: Result<(), StorageError>,
)
    requires
        ts.len() > 0,
        ts[0].tidy(),
        files_work(read, ts, ops),
        fs::finalized(id, d, ops, reply),
    ensures
        ts.last().tidy(),
        ({
            let a = ts[0].holds();
            let b = ts.last().holds();
            if !a.uploads.contains_key(id) {
                model::absent(reply) && b == a
            } else if digest::content_digest(d.algorithm, a.uploads[id]) == d {
                reply is Ok && b == (Holdings {
                    blobs: a.blobs.insert(d, a.uploads[id]),
                    uploads: a.uploads.remove(id),
                    ..a
                })
            } else {
                model::mismatched(reply) && b == a
            }
        }),
{
    let a = ts[0];
    let up = fs::upload_file(id);
    assert(tree_step(read, ts[0], ops[0], ts[1]));
    if a.files.contains_key(up) {
        let content = a.files[up];
        if digest::content_digest(d.algorithm, content) == d {
            assert(tree_step(read, ts[1], ops[1], ts[2]));
            assert(tree_step(read, ts[2], ops[2], ts[3]));
            lemma_same_files(ts[1], ts[2]);
            if ops[2]->Rename_reply is Ok {
                lemma_drop_upload(ts[2], id);
                lemma_put_blob(without_file(ts[2], up), d, content, ts[3]);
            } else {
                assert(tree_step(read, ts[3], ops[3], ts[4]));
                assert(tree_step(read, ts[4], ops[4], ts[5]));
                lemma_put_blob(ts[3], d, content, ts[4]);
                lemma_kinds();
                assert(ts[4].files.contains_key(up));
                lemma_drop_upload(ts[4], id);
            }
        }
    }
}

/// The text of a digest is read back from a tag's file.
proof fn lemma_pointer(d: DigestView)
    requires
        d.wf(),
    ensures
        pointed(vstd::utf8::encode_utf8(d.text())) == Some(d),
{
    let s = d.text();
    vstd::utf8::encode_utf8_valid_utf8(s);
    vstd::utf8::encode_utf8_decode_utf8(s);
    reveal_strlit("sha256");
    reveal_strlit("sha512");
    assert(s[0] == d.algorithm.spec_name()[0]);
    assert(s[0] == 's');
    assert(text::trim_start(s) == s);
    assert(s.last() == d.hex.last());
    assert(digest::is_hex(d.hex[d.hex.len() - 1]));
    assert(text::trim_end(s) == s);
    digest::digest_round_trip(d);
}

proof fn lemma_read_manifest(
    read: Reading,
    ts: Seq<Tree>,
    path: Seq<char>,
    ops: Seq<FileOp>,
    reply: Result<(Seq<u8>, Option<crate::manifest::Manifest>), StorageError>,
)
    requires
        files_work(read, ts, ops),
        fs::manifest_read(path, ops, reply),
    ensures
        ts.last() == ts[0],
        if ts[0].files.contains_key(path) {
            reply == Ok::<_, StorageError>((ts[0].files[path], read(ts[0].files[path])))
        } else {
            model::absent(reply)
        },
{
    assert(tree_step(read, ts[0], ops[0], ts[1]));
    if ops.len() == 2 {
        assert(tree_step(read, ts[1], ops[1], ts[2]));
    }
}

proof fn lemma_manifest_calls(read: Reading, ts: Seq<Tree>, c: Call, ops: Seq<FileOp>)
    requires
        ts.len() > 0,
        ts[0].tidy(),
        files_work(read, ts, ops),
        fs::carried_out(c, ops),
        ordinary_call(c),
        c is ManifestGet || c is ManifestPut || c is ManifestDelete,
    ensures
        ts.last().tidy(),
        model::step(read, ts[0].holds(), c, ts.last().holds()),
{
    let a = ts[0];
    let b = ts.last();
    assert(tree_step(read, ts[0], ops[0], ts[1]));
    match c {
        Call::ManifestGet { repo, reference, reply } => match reference {
            ReferenceView::Digest(d) => {
                lemma_read_manifest(read, ts, fs::digest_file(repo, d), ops, reply);
            },
            ReferenceView::Tag(t) => {
                let p = fs::tag_file(repo, t);
                if a.files.contains_key(p) {
                    let d = pointed(a.files[p])->Some_0;
                    assert(pointed(a.files[p]) is Some);
                    let us = ts.skip(1);
                    let rest = ops.skip(1);
                    assert forall|i: int| 0 <= i < rest.len() implies tree_step(
                        read,
                        us[i],
                        #[trigger] rest[i],
                        us[i + 1],
                    ) by {
                        assert(rest[i] == ops[i + 1]);
                        assert(tree_step(read, ts[i + 1], ops[i + 1], ts[i + 1 + 1]));
                    }
                    lemma_read_manifest(read, us, fs::digest_file(repo, d), rest, reply);
                    digest::digest_text_is_canonical(
                        text::trim(vstd::utf8::decode_utf8(a.files[p])),
                    );
                    assert(d.wf());
                    assert(a.holds().tags.contains_key((repo, t)));
                    assert(a.holds().tags[(repo, t)] == d);
                    assert(us[0] == a);
                    assert(us.last() == b);
                }
            },
        },
        Call::ManifestPut { repo, reference, content, reply } => {
            let d = model::named(content);
            lemma_put_manifest(a, repo, d, content, ts[1]);
            if let ReferenceView::Tag(t) = reference {
                assert(tree_step(read, ts[1], ops[1], ts[2]));
                lemma_pointer(d);
                lemma_put_tag(ts[1], repo, t, d, vstd::utf8::encode_utf8(d.text()), ts[2]);
            }
        },
        Call::ManifestDelete { repo, reference, reply } => match reference {
            ReferenceView::Digest(d) => {
                lemma_drop_manifest(a, repo, d);
            },
            ReferenceView::Tag(t) => {
                lemma_drop_tag(a, repo, t);
            },
        },
        _ => {},
    }
}

proof fn lemma_list_in_repo(read: Reading, ts: Seq<Tree>, c: Call, ops: Seq<FileOp>)
    requires
        ts.len() > 0,
        ts[0].tidy(),
        files_work(read, ts, ops),
        fs::carried_out(c, ops),
        ordinary_call(c),
        c is ListTags || c is ListManifestDigests,
    ensures
        ts.last().tidy(),
        model::step(read, ts[0].holds(), c, ts.last().holds()),
{
    let a = ts[0];
    assert(tree_step(read, ts[0], ops[0], ts[1]));
    match c {
        Call::ListTags { repo, reply } => {
            assert forall|t: Seq<char>| #[trigger]
                reply->Ok_0.contains(t) <==> a.holds().tags.contains_key((repo, t)) by {
                if a.files.contains_key(fs::tag_file(repo, t)) {
                    assert(a.dirs.contains(fs::tags_dir(repo)));
                }
            }
        },
        Call::ListManifestDigests { repo, reply } => {
            let dir = fs::digests_dir(repo);
            assert forall|d: DigestView| #[trigger]
                reply->Ok_0.contains(d) <==> a.holds().manifests.contains_key((repo, d)) by {
                if a.holds().manifests.contains_key((repo, d)) {
                    assert(a.dirs.contains(dir));
                    let names = ops[0]->FilesIn_reply->Ok_0;
                    lemma_digest_name(d);
                    assert(names.contains(d.text()));
                    let k = choose|k: int| 0 <= k < names.len() && names[k] == d.text();
                    digest::digest_round_trip(d);
                    assert(Seq::<char>::empty() + names[k] =~= names[k]);
                    assert(fs::names_digest(Seq::empty(), names[k], d));
                }
                if reply->Ok_0.contains(d) {
                    let names = ops[0]->FilesIn_reply->Ok_0;
                    let k = choose|k: int|
                        0 <= k < names.len() && fs::names_digest(
                            Seq::empty(),
                            #[trigger] names[k],
                            d,
                        );
                    assert(Seq::<char>::empty() + names[k] =~= names[k]);
                    digest::digest_text_is_canonical(names[k]);
                    assert(names.contains(names[k]));
                }
            }
        },
        _ => {},
    }
}

/// While nothing changes, the tree stays what it is.
proof fn lemma_listing(read: Reading, ts: Seq<Tree>, ops: Seq<FileOp>, n: int)
    requires
        files_work(read, ts, ops),
        0 <= n <= ops.len(),
        forall|i: int|
            0 <= i < n ==> (#[trigger] ops[i]) is DirsIn || ops[i] is FilesIn,
    ensures
        forall|i: int| 0 <= i <= n ==> #[trigger] ts[i] == ts[0],
    decreases n,
{
    if n > 0 {
        lemma_listing(read, ts, ops, n - 1);
        assert(tree_step(read, ts[n - 1], ops[n - 1], ts[n - 1 + 1]));
    }
}

/// Looking at the shelves of an algorithm finds its blobs.
proof fn lemma_shelves(a: Tree, read: Reading, alg: Algorithm, prefix: Seq<char>, ops: Seq<FileOp>)
    requires
        a.tidy(),
        fs::looked_below(fs::blob_dir(alg), ops),
        prefix == alg.spec_name() + seq![':'],
        forall|i: int| 0 <= i < ops.len() ==> tree_step(read, a, #[trigger] ops[i], a),
    ensures
        fs::stopped(ops) is None,
        forall|d: DigestView| #[trigger]
            fs::listed_as(prefix, ops, d) <==> d.algorithm == alg && a.holds().blobs.contains_key(
                d,
            ),
{
    lemma_names();
    let dir = fs::blob_dir(alg);
    let dirs = fs::dirs_told(ops[0]);
    assert(tree_step(read, a, ops[0], a));
    assert forall|i: int| 1 <= i < ops.len() implies a.dirs.contains(fs::below(dir, dirs[i - 1]))
        && plain(dirs[i - 1]) && (#[trigger] ops[i])->FilesIn_reply is Ok by {
        assert(dirs.contains(dirs[i - 1]));
        assert(tree_step(read, a, ops[i], a));
    }
    assert(fs::stopped(ops) is None) by {
        if ops.len() > 1 {
            assert(ops[ops.len() - 1]->FilesIn_reply is Ok);
        }
    }
    assert forall|d: DigestView| #[trigger] fs::listed_as(prefix, ops, d) <==> d.algorithm == alg
        && a.holds().blobs.contains_key(d) by {
        if fs::listed_as(prefix, ops, d) {
            let i = choose|i: int|
                0 <= i < ops.len() && fs::some_names(prefix, fs::files_told(#[trigger] ops[i]), d);
            let names = fs::files_told(ops[i]);
            let k = choose|k: int|
                0 <= k < names.len() && fs::names_digest(prefix, #[trigger] names[k], d);
            assert(i > 0);
            assert(ops[i]->FilesIn_reply is Ok);
            assert(tree_step(read, a, ops[i], a));
            assert(names.contains(names[k]));
            let shelf = fs::below(dir, dirs[i - 1]);
            let p = fs::below(shelf, names[k]);
            assert(a.files.contains_key(p));
            lemma_shelved(a, alg, dirs[i - 1], names[k]);
            let e = DigestView { algorithm: alg, hex: names[k] };
            assert(prefix + names[k] =~= e.text());
            digest::digest_round_trip(e);
        }
        if d.algorithm == alg && a.holds().blobs.contains_key(d) {
            lemma_digest_name(d);
            let shelf = fs::shelf(d);
            assert(a.dirs.contains(shelf));
            assert(a.dirs.contains(dir));
            assert(dirs.contains(d.hex.take(2)));
            let j = choose|j: int| 0 <= j < dirs.len() && dirs[j] == d.hex.take(2);
            let op = ops[j + 1];
            assert(op->FilesIn_reply is Ok);
            assert(tree_step(read, a, ops[j + 1], a));
            let names = fs::files_told(op);
            assert(names.contains(d.hex));
            let k = choose|k: int| 0 <= k < names.len() && names[k] == d.hex;
            assert(prefix + d.hex =~= d.text());
            digest::digest_round_trip(d);
            assert(fs::names_digest(prefix, names[k], d));
            assert(fs::some_names(prefix, fs::files_told(ops[j + 1]), d));
        }
    }
}

/// A file on a shelf is the blob that its name says.
proof fn lemma_shelved(a: Tree, alg: Algorithm, dir: Seq<char>, name: Seq<char>)
    requires
        a.tidy(),
        plain(dir),
        plain(name),
        a.files.contains_key(fs::below(fs::below(fs::blob_dir(alg), dir), name)),
    ensures
        ({
            let d = DigestView { algorithm: alg, hex: name };
            d.wf() && a.holds().blobs.contains_key(d)
        }),
{
    let p = fs::below(fs::below(fs::blob_dir(alg), dir), name);
    lemma_names();
    lemma_kinds();
    assert(p[0] == "blobs"@[0]);
    assert(of_store(p));
    let d = choose|d: DigestView| #[trigger] is_blob(p, d);
    assert(is_blob(p, d)) by {
        if exists|repo: Seq<char>, e: DigestView| #[trigger] is_manifest(p, repo, e) {
            let (repo, e) = choose|repo: Seq<char>, e: DigestView| #[trigger]
                is_manifest(p, repo, e);
            assert(fs::digest_file(repo, e)[0] == 'm');
        }
        if exists|repo: Seq<char>, tag: Seq<char>| #[trigger] is_tag(p, repo, tag) {
            let (repo, tag) = choose|repo: Seq<char>, tag: Seq<char>| #[trigger]
                is_tag(p, repo, tag);
            assert(fs::tag_file(repo, tag)[0] == 'm');
        }
        if exists|id: u128| #[trigger] is_upload(p, id) {
            let id = choose|id: u128| #[trigger] is_upload(p, id);
            assert(fs::upload_file(id)[0] == 'u');
        }
    }
    lemma_digest_name(d);
    lemma_below(fs::below(fs::blob_dir(alg), dir), name, fs::shelf(d), d.hex);
    lemma_below(fs::blob_dir(alg), dir, fs::blob_dir(d.algorithm), d.hex.take(2));
    lemma_below("blobs"@, alg.spec_name(), "blobs"@, d.algorithm.spec_name());
    assert(d == DigestView { algorithm: alg, hex: name });
}

proof fn lemma_list_blobs(
    read: Reading,
    ts: Seq<Tree>,
    ops: Seq<FileOp>,
    reply: Result<Seq<DigestView>, StorageError>,
)
    requires
        ts.len() > 0,
        ts[0].tidy(),
        files_work(read, ts, ops),
        fs::carried_out(Call::ListAllBlobs { reply }, ops),
    ensures
        ts.last() == ts[0],
        model::step(read, ts[0].holds(), Call::ListAllBlobs { reply }, ts[0].holds()),
{
    let a = ts[0];
    let k = choose|k: int| #[trigger] fs::blobs_listed(ops, k, reply);
    let x = ops.take(k);
    let y = ops.skip(k);
    assert forall|i: int| 0 <= i < k implies (#[trigger] ops[i]) is DirsIn || ops[i] is FilesIn by {
        assert(ops[i] == x[i]);
    }
    lemma_listing(read, ts, ops, k);
    assert forall|i: int| 0 <= i < x.len() implies tree_step(read, a, #[trigger] x[i], a) by {
        assert(x[i] == ops[i]);
        assert(tree_step(read, ts[i], ops[i], ts[i + 1]));
    }
    assert("sha256:"@ == Algorithm::Sha256.spec_name() + seq![':']) by {
        reveal_strlit("sha256:");
        reveal_strlit("sha256");
        assert("sha256:"@ =~= Algorithm::Sha256.spec_name() + seq![':']);
    }
    assert("sha512:"@ == Algorithm::Sha512.spec_name() + seq![':']) by {
        reveal_strlit("sha512:");
        reveal_strlit("sha512");
        assert("sha512:"@ =~= Algorithm::Sha512.spec_name() + seq![':']);
    }
    lemma_shelves(a, read, Algorithm::Sha256, "sha256:"@, x);
    assert forall|i: int| 0 <= i < ops.len() implies (#[trigger] ops[i]) is DirsIn
        || ops[i] is FilesIn by {
        if i >= k {
            assert(ops[i] == y[i - k]);
        }
    }
    lemma_listing(read, ts, ops, ops.len() as int);
    assert forall|i: int| 0 <= i < y.len() implies tree_step(read, a, #[trigger] y[i], a) by {
        assert(y[i] == ops[k + i]);
        assert(tree_step(read, ts[k + i], ops[k + i], ts[k + i + 1]));
    }
    lemma_shelves(a, read, Algorithm::Sha512, "sha512:"@, y);
}

proof fn lemma_child_dir(repo: Seq<char>, part: Seq<char>)
    requires
        part.len() > 0,
    ensures
        fs::repo_dir(fs::child(repo, part)) == fs::below(fs::repo_dir(repo), part),
{
    if repo.len() > 0 {
        assert(fs::below("manifests"@, fs::below(repo, part)) =~= fs::below(
            fs::below("manifests"@, repo),
            part,
        ));
    }
}

/// The directories above a repository's are there with it.
proof fn lemma_dirs_above(a: Tree, parts: Seq<Seq<char>>, k: int)
    requires
        a.rooted(),
        forall|i: int| 0 <= i < parts.len() ==> ordinary_part(#[trigger] parts[i]),
        a.dirs.contains(fs::repo_dir(joined(parts))),
        0 <= k <= parts.len(),
    ensures
        a.dirs.contains(fs::repo_dir(joined(parts.take(k)))),
    decreases parts.len() - k,
{
    if k == parts.len() {
        assert(parts.take(k) =~= parts);
    } else {
        lemma_dirs_above(a, parts, k + 1);
        let t = parts.take(k + 1);
        assert(t.drop_last() =~= parts.take(k));
        assert(t.last() == parts[k]);
        assert(ordinary_part(parts[k]));
        lemma_child_dir(joined(parts.take(k)), parts[k]);
    }
}

/// Whatever was visited was answered by the tree.
spec fn visits_answered(a: Tree, read: Reading, visits: Seq<fs::Visit>) -> bool {
    forall|i: int, k: int|
        0 <= i < visits.len() && 0 <= k < visits[i].ops.len() ==> tree_step(
            read,
            a,
            #[trigger] visits[i].ops[k],
            a,
        )
}

proof fn lemma_all_ops(visits: Seq<fs::Visit>, op: FileOp)
    requires
        forall|i: int| 0 <= i < visits.len() ==> (#[trigger] visits[i]).right(),
    ensures
        fs::all_ops(visits).contains(op) <==> exists|i: int, k: int|
            0 <= i < visits.len() && 0 <= k < visits[i].ops.len() && #[trigger] visits[i].ops[k]
                == op,
        fs::all_ops(visits).len() >= visits.len(),
    decreases visits.len(),
{
    if visits.len() > 0 {
        let init = visits.drop_last();
        let last = visits.last();
        let x = fs::all_ops(init);
        let all = fs::all_ops(visits);
        assert forall|i: int| 0 <= i < init.len() implies (#[trigger] init[i]).right() by {
            assert(init[i] == visits[i]);
        }
        lemma_all_ops(init, op);
        assert(visits[visits.len() - 1].right());
        if all.contains(op) {
            let j = choose|j: int| 0 <= j < all.len() && all[j] == op;
            if j < x.len() {
                assert(x[j] == op);
                let (i, k) = choose|i: int, k: int|
                    0 <= i < init.len() && 0 <= k < init[i].ops.len() && #[trigger] init[i].ops[k]
                        == op;
                assert(visits[i].ops[k] == op);
            } else {
                assert(visits[visits.len() - 1].ops[j - x.len()] == op);
            }
        }
        if exists|i: int, k: int|
            0 <= i < visits.len() && 0 <= k < visits[i].ops.len() && #[trigger] visits[i].ops[k]
                == op {
            let (i, k) = choose|i: int, k: int|
                0 <= i < visits.len() && 0 <= k < visits[i].ops.len() && #[trigger] visits[i].ops[k]
                    == op;
            if i < init.len() {
                assert(init[i].ops[k] == op);
                let j = choose|j: int| 0 <= j < x.len() && x[j] == op;
                assert(all[j] == op);
            } else {
                assert(all[x.len() + k] == op);
            }
        }
    }
}

/// The walk comes to a repository whose directory is there.
proof fn lemma_walk_comes(
    a: Tree,
    read: Reading,
    visits: Seq<fs::Visit>,
    parts: Seq<Seq<char>>,
    k: int,
)
    requires
        a.rooted(),
        forall|i: int| 0 <= i < parts.len() ==> ordinary_part(#[trigger] parts[i]),
        a.dirs.contains(fs::repo_dir(joined(parts))),
        0 <= k <= parts.len(),
        visits.len() > 0,
        fs::walked(visits),
        fs::all_walked(visits),
        visits_answered(a, read, visits),
    ensures
        fs::was_visited(visits, joined(parts.take(k))),
    decreases k,
{
    if k == 0 {
        assert(fs::follows(visits, 0));
        assert(joined(parts.take(0)) =~= visits[0].repo);
    } else {
        lemma_walk_comes(a, read, visits, parts, k - 1);
        let x = joined(parts.take(k - 1));
        let part = parts[k - 1];
        let t = parts.take(k);
        assert(t.drop_last() =~= parts.take(k - 1));
        assert(t.last() == part);
        assert(ordinary_part(part));
        let i = choose|i: int| 0 <= i < visits.len() && (#[trigger] visits[i]).repo == x;
        lemma_dirs_above(a, parts, k - 1);
        lemma_dirs_above(a, parts, k);
        lemma_child_dir(x, part);
        assert(visits[i].right());
        assert(tree_step(read, a, visits[i].ops[0], a));
        assert(visits[i].dirs().contains(part));
        assert(fs::leads(visits, i, part, joined(t)));
    }
}

proof fn lemma_list_repos(
    read: Reading,
    ts: Seq<Tree>,
    ops: Seq<FileOp>,
    reply: Result<Seq<Seq<char>>, StorageError>,
)
    requires
        ts.len() > 0,
        ts[0].tidy(),
        files_work(read, ts, ops),
        fs::carried_out(Call::ListRepos { reply }, ops),
        ops.len() < u64::MAX,
    ensures
        ts.last() == ts[0],
        model::step(read, ts[0].holds(), Call::ListRepos { reply }, ts[0].holds()),
{
    let a = ts[0];
    let visits = choose|visits: Seq<fs::Visit>| #[trigger] fs::repos_listed(ops, visits, reply);
    assert forall|i: int| 0 <= i < ops.len() implies (#[trigger] ops[i]) is DirsIn
        || ops[i] is FilesIn by {
        lemma_all_ops(visits, ops[i]);
        assert(ops.contains(ops[i]));
        let (j, k) = choose|j: int, k: int|
            0 <= j < visits.len() && 0 <= k < visits[j].ops.len() && #[trigger] visits[j].ops[k]
                == ops[i];
        assert(visits[j].right());
    }
    lemma_listing(read, ts, ops, ops.len() as int);
    assert(visits_answered(a, read, visits)) by {
        assert forall|i: int, k: int|
            0 <= i < visits.len() && 0 <= k < visits[i].ops.len() implies tree_step(
            read,
            a,
            #[trigger] visits[i].ops[k],
            a,
        ) by {
            lemma_all_ops(visits, visits[i].ops[k]);
            let j = choose|j: int| 0 <= j < ops.len() && ops[j] == visits[i].ops[k];
            assert(tree_step(read, ts[j], ops[j], ts[j + 1]));
        }
    }
    lemma_all_ops(visits, ops[0]);
    let last = visits[visits.len() - 1];
    assert(fs::refused(last.ops.last()) is None) by {
        assert(last.right());
        assert(tree_step(read, a, visits[visits.len() - 1].ops[last.ops.len() - 1], a));
    }
    assert forall|r: Seq<char>| #[trigger] reply->Ok_0.contains(r) <==> a.holds().knows(r) by {
        if a.holds().knows(r) {
            lemma_known_listed(a, read, visits, r);
        }
        if reply->Ok_0.contains(r) {
            lemma_listed_known(a, read, visits, r);
        }
    }
}

/// A repository with a manifest is visited, and the manifest is seen.
proof fn lemma_known_listed(a: Tree, read: Reading, visits: Seq<fs::Visit>, r: Seq<char>)
    requires
        a.tidy(),
        a.holds().knows(r),
        visits.len() > 0,
        fs::walked(visits),
        fs::all_walked(visits),
        visits_answered(a, read, visits),
    ensures
        fs::is_among(visits, r),
{
    lemma_names();
    let d = choose|d: DigestView| #[trigger] a.holds().manifests.contains_key((r, d));
    let dir = fs::digests_dir(r);
    assert(a.files.contains_key(fs::below(dir, d.text())));
    assert(a.dirs.contains(fs::below(fs::repo_dir(r), "digests"@)));
    let parts = choose|parts: Seq<Seq<char>>| #[trigger] ordinary_parts(r, parts);
    lemma_walk_comes(a, read, visits, parts, parts.len() as int);
    assert(parts.take(parts.len() as int) =~= parts);
    let i = choose|i: int| 0 <= i < visits.len() && (#[trigger] visits[i]).repo == r;
    let v = visits[i];
    lemma_repo(r);
    assert(v.right());
    assert(tree_step(read, a, visits[i].ops[0], a));
    assert(v.dirs().contains("digests"@));
    assert(tree_step(read, a, visits[i].ops[1], a));
    let names = fs::files_told(v.ops[1]);
    lemma_digest_name(d);
    assert(names.contains(d.text()));
    let k = choose|k: int| 0 <= k < names.len() && names[k] == d.text();
    digest::digest_round_trip(d);
    assert(Seq::<char>::empty() + names[k] =~= names[k]);
    assert(fs::names_digest(Seq::empty(), names[k], d));
    assert(fs::some_names(Seq::empty(), names, d));
    assert(v.holds_manifest());
}

/// A repository that is listed has a manifest.
proof fn lemma_listed_known(a: Tree, read: Reading, visits: Seq<fs::Visit>, r: Seq<char>)
    requires
        a.tidy(),
        fs::walked(visits),
        visits_answered(a, read, visits),
        fs::is_among(visits, r),
    ensures
        a.holds().knows(r),
{
    let i = choose|i: int|
        0 <= i < visits.len() && (#[trigger] visits[i]).holds_manifest() && r == fs::shown(
            visits[i].repo,
        );
    let v = visits[i];
    assert(v.right());
    assert(tree_step(read, a, visits[i].ops[1], a));
    let names = fs::files_told(v.ops[1]);
    let d = choose|d: DigestView| #[trigger] fs::some_names(Seq::empty(), names, d);
    let k = choose|k: int|
        0 <= k < names.len() && fs::names_digest(Seq::empty(), #[trigger] names[k], d);
    assert(Seq::<char>::empty() + names[k] =~= names[k]);
    digest::digest_text_is_canonical(names[k]);
    assert(names.contains(names[k]));
    let p = fs::digest_file(v.repo, d);
    assert(a.files.contains_key(p));
    lemma_kinds();
    assert(p[0] == 'm');
    assert(of_store(p));
    if exists|repo: Seq<char>, tag: Seq<char>| #[trigger] is_tag(p, repo, tag) {
        let (repo, tag) = choose|repo: Seq<char>, tag: Seq<char>| #[trigger] is_tag(p, repo, tag);
        lemma_tag_is_no_manifest(repo, tag, v.repo, d);
    }
    if exists|e: DigestView| #[trigger] is_blob(p, e) {
        let e = choose|e: DigestView| #[trigger] is_blob(p, e);
        assert(fs::blob_file(e)[0] == 'b');
    }
    if exists|id: u128| #[trigger] is_upload(p, id) {
        let id = choose|id: u128| #[trigger] is_upload(p, id);
        assert(fs::upload_file(id)[0] == 'u');
    }
    let (repo, e) = choose|repo: Seq<char>, e: DigestView| #[trigger] is_manifest(p, repo, e);
    lemma_repo(repo);
    lemma_manifest_files(v.repo, d, repo, e);
    assert(a.holds().manifests.contains_key((r, d)));
}

// ---- The law --------------------------------------------------------------

/// On a file system that works a store in a directory tree answers as a store that works
/// does, and leaves a tree in which there is nothing but what a store keeps. Left out
/// are a tag that ends in `.tmp`, which the layout cannot tell from its own files, and a
/// new upload under an id that is in use.
pub proof fn files_make_a_store(read: Reading, ts: Seq<Tree>, c: Call, ops: Seq<FileOp>)
    requires
        ts.len() > 0,
        ts[0].tidy(),
        files_work(read, ts, ops),
        fs::carried_out(c, ops),
        ordinary_call(c),
        fresh_upload(ts[0], c),
        ops.len() < u64::MAX,
    ensures
        ts.last().tidy(),
        model::step(read, ts[0].holds(), c, ts.last().holds()),
{
    match c {
        Call::UploadFinalize { id, digest, reply, .. } => {
            lemma_finalize(read, ts, id, digest, ops, reply);
        },
        Call::ManifestGet { .. } | Call::ManifestPut { .. } | Call::ManifestDelete { .. } => {
            lemma_manifest_calls(read, ts, c, ops);
        },
        Call::ListTags { .. } | Call::ListManifestDigests { .. } => {
            lemma_list_in_repo(read, ts, c, ops);
        },
        Call::ListRepos { reply } => {
            lemma_list_repos(read, ts, ops, reply);
        },
        Call::ListAllBlobs { reply } => {
            lemma_list_blobs(read, ts, ops, reply);
        },
        _ => {
            lemma_blob_calls(read, ts, c, ops);
        },
    }
}

/// The store ran on a file system that works: `runs` has what the files are during each
/// of its calls.
pub open spec fn ran_on_files<F: RecordedFiles>(
    read: Reading,
    store: fs::FsStorage<F>,
    runs: Seq<Seq<Tree>>,
) -> bool {
    &&& store.kept()
    &&& runs.len() == store.calls@.len() + 1
    &&& runs[0].len() > 0
    &&& runs[0][0].tidy()
    &&& forall|i: int|
        0 <= i < store.calls@.len() ==> {
            &&& files_work(read, #[trigger] runs[i], store.deeds@[i])
            &&& runs[i + 1].len() > 0
            &&& runs[i + 1][0] == runs[i].last()
            &&& ordinary_call(store.calls@[i])
            &&& fresh_upload(runs[i][0], store.calls@[i])
            &&& store.deeds@[i].len() < u64::MAX
        }
}

/// A store in a directory tree works as long as the file system does.
pub proof fn store_works_while_files_do<F: RecordedFiles>(
    read: Reading,
    store: fs::FsStorage<F>,
    runs: Seq<Seq<Tree>>,
)
    requires
        ran_on_files(read, store, runs),
    ensures
        model::works(
            read,
            Seq::new(runs.len(), |i: int| runs[i][0].holds()),
            store.calls@,
        ),
{
    let hs = Seq::new(runs.len(), |i: int| runs[i][0].holds());
    lemma_runs_tidy(read, store, runs, store.calls@.len() as int);
    assert forall|i: int| 0 <= i < store.calls@.len() implies model::step(
        read,
        hs[i],
        #[trigger] store.calls@[i],
        hs[i + 1],
    ) by {
        assert(files_work(read, runs[i], store.deeds@[i]));
        assert(runs[i][0].tidy());
        files_make_a_store(read, runs[i], store.calls@[i], store.deeds@[i]);
    }
}

proof fn lemma_runs_tidy<F: RecordedFiles>(read: Reading, store: fs::FsStorage<F>, runs: Seq<Seq<Tree>>, n: int)
    requires
        ran_on_files(read, store, runs),
        0 <= n <= store.calls@.len(),
    ensures
        forall|i: int| 0 <= i <= n ==> (#[trigger] runs[i]).len() > 0 && runs[i][0].tidy(),
    decreases n,
{
    if n > 0 {
        lemma_runs_tidy(read, store, runs, n - 1);
        let i = n - 1;
        assert(files_work(read, runs[i], store.deeds@[i]));
        assert(fs::carried_out(store.calls@[i], store.deeds@[i]));
        files_make_a_store(read, runs[i], store.calls@[i], store.deeds@[i]);
        assert(runs[i + 1][0] == runs[i].last());
    }
}

/// The manifest that was put is the one that is got, by the tag that it was put under and
/// by its digest.
pub proof fn what_was_put_is_got<F: RecordedFiles>(
    read: Reading,
    store: fs::FsStorage<F>,
    runs: Seq<Seq<Tree>>,
    k: int,
    repo: Seq<char>,
    reference: ReferenceView,
    content: Seq<u8>,
    wanted: ReferenceView,
)
    requires
        ran_on_files(read, store, runs),
        0 <= k < store.calls@.len() - 1,
        store.calls@[k] matches Call::ManifestPut { repo: r, reference: x, content: c, .. } && r
            == repo && x == reference && c == content,
        store.calls@[k + 1] matches Call::ManifestGet { repo: r, reference: x, .. } && r == repo && x
            == wanted,
        wanted == ReferenceView::Digest(model::named(content)) || (reference is Tag && wanted
            == reference),
    ensures
        store.calls@[k]->ManifestPut_reply == Ok::<_, StorageError>(model::named(content)),
        store.calls@[k + 1]->ManifestGet_reply == Ok::<_, StorageError>((content, read(content))),
{
    store_works_while_files_do(read, store, runs);
    let hs = Seq::new(runs.len(), |i: int| runs[i][0].holds());
    let calls = store.calls@;
    assert(model::step(read, hs[k], calls[k], hs[k + 1]));
    assert(model::step(read, hs[k + 1], calls[k + 1], hs[k + 1 + 1]));
}

/// Chunks, one behind the other.
pub open spec fn all_bytes(chunks: Seq<Seq<u8>>) -> Seq<u8>
    decreases chunks.len(),
{
    if chunks.len() == 0 {
        Seq::empty()
    } else {
        all_bytes(chunks.drop_last()) + chunks.last()
    }
}

/// From `k` on the calls start an upload, append the chunks and finish it.
pub open spec fn is_upload_of(
    calls: Seq<Call>,
    k: int,
    id: u128,
    chunks: Seq<Seq<u8>>,
    d: DigestView,
) -> bool {
    let n = chunks.len();
    &&& 0 <= k
    &&& k + 1 + n < calls.len()
    &&& calls[k] matches Call::UploadCreate { reply, .. } && (reply is Ok ==> reply->Ok_0.id == id)
    &&& forall|i: int|
        0 <= i < n ==> (#[trigger] calls[k + 1 + i] matches Call::UploadAppend {
            id: x,
            chunk,
            ..
        } && x == id && chunk == chunks[i])
    &&& calls[k + 1 + n] matches Call::UploadFinalize { id: x, digest, .. } && x == id && digest == d
}

proof fn lemma_appended(
    read: Reading,
    hs: Seq<Holdings>,
    calls: Seq<Call>,
    k: int,
    id: u128,
    chunks: Seq<Seq<u8>>,
    d: DigestView,
    n: int,
)
    requires
        model::works(read, hs, calls),
        is_upload_of(calls, k, id, chunks, d),
        0 <= n <= chunks.len(),
    ensures
        hs[k + 1 + n].uploads.contains_key(id),
        hs[k + 1 + n].uploads[id] == all_bytes(chunks.take(n)),
    decreases n,
{
    if n == 0 {
        assert(model::step(read, hs[k], calls[k], hs[k + 1]));
        assert(chunks.take(0) =~= Seq::<Seq<u8>>::empty());
    } else {
        lemma_appended(read, hs, calls, k, id, chunks, d, n - 1);
        let j = k + 1 + (n - 1);
        assert(calls[k + 1 + (n - 1)] is UploadAppend);
        assert(model::step(read, hs[j], calls[j], hs[j + 1]));
        assert(chunks.take(n).drop_last() =~= chunks.take(n - 1));
        assert(chunks.take(n).last() == chunks[n - 1]);
    }
}

/// An upload that is finished under the digest of its chunks is a blob of exactly these;
/// under another digest it is refused, and the session stays with what it has.
pub proof fn finished_upload_reads_back<F: RecordedFiles>(
    read: Reading,
    store: fs::FsStorage<F>,
    runs: Seq<Seq<Tree>>,
    k: int,
    id: u128,
    chunks: Seq<Seq<u8>>,
    d: DigestView,
)
    requires
        ran_on_files(read, store, runs),
        is_upload_of(store.calls@, k, id, chunks, d),
    ensures
        ({
            let calls = store.calls@;
            let e = k + 1 + chunks.len();
            let bytes = all_bytes(chunks);
            let done = calls[e]->UploadFinalize_reply;
            let h = runs[e + 1][0].holds();
            if digest::content_digest(d.algorithm, bytes) == d {
                &&& done is Ok
                &&& h.blobs.contains_key(d) && h.blobs[d] == bytes
                &&& !h.uploads.contains_key(id)
                &&& e + 1 < calls.len() && (calls[e + 1] matches Call::BlobRead { digest, .. }
                    && digest == d) ==> calls[e + 1]->BlobRead_reply == Ok::<_, StorageError>(bytes)
            } else {
                &&& model::mismatched(done)
                &&& h.uploads.contains_key(id) && h.uploads[id] == bytes
                &&& e + 1 < calls.len() && (calls[e + 1] matches Call::UploadState { id: x, .. } && x
                    == id) ==> calls[e + 1]->UploadState_reply is Ok
                    && calls[e + 1]->UploadState_reply->Ok_0.offset == bytes.len()
            }
        }),
{
    store_works_while_files_do(read, store, runs);
    let hs = Seq::new(runs.len(), |i: int| runs[i][0].holds());
    let calls = store.calls@;
    let n = chunks.len() as int;
    let e = k + 1 + n;
    lemma_appended(read, hs, calls, k, id, chunks, d, n);
    assert(chunks.take(n) =~= chunks);
    assert(model::step(read, hs[e], calls[e], hs[e + 1]));
    if e + 1 < calls.len() {
        assert(model::step(read, hs[e + 1], calls[e + 1], hs[e + 1 + 1]));
    }
}

proof fn lemma_joined_len(parts: Seq<Seq<char>>)
    requires
        parts.len() > 0,
        forall|i: int| 0 <= i < parts.len() ==> (#[trigger] parts[i]).len() > 0,
    ensures
        joined(parts).len() > 0,
{
    assert(parts.last().len() > 0);
}

proof fn lemma_joined_front(a: Seq<char>, rest: Seq<Seq<char>>)
    requires
        a.len() > 0,
        rest.len() > 0,
        forall|i: int| 0 <= i < rest.len() ==> (#[trigger] rest[i]).len() > 0,
    ensures
        joined(seq![a] + rest) == fs::below(a, joined(rest)),
    decreases rest.len(),
{
    let all = seq![a] + rest;
    let init = rest.drop_last();
    assert(all.drop_last() =~= seq![a] + init);
    assert(all.last() == rest.last());
    if init.len() == 0 {
        assert(seq![a] + init =~= seq![a]);
        assert(seq![a].drop_last() =~= Seq::<Seq<char>>::empty());
        assert(joined(seq![a].drop_last()) =~= Seq::<char>::empty());
        assert(joined(seq![a]) == a);
        assert(joined(init) =~= Seq::<char>::empty());
        assert(joined(rest) == rest.last());
    } else {
        lemma_joined_front(a, init);
        lemma_joined_len(init);
        assert(joined(all) =~= fs::below(a, joined(rest)));
    }
}

proof fn lemma_joined_split(s: Seq<char>)
    requires
        forall|k: int|
            0 <= k < text::split(s, '/').len() ==> (#[trigger] text::split(s, '/')[k]).len() > 0,
    ensures
        joined(text::split(s, '/')) == s,
    decreases s.len(),
{
    let parts = text::split(s, '/');
    let n = text::index_of(s, '/');
    text::lemma_index_of_bounds(s, '/');
    if n < s.len() {
        let rest = text::from_pos(s, n + 1);
        let tail = text::split(rest, '/');
        assert forall|k: int| 0 <= k < tail.len() implies (#[trigger] tail[k]).len() > 0 by {
            assert(parts[k + 1] == tail[k]);
        }
        assert(parts[0].len() > 0);
        lemma_joined_split(rest);
        lemma_joined_front(s.subrange(0, n), tail);
        assert(fs::below(s.subrange(0, n), rest) =~= s);
    } else {
        assert(parts.drop_last() =~= Seq::<Seq<char>>::empty());
        assert(joined(parts.drop_last()) =~= Seq::<char>::empty());
    }
}

/// A repository name that the registry accepts is ordinary.
pub proof fn accepted_names_are_ordinary(repo: Seq<char>)
    requires
        handlers::valid_name(repo),
    ensures
        ordinary_repo(repo),
{
    handlers::valid_name_grammar(repo);
    let parts = text::split(repo, '/');
    assert forall|k: int| 0 <= k < parts.len() implies ordinary_part(#[trigger] parts[k]) by {
        let c = parts[k];
        assert forall|i: int| 0 <= i < c.len() implies c[i] != '/' && c[i] != '\\' by {
            if i > 0 {
                assert(handlers::name_part(c[i]));
            }
        }
    }
    lemma_joined_split(repo);
    assert(parts.len() > 0);
    assert(ordinary_parts(repo, parts));
}

} // verus!
