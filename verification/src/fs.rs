//! A store that keeps everything in a directory tree.
//!
//! ```text
//! <root>/
//!   blobs/<algorithm>/<first two digits>/<digits>
//!   manifests/<repo>/tags/<tag>          the digest, as text
//!   manifests/<repo>/digests/<digest>    the manifest
//!   uploads/<uuid>                       an upload in progress
//! ```
//!
//! `carried_out` says for every call on the store which operations on the files carry
//! it out, and what it answers by their answers. That every call was carried out so is
//! the invariant of the store.

use vstd::prelude::*;

use crate::digest;
use crate::digest::{Algorithm, Digest, DigestView};
use crate::files::{FileError, FileOp, RecordedFiles, Watched};
use crate::order;
use crate::order::{Key, SortedSet};
use crate::outside;
use crate::storage;
use crate::storage::{
    Call, Reference, ReferenceView, Storage, StorageError, StoredManifest, UploadStatus,
};
use crate::text;

verus! {

// ---- Places ---------------------------------------------------------------

/// The path of `name` in a directory.
pub open spec fn below(dir: Seq<char>, name: Seq<char>) -> Seq<char> {
    dir + seq!['/'] + name
}

/// The directory of an algorithm's blobs.
pub open spec fn blob_dir(a: Algorithm) -> Seq<char> {
    below("blobs"@, a.spec_name())
}

/// The directory of the blobs whose digests begin like this one.
pub open spec fn shelf(d: DigestView) -> Seq<char> {
    below(blob_dir(d.algorithm), d.hex.take(2))
}

/// The file of a blob.
pub open spec fn blob_file(d: DigestView) -> Seq<char> {
    below(shelf(d), d.hex)
}

/// The directory of a repository. The empty name stands for the tree of all.
pub open spec fn repo_dir(repo: Seq<char>) -> Seq<char> {
    if repo.len() == 0 {
        "manifests"@
    } else {
        below("manifests"@, repo)
    }
}

pub open spec fn tags_dir(repo: Seq<char>) -> Seq<char> {
    below(repo_dir(repo), "tags"@)
}

pub open spec fn digests_dir(repo: Seq<char>) -> Seq<char> {
    below(repo_dir(repo), "digests"@)
}

/// The file of a tag.
pub open spec fn tag_file(repo: Seq<char>, tag: Seq<char>) -> Seq<char> {
    below(tags_dir(repo), tag)
}

/// The file of a manifest.
pub open spec fn digest_file(repo: Seq<char>, d: DigestView) -> Seq<char> {
    below(digests_dir(repo), d.text())
}

/// The file of an upload in progress.
pub open spec fn upload_file(id: u128) -> Seq<char> {
    below("uploads"@, outside::uuid_hyphenated(id))
}

fn join(dir: &str, name: &str) -> (r: String)
    ensures
        r@ == below(dir@, name@),
{
    let mut s = dir.to_owned();
    s.push('/');
    s.append(name);
    assert(s@ =~= below(dir@, name@));
    s
}

fn blob_dir_path(a: Algorithm) -> (r: String)
    ensures
        r@ == blob_dir(a),
{
    join("blobs", alg_name(a))
}

fn shelf_path(d: &Digest) -> (r: String)
    requires
        d.hex@.len() >= 2,
    ensures
        r@ == shelf(d@),
{
    let dir = blob_dir_path(d.algorithm);
    let hex = text::chars_of(d.hex.as_str());
    let prefix = text::piece(&hex, 0, 2);
    assert(prefix@ =~= d.hex@.take(2));
    join(dir.as_str(), prefix.as_str())
}

fn blob_path(d: &Digest) -> (r: String)
    requires
        d.hex@.len() >= 2,
    ensures
        r@ == blob_file(d@),
{
    let dir = shelf_path(d);
    join(dir.as_str(), d.hex.as_str())
}

fn repo_path(repo: &str) -> (r: String)
    ensures
        r@ == repo_dir(repo@),
{
    if repo.is_empty() {
        "manifests".to_owned()
    } else {
        join("manifests", repo)
    }
}

fn tags_path(repo: &str) -> (r: String)
    ensures
        r@ == tags_dir(repo@),
{
    join(repo_path(repo).as_str(), "tags")
}

fn digests_path(repo: &str) -> (r: String)
    ensures
        r@ == digests_dir(repo@),
{
    join(repo_path(repo).as_str(), "digests")
}

fn manifest_tag_path(repo: &str, tag: &str) -> (r: String)
    ensures
        r@ == tag_file(repo@, tag@),
{
    join(tags_path(repo).as_str(), tag)
}

fn manifest_digest_path(repo: &str, d: &Digest) -> (r: String)
    ensures
        r@ == digest_file(repo@, d@),
{
    join(digests_path(repo).as_str(), d.to_string().as_str())
}

fn upload_path(id: u128) -> (r: String)
    ensures
        r@ == upload_file(id),
{
    join("uploads", outside::uuid_text(id).as_str())
}

fn alg_name(a: Algorithm) -> (r: &'static str)
    ensures
        r@ == a.spec_name(),
{
    a.name()
}

// ---- Failures -------------------------------------------------------------

/// A failure that may be that there is no such thing.
pub open spec fn found(e: FileError) -> StorageError {
    if e.missing {
        StorageError::NotFound
    } else {
        StorageError::Io(e.text)
    }
}

/// A failure of another kind.
pub open spec fn failed(e: FileError) -> StorageError {
    StorageError::Io(e.text)
}

pub open spec fn found_reply<T>(r: Result<T, FileError>) -> Result<T, StorageError> {
    match r {
        Ok(x) => Ok(x),
        Err(e) => Err(found(e)),
    }
}

pub open spec fn failed_reply<T>(r: Result<T, FileError>) -> Result<T, StorageError> {
    match r {
        Ok(x) => Ok(x),
        Err(e) => Err(failed(e)),
    }
}

fn io_to_storage(e: FileError) -> (r: StorageError)
    ensures
        r == found(e),
{
    if e.missing {
        StorageError::NotFound
    } else {
        StorageError::Io(e.text)
    }
}

/// The answer for a digest that is too short to have a place.
pub open spec fn unplaced<T>(r: Result<T, StorageError>) -> bool {
    r matches Err(StorageError::Invalid(m)) && m@ == "digest without a prefix"@
}

fn no_place() -> (r: StorageError)
    ensures
        r matches StorageError::Invalid(m) && m@ == "digest without a prefix"@,
{
    StorageError::Invalid("digest without a prefix".to_owned())
}

/// The answer that a content has another digest than it should.
pub open spec fn mismatch<T>(r: Result<T, StorageError>, expected: DigestView, got: DigestView) -> bool {
    r matches Err(StorageError::DigestMismatch { expected: x, got: y }) && x@ == expected && y@
        == got
}

// ---- Names ----------------------------------------------------------------

/// The digest that a tag file holds; white space around it is ignored.
fn tag_target(content: &str) -> (r: Result<Digest, StorageError>)
    ensures
        match digest::parsed(text::trim(content@)) {
            Ok(d) => r is Ok && r->Ok_0@ == d,
            Err(e) => r matches Err(StorageError::Internal(m)) && m@ == "bad stored tag: "@
                + e.text(),
        },
{
    let v = text::chars_of(content);
    let t = text::text_of(text::trimmed(&v).as_slice());
    match Digest::parse(t.as_str()) {
        Ok(d) => Ok(d),
        Err(e) => {
            let m = e.to_string();
            Err(StorageError::Internal(text::cat("bad stored tag: ", m.as_str())))
        },
    }
}

/// The name is left over from a write that was not finished.
pub open spec fn unfinished(name: Seq<char>) -> bool {
    text::ends_with(name, ".tmp"@)
}

fn is_unfinished(name: &str) -> (r: bool)
    ensures
        r == unfinished(name@),
{
    let v = text::chars_of(name);
    let p = text::chars_of(".tmp");
    text::has_suffix(&v, &p)
}

/// The tags among the files of a tag directory, sorted.
fn tags_among(names: &Vec<String>) -> (r: Vec<String>)
    ensures
        order::rising::<String>(order::views_of(r@)),
        forall|t: Seq<char>| #[trigger]
            order::views_of(r@).contains(t) <==> text::views(names@).contains(t) && !unfinished(t),
{
    let mut set: SortedSet<String> = SortedSet::new();
    let mut i: usize = 0;
    while i < names.len()
        invariant
            i <= names@.len(),
            set.wf(),
            forall|t: Seq<char>| #[trigger]
                set@.contains(t) <==> text::views(names@.take(i as int)).contains(t)
                    && !unfinished(t),
        decreases names@.len() - i,
    {
        proof {
            lemma_views_take(names@, i as int);
        }
        if !is_unfinished(names[i].as_str()) {
            set.insert(names[i].clone());
        }
        i = i + 1;
    }
    proof {
        assert(names@.take(i as int) =~= names@);
        assert forall|t: Seq<char>| #[trigger] order::views_of(set.items@).contains(
            t,
        ) <==> set@.contains(t) by {
        }
    }
    set.items
}

proof fn lemma_views_take(names: Seq<String>, i: int)
    requires
        0 <= i < names.len(),
    ensures
        forall|t: Seq<char>| #[trigger]
            text::views(names.take(i + 1)).contains(t) <==> text::views(names.take(i)).contains(t)
                || t == names[i]@,
{
    let a = text::views(names.take(i));
    let b = text::views(names.take(i + 1));
    assert(b =~= a.push(names[i]@));
    assert forall|t: Seq<char>| #[trigger] b.contains(t) <==> a.contains(t) || t == names[i]@ by {
        if b.contains(t) {
            let j = choose|j: int| 0 <= j < b.len() && b[j] == t;
            if j < i {
                assert(a[j] == t);
            }
        }
        if a.contains(t) {
            let j = choose|j: int| 0 <= j < a.len() && a[j] == t;
            assert(b[j] == t);
        }
        if t == names[i]@ {
            assert(b[i] == t);
        }
    }
}

/// The file `name` of a directory whose names get `prefix` in front stands for the
/// digest `d`.
pub open spec fn names_digest(prefix: Seq<char>, name: Seq<char>, d: DigestView) -> bool {
    !unfinished(name) && digest::parsed(prefix + name) == Ok::<DigestView, digest::DigestErrorView>(
        d,
    )
}

pub open spec fn some_names(prefix: Seq<char>, names: Seq<Seq<char>>, d: DigestView) -> bool {
    exists|i: int| 0 <= i < names.len() && names_digest(prefix, #[trigger] names[i], d)
}

/// The digests that the files of a directory stand for, with `prefix` put in front
/// of each name: files that are unfinished or whose name is no digest are left out.
fn digests_among(prefix: &str, names: &Vec<String>, set: &mut SortedSet<Digest>)
    requires
        old(set).wf(),
    ensures
        final(set).wf(),
        forall|d: DigestView| #[trigger]
            final(set)@.contains(d) <==> old(set)@.contains(d) || some_names(
                prefix@,
                text::views(names@),
                d,
            ),
{
    let ghost was = set@;
    let ghost all = text::views(names@);
    let mut i: usize = 0;
    while i < names.len()
        invariant
            i <= names@.len(),
            all == text::views(names@),
            set.wf(),
            forall|d: DigestView| #[trigger]
                set@.contains(d) <==> was.contains(d) || exists|j: int|
                    0 <= j < i && names_digest(prefix@, #[trigger] all[j], d),
        decreases names@.len() - i,
    {
        assert(all[i as int] == names@[i as int]@);
        let ghost before = set@;
        let ghost mut what: DigestView = arbitrary();
        if !is_unfinished(names[i].as_str()) {
            let full = text::cat(prefix, names[i].as_str());
            match Digest::parse(full.as_str()) {
                Ok(d) => {
                    proof {
                        what = d@;
                    }
                    set.insert(d);
                },
                Err(_) => {},
            }
        }
        proof {
            assert forall|d: DigestView| #[trigger] set@.contains(d) <==> was.contains(d) || exists|
                j: int,
            | 0 <= j < i + 1 && names_digest(prefix@, #[trigger] all[j], d) by {
                if set@.contains(d) && !before.contains(d) {
                    assert(names_digest(prefix@, all[i as int], d));
                }
                if exists|j: int| 0 <= j < i + 1 && names_digest(prefix@, #[trigger] all[j], d) {
                    let j = choose|j: int|
                        0 <= j < i + 1 && names_digest(prefix@, #[trigger] all[j], d);
                    if j < i {
                        assert(before.contains(d));
                    } else {
                        assert(d == what);
                    }
                }
                if before.contains(d) && !was.contains(d) {
                    let j = choose|j: int|
                        0 <= j < i && names_digest(prefix@, #[trigger] all[j], d);
                    assert(names_digest(prefix@, all[j], d));
                }
            }
        }
        i = i + 1;
    }
}

/// The manifests among the files of a digest directory, sorted.
fn manifests_among(names: &Vec<String>) -> (r: Vec<Digest>)
    ensures
        order::rising::<Digest>(order::views_of(r@)),
        forall|d: DigestView| #[trigger]
            order::views_of(r@).contains(d) <==> some_names(Seq::empty(), text::views(names@), d),
{
    let mut set: SortedSet<Digest> = SortedSet::new();
    proof {
        reveal_strlit("");
        assert(""@ =~= Seq::<char>::empty());
    }
    digests_among("", names, &mut set);
    proof {
        assert forall|d: DigestView| #[trigger] order::views_of(set.items@).contains(
            d,
        ) <==> set@.contains(d) by {
        }
    }
    set.items
}

// ---- Blobs on their shelves -----------------------------------------------

/// The names that an operation was told.
pub open spec fn dirs_told(op: FileOp) -> Seq<Seq<char>> {
    match op {
        FileOp::DirsIn { reply: Ok(names), .. } => names,
        _ => Seq::empty(),
    }
}

pub open spec fn files_told(op: FileOp) -> Seq<Seq<char>> {
    match op {
        FileOp::FilesIn { reply: Ok(names), .. } => names,
        _ => Seq::empty(),
    }
}

/// The failure at which looking into directories stopped. That the first of them is
/// missing is none.
pub open spec fn stopped(ops: Seq<FileOp>) -> Option<FileError> {
    match ops.last() {
        FileOp::DirsIn { reply: Err(e), .. } => if e.missing {
            None
        } else {
            Some(e)
        },
        FileOp::FilesIn { reply: Err(e), .. } => Some(e),
        _ => None,
    }
}

/// The directories in `dir` are listed, and the files in each of them, up to the end
/// or to a failure.
pub open spec fn looked_below(dir: Seq<char>, ops: Seq<FileOp>) -> bool {
    &&& ops.len() > 0
    &&& ops[0] is DirsIn
    &&& ops[0]->DirsIn_dir == dir
    &&& ops.len() <= 1 + dirs_told(ops[0]).len()
    &&& forall|i: int|
        1 <= i < ops.len() ==> (#[trigger] ops[i]) is FilesIn && ops[i]->FilesIn_dir == below(
            dir,
            dirs_told(ops[0])[i - 1],
        )
    &&& forall|i: int|
        1 <= i < ops.len() - 1 ==> (#[trigger] ops[i])->FilesIn_reply is Ok
    &&& ops.len() < 1 + dirs_told(ops[0]).len() ==> stopped(ops) is Some
}

/// One of the files that were listed stands for `d`.
pub open spec fn listed_as(prefix: Seq<char>, ops: Seq<FileOp>, d: DigestView) -> bool {
    exists|i: int| 0 <= i < ops.len() && some_names(prefix, files_told(#[trigger] ops[i]), d)
}

/// Gathers the blobs of one algorithm.
fn gather_blobs<F: RecordedFiles>(
    disk: &mut Watched<F>,
    a: Algorithm,
    prefix: &str,
    set: &mut SortedSet<Digest>,
) -> (r: Result<(), FileError>)
    requires
        old(disk).wf(),
        old(set).wf(),
    ensures
        final(disk).same_call(old(disk)),
        final(set).wf(),
        ({
            let n = old(disk).ops().len() as int;
            let ops = final(disk).ops().skip(n);
            &&& final(disk).ops().len() >= n
            &&& final(disk).ops().take(n) == old(disk).ops()
            &&& looked_below(blob_dir(a), ops)
            &&& match r {
                Ok(_) => stopped(ops) is None && forall|d: DigestView| #[trigger]
                    final(set)@.contains(d) <==> old(set)@.contains(d) || listed_as(
                        prefix@,
                        ops,
                        d,
                    ),
                Err(e) => stopped(ops) == Some(e),
            }
        }),
{
    let ghost was = disk.ops();
    let ghost n = was.len() as int;
    let ghost have = set@;
    let dir = blob_dir_path(a);
    let told = disk.dirs_in(dir.as_str());
    let ghost first = disk.ops().last();
    assert(disk.ops().take(n) =~= was);
    assert(disk.ops().skip(n) =~= seq![first]);
    let names = match told {
        Err(e) => {
            if !e.missing {
                return Err(e);
            }
            assert forall|d: DigestView| !listed_as(prefix@, seq![first], d) by {
            }
            return Ok(());
        },
        Ok(names) => names,
    };
    let mut i: usize = 0;
    while i < names.len()
        invariant
            i <= names@.len(),
            n == was.len(),
            was == old(disk).ops(),
            disk.same_call(old(disk)),
            have == old(set)@,
            disk.ops().len() == n + 1 + i,
            disk.ops().take(n) == was,
            disk.ops()[n] == first,
            first is DirsIn,
            first->DirsIn_dir == blob_dir(a),
            dirs_told(first) == text::views(names@),
            dir@ == blob_dir(a),
            set.wf(),
            forall|j: int|
                n + 1 <= j < disk.ops().len() ==> (#[trigger] disk.ops()[j]) is FilesIn
                    && disk.ops()[j]->FilesIn_reply is Ok && disk.ops()[j]->FilesIn_dir == below(
                    blob_dir(a),
                    dirs_told(first)[j - n - 1],
                ),
            forall|d: DigestView| #[trigger]
                set@.contains(d) <==> have.contains(d) || listed_as(
                    prefix@,
                    disk.ops().skip(n),
                    d,
                ),
        decreases names@.len() - i,
    {
        let ghost before = disk.ops();
        let ghost had = set@;
        let inner = join(dir.as_str(), names[i].as_str());
        let told = disk.files_in(inner.as_str());
        let ghost op = disk.ops().last();
        proof {
            assert(disk.ops().take(n) =~= was);
            assert(disk.ops().skip(n) =~= before.skip(n).push(op));
            assert(text::views(names@)[i as int] == names@[i as int]@);
        }
        let found_here = match told {
            Err(e) => {
                proof {
                    let ops = disk.ops().skip(n);
                    assert(ops[0] == first);
                    assert(ops.last() == op);
                    assert forall|k: int| 1 <= k < ops.len() implies (#[trigger] ops[k]) is FilesIn
                        && ops[k]->FilesIn_dir == below(blob_dir(a), dirs_told(ops[0])[k - 1]) by {
                        assert(ops[k] == disk.ops()[n + k]);
                        if k < ops.len() - 1 {
                            assert(ops[k] == before[n + k]);
                        }
                    }
                    assert forall|k: int| 1 <= k < ops.len() - 1 implies (
                    #[trigger] ops[k])->FilesIn_reply is Ok by {
                        assert(ops[k] == before[n + k]);
                    }
                }
                return Err(e);
            },
            Ok(x) => x,
        };
        digests_among(prefix, &found_here, set);
        proof {
            let ops0 = before.skip(n);
            let ops1 = disk.ops().skip(n);
            assert(files_told(op) == text::views(found_here@));
            assert forall|d: DigestView| #[trigger] set@.contains(d) <==> have.contains(d)
                || listed_as(prefix@, ops1, d) by {
                lemma_listed_push(prefix@, ops0, op, d);
            }
            assert forall|j: int| n + 1 <= j < disk.ops().len() implies (
            #[trigger] disk.ops()[j]) is FilesIn && disk.ops()[j]->FilesIn_reply is Ok
                && disk.ops()[j]->FilesIn_dir == below(
                blob_dir(a),
                dirs_told(first)[j - n - 1],
            ) by {
                if j < before.len() {
                    assert(disk.ops()[j] == before[j]);
                }
            }
        }
        i = i + 1;
    }
    proof {
        let ops = disk.ops().skip(n);
        assert(ops[0] == first);
        assert forall|k: int| 1 <= k < ops.len() implies (#[trigger] ops[k]) is FilesIn
            && ops[k]->FilesIn_reply is Ok && ops[k]->FilesIn_dir == below(
            blob_dir(a),
            dirs_told(ops[0])[k - 1],
        ) by {
            assert(ops[k] == disk.ops()[n + k]);
        }
    }
    Ok(())
}

proof fn lemma_listed_push(prefix: Seq<char>, ops: Seq<FileOp>, op: FileOp, d: DigestView)
    ensures
        listed_as(prefix, ops.push(op), d) <==> listed_as(prefix, ops, d) || some_names(
            prefix,
            files_told(op),
            d,
        ),
{
    let all = ops.push(op);
    if listed_as(prefix, all, d) {
        let i = choose|i: int|
            0 <= i < all.len() && some_names(prefix, files_told(#[trigger] all[i]), d);
        if i < ops.len() {
            assert(all[i] == ops[i]);
        }
    }
    if listed_as(prefix, ops, d) {
        let i = choose|i: int|
            0 <= i < ops.len() && some_names(prefix, files_told(#[trigger] ops[i]), d);
        assert(all[i] == ops[i]);
    }
    if some_names(prefix, files_told(op), d) {
        assert(all[ops.len() as int] == op);
    }
}

// ---- Repositories in their tree -------------------------------------------

/// The name of what is called `name` in the directory of `repo`.
pub open spec fn child(repo: Seq<char>, name: Seq<char>) -> Seq<char> {
    if repo.len() == 0 {
        name
    } else {
        below(repo, name)
    }
}

/// The name under which a directory is listed.
pub open spec fn shown(repo: Seq<char>) -> Seq<char> {
    repo.map_values(
        |c: char|
            if c == '\\' {
                '/'
            } else {
                c
            },
    )
}

fn shown_name(repo: &str) -> (r: String)
    ensures
        r@ == shown(repo@),
{
    let v = text::chars_of(repo);
    let mut out = String::new();
    let mut i: usize = 0;
    assert(out@ =~= shown(v@.take(0)));
    while i < v.len()
        invariant
            i <= v@.len(),
            out@ == shown(v@.take(i as int)),
        decreases v@.len() - i,
    {
        if v[i] == '\\' {
            out.push('/');
        } else {
            out.push(v[i]);
        }
        i = i + 1;
        assert(out@ =~= shown(v@.take(i as int)));
    }
    assert(v@.take(i as int) =~= v@);
    out
}

/// The failure that a listing ended with; that there is no such directory is none.
pub open spec fn refused(op: FileOp) -> Option<FileError> {
    match op {
        FileOp::DirsIn { reply: Err(e), .. } => if e.missing {
            None
        } else {
            Some(e)
        },
        FileOp::FilesIn { reply: Err(e), .. } => if e.missing {
            None
        } else {
            Some(e)
        },
        _ => None,
    }
}

/// A look at the directory of `repo`.
pub struct Visit {
    pub repo: Seq<char>,
    pub ops: Seq<FileOp>,
}

impl Visit {
    /// The directories in it are listed; where there is one of manifests in that of a
    /// repository, the files in that one.
    pub open spec fn right(self) -> bool {
        &&& self.ops.len() > 0
        &&& self.ops[0] is DirsIn
        &&& self.ops[0]->DirsIn_dir == repo_dir(self.repo)
        &&& if self.repo.len() > 0 && dirs_told(self.ops[0]).contains("digests"@) {
            &&& self.ops.len() == 2
            &&& self.ops[1] is FilesIn
            &&& self.ops[1]->FilesIn_dir == digests_dir(self.repo)
        } else {
            self.ops.len() == 1
        }
    }

    /// The names of the directories in it.
    pub open spec fn dirs(self) -> Seq<Seq<char>> {
        dirs_told(self.ops[0])
    }

    /// It has a manifest.
    pub open spec fn holds_manifest(self) -> bool {
        self.ops.len() == 2 && exists|d: DigestView| #[trigger]
            some_names(Seq::empty(), files_told(self.ops[1]), d)
    }
}

/// The operations of some visits.
pub open spec fn all_ops(visits: Seq<Visit>) -> Seq<FileOp>
    decreases visits.len(),
{
    if visits.len() == 0 {
        Seq::empty()
    } else {
        all_ops(visits.drop_last()) + visits.last().ops
    }
}

/// What was told at the visit `j` leads on to `repo`.
pub open spec fn leads(visits: Seq<Visit>, j: int, name: Seq<char>, repo: Seq<char>) -> bool {
    &&& 0 <= j < visits.len()
    &&& visits[j].dirs().contains(name)
    &&& repo == child(visits[j].repo, name)
}

/// `repo` is the root of the tree, or something leads on to it.
pub open spec fn is_led_to(visits: Seq<Visit>, repo: Seq<char>) -> bool {
    if visits.len() == 0 {
        repo.len() == 0
    } else {
        exists|j: int, n: Seq<char>| #[trigger] leads(visits, j, n, repo)
    }
}

/// The visit `i` comes after one that leads on to it.
pub open spec fn follows(visits: Seq<Visit>, i: int) -> bool {
    is_led_to(visits.take(i), visits[i].repo)
}

/// The directories are visited each after one that leads on to it, and none after a
/// failure.
pub open spec fn walked(visits: Seq<Visit>) -> bool {
    &&& forall|i: int| 0 <= i < visits.len() ==> (#[trigger] visits[i]).right()
    &&& forall|i: int| 0 <= i < visits.len() ==> #[trigger] follows(visits, i)
    &&& forall|i: int|
        0 <= i < visits.len() - 1 ==> refused((#[trigger] visits[i]).ops.last()) is None
}

/// There was a visit at `repo`.
pub open spec fn was_visited(visits: Seq<Visit>, repo: Seq<char>) -> bool {
    exists|i: int| 0 <= i < visits.len() && (#[trigger] visits[i]).repo == repo
}

/// Everything that was led on to was visited.
pub open spec fn all_walked(visits: Seq<Visit>) -> bool {
    forall|j: int, n: Seq<char>, repo: Seq<char>| #[trigger]
        leads(visits, j, n, repo) ==> was_visited(visits, repo)
}

/// One of the directories that were visited is the repository `r`, with a manifest.
pub open spec fn is_among(visits: Seq<Visit>, r: Seq<char>) -> bool {
    exists|i: int|
        0 <= i < visits.len() && (#[trigger] visits[i]).holds_manifest() && r == shown(
            visits[i].repo,
        )
}

proof fn lemma_walk_on(visits: Seq<Visit>, v: Visit)
    requires
        walked(visits),
        v.right(),
        is_led_to(visits, v.repo),
        visits.len() > 0 ==> refused(visits.last().ops.last()) is None,
    ensures
        walked(visits.push(v)),
        all_ops(visits.push(v)) == all_ops(visits) + v.ops,
{
    let all = visits.push(v);
    let n = visits.len() as int;
    assert(all.drop_last() =~= visits);
    assert forall|i: int| 0 <= i < all.len() implies (#[trigger] all[i]).right() by {
        if i < n {
            assert(all[i] == visits[i]);
        }
    }
    assert forall|i: int| 0 <= i < all.len() implies #[trigger] follows(all, i) by {
        if i < n {
            assert(follows(visits, i));
            assert(all[i] == visits[i]);
            assert(all.take(i) =~= visits.take(i));
        } else {
            assert(all.take(i) =~= visits);
        }
    }
    assert forall|i: int| 0 <= i < all.len() - 1 implies refused(
        (#[trigger] all[i]).ops.last(),
    ) is None by {
        assert(all[i] == visits[i]);
    }
}

/// What one more visit adds.
proof fn lemma_visit_adds(visits: Seq<Visit>, v: Visit)
    ensures
        forall|j: int, n: Seq<char>, r: Seq<char>| #[trigger]
            leads(visits.push(v), j, n, r) <==> leads(visits, j, n, r) || (j == visits.len()
                && v.dirs().contains(n) && r == child(v.repo, n)),
        forall|r: Seq<char>| #[trigger]
            was_visited(visits.push(v), r) <==> was_visited(visits, r) || r == v.repo,
        visits.len() > 0 ==> forall|x: Seq<char>| #[trigger]
            is_led_to(visits, x) ==> is_led_to(visits.push(v), x),
{
    let all = visits.push(v);
    let n = visits.len() as int;
    assert forall|r: Seq<char>| #[trigger] was_visited(all, r) <==> was_visited(visits, r) || r
        == v.repo by {
        if was_visited(all, r) {
            let i = choose|i: int| 0 <= i < all.len() && (#[trigger] all[i]).repo == r;
            if i < n {
                assert(all[i] == visits[i]);
            }
        }
        if was_visited(visits, r) {
            let i = choose|i: int| 0 <= i < visits.len() && (#[trigger] visits[i]).repo == r;
            assert(all[i] == visits[i]);
        }
        assert(all[n] == v);
    }
    if n > 0 {
        assert forall|x: Seq<char>| #[trigger] is_led_to(visits, x) implies is_led_to(all, x) by {
            let (j, m) = choose|j: int, m: Seq<char>| #[trigger] leads(visits, j, m, x);
            assert(leads(all, j, m, x));
        }
    }
}

proof fn lemma_visit_shows(visits: Seq<Visit>, v: Visit)
    ensures
        forall|r: Seq<char>| #[trigger]
            is_among(visits.push(v), r) <==> is_among(visits, r) || (v.holds_manifest() && r
                == shown(v.repo)),
{
    let all = visits.push(v);
    let n = visits.len() as int;
    assert forall|r: Seq<char>| #[trigger] is_among(all, r) <==> is_among(visits, r) || (
    v.holds_manifest() && r == shown(v.repo)) by {
        if is_among(all, r) {
            let i = choose|i: int|
                0 <= i < all.len() && (#[trigger] all[i]).holds_manifest() && r == shown(
                    all[i].repo,
                );
            if i < n {
                assert(all[i] == visits[i]);
            }
        }
        if is_among(visits, r) {
            let i = choose|i: int|
                0 <= i < visits.len() && (#[trigger] visits[i]).holds_manifest() && r == shown(
                    visits[i].repo,
                );
            assert(all[i] == visits[i]);
        }
        assert(all[n] == v);
    }
}

/// `p` is what one of the names in the directory of `repo` leads on to.
pub open spec fn comes_from(names: Seq<Seq<char>>, repo: Seq<char>, p: Seq<char>) -> bool {
    exists|n: Seq<char>| #[trigger] names.contains(n) && p == child(repo, n)
}

/// Puts what a directory leads on to on the stack, the first on top. Says whether there
/// is a directory of manifests in it.
fn lead_on(repo: &str, names: &Vec<String>, pending: &mut Vec<String>) -> (r: bool)
    ensures
        r == text::views(names@).contains("digests"@),
        final(pending)@.len() >= old(pending)@.len(),
        final(pending)@.take(old(pending)@.len() as int) == old(pending)@,
        forall|i: int|
            old(pending)@.len() <= i < final(pending)@.len() ==> comes_from(
                text::views(names@),
                repo@,
                (#[trigger] final(pending)@[i])@,
            ),
        forall|n: Seq<char>| #[trigger]
            text::views(names@).contains(n) ==> text::views(
                final(pending)@,
            ).contains(child(repo@, n)),
{
    let ghost was = pending@;
    let ghost all = text::views(names@);
    let mut is_repo = false;
    let mut i: usize = names.len();
    assert(pending@.take(was.len() as int) =~= was);
    while i > 0
        invariant
            i <= names@.len(),
            all == text::views(names@),
            is_repo <==> exists|k: int| i <= k < all.len() && #[trigger] all[k] == "digests"@,
            was == old(pending)@,
            pending@.len() >= was.len(),
            pending@.take(was.len() as int) == was,
            forall|k: int|
                was.len() <= k < pending@.len() ==> comes_from(
                    all,
                    repo@,
                    (#[trigger] pending@[k])@,
                ),
            forall|k: int|
                i <= k < all.len() ==> text::views(pending@).contains(
                    child(repo@, #[trigger] all[k]),
                ),
        decreases i,
    {
        i = i - 1;
        let ghost before = pending@;
        assert(all[i as int] == names@[i as int]@);
        assert(all.contains(all[i as int]));
        if text::same(names[i].as_str(), "digests") {
            is_repo = true;
            assert(all[i as int] == "digests"@);
        }
        let next = if repo.is_empty() {
            names[i].clone()
        } else {
            join(repo, names[i].as_str())
        };
        let ghost added = next@;
        pending.push(next);
        proof {
            let v0 = text::views(before);
            let v1 = text::views(pending@);
            assert(v1 =~= v0.push(added));
            assert(pending@.take(was.len() as int) =~= was);
            assert forall|k: int| i <= k < all.len() implies v1.contains(
                child(repo@, #[trigger] all[k]),
            ) by {
                if k == i {
                    assert(v1[v0.len() as int] == added);
                } else {
                    let m = choose|m: int| 0 <= m < v0.len() && v0[m] == child(repo@, all[k]);
                    assert(v1[m] == v0[m]);
                }
            }
            assert forall|k: int| was.len() <= k < pending@.len() implies comes_from(
                all,
                repo@,
                (#[trigger] pending@[k])@,
            ) by {
                if k < before.len() {
                    assert(pending@[k] == before[k]);
                } else {
                    assert(all.contains(all[i as int]));
                }
            }
        }
    }
    proof {
        assert forall|n: Seq<char>| #[trigger] all.contains(n) implies text::views(
            pending@,
        ).contains(child(repo@, n)) by {
            let k = choose|k: int| 0 <= k < all.len() && all[k] == n;
        }
    }
    is_repo
}

/// The repositories were listed like this, or it stopped at a failure. Nothing ends
/// the walk of a tree without end but the number of its directories.
pub open spec fn repos_listed(
    ops: Seq<FileOp>,
    visits: Seq<Visit>,
    reply: Result<Seq<Seq<char>>, StorageError>,
) -> bool {
    &&& visits.len() > 0
    &&& walked(visits)
    &&& ops == all_ops(visits)
    &&& match reply {
        Ok(list) => {
            &&& refused(visits.last().ops.last()) is None
            &&& all_walked(visits)
            &&& order::rising::<String>(list)
            &&& forall|r: Seq<char>| #[trigger] list.contains(r) <==> is_among(visits, r)
        },
        Err(x) => match refused(visits.last().ops.last()) {
            Some(e) => x == failed(e),
            None => visits.len() == u64::MAX && (x matches StorageError::Internal(m) && m@
                == "too many directories"@),
        },
    }
}

/// Looks whether there is a manifest among the files of a repository.
fn has_manifest<F: RecordedFiles>(disk: &mut Watched<F>, repo: &str) -> (r: Result<bool, FileError>)
    requires
        old(disk).wf(),
    ensures
        final(disk).same_call(old(disk)),
        ({
            let op = final(disk).ops().last();
            &&& final(disk).ops() == old(disk).ops().push(op)
            &&& op is FilesIn
            &&& op->FilesIn_dir == digests_dir(repo@)
            &&& match r {
                Ok(b) => refused(op) is None && (b <==> exists|d: DigestView| #[trigger]
                    some_names(Seq::empty(), files_told(op), d)),
                Err(e) => refused(op) == Some(e),
            }
        }),
{
    match disk.files_in(digests_path(repo).as_str()) {
        Ok(names) => {
            let found = manifests_among(&names);
            proof {
                let v = order::views_of(found@);
                if found@.len() > 0 {
                    assert(v.contains(v[0]));
                    assert(some_names(Seq::empty(), text::views(names@), v[0]));
                }
                if exists|d: DigestView| #[trigger]
                    some_names(Seq::empty(), text::views(names@), d) {
                    let d = choose|d: DigestView| #[trigger]
                        some_names(Seq::empty(), text::views(names@), d);
                    assert(v.contains(d));
                }
            }
            Ok(found.len() > 0)
        },
        Err(e) => if e.missing {
            Ok(false)
        } else {
            Err(e)
        },
    }
}

/// Walks the manifest tree from its root.
fn walk_repos<F: RecordedFiles>(disk: &mut Watched<F>) -> (r: Result<Vec<String>, StorageError>)
    requires
        old(disk).wf(),
        old(disk).ops().len() == 0,
    ensures
        final(disk).same_call(old(disk)),
        exists|visits: Seq<Visit>| #[trigger]
            repos_listed(final(disk).ops(), visits, storage::list_reply(r)),
{
    let mut set: SortedSet<String> = SortedSet::new();
    let mut pending: Vec<String> = Vec::new();
    pending.push(String::new());
    let mut left: u64 = u64::MAX;
    let ghost mut visits: Seq<Visit> = Seq::empty();
    proof {
        assert(walked(visits));
        assert(disk.ops() =~= all_ops(visits));
        assert forall|r: Seq<char>| !(#[trigger] is_among(visits, r)) by {
        }
        assert(pending@[0]@ =~= Seq::<char>::empty());
    }
    while pending.len() > 0
        invariant
            walked(visits),
            disk.same_call(old(disk)),
            disk.ops() == all_ops(visits),
            visits.len() == u64::MAX - left,
            visits.len() == 0 ==> pending@.len() == 1,
            visits.len() > 0 ==> refused(visits.last().ops.last()) is None,
            set.wf(),
            forall|i: int|
                0 <= i < pending@.len() ==> is_led_to(visits, (#[trigger] pending@[i])@),
            forall|j: int, n: Seq<char>, repo: Seq<char>| #[trigger]
                leads(visits, j, n, repo) ==> was_visited(visits, repo) || text::views(
                    pending@,
                ).contains(repo),
            forall|r: Seq<char>| #[trigger] set@.contains(r) <==> is_among(visits, r),
        decreases left,
    {
        if left == 0 {
            let r: Result<Vec<String>, StorageError> = Err(
                StorageError::Internal("too many directories".to_owned()),
            );
            assert(repos_listed(disk.ops(), visits, storage::list_reply(r)));
            return r;
        }
        left = left - 1;
        let ghost stack = pending@;
        let repo = match pending.pop() {
            Some(x) => x,
            None => String::new(),
        };
        let ghost rest = pending@;
        let ghost ops = disk.ops();
        let ghost done = visits;
        let dir = repo_path(repo.as_str());
        let told = disk.dirs_in(dir.as_str());
        let ghost op = disk.ops().last();
        let ghost mut visit = Visit { repo: repo@, ops: seq![op] };
        proof {
            assert(stack.last() == repo);
            assert(stack =~= rest.push(repo));
            assert(is_led_to(done, stack[stack.len() - 1]@));
            lemma_views_push(rest, repo);
            assert(disk.ops() =~= ops + seq![op]);
        }
        let mut manifests: Result<bool, FileError> = Ok(false);
        match told {
            Err(e) => {
                proof {
                    lemma_walk_on(done, visit);
                    lemma_visit_adds(done, visit);
                    lemma_visit_shows(done, visit);
                    visits = done.push(visit);
                }
                if !e.missing {
                    let r: Result<Vec<String>, StorageError> = Err(StorageError::Io(e.text));
                    assert(repos_listed(disk.ops(), visits, storage::list_reply(r)));
                    return r;
                }
            },
            Ok(names) => {
                let marked = lead_on(repo.as_str(), &names, &mut pending);
                assert(dirs_told(op) == text::views(names@));
                if marked && !repo.as_str().is_empty() {
                    manifests = has_manifest(disk, repo.as_str());
                    proof {
                        let more = disk.ops().last();
                        visit = Visit { repo: repo@, ops: seq![op, more] };
                        assert(disk.ops() =~= ops + seq![op, more]);
                    }
                }
                proof {
                    lemma_walk_on(done, visit);
                    lemma_visit_adds(done, visit);
                    lemma_visit_shows(done, visit);
                    visits = done.push(visit);
                    assert(visit.dirs() == text::views(names@));
                    assert forall|k: int| 0 <= k < pending@.len() implies is_led_to(
                        visits,
                        (#[trigger] pending@[k])@,
                    ) by {
                        if k < rest.len() {
                            assert(pending@.take(rest.len() as int)[k] == pending@[k]);
                            assert(pending@[k] == stack[k]);
                        } else {
                            assert(comes_from(text::views(names@), repo@, pending@[k]@));
                            let n = choose|n: Seq<char>| #[trigger]
                                text::views(names@).contains(n) && pending@[k]@
                                    == child(repo@, n);
                            assert(leads(visits, done.len() as int, n, pending@[k]@));
                        }
                    }
                    assert forall|x: Seq<char>| text::views(rest).contains(x) implies #[trigger]
                        text::views(pending@).contains(x) by {
                        let k = choose|k: int|
                            0 <= k < text::views(rest).len() && text::views(rest)[k] == x;
                        assert(pending@.take(rest.len() as int)[k] == pending@[k]);
                        assert(text::views(pending@)[k] == x);
                    }
                }
            },
        }
        assert(visits.last() == visit);
        match manifests {
            Ok(true) => {
                set.insert(shown_name(repo.as_str()));
            },
            Ok(false) => {},
            Err(e) => {
                let r: Result<Vec<String>, StorageError> = Err(StorageError::Io(e.text));
                assert(repos_listed(disk.ops(), visits, storage::list_reply(r)));
                return r;
            },
        }
    }
    let r: Result<Vec<String>, StorageError> = Ok(set.items);
    proof {
        assert forall|j: int, n: Seq<char>, repo: Seq<char>| #[trigger]
            leads(visits, j, n, repo) implies was_visited(visits, repo) by {
            assert(text::views(pending@).len() == 0);
        }
        assert forall|x: Seq<char>| #[trigger] order::views_of(set.items@).contains(
            x,
        ) <==> set@.contains(x) by {
        }
        assert(repos_listed(disk.ops(), visits, storage::list_reply(r)));
    }
    r
}

proof fn lemma_views_push(v: Seq<String>, x: String)
    ensures
        forall|t: Seq<char>| #[trigger]
            text::views(v.push(x)).contains(t) <==> text::views(v).contains(t) || t == x@,
{
    assert(v.push(x).take(v.len() as int) =~= v);
    assert(v.push(x).take((v.len() + 1) as int) =~= v.push(x));
    lemma_views_take(v.push(x), v.len() as int);
}

// ---- Calls and operations -------------------------------------------------

/// An upload becomes a blob: its bytes are read and hashed, and it is moved. Where it
/// cannot be moved, its bytes are put in place in one step and it is removed.
pub open spec fn finalized(
    id: u128,
    digest: DigestView,
    ops: Seq<FileOp>,
    reply: Result<(), StorageError>,
) -> bool {
    &&& ops.len() > 0
    &&& ops[0] is Read
    &&& ops[0]->Read_path == upload_file(id)
    &&& match ops[0]->Read_reply {
        Err(e) => ops.len() == 1 && reply == Err::<(), _>(found(e)),
        Ok(content) => {
            let got = digest::content_digest(digest.algorithm, content);
            if got != digest {
                ops.len() == 1 && mismatch(reply, digest, got)
            } else {
                digest.wf() && moved_to_place(id, digest, content, ops, reply)
            }
        },
    }
}

pub open spec fn moved_to_place(
    id: u128,
    digest: DigestView,
    content: Seq<u8>,
    ops: Seq<FileOp>,
    reply: Result<(), StorageError>,
) -> bool {
    &&& ops.len() > 1
    &&& ops[1] is MakeDir
    &&& ops[1]->MakeDir_path == shelf(digest)
    &&& match ops[1]->MakeDir_reply {
        Err(e) => ops.len() == 2 && reply == Err::<(), _>(failed(e)),
        Ok(_) => {
            &&& ops.len() > 2
            &&& ops[2] is Rename
            &&& ops[2]->from == upload_file(id)
            &&& ops[2]->to == blob_file(digest)
            &&& match ops[2]->Rename_reply {
                Ok(_) => ops.len() == 3 && reply is Ok,
                Err(_) => copied_to_place(id, digest, content, ops, reply),
            }
        },
    }
}

pub open spec fn copied_to_place(
    id: u128,
    digest: DigestView,
    content: Seq<u8>,
    ops: Seq<FileOp>,
    reply: Result<(), StorageError>,
) -> bool {
    &&& ops.len() > 3
    &&& ops[3] is Replace
    &&& ops[3]->Replace_path == blob_file(digest)
    &&& ops[3]->Replace_content == content
    &&& match ops[3]->Replace_reply {
        Err(e) => ops.len() == 4 && reply == Err::<(), _>(failed(e)),
        Ok(_) => {
            &&& ops.len() == 5
            &&& ops[4] is Remove
            &&& ops[4]->Remove_path == upload_file(id)
            &&& reply is Ok
        },
    }
}

/// The manifest is read, and what it references.
pub open spec fn manifest_read(
    path: Seq<char>,
    ops: Seq<FileOp>,
    reply: Result<(Seq<u8>, Option<crate::manifest::Manifest>), StorageError>,
) -> bool {
    &&& ops.len() > 0
    &&& ops[0] is Read
    &&& ops[0]->Read_path == path
    &&& match ops[0]->Read_reply {
        Err(e) => ops.len() == 1 && reply is Err && reply->Err_0 == found(e),
        Ok(content) => {
            &&& ops.len() == 2
            &&& ops[1] is Manifest
            &&& ops[1]->Manifest_content == content
            &&& reply is Ok
            &&& reply->Ok_0 == (content, ops[1]->Manifest_reply)
        },
    }
}

/// The file of the tag is read, and then the manifest that it names.
pub open spec fn tag_followed(
    repo: Seq<char>,
    tag: Seq<char>,
    ops: Seq<FileOp>,
    reply: Result<(Seq<u8>, Option<crate::manifest::Manifest>), StorageError>,
) -> bool {
    &&& ops.len() > 0
    &&& ops[0] is Read
    &&& ops[0]->Read_path == tag_file(repo, tag)
    &&& match ops[0]->Read_reply {
        Err(e) => ops.len() == 1 && reply is Err && reply->Err_0 == found(e),
        Ok(content) => if !vstd::utf8::valid_utf8(content) {
            ops.len() == 1 && (reply matches Err(StorageError::Io(m)) && m@
                == "stream did not contain valid UTF-8"@)
        } else {
            match digest::parsed(text::trim(vstd::utf8::decode_utf8(content))) {
                Err(e) => ops.len() == 1 && (reply matches Err(StorageError::Internal(m)) && m@
                    == "bad stored tag: "@ + e.text()),
                Ok(d) => manifest_read(digest_file(repo, d), ops.skip(1), reply),
            }
        },
    }
}

/// The manifest is put in its place, and then the tag is pointed at it.
pub open spec fn manifest_stored(
    repo: Seq<char>,
    reference: ReferenceView,
    content: Seq<u8>,
    ops: Seq<FileOp>,
    reply: Result<DigestView, StorageError>,
) -> bool {
    let d = digest::content_digest(Algorithm::Sha256, content);
    &&& d.wf()
    &&& ops.len() > 0
    &&& ops[0] is Replace
    &&& ops[0]->Replace_path == digest_file(repo, d)
    &&& ops[0]->Replace_content == content
    &&& match ops[0]->Replace_reply {
        Err(e) => ops.len() == 1 && reply is Err && reply->Err_0 == failed(e),
        Ok(_) => match reference {
            ReferenceView::Digest(_) => ops.len() == 1 && reply == Ok::<_, StorageError>(d),
            ReferenceView::Tag(t) => {
                &&& ops.len() == 2
                &&& ops[1] is Replace
                &&& ops[1]->Replace_path == tag_file(repo, t)
                &&& ops[1]->Replace_content == vstd::utf8::encode_utf8(d.text())
                &&& match ops[1]->Replace_reply {
                    Err(e) => reply is Err && reply->Err_0 == failed(e),
                    Ok(_) => reply == Ok::<_, StorageError>(d),
                }
            },
        },
    }
}

/// The blobs of both algorithms are gathered, up to a failure.
pub open spec fn blobs_listed(
    ops: Seq<FileOp>,
    k: int,
    reply: Result<Seq<DigestView>, StorageError>,
) -> bool {
    let a = ops.take(k);
    let b = ops.skip(k);
    &&& 0 <= k <= ops.len()
    &&& looked_below(blob_dir(Algorithm::Sha256), a)
    &&& match stopped(a) {
        Some(e) => k == ops.len() && reply is Err && reply->Err_0 == failed(e),
        None => looked_below(blob_dir(Algorithm::Sha512), b) && match stopped(b) {
            Some(e) => reply is Err && reply->Err_0 == failed(e),
            None => {
                &&& reply is Ok
                &&& order::rising::<Digest>(reply->Ok_0)
                &&& forall|d: DigestView| #[trigger]
                    reply->Ok_0.contains(d) <==> listed_as("sha256:"@, a, d) || listed_as(
                        "sha512:"@,
                        b,
                        d,
                    )
            },
        },
    }
}

/// The file that a manifest reference leads to at once.
pub open spec fn reference_file(repo: Seq<char>, reference: ReferenceView) -> Seq<char> {
    match reference {
        ReferenceView::Digest(d) => digest_file(repo, d),
        ReferenceView::Tag(t) => tag_file(repo, t),
    }
}

/// The operations carry out the call, and its answer is what their answers give.
pub open spec fn carried_out(c: Call, ops: Seq<FileOp>) -> bool {
    match c {
        Call::BlobExists { digest, reply, .. } => if digest.hex.len() < 2 {
            ops.len() == 0 && unplaced(reply)
        } else {
            &&& ops.len() == 1
            &&& ops[0] is Has
            &&& ops[0]->Has_path == blob_file(digest)
            &&& reply == failed_reply(ops[0]->Has_reply)
        },
        Call::BlobSize { digest, reply, .. } => if digest.hex.len() < 2 {
            ops.len() == 0 && unplaced(reply)
        } else {
            &&& ops.len() == 1
            &&& ops[0] is Size
            &&& ops[0]->Size_path == blob_file(digest)
            &&& reply == found_reply(ops[0]->Size_reply)
        },
        Call::BlobRead { digest, reply, .. } => if digest.hex.len() < 2 {
            ops.len() == 0 && unplaced(reply)
        } else {
            &&& ops.len() == 1
            &&& ops[0] is Read
            &&& ops[0]->Read_path == blob_file(digest)
            &&& reply == found_reply(ops[0]->Read_reply)
        },
        Call::BlobWrite { digest, content, reply, .. } => {
            let got = digest::content_digest(digest.algorithm, content);
            if got != digest {
                ops.len() == 0 && mismatch(reply, digest, got)
            } else {
                &&& digest.wf()
                &&& ops.len() == 1
                &&& ops[0] is Replace
                &&& ops[0]->Replace_path == blob_file(digest)
                &&& ops[0]->Replace_content == content
                &&& reply == failed_reply(ops[0]->Replace_reply)
            }
        },
        Call::BlobDelete { digest, reply, .. } => if digest.hex.len() < 2 {
            ops.len() == 0 && unplaced(reply)
        } else {
            &&& ops.len() == 1
            &&& ops[0] is Remove
            &&& ops[0]->Remove_path == blob_file(digest)
            &&& reply == found_reply(ops[0]->Remove_reply)
        },
        Call::UploadCreate { reply, .. } => {
            &&& ops.len() == 1
            &&& ops[0] is Create
            &&& match ops[0]->Create_reply {
                Err(e) => reply is Err && reply->Err_0 == failed(e),
                Ok(_) => reply is Ok && reply->Ok_0.offset == 0,
            }
            &&& exists|id: u128|
                ops[0]->Create_path == #[trigger] upload_file(id) && (reply matches Ok(s) ==> s.id
                    == id)
        },
        Call::UploadState { id, reply, .. } => {
            &&& ops.len() == 1
            &&& ops[0] is Size
            &&& ops[0]->Size_path == upload_file(id)
            &&& match ops[0]->Size_reply {
                Err(e) => reply is Err && reply->Err_0 == found(e),
                Ok(n) => reply == Ok::<_, StorageError>(UploadStatus { id, offset: n }),
            }
        },
        Call::UploadAppend { id, chunk, reply, .. } => {
            &&& ops.len() == 1
            &&& ops[0] is Append
            &&& ops[0]->Append_path == upload_file(id)
            &&& ops[0]->chunk == chunk
            &&& match ops[0]->Append_reply {
                Err(e) => reply is Err && reply->Err_0 == found(e),
                Ok(n) => reply == Ok::<_, StorageError>(UploadStatus { id, offset: n }),
            }
        },
        Call::UploadFinalize { id, digest, reply, .. } => finalized(id, digest, ops, reply),
        Call::UploadCancel { id, reply, .. } => {
            &&& ops.len() == 1
            &&& ops[0] is Remove
            &&& ops[0]->Remove_path == upload_file(id)
            &&& reply == found_reply(ops[0]->Remove_reply)
        },
        Call::ManifestGet { repo, reference, reply } => match reference {
            ReferenceView::Digest(d) => manifest_read(digest_file(repo, d), ops, reply),
            ReferenceView::Tag(t) => tag_followed(repo, t, ops, reply),
        },
        Call::ManifestPut { repo, reference, content, reply } => manifest_stored(
            repo,
            reference,
            content,
            ops,
            reply,
        ),
        Call::ManifestDelete { repo, reference, reply } => {
            &&& ops.len() == 1
            &&& ops[0] is Remove
            &&& ops[0]->Remove_path == reference_file(repo, reference)
            &&& reply == found_reply(ops[0]->Remove_reply)
        },
        Call::ListRepos { reply } => exists|visits: Seq<Visit>| #[trigger]
            repos_listed(ops, visits, reply),
        Call::ListTags { repo, reply } => {
            &&& ops.len() == 1
            &&& ops[0] is FilesIn
            &&& ops[0]->FilesIn_dir == tags_dir(repo)
            &&& match ops[0]->FilesIn_reply {
                Err(e) => if e.missing {
                    reply == Ok::<_, StorageError>(Seq::<Seq<char>>::empty())
                } else {
                    reply is Err && reply->Err_0 == failed(e)
                },
                Ok(names) => {
                    &&& reply is Ok
                    &&& order::rising::<String>(reply->Ok_0)
                    &&& forall|t: Seq<char>| #[trigger]
                        reply->Ok_0.contains(t) <==> names.contains(t) && !unfinished(t)
                },
            }
        },
        Call::ListManifestDigests { repo, reply } => {
            &&& ops.len() == 1
            &&& ops[0] is FilesIn
            &&& ops[0]->FilesIn_dir == digests_dir(repo)
            &&& match ops[0]->FilesIn_reply {
                Err(e) => if e.missing {
                    reply == Ok::<_, StorageError>(Seq::<DigestView>::empty())
                } else {
                    reply is Err && reply->Err_0 == failed(e)
                },
                Ok(names) => {
                    &&& reply is Ok
                    &&& order::rising::<Digest>(reply->Ok_0)
                    &&& forall|d: DigestView| #[trigger]
                        reply->Ok_0.contains(d) <==> some_names(Seq::empty(), names, d)
                },
            }
        },
        Call::ListAllBlobs { reply } => exists|k: int| #[trigger] blobs_listed(ops, k, reply),
    }
}

// ---- The store ------------------------------------------------------------

/// The directories of a tree, the root first.
pub open spec fn layout_dir(k: nat) -> Seq<char> {
    if k == 0 {
        Seq::empty()
    } else if k == 1 {
        "blobs"@
    } else if k == 2 {
        "manifests"@
    } else {
        "uploads"@
    }
}

/// The directories from the one at `k` on are made. That a root that is there cannot be
/// written to is no failure.
pub open spec fn laid_out(k: nat, ops: Seq<FileOp>, r: Result<(), Seq<char>>) -> bool
    decreases 4 - k,
{
    if k >= 4 {
        ops.len() == 0 && r is Ok
    } else {
        &&& ops.len() > 0
        &&& ops[0] is MakeDir
        &&& ops[0]->MakeDir_path == layout_dir(k)
        &&& match ops[0]->MakeDir_reply {
            Ok(_) => laid_out(k + 1, ops.skip(1), r),
            Err(e) => if e.read_only {
                &&& ops.len() > 1
                &&& ops[1] is IsDir
                &&& ops[1]->IsDir_path == layout_dir(0)
                &&& if ops[1]->IsDir_reply {
                    laid_out(k + 1, ops.skip(2), r)
                } else {
                    ops.len() == 2 && r == Err::<(), _>(e.text@)
                }
            } else {
                ops.len() == 1 && r == Err::<(), _>(e.text@)
            },
        }
    }
}

pub open spec fn text_of_problem(r: Result<(), String>) -> Result<(), Seq<char>> {
    match r {
        Ok(_) => Ok(()),
        Err(m) => Err(m@),
    }
}

fn lay_out_from<F: RecordedFiles>(disk: &mut Watched<F>, k: usize) -> (r: Result<(), String>)
    requires
        old(disk).wf(),
        k <= 4,
    ensures
        final(disk).same_call(old(disk)),
        final(disk).ops().len() >= old(disk).ops().len(),
        final(disk).ops().take(old(disk).ops().len() as int) == old(disk).ops(),
        laid_out(
            k as nat,
            final(disk).ops().skip(old(disk).ops().len() as int),
            text_of_problem(r),
        ),
    decreases 4 - k,
{
    let ghost was = disk.ops();
    let ghost n = was.len() as int;
    if k == 4 {
        assert(disk.ops().take(n) =~= was);
        return Ok(());
    }
    let dir: &str = if k == 0 {
        ""
    } else if k == 1 {
        "blobs"
    } else if k == 2 {
        "manifests"
    } else {
        "uploads"
    };
    proof {
        reveal_strlit("");
        assert(""@ =~= Seq::<char>::empty());
    }
    let made = disk.make_dir(dir);
    let ghost one = disk.ops();
    assert(one.take(n) =~= was);
    match made {
        Ok(_) => {
            let r = lay_out_from(disk, k + 1);
            proof {
                let all = disk.ops();
                assert(all.take(n) =~= all.take(n + 1).take(n));
                assert(all.skip(n).skip(1) =~= all.skip(n + 1));
                assert(all.skip(n)[0] == all.take(n + 1)[n]);
            }
            r
        },
        Err(e) => {
            if e.read_only {
                let there: bool = disk.is_dir("");
                let ghost two = disk.ops();
                assert(two.take(n) =~= was);
                if there {
                    let r = lay_out_from(disk, k + 1);
                    proof {
                        let all = disk.ops();
                        assert(all.take(n) =~= all.take(n + 2).take(n));
                        assert(all.skip(n).skip(2) =~= all.skip(n + 2));
                        assert(all.skip(n)[0] == all.take(n + 2)[n]);
                        assert(all.skip(n)[1] == all.take(n + 2)[n + 1]);
                    }
                    return r;
                }
                assert(two.skip(n)[0] == one[n]);
            }
            Err(e.text)
        },
    }
}

/// Makes the directories of a tree.
pub fn lay_out<F: RecordedFiles>(disk: &mut Watched<F>) -> (r: Result<(), String>)
    requires
        old(disk).wf(),
    ensures
        final(disk).same_call(old(disk)),
        final(disk).ops().len() >= old(disk).ops().len(),
        final(disk).ops().take(old(disk).ops().len() as int) == old(disk).ops(),
        laid_out(0, final(disk).ops().skip(old(disk).ops().len() as int), text_of_problem(r)),
{
    lay_out_from(disk, 0)
}

/// Making the directories can fail like this.
pub open spec fn can_fail(problem: Seq<char>) -> bool {
    exists|ops: Seq<FileOp>| #[trigger] laid_out(0, ops, Err::<(), Seq<char>>(problem))
}

/// A store in a directory tree.
pub struct FsStorage<F> {
    pub root: String,
    pub disk: Watched<F>,
    /// The operations that made its directories.
    pub opening: Ghost<Seq<FileOp>>,
    /// The calls so far with their answers, oldest first.
    pub calls: Ghost<Seq<Call>>,
    /// The operations that carried out each of them.
    pub deeds: Ghost<Seq<Seq<FileOp>>>,
}

impl<F: RecordedFiles> FsStorage<F> {
    /// Every call was carried out.
    pub open spec fn kept(&self) -> bool {
        &&& self.disk.wf()
        &&& self.disk.ops().len() == 0
        &&& self.deeds@.len() == self.calls@.len()
        &&& forall|i: int|
            0 <= i < self.calls@.len() ==> carried_out(#[trigger] self.calls@[i], self.deeds@[i])
    }

    /// One more call was carried out, by what was done to the tree since.
    pub open spec fn did(&self, was: &FsStorage<F>) -> bool {
        &&& self.root == was.root
        &&& self.opening == was.opening
        &&& self.deeds@.len() == was.deeds@.len() + 1
        &&& self.deeds@.drop_last() == was.deeds@
        &&& self.disk.files.log() == was.disk.files.log() + self.deeds@.last()
    }

    /// A store in a tree whose directories are there.
    pub fn over(root: String, files: F) -> (r: FsStorage<F>)
        ensures
            r.root == root,
            r.disk.files == files,
            r.kept(),
            r.calls@.len() == 0,
    {
        FsStorage {
            root,
            disk: Watched::new(files),
            opening: Ghost(Seq::empty()),
            calls: Ghost(Seq::empty()),
            deeds: Ghost(Seq::empty()),
        }
    }

    pub fn root(&self) -> (r: &str)
        ensures
            r@ == self.root@,
    {
        self.root.as_str()
    }

    /// Nothing but the operations on the files has changed.
    spec fn working(&self, was: &FsStorage<F>) -> bool {
        &&& self.root == was.root
        &&& self.opening == was.opening
        &&& self.calls == was.calls
        &&& self.deeds == was.deeds
        &&& self.disk.same_call(&was.disk)
    }

    /// Notes that the operations since the last call carried out this one.
    fn note(&mut self, was: Ghost<FsStorage<F>>, call: Ghost<Call>)
        requires
            was@.kept(),
            old(self).working(&was@),
            carried_out(call@, old(self).disk.ops()),
        ensures
            final(self).kept(),
            final(self).calls@ == was@.calls@.push(call@),
            final(self).did(&was@),
    {
        self.calls = Ghost(self.calls@.push(call@));
        self.deeds = Ghost(self.deeds@.push(self.disk.ops()));
        self.disk.start = Ghost(self.disk.files.log().len());
        proof {
            let log = self.disk.files.log();
            assert(log.skip(log.len() as int) =~= Seq::empty());
            assert(log =~= old(self).disk.before() + old(self).disk.ops());
            assert(was@.disk.before() =~= was@.disk.files.log());
            assert(self.deeds@.drop_last() =~= was@.deeds@);
        }
    }
}

impl<F: RecordedFiles> FsStorage<F> {
    /// Opens a store: makes its directories. A tree that cannot be written to is opened
    /// as it is.
    pub fn new(root: String, files: F) -> (r: Result<FsStorage<F>, String>)
        ensures
            match r {
                Ok(s) => {
                    &&& s.root == root
                    &&& s.kept()
                    &&& s.calls@.len() == 0
                    &&& laid_out(0, s.opening@, Ok::<(), Seq<char>>(()))
                    &&& s.disk.files.log() == files.log() + s.opening@
                },
                Err(m) => can_fail(m@),
            },
    {
        let mut disk = Watched::new(files);
        let made = lay_out(&mut disk);
        let ghost ops = disk.ops().skip(0);
        match made {
            Err(m) => {
                assert(laid_out(0, ops, Err::<(), Seq<char>>(m@)));
                Err(m)
            },
            Ok(_) => {
                let mut s = FsStorage::over(root, disk.files);
                s.opening = Ghost(ops);
                assert(s.disk.files.log() =~= files.log() + ops);
                Ok(s)
            },
        }
    }
}

impl<F: RecordedFiles> Storage for FsStorage<F> {
    type Origin = ();

    open spec fn origin(&self) -> () {
        ()
    }

    open spec fn log(&self) -> Seq<Call> {
        self.calls@
    }

    open spec fn wf(&self) -> bool {
        self.kept()
    }

    fn blob_exists(&mut self, repo: &str, digest: &Digest) -> (r: Result<bool, StorageError>)
        ensures
            final(self).did(old(self)),
    {
        let ghost was = *self;
        let r = if text::chars_of(digest.hex.as_str()).len() < 2 {
            Err(no_place())
        } else {
            match self.disk.has(blob_path(digest).as_str()) {
                Ok(x) => Ok(x),
                Err(e) => Err(StorageError::Io(e.text)),
            }
        };
        self.note(Ghost(was), Ghost(Call::BlobExists { repo: repo@, digest: digest@, reply: r }));
        r
    }

    fn blob_size(&mut self, repo: &str, digest: &Digest) -> (r: Result<u64, StorageError>)
        ensures
            final(self).did(old(self)),
    {
        let ghost was = *self;
        let r = if text::chars_of(digest.hex.as_str()).len() < 2 {
            Err(no_place())
        } else {
            match self.disk.size(blob_path(digest).as_str()) {
                Ok(n) => Ok(n),
                Err(e) => Err(io_to_storage(e)),
            }
        };
        self.note(Ghost(was), Ghost(Call::BlobSize { repo: repo@, digest: digest@, reply: r }));
        r
    }

    fn blob_read(&mut self, repo: &str, digest: &Digest) -> (r: Result<Vec<u8>, StorageError>)
        ensures
            final(self).did(old(self)),
    {
        let ghost was = *self;
        let r = if text::chars_of(digest.hex.as_str()).len() < 2 {
            Err(no_place())
        } else {
            match self.disk.read(blob_path(digest).as_str()) {
                Ok(v) => Ok(v),
                Err(e) => Err(io_to_storage(e)),
            }
        };
        self.note(
            Ghost(was),
            Ghost(
                Call::BlobRead { repo: repo@, digest: digest@, reply: storage::bytes_reply(r) },
            ),
        );
        r
    }

    fn blob_write(&mut self, repo: &str, expected: &Digest, content: &[u8]) -> (r: Result<
        (),
        StorageError,
    >)
        ensures
            final(self).did(old(self)),
    {
        let ghost was = *self;
        let actual = digest::hash_content(expected.algorithm, content);
        let r = if !actual.same(expected) {
            Err(StorageError::DigestMismatch { expected: expected.dup(), got: actual })
        } else {
            match self.disk.replace(blob_path(expected).as_str(), content) {
                Ok(_) => Ok(()),
                Err(e) => Err(StorageError::Io(e.text)),
            }
        };
        self.note(
            Ghost(was),
            Ghost(
                Call::BlobWrite { repo: repo@, digest: expected@, content: content@, reply: r },
            ),
        );
        r
    }

    fn blob_delete(&mut self, repo: &str, digest: &Digest) -> (r: Result<(), StorageError>)
        ensures
            final(self).did(old(self)),
    {
        let ghost was = *self;
        let r = if text::chars_of(digest.hex.as_str()).len() < 2 {
            Err(no_place())
        } else {
            match self.disk.remove(blob_path(digest).as_str()) {
                Ok(_) => Ok(()),
                Err(e) => Err(io_to_storage(e)),
            }
        };
        self.note(Ghost(was), Ghost(Call::BlobDelete { repo: repo@, digest: digest@, reply: r }));
        r
    }

    fn upload_create(&mut self, repo: &str) -> (r: Result<UploadStatus, StorageError>)
        ensures
            final(self).did(old(self)),
    {
        let ghost was = *self;
        let id: u128 = outside::uuid_random();
        let r = match self.disk.create(upload_path(id).as_str()) {
            Ok(_) => Ok(UploadStatus { id, offset: 0 }),
            Err(e) => Err(StorageError::Io(e.text)),
        };
        assert(self.disk.ops()[0]->Create_path == upload_file(id));
        self.note(Ghost(was), Ghost(Call::UploadCreate { repo: repo@, reply: r }));
        r
    }

    fn upload_status(&mut self, repo: &str, id: u128) -> (r: Result<UploadStatus, StorageError>)
        ensures
            final(self).did(old(self)),
    {
        let ghost was = *self;
        let r = match self.disk.size(upload_path(id).as_str()) {
            Ok(n) => Ok(UploadStatus { id, offset: n }),
            Err(e) => Err(io_to_storage(e)),
        };
        self.note(Ghost(was), Ghost(Call::UploadState { repo: repo@, id, reply: r }));
        r
    }

    fn upload_append(&mut self, repo: &str, id: u128, chunk: &[u8]) -> (r: Result<
        UploadStatus,
        StorageError,
    >)
        ensures
            final(self).did(old(self)),
    {
        let ghost was = *self;
        let r = match self.disk.append(upload_path(id).as_str(), chunk) {
            Ok(n) => Ok(UploadStatus { id, offset: n }),
            Err(e) => Err(io_to_storage(e)),
        };
        self.note(Ghost(was), Ghost(Call::UploadAppend { repo: repo@, id, chunk: chunk@, reply: r }));
        r
    }

    fn upload_finalize(&mut self, repo: &str, id: u128, expected: &Digest) -> (r: Result<
        (),
        StorageError,
    >)
        ensures
            final(self).did(old(self)),
    {
        let ghost was = *self;
        let r = self.finalize(id, expected);
        self.note(Ghost(was), Ghost(Call::UploadFinalize { repo: repo@, id, digest: expected@, reply: r }));
        r
    }

    fn upload_cancel(&mut self, repo: &str, id: u128) -> (r: Result<(), StorageError>)
        ensures
            final(self).did(old(self)),
    {
        let ghost was = *self;
        let r = match self.disk.remove(upload_path(id).as_str()) {
            Ok(_) => Ok(()),
            Err(e) => Err(io_to_storage(e)),
        };
        self.note(Ghost(was), Ghost(Call::UploadCancel { repo: repo@, id, reply: r }));
        r
    }

    fn manifest_get(&mut self, repo: &str, reference: &Reference) -> (r: Result<
        StoredManifest,
        StorageError,
    >)
        ensures
            final(self).did(old(self)),
    {
        let ghost was = *self;
        let r = match reference {
            Reference::Digest(d) => self.read_manifest(repo, d),
            Reference::Tag(t) => self.follow_tag(repo, t.as_str()),
        };
        proof {
            assert(self.disk.ops().skip(0) =~= self.disk.ops());
        }
        self.note(
            Ghost(was),
            Ghost(
                Call::ManifestGet {
                    repo: repo@,
                    reference: reference@,
                    reply: storage::manifest_reply(r),
                },
            ),
        );
        r
    }

    fn manifest_put(&mut self, repo: &str, reference: &Reference, content: &[u8]) -> (r: Result<
        Digest,
        StorageError,
    >)
        ensures
            final(self).did(old(self)),
    {
        let ghost was = *self;
        let r = self.store_manifest(repo, reference, content);
        self.note(
            Ghost(was),
            Ghost(
                Call::ManifestPut {
                    repo: repo@,
                    reference: reference@,
                    content: content@,
                    reply: storage::digest_reply(r),
                },
            ),
        );
        r
    }

    fn manifest_delete(&mut self, repo: &str, reference: &Reference) -> (r: Result<
        (),
        StorageError,
    >)
        ensures
            final(self).did(old(self)),
    {
        let ghost was = *self;
        let path = match reference {
            Reference::Digest(d) => manifest_digest_path(repo, d),
            Reference::Tag(t) => manifest_tag_path(repo, t.as_str()),
        };
        let r = match self.disk.remove(path.as_str()) {
            Ok(_) => Ok(()),
            Err(e) => Err(io_to_storage(e)),
        };
        self.note(Ghost(was), Ghost(Call::ManifestDelete { repo: repo@, reference: reference@, reply: r }));
        r
    }

    fn list_repos(&mut self) -> (r: Result<Vec<String>, StorageError>)
        ensures
            final(self).did(old(self)),
    {
        let ghost was = *self;
        let r = walk_repos(&mut self.disk);
        self.note(Ghost(was), Ghost(Call::ListRepos { reply: storage::list_reply(r) }));
        r
    }

    fn list_tags(&mut self, repo: &str) -> (r: Result<Vec<String>, StorageError>)
        ensures
            final(self).did(old(self)),
    {
        let ghost was = *self;
        let r = match self.disk.files_in(tags_path(repo).as_str()) {
            Ok(names) => Ok(tags_among(&names)),
            Err(e) => if e.missing {
                let none: Vec<String> = Vec::new();
                assert(order::views_of(none@) =~= Seq::<Seq<char>>::empty());
                Ok(none)
            } else {
                Err(StorageError::Io(e.text))
            },
        };
        self.note(Ghost(was), Ghost(Call::ListTags { repo: repo@, reply: storage::list_reply(r) }));
        r
    }

    fn list_manifest_digests(&mut self, repo: &str) -> (r: Result<Vec<Digest>, StorageError>)
        ensures
            final(self).did(old(self)),
    {
        let ghost was = *self;
        let r = match self.disk.files_in(digests_path(repo).as_str()) {
            Ok(names) => Ok(manifests_among(&names)),
            Err(e) => if e.missing {
                let none: Vec<Digest> = Vec::new();
                assert(order::views_of(none@) =~= Seq::<DigestView>::empty());
                Ok(none)
            } else {
                Err(StorageError::Io(e.text))
            },
        };
        self.note(Ghost(was), Ghost(Call::ListManifestDigests { repo: repo@, reply: storage::list_reply(r) }));
        r
    }

    fn list_all_blobs(&mut self) -> (r: Result<Vec<Digest>, StorageError>)
        ensures
            final(self).did(old(self)),
    {
        let ghost was = *self;
        let r = list_blobs(&mut self.disk);
        self.note(Ghost(was), Ghost(Call::ListAllBlobs { reply: storage::list_reply(r) }));
        r
    }
}

/// Gathers the blobs of both algorithms.
fn list_blobs<F: RecordedFiles>(disk: &mut Watched<F>) -> (r: Result<Vec<Digest>, StorageError>)
    requires
        old(disk).wf(),
        old(disk).ops().len() == 0,
    ensures
        final(disk).same_call(old(disk)),
        exists|k: int| #[trigger] blobs_listed(final(disk).ops(), k, storage::list_reply(r)),
{
    let mut set: SortedSet<Digest> = SortedSet::new();
    let first = gather_blobs(disk, Algorithm::Sha256, "sha256:", &mut set);
    let ghost k = disk.ops().len() as int;
    let ghost a = disk.ops();
    proof {
        assert(a.skip(0) =~= a);
        assert(a.take(k) =~= a);
    }
    if let Err(e) = first {
        let r: Result<Vec<Digest>, StorageError> = Err(StorageError::Io(e.text));
        assert(blobs_listed(disk.ops(), k, storage::list_reply(r)));
        return r;
    }
    let second = gather_blobs(disk, Algorithm::Sha512, "sha512:", &mut set);
    if let Err(e) = second {
        let r: Result<Vec<Digest>, StorageError> = Err(StorageError::Io(e.text));
        assert(blobs_listed(disk.ops(), k, storage::list_reply(r)));
        return r;
    }
    let r: Result<Vec<Digest>, StorageError> = Ok(set.items);
    proof {
        assert forall|d: DigestView| #[trigger] order::views_of(set.items@).contains(
            d,
        ) <==> set@.contains(d) by {
        }
        assert(blobs_listed(disk.ops(), k, storage::list_reply(r)));
    }
    r
}

impl<F: RecordedFiles> FsStorage<F> {
    fn finalize(&mut self, id: u128, expected: &Digest) -> (r: Result<(), StorageError>)
        requires
            old(self).kept(),
        ensures
            final(self).working(old(self)),
            finalized(id, expected@, final(self).disk.ops(), r),
    {
        let from = upload_path(id);
        let content = match self.disk.read(from.as_str()) {
            Ok(v) => v,
            Err(e) => return Err(io_to_storage(e)),
        };
        let actual = digest::hash_content(expected.algorithm, content.as_slice());
        if !actual.same(expected) {
            return Err(StorageError::DigestMismatch { expected: expected.dup(), got: actual });
        }
        match self.disk.make_dir(shelf_path(expected).as_str()) {
            Ok(_) => {},
            Err(e) => return Err(StorageError::Io(e.text)),
        }
        let to = blob_path(expected);
        // The two may be on different file systems.
        if self.disk.rename(from.as_str(), to.as_str()).is_err() {
            match self.disk.replace(to.as_str(), content.as_slice()) {
                Ok(_) => {},
                Err(e) => return Err(StorageError::Io(e.text)),
            }
            let _ = self.disk.remove(from.as_str());
        }
        Ok(())
    }

    fn read_manifest(&mut self, repo: &str, d: &Digest) -> (r: Result<StoredManifest, StorageError>)
        requires
            old(self).disk.wf(),
        ensures
            final(self).working(old(self)),
            final(self).disk.ops().len() >= old(self).disk.ops().len(),
            final(self).disk.ops().take(old(self).disk.ops().len() as int) == old(self).disk.ops(),
            manifest_read(
                digest_file(repo@, d@),
                final(self).disk.ops().skip(old(self).disk.ops().len() as int),
                storage::manifest_reply(r),
            ),
    {
        let ghost was = self.disk.ops();
        let content = match self.disk.read(manifest_digest_path(repo, d).as_str()) {
            Ok(v) => v,
            Err(e) => {
                assert(self.disk.ops().take(was.len() as int) =~= was);
                return Err(io_to_storage(e));
            },
        };
        let refs = self.disk.manifest(content.as_slice());
        assert(self.disk.ops().take(was.len() as int) =~= was);
        Ok(StoredManifest { content, refs })
    }

    fn follow_tag(&mut self, repo: &str, tag: &str) -> (r: Result<StoredManifest, StorageError>)
        requires
            old(self).kept(),
        ensures
            final(self).working(old(self)),
            tag_followed(repo@, tag@, final(self).disk.ops(), storage::manifest_reply(r)),
    {
        let content = match self.disk.read(manifest_tag_path(repo, tag).as_str()) {
            Ok(v) => v,
            Err(e) => return Err(io_to_storage(e)),
        };
        let ghost first = self.disk.ops();
        let pointer = match outside::utf8_text(content) {
            Some(s) => s,
            None => return Err(
                StorageError::Io("stream did not contain valid UTF-8".to_owned()),
            ),
        };
        let d = match tag_target(pointer.as_str()) {
            Ok(d) => d,
            Err(e) => return Err(e),
        };
        let r = self.read_manifest(repo, &d);
        assert(self.disk.ops()[0] == self.disk.ops().take(1)[0]);
        r
    }

    fn store_manifest(&mut self, repo: &str, reference: &Reference, content: &[u8]) -> (r: Result<
        Digest,
        StorageError,
    >)
        requires
            old(self).kept(),
        ensures
            final(self).working(old(self)),
            manifest_stored(
                repo@,
                reference@,
                content@,
                final(self).disk.ops(),
                storage::digest_reply(r),
            ),
    {
        let d = digest::sha256_digest(content);
        match self.disk.replace(manifest_digest_path(repo, &d).as_str(), content) {
            Ok(_) => {},
            Err(e) => return Err(StorageError::Io(e.text)),
        }
        if let Reference::Tag(t) = reference {
            let name = d.to_string();
            let pointer = name.as_str().as_bytes_vec();
            match self.disk.replace(
                manifest_tag_path(repo, t.as_str()).as_str(),
                pointer.as_slice(),
            ) {
                Ok(_) => {},
                Err(e) => return Err(StorageError::Io(e.text)),
            }
        }
        Ok(d)
    }
}

} // verus!
