//! Files.
//!
//! `Files` is what a store in a directory tree asks of it. Nothing is assumed of what it
//! answers. `Recorded` adds a record of the operations and their answers, of which the
//! contracts of `RecordedFiles` speak; `Watched` tells those of one call from those
//! before it.
//!
//! A path is relative to the root of the tree, with `/` between its components.

use vstd::prelude::*;

use crate::manifest::Manifest;
use crate::text;

verus! {

/// Why an operation failed.
#[derive(Debug, Clone)]
pub struct FileError {
    /// There is no such file or directory.
    pub missing: bool,
    /// The tree cannot be written to.
    pub read_only: bool,
    pub text: String,
}

/// A directory tree.
pub trait Files: Sized {
    /// Makes a directory and those above it. The empty path is the root.
    fn make_dir(&mut self, path: &str) -> (r: Result<(), FileError>);

    /// Whether there is a directory.
    fn is_dir(&mut self, path: &str) -> (r: bool);

    /// Whether there is a file.
    fn has(&mut self, path: &str) -> (r: Result<bool, FileError>);

    /// The length of a file.
    fn size(&mut self, path: &str) -> (r: Result<u64, FileError>);

    /// The content of a file.
    fn read(&mut self, path: &str) -> (r: Result<Vec<u8>, FileError>);

    /// Puts a file in place in one step, with the directories above it.
    fn replace(&mut self, path: &str, content: &[u8]) -> (r: Result<(), FileError>);

    /// Makes an empty file, with the directories above it.
    fn create(&mut self, path: &str) -> (r: Result<(), FileError>);

    /// Adds to a file that is there, and gives its length then.
    fn append(&mut self, path: &str, chunk: &[u8]) -> (r: Result<u64, FileError>);

    /// Moves a file.
    fn rename(&mut self, from: &str, to: &str) -> (r: Result<(), FileError>);

    /// Removes a file.
    fn remove(&mut self, path: &str) -> (r: Result<(), FileError>);

    /// The names of the files in a directory.
    fn files_in(&mut self, dir: &str) -> (r: Result<Vec<String>, FileError>);

    /// The names of the directories in a directory.
    fn dirs_in(&mut self, dir: &str) -> (r: Result<Vec<String>, FileError>);

    /// What the bytes of a manifest reference, where they read as one.
    fn manifest(&mut self, content: &[u8]) -> (r: Option<Manifest>);
}

/// One operation, with its answer.
#[allow(inconsistent_fields)]
pub enum FileOp {
    MakeDir { path: Seq<char>, reply: Result<(), FileError> },
    IsDir { path: Seq<char>, reply: bool },
    Has { path: Seq<char>, reply: Result<bool, FileError> },
    Size { path: Seq<char>, reply: Result<u64, FileError> },
    Read { path: Seq<char>, reply: Result<Seq<u8>, FileError> },
    Replace { path: Seq<char>, content: Seq<u8>, reply: Result<(), FileError> },
    Create { path: Seq<char>, reply: Result<(), FileError> },
    Append { path: Seq<char>, chunk: Seq<u8>, reply: Result<u64, FileError> },
    Rename { from: Seq<char>, to: Seq<char>, reply: Result<(), FileError> },
    Remove { path: Seq<char>, reply: Result<(), FileError> },
    FilesIn { dir: Seq<char>, reply: Result<Seq<Seq<char>>, FileError> },
    DirsIn { dir: Seq<char>, reply: Result<Seq<Seq<char>>, FileError> },
    Manifest { content: Seq<u8>, reply: Option<Manifest> },
}

pub open spec fn bytes_in(r: Result<Vec<u8>, FileError>) -> Result<Seq<u8>, FileError> {
    match r {
        Ok(v) => Ok(v@),
        Err(e) => Err(e),
    }
}

pub open spec fn names_in(r: Result<Vec<String>, FileError>) -> Result<Seq<Seq<char>>, FileError> {
    match r {
        Ok(v) => Ok(text::views(v@)),
        Err(e) => Err(e),
    }
}

/// A directory tree that keeps a record of what was asked of it.
pub trait RecordedFiles: Sized {
    /// The operations so far, with their answers, oldest first.
    spec fn log(&self) -> Seq<FileOp>;

    fn make_dir(&mut self, path: &str) -> (r: Result<(), FileError>)
        ensures
            final(self).log() == old(self).log().push(FileOp::MakeDir { path: path@, reply: r }),
    ;

    fn is_dir(&mut self, path: &str) -> (r: bool)
        ensures
            final(self).log() == old(self).log().push(FileOp::IsDir { path: path@, reply: r }),
    ;

    fn has(&mut self, path: &str) -> (r: Result<bool, FileError>)
        ensures
            final(self).log() == old(self).log().push(FileOp::Has { path: path@, reply: r }),
    ;

    fn size(&mut self, path: &str) -> (r: Result<u64, FileError>)
        ensures
            final(self).log() == old(self).log().push(FileOp::Size { path: path@, reply: r }),
    ;

    fn read(&mut self, path: &str) -> (r: Result<Vec<u8>, FileError>)
        ensures
            final(self).log() == old(self).log().push(FileOp::Read { path: path@, reply: bytes_in(r) }),
    ;

    fn replace(&mut self, path: &str, content: &[u8]) -> (r: Result<(), FileError>)
        ensures
            final(self).log() == old(self).log().push(FileOp::Replace { path: path@, content: content@, reply: r }),
    ;

    fn create(&mut self, path: &str) -> (r: Result<(), FileError>)
        ensures
            final(self).log() == old(self).log().push(FileOp::Create { path: path@, reply: r }),
    ;

    fn append(&mut self, path: &str, chunk: &[u8]) -> (r: Result<u64, FileError>)
        ensures
            final(self).log() == old(self).log().push(FileOp::Append { path: path@, chunk: chunk@, reply: r }),
    ;

    fn rename(&mut self, from: &str, to: &str) -> (r: Result<(), FileError>)
        ensures
            final(self).log() == old(self).log().push(FileOp::Rename { from: from@, to: to@, reply: r }),
    ;

    fn remove(&mut self, path: &str) -> (r: Result<(), FileError>)
        ensures
            final(self).log() == old(self).log().push(FileOp::Remove { path: path@, reply: r }),
    ;

    fn files_in(&mut self, dir: &str) -> (r: Result<Vec<String>, FileError>)
        ensures
            final(self).log() == old(self).log().push(FileOp::FilesIn { dir: dir@, reply: names_in(r) }),
    ;

    fn dirs_in(&mut self, dir: &str) -> (r: Result<Vec<String>, FileError>)
        ensures
            final(self).log() == old(self).log().push(FileOp::DirsIn { dir: dir@, reply: names_in(r) }),
    ;

    fn manifest(&mut self, content: &[u8]) -> (r: Option<Manifest>)
        ensures
            final(self).log() == old(self).log().push(FileOp::Manifest { content: content@, reply: r }),
    ;
}

/// Any directory tree, with a record.
pub struct Recorded<F> {
    pub files: F,
    pub record: Ghost<Seq<FileOp>>,
}

impl<F> Recorded<F> {
    pub fn new(files: F) -> (r: Recorded<F>)
        ensures
            r.files == files,
            r.record@ == Seq::<FileOp>::empty(),
    {
        Recorded { files, record: Ghost(Seq::empty()) }
    }
}

impl<F: Files> RecordedFiles for Recorded<F> {
    open spec fn log(&self) -> Seq<FileOp> {
        self.record@
    }

    fn make_dir(&mut self, path: &str) -> (r: Result<(), FileError>) {
        let r = self.files.make_dir(path);
        self.record = Ghost(self.record@.push(FileOp::MakeDir { path: path@, reply: r }));
        r
    }

    fn is_dir(&mut self, path: &str) -> (r: bool) {
        let r = self.files.is_dir(path);
        self.record = Ghost(self.record@.push(FileOp::IsDir { path: path@, reply: r }));
        r
    }

    fn has(&mut self, path: &str) -> (r: Result<bool, FileError>) {
        let r = self.files.has(path);
        self.record = Ghost(self.record@.push(FileOp::Has { path: path@, reply: r }));
        r
    }

    fn size(&mut self, path: &str) -> (r: Result<u64, FileError>) {
        let r = self.files.size(path);
        self.record = Ghost(self.record@.push(FileOp::Size { path: path@, reply: r }));
        r
    }

    fn read(&mut self, path: &str) -> (r: Result<Vec<u8>, FileError>) {
        let r = self.files.read(path);
        self.record = Ghost(self.record@.push(FileOp::Read { path: path@, reply: bytes_in(r) }));
        r
    }

    fn replace(&mut self, path: &str, content: &[u8]) -> (r: Result<(), FileError>) {
        let r = self.files.replace(path, content);
        self.record = Ghost(self.record@.push(FileOp::Replace { path: path@, content: content@, reply: r }));
        r
    }

    fn create(&mut self, path: &str) -> (r: Result<(), FileError>) {
        let r = self.files.create(path);
        self.record = Ghost(self.record@.push(FileOp::Create { path: path@, reply: r }));
        r
    }

    fn append(&mut self, path: &str, chunk: &[u8]) -> (r: Result<u64, FileError>) {
        let r = self.files.append(path, chunk);
        self.record = Ghost(self.record@.push(FileOp::Append { path: path@, chunk: chunk@, reply: r }));
        r
    }

    fn rename(&mut self, from: &str, to: &str) -> (r: Result<(), FileError>) {
        let r = self.files.rename(from, to);
        self.record = Ghost(self.record@.push(FileOp::Rename { from: from@, to: to@, reply: r }));
        r
    }

    fn remove(&mut self, path: &str) -> (r: Result<(), FileError>) {
        let r = self.files.remove(path);
        self.record = Ghost(self.record@.push(FileOp::Remove { path: path@, reply: r }));
        r
    }

    fn files_in(&mut self, dir: &str) -> (r: Result<Vec<String>, FileError>) {
        let r = self.files.files_in(dir);
        self.record = Ghost(self.record@.push(FileOp::FilesIn { dir: dir@, reply: names_in(r) }));
        r
    }

    fn dirs_in(&mut self, dir: &str) -> (r: Result<Vec<String>, FileError>) {
        let r = self.files.dirs_in(dir);
        self.record = Ghost(self.record@.push(FileOp::DirsIn { dir: dir@, reply: names_in(r) }));
        r
    }

    fn manifest(&mut self, content: &[u8]) -> (r: Option<Manifest>) {
        let r = self.files.manifest(content);
        self.record = Ghost(self.record@.push(FileOp::Manifest { content: content@, reply: r }));
        r
    }
}

/// A directory tree, and how many operations were on its record when the call began
/// that is being carried out.
pub struct Watched<F> {
    pub files: F,
    pub start: Ghost<nat>,
}

impl<F: RecordedFiles> Watched<F> {
    pub open spec fn wf(&self) -> bool {
        self.start@ <= self.files.log().len()
    }

    /// The operations before the call.
    pub open spec fn before(&self) -> Seq<FileOp> {
        self.files.log().take(self.start@ as int)
    }

    /// The operations since then.
    pub open spec fn ops(&self) -> Seq<FileOp> {
        self.files.log().skip(self.start@ as int)
    }

    /// The same call is being carried out.
    pub open spec fn same_call(&self, was: &Watched<F>) -> bool {
        self.wf() && self.start == was.start && self.before() == was.before()
    }

    pub fn new(files: F) -> (r: Watched<F>)
        ensures
            r.wf(),
            r.files == files,
            r.ops() == Seq::<FileOp>::empty(),
            r.before() == files.log(),
    {
        let r = Watched { files, start: Ghost(files.log().len()) };
        assert(r.ops() =~= Seq::<FileOp>::empty());
        assert(r.before() =~= files.log());
        r
    }

    proof fn lemma_push(was: Seq<FileOp>, op: FileOp, n: int)
        requires
            0 <= n <= was.len(),
        ensures
            was.push(op).take(n) == was.take(n),
            was.push(op).skip(n) == was.skip(n).push(op),
    {
        assert(was.push(op).take(n) =~= was.take(n));
        assert(was.push(op).skip(n) =~= was.skip(n).push(op));
    }

    pub fn make_dir(&mut self, path: &str) -> (r: Result<(), FileError>)
        requires
            old(self).wf(),
        ensures
            final(self).same_call(old(self)),
            final(self).ops() == old(self).ops().push(FileOp::MakeDir { path: path@, reply: r }),
    {
        let ghost was = self.files.log();
        let r = self.files.make_dir(path);
        proof {
            Self::lemma_push(was, FileOp::MakeDir { path: path@, reply: r }, self.start@ as int);
        }
        r
    }

    pub fn is_dir(&mut self, path: &str) -> (r: bool)
        requires
            old(self).wf(),
        ensures
            final(self).same_call(old(self)),
            final(self).ops() == old(self).ops().push(FileOp::IsDir { path: path@, reply: r }),
    {
        let ghost was = self.files.log();
        let r = self.files.is_dir(path);
        proof {
            Self::lemma_push(was, FileOp::IsDir { path: path@, reply: r }, self.start@ as int);
        }
        r
    }

    pub fn has(&mut self, path: &str) -> (r: Result<bool, FileError>)
        requires
            old(self).wf(),
        ensures
            final(self).same_call(old(self)),
            final(self).ops() == old(self).ops().push(FileOp::Has { path: path@, reply: r }),
    {
        let ghost was = self.files.log();
        let r = self.files.has(path);
        proof {
            Self::lemma_push(was, FileOp::Has { path: path@, reply: r }, self.start@ as int);
        }
        r
    }

    pub fn size(&mut self, path: &str) -> (r: Result<u64, FileError>)
        requires
            old(self).wf(),
        ensures
            final(self).same_call(old(self)),
            final(self).ops() == old(self).ops().push(FileOp::Size { path: path@, reply: r }),
    {
        let ghost was = self.files.log();
        let r = self.files.size(path);
        proof {
            Self::lemma_push(was, FileOp::Size { path: path@, reply: r }, self.start@ as int);
        }
        r
    }

    pub fn read(&mut self, path: &str) -> (r: Result<Vec<u8>, FileError>)
        requires
            old(self).wf(),
        ensures
            final(self).same_call(old(self)),
            final(self).ops() == old(self).ops().push(FileOp::Read { path: path@, reply: bytes_in(r) }),
    {
        let ghost was = self.files.log();
        let r = self.files.read(path);
        proof {
            Self::lemma_push(was, FileOp::Read { path: path@, reply: bytes_in(r) }, self.start@ as int);
        }
        r
    }

    pub fn replace(&mut self, path: &str, content: &[u8]) -> (r: Result<(), FileError>)
        requires
            old(self).wf(),
        ensures
            final(self).same_call(old(self)),
            final(self).ops() == old(self).ops().push(FileOp::Replace { path: path@, content: content@, reply: r }),
    {
        let ghost was = self.files.log();
        let r = self.files.replace(path, content);
        proof {
            Self::lemma_push(was, FileOp::Replace { path: path@, content: content@, reply: r }, self.start@ as int);
        }
        r
    }

    pub fn create(&mut self, path: &str) -> (r: Result<(), FileError>)
        requires
            old(self).wf(),
        ensures
            final(self).same_call(old(self)),
            final(self).ops() == old(self).ops().push(FileOp::Create { path: path@, reply: r }),
    {
        let ghost was = self.files.log();
        let r = self.files.create(path);
        proof {
            Self::lemma_push(was, FileOp::Create { path: path@, reply: r }, self.start@ as int);
        }
        r
    }

    pub fn append(&mut self, path: &str, chunk: &[u8]) -> (r: Result<u64, FileError>)
        requires
            old(self).wf(),
        ensures
            final(self).same_call(old(self)),
            final(self).ops() == old(self).ops().push(FileOp::Append { path: path@, chunk: chunk@, reply: r }),
    {
        let ghost was = self.files.log();
        let r = self.files.append(path, chunk);
        proof {
            Self::lemma_push(was, FileOp::Append { path: path@, chunk: chunk@, reply: r }, self.start@ as int);
        }
        r
    }

    pub fn rename(&mut self, from: &str, to: &str) -> (r: Result<(), FileError>)
        requires
            old(self).wf(),
        ensures
            final(self).same_call(old(self)),
            final(self).ops() == old(self).ops().push(FileOp::Rename { from: from@, to: to@, reply: r }),
    {
        let ghost was = self.files.log();
        let r = self.files.rename(from, to);
        proof {
            Self::lemma_push(was, FileOp::Rename { from: from@, to: to@, reply: r }, self.start@ as int);
        }
        r
    }

    pub fn remove(&mut self, path: &str) -> (r: Result<(), FileError>)
        requires
            old(self).wf(),
        ensures
            final(self).same_call(old(self)),
            final(self).ops() == old(self).ops().push(FileOp::Remove { path: path@, reply: r }),
    {
        let ghost was = self.files.log();
        let r = self.files.remove(path);
        proof {
            Self::lemma_push(was, FileOp::Remove { path: path@, reply: r }, self.start@ as int);
        }
        r
    }

    pub fn files_in(&mut self, dir: &str) -> (r: Result<Vec<String>, FileError>)
        requires
            old(self).wf(),
        ensures
            final(self).same_call(old(self)),
            final(self).ops() == old(self).ops().push(FileOp::FilesIn { dir: dir@, reply: names_in(r) }),
    {
        let ghost was = self.files.log();
        let r = self.files.files_in(dir);
        proof {
            Self::lemma_push(was, FileOp::FilesIn { dir: dir@, reply: names_in(r) }, self.start@ as int);
        }
        r
    }

    pub fn dirs_in(&mut self, dir: &str) -> (r: Result<Vec<String>, FileError>)
        requires
            old(self).wf(),
        ensures
            final(self).same_call(old(self)),
            final(self).ops() == old(self).ops().push(FileOp::DirsIn { dir: dir@, reply: names_in(r) }),
    {
        let ghost was = self.files.log();
        let r = self.files.dirs_in(dir);
        proof {
            Self::lemma_push(was, FileOp::DirsIn { dir: dir@, reply: names_in(r) }, self.start@ as int);
        }
        r
    }

    pub fn manifest(&mut self, content: &[u8]) -> (r: Option<Manifest>)
        requires
            old(self).wf(),
        ensures
            final(self).same_call(old(self)),
            final(self).ops() == old(self).ops().push(FileOp::Manifest { content: content@, reply: r }),
    {
        let ghost was = self.files.log();
        let r = self.files.manifest(content);
        proof {
            Self::lemma_push(was, FileOp::Manifest { content: content@, reply: r }, self.start@ as int);
        }
        r
    }
}

} // verus!
