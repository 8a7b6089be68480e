//! What a store in a directory tree does when the files fail.

use vstd::prelude::*;

use crate::digest;
use crate::digest::Algorithm;
use crate::files::{FileError, FileOp};
use crate::fs;
use crate::laws::failing;
use crate::storage::{Call, ReferenceView, StorageError};

verus! {

/// The failure that an operation ended with.
pub open spec fn failure(op: FileOp) -> Option<FileError> {
    match op {
        FileOp::MakeDir { reply: Err(e), .. } => Some(e),
        FileOp::Has { reply: Err(e), .. } => Some(e),
        FileOp::Size { reply: Err(e), .. } => Some(e),
        FileOp::Read { reply: Err(e), .. } => Some(e),
        FileOp::Replace { reply: Err(e), .. } => Some(e),
        FileOp::Create { reply: Err(e), .. } => Some(e),
        FileOp::Append { reply: Err(e), .. } => Some(e),
        FileOp::Rename { reply: Err(e), .. } => Some(e),
        FileOp::Remove { reply: Err(e), .. } => Some(e),
        FileOp::FilesIn { reply: Err(e), .. } => Some(e),
        FileOp::DirsIn { reply: Err(e), .. } => Some(e),
        _ => None,
    }
}

/// A failure of the files, other than that something is missing, is a failure of the call;
/// only that an upload could not be removed after it had become a blob is none.
pub proof fn failures_of_files_are_told(c: Call, ops: Seq<FileOp>, e: FileError)
    requires
        fs::carried_out(c, ops),
        ops.len() > 0,
        failure(ops.last()) == Some(e),
        !e.missing,
        !(c is UploadFinalize && ops.last() is Remove),
    ensures
        failing::broke(seq![c], StorageError::Io(e.text)),
{
    let n = ops.len() - 1;
    assert(ops.last() == ops[n]);
    assert(seq![c].last() == c);
    match c {
        Call::ManifestGet { reference: ReferenceView::Tag(_), .. } => {
            if n > 0 {
                assert(ops.skip(1)[n - 1] == ops[n]);
                assert(ops.skip(1)[0] == ops[1]);
            }
        },
        Call::ListRepos { reply } => {
            let visits = choose|visits: Seq<fs::Visit>| #[trigger]
                fs::repos_listed(ops, visits, reply);
            let v = visits.last();
            assert(visits[visits.len() - 1].right());
            assert(ops == fs::all_ops(visits.drop_last()) + v.ops);
            assert(ops.last() == v.ops.last());
            assert(v.ops.last() == v.ops[v.ops.len() - 1]);
        },
        Call::ListAllBlobs { reply } => {
            let k = choose|k: int| #[trigger] fs::blobs_listed(ops, k, reply);
            let a = ops.take(k);
            let b = ops.skip(k);
            if b.len() > 0 {
                assert(b.last() == ops.last());
                assert(b.last() == b[b.len() - 1]);
            } else {
                assert(a.last() == ops.last());
                assert(a.last() == a[a.len() - 1]);
            }
        },
        _ => {},
    }
}

/// The operation writes to a file that is there, or makes an empty one.
pub open spec fn writes_in_place(op: FileOp) -> bool {
    op is Append || op is Create
}

/// A blob, a manifest and a tag are put in their place in one step: only uploads are written
/// bit by bit.
pub proof fn only_uploads_grow(c: Call, ops: Seq<FileOp>, i: int)
    requires
        fs::carried_out(c, ops),
        0 <= i < ops.len(),
        writes_in_place(ops[i]),
    ensures
        c is UploadCreate || c is UploadAppend,
{
    match c {
        Call::ManifestGet { reference: ReferenceView::Tag(_), .. } => {
            if i > 0 {
                assert(ops.skip(1)[i - 1] == ops[i]);
            }
        },
        Call::ListRepos { reply } => {
            let visits = choose|visits: Seq<fs::Visit>| #[trigger]
                fs::repos_listed(ops, visits, reply);
            lemma_visits_look(visits, i);
        },
        Call::ListAllBlobs { reply } => {
            let k = choose|k: int| #[trigger] fs::blobs_listed(ops, k, reply);
            if i < k {
                assert(ops.take(k)[i] == ops[i]);
            } else {
                assert(ops.skip(k)[i - k] == ops[i]);
            }
        },
        _ => {},
    }
}

proof fn lemma_visits_look(visits: Seq<fs::Visit>, i: int)
    requires
        forall|j: int| 0 <= j < visits.len() ==> (#[trigger] visits[j]).right(),
        0 <= i < fs::all_ops(visits).len(),
    ensures
        fs::all_ops(visits)[i] is DirsIn || fs::all_ops(visits)[i] is FilesIn,
    decreases visits.len(),
{
    if visits.len() > 0 {
        let rest = visits.drop_last();
        let before = fs::all_ops(rest);
        if i < before.len() {
            assert forall|j: int| 0 <= j < rest.len() implies (#[trigger] rest[j]).right() by {
                assert(rest[j] == visits[j]);
            }
            lemma_visits_look(rest, i);
            assert(fs::all_ops(visits)[i] == before[i]);
        } else {
            assert(visits[visits.len() - 1].right());
            assert(fs::all_ops(visits)[i] == visits.last().ops[i - before.len()]);
        }
    }
}

/// The file was replaced by this content.
pub open spec fn replaced(op: FileOp, path: Seq<char>, content: Seq<u8>) -> bool {
    &&& op is Replace
    &&& op->Replace_path == path
    &&& op->Replace_content == content
    &&& op->Replace_reply is Ok
}

/// A tag is pointed at a manifest only when the manifest is in its place.
pub proof fn manifest_is_in_place_before_its_tag(
    repo: Seq<char>,
    tag: Seq<char>,
    content: Seq<u8>,
    reply: Result<crate::digest::DigestView, StorageError>,
    ops: Seq<FileOp>,
    i: int,
)
    requires
        fs::carried_out(
            Call::ManifestPut { repo, reference: ReferenceView::Tag(tag), content, reply },
            ops,
        ),
        0 <= i < ops.len(),
        i > 0 || reply is Ok,
    ensures
        ({
            let d = digest::content_digest(Algorithm::Sha256, content);
            &&& replaced(ops[0], fs::digest_file(repo, d), content)
            &&& reply is Ok ==> ops.len() == 2 && reply->Ok_0 == d && replaced(
                ops[1],
                fs::tag_file(repo, tag),
                vstd::utf8::encode_utf8(d.text()),
            )
        }),
{
}

/// An upload becomes a blob only when its bytes have the digest.
pub proof fn upload_becomes_a_blob_by_its_digest(
    repo: Seq<char>,
    id: u128,
    d: crate::digest::DigestView,
    ops: Seq<FileOp>,
    reply: Result<(), StorageError>,
)
    requires
        fs::carried_out(Call::UploadFinalize { repo, id, digest: d, reply }, ops),
        ops.len() > 1 || reply is Ok,
    ensures
        ops[0] is Read,
        ops[0]->Read_path == fs::upload_file(id),
        ops[0]->Read_reply is Ok,
        digest::content_digest(d.algorithm, ops[0]->Read_reply->Ok_0) == d,
{
}

} // verus!
