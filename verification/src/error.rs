//! Errors of the OCI Distribution protocol.

use vstd::prelude::*;

use crate::storage::StorageError;
use crate::text;

verus! {

#[derive(Debug, Clone, Copy, PartialEq, Eq, Structural)]
pub enum OciCode {
    BlobUnknown,
    BlobUploadInvalid,
    BlobUploadUnknown,
    DigestInvalid,
    ManifestBlobUnknown,
    ManifestInvalid,
    ManifestUnknown,
    NameInvalid,
    NameUnknown,
    SizeInvalid,
    Unauthorized,
    Denied,
    Unsupported,
}

impl OciCode {
    /// The code as it stands in a response.
    pub open spec fn text(self) -> Seq<char> {
        match self {
            OciCode::BlobUnknown => "BLOB_UNKNOWN"@,
            OciCode::BlobUploadInvalid => "BLOB_UPLOAD_INVALID"@,
            OciCode::BlobUploadUnknown => "BLOB_UPLOAD_UNKNOWN"@,
            OciCode::DigestInvalid => "DIGEST_INVALID"@,
            OciCode::ManifestBlobUnknown => "MANIFEST_BLOB_UNKNOWN"@,
            OciCode::ManifestInvalid => "MANIFEST_INVALID"@,
            OciCode::ManifestUnknown => "MANIFEST_UNKNOWN"@,
            OciCode::NameInvalid => "NAME_INVALID"@,
            OciCode::NameUnknown => "NAME_UNKNOWN"@,
            OciCode::SizeInvalid => "SIZE_INVALID"@,
            OciCode::Unauthorized => "UNAUTHORIZED"@,
            OciCode::Denied => "DENIED"@,
            OciCode::Unsupported => "UNSUPPORTED"@,
        }
    }

    /// The status that goes with the code.
    pub open spec fn status(self) -> u16 {
        match self {
            OciCode::Unauthorized => 401,
            OciCode::Denied => 403,
            OciCode::Unsupported => 405,
            OciCode::BlobUnknown
            | OciCode::BlobUploadUnknown
            | OciCode::ManifestBlobUnknown
            | OciCode::ManifestUnknown
            | OciCode::NameUnknown => 404,
            _ => 400,
        }
    }

    pub fn as_str(self) -> (r: &'static str)
        ensures
            r@ == self.text(),
    {
        match self {
            OciCode::BlobUnknown => "BLOB_UNKNOWN",
            OciCode::BlobUploadInvalid => "BLOB_UPLOAD_INVALID",
            OciCode::BlobUploadUnknown => "BLOB_UPLOAD_UNKNOWN",
            OciCode::DigestInvalid => "DIGEST_INVALID",
            OciCode::ManifestBlobUnknown => "MANIFEST_BLOB_UNKNOWN",
            OciCode::ManifestInvalid => "MANIFEST_INVALID",
            OciCode::ManifestUnknown => "MANIFEST_UNKNOWN",
            OciCode::NameInvalid => "NAME_INVALID",
            OciCode::NameUnknown => "NAME_UNKNOWN",
            OciCode::SizeInvalid => "SIZE_INVALID",
            OciCode::Unauthorized => "UNAUTHORIZED",
            OciCode::Denied => "DENIED",
            OciCode::Unsupported => "UNSUPPORTED",
        }
    }

    pub fn default_status(self) -> (r: u16)
        ensures
            r == self.status(),
    {
        match self {
            OciCode::Unauthorized => 401,
            OciCode::Denied => 403,
            OciCode::Unsupported => 405,
            OciCode::BlobUnknown
            | OciCode::BlobUploadUnknown
            | OciCode::ManifestBlobUnknown
            | OciCode::ManifestUnknown
            | OciCode::NameUnknown => 404,
            OciCode::BlobUploadInvalid
            | OciCode::DigestInvalid
            | OciCode::ManifestInvalid
            | OciCode::NameInvalid
            | OciCode::SizeInvalid => 400,
        }
    }
}

/// An error response.
#[derive(Debug)]
pub struct OciError {
    pub status: u16,
    pub code: OciCode,
    pub message: String,
    /// More about it, as the text of a JSON value.
    pub detail: Option<String>,
}

pub struct OciErrorView {
    pub status: u16,
    pub code: OciCode,
    pub message: Seq<char>,
    pub detail: Option<Seq<char>>,
}

impl View for OciError {
    type V = OciErrorView;

    open spec fn view(&self) -> OciErrorView {
        OciErrorView {
            status: self.status,
            code: self.code,
            message: self.message@,
            detail: text::opt(self.detail),
        }
    }
}

/// An error with the status that goes with its code.
pub open spec fn plain_error(code: OciCode, message: Seq<char>) -> OciErrorView {
    OciErrorView { status: code.status(), code, message, detail: None }
}

/// How a storage failure is reported.
pub open spec fn storage_error(e: StorageError) -> OciErrorView {
    match e {
        StorageError::NotFound => plain_error(OciCode::BlobUnknown, "not found"@),
        StorageError::DigestMismatch { .. } => plain_error(OciCode::DigestInvalid, e.message()),
        StorageError::Invalid(m) => plain_error(OciCode::BlobUploadInvalid, m@),
        StorageError::QuotaExceeded(m) => OciErrorView {
            status: 413,
            ..plain_error(OciCode::Denied, m@)
        },
        StorageError::Io(_) => OciErrorView {
            status: 500,
            ..plain_error(OciCode::Unsupported, e.message())
        },
        StorageError::Internal(m) => OciErrorView {
            status: 500,
            ..plain_error(OciCode::Unsupported, m@)
        },
    }
}

impl OciError {
    pub fn new(code: OciCode, message: String) -> (r: OciError)
        ensures
            r@ == plain_error(code, message@),
    {
        OciError { status: code.default_status(), code, message, detail: None }
    }

    pub fn with_status(self, status: u16) -> (r: OciError)
        ensures
            r@ == (OciErrorView { status, ..self@ }),
    {
        OciError { status, code: self.code, message: self.message, detail: self.detail }
    }

    pub fn with_detail(self, detail: String) -> (r: OciError)
        ensures
            r@ == (OciErrorView { detail: Some(detail@), ..self@ }),
    {
        OciError {
            status: self.status,
            code: self.code,
            message: self.message,
            detail: Some(detail),
        }
    }

    /// The response that reports a storage failure.
    pub fn from_storage(e: StorageError) -> (r: OciError)
        ensures
            r@ == storage_error(e),
    {
        let message = e.to_string();
        match e {
            StorageError::NotFound => OciError::new(OciCode::BlobUnknown, message),
            StorageError::DigestMismatch { expected: _, got: _ } => OciError::new(
                OciCode::DigestInvalid,
                message,
            ),
            StorageError::Invalid(m) => OciError::new(OciCode::BlobUploadInvalid, m),
            StorageError::QuotaExceeded(m) => OciError::new(OciCode::Denied, m).with_status(413),
            StorageError::Io(_) => OciError::new(OciCode::Unsupported, message).with_status(500),
            StorageError::Internal(m) => OciError::new(OciCode::Unsupported, m).with_status(500),
        }
    }
}

} // verus!
