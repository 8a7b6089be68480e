//! Verified core of an OCI Distribution v1.1 registry head.
//!
//! - Values: `digest`, `manifest`, `glob`, `error`, `http`, `text`, `order`.
//! - Stores: `storage` is the interface; `fs` keeps everything in a directory tree, over
//!   `files`; `volume` wraps any other place that holds bytes; `multi` composes
//!   partitions, `repo_router` places repositories on volumes, `quota` limits them, and
//!   `trail` tells what became of the stores behind these.
//! - Processes on stores: `gc`, `replicate`, `migrate`, with `walk` and `transfer`.
//! - Requests: `router` says what a request asks for, `handlers` and `admin` answer it,
//!   `auth` and `k8s` decide who may ask; `jobs` keeps track of what runs in the
//!   background; `config` reads the flags.
//! - `model` says what a store that works answers, and `laws` what follows for the crate
//!   as a whole. `outside` holds the calls into other crates.

pub mod admin;
pub mod auth;
pub mod config;
pub mod digest;
pub mod error;
pub mod fanout;
pub mod files;
pub mod fs;
pub mod gc;
pub mod glob;
pub mod handlers;
pub mod http;
pub mod jobs;
pub mod k8s;
pub mod laws;
pub mod manifest;
pub mod migrate;
pub mod model;
pub mod multi;
pub mod order;
pub mod outside;
pub mod quota;
pub mod replicate;
pub mod repo_router;
pub mod router;
pub mod storage;
pub mod text;
pub mod trail;
pub mod transfer;
pub mod volume;
pub mod walk;

pub use digest::Digest;
pub use fanout::Partition;
pub use fs::FsStorage;
pub use manifest::{Descriptor, Manifest};
pub use migrate::MigrateReport;
pub use multi::MultiStore;
pub use quota::{Quota, QuotaStatus, QuotaStorage};
pub use replicate::{ReplicateConfig, ReplicateReport};
pub use repo_router::{RepoRouter, RouteRule};
pub use storage::{Reference, Storage, StorageError, UploadStatus};
