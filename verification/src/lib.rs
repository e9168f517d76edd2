//! Engine of a daemon that keeps one textual bootloader configuration file
//! consistent across direct on-disk edits, an append-only log of historical
//! versions, and inter-process callers that read, modify, or enumerate the
//! configuration and its derived boot-menu entries.
//!
//! The crate holds the configuration-state engine itself: a lossless
//! parser/serializer for the directive file, the snapshot log, the
//! orchestrating service with its `Clean`/`Dirty`/`Reloading` discipline, the
//! boot-entry projection, and the change-watcher decision logic. Transport,
//! storage-engine plumbing, and the event loop live outside the library and
//! call into it with plain values.

use vstd::prelude::*;

pub mod catalog;
pub mod directive;
pub mod document;
pub mod service;
pub mod snapshot;
pub mod strutil;
pub mod watcher;

pub use catalog::BootEntry;
pub use catalog::MenuEntry;
pub use directive::single_line_check;
pub use directive::valid_key_check;
pub use directive::Directive;
pub use directive::QuoteStyle;
pub use document::DirectiveDocument;
pub use service::BootKitConfig;
pub use service::BootKitSnapshots;
pub use service::ConfigService;
pub use service::ServiceState;
pub use snapshot::Snapshot;
pub use snapshot::SnapshotStore;
pub use watcher::ChangeWatcher;
pub use watcher::WatchAction;
pub use watcher::WatchEvent;

verus! {

/// Errors surfaced by the engine.
///
/// `ParseError`: the input text cannot be represented by the directive format
/// (an unterminated quote); the document is left unchanged.
/// `PersistenceError`: a disk or store write failed; in-memory state is rolled
/// back to the last known-good document.
/// `NotFound`: the requested row or entry does not exist.
/// `WatchFailure`: the file-change watch loop died; the feature degrades but
/// the process continues.
#[derive(Clone, Copy, PartialEq, Eq, Structural, Debug)]
pub enum ConfigError {
    ParseError,
    PersistenceError,
    NotFound,
    WatchFailure,
}

} // verus!
