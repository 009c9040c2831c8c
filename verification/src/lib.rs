//! Storage core of a small version-control system: a log-structured
//! key/value store with checksummed records, a content-addressed and
//! compressed object store, a Merkle-style manifest tree builder, and a
//! changeset ledger that chains snapshots into per-task histories.

pub mod client;
pub mod codec;
pub mod objects;
pub mod error;
pub mod manifest;
pub mod revision;
pub mod storage;
pub mod text;
pub mod tree;

pub use client::{ChangeListEntry, FileProbe, IndexState, User, VelesClient, VelesConfig, VelesIndex};
pub use client::{VelesCommand, VelesIndexMeta, VelesMessage};
pub use error::VelesError;
pub use manifest::{manifest, ManifestEntry};
pub use objects::{uncommit, Finalize, Object, ObjectStore};
pub use revision::{Changeset, FileChange, Task, VelesChange, VelesDAO, VelesRepo};
pub use storage::VelesStore;
pub use tree::TreeLine;
