//! **mkd-gcm** — Golden Circlet Memory (GCM) network client library.
//!
//! Group paths ([`GroupPath`]), header maps, article types, and the
//! decisions of the GCM (NNTP) client: endpoint parsing, authentication
//! messages, the handshake, post and article formats, and the parsing of
//! server replies. The host process does the socket and file work and hands
//! the lines it reads to these functions.

pub mod config;
pub mod error;
pub mod ffi;
pub mod fs_nntp;
pub mod migrate_map;
pub mod nntp;
pub mod path;
pub mod text;
pub mod types;

pub use config::{MemoryConfig, build_memory_store, memory_config_from_env, memory_store_from_env};
pub use error::{Error, Result};
pub use ffi::MkdGcmClient;
pub use fs_nntp::FsNntpMemoryStore;
pub use nntp::{NntpMemoryStore, encode_oauthbearer_message};
pub use path::{GroupPath, HierarchyBranch, normalize_task_leaf, sanitize_token};
pub use types::{Article, GroupInfo, HeaderMap, OverviewRow, PostHeaders, PostRef, SearchHit};

use vstd::prelude::*;

verus! {

/// Preferred public name for the production remote GCM memory client.
pub type GcmMemoryStore = NntpMemoryStore;

} // verus!
