//! Roster ingestion and reconciliation pipeline for amateur-radio
//! organization membership lists.
//!
//! The library parses tabular roster sources (CSV or HTML tables) into a
//! canonical, validated, deduplicated and sorted member list, enriches
//! members with nicknames through a TTL-based cache and a session-cached
//! lookup client, renders a deterministic notes file per organization, and
//! plans batched commits grouped by destination repository.

pub mod cache;
pub mod clock;
pub mod config;
pub mod github;
pub mod member;
pub mod notes;
pub mod qrz;
pub mod roster;
pub mod sync;
pub mod text;

pub use cache::NicknameCache;
pub use config::{Config, DaemonConfig, GitHubConfig, OutputConfig};
pub use github::{GitHubTarget, PendingFile};
pub use member::Member;
pub use notes::NotesGenerator;
pub use qrz::QrzClient;
pub use roster::{CsvFetcher, HtmlFetcher};
