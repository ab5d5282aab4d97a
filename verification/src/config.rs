//! Configuration records: the global settings, the per-organization roster
//! sources, and the optional lookup-service credentials. Loading and
//! validating the configuration file is an outside concern; these are the
//! plain values the pipeline consumes.

use vstd::prelude::*;

verus! {

/// The whole configuration: the legacy single roster source, the global
/// repository settings, the daemon loop settings, the output decoration,
/// the organizations to sync, and the optional lookup-service credentials.
pub struct Config {
    pub roster_url: String,
    pub github: GitHubConfig,
    pub daemon: DaemonConfig,
    pub output: OutputConfig,
    pub organizations: Vec<Organization>,
    pub qrz: Option<QrzConfig>,
}

/// The global repository destination and commit identity.
pub struct GitHubConfig {
    pub token: String,
    pub owner: String,
    pub repo: String,
    pub branch: String,
    pub file_path: String,
    pub commit_author_name: String,
    pub commit_author_email: String,
}

/// Loop behaviour: how long to sleep between passes, and whether to run a
/// single pass.
pub struct DaemonConfig {
    pub sync_interval_secs: u64,
    pub run_once: bool,
}

/// Decoration of the generated notes.
pub struct OutputConfig {
    pub emoji: String,
}

/// One roster source and how to read and publish it.
pub struct Organization {
    pub name: String,
    pub enabled: bool,
    pub roster_url: String,
    /// `csv` or `html_table`.
    pub source_type: String,
    /// CSV column selectors, by header name.
    pub callsign_column: Option<String>,
    pub number_column: Option<String>,
    /// HTML-table column selectors, by cell index.
    pub callsign_column_index: Option<usize>,
    pub number_column_index: Option<usize>,
    /// Metadata rows before the CSV header row.
    pub skip_rows: usize,
    pub emoji: String,
    pub label: String,
    pub output_file: String,
    /// Per-organization destination override; unset fields fall back to
    /// the global settings.
    pub github: Option<GitHubTargetOverride>,
}

/// A partial destination: each set field overrides the global one.
pub struct GitHubTargetOverride {
    pub owner: Option<String>,
    pub repo: Option<String>,
    pub branch: Option<String>,
}

/// Credentials and limits of the nickname-lookup service.
pub struct QrzConfig {
    pub enabled: bool,
    pub username: String,
    pub password: String,
    pub cache_path: Option<String>,
    pub max_concurrent_lookups: Option<usize>,
}

} // verus!
