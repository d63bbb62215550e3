//! Verified core of the Caddy access-log dashboard.

pub mod text;
pub mod paging;
pub mod filters;
pub mod logview;
pub mod table;
pub mod histogram;
pub mod sortset;
pub mod analytics;
pub mod rollup_view;
pub mod compaction;
pub mod accounts;
pub mod oidc;
pub mod ranking;
pub mod grouping;
pub mod reports;
pub mod session;
pub mod ingest;
pub mod config;
pub mod timeline;
pub mod ai;
pub mod stats;
pub mod access;
pub mod log_entry;
