//! Turns adblock-style rule lists into a sinkhole hosts file.
//!
//! - `convert`: one rule line to one `0.0.0.0 <domain>` entry, or none.
//! - `fetch`: what a fetched source's status and body mean.
//! - `pipeline`: merges all sources, deduplicating lines and entries.
//! - `report`: renders the hosts file with its header.
//! - `text`: white space, trimming and cutting at a character.

pub mod convert;
pub mod fetch;
pub mod pipeline;
pub mod report;
pub mod text;

pub use convert::convert_rule;
pub use fetch::{check_status, rule_lines, FetchError};
pub use pipeline::{aggregate, RunOutcome, RunResult, SourceReport, SourceStat};
pub use report::{render_hosts, utc_now, Banner, Timestamp};
