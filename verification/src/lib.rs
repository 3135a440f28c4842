//! A directory-jumping database: entries with a rank and an access time, the
//! maintenance commands that merge, normalize and prune them, and the byte
//! format that they are stored in.

pub mod aging_laws;
pub mod census;
pub mod cmd;
pub mod codec;
pub mod db;
pub mod dedupe;
pub mod dedupe_laws;
pub mod dir;
pub mod entry_laws;
pub mod filesystem;
pub mod fold;
pub mod fusion_laws;
pub mod globs;
pub mod grouping;
pub mod init;
pub mod laws;
pub mod merge;
pub mod plan_laws;
pub mod probe;
pub mod probe_laws;
pub mod rank;
pub mod rank_laws;
pub mod report;
pub mod report_laws;
pub mod row_laws;
pub mod sort;
pub mod survey;
pub mod text;
pub mod tidy;
pub mod tidy_laws;
