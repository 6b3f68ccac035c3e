//! Commit statistics for a post-commit git hook: parsing `git diff --numstat`
//! output, rendering the JSON payload, and the hook's configuration file.

pub mod text;
pub mod numbers;
pub mod config;
pub mod diff_stats;
pub mod payload;
pub mod input;
pub mod post_commit;
pub mod installer;
pub mod setup;
