//! Commit activity across repositories: which commits to ask GitHub for, what to make of its
//! answers, and how to have the commits told as a story by a language model.
//!
//! The library holds the rules and makes no request itself: a caller performs what a step asks
//! for and hands the answer to the next step.

pub mod calendar;
pub mod chunks;
pub mod collect;
pub mod dates;
pub mod events;
pub mod github;
pub mod http;
pub mod layout;
pub mod number;
pub mod order;
pub mod query;
pub mod record;
pub mod report;
pub mod summarize;
pub mod text;

pub use crate::calendar::Timestamp;
pub use crate::dates::parse_datetime;
pub use crate::github::FetchOpts;
pub use crate::layout::pretty_format_summary;
pub use crate::query::{build_commit_query, CommitQuery, CommitQueryInput, RepoFilter};
pub use crate::record::{CommitRecord, Repo, RepoOwner};
pub use crate::summarize::{ModelProvider, SummarizeOpts, SummaryOutcome, SummaryOutputFormat};
pub use crate::summarize::{DEFAULT_MAX_CHARS, DEFAULT_MODEL};
