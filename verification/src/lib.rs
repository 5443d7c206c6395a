//! Approval statistics for the merged pull requests of an organization.
//!
//! The library holds the rules of the pipeline: how a search request is
//! addressed, how many pages a query needs and what becomes of each page that
//! arrives, how records are counted per repository, how the two counts are
//! merged, and how the report reads. Sending requests and printing are left
//! to the caller.

pub mod counts;
pub mod fetch;
pub mod model;
pub mod order;
pub mod report;
pub mod search;
pub mod stats;
pub mod stats_map;
pub mod text;

pub use crate::counts::{count_by_pr, RepoCount, RepoCounts};
pub use crate::fetch::{check_status, FetchAction, FetchError, PagedFetch, Phase};
pub use crate::model::{PRInfo, PRList};
pub use crate::report::{pr_stats, report};
pub use crate::search::{
    approved_query, authorization_value, not_approved_query, num_pages, search_url, PER_PAGE,
};
pub use crate::stats::PRStats;
pub use crate::stats_map::{StatsEntry, StatsMap};
