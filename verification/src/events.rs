//! Progress events.

use crate::calendar;
use crate::query::CommitQuery;
use crate::text::copy_text;
use vstd::prelude::*;

verus! {

/// Why the commit search is given up in favour of a scan of each repository.
#[derive(Debug)]
pub enum Fallback {
    /// The request could not be made.
    RequestFailed { error: String },
    /// The response was an error.
    HttpError { status: u16 },
    /// The response could not be read.
    DecodeFailed { error: String },
    /// The search does not give all results.
    Incomplete { total_count: u64, incomplete_results: bool },
}

impl Fallback {
    /// The word for a reason.
    pub open spec fn reason_text(self) -> Seq<char> {
        match self {
            Fallback::RequestFailed { .. } => "search_request_failed"@,
            Fallback::HttpError { .. } => "search_http_error"@,
            Fallback::DecodeFailed { .. } => "search_decode_failed"@,
            Fallback::Incomplete { .. } => "search_incomplete"@,
        }
    }

    /// The word for this reason.
    pub fn reason(&self) -> (r: &'static str)
        ensures
            r@ == self.reason_text(),
            *self is RequestFailed ==> r@ == "search_request_failed"@,
            *self is HttpError ==> r@ == "search_http_error"@,
            *self is DecodeFailed ==> r@ == "search_decode_failed"@,
            *self is Incomplete ==> r@ == "search_incomplete"@,
    {
        match self {
            Fallback::RequestFailed { .. } => "search_request_failed",
            Fallback::HttpError { .. } => "search_http_error",
            Fallback::DecodeFailed { .. } => "search_decode_failed",
            Fallback::Incomplete { .. } => "search_incomplete",
        }
    }
}

/// Where the commits of a summary come from.
#[derive(Debug)]
pub enum InputSource {
    File { path: String },
    Github { user: String },
}

/// Something that happened on the way to the commits or to their summary.
#[derive(Debug)]
pub enum Event {
    NormalizedQuery {
        since: String,
        until: String,
        repo_filter: Option<(String, String)>,
        token_present: bool,
        user: String,
    },
    DiscoveredRepos { count: usize, repos: Vec<String> },
    ReposPage { page: usize, repos_found: usize, has_next: bool },
    RepoScanStart { repo: String },
    RepoScanFinish { repo: String, commit_count: usize },
    RepoCommitsPage { repo: String, page: usize, items: usize, has_next: bool },
    SearchPage { page: usize, items: usize, total_count: u64, incomplete_results: bool },
    FallingBack { page: usize, why: Fallback },
    DedupComplete { unique_commits: usize },
    SummaryInput { source: InputSource, commit_count: usize },
    NoCommits,
    EmitCommitsComplete { count: usize },
}

impl Event {
    /// The name of an event.
    pub open spec fn name_text(self) -> Seq<char> {
        match self {
            Event::NormalizedQuery { .. } => "normalized_query"@,
            Event::DiscoveredRepos { .. } => "discovered_repos"@,
            Event::ReposPage { .. } => "repos_page"@,
            Event::RepoScanStart { .. } => "repo_scan_start"@,
            Event::RepoScanFinish { .. } => "repo_scan_finish"@,
            Event::RepoCommitsPage { .. } => "repo_commits_page"@,
            Event::SearchPage { .. } => "search_page"@,
            Event::FallingBack { .. } => "falling_back_to_per_repo"@,
            Event::DedupComplete { .. } => "dedup_complete"@,
            Event::SummaryInput { .. } => "summary_input"@,
            Event::NoCommits => "no_commits"@,
            Event::EmitCommitsComplete { .. } => "emit_commits_complete"@,
        }
    }

    /// The name of this event.
    pub fn name(&self) -> (r: &'static str)
        ensures
            r@ == self.name_text(),
            *self is NormalizedQuery ==> r@ == "normalized_query"@,
            *self is DiscoveredRepos ==> r@ == "discovered_repos"@,
            *self is ReposPage ==> r@ == "repos_page"@,
            *self is RepoScanStart ==> r@ == "repo_scan_start"@,
            *self is RepoScanFinish ==> r@ == "repo_scan_finish"@,
            *self is RepoCommitsPage ==> r@ == "repo_commits_page"@,
            *self is SearchPage ==> r@ == "search_page"@,
            *self is FallingBack ==> r@ == "falling_back_to_per_repo"@,
            *self is DedupComplete ==> r@ == "dedup_complete"@,
            *self is SummaryInput ==> r@ == "summary_input"@,
            *self is NoCommits ==> r@ == "no_commits"@,
            *self is EmitCommitsComplete ==> r@ == "emit_commits_complete"@,
    {
        match self {
            Event::NormalizedQuery { .. } => "normalized_query",
            Event::DiscoveredRepos { .. } => "discovered_repos",
            Event::ReposPage { .. } => "repos_page",
            Event::RepoScanStart { .. } => "repo_scan_start",
            Event::RepoScanFinish { .. } => "repo_scan_finish",
            Event::RepoCommitsPage { .. } => "repo_commits_page",
            Event::SearchPage { .. } => "search_page",
            Event::FallingBack { .. } => "falling_back_to_per_repo",
            Event::DedupComplete { .. } => "dedup_complete",
            Event::SummaryInput { .. } => "summary_input",
            Event::NoCommits => "no_commits",
            Event::EmitCommitsComplete { .. } => "emit_commits_complete",
        }
    }
}

/// The report on a query that has been read.
pub fn normalized_query(query: &CommitQuery) -> (r: Event)
    ensures
        r matches Event::NormalizedQuery { since, until, repo_filter, token_present, user }
            && since@ == calendar::rfc3339_text(query.since@.0, query.since@.1) && until@
            == calendar::rfc3339_text(query.until@.0, query.until@.1) && token_present
            == query.token is Some && user@ == query.user@ && match query.repo_filter {
            Some(filter) => repo_filter matches Some(parts) && parts.0@ == filter.owner@
                && parts.1@ == filter.name@,
            None => repo_filter is None,
        },
{
    let repo_filter = match &query.repo_filter {
        Some(filter) => Some(
            (copy_text(filter.owner.as_str()), copy_text(filter.name.as_str())),
        ),
        None => None,
    };
    Event::NormalizedQuery {
        since: query.since.to_rfc3339(),
        until: query.until.to_rfc3339(),
        repo_filter,
        token_present: query.token.is_some(),
        user: copy_text(query.user.as_str()),
    }
}

/// The report on the number of commits that there are to show.
pub fn commits_ready(count: usize) -> (r: Event)
    ensures
        count == 0 ==> r is NoCommits,
        count > 0 ==> r == (Event::EmitCommitsComplete { count }),
{
    if count == 0 {
        Event::NoCommits
    } else {
        Event::EmitCommitsComplete { count }
    }
}

} // verus!
