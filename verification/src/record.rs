//! Repositories and commits.

use crate::calendar::Timestamp;
use crate::dates;
use crate::text;
use vstd::prelude::*;

verus! {

/// A repository.
#[derive(Clone, Debug)]
pub struct Repo {
    pub name: String,
    pub full_name: String,
    pub owner: RepoOwner,
}

/// The owner of a repository.
#[derive(Clone, Debug)]
pub struct RepoOwner {
    pub login: String,
}

/// A commit as the commit list of a repository shows it.
#[derive(Clone, Debug)]
pub struct GitHubCommit {
    pub sha: String,
    pub html_url: String,
    pub commit: CommitInfo,
}

/// The message of a commit and the people behind it.
#[derive(Clone, Debug)]
pub struct CommitInfo {
    pub message: String,
    pub author: Option<CommitUser>,
    pub committer: Option<CommitUser>,
}

/// Who did something to a commit, and when.
#[derive(Clone, Debug)]
pub struct CommitUser {
    pub name: Option<String>,
    pub date: Timestamp,
}

/// One page of a commit search.
#[derive(Clone, Debug)]
pub struct SearchCommitsResponse {
    pub total_count: u64,
    pub incomplete_results: bool,
    pub items: Vec<SearchCommitItem>,
}

/// A commit as the commit search shows it.
#[derive(Clone, Debug)]
pub struct SearchCommitItem {
    pub sha: String,
    pub html_url: String,
    pub commit: CommitInfo,
    pub repository: SearchCommitRepo,
}

/// The repository of a commit that the search found.
#[derive(Clone, Debug)]
pub struct SearchCommitRepo {
    pub full_name: String,
}

/// A commit of some repository.
#[derive(Debug)]
pub struct CommitRecord {
    pub repo: String,
    pub sha: String,
    pub message: String,
    pub timestamp: Timestamp,
    pub url: String,
    pub author: Option<String>,
    pub committer: Option<String>,
}

/// What a [`CommitRecord`] holds.
pub struct CommitModel {
    pub repo: Seq<char>,
    pub sha: Seq<char>,
    pub message: Seq<char>,
    pub timestamp: (int, int),
    pub url: Seq<char>,
    pub author: Option<Seq<char>>,
    pub committer: Option<Seq<char>>,
}

impl View for CommitRecord {
    type V = CommitModel;

    open spec fn view(&self) -> CommitModel {
        CommitModel {
            repo: self.repo@,
            sha: self.sha@,
            message: self.message@,
            timestamp: self.timestamp@,
            url: self.url@,
            author: self.author.deep_view(),
            committer: self.committer.deep_view(),
        }
    }
}

impl DeepView for CommitRecord {
    type V = CommitModel;

    open spec fn deep_view(&self) -> CommitModel {
        self@
    }
}

/// A copy of an optional text.
fn copy_option(s: &Option<String>) -> (r: Option<String>)
    ensures
        r == *s,
{
    match s {
        Some(t) => Some(t.clone()),
        None => None,
    }
}

impl Clone for CommitRecord {
    fn clone(&self) -> (r: CommitRecord)
        ensures
            r == *self,
    {
        CommitRecord {
            repo: self.repo.clone(),
            sha: self.sha.clone(),
            message: self.message.clone(),
            timestamp: self.timestamp,
            url: self.url.clone(),
            author: copy_option(&self.author),
            committer: copy_option(&self.committer),
        }
    }
}

/// The name that a user goes by.
pub open spec fn user_name(user: Option<CommitUser>) -> Option<Seq<char>> {
    match user {
        Some(u) => u.name.deep_view(),
        None => None,
    }
}

/// When a commit was made: the author's date, or else the committer's, or else `now`.
pub open spec fn commit_instant(info: CommitInfo, now: (int, int)) -> (int, int) {
    match info.author {
        Some(author) => author.date@,
        None => match info.committer {
            Some(committer) => committer.date@,
            None => now,
        },
    }
}

/// What is recorded of a commit that came with no date of its own when it is seen at `now`.
pub open spec fn commit_model(
    repo: Seq<char>,
    sha: Seq<char>,
    url: Seq<char>,
    info: CommitInfo,
    now: (int, int),
) -> CommitModel {
    CommitModel {
        repo,
        sha,
        message: info.message@,
        timestamp: commit_instant(info, now),
        url,
        author: user_name(info.author),
        committer: user_name(info.committer),
    }
}

/// Whether `model` is what is recorded of a commit at some instant that the clock can show.
pub open spec fn is_commit_model(
    model: CommitModel,
    repo: Seq<char>,
    sha: Seq<char>,
    url: Seq<char>,
    info: CommitInfo,
) -> bool {
    exists|now: (int, int)|
        dates::on_the_clock(now) && model == #[trigger] commit_model(repo, sha, url, info, now)
}

/// Records a commit that is seen at `now`.
pub fn record_commit_at(
    repo: &str,
    sha: String,
    url: String,
    info: CommitInfo,
    now: Timestamp,
) -> (r: CommitRecord)
    ensures
        r@ == commit_model(repo@, sha@, url@, info, now@),
        r.repo@ == repo@,
        r.sha@ == sha@,
        r.url@ == url@,
        r.message@ == info.message@,
        info.author matches Some(a) ==> r.timestamp@ == a.date@ && r.author == a.name,
        info.author is None ==> r.author is None && (info.committer matches Some(c)
            ==> r.timestamp@ == c.date@),
        info.author is None && info.committer is None ==> r.timestamp@ == now@,
        info.committer matches Some(c) ==> r.committer == c.name,
        info.committer is None ==> r.committer is None,
{
    let timestamp = match &info.author {
        Some(author) => author.date,
        None => match &info.committer {
            Some(committer) => committer.date,
            None => now,
        },
    };
    let author = match info.author {
        Some(user) => user.name,
        None => None,
    };
    let committer = match info.committer {
        Some(user) => user.name,
        None => None,
    };
    CommitRecord {
        repo: text::copy_text(repo),
        sha,
        message: info.message,
        timestamp,
        url,
        author,
        committer,
    }
}

/// Records a commit that is seen now.
pub fn record_commit(repo: &str, sha: String, url: String, info: CommitInfo) -> (r: CommitRecord)
    ensures
        is_commit_model(r@, repo@, sha@, url@, info),
        r.repo@ == repo@,
        r.sha@ == sha@,
        r.url@ == url@,
        r.message@ == info.message@,
        info.author matches Some(a) ==> r.timestamp@ == a.date@ && r.author == a.name,
        info.author is None ==> r.author is None && (info.committer matches Some(c)
            ==> r.timestamp@ == c.date@),
        info.committer matches Some(c) ==> r.committer == c.name,
        info.committer is None ==> r.committer is None,
{
    let now = Timestamp::now();
    let r = record_commit_at(repo, sha, url, info, now);
    assert(dates::on_the_clock(now@) && r@ == commit_model(repo@, sha@, url@, info, now@));
    r
}

/// What is recorded of a commit: its repository, hash, address and message as they came, the names
/// of the people behind it, and the author's date whatever the committer's is; the committer's
/// date only where there is no author.
pub proof fn lemma_recorded(
    model: CommitModel,
    repo: Seq<char>,
    sha: Seq<char>,
    url: Seq<char>,
    info: CommitInfo,
)
    requires
        is_commit_model(model, repo, sha, url, info),
    ensures
        model.repo == repo,
        model.sha == sha,
        model.url == url,
        model.message == info.message@,
        info.author matches Some(a) ==> model.timestamp == a.date@ && model.author
            == a.name.deep_view(),
        info.author is None ==> model.author is None && (info.committer matches Some(c)
            ==> model.timestamp == c.date@),
        info.author is None && info.committer is None ==> 0 <= model.timestamp.0,
        info.committer matches Some(c) ==> model.committer == c.name.deep_view(),
        info.committer is None ==> model.committer is None,
{
}

/// A commit that came with a date is recorded with the same time whenever it is seen.
pub proof fn lemma_time_of_its_own(
    repo: Seq<char>,
    sha: Seq<char>,
    url: Seq<char>,
    info: CommitInfo,
    now: (int, int),
    later: (int, int),
)
    requires
        info.author is Some || info.committer is Some,
    ensures
        commit_model(repo, sha, url, info, now) == commit_model(repo, sha, url, info, later),
{
}

} // verus!
