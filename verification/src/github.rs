//! The conversation with GitHub: what to ask next, and what to make of each answer.

use crate::calendar;
use crate::calendar::Timestamp;
use crate::collect;
use crate::collect::{absorb_commits, unique_repos};
use crate::events::{Event, Fallback};
use crate::http;
use crate::http::{checked_request_url, format_error, has_next_link, ApiError, Headers, Status};
use crate::number;
use crate::number::decimal_text;
use crate::order;
use crate::order::{keep_in_range, sort_by_time};
use crate::query::{CommitQuery, RepoFilter};
use crate::record;
use crate::record::{record_commit, CommitRecord, GitHubCommit, Repo};
use crate::record::{SearchCommitItem, SearchCommitsResponse};
use crate::text;
use crate::text::copy_text;
use vstd::prelude::*;

verus! {

/// How to reach the service.
#[derive(Clone, Debug)]
pub struct FetchOpts {
    pub verbose: bool,
    pub base_url: Option<String>,
}

impl Default for FetchOpts {
    fn default() -> (r: FetchOpts)
        ensures
            !r.verbose,
            r.base_url is None,
    {
        FetchOpts { verbose: false, base_url: None }
    }
}

/// A response that should hold a list; `items` is the list, where the body could be read as one.
#[derive(Debug)]
pub struct PageReply<T> {
    pub status: Status,
    pub headers: Headers,
    pub body: String,
    pub items: Option<Vec<T>>,
}

/// A page that was taken in: what to report, and whether to ask for the next page.
#[derive(Debug)]
pub struct PageStep {
    pub event: Event,
    pub more: bool,
}

/// The number of items on a page.
pub open spec fn page_size() -> Seq<char> {
    "100"@
}

/// `context` with the number of a page.
pub open spec fn with_page(context: Seq<char>, page: nat) -> Seq<char> {
    context + " page "@ + number::decimal(page)
}

/// `context` with the number of a page.
fn with_page_number(context: &str, page: usize) -> (r: String)
    ensures
        r@ == with_page(context@, page as nat),
{
    let mut r = copy_text(context);
    r.append(" page ");
    r.append(decimal_text(page as u64).as_str());
    r
}

/// The query of a page: the given pairs, and then the size and the number of the page.
pub open spec fn page_pairs(
    params: Seq<(Seq<char>, Seq<char>)>,
    page: nat,
) -> Seq<(Seq<char>, Seq<char>)> {
    params + seq![("per_page"@, page_size()), ("page"@, number::decimal(page))]
}

/// A copy of name/value pairs.
fn copy_pairs(params: &Vec<(String, String)>) -> (r: Vec<(String, String)>)
    ensures
        r.deep_view() == params.deep_view(),
{
    let mut r: Vec<(String, String)> = Vec::new();
    for i in 0..params.len()
        invariant
            r@.len() == i,
            forall|k: int|
                0 <= k < i ==> (#[trigger] r@[k]).deep_view() == params@[k].deep_view(),
    {
        r.push((copy_text(params[i].0.as_str()), copy_text(params[i].1.as_str())));
    }
    assert(r.deep_view() =~= params.deep_view());
    r
}

/// The query of a page.
pub fn page_params(params: &Vec<(String, String)>, page: usize) -> (r: Vec<(String, String)>)
    ensures
        r.deep_view() == page_pairs(params.deep_view(), page as nat),
        r.deep_view() == params.deep_view().push(("per_page"@, "100"@)).push(
            ("page"@, number::decimal(page as nat)),
        ),
{
    let mut r = copy_pairs(params);
    let ghost start = r.deep_view();
    r.push((copy_text("per_page"), copy_text("100")));
    r.push((copy_text("page"), decimal_text(page as u64)));
    assert(r.deep_view() =~= page_pairs(start, page as nat));
    assert(r.deep_view() =~= params.deep_view().push(("per_page"@, "100"@)).push(
        ("page"@, number::decimal(page as nat)),
    ));
    r
}

/// The address of a page of a list; `None` where the query cannot be added to it.
pub fn page_url(base: &str, path: &str, params: &Vec<(String, String)>, page: usize) -> (r: Option<
    Result<String, String>,
>)
    ensures
        r is Some <==> http::address_fits(
            base@,
            path@,
            page_pairs(params.deep_view(), page as nat),
        ),
        r matches Some(u) ==> http::result_view(u) == http::request_address(
            base@,
            path@,
            page_pairs(params.deep_view(), page as nat),
        ),
        r matches Some(u) ==> http::result_view(u) == (match http::joined_address(base@, path@) {
            Ok(_) => Ok::<Seq<char>, Seq<char>>(
                http::address_with_pairs(
                    base@,
                    path@,
                    params.deep_view().push(("per_page"@, "100"@)).push(
                        ("page"@, number::decimal(page as nat)),
                    ),
                ),
            ),
            Err(e) => Err(e),
        }),
{
    let pairs = page_params(params, page);
    checked_request_url(base, path, &pairs)
}

/// Where the list of repositories comes from.
#[derive(Debug)]
pub enum RepoSource {
    /// The one repository of the filter.
    Single { owner: String, name: String },
    /// The public repositories of the user.
    Public,
    /// The repositories that the token gives access to.
    Authenticated,
    /// That depends on whose token it is, which is to be asked first.
    AskLogin,
}

/// Where the list of repositories comes from, as far as it can be told at first.
pub fn repo_source(filter: &Option<RepoFilter>, token: &Option<String>) -> (r: RepoSource)
    ensures
        match *filter {
            Some(f) => r matches RepoSource::Single { owner, name } && owner@ == f.owner@ && name@
                == f.name@,
            None => if token is None {
                r is Public
            } else {
                r is AskLogin
            },
        },
{
    match filter {
        Some(f) => RepoSource::Single {
            owner: copy_text(f.owner.as_str()),
            name: copy_text(f.name.as_str()),
        },
        None => if token.is_none() {
            RepoSource::Public
        } else {
            RepoSource::AskLogin
        },
    }
}

/// Where the list of repositories of `user` comes from when the token is that of `login`.
pub fn repo_source_for(login: &Option<String>, user: &str) -> (r: RepoSource)
    ensures
        match *login {
            Some(l) => if text::lower(l@) == text::lower(user@) {
                r is Authenticated
            } else {
                r is Public
            },
            None => r is Public,
        },
{
    match login {
        Some(l) => if text::same_ignoring_case(l.as_str(), user) {
            RepoSource::Authenticated
        } else {
            RepoSource::Public
        },
        None => RepoSource::Public,
    }
}

/// The query for the repositories that the token gives access to.
pub fn authenticated_params() -> (r: Vec<(String, String)>)
    ensures
        r.deep_view() == seq![("affiliation"@, "owner,collaborator,organization_member"@)],
{
    let mut r: Vec<(String, String)> = Vec::new();
    r.push((copy_text("affiliation"), copy_text("owner,collaborator,organization_member")));
    assert(r.deep_view() =~= seq![("affiliation"@, "owner,collaborator,organization_member"@)]);
    r
}

/// The path of the public repositories of a user.
pub fn public_repos_path(login: &str) -> (r: String)
    ensures
        r@ == "users/"@ + login@ + "/repos"@,
{
    let mut r = copy_text("users/");
    r.append(login);
    r.append("/repos");
    r
}

/// The path of a repository.
pub fn repo_path(owner: &str, name: &str) -> (r: String)
    ensures
        r@ == "repos/"@ + owner@ + "/"@ + name@,
{
    let mut r = copy_text("repos/");
    r.append(owner);
    r.append("/");
    r.append(name);
    r
}

/// The path of the commits of a repository.
pub fn commits_path(repo: &Repo) -> (r: String)
    ensures
        r@ == "repos/"@ + repo.owner.login@ + "/"@ + repo.name@ + "/commits"@,
{
    let mut r = repo_path(repo.owner.login.as_str(), repo.name.as_str());
    r.append("/commits");
    r
}

/// The query for the commits of an author in a range of time.
pub fn commit_params(author: &str, since: &Timestamp, until: &Timestamp) -> (r: Vec<
    (String, String),
>)
    ensures
        r.deep_view() == seq![
            ("author"@, author@),
            ("since"@, calendar::rfc3339_text(since@.0, since@.1)),
            ("until"@, calendar::rfc3339_text(until@.0, until@.1)),
        ],
{
    let mut r: Vec<(String, String)> = Vec::new();
    r.push((copy_text("author"), copy_text(author)));
    r.push((copy_text("since"), since.to_rfc3339()));
    r.push((copy_text("until"), until.to_rfc3339()));
    assert(r.deep_view() =~= seq![
        ("author"@, author@),
        ("since"@, calendar::rfc3339_text(since@.0, since@.1)),
        ("until"@, calendar::rfc3339_text(until@.0, until@.1)),
    ]);
    r
}

/// Whose token it is, from the response to that question; `login` is what the body could be
/// read as.
pub fn login_from_reply(
    status: Status,
    headers: &Headers,
    body: &str,
    login: Option<String>,
) -> (r: Result<Option<String>, ApiError>)
    ensures
        if status@ == 401 {
            r matches Err(e) && e.text@
                == "Authentication failed: GitHub rejected the provided token (401)"@
        } else if !http::is_success(status@) {
            r matches Err(e) && e.text@ == http::error_text(
                status@,
                headers@,
                body@,
                "fetch authenticated user"@,
            )
        } else {
            match login {
                None => r matches Err(e) && e.text@
                    == "failed to parse authenticated user response"@,
                Some(_) => r matches Ok(l) && l == login,
            }
        },
{
    if status.code() == 401 {
        return Err(
            ApiError {
                text: copy_text("Authentication failed: GitHub rejected the provided token (401)"),
            },
        );
    }
    if !status.is_success() {
        return Err(
            ApiError { text: format_error(status, headers, body, "fetch authenticated user") },
        );
    }
    match login {
        None => Err(ApiError { text: copy_text("failed to parse authenticated user response") }),
        Some(l) => Ok(Some(l)),
    }
}

/// The repository of the filter, from the response to the question for it; `repo` is what the
/// body could be read as.
pub fn repo_from_reply(
    status: Status,
    headers: &Headers,
    body: &str,
    repo: Option<Repo>,
    owner: &str,
    name: &str,
) -> (r: Result<Repo, ApiError>)
    ensures
        if !http::is_success(status@) {
            r matches Err(e) && e.text@ == http::error_text(
                status@,
                headers@,
                body@,
                "fetch repo "@ + owner@ + "/"@ + name@,
            )
        } else {
            match repo {
                None => r matches Err(e) && e.text@ == "failed to parse repo response"@,
                Some(p) => r matches Ok(q) && q == p,
            }
        },
{
    if !status.is_success() {
        let mut context = copy_text("fetch repo ");
        context.append(owner);
        context.append("/");
        context.append(name);
        return Err(ApiError { text: format_error(status, headers, body, context.as_str()) });
    }
    match repo {
        None => Err(ApiError { text: copy_text("failed to parse repo response") }),
        Some(p) => Ok(p),
    }
}

/// A list of repositories that is read page by page.
#[derive(Debug)]
pub struct RepoPaging {
    pub label: String,
    pub all: Vec<Repo>,
    pub page: usize,
}

/// Whether `r` and `after` are what a page of repositories makes of `before`.
pub open spec fn is_repo_step(
    before: RepoPaging,
    reply: PageReply<Repo>,
    after: RepoPaging,
    r: Result<PageStep, ApiError>,
) -> bool {
    let has_next = http::announces_next(reply.headers@);
    &&& after.label == before.label
    &&& if !http::is_success(reply.status@) {
        &&& r matches Err(e)
        &&& e.text@ == http::error_text(
            reply.status@,
            reply.headers@,
            reply.body@,
            with_page(before.label@, before.page as nat),
        )
        &&& after == before
    } else {
        match reply.items {
            None => {
                &&& r matches Err(e)
                &&& e.text@ == "failed to parse repos response"@
                &&& after == before
            },
            Some(items) => {
                &&& r matches Ok(step)
                &&& step.event matches Event::ReposPage {
                    page,
                    repos_found,
                    has_next: announced,
                } && page == before.page && repos_found == items@.len() && announced == has_next
                &&& step.more == (has_next && items@.len() > 0)
                &&& after.all@ == before.all@ + items@
                &&& after.page == before.page + if step.more {
                    1int
                } else {
                    0
                }
            },
        }
    }
}

impl RepoPaging {
    /// Before the first page; `label` says what is listed.
    pub fn new(label: &str) -> (r: RepoPaging)
        ensures
            r.label@ == label@,
            r.all@ == Seq::<Repo>::empty(),
            r.page == 1,
    {
        RepoPaging { label: copy_text(label), all: Vec::new(), page: 1 }
    }

    /// Takes in the response to the request for the current page.
    pub fn step(&mut self, reply: PageReply<Repo>) -> (r: Result<PageStep, ApiError>)
        requires
            old(self).page < usize::MAX,
        ensures
            is_repo_step(*old(self), reply, *final(self), r),
    {
        if !reply.status.is_success() {
            let context = with_page_number(self.label.as_str(), self.page);
            return Err(
                ApiError {
                    text: format_error(
                        reply.status,
                        &reply.headers,
                        reply.body.as_str(),
                        context.as_str(),
                    ),
                },
            );
        }
        let has_next = has_next_link(&reply.headers);
        match reply.items {
            None => Err(ApiError { text: copy_text("failed to parse repos response") }),
            Some(items) => {
                let mut items = items;
                let found = items.len();
                let event = Event::ReposPage { page: self.page, repos_found: found, has_next };
                self.all.append(&mut items);
                let more = has_next && found > 0;
                if more {
                    self.page = self.page + 1;
                }
                Ok(PageStep { event, more })
            },
        }
    }
}

/// The repositories of pages one after another.
pub open spec fn all_items<T>(replies: Seq<PageReply<T>>) -> Seq<T>
    decreases replies.len(),
{
    if replies.len() == 0 {
        seq![]
    } else {
        all_items(replies.drop_last()) + replies.last().items->0@
    }
}

/// Paging gathers the repositories of all pages, one after another, and it asks for the pages by
/// their numbers, from the first on, as long as each asks for more.
pub proof fn lemma_repo_paging_gathers(
    states: Seq<RepoPaging>,
    replies: Seq<PageReply<Repo>>,
    steps: Seq<PageStep>,
)
    requires
        states.len() == replies.len() + 1,
        steps.len() == replies.len(),
        states[0].all@ == Seq::<Repo>::empty(),
        states[0].page == 1,
        forall|i: int|
            0 <= i < replies.len() ==> is_repo_step(
                #[trigger] states[i],
                replies[i],
                states[i + 1],
                Ok(steps[i]),
            ),
        forall|i: int| 0 <= i < replies.len() - 1 ==> (#[trigger] steps[i]).more,
    ensures
        states.last().all@ == all_items(replies),
        forall|i: int| 0 <= i < replies.len() ==> (#[trigger] states[i]).page == i + 1,
    decreases replies.len(),
{
    if replies.len() > 0 {
        let n = replies.len() - 1;
        assert forall|i: int| 0 <= i < n implies is_repo_step(
            #[trigger] states.drop_last()[i],
            replies.drop_last()[i],
            states.drop_last()[i + 1],
            Ok(steps.drop_last()[i]),
        ) by {
            assert(is_repo_step(states[i], replies[i], states[i + 1], Ok(steps[i])));
        }
        assert forall|i: int| 0 <= i < n - 1 implies (#[trigger] steps.drop_last()[i]).more by {
            assert(steps[i].more);
        }
        lemma_repo_paging_gathers(states.drop_last(), replies.drop_last(), steps.drop_last());
        assert(is_repo_step(states[n], replies[n], states[n + 1], Ok(steps[n])));
        assert(states.drop_last().last() == states[n]);
        assert forall|i: int| 0 <= i < replies.len() implies (#[trigger] states[i]).page == i
            + 1 by {
            if i < n {
                assert(states.drop_last()[i].page == i + 1);
            } else if n > 0 {
                assert(states.drop_last()[n - 1].page == n);
                assert(steps[n - 1].more);
                assert(is_repo_step(states[n - 1], replies[n - 1], states[n], Ok(steps[n - 1])));
            }
        }
    }
}

/// The repositories to look at, each once, and the report on them.
pub fn discovered_repos(repos: Vec<Repo>) -> (r: (Vec<Repo>, Event))
    ensures
        r.0@ == collect::absorbed(Seq::empty(), repos@, collect::repo_key()),
        r.1 matches Event::DiscoveredRepos { count, repos: names } && count == r.0@.len()
            && names.deep_view() == Seq::new(r.0@.len(), |i: int| r.0@[i].full_name@),
{
    let unique = unique_repos(repos);
    let mut names: Vec<String> = Vec::new();
    for i in 0..unique.len()
        invariant
            names@.len() == i,
            forall|k: int| 0 <= k < i ==> (#[trigger] names@[k])@ == unique@[k].full_name@,
    {
        names.push(copy_text(unique[i].full_name.as_str()));
    }
    assert(names.deep_view() =~= Seq::new(unique@.len(), |i: int| unique@[i].full_name@));
    let count = unique.len();
    (unique, Event::DiscoveredRepos { count, repos: names })
}

/// The commits of a repository, read page by page.
#[derive(Debug)]
pub struct CommitPaging {
    pub repo: String,
    pub all: Vec<CommitRecord>,
    pub page: usize,
}

/// Whether `records` are what is recorded of the commits of a repository.
pub open spec fn are_records(
    records: Seq<CommitRecord>,
    repo: Seq<char>,
    commits: Seq<GitHubCommit>,
) -> bool {
    &&& records.len() == commits.len()
    &&& forall|i: int|
        0 <= i < commits.len() ==> record::is_commit_model(
            (#[trigger] records[i])@,
            repo,
            commits[i].sha@,
            commits[i].html_url@,
            commits[i].commit,
        )
}

/// Records the commits of a repository.
fn record_all(repo: &str, commits: Vec<GitHubCommit>) -> (r: Vec<CommitRecord>)
    ensures
        are_records(r@, repo@, commits@),
{
    let mut r: Vec<CommitRecord> = Vec::new();
    for commit in it: commits
        invariant
            it.seq() == commits@,
            r@.len() == it.index(),
            forall|i: int|
                0 <= i < it.index() ==> record::is_commit_model(
                    (#[trigger] r@[i])@,
                    repo@,
                    commits@[i].sha@,
                    commits@[i].html_url@,
                    commits@[i].commit,
                ),
    {
        assert(commit == commits@[it.index()]);
        r.push(record_commit(repo, commit.sha, commit.html_url, commit.commit));
    }
    r
}

/// Whether `r` and `after` are what a page of commits makes of `before`.
pub open spec fn is_commit_step(
    before: CommitPaging,
    reply: PageReply<GitHubCommit>,
    after: CommitPaging,
    r: Result<PageStep, ApiError>,
) -> bool {
    let has_next = http::announces_next(reply.headers@);
    &&& after.repo == before.repo
    &&& if reply.status@ == 404 {
        &&& r matches Err(e)
        &&& e.text@ == "Repo "@ + before.repo@ + " not found or inaccessible"@
        &&& after == before
    } else if !http::is_success(reply.status@) {
        &&& r matches Err(e)
        &&& e.text@ == http::error_text(
            reply.status@,
            reply.headers@,
            reply.body@,
            with_page("fetch commits for "@ + before.repo@, before.page as nat),
        )
        &&& after == before
    } else {
        match reply.items {
            None => {
                &&& r matches Err(e)
                &&& e.text@ == "failed to parse commits response"@
                &&& after == before
            },
            Some(items) => {
                &&& r matches Ok(step)
                &&& step.event matches Event::RepoCommitsPage {
                    repo,
                    page,
                    items: count,
                    has_next: announced,
                } && repo@ == before.repo@ && page == before.page && count == items@.len()
                    && announced == has_next
                &&& step.more == (has_next && items@.len() > 0)
                &&& before.all@.is_prefix_of(after.all@)
                &&& are_records(after.all@.skip(before.all@.len() as int), before.repo@, items@)
                &&& after.page == before.page + if step.more {
                    1int
                } else {
                    0
                }
            },
        }
    }
}

impl CommitPaging {
    /// Before the first page of the commits of a repository.
    pub fn new(repo: &str) -> (r: CommitPaging)
        ensures
            r.repo@ == repo@,
            r.all@ == Seq::<CommitRecord>::empty(),
            r.page == 1,
    {
        CommitPaging { repo: copy_text(repo), all: Vec::new(), page: 1 }
    }

    /// Takes in the response to the request for the current page.
    pub fn step(&mut self, reply: PageReply<GitHubCommit>) -> (r: Result<PageStep, ApiError>)
        requires
            old(self).page < usize::MAX,
        ensures
            is_commit_step(*old(self), reply, *final(self), r),
    {
        if reply.status.code() == 404 {
            let mut text = copy_text("Repo ");
            text.append(self.repo.as_str());
            text.append(" not found or inaccessible");
            return Err(ApiError { text });
        }
        if !reply.status.is_success() {
            let mut label = copy_text("fetch commits for ");
            label.append(self.repo.as_str());
            let context = with_page_number(label.as_str(), self.page);
            return Err(
                ApiError {
                    text: format_error(
                        reply.status,
                        &reply.headers,
                        reply.body.as_str(),
                        context.as_str(),
                    ),
                },
            );
        }
        let has_next = has_next_link(&reply.headers);
        match reply.items {
            None => Err(ApiError { text: copy_text("failed to parse commits response") }),
            Some(items) => {
                let count = items.len();
                let event = Event::RepoCommitsPage {
                    repo: copy_text(self.repo.as_str()),
                    page: self.page,
                    items: count,
                    has_next,
                };
                let ghost before = self.all@;
                let mut records = record_all(self.repo.as_str(), items);
                let ghost new = records@;
                self.all.append(&mut records);
                assert(self.all@.skip(before.len() as int) =~= new);
                let more = has_next && count > 0;
                if more {
                    self.page = self.page + 1;
                }
                Ok(PageStep { event, more })
            },
        }
    }
}

/// Paging gathers what is recorded of the commits of all pages, one after another, and it asks for
/// the pages by their numbers, from the first on, as long as each asks for more.
pub proof fn lemma_commit_paging_gathers(
    states: Seq<CommitPaging>,
    replies: Seq<PageReply<GitHubCommit>>,
    steps: Seq<PageStep>,
)
    requires
        states.len() == replies.len() + 1,
        steps.len() == replies.len(),
        states[0].all@ == Seq::<CommitRecord>::empty(),
        states[0].page == 1,
        forall|i: int|
            0 <= i < replies.len() ==> is_commit_step(
                #[trigger] states[i],
                replies[i],
                states[i + 1],
                Ok(steps[i]),
            ),
        forall|i: int| 0 <= i < replies.len() - 1 ==> (#[trigger] steps[i]).more,
    ensures
        states.last().repo == states[0].repo,
        are_records(states.last().all@, states[0].repo@, all_items(replies)),
        forall|i: int| 0 <= i < replies.len() ==> (#[trigger] states[i]).page == i + 1,
    decreases replies.len(),
{
    lemma_commit_pages_in_turn(states, replies, steps);
    if replies.len() > 0 {
        let n = replies.len() - 1;
        assert forall|i: int| 0 <= i < n implies is_commit_step(
            #[trigger] states.drop_last()[i],
            replies.drop_last()[i],
            states.drop_last()[i + 1],
            Ok(steps.drop_last()[i]),
        ) by {
            assert(is_commit_step(states[i], replies[i], states[i + 1], Ok(steps[i])));
        }
        assert forall|i: int| 0 <= i < n - 1 implies (#[trigger] steps.drop_last()[i]).more by {
            assert(steps[i].more);
        }
        lemma_commit_paging_gathers(states.drop_last(), replies.drop_last(), steps.drop_last());
        assert(is_commit_step(states[n], replies[n], states[n + 1], Ok(steps[n])));
        assert(states.drop_last().last() == states[n]);
        let before = states[n].all@;
        let after = states[n + 1].all@;
        let earlier = all_items(replies.drop_last());
        let items = replies[n].items->0@;
        assert(all_items(replies) == earlier + items);
        assert forall|i: int| 0 <= i < all_items(replies).len() implies record::is_commit_model(
            (#[trigger] after[i])@,
            states[0].repo@,
            all_items(replies)[i].sha@,
            all_items(replies)[i].html_url@,
            all_items(replies)[i].commit,
        ) by {
            if i < before.len() {
                assert(after[i] == before[i]);
                assert(all_items(replies)[i] == earlier[i]);
            } else {
                let k = i - before.len();
                assert(after.skip(before.len() as int)[k] == after[i]);
                assert(all_items(replies)[i] == items[k]);
            }
        }
    }
}

/// Paging asks for the pages of commits by their numbers.
proof fn lemma_commit_pages_in_turn(
    states: Seq<CommitPaging>,
    replies: Seq<PageReply<GitHubCommit>>,
    steps: Seq<PageStep>,
)
    requires
        states.len() == replies.len() + 1,
        steps.len() == replies.len(),
        states[0].page == 1,
        forall|i: int|
            0 <= i < replies.len() ==> is_commit_step(
                #[trigger] states[i],
                replies[i],
                states[i + 1],
                Ok(steps[i]),
            ),
        forall|i: int| 0 <= i < replies.len() - 1 ==> (#[trigger] steps[i]).more,
    ensures
        forall|i: int| 0 <= i < replies.len() ==> (#[trigger] states[i]).page == i + 1,
{
    assert forall|i: int| 0 <= i < replies.len() implies (#[trigger] states[i]).page == i + 1 by {
        lemma_commit_page_number(states, replies, steps, i);
    }
}

/// The number of the page that is asked for after `i` pages.
proof fn lemma_commit_page_number(
    states: Seq<CommitPaging>,
    replies: Seq<PageReply<GitHubCommit>>,
    steps: Seq<PageStep>,
    i: int,
)
    requires
        0 <= i < replies.len(),
        states.len() == replies.len() + 1,
        steps.len() == replies.len(),
        states[0].page == 1,
        forall|k: int|
            0 <= k < replies.len() ==> is_commit_step(
                #[trigger] states[k],
                replies[k],
                states[k + 1],
                Ok(steps[k]),
            ),
        forall|k: int| 0 <= k < replies.len() - 1 ==> (#[trigger] steps[k]).more,
    ensures
        states[i].page == i + 1,
    decreases i,
{
    if i > 0 {
        lemma_commit_page_number(states, replies, steps, i - 1);
        assert(is_commit_step(states[i - 1], replies[i - 1], states[i], Ok(steps[i - 1])));
        assert(steps[i - 1].more);
    }
}

/// Every commit of a page belongs to the repository that was asked for.
pub proof fn lemma_commit_step_repo(
    before: CommitPaging,
    reply: PageReply<GitHubCommit>,
    after: CommitPaging,
    r: Result<PageStep, ApiError>,
)
    requires
        is_commit_step(before, reply, after, r),
        forall|i: int| 0 <= i < before.all@.len() ==> (#[trigger] before.all@[i]).repo@
            == before.repo@,
    ensures
        forall|i: int| 0 <= i < after.all@.len() ==> (#[trigger] after.all@[i]).repo@
            == before.repo@,
{
    let n = before.all@.len() as int;
    assert forall|i: int| 0 <= i < after.all@.len() implies (#[trigger] after.all@[i]).repo@
        == before.repo@ by {
        if i < n {
            assert(after.all@[i] == before.all@[i]);
        } else {
            assert(after.all@.skip(n)[i - n] == after.all@[i]);
            assert(after.all@.skip(n)[i - n]@.repo == before.repo@);
        }
    }
}

/// Commits that a scan of each repository gathers.
#[derive(Debug)]
pub struct Scan {
    pub kept: Vec<CommitRecord>,
}

impl Scan {
    /// Before the first repository.
    pub fn new() -> (r: Scan)
        ensures
            r.kept@ == Seq::<CommitRecord>::empty(),
    {
        Scan { kept: Vec::new() }
    }

    /// The report that the scan of a repository begins.
    pub fn start(repo: &Repo) -> (r: Event)
        ensures
            r matches Event::RepoScanStart { repo: name } && name@ == repo.full_name@,
    {
        Event::RepoScanStart { repo: copy_text(repo.full_name.as_str()) }
    }

    /// What the scan of a repository was for, should it fail.
    pub fn failure_context(repo: &Repo) -> (r: String)
        ensures
            r@ == "fetching commits for "@ + repo.full_name@,
    {
        let mut r = copy_text("fetching commits for ");
        r.append(repo.full_name.as_str());
        r
    }

    /// Takes in the commits of a repository; a commit that is there already is dropped.
    pub fn add(&mut self, repo: &Repo, commits: Vec<CommitRecord>) -> (r: Event)
        ensures
            final(self).kept@ == collect::absorbed(
                old(self).kept@,
                commits@,
                collect::commit_key(),
            ),
            r matches Event::RepoScanFinish { repo: name, commit_count } && name@
                == repo.full_name@ && commit_count == commits@.len(),
    {
        let commit_count = commits.len();
        absorb_commits(&mut self.kept, commits);
        Event::RepoScanFinish { repo: copy_text(repo.full_name.as_str()), commit_count }
    }

    /// The commits in the order of time, and the report on them.
    pub fn finish(self) -> (r: (Vec<CommitRecord>, Event))
        ensures
            order::is_stable_sort(r.0@, self.kept@),
            r.1 matches Event::DedupComplete { unique_commits } && unique_commits == r.0@.len(),
    {
        let sorted = sort_by_time(self.kept);
        let unique_commits = sorted.len();
        (sorted, Event::DedupComplete { unique_commits })
    }
}

/// The text of the search for the commits of an author in a range of time.
pub open spec fn search_text(
    author: Seq<char>,
    since: (int, int),
    until: (int, int),
    filter: Option<RepoFilter>,
) -> Seq<char> {
    "author:"@ + author + " committer-date:"@ + calendar::rfc3339_text(since.0, since.1) + ".."@
        + calendar::rfc3339_text(until.0, until.1) + match filter {
        Some(f) => " repo:"@ + f.owner@ + "/"@ + f.name@,
        None => seq![],
    }
}

/// The text of the search for the commits of an author in a range of time.
pub fn search_query(
    author: &str,
    since: &Timestamp,
    until: &Timestamp,
    filter: &Option<RepoFilter>,
) -> (r: String)
    ensures
        r@ == search_text(author@, since@, until@, *filter),
        filter is None ==> r@ == "author:"@ + author@ + " committer-date:"@ + calendar::rfc3339_text(
            since@.0,
            since@.1,
        ) + ".."@ + calendar::rfc3339_text(until@.0, until@.1),
        *filter matches Some(f) ==> r@ == "author:"@ + author@ + " committer-date:"@
            + calendar::rfc3339_text(since@.0, since@.1) + ".."@ + calendar::rfc3339_text(
            until@.0,
            until@.1,
        ) + (" repo:"@ + f.owner@ + "/"@ + f.name@),
{
    let mut r = copy_text("author:");
    r.append(author);
    r.append(" committer-date:");
    r.append(since.to_rfc3339().as_str());
    r.append("..");
    r.append(until.to_rfc3339().as_str());
    let ghost start = r@;
    match filter {
        Some(f) => {
            r.append(" repo:");
            r.append(f.owner.as_str());
            r.append("/");
            r.append(f.name.as_str());
            assert(r@ =~= start + (" repo:"@ + f.owner@ + "/"@ + f.name@));
        },
        None => {
            assert(r@ =~= start + seq![]);
        },
    }
    r
}

/// The query of a page of a search.
pub open spec fn search_pairs(query: Seq<char>, page: nat) -> Seq<(Seq<char>, Seq<char>)> {
    page_pairs(seq![("q"@, query), ("sort"@, "committer-date"@), ("order"@, "desc"@)], page)
}

/// The address of a page of a search; `None` where the query cannot be added to it.
pub fn search_url(base: &str, query: &str, page: usize) -> (r: Option<Result<String, String>>)
    ensures
        r is Some <==> http::address_fits(
            base@,
            "search/commits"@,
            search_pairs(query@, page as nat),
        ),
        r matches Some(u) ==> http::result_view(u) == http::request_address(
            base@,
            "search/commits"@,
            search_pairs(query@, page as nat),
        ),
        r matches Some(u) ==> http::result_view(u) == (match http::joined_address(
            base@,
            "search/commits"@,
        ) {
            Ok(_) => Ok::<Seq<char>, Seq<char>>(
                http::address_with_pairs(
                    base@,
                    "search/commits"@,
                    seq![
                        ("q"@, query@),
                        ("sort"@, "committer-date"@),
                        ("order"@, "desc"@),
                        ("per_page"@, "100"@),
                        ("page"@, number::decimal(page as nat)),
                    ],
                ),
            ),
            Err(e) => Err(e),
        }),
{
    proof {
        assert(search_pairs(query@, page as nat) =~= seq![
            ("q"@, query@),
            ("sort"@, "committer-date"@),
            ("order"@, "desc"@),
            ("per_page"@, "100"@),
            ("page"@, number::decimal(page as nat)),
        ]);
    }
    let mut params: Vec<(String, String)> = Vec::new();
    params.push((copy_text("q"), copy_text(query)));
    params.push((copy_text("sort"), copy_text("committer-date")));
    params.push((copy_text("order"), copy_text("desc")));
    assert(params.deep_view() =~= seq![
        ("q"@, query@),
        ("sort"@, "committer-date"@),
        ("order"@, "desc"@),
    ]);
    page_url(base, "search/commits", &params, page)
}

/// What comes of the request for a page of a search.
#[derive(Debug)]
pub enum SearchReply {
    /// The request could not be made; why.
    Failed(String),
    /// A response; `payload` is what the body could be read as, or why it could not.
    Page {
        status: Status,
        headers: Headers,
        body: String,
        payload: Result<SearchCommitsResponse, String>,
    },
}

/// A search that is read page by page.
#[derive(Debug)]
pub struct Search {
    pub all: Vec<CommitRecord>,
    pub page: usize,
}

/// What to report of a page, and whether to ask for the next page, or why the search is given
/// up.
#[derive(Debug)]
pub struct SearchStep {
    pub events: Vec<Event>,
    pub outcome: Result<bool, ApiError>,
}

/// The largest number of results that a search gives in full.
pub const SEARCH_LIMIT: u64 = 1000;

/// Whether `records` are what is recorded of the commits that a search found.
pub open spec fn are_found(
    records: Seq<CommitRecord>,
    items: Seq<SearchCommitItem>,
) -> bool {
    &&& records.len() == items.len()
    &&& forall|i: int|
        0 <= i < items.len() ==> record::is_commit_model(
            (#[trigger] records[i])@,
            items[i].repository.full_name@,
            items[i].sha@,
            items[i].html_url@,
            items[i].commit,
        )
}

/// Records the commits that a search found.
fn record_found(items: Vec<SearchCommitItem>) -> (r: Vec<CommitRecord>)
    ensures
        are_found(r@, items@),
{
    let mut r: Vec<CommitRecord> = Vec::new();
    for item in it: items
        invariant
            it.seq() == items@,
            r@.len() == it.index(),
            forall|i: int|
                0 <= i < it.index() ==> record::is_commit_model(
                    (#[trigger] r@[i])@,
                    items@[i].repository.full_name@,
                    items@[i].sha@,
                    items@[i].html_url@,
                    items@[i].commit,
                ),
    {
        assert(item == items@[it.index()]);
        r.push(
            record_commit(
                item.repository.full_name.as_str(),
                item.sha,
                item.html_url,
                item.commit,
            ),
        );
    }
    r
}

/// `true` or `false`.
pub open spec fn bool_text(b: bool) -> Seq<char> {
    if b {
        "true"@
    } else {
        "false"@
    }
}

/// Whether a search does not give all results.
pub open spec fn is_incomplete(payload: SearchCommitsResponse) -> bool {
    payload.total_count > SEARCH_LIMIT || payload.incomplete_results
}

/// What is said of a search that does not give all results.
pub open spec fn incomplete_text(payload: SearchCommitsResponse) -> Seq<char> {
    "commit search incomplete (total_count="@ + number::decimal(payload.total_count as nat)
        + ", incomplete_results="@ + bool_text(payload.incomplete_results) + ")"@
}

/// Whether the only event is that the search is given up, and why.
pub open spec fn gives_up(events: Seq<Event>, page: usize, why: spec_fn(Fallback) -> bool) -> bool {
    events.len() == 1 && (events[0] matches Event::FallingBack { page: p, why: w } && p == page
        && why(w))
}

/// Whether `r` and `after` are what a page of a search makes of `before`.
pub open spec fn is_search_step(
    before: Search,
    reply: SearchReply,
    after: Search,
    r: SearchStep,
) -> bool {
    match reply {
        SearchReply::Failed(error) => {
            &&& gives_up(
                r.events@,
                before.page,
                |w: Fallback| w matches Fallback::RequestFailed { error: e } && e@ == error@,
            )
            &&& r.outcome matches Err(e) && e.text@ == error@
            &&& after == before
        },
        SearchReply::Page { status, headers, body, payload } => if !http::is_success(status@) {
            &&& gives_up(
                r.events@,
                before.page,
                |w: Fallback| w matches Fallback::HttpError { status: s } && s == status@,
            )
            &&& r.outcome matches Err(e) && e.text@ == http::error_text(
                status@,
                headers@,
                body@,
                with_page("search commits"@, before.page as nat),
            )
            &&& after == before
        } else {
            match payload {
                Err(error) => {
                    &&& gives_up(
                        r.events@,
                        before.page,
                        |w: Fallback| w matches Fallback::DecodeFailed { error: e } && e@ == error@,
                    )
                    &&& r.outcome matches Err(e) && e.text@
                        == "failed to parse commit search response: "@ + error@
                    &&& after == before
                },
                Ok(payload) => {
                    let has_next = http::announces_next(headers@);
                    let more = has_next && payload.items@.len() > 0;
                    &&& r.events@.len() > 0
                    &&& r.events@[0] matches Event::SearchPage {
                        page,
                        items,
                        total_count,
                        incomplete_results,
                    } && page == before.page && items == payload.items@.len() && total_count
                        == payload.total_count && incomplete_results == payload.incomplete_results
                    &&& if is_incomplete(payload) {
                        &&& gives_up(
                            r.events@.skip(1),
                            before.page,
                            |w: Fallback|
                                w matches Fallback::Incomplete { total_count, incomplete_results }
                                    && total_count == payload.total_count && incomplete_results
                                    == payload.incomplete_results,
                        )
                        &&& r.outcome matches Err(e) && e.text@ == incomplete_text(payload)
                        &&& after == before
                    } else {
                        &&& r.events@.len() == 1
                        &&& r.outcome matches Ok(m) && m == more
                        &&& exists|found: Seq<CommitRecord>|
                            #[trigger] are_found(found, payload.items@) && after.all@
                                == collect::absorbed(before.all@, found, collect::commit_key())
                        &&& after.page == before.page + if more {
                            1int
                        } else {
                            0
                        }
                    }
                },
            }
        },
    }
}

/// A step with the one event that the search is given up.
fn give_up(page: usize, why: Fallback, text: String) -> (r: SearchStep)
    ensures
        r.events@ == seq![Event::FallingBack { page, why }],
        r.outcome matches Err(e) && e.text == text,
{
    let mut events: Vec<Event> = Vec::new();
    events.push(Event::FallingBack { page, why });
    assert(events@ =~= seq![Event::FallingBack { page, why }]);
    SearchStep { events, outcome: Err(ApiError { text }) }
}

impl Search {
    /// Before the first page.
    pub fn new() -> (r: Search)
        ensures
            r.all@ == Seq::<CommitRecord>::empty(),
            r.page == 1,
    {
        Search { all: Vec::new(), page: 1 }
    }

    /// Takes in what came of the request for the current page.
    pub fn step(&mut self, reply: SearchReply) -> (r: SearchStep)
        requires
            old(self).page < usize::MAX,
        ensures
            is_search_step(*old(self), reply, *final(self), r),
    {
        let page = self.page;
        match reply {
            SearchReply::Failed(error) => {
                let text = copy_text(error.as_str());
                give_up(page, Fallback::RequestFailed { error }, text)
            },
            SearchReply::Page { status, headers, body, payload } => {
                if !status.is_success() {
                    let context = with_page_number("search commits", page);
                    let text = format_error(status, &headers, body.as_str(), context.as_str());
                    return give_up(page, Fallback::HttpError { status: status.code() }, text);
                }
                let has_next = has_next_link(&headers);
                match payload {
                    Err(error) => {
                        let mut text = copy_text("failed to parse commit search response: ");
                        text.append(error.as_str());
                        give_up(page, Fallback::DecodeFailed { error }, text)
                    },
                    Ok(payload) => {
                        let count = payload.items.len();
                        let total_count = payload.total_count;
                        let incomplete_results = payload.incomplete_results;
                        let mut events: Vec<Event> = Vec::new();
                        events.push(
                            Event::SearchPage { page, items: count, total_count, incomplete_results },
                        );
                        if total_count > SEARCH_LIMIT || incomplete_results {
                            let why = Fallback::Incomplete { total_count, incomplete_results };
                            events.push(Event::FallingBack { page, why });
                            let mut text = copy_text("commit search incomplete (total_count=");
                            text.append(decimal_text(total_count).as_str());
                            text.append(", incomplete_results=");
                            text.append(
                                if incomplete_results {
                                    "true"
                                } else {
                                    "false"
                                },
                            );
                            text.append(")");
                            return SearchStep { events, outcome: Err(ApiError { text }) };
                        }
                        let found = record_found(payload.items);
                        absorb_commits(&mut self.all, found);
                        let more = has_next && count > 0;
                        if more {
                            self.page = page + 1;
                        }
                        SearchStep { events, outcome: Ok(more) }
                    },
                }
            },
        }
    }

    /// The commits in the order of time, and the report on them.
    pub fn finish(self) -> (r: (Vec<CommitRecord>, Event))
        ensures
            order::is_stable_sort(r.0@, self.all@),
            r.1 matches Event::DedupComplete { unique_commits } && unique_commits == r.0@.len(),
    {
        let sorted = sort_by_time(self.all);
        let unique_commits = sorted.len();
        (sorted, Event::DedupComplete { unique_commits })
    }
}

/// A search never holds a commit twice, whatever comes of its requests.
pub proof fn lemma_search_step_distinct(
    before: Search,
    reply: SearchReply,
    after: Search,
    r: SearchStep,
)
    requires
        is_search_step(before, reply, after, r),
        collect::distinct_keys(before.all@, collect::commit_key()),
    ensures
        collect::distinct_keys(after.all@, collect::commit_key()),
{
    if r.outcome is Ok {
        let items = reply->payload->Ok_0.items@;
        let found = choose|found: Seq<CommitRecord>|
            #[trigger] are_found(found, items) && after.all@ == collect::absorbed(
                before.all@,
                found,
                collect::commit_key(),
            );
        collect::lemma_absorbed_distinct(before.all@, found, collect::commit_key());
    }
}

/// Whether there is a repository to look at, or what to say where there is none.
pub fn check_discovered(repos: &Vec<Repo>, user: &str) -> (r: Result<(), ApiError>)
    ensures
        r is Ok <==> repos@.len() > 0,
        r matches Err(e) ==> e.text@ == "No repositories found for user "@ + user@,
{
    if repos.len() > 0 {
        Ok(())
    } else {
        let mut text = copy_text("No repositories found for user ");
        text.append(user);
        Err(ApiError { text })
    }
}

/// What follows a search.
#[derive(Debug)]
pub enum AfterSearch {
    /// These are the commits.
    Done(Vec<CommitRecord>),
    /// Each of these repositories is to be scanned.
    ScanEach(Vec<Repo>),
}

/// What follows a search: those of its commits that lie in the range of the query, or a scan of
/// each repository where it failed.
pub fn after_search(
    found: Result<Vec<CommitRecord>, ApiError>,
    repos: Vec<Repo>,
    query: &CommitQuery,
) -> (r: AfterSearch)
    ensures
        match found {
            Ok(commits) => r matches AfterSearch::Done(kept) && kept@ == order::within(
                commits@,
                query.since@,
                query.until@,
            ),
            Err(_) => r == AfterSearch::ScanEach(repos),
        },
        found matches Ok(commits) ==> (r matches AfterSearch::Done(kept) && forall|c: CommitRecord|
            #[trigger] kept@.contains(c) <==> commits@.contains(c) && (query.since@.0
                    < c.timestamp@.0 || (query.since@.0 == c.timestamp@.0 && query.since@.1
                    <= c.timestamp@.1)) && (c.timestamp@.0 < query.until@.0 || (c.timestamp@.0
                    == query.until@.0 && c.timestamp@.1 < query.until@.1))),
{
    match found {
        Ok(commits) => AfterSearch::Done(keep_in_range(commits, &query.since, &query.until)),
        Err(_) => AfterSearch::ScanEach(repos),
    }
}

/// What follows a scan: those of its commits that lie in the range of the query.
pub fn after_scan(commits: Vec<CommitRecord>, query: &CommitQuery) -> (r: Vec<CommitRecord>)
    ensures
        r@ == order::within(commits@, query.since@, query.until@),
        forall|c: CommitRecord| #[trigger]
            r@.contains(c) <==> commits@.contains(c) && (query.since@.0
                    < c.timestamp@.0 || (query.since@.0 == c.timestamp@.0 && query.since@.1
                    <= c.timestamp@.1)) && (c.timestamp@.0 < query.until@.0 || (c.timestamp@.0
                    == query.until@.0 && c.timestamp@.1 < query.until@.1)),
{
    keep_in_range(commits, &query.since, &query.until)
}

/// What is held after some portions of commits have been absorbed, one after another: those of
/// each repository in a scan, those of each page in a search.
pub open spec fn gathered(portions: Seq<Seq<CommitRecord>>) -> Seq<CommitRecord>
    decreases portions.len(),
{
    if portions.len() == 0 {
        seq![]
    } else {
        collect::absorbed(
            gathered(portions.drop_last()),
            portions.last(),
            collect::commit_key(),
        )
    }
}

/// Whether one of the portions has the key of a commit.
pub open spec fn in_a_portion(portions: Seq<Seq<CommitRecord>>, commit: CommitRecord) -> bool {
    exists|p: int|
        0 <= p < portions.len() && collect::has_key(
            #[trigger] portions[p],
            commit,
            collect::commit_key(),
        )
}

/// What is held: no commit twice, and those that were absorbed.
proof fn lemma_gathered(portions: Seq<Seq<CommitRecord>>, commit: CommitRecord)
    ensures
        collect::distinct_keys(gathered(portions), collect::commit_key()),
        collect::has_key(gathered(portions), commit, collect::commit_key()) <==> in_a_portion(
            portions,
            commit,
        ),
    decreases portions.len(),
{
    if portions.len() > 0 {
        let front = portions.drop_last();
        lemma_gathered(front, commit);
        collect::lemma_absorbed_distinct(gathered(front), portions.last(), collect::commit_key());
        collect::lemma_absorbed_keys(
            gathered(front),
            portions.last(),
            collect::commit_key(),
            commit,
        );
        if in_a_portion(front, commit) {
            let p = choose|p: int|
                0 <= p < front.len() && collect::has_key(
                    #[trigger] front[p],
                    commit,
                    collect::commit_key(),
                );
            assert(portions[p] == front[p]);
        }
        if in_a_portion(portions, commit) {
            let p = choose|p: int|
                0 <= p < portions.len() && collect::has_key(
                    #[trigger] portions[p],
                    commit,
                    collect::commit_key(),
                );
            if p < front.len() {
                assert(front[p] == portions[p]);
            }
        }
    }
}

/// The result of a scan or of a search is in the order of time, holds no commit twice, and holds
/// exactly the commits that the repositories or the pages gave, in whatever order those came.
pub proof fn lemma_gathered_result(
    portions: Seq<Seq<CommitRecord>>,
    out: Seq<CommitRecord>,
    commit: CommitRecord,
)
    requires
        order::is_stable_sort(out, gathered(portions)),
    ensures
        order::in_order(out),
        collect::distinct_keys(out, collect::commit_key()),
        collect::has_key(out, commit, collect::commit_key()) <==> in_a_portion(portions, commit),
{
    let all = gathered(portions);
    lemma_gathered(portions, commit);
    collect::lemma_reordered_distinct(all, out, collect::commit_key());
    order::lemma_sort_keeps(out, all);
    let key = collect::commit_key();
    if collect::has_key(out, commit, key) {
        let i = choose|i: int| 0 <= i < out.len() && key(#[trigger] out[i]) == key(commit);
        assert(out.contains(out[i]));
        let j = choose|j: int| 0 <= j < all.len() && all[j] == out[i];
        assert(key(all[j]) == key(commit));
    }
    if collect::has_key(all, commit, key) {
        let i = choose|i: int| 0 <= i < all.len() && key(#[trigger] all[i]) == key(commit);
        assert(out.contains(all[i]));
        let j = choose|j: int| 0 <= j < out.len() && out[j] == all[i];
        assert(key(out[j]) == key(commit));
    }
}

/// What is returned for a query, by way of a scan or of a search: every commit lies in the range,
/// with its start and without its end; they are in the order of time; none comes twice; and each
/// commit of the result of the scan or the search that lies in the range is there.
pub proof fn lemma_fetched(
    portions: Seq<Seq<CommitRecord>>,
    sorted: Seq<CommitRecord>,
    since: (int, int),
    until: (int, int),
)
    requires
        order::is_stable_sort(sorted, gathered(portions)),
    ensures
        ({
            let out = order::within(sorted, since, until);
            &&& forall|i: int|
                0 <= i < out.len() ==> !calendar::precedes(
                    (#[trigger] out[i]).timestamp@,
                    since,
                ) && calendar::precedes(out[i].timestamp@, until)
            &&& order::in_order(out)
            &&& collect::distinct_keys(out, collect::commit_key())
            &&& forall|c: CommitRecord| #[trigger]
                out.contains(c) <==> gathered(portions).contains(c) && order::in_range(
                    since,
                    until,
                )(c)
            &&& forall|c: CommitRecord| #[trigger]
                out.contains(c) <==> gathered(portions).contains(c) && !calendar::precedes(
                    c.timestamp@,
                    since,
                ) && calendar::precedes(c.timestamp@, until)
            &&& forall|i: int, j: int|
                0 <= i < j < out.len() ==> !((#[trigger] out[i]).repo@ == (#[trigger] out[j]).repo@
                    && out[i].sha@ == out[j].sha@) && (out[i].timestamp@.0 < out[j].timestamp@.0
                    || (out[i].timestamp@.0 == out[j].timestamp@.0 && out[i].timestamp@.1
                    <= out[j].timestamp@.1))
        }),
{
    order::lemma_within(sorted, since, until);
    order::lemma_sort_keeps(sorted, gathered(portions));
    if sorted.len() > 0 {
        lemma_gathered_result(portions, sorted, sorted[0]);
    }
    collect::lemma_filtered_distinct(
        sorted,
        order::in_range(since, until),
        collect::commit_key(),
    );
    let out = order::within(sorted, since, until);
    assert forall|c: CommitRecord| #[trigger] out.contains(c) <==> gathered(portions).contains(c)
        && order::in_range(since, until)(c) by {
        assert(sorted.contains(c) <==> gathered(portions).contains(c));
    }
    collect::lemma_commits_distinct(out);
    assert forall|i: int, j: int| 0 <= i < j < out.len() implies (#[trigger] out[i]).timestamp@.0
        < (#[trigger] out[j]).timestamp@.0 || (out[i].timestamp@.0 == out[j].timestamp@.0
        && out[i].timestamp@.1 <= out[j].timestamp@.1) by {
        calendar::lemma_instants_in_order(out[j].timestamp@, out[i].timestamp@);
    }
    assert forall|c: CommitRecord| #[trigger] out.contains(c) <==> gathered(portions).contains(c)
        && !calendar::precedes(c.timestamp@, since) && calendar::precedes(
        c.timestamp@,
        until,
    ) by {
        order::lemma_range_is(sorted, c, since, until);
        assert(sorted.contains(c) <==> gathered(portions).contains(c));
    }
}

/// The commits on a page of a search that was taken in.
pub open spec fn items_found(reply: SearchReply) -> Seq<SearchCommitItem> {
    reply->payload->Ok_0.items@
}

/// Whether `portions` are what is recorded of the pages of a search, page by page.
pub open spec fn are_pages(
    portions: Seq<Seq<CommitRecord>>,
    replies: Seq<SearchReply>,
) -> bool {
    &&& portions.len() == replies.len()
    &&& forall|p: int|
        0 <= p < replies.len() ==> are_found(#[trigger] portions[p], items_found(replies[p]))
}

/// A search gathers what is recorded of its pages, one after another, and it asks for the pages by
/// their numbers, from the first on, as long as each asks for more.
pub proof fn lemma_search_gathers(
    states: Seq<Search>,
    replies: Seq<SearchReply>,
    steps: Seq<SearchStep>,
) -> (portions: Seq<Seq<CommitRecord>>)
    requires
        states.len() == replies.len() + 1,
        steps.len() == replies.len(),
        states[0].all@ == Seq::<CommitRecord>::empty(),
        states[0].page == 1,
        forall|i: int|
            0 <= i < replies.len() ==> is_search_step(
                #[trigger] states[i],
                replies[i],
                states[i + 1],
                steps[i],
            ) && steps[i].outcome is Ok,
        forall|i: int|
            0 <= i < replies.len() - 1 ==> (#[trigger] steps[i]).outcome == Ok::<bool, ApiError>(
                true,
            ),
    ensures
        are_pages(portions, replies),
        states.last().all@ == gathered(portions),
        forall|i: int| 0 <= i < replies.len() ==> (#[trigger] states[i]).page == i + 1,
{
    assert forall|i: int| 0 <= i < replies.len() implies (#[trigger] states[i]).page == i + 1 by {
        lemma_search_page_number(states, replies, steps, i);
    }
    lemma_search_portions(states, replies, steps)
}

/// The number of the page that is asked for after `i` pages.
proof fn lemma_search_page_number(
    states: Seq<Search>,
    replies: Seq<SearchReply>,
    steps: Seq<SearchStep>,
    i: int,
)
    requires
        0 <= i < replies.len(),
        states.len() == replies.len() + 1,
        steps.len() == replies.len(),
        states[0].page == 1,
        forall|k: int|
            0 <= k < replies.len() ==> is_search_step(
                #[trigger] states[k],
                replies[k],
                states[k + 1],
                steps[k],
            ),
        forall|k: int|
            0 <= k < replies.len() - 1 ==> (#[trigger] steps[k]).outcome == Ok::<bool, ApiError>(
                true,
            ),
    ensures
        states[i].page == i + 1,
    decreases i,
{
    if i > 0 {
        lemma_search_page_number(states, replies, steps, i - 1);
        assert(steps[i - 1].outcome == Ok::<bool, ApiError>(true));
        lemma_search_next_page(states[i - 1], replies[i - 1], states[i], steps[i - 1]);
    }
}

/// A page of a search that asks for more leads to the next page.
proof fn lemma_search_next_page(
    before: Search,
    reply: SearchReply,
    after: Search,
    step: SearchStep,
)
    requires
        is_search_step(before, reply, after, step),
        step.outcome == Ok::<bool, ApiError>(true),
    ensures
        after.page == before.page + 1,
{
}

/// A page of a search that is taken in adds what is recorded of it.
proof fn lemma_search_adds(
    before: Search,
    reply: SearchReply,
    after: Search,
    step: SearchStep,
) -> (found: Seq<CommitRecord>)
    requires
        is_search_step(before, reply, after, step),
        step.outcome is Ok,
    ensures
        are_found(found, items_found(reply)),
        after.all@ == collect::absorbed(before.all@, found, collect::commit_key()),
{
    choose|found: Seq<CommitRecord>|
        #[trigger] are_found(found, items_found(reply)) && after.all@ == collect::absorbed(
            before.all@,
            found,
            collect::commit_key(),
        )
}

/// The portions of commits that a search gathers.
proof fn lemma_search_portions(
    states: Seq<Search>,
    replies: Seq<SearchReply>,
    steps: Seq<SearchStep>,
) -> (portions: Seq<Seq<CommitRecord>>)
    requires
        states.len() == replies.len() + 1,
        steps.len() == replies.len(),
        states[0].all@ == Seq::<CommitRecord>::empty(),
        forall|i: int|
            0 <= i < replies.len() ==> is_search_step(
                #[trigger] states[i],
                replies[i],
                states[i + 1],
                steps[i],
            ) && steps[i].outcome is Ok,
    ensures
        are_pages(portions, replies),
        states.last().all@ == gathered(portions),
    decreases replies.len(),
{
    if replies.len() == 0 {
        Seq::empty()
    } else {
        let n = replies.len() - 1;
        assert forall|i: int| 0 <= i < n implies is_search_step(
            #[trigger] states.drop_last()[i],
            replies.drop_last()[i],
            states.drop_last()[i + 1],
            steps.drop_last()[i],
        ) && steps.drop_last()[i].outcome is Ok by {
            assert(is_search_step(states[i], replies[i], states[i + 1], steps[i]));
        }
        let front = lemma_search_portions(
            states.drop_last(),
            replies.drop_last(),
            steps.drop_last(),
        );
        let found = lemma_search_adds(states[n], replies[n], states[n + 1], steps[n]);
        let portions = front.push(found);
        assert(portions.drop_last() =~= front);
        assert(states.drop_last().last() == states[n]);
        assert forall|p: int| 0 <= p < replies.len() implies are_found(
            #[trigger] portions[p],
            items_found(replies[p]),
        ) by {
            if p < n {
                assert(are_found(front[p], items_found(replies.drop_last()[p])));
            }
        }
        portions
    }
}

/// No repository is looked at twice, and every one that was listed is looked at.
pub proof fn lemma_discovered_once(repos: Seq<Repo>, repo: Repo)
    ensures
        ({
            let unique = collect::absorbed(Seq::empty(), repos, collect::repo_key());
            &&& collect::distinct_keys(unique, collect::repo_key())
            &&& collect::has_key(unique, repo, collect::repo_key()) <==> collect::has_key(
                repos,
                repo,
                collect::repo_key(),
            )
        }),
{
    collect::lemma_absorbed_distinct(Seq::empty(), repos, collect::repo_key());
    collect::lemma_absorbed_keys(Seq::empty(), repos, collect::repo_key(), repo);
}

/// What is held with one more commit of the last portion: that commit at the end, unless one with
/// its repository and hash is held; and an empty portion changes nothing.
pub proof fn lemma_gathered_is(
    portions: Seq<Seq<CommitRecord>>,
    portion: Seq<CommitRecord>,
    c: CommitRecord,
)
    ensures
        gathered(Seq::<Seq<CommitRecord>>::empty()) == Seq::<CommitRecord>::empty(),
        gathered(portions.push(Seq::<CommitRecord>::empty())) == gathered(portions),
        ({
            let before = gathered(portions.push(portion));
            gathered(portions.push(portion.push(c))) == if exists|i: int|
                0 <= i < before.len() && (#[trigger] before[i]).repo@ == c.repo@ && before[i].sha@
                    == c.sha@ {
                before
            } else {
                before.push(c)
            }
        }),
{
    assert(portions.push(portion).drop_last() =~= portions);
    assert(portions.push(portion.push(c)).drop_last() =~= portions);
    assert(portions.push(Seq::<CommitRecord>::empty()).drop_last() =~= portions);
    collect::lemma_one_more_commit(gathered(portions), portion, c);
}

/// What a page of repositories comes to: an error response or a body that could not be read stops
/// the list and takes nothing in; otherwise all repositories of the page are taken in, in their
/// order, and the next page is due if and only if one is announced and this one is not empty.
pub proof fn lemma_repo_page_is(
    before: RepoPaging,
    reply: PageReply<Repo>,
    after: RepoPaging,
    r: Result<PageStep, ApiError>,
)
    requires
        is_repo_step(before, reply, after, r),
    ensures
        ({
            let good = 200 <= reply.status@ <= 299;
            let next = http::announces_next(reply.headers@);
            &&& r is Ok <==> good && reply.items is Some
            &&& r is Err ==> after == before
            &&& !good ==> r->Err_0.text@ == http::error_text(
                reply.status@,
                reply.headers@,
                reply.body@,
                before.label@ + " page "@ + number::decimal(before.page as nat),
            )
            &&& good && reply.items is None ==> r->Err_0.text@ == "failed to parse repos response"@
            &&& good && reply.items is Some ==> {
                let items = reply.items->0@;
                &&& after.label == before.label
                &&& after.all@ == before.all@ + items
                &&& r->Ok_0.more <==> next && items.len() > 0
                &&& r->Ok_0.more ==> after.page == before.page + 1
                &&& !r->Ok_0.more ==> after.page == before.page
                &&& r->Ok_0.event == (Event::ReposPage {
                    page: before.page,
                    repos_found: items.len() as usize,
                    has_next: next,
                })
            }
        }),
{
}

/// What a page of commits comes to: a repository that is not found, another error response or a
/// body that could not be read stops the list and takes nothing in; otherwise each commit of the
/// page is recorded, in its order and under the repository that was asked for, and the next page is
/// due if and only if one is announced and this one is not empty.
pub proof fn lemma_commit_page_is(
    before: CommitPaging,
    reply: PageReply<GitHubCommit>,
    after: CommitPaging,
    r: Result<PageStep, ApiError>,
)
    requires
        is_commit_step(before, reply, after, r),
    ensures
        ({
            let good = 200 <= reply.status@ <= 299;
            let next = http::announces_next(reply.headers@);
            &&& r is Ok <==> good && reply.items is Some
            &&& r is Err ==> after == before
            &&& reply.status@ == 404 ==> r->Err_0.text@ == "Repo "@ + before.repo@
                + " not found or inaccessible"@
            &&& !good && reply.status@ != 404 ==> r->Err_0.text@ == http::error_text(
                reply.status@,
                reply.headers@,
                reply.body@,
                "fetch commits for "@ + before.repo@ + " page "@ + number::decimal(
                    before.page as nat,
                ),
            )
            &&& good && reply.items is None ==> r->Err_0.text@
                == "failed to parse commits response"@
            &&& good && reply.items is Some ==> {
                let items = reply.items->0@;
                let n = before.all@.len();
                &&& after.repo == before.repo
                &&& after.all@.len() == n + items.len()
                &&& forall|i: int| 0 <= i < n ==> #[trigger] after.all@[i] == before.all@[i]
                &&& forall|i: int|
                    n <= i < after.all@.len() ==> {
                        let c = #[trigger] after.all@[i];
                        let item = items[i - n];
                        &&& c.repo@ == before.repo@
                        &&& c.sha@ == item.sha@
                        &&& c.url@ == item.html_url@
                        &&& c.message@ == item.commit.message@
                        &&& item.commit.author matches Some(a) ==> c.timestamp@ == a.date@
                            && c.author.deep_view() == a.name.deep_view()
                        &&& item.commit.author is None ==> c.author is None && (
                        item.commit.committer matches Some(m) ==> c.timestamp@ == m.date@)
                        &&& item.commit.committer matches Some(m) ==> c.committer.deep_view()
                            == m.name.deep_view()
                        &&& item.commit.committer is None ==> c.committer is None
                    }
                &&& r->Ok_0.more <==> next && items.len() > 0
                &&& r->Ok_0.more ==> after.page == before.page + 1
                &&& !r->Ok_0.more ==> after.page == before.page
                &&& r->Ok_0.event matches Event::RepoCommitsPage { repo, page, items: count, has_next }
                    && repo@ == before.repo@ && page == before.page && count == items.len()
                    && has_next == next
            }
        }),
{
    if r is Ok {
        let items = reply.items->0@;
        let n = before.all@.len() as int;
        let new = after.all@.skip(n);
        assert forall|i: int| 0 <= i < n implies #[trigger] after.all@[i] == before.all@[i] by {}
        assert forall|i: int| n <= i < after.all@.len() implies ({
            let c = #[trigger] after.all@[i];
            let item = items[i - n];
            &&& c.repo@ == before.repo@
            &&& c.sha@ == item.sha@
            &&& c.url@ == item.html_url@
            &&& c.message@ == item.commit.message@
            &&& item.commit.author matches Some(a) ==> c.timestamp@ == a.date@
                && c.author.deep_view() == a.name.deep_view()
            &&& item.commit.author is None ==> c.author is None && (
            item.commit.committer matches Some(m) ==> c.timestamp@ == m.date@)
            &&& item.commit.committer matches Some(m) ==> c.committer.deep_view()
                == m.name.deep_view()
            &&& item.commit.committer is None ==> c.committer is None
        }) by {
            assert(new[i - n] == after.all@[i]);
            record::lemma_recorded(
                new[i - n]@,
                before.repo@,
                items[i - n].sha@,
                items[i - n].html_url@,
                items[i - n].commit,
            );
        }
    }
}

/// What is recorded of the commits that a search found: each one, in its order, under its own
/// repository.
pub proof fn lemma_found_is(records: Seq<CommitRecord>, items: Seq<SearchCommitItem>)
    requires
        are_found(records, items),
    ensures
        records.len() == items.len(),
        forall|i: int|
            0 <= i < records.len() ==> {
                let c = #[trigger] records[i];
                let item = items[i];
                &&& c.repo@ == item.repository.full_name@
                &&& c.sha@ == item.sha@
                &&& c.url@ == item.html_url@
                &&& c.message@ == item.commit.message@
                &&& item.commit.author matches Some(a) ==> c.timestamp@ == a.date@
                    && c.author.deep_view() == a.name.deep_view()
                &&& item.commit.author is None ==> c.author is None && (
                item.commit.committer matches Some(m) ==> c.timestamp@ == m.date@)
                &&& item.commit.committer matches Some(m) ==> c.committer.deep_view()
                    == m.name.deep_view()
                &&& item.commit.committer is None ==> c.committer is None
            },
{
    assert forall|i: int| 0 <= i < records.len() implies ({
        let c = #[trigger] records[i];
        let item = items[i];
        &&& c.repo@ == item.repository.full_name@
        &&& c.sha@ == item.sha@
        &&& c.url@ == item.html_url@
        &&& c.message@ == item.commit.message@
        &&& item.commit.author matches Some(a) ==> c.timestamp@ == a.date@ && c.author.deep_view()
            == a.name.deep_view()
        &&& item.commit.author is None ==> c.author is None && (item.commit.committer matches Some(
            m,
        ) ==> c.timestamp@ == m.date@)
        &&& item.commit.committer matches Some(m) ==> c.committer.deep_view() == m.name.deep_view()
        &&& item.commit.committer is None ==> c.committer is None
    }) by {
        record::lemma_recorded(
            records[i]@,
            items[i].repository.full_name@,
            items[i].sha@,
            items[i].html_url@,
            items[i].commit,
        );
    }
}

/// What a page of a search comes to. It is given up, with its reason and without taking anything
/// in, where the request failed, the response is an error or could not be read, more than a
/// thousand commits are found or not all are given. Otherwise the commits of the page are taken in,
/// and the next page is due if and only if one is announced and this one is not empty.
pub proof fn lemma_search_page_is(
    before: Search,
    reply: SearchReply,
    after: Search,
    r: SearchStep,
)
    requires
        is_search_step(before, reply, after, r),
    ensures
        r.outcome is Ok <==> (reply matches SearchReply::Page { status, headers, body, payload }
            && 200 <= status@ <= 299 && (payload matches Ok(p) && p.total_count <= 1000
            && !p.incomplete_results)),
        r.outcome is Err ==> after == before,
        r.outcome matches Ok(more) ==> {
            let items = items_found(reply);
            &&& more <==> http::announces_next(reply->headers@) && items.len() > 0
            &&& more ==> after.page == before.page + 1
            &&& !more ==> after.page == before.page
            &&& r.events@.len() == 1
            &&& exists|found: Seq<CommitRecord>|
                #[trigger] are_found(found, items) && after.all@ == collect::absorbed(
                    before.all@,
                    found,
                    collect::commit_key(),
                )
        },
        reply matches SearchReply::Failed(error) ==> r.outcome->Err_0.text@ == error@,
        reply matches SearchReply::Page { status, headers, body, payload } ==> {
            let good = 200 <= status@ <= 299;
            &&& !good ==> r.outcome->Err_0.text@ == http::error_text(
                status@,
                headers@,
                body@,
                "search commits page "@ + number::decimal(before.page as nat),
            )
            &&& good ==> (payload matches Err(error) ==> r.outcome->Err_0.text@
                == "failed to parse commit search response: "@ + error@)
            &&& good && payload is Ok && (payload->Ok_0.total_count > 1000
                || payload->Ok_0.incomplete_results) ==> r.outcome->Err_0.text@
                == "commit search incomplete (total_count="@ + number::decimal(
                payload->Ok_0.total_count as nat,
            ) + ", incomplete_results="@ + (if payload->Ok_0.incomplete_results {
                "true"@
            } else {
                "false"@
            }) + ")"@
        },
{
    reveal_strlit("search commits page ");
    reveal_strlit("search commits");
    reveal_strlit(" page ");
    assert("search commits page "@ =~= "search commits"@ + " page "@);
    if r.outcome is Ok {
        let found = lemma_search_adds(before, reply, after, r);
        assert(are_found(found, items_found(reply)) && after.all@ == collect::absorbed(
            before.all@,
            found,
            collect::commit_key(),
        ));
        assert(items_found(reply) == reply->payload->Ok_0.items@);
    }
}

/// What a search reports of a page: its number and counts where the body could be read, and where
/// the search is given up the reason, last.
pub proof fn lemma_search_reports(
    before: Search,
    reply: SearchReply,
    after: Search,
    r: SearchStep,
)
    requires
        is_search_step(before, reply, after, r),
    ensures
        r.outcome is Err ==> r.events@.len() > 0 && (r.events@.last() matches Event::FallingBack {
            page,
            why,
        } && page == before.page && (match reply {
            SearchReply::Failed(error) => why matches Fallback::RequestFailed { error: e } && e@
                == error@,
            SearchReply::Page { status, headers, body, payload } => if !(200 <= status@ <= 299) {
                why matches Fallback::HttpError { status: s } && s == status@
            } else {
                match payload {
                    Err(error) => why matches Fallback::DecodeFailed { error: e } && e@ == error@,
                    Ok(p) => why matches Fallback::Incomplete { total_count, incomplete_results }
                        && total_count == p.total_count && incomplete_results
                        == p.incomplete_results,
                }
            },
        })),
        reply matches SearchReply::Page { status, headers, body, payload } ==> (200 <= status@ <= 299
            && payload is Ok ==> r.events@.len() > 0 && (r.events@[0] matches Event::SearchPage {
            page,
            items,
            total_count,
            incomplete_results,
        } && page == before.page && items == payload->Ok_0.items@.len() && total_count
            == payload->Ok_0.total_count && incomplete_results
            == payload->Ok_0.incomplete_results)),
{
    if let SearchReply::Page { status, headers, body, payload } = reply {
        if http::is_success(status@) && payload is Ok && r.outcome is Err {
            assert(r.events@.skip(1).len() == 1);
            assert(r.events@.skip(1)[0] == r.events@[1]);
            assert(r.events@.last() == r.events@[1]);
        }
    }
}

/// The text of a search names the author, the range of time and the repository, in this order.
pub proof fn lemma_search_text_is(
    author: Seq<char>,
    since: (int, int),
    until: (int, int),
    filter: RepoFilter,
)
    ensures
        search_text(author, since, until, None) == "author:"@ + author + " committer-date:"@
            + calendar::rfc3339_text(since.0, since.1) + ".."@ + calendar::rfc3339_text(
            until.0,
            until.1,
        ),
        search_text(author, since, until, Some(filter)) == search_text(author, since, until, None)
            + (" repo:"@ + filter.owner@ + "/"@ + filter.name@),
{
    let start = "author:"@ + author + " committer-date:"@ + calendar::rfc3339_text(
        since.0,
        since.1,
    ) + ".."@ + calendar::rfc3339_text(until.0, until.1);
    assert(search_text(author, since, until, None) =~= start);
}

} // verus!
