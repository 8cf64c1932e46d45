use annals::calendar::Timestamp;
use annals::events::{commits_ready, Event, Fallback};
use annals::github::{
    after_scan, after_search, authenticated_params, check_discovered, commit_params, commits_path,
    discovered_repos, login_from_reply, page_params, page_url, public_repos_path,
    repo_from_reply, repo_path, repo_source, repo_source_for, search_query, search_url,
    AfterSearch, CommitPaging, PageReply, RepoPaging, RepoSource, Scan, Search, SearchReply,
};
use annals::http::{plain_url, ApiError, Headers, Status};
use annals::record::{
    record_commit, record_commit_at, CommitInfo, CommitUser, GitHubCommit, SearchCommitItem,
    SearchCommitRepo, SearchCommitsResponse,
};
use annals::summarize::{plan_summary, SummaryRun};
use annals::{
    build_commit_query, CommitQuery, CommitQueryInput, CommitRecord, FetchOpts, Repo, RepoFilter,
    RepoOwner,
};

const NEXT: &str =
    "</users/me/repos?page=2>; rel=\"next\", </users/me/repos?page=2>; rel=\"last\"";

fn at(text: &str) -> Timestamp {
    Timestamp::parse_rfc3339(text).unwrap()
}

fn ok() -> Status {
    Status::new(200).unwrap()
}

fn status(code: u16) -> Status {
    Status::new(code).unwrap()
}

fn no_headers() -> Headers {
    Headers { entries: Vec::new() }
}

fn link(value: &str) -> Headers {
    Headers { entries: vec![("link".to_string(), value.as_bytes().to_vec())] }
}

fn repo(owner: &str, name: &str) -> Repo {
    Repo {
        name: name.into(),
        full_name: format!("{}/{}", owner, name),
        owner: RepoOwner { login: owner.into() },
    }
}

fn page<T>(headers: Headers, items: Vec<T>) -> PageReply<T> {
    PageReply { status: ok(), headers, body: String::new(), items: Some(items) }
}

fn user(name: &str, date: &str) -> Option<CommitUser> {
    Some(CommitUser { name: Some(name.into()), date: at(date) })
}

fn first_info() -> CommitInfo {
    CommitInfo {
        message: "First".into(),
        author: user("me", "2024-01-01T00:00:00Z"),
        committer: None,
    }
}

fn second_info() -> CommitInfo {
    CommitInfo {
        message: "Second".into(),
        author: None,
        committer: user("ci", "2024-01-02T00:00:00Z"),
    }
}

fn item(repo: &str, sha: &str, commit: CommitInfo) -> SearchCommitItem {
    SearchCommitItem {
        sha: sha.into(),
        html_url: format!("http://example/{}", sha),
        repository: SearchCommitRepo { full_name: repo.into() },
        commit,
    }
}

fn found(total_count: u64, incomplete_results: bool, items: Vec<SearchCommitItem>, headers: Headers) -> SearchReply {
    SearchReply::Page {
        status: ok(),
        headers,
        body: String::new(),
        payload: Ok(SearchCommitsResponse { total_count, incomplete_results, items }),
    }
}

fn record(repo: &str, sha: &str, secs: i64) -> CommitRecord {
    CommitRecord {
        repo: repo.into(),
        sha: sha.into(),
        message: String::new(),
        timestamp: Timestamp::new(secs, 0).unwrap(),
        url: String::new(),
        author: None,
        committer: None,
    }
}

#[test]
fn paginates_repos() {
    let base = "http://127.0.0.1:5000/";
    let mut paging = RepoPaging::new("list public repos");
    let path = public_repos_path("me");
    let url = page_url(base, &path, &Vec::new(), paging.page).unwrap().unwrap();
    assert_eq!(url, "http://127.0.0.1:5000/users/me/repos?per_page=100&page=1");
    let first = paging.step(page(link(NEXT), vec![repo("me", "one")])).unwrap();
    assert!(first.more);
    let url = page_url(base, &path, &Vec::new(), paging.page).unwrap().unwrap();
    assert_eq!(url, "http://127.0.0.1:5000/users/me/repos?per_page=100&page=2");
    let second = paging.step(page(no_headers(), vec![repo("me", "two")])).unwrap();
    assert!(!second.more);
    let repos = paging.all;
    assert_eq!(repos.len(), 2);
    assert_eq!(repos[0].full_name, "me/one");
    assert_eq!(repos[1].full_name, "me/two");
    assert!(matches!(
        first.event,
        Event::ReposPage { page: 1, repos_found: 1, has_next: true }
    ));
    assert_eq!(second.event.name(), "repos_page");
}

#[test]
fn fetches_commits_with_pagination() {
    let repo = repo("me", "demo");
    let commit_one = GitHubCommit {
        sha: "abc1234".into(),
        html_url: "http://example/abc1234".into(),
        commit: first_info(),
    };
    let commit_two = GitHubCommit {
        sha: "def5678".into(),
        html_url: "http://example/def5678".into(),
        commit: second_info(),
    };
    let params = commit_params("me", &at("2024-01-01T00:00:00Z"), &at("2024-01-03T00:00:00Z"));
    assert_eq!(commits_path(&repo), "repos/me/demo/commits");
    let pairs: Vec<(String, String)> = [
        ("author", "me"),
        ("since", "2024-01-01T00:00:00+00:00"),
        ("until", "2024-01-03T00:00:00+00:00"),
        ("per_page", "100"),
        ("page", "1"),
    ]
    .iter()
    .map(|(n, v)| (n.to_string(), v.to_string()))
    .collect();
    assert_eq!(page_params(&params, 1), pairs);

    let mut paging = CommitPaging::new(&repo.full_name);
    let link_next = "</repos/me/demo/commits?page=2>; rel=\"next\", </repos/me/demo/commits?page=2>; rel=\"last\"";
    assert!(paging.step(page(link(link_next), vec![commit_one])).unwrap().more);
    let step = paging.step(page(no_headers(), vec![commit_two])).unwrap();
    assert!(!step.more);
    let commits = paging.all;

    assert_eq!(commits.len(), 2);
    assert_eq!(commits[0].sha, "abc1234");
    assert_eq!(commits[1].sha, "def5678");

    assert_eq!(commits[0].timestamp, at("2024-01-01T00:00:00Z"));
    assert_eq!(commits[1].timestamp, at("2024-01-02T00:00:00Z"));
    assert_eq!(commits[0].repo, "me/demo");
    assert_eq!(commits[0].url, "http://example/abc1234");
    assert_eq!(commits[0].author, Some("me".to_string()));
    assert_eq!(commits[1].author, None);
    assert_eq!(commits[1].committer, Some("ci".to_string()));
    assert!(matches!(
        step.event,
        Event::RepoCommitsPage { page: 2, items: 1, has_next: false, repo } if repo == "me/demo"
    ));
}

#[test]
fn fetches_commits_via_search() {
    let mut search = Search::new();
    let items = vec![
        item("me/demo", "abc1234", first_info()),
        item("me/demo", "def5678", second_info()),
    ];
    let step = search.step(found(2, false, items, no_headers()));
    assert!(matches!(step.outcome, Ok(false)));
    let (commits, event) = search.finish();

    assert_eq!(commits.len(), 2);
    assert_eq!(commits[0].sha, "abc1234");
    assert_eq!(commits[1].repo, "me/demo");
    assert!(matches!(event, Event::DedupComplete { unique_commits: 2 }));
}

#[test]
fn fetches_and_summarizes_programmatically() {
    let query = build_commit_query(
        &CommitQueryInput {
            user: "me".into(),
            since: "2024-01-01".into(),
            until: Some("2024-01-03".into()),
            token: None,
            repo: None,
        },
        &None,
    )
    .expect("query builds");
    let opts = FetchOpts { verbose: false, base_url: Some("http://127.0.0.1:5000/".into()) };

    assert!(matches!(repo_source(&query.repo_filter, &query.token), RepoSource::Public));
    let mut paging = RepoPaging::new("list public repos");
    paging.step(page(no_headers(), vec![repo("me", "demo")])).unwrap();
    let (repos, _) = discovered_repos(paging.all);
    assert!(check_discovered(&repos, &query.user).is_ok());

    let text = search_query(&query.user, &query.since, &query.until, &query.repo_filter);
    let url = search_url(&opts.base_url.unwrap(), &text, 1).unwrap().unwrap();
    assert!(url.starts_with("http://127.0.0.1:5000/search/commits?q=author%3Ame+committer-date"));
    let mut search = Search::new();
    let info = CommitInfo {
        message: "first commit".into(),
        author: user("me", "2024-01-01T00:00:00Z"),
        committer: user("ci", "2024-01-01T00:00:00Z"),
    };
    let step = search.step(found(1, false, vec![item("me/demo", "abc1234", info)], no_headers()));
    assert!(matches!(step.outcome, Ok(false)));
    let commits = match after_search(Ok(search.finish().0), repos, &query) {
        AfterSearch::Done(commits) => commits,
        AfterSearch::ScanEach(_) => panic!("the search gave the commits"),
    };

    assert_eq!(commits.len(), 1);
    assert_eq!(commits[0].sha, "abc1234");

    let mut run = SummaryRun::new(plan_summary(&commits, 1_100).expect("planned"));
    assert_eq!(run.take_reply("partial summary"), None);
    let summary = run.take_reply("final story").expect("summarized");
    let outcome = run.outcome(summary, "openai".into(), "gpt-5".into());

    assert_eq!(outcome.summary, "final story");
    assert_eq!(outcome.total_commits, 1);
}

#[test]
fn a_page_without_items_ends_the_list() {
    let mut paging = RepoPaging::new("list public repos");
    let step = paging.step(page(link(NEXT), Vec::new())).unwrap();
    assert!(!step.more);
    assert_eq!(paging.page, 1);
    let mut commits = CommitPaging::new("me/demo");
    assert!(!commits.step(page(link(NEXT), Vec::new())).unwrap().more);
    let mut search = Search::new();
    let step = search.step(found(0, false, Vec::new(), link(NEXT)));
    assert!(matches!(step.outcome, Ok(false)));
}

#[test]
fn failures_of_pages() {
    let reply = |code: u16| PageReply::<Repo> {
        status: status(code),
        headers: no_headers(),
        body: "why".into(),
        items: None,
    };
    let mut paging = RepoPaging::new("list public repos");
    assert_eq!(
        paging.step(reply(500)).unwrap_err().text,
        "list public repos page 1 failed with 500 Internal Server Error - why"
    );
    assert_eq!(paging.step(reply(200)).unwrap_err().text, "failed to parse repos response");

    let reply = |code: u16| PageReply::<GitHubCommit> {
        status: status(code),
        headers: no_headers(),
        body: "why".into(),
        items: None,
    };
    let mut commits = CommitPaging::new("me/demo");
    assert_eq!(
        commits.step(reply(404)).unwrap_err().text,
        "Repo me/demo not found or inaccessible"
    );
    assert_eq!(
        commits.step(reply(401)).unwrap_err().text,
        "fetch commits for me/demo page 1 failed: authentication rejected (401)"
    );
    assert_eq!(commits.step(reply(200)).unwrap_err().text, "failed to parse commits response");
}

#[test]
fn a_search_that_fails_gives_the_reason() {
    let mut search = Search::new();
    let step = search.step(SearchReply::Failed("no route".into()));
    assert_eq!(step.outcome.unwrap_err().text, "no route");
    assert_eq!(step.events.len(), 1);
    match &step.events[0] {
        Event::FallingBack { page: 1, why } => {
            assert_eq!(why.reason(), "search_request_failed");
            assert!(matches!(why, Fallback::RequestFailed { error } if error == "no route"));
        }
        _ => panic!("another event"),
    }

    let step = search.step(SearchReply::Page {
        status: status(422),
        headers: no_headers(),
        body: "no".into(),
        payload: Err("not read".into()),
    });
    assert_eq!(
        step.outcome.unwrap_err().text,
        "search commits page 1 failed with 422 Unprocessable Entity - no"
    );
    assert!(matches!(
        &step.events[0],
        Event::FallingBack { why: Fallback::HttpError { status: 422 }, .. }
    ));

    let step = search.step(SearchReply::Page {
        status: ok(),
        headers: no_headers(),
        body: "{".into(),
        payload: Err("EOF".into()),
    });
    assert_eq!(
        step.outcome.unwrap_err().text,
        "failed to parse commit search response: EOF"
    );
    assert_eq!(step.events[0].name(), "falling_back_to_per_repo");
    assert!(search.all.is_empty());
}

#[test]
fn a_search_that_is_incomplete_is_given_up() {
    for (total, incomplete, text) in [
        (1001, false, "commit search incomplete (total_count=1001, incomplete_results=false)"),
        (3, true, "commit search incomplete (total_count=3, incomplete_results=true)"),
    ] {
        let mut search = Search::new();
        let items = vec![item("me/demo", "abc1234", first_info())];
        let step = search.step(found(total, incomplete, items, no_headers()));
        assert_eq!(step.outcome.unwrap_err().text, text);
        assert_eq!(step.events.len(), 2);
        assert_eq!(step.events[0].name(), "search_page");
        assert!(matches!(
            &step.events[1],
            Event::FallingBack { why: Fallback::Incomplete { .. }, .. }
        ));
        assert!(search.all.is_empty());
    }
    let mut search = Search::new();
    let step = search.step(found(1000, false, Vec::new(), no_headers()));
    assert!(step.outcome.is_ok());
    assert_eq!(step.events.len(), 1);
}

#[test]
fn a_search_holds_no_commit_twice() {
    let mut search = Search::new();
    let items = vec![
        item("me/demo", "a", second_info()),
        item("me/demo", "a", first_info()),
        item("me/other", "a", first_info()),
    ];
    let step = search.step(found(4, false, items, link(NEXT)));
    assert!(matches!(step.outcome, Ok(true)));
    assert_eq!(search.page, 2);
    let items = vec![item("me/other", "a", second_info())];
    search.step(found(4, false, items, no_headers()));
    let (commits, event) = search.finish();
    let keys: Vec<(&str, &str)> =
        commits.iter().map(|c| (c.repo.as_str(), c.message.as_str())).collect();
    assert_eq!(keys, vec![("me/other", "First"), ("me/demo", "Second")]);
    assert!(matches!(event, Event::DedupComplete { unique_commits: 2 }));
}

#[test]
fn a_scan_gathers_and_orders() {
    let demo = repo("me", "demo");
    let other = repo("me", "other");
    let mut scan = Scan::new();
    assert!(matches!(Scan::start(&demo), Event::RepoScanStart { repo } if repo == "me/demo"));
    assert_eq!(Scan::failure_context(&demo), "fetching commits for me/demo");
    let portion = vec![record("me/demo", "b", 20), record("me/demo", "a", 10), record("me/demo", "b", 5)];
    let event = scan.add(&demo, portion);
    assert!(matches!(
        event,
        Event::RepoScanFinish { commit_count: 3, repo } if repo == "me/demo"
    ));
    scan.add(&other, vec![record("me/other", "a", 10), record("me/other", "c", 1)]);
    let (commits, event) = scan.finish();
    let order: Vec<String> = commits.iter().map(|c| format!("{}@{}", c.repo, c.sha)).collect();
    assert_eq!(order, vec!["me/other@c", "me/demo@a", "me/other@a", "me/demo@b"]);
    assert!(matches!(event, Event::DedupComplete { unique_commits: 4 }));
}

#[test]
fn where_repositories_come_from() {
    let filter = Some(RepoFilter { owner: "o".into(), name: "n".into() });
    let token = Some("t".to_string());
    assert!(matches!(
        repo_source(&filter, &token),
        RepoSource::Single { owner, name } if owner == "o" && name == "n"
    ));
    assert!(matches!(repo_source(&None, &None), RepoSource::Public));
    assert!(matches!(repo_source(&None, &token), RepoSource::AskLogin));
    assert!(matches!(repo_source_for(&Some("ME".into()), "me"), RepoSource::Authenticated));
    assert!(matches!(repo_source_for(&Some("you".into()), "me"), RepoSource::Public));
    assert!(matches!(repo_source_for(&None, "me"), RepoSource::Public));
    assert_eq!(
        authenticated_params(),
        vec![("affiliation".to_string(), "owner,collaborator,organization_member".to_string())]
    );
    assert_eq!(repo_path("o", "n"), "repos/o/n");
    let base = "https://api.github.com/";
    let url = page_url(base, "user/repos", &authenticated_params(), 3).unwrap().unwrap();
    assert_eq!(
        url,
        "https://api.github.com/user/repos?affiliation=owner%2Ccollaborator%2Corganization_member&per_page=100&page=3"
    );
    assert_eq!(plain_url(base, &repo_path("o", "n")).unwrap(), "https://api.github.com/repos/o/n");
}

#[test]
fn whose_token_it_is() {
    let login = Some("me".to_string());
    let reply = |code: u16, login: Option<String>| {
        login_from_reply(status(code), &no_headers(), "why", login)
    };
    assert_eq!(reply(200, login.clone()).unwrap(), login);
    assert_eq!(
        reply(401, login.clone()).unwrap_err().text,
        "Authentication failed: GitHub rejected the provided token (401)"
    );
    assert_eq!(
        reply(403, login).unwrap_err().text,
        "fetch authenticated user forbidden (403) - token may lack scopes or repo access"
    );
    assert_eq!(
        reply(200, None).unwrap_err().text,
        "failed to parse authenticated user response"
    );
}

#[test]
fn the_repository_of_a_filter() {
    let reply = |code: u16, parsed: Option<Repo>| {
        repo_from_reply(status(code), &no_headers(), "gone", parsed, "o", "n")
    };
    assert_eq!(reply(200, Some(repo("o", "n"))).unwrap().full_name, "o/n");
    assert_eq!(
        reply(404, None).unwrap_err().text,
        "fetch repo o/n failed with 404 Not Found - gone"
    );
    assert_eq!(reply(200, None).unwrap_err().text, "failed to parse repo response");
}

#[test]
fn repositories_once_each() {
    let list = vec![repo("me", "a"), repo("me", "b"), repo("me", "a")];
    let (unique, event) = discovered_repos(list);
    assert_eq!(unique.len(), 2);
    assert_eq!(event.name(), "discovered_repos");
    match event {
        Event::DiscoveredRepos { count, repos } => {
            assert_eq!(count, 2);
            assert_eq!(repos, vec!["me/a", "me/b"]);
        }
        _ => panic!("another event"),
    }
    let error = check_discovered(&Vec::new(), "me").unwrap_err();
    assert_eq!(error.text, "No repositories found for user me");
}

#[test]
fn the_text_of_a_search() {
    let since = at("2024-01-01T00:00:00Z");
    let until = at("2024-01-03T00:00:00Z");
    assert_eq!(
        search_query("me", &since, &until, &None),
        "author:me committer-date:2024-01-01T00:00:00+00:00..2024-01-03T00:00:00+00:00"
    );
    let filter = Some(RepoFilter { owner: "o".into(), name: "n".into() });
    assert_eq!(
        search_query("me", &since, &until, &filter),
        "author:me committer-date:2024-01-01T00:00:00+00:00..2024-01-03T00:00:00+00:00 repo:o/n"
    );
    let url = search_url("https://api.github.com/", "author:me", 2).unwrap().unwrap();
    assert_eq!(
        url,
        "https://api.github.com/search/commits?q=author%3Ame&sort=committer-date&order=desc&per_page=100&page=2"
    );
}

fn two_days() -> CommitQuery {
    CommitQuery {
        user: "me".into(),
        since: at("2024-01-01T00:00:00Z"),
        until: at("2024-01-03T00:00:00Z"),
        token: None,
        repo_filter: None,
    }
}

#[test]
fn the_range_has_its_start_and_not_its_end() {
    let query = two_days();
    let since = query.since.secs();
    let until = query.until.secs();
    let commits = || {
        vec![
            record("r", "early", since - 1),
            record("r", "start", since),
            record("r", "late", until - 1),
            record("r", "end", until),
            record("r", "after", until + 1),
        ]
    };
    let shas = |kept: &Vec<CommitRecord>| kept.iter().map(|c| c.sha.clone()).collect::<Vec<String>>();
    match after_search(Ok(commits()), Vec::new(), &query) {
        AfterSearch::Done(kept) => assert_eq!(shas(&kept), vec!["start", "late"]),
        AfterSearch::ScanEach(_) => panic!("the search gave the commits"),
    }
    assert_eq!(shas(&after_scan(commits(), &query)), vec!["start", "late"]);
    assert!(after_scan(Vec::new(), &query).is_empty());
}

#[test]
fn a_failed_search_leads_to_a_scan() {
    let failed = Err(ApiError { text: "x".into() });
    match after_search(failed, vec![repo("me", "a")], &two_days()) {
        AfterSearch::ScanEach(repos) => assert_eq!(repos[0].full_name, "me/a"),
        AfterSearch::Done(_) => panic!("there are no commits"),
    }
}

#[test]
fn when_a_commit_was_made() {
    let now = Timestamp::new(5, 0).unwrap();
    let both = CommitInfo {
        message: "m".into(),
        author: Some(CommitUser { name: None, date: Timestamp::new(1, 0).unwrap() }),
        committer: Some(CommitUser { name: Some("c".into()), date: Timestamp::new(2, 0).unwrap() }),
    };
    let r = record_commit_at("r", "s".into(), "u".into(), both, now);
    assert_eq!(r.timestamp.secs(), 1);
    assert_eq!((r.author, r.committer), (None, Some("c".to_string())));
    let none = CommitInfo { message: "m".into(), author: None, committer: None };
    assert_eq!(record_commit_at("r", "s".into(), "u".into(), none.clone(), now).timestamp, now);
    let seen = record_commit("r", "s".into(), "u".into(), none).timestamp;
    assert!(at("2024-01-01T00:00:00Z").before(&seen));
}

#[test]
fn reports_on_commits() {
    assert!(matches!(commits_ready(0), Event::NoCommits));
    assert!(matches!(commits_ready(3), Event::EmitCommitsComplete { count: 3 }));
    assert_eq!(commits_ready(0).name(), "no_commits");
    assert_eq!(commits_ready(1).name(), "emit_commits_complete");
    let opts = FetchOpts::default();
    assert!(!opts.verbose && opts.base_url.is_none());
}
