use annals::calendar::Timestamp;
use annals::report::{
    discovered_report, fallback_report, human_lines, listed_line, outcome_report, plan_report,
    request_report, shown_summary, RequestKind, NO_COMMITS,
};
use annals::summarize::{plan_summary, SummaryRun};
use annals::CommitRecord;

fn record(repo: &str, sha: &str, secs: i64) -> CommitRecord {
    CommitRecord {
        repo: repo.into(),
        sha: sha.into(),
        message: "A title\nand a body".into(),
        timestamp: Timestamp::new(secs, 0).unwrap(),
        url: "http://example/x".into(),
        author: None,
        committer: None,
    }
}

#[test]
fn listing() {
    let commits = vec![record("me/demo", "abc1234567", 0)];
    assert_eq!(
        human_lines(&commits),
        vec!["1970-01-01T00:00:00+00:00 me/demo abc1234 - A title (http://example/x)"]
    );
    assert_eq!(
        listed_line("then", &commits[0]),
        "then me/demo abc1234 - A title (http://example/x)"
    );
    assert!(human_lines(&Vec::new()).is_empty());
    assert_eq!(NO_COMMITS, "No commits found for the specified window.");
}

#[test]
fn a_summary_as_it_is_shown() {
    assert_eq!(shown_summary("One. Two.".into(), false), "One. Two.");
    assert_eq!(shown_summary("One. Two.".into(), true), "One.\n\nTwo.");
}

#[test]
fn reports_on_a_summary() {
    let commits = vec![record("me/demo", "a", 0), record("me/demo", "b", 1)];
    let plan = plan_summary(&commits, 1_080).unwrap();
    assert_eq!(
        plan_report(&plan, "openai", "gpt-5"),
        "Summarizing 2 commits (0 filtered) via openai:gpt-5 across 2 chunk(s); largest chunk 49 chars"
    );
    let run = SummaryRun::new(plan);
    let mut outcome = run.outcome("s".into(), "openai".into(), "gpt-5".into());
    assert_eq!(
        outcome_report(&outcome, 1_080),
        vec![
            "LLM provider=openai model=gpt-5 context=49 chars across 2 chunk(s); filtered=0 truncated_lines=0",
            "Commit text compacted to respect 1080 character budget",
        ]
    );
    outcome.truncated = false;
    assert_eq!(outcome_report(&outcome, 1_080).len(), 1);
}

#[test]
fn reports_on_requests() {
    assert_eq!(request_report("u", &RequestKind::Plain), "GET u");
    assert_eq!(request_report("u", &RequestKind::Repos { page: 2 }), "GET u (page 2)");
    let commits = RequestKind::Commits { repo: "me/demo".into(), page: 3 };
    assert_eq!(request_report("u", &commits), "GET u (repo me/demo page 3)");
    assert_eq!(
        request_report("u", &RequestKind::Search { page: 10 }),
        "GET u (commit search page 10)"
    );
    assert_eq!(discovered_report(12), "Discovered 12 repositories to scan");
    assert_eq!(
        fallback_report("why"),
        "Commit search unavailable (why). Falling back to per-repo scanning."
    );
}
