use annals::calendar::Timestamp;
use annals::events::{normalized_query, Event};
use annals::query::{
    build_commit_query_at, checked_commit_query, checked_commit_query_at, CommitQueryInput,
    QueryError,
};
use annals::{build_commit_query, RepoFilter};

fn at(text: &str) -> Timestamp {
    Timestamp::parse_rfc3339(text).unwrap()
}

fn input(since: &str, until: Option<&str>) -> CommitQueryInput {
    CommitQueryInput {
        user: "me".into(),
        since: since.into(),
        until: until.map(|t| t.to_string()),
        token: None,
        repo: None,
    }
}

#[test]
fn repo_filter_parses() {
    let filter = RepoFilter::parse("owner/name").unwrap();
    assert_eq!(filter.owner, "owner");
    assert_eq!(filter.name, "name");
}

#[test]
fn repo_filters_that_do_not_parse() {
    for raw in ["", "/", "owner", "owner/", "/name", "a/b/c", "a/b/", "//", "a//b"] {
        let error = RepoFilter::parse(raw).unwrap_err();
        assert!(matches!(error, QueryError::RepoFilter), "{}", raw);
        assert_eq!(error.message(), "Repo filter must be owner/name");
    }
    let spaced = RepoFilter::parse(" a / b ").unwrap();
    assert_eq!((spaced.owner.as_str(), spaced.name.as_str()), (" a ", " b "));
}

#[test]
fn repo_filters_are_read_back() {
    for (owner, name) in [("a", "b"), ("é", "x y"), ("o-1", "n.rs")] {
        let filter = RepoFilter::parse(&format!("{}/{}", owner, name)).unwrap();
        assert_eq!((filter.owner.as_str(), filter.name.as_str()), (owner, name));
    }
}

#[test]
fn a_query_over_two_dates() {
    let query = build_commit_query(&input("2024-01-01", Some("2024-01-03")), &None).unwrap();
    assert_eq!(query.user, "me");
    assert_eq!(query.since, at("2024-01-01T00:00:00Z"));
    assert_eq!(query.until, at("2024-01-03T00:00:00Z"));
    assert_eq!(query.token, None);
    assert!(query.repo_filter.is_none());
}

#[test]
fn a_query_without_an_end_ends_now() {
    let since_now = at("2024-06-01T12:00:00Z");
    let until_now = at("2024-06-01T12:00:01Z");
    let query =
        build_commit_query_at(&input("1 week", None), &None, &since_now, &until_now).unwrap();
    assert_eq!(query.since, at("2024-05-25T12:00:00Z"));
    assert_eq!(query.until, until_now);
    let open = build_commit_query(&input("2 days", None), &None).unwrap();
    assert!(open.since.before(&open.until));
}

#[test]
fn the_start_must_come_before_the_end() {
    for (since, until) in [("2024-01-03", "2024-01-01"), ("2024-01-01", "2024-01-01")] {
        let error = build_commit_query(&input(since, Some(until)), &None).unwrap_err();
        assert!(matches!(error, QueryError::EmptyRange));
        assert_eq!(error.message(), "--since must be earlier than --until");
    }
    let error = build_commit_query(&input("0 days", Some("0 days")), &None);
    assert!(error.is_ok() || matches!(error.unwrap_err(), QueryError::EmptyRange));
}

#[test]
fn the_first_fault_decides() {
    let mut args = input("never", Some("nor then"));
    args.repo = Some("none".into());
    let first = build_commit_query(&args, &None).unwrap_err();
    assert!(matches!(first, QueryError::InvalidDate(t) if t == "never"));
    args.since = "2024-01-01".into();
    let second = build_commit_query(&args, &None).unwrap_err();
    assert!(matches!(second, QueryError::InvalidDate(t) if t == "nor then"));
    args.until = Some("2023-01-01".into());
    let third = build_commit_query(&args, &None).unwrap_err();
    assert!(matches!(third, QueryError::EmptyRange));
    args.until = Some("2024-02-01".into());
    let fourth = build_commit_query(&args, &None).unwrap_err();
    assert!(matches!(fourth, QueryError::RepoFilter));
    args.repo = Some("me/demo".into());
    let query = build_commit_query(&args, &None).unwrap();
    assert_eq!(query.repo_filter.unwrap().name, "demo");
}

#[test]
fn the_token_given_comes_before_that_of_the_environment() {
    let token = |given: Option<&str>, environment: Option<&str>| {
        let mut args = input("2024-01-01", Some("2024-01-03"));
        args.token = given.map(|t| t.to_string());
        let environment = environment.map(|t| t.to_string());
        build_commit_query(&args, &environment).unwrap().token
    };
    assert_eq!(token(Some("a"), Some("b")), Some("a".to_string()));
    assert_eq!(token(None, Some("b")), Some("b".to_string()));
    assert_eq!(token(Some(""), Some("b")), None);
    assert_eq!(token(None, Some("")), None);
    assert_eq!(token(None, None), None);
}

#[test]
fn the_report_on_a_query() {
    let mut args = input("2024-01-01", Some("2024-01-03"));
    args.token = Some("t".into());
    args.repo = Some("me/demo".into());
    let query = build_commit_query(&args, &None).unwrap();
    let event = normalized_query(&query);
    assert_eq!(event.name(), "normalized_query");
    match event {
        Event::NormalizedQuery { since, until, repo_filter, token_present, user } => {
            assert_eq!(since, "2024-01-01T00:00:00+00:00");
            assert_eq!(until, "2024-01-03T00:00:00+00:00");
            assert_eq!(repo_filter, Some(("me".to_string(), "demo".to_string())));
            assert!(token_present);
            assert_eq!(user, "me");
        }
        _ => panic!("another event"),
    }
}

#[test]
fn the_end_is_read_only_where_the_start_is_an_instant() {
    let now = at("2024-06-01T12:00:00Z");
    let far = "97000000 days";
    let unread = input("never", Some(far));
    for result in [
        build_commit_query_at(&unread, &None, &now, &now),
        build_commit_query(&unread, &None),
        checked_commit_query_at(&unread, &None, &now, &now).unwrap(),
        checked_commit_query(&unread, &None).unwrap(),
    ] {
        assert!(matches!(result.unwrap_err(), QueryError::InvalidDate(t) if t == "never"));
    }
    for args in [input("2024-01-01", Some(far)), input(far, None), input(far, Some("2024-01-01"))] {
        assert!(checked_commit_query_at(&args, &None, &now, &now).is_none());
        assert!(checked_commit_query(&args, &None).is_none());
    }
    let good = input("2024-01-01", Some("1 day"));
    let query = checked_commit_query_at(&good, &None, &now, &now).unwrap().unwrap();
    assert_eq!(query.until, at("2024-05-31T12:00:00Z"));
    assert!(checked_commit_query(&good, &None).unwrap().is_ok());
}

#[test]
fn a_span_that_fits_only_from_now() {
    let now = at("2024-06-01T12:00:00Z");
    let days = (now.secs() - annals::calendar::MIN_SECS) / 86_400;
    let args = input(&format!("{} days", days), Some("2024-01-01"));
    let query = checked_commit_query_at(&args, &None, &now, &now).unwrap().unwrap();
    assert_eq!(query.since.secs(), now.secs() - 86_400 * days);
    assert!(checked_commit_query(&args, &None).is_none());
    assert_eq!(Timestamp::epoch(), at("1970-01-01T00:00:00Z"));
}
