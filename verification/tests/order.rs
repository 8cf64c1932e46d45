use annals::calendar::Timestamp;
use annals::collect::{absorb_commits, unique_repos};
use annals::order::{keep_in_range, sort_by_time};
use annals::{CommitRecord, Repo, RepoOwner};

fn record(repo: &str, sha: &str, secs: i64, nanos: u32) -> CommitRecord {
    CommitRecord {
        repo: repo.into(),
        sha: sha.into(),
        message: "A title\nand a body".into(),
        timestamp: Timestamp::new(secs, nanos).unwrap(),
        url: "http://example/x".into(),
        author: None,
        committer: None,
    }
}

fn shas(commits: &[CommitRecord]) -> Vec<&str> {
    commits.iter().map(|c| c.sha.as_str()).collect()
}

#[test]
fn commits_of_one_instant_keep_their_order() {
    let commits = vec![
        record("r", "a", 5, 0),
        record("r", "b", 3, 1),
        record("r", "c", 5, 0),
        record("r", "d", 3, 0),
        record("r", "e", 5, 0),
        record("r", "f", -1, 9),
        record("r", "g", 3, 1),
    ];
    let sorted = sort_by_time(commits);
    assert_eq!(shas(&sorted), vec!["f", "d", "b", "g", "a", "c", "e"]);
    let again = sort_by_time(sorted);
    assert_eq!(shas(&again), vec!["f", "d", "b", "g", "a", "c", "e"]);
    assert!(sort_by_time(Vec::new()).is_empty());
}

#[test]
fn sorting_is_that_of_std() {
    let mut seed: u64 = 7;
    let mut commits: Vec<CommitRecord> = Vec::new();
    for i in 0..200 {
        seed = (seed * 1_103_515_245 + 12_345) % 2_147_483_648;
        commits.push(record("r", &i.to_string(), (seed % 17) as i64, 0));
    }
    let mut expected = commits.clone();
    expected.sort_by_key(|c| c.timestamp.secs());
    assert_eq!(shas(&sort_by_time(commits)), shas(&expected));
}

#[test]
fn what_comes_first_under_a_key_stays() {
    let mut kept = vec![record("r", "a", 1, 0)];
    let portion = || vec![record("r", "a", 2, 0), record("q", "a", 3, 0), record("q", "a", 4, 0)];
    absorb_commits(&mut kept, portion());
    let times = |kept: &Vec<CommitRecord>| kept.iter().map(|c| c.timestamp.secs()).collect::<Vec<i64>>();
    assert_eq!(times(&kept), vec![1, 3]);
    absorb_commits(&mut kept, portion());
    assert_eq!(times(&kept), vec![1, 3]);
}

#[test]
fn names_that_only_look_alike_are_other_keys() {
    let mut kept = vec![record("a", "bc", 1, 0)];
    absorb_commits(&mut kept, vec![record("ab", "c", 2, 0)]);
    assert_eq!(kept.len(), 2);
    let repo = |full: &str| Repo {
        name: "n".into(),
        full_name: full.into(),
        owner: RepoOwner { login: "o".into() },
    };
    assert_eq!(unique_repos(vec![repo("o/n"), repo("O/n"), repo("o/n")]).len(), 2);
}

#[test]
fn what_is_kept_of_a_range_stays_in_order() {
    let t = |secs: i64, nanos: u32| Timestamp::new(secs, nanos).unwrap();
    let commits = vec![
        record("r", "a", 5, 1),
        record("r", "b", 3, 0),
        record("r", "c", 5, 0),
        record("r", "d", 7, 0),
        record("r", "e", 6, 999_999_999),
    ];
    let kept = keep_in_range(commits.clone(), &t(5, 0), &t(7, 0));
    assert_eq!(shas(&kept), vec!["a", "c", "e"]);
    assert!(keep_in_range(commits.clone(), &t(7, 0), &t(5, 0)).is_empty());
    assert!(keep_in_range(commits, &t(5, 0), &t(5, 0)).is_empty());
}
