//! What commits to look for: whose, since when and until when, and in which repository.

use crate::calendar;
use crate::calendar::Timestamp;
use crate::dates;
use crate::dates::{parse_datetime_with_now, span_in_range};
use crate::text;
use vstd::prelude::*;

verus! {

/// Why a query cannot be built.
#[derive(Debug)]
pub enum QueryError {
    /// The text names no instant.
    InvalidDate(String),
    /// The start of the range does not come before its end.
    EmptyRange,
    /// The filter is not of the form owner/name.
    RepoFilter,
}

impl QueryError {
    /// Whether this error says that `text` names no instant.
    pub open spec fn is_invalid_date(self, text: Seq<char>) -> bool {
        self matches QueryError::InvalidDate(input) && input@ == text
    }

    /// The text of [`QueryError::message`].
    pub open spec fn message_text(self) -> Seq<char> {
        match self {
            QueryError::InvalidDate(input) => "Invalid date/time '"@ + input@
                + "'. Use RFC3339 like 2024-01-02T15:04:05Z, a date like 2024-01-02 or 01/02/24, or a relative span like '30 days'"@,
            QueryError::EmptyRange => "--since must be earlier than --until"@,
            QueryError::RepoFilter => "Repo filter must be owner/name"@,
        }
    }

    /// The error in words.
    pub fn message(&self) -> (r: String)
        ensures
            r@ == self.message_text(),
            *self matches QueryError::InvalidDate(input) ==> r@ == "Invalid date/time '"@ + input@
                + "'. Use RFC3339 like 2024-01-02T15:04:05Z, a date like 2024-01-02 or 01/02/24, or a relative span like '30 days'"@,
            *self is EmptyRange ==> r@ == "--since must be earlier than --until"@,
            *self is RepoFilter ==> r@ == "Repo filter must be owner/name"@,
    {
        match self {
            QueryError::InvalidDate(input) => {
                let mut r = text::copy_text("Invalid date/time '");
                r.append(input.as_str());
                r.append(
                    "'. Use RFC3339 like 2024-01-02T15:04:05Z, a date like 2024-01-02 or 01/02/24, or a relative span like '30 days'",
                );
                r
            },
            QueryError::EmptyRange => text::copy_text("--since must be earlier than --until"),
            QueryError::RepoFilter => text::copy_text("Repo filter must be owner/name"),
        }
    }
}

/// A repository to which a query is limited.
#[derive(Clone, Debug)]
pub struct RepoFilter {
    pub owner: String,
    pub name: String,
}

/// Whether `raw` is `owner/name`, with both parts there and no further slash.
pub open spec fn is_repo_name(raw: Seq<char>, owner: Seq<char>, name: Seq<char>) -> bool {
    &&& owner.len() > 0
    &&& name.len() > 0
    &&& !owner.contains('/')
    &&& !name.contains('/')
    &&& raw == owner + seq!['/'] + name
}

/// Whether `raw` is of the form owner/name.
pub open spec fn has_repo_name(raw: Seq<char>) -> bool {
    exists|owner: Seq<char>, name: Seq<char>| is_repo_name(raw, owner, name)
}

/// A text has at most one reading as owner/name.
pub proof fn lemma_repo_name_unique(
    raw: Seq<char>,
    owner: Seq<char>,
    name: Seq<char>,
    other_owner: Seq<char>,
    other_name: Seq<char>,
)
    requires
        is_repo_name(raw, owner, name),
        is_repo_name(raw, other_owner, other_name),
    ensures
        owner == other_owner,
        name == other_name,
{
    let n = owner.len() as int;
    let m = other_owner.len() as int;
    assert(raw[n] == '/');
    assert(raw[m] == '/');
    if n < m {
        assert(other_owner[n] == '/');
    } else if m < n {
        assert(owner[m] == '/');
    }
    assert(owner =~= raw.take(n));
    assert(other_owner =~= raw.take(n));
    assert(name =~= raw.skip(n + 1));
    assert(other_name =~= raw.skip(n + 1));
}

impl RepoFilter {
    /// Reads a filter of the form owner/name.
    pub fn parse(raw: &str) -> (r: Result<RepoFilter, QueryError>)
        ensures
            r matches Ok(filter) ==> is_repo_name(raw@, filter.owner@, filter.name@),
            r is Ok <==> has_repo_name(raw@),
            r matches Ok(filter) ==> raw@ == filter.owner@ + seq!['/'] + filter.name@
                && filter.owner@.len() > 0 && filter.name@.len() > 0 && !filter.owner@.contains('/')
                && !filter.name@.contains('/'),
            r matches Err(e) ==> e is RepoFilter,
    {
        let chars = text::chars_of(raw);
        let slash = text::find_char(&chars, 0, '/');
        if slash == 0 || slash == chars.len() {
            proof {
                if has_repo_name(raw@) {
                    let (owner, name) = choose|owner: Seq<char>, name: Seq<char>|
                        is_repo_name(raw@, owner, name);
                    assert(raw@[owner.len() as int] == '/');
                    assert(raw@[0] == owner[0]);
                }
            }
            return Err(QueryError::RepoFilter);
        }
        let next = text::find_char(&chars, slash + 1, '/');
        if slash + 1 == chars.len() || next < chars.len() {
            proof {
                if has_repo_name(raw@) {
                    let (owner, name) = choose|owner: Seq<char>, name: Seq<char>|
                        is_repo_name(raw@, owner, name);
                    let n = owner.len() as int;
                    assert(raw@[n] == '/');
                    if n > slash {
                        assert(owner[slash as int] == raw@[slash as int]);
                    }
                    assert(n == slash);
                    if next < raw@.len() {
                        assert(name[next - slash - 1] == raw@[next as int]);
                    }
                }
            }
            return Err(QueryError::RepoFilter);
        }
        let owner = text::text_between(&chars, 0, slash);
        let name = text::text_between(&chars, slash + 1, chars.len());
        assert(is_repo_name(raw@, owner@, name@)) by {
            assert(raw@ =~= owner@ + seq!['/'] + name@);
        }
        Ok(RepoFilter { owner, name })
    }
}

/// A query as it is asked for.
#[derive(Clone, Debug)]
pub struct CommitQueryInput {
    pub user: String,
    pub since: String,
    pub until: Option<String>,
    pub token: Option<String>,
    pub repo: Option<String>,
}

/// A query with its texts read.
#[derive(Clone, Debug)]
pub struct CommitQuery {
    pub user: String,
    pub since: Timestamp,
    pub until: Timestamp,
    pub token: Option<String>,
    pub repo_filter: Option<RepoFilter>,
}

/// The token to use: the one given, or else the one of the environment; an empty one is none.
pub open spec fn chosen_token(
    given: Option<Seq<char>>,
    environment: Option<Seq<char>>,
) -> Option<Seq<char>> {
    let token = if given is Some {
        given
    } else {
        environment
    };
    match token {
        Some(t) => if t.len() > 0 {
            Some(t)
        } else {
            None
        },
        None => None,
    }
}

/// The end of the range: the instant named, or else `now`.
pub open spec fn end_named(until: Option<Seq<char>>, now: (int, int)) -> Option<(int, int)> {
    match until {
        Some(t) => dates::instant_named(t, now),
        None => Some(now),
    }
}

/// Whether `query` holds what `args` asks for, given its range.
pub open spec fn is_query(
    query: CommitQuery,
    args: CommitQueryInput,
    environment: Option<Seq<char>>,
    since: (int, int),
    until: (int, int),
) -> bool {
    &&& query.user@ == args.user@
    &&& query.since@ == since
    &&& query.until@ == until
    &&& query.token.deep_view() == chosen_token(args.token.deep_view(), environment)
    &&& match args.repo {
        Some(raw) => query.repo_filter matches Some(filter) && is_repo_name(
            raw@,
            filter.owner@,
            filter.name@,
        ),
        None => query.repo_filter is None,
    }
}

/// Whether `r` is the outcome of building the query that `args` asks for, with the start of the
/// range read at `since_now` and its end at `until_now`. The first fault in this order decides:
/// the start, the end, the range, the repository.
pub open spec fn is_query_outcome(
    r: Result<CommitQuery, QueryError>,
    args: CommitQueryInput,
    environment: Option<Seq<char>>,
    since_now: (int, int),
    until_now: (int, int),
) -> bool {
    match dates::instant_named(args.since@, since_now) {
        None => r matches Err(e) && e.is_invalid_date(args.since@),
        Some(since) => match end_named(args.until.deep_view(), until_now) {
            None => r matches Err(e) && e.is_invalid_date(args.until->0@),
            Some(until) => if !calendar::precedes(since, until) {
                r matches Err(e) && e is EmptyRange
            } else if args.repo is Some && !has_repo_name(args.repo->0@) {
                r matches Err(e) && e is RepoFilter
            } else {
                r matches Ok(query) && is_query(query, args, environment, since, until)
            },
        },
    }
}

/// The token to use.
fn choose_token(given: &Option<String>, environment: &Option<String>) -> (r: Option<String>)
    ensures
        r.deep_view() == chosen_token(given.deep_view(), environment.deep_view()),
{
    let token = match given {
        Some(t) => Some(t),
        None => match environment {
            Some(t) => Some(t),
            None => None,
        },
    };
    match token {
        Some(t) => if t.as_str().is_empty() {
            None
        } else {
            Some(text::copy_text(t.as_str()))
        },
        None => None,
    }
}

/// Whether no span in `args` that is read reaches back beyond the first instant. The end of the
/// range is read only where its start names an instant.
pub open spec fn spans_fit(
    args: CommitQueryInput,
    since_now: (int, int),
    until_now: (int, int),
) -> bool {
    &&& dates::span_fits(text::trimmed(args.since@), since_now)
    &&& dates::instant_named(args.since@, since_now) is Some ==> until_fits(args, until_now)
}

/// Whether a span that is the end of the range does not reach back beyond the first instant.
pub open spec fn until_fits(args: CommitQueryInput, until_now: (int, int)) -> bool {
    args.until matches Some(u) ==> dates::span_fits(text::trimmed(u@), until_now)
}

/// Builds the query that `args` asks for, with the start of the range read at `since_now` and
/// its end at `until_now`.
pub fn build_commit_query_at(
    args: &CommitQueryInput,
    environment: &Option<String>,
    since_now: &Timestamp,
    until_now: &Timestamp,
) -> (r: Result<CommitQuery, QueryError>)
    requires
        spans_fit(*args, since_now@, until_now@),
    ensures
        is_query_outcome(r, *args, environment.deep_view(), since_now@, until_now@),
{
    let since = match parse_datetime_with_now(args.since.as_str(), since_now) {
        Ok(t) => t,
        Err(e) => {
            return Err(e);
        },
    };
    let until = match &args.until {
        Some(u) => match parse_datetime_with_now(u.as_str(), until_now) {
            Ok(t) => t,
            Err(e) => {
                return Err(e);
            },
        },
        None => *until_now,
    };
    if !since.before(&until) {
        return Err(QueryError::EmptyRange);
    }
    let token = choose_token(&args.token, environment);
    let repo_filter = match &args.repo {
        Some(raw) => match RepoFilter::parse(raw.as_str()) {
            Ok(filter) => Some(filter),
            Err(e) => {
                return Err(e);
            },
        },
        None => None,
    };
    Ok(
        CommitQuery {
            user: text::copy_text(args.user.as_str()),
            since,
            until,
            token,
            repo_filter,
        },
    )
}

/// Whether a span that is the end of the range does not reach back beyond the first instant.
fn until_in_range(args: &CommitQueryInput, until_now: &Timestamp) -> (r: bool)
    ensures
        r == until_fits(*args, until_now@),
{
    match &args.until {
        Some(u) => span_in_range(u.as_str(), until_now),
        None => true,
    }
}

/// The query of [`build_commit_query_at`]; `None` where a span that is read reaches back beyond the
/// first instant.
pub fn checked_commit_query_at(
    args: &CommitQueryInput,
    environment: &Option<String>,
    since_now: &Timestamp,
    until_now: &Timestamp,
) -> (r: Option<Result<CommitQuery, QueryError>>)
    ensures
        r is Some <==> spans_fit(*args, since_now@, until_now@),
        r matches Some(q) ==> is_query_outcome(
            q,
            *args,
            environment.deep_view(),
            since_now@,
            until_now@,
        ),
{
    if !span_in_range(args.since.as_str(), since_now) {
        return None;
    }
    if !until_in_range(args, until_now) && parse_datetime_with_now(
        args.since.as_str(),
        since_now,
    ).is_ok() {
        return None;
    }
    Some(build_commit_query_at(args, environment, since_now, until_now))
}

/// Whether `r` is the outcome of building the query that `args` asks for at what the clock can
/// show.
pub open spec fn is_query_outcome_now(
    r: Result<CommitQuery, QueryError>,
    args: CommitQueryInput,
    environment: Option<Seq<char>>,
) -> bool {
    exists|since_now: (int, int), until_now: (int, int)|
        dates::on_the_clock(since_now) && dates::on_the_clock(until_now)
            && #[trigger] is_query_outcome(r, args, environment, since_now, until_now)
}

/// Whether a text names an instant at something that the clock can show.
pub open spec fn may_name_instant(text: Seq<char>) -> bool {
    exists|now: (int, int)|
        dates::on_the_clock(now) && #[trigger] dates::instant_named(text, now) is Some
}

/// Builds the query that `args` asks for now. `environment` is the token that the environment
/// holds. What the clock will show is not known beforehand, so a span must fit from the start of
/// 1970 on; one that fits only from a later instant on is left to [`checked_commit_query_at`].
pub fn build_commit_query(args: &CommitQueryInput, environment: &Option<String>) -> (r: Result<
    CommitQuery,
    QueryError,
>)
    requires
        dates::span_fits(text::trimmed(args.since@), (0, 0)),
        may_name_instant(args.since@) ==> until_fits(*args, (0, 0)),
    ensures
        is_query_outcome_now(r, *args, environment.deep_view()),
        exists|since_now: (int, int), until_now: (int, int)|
            dates::on_the_clock(since_now) && dates::on_the_clock(until_now)
                && #[trigger] is_query_outcome(
                r,
                *args,
                environment.deep_view(),
                since_now,
                until_now,
            ),
{
    let since_now = Timestamp::now();
    let until_now = Timestamp::now();
    proof {
        if dates::instant_named(args.since@, since_now@) is Some {
            assert(dates::on_the_clock(since_now@));
            assert(may_name_instant(args.since@));
        }
    }
    build_commit_query_at(args, environment, &since_now, &until_now)
}

/// The query of [`build_commit_query`]; `None` only where a span that is read reaches back beyond
/// the first instant when it is counted from the start of 1970.
pub fn checked_commit_query(args: &CommitQueryInput, environment: &Option<String>) -> (r: Option<
    Result<CommitQuery, QueryError>,
>)
    ensures
        r is None ==> !dates::span_fits(text::trimmed(args.since@), (0, 0)) || (may_name_instant(
            args.since@,
        ) && !until_fits(*args, (0, 0))),
        !dates::span_fits(text::trimmed(args.since@), (0, 0)) ==> r is None,
        r matches Some(q) ==> is_query_outcome_now(q, *args, environment.deep_view()),
{
    let epoch = Timestamp::epoch();
    if !span_in_range(args.since.as_str(), &epoch) {
        return None;
    }
    if until_in_range(args, &epoch) {
        return Some(build_commit_query(args, environment));
    }
    let now = Timestamp::now();
    match parse_datetime_with_now(args.since.as_str(), &now) {
        Ok(_) => {
            assert(dates::on_the_clock(now@));
            assert(may_name_instant(args.since@));
            None
        },
        Err(e) => {
            let r: Result<CommitQuery, QueryError> = Err(e);
            assert(dates::on_the_clock(now@));
            assert(is_query_outcome(r, *args, environment.deep_view(), now@, now@));
            Some(r)
        },
    }
}

/// An owner and a name without slashes, written with one between them, are read back.
pub proof fn lemma_repo_name_round_trip(owner: Seq<char>, name: Seq<char>)
    requires
        owner.len() > 0,
        name.len() > 0,
        !owner.contains('/'),
        !name.contains('/'),
    ensures
        has_repo_name(owner + seq!['/'] + name),
        forall|o: Seq<char>, n: Seq<char>| #[trigger]
            is_repo_name(owner + seq!['/'] + name, o, n) ==> o == owner && n == name,
{
    let raw = owner + seq!['/'] + name;
    assert(is_repo_name(raw, owner, name));
    assert forall|o: Seq<char>, n: Seq<char>| #[trigger] is_repo_name(raw, o, n) implies o == owner
        && n == name by {
        lemma_repo_name_unique(raw, owner, name, o, n);
    }
}

/// The range of every query that is built begins before it ends, and its token is not empty.
pub proof fn lemma_query_is_sound(
    query: CommitQuery,
    args: CommitQueryInput,
    environment: Option<Seq<char>>,
    since_now: (int, int),
    until_now: (int, int),
)
    requires
        is_query_outcome(Ok(query), args, environment, since_now, until_now),
    ensures
        calendar::precedes(query.since@, query.until@),
        query.token.deep_view() matches Some(t) ==> t.len() > 0,
{
}

/// The token to use: the one given, even where it is empty, before that of the environment; and an
/// empty one is as good as none.
pub proof fn lemma_token_is(given: Seq<char>, environment: Option<Seq<char>>)
    ensures
        given.len() > 0 ==> chosen_token(Some(given), environment) == Some(given),
        given.len() == 0 ==> chosen_token(Some(given), environment) is None,
        chosen_token(None, Some(given)) == chosen_token(Some(given), None),
        chosen_token(None, None) is None,
{
}

/// What becomes of a query: its start must name an instant, then its end where there is one, then
/// the start must come before the end, then the repository must be owner/name. The first of these
/// that fails is the error; otherwise the query has the user, the two instants, the token to use
/// and the repository that were asked for.
pub proof fn lemma_query_is(
    r: Result<CommitQuery, QueryError>,
    args: CommitQueryInput,
    environment: Option<Seq<char>>,
    since_now: (int, int),
    until_now: (int, int),
)
    requires
        is_query_outcome(r, args, environment, since_now, until_now),
    ensures
        ({
            let since = dates::instant_named(args.since@, since_now);
            let until = match args.until {
                Some(u) => dates::instant_named(u@, until_now),
                None => Some(until_now),
            };
            let named = args.repo matches Some(raw) ==> exists|o: Seq<char>, n: Seq<char>|
                raw@ == #[trigger] (o + seq!['/'] + n) && o.len() > 0 && n.len() > 0
                    && !o.contains('/') && !n.contains('/');
            let ordered = since is Some && until is Some && ((since->0).0 < (until->0).0 || ((
            since->0).0 == (until->0).0 && (since->0).1 < (until->0).1));
            &&& since is None ==> (r matches Err(e) && (e matches QueryError::InvalidDate(t) && t@
                == args.since@))
            &&& since is Some && until is None ==> (r matches Err(e) && (
            e matches QueryError::InvalidDate(t) && t@ == args.until->0@))
            &&& since is Some && until is Some && !ordered ==> (r matches Err(e) && e is EmptyRange)
            &&& ordered && !named ==> (r matches Err(e) && e is RepoFilter)
            &&& ordered && named ==> r is Ok
            &&& r matches Ok(query) ==> {
                &&& query.user@ == args.user@
                &&& Some(query.since@) == since
                &&& Some(query.until@) == until
                &&& query.token.deep_view() == chosen_token(args.token.deep_view(), environment)
                &&& query.repo_filter is Some <==> args.repo is Some
                &&& query.repo_filter matches Some(f) ==> args.repo->0@ == f.owner@ + seq!['/']
                    + f.name@ && f.owner@.len() > 0 && f.name@.len() > 0 && !f.owner@.contains('/')
                    && !f.name@.contains('/')
            }
        }),
{
    if let Some(raw) = args.repo {
        if has_repo_name(raw@) {
            let (o, n) = choose|o: Seq<char>, n: Seq<char>| is_repo_name(raw@, o, n);
            assert(raw@ == o + seq!['/'] + n);
        }
        assert forall|o: Seq<char>, n: Seq<char>|
            raw@ == #[trigger] (o + seq!['/'] + n) && o.len() > 0 && n.len() > 0 && !o.contains('/')
                && !n.contains('/') implies has_repo_name(raw@) by {
            assert(is_repo_name(raw@, o, n));
        }
    }
}

/// The spans of a query fit where the start does not reach back too far and, if the start names an
/// instant, the end does not either; an end that is not there always fits.
pub proof fn lemma_spans_fit_is(
    args: CommitQueryInput,
    since_now: (int, int),
    until_now: (int, int),
)
    ensures
        dates::span_fits(text::trimmed(args.since@), since_now) && (dates::instant_named(
            args.since@,
            since_now,
        ) is None || args.until is None) ==> spans_fit(args, since_now, until_now),
        args.until matches Some(u) ==> (dates::span_fits(text::trimmed(args.since@), since_now)
            && dates::span_fits(text::trimmed(u@), until_now) ==> spans_fit(
            args,
            since_now,
            until_now,
        )),
        spans_fit(args, since_now, until_now) ==> dates::span_fits(
            text::trimmed(args.since@),
            since_now,
        ),
{
}

} // verus!
