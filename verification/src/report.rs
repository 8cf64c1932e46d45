//! What is told to the user: lists of commits, summaries, and progress.

use crate::calendar;
use crate::layout;
use crate::layout::pretty_format_summary;
use crate::number;
use crate::number::decimal_text;
use crate::record::CommitRecord;
use crate::summarize;
use crate::summarize::{SummaryOutcome, SummaryPlan, SHORT_SHA};
use crate::text;
use crate::text::copy_text;
use vstd::prelude::*;

verus! {

/// What is said where there are no commits.
pub const NO_COMMITS: &'static str = "No commits found for the specified window.";

/// The line by which a commit is listed, with its time written out.
pub open spec fn listed(time: Seq<char>, c: CommitRecord) -> Seq<char> {
    time + " "@ + c.repo@ + " "@ + summarize::short_sha(c.sha@) + " - "@ + text::first_line(
        c.message@,
    ) + " ("@ + c.url@ + ")"@
}

/// The line by which a commit is listed, with its time written out.
pub fn listed_line(time: &str, commit: &CommitRecord) -> (r: String)
    ensures
        r@ == listed(time@, *commit),
        r@ == time@ + " "@ + commit.repo@ + " "@ + commit.sha@.take(
            if commit.sha@.len() > 7 {
                7
            } else {
                commit.sha@.len() as int
            },
        ) + " - "@ + text::first_line(commit.message@) + " ("@ + commit.url@ + ")"@,
{
    let mut r = copy_text(time);
    r.append(" ");
    r.append(commit.repo.as_str());
    r.append(" ");
    r.append(text::first_chars(commit.sha.as_str(), SHORT_SHA).as_str());
    r.append(" - ");
    r.append(text::first_line_of(commit.message.as_str()).as_str());
    r.append(" (");
    r.append(commit.url.as_str());
    r.append(")");
    r
}

/// The lines by which commits are listed.
pub fn human_lines(commits: &Vec<CommitRecord>) -> (r: Vec<String>)
    ensures
        r.deep_view() == Seq::new(
            commits@.len(),
            |i: int|
                listed(
                    calendar::rfc3339_text(
                        commits@[i].timestamp@.0,
                        commits@[i].timestamp@.1,
                    ),
                    commits@[i],
                ),
        ),
{
    let mut r: Vec<String> = Vec::new();
    for i in 0..commits.len()
        invariant
            r@.len() == i,
            forall|k: int|
                0 <= k < i ==> (#[trigger] r@[k])@ == listed(
                    calendar::rfc3339_text(commits@[k].timestamp@.0, commits@[k].timestamp@.1),
                    commits@[k],
                ),
    {
        let time = commits[i].timestamp.to_rfc3339();
        r.push(listed_line(time.as_str(), &commits[i]));
    }
    assert(r.deep_view() =~= Seq::new(
        commits@.len(),
        |i: int|
            listed(
                calendar::rfc3339_text(commits@[i].timestamp@.0, commits@[i].timestamp@.1),
                commits@[i],
            ),
    ));
    r
}

/// A summary as it is shown: as it is, or laid out for a terminal.
pub fn shown_summary(summary: String, pretty: bool) -> (r: String)
    ensures
        r@ == if pretty {
            layout::pretty(summary@)
        } else {
            summary@
        },
{
    if pretty {
        pretty_format_summary(summary.as_str())
    } else {
        summary
    }
}

/// What is said of a plan before a model is asked.
pub open spec fn plan_text(
    plan: SummaryPlan,
    provider: Seq<char>,
    model: Seq<char>,
) -> Seq<char> {
    "Summarizing "@ + number::decimal(plan.included_commits as nat) + " commits ("@
        + number::decimal(plan.filtered_out as nat) + " filtered) via "@ + provider + ":"@ + model
        + " across "@ + number::decimal(plan.chunks@.len()) + " chunk(s); largest chunk "@
        + number::decimal(plan.context_char_count as nat) + " chars"@
}

/// What is said of a plan before a model is asked.
pub fn plan_report(plan: &SummaryPlan, provider: &str, model: &str) -> (r: String)
    ensures
        r@ == plan_text(*plan, provider@, model@),
        r@ == "Summarizing "@ + number::decimal(plan.included_commits as nat) + " commits ("@
            + number::decimal(plan.filtered_out as nat) + " filtered) via "@ + provider@ + ":"@
            + model@ + " across "@ + number::decimal(plan.chunks@.len())
            + " chunk(s); largest chunk "@ + number::decimal(plan.context_char_count as nat)
            + " chars"@,
{
    let mut r = copy_text("Summarizing ");
    r.append(decimal_text(plan.included_commits as u64).as_str());
    r.append(" commits (");
    r.append(decimal_text(plan.filtered_out as u64).as_str());
    r.append(" filtered) via ");
    r.append(provider);
    r.append(":");
    r.append(model);
    r.append(" across ");
    r.append(decimal_text(plan.chunks.len() as u64).as_str());
    r.append(" chunk(s); largest chunk ");
    r.append(decimal_text(plan.context_char_count as u64).as_str());
    r.append(" chars");
    r
}

/// What is said of a summary that has been made.
pub open spec fn outcome_text(outcome: SummaryOutcome) -> Seq<char> {
    "LLM provider="@ + outcome.provider@ + " model="@ + outcome.model@ + " context="@
        + number::decimal(outcome.context_char_count as nat) + " chars across "@ + number::decimal(
        outcome.chunk_count as nat,
    ) + " chunk(s); filtered="@ + number::decimal(outcome.filtered_out as nat)
        + " truncated_lines="@ + number::decimal(outcome.truncated_lines as nat)
}

/// What is said of the size of a prompt that had to be respected.
pub open spec fn compacted_text(max_chars: nat) -> Seq<char> {
    "Commit text compacted to respect "@ + number::decimal(max_chars) + " character budget"@
}

/// What is said of a summary that has been made: one line, and another one where the commits
/// did not go into one prompt.
pub fn outcome_report(outcome: &SummaryOutcome, max_chars: usize) -> (r: Vec<String>)
    ensures
        r.deep_view() == if outcome.truncated {
            seq![outcome_text(*outcome), compacted_text(max_chars as nat)]
        } else {
            seq![outcome_text(*outcome)]
        },
        r@.len() == if outcome.truncated {
            2int
        } else {
            1
        },
        r@[0]@ == "LLM provider="@ + outcome.provider@ + " model="@ + outcome.model@ + " context="@
            + number::decimal(outcome.context_char_count as nat) + " chars across "@
            + number::decimal(outcome.chunk_count as nat) + " chunk(s); filtered="@
            + number::decimal(outcome.filtered_out as nat) + " truncated_lines="@
            + number::decimal(outcome.truncated_lines as nat),
        outcome.truncated ==> r@[1]@ == "Commit text compacted to respect "@ + number::decimal(
            max_chars as nat,
        ) + " character budget"@,
{
    let mut first = copy_text("LLM provider=");
    first.append(outcome.provider.as_str());
    first.append(" model=");
    first.append(outcome.model.as_str());
    first.append(" context=");
    first.append(decimal_text(outcome.context_char_count as u64).as_str());
    first.append(" chars across ");
    first.append(decimal_text(outcome.chunk_count as u64).as_str());
    first.append(" chunk(s); filtered=");
    first.append(decimal_text(outcome.filtered_out as u64).as_str());
    first.append(" truncated_lines=");
    first.append(decimal_text(outcome.truncated_lines as u64).as_str());
    let mut r: Vec<String> = Vec::new();
    r.push(first);
    if outcome.truncated {
        let mut second = copy_text("Commit text compacted to respect ");
        second.append(decimal_text(max_chars as u64).as_str());
        second.append(" character budget");
        r.push(second);
        assert(r.deep_view() =~= seq![
            outcome_text(*outcome),
            compacted_text(max_chars as nat),
        ]);
    } else {
        assert(r.deep_view() =~= seq![outcome_text(*outcome)]);
    }
    r
}

/// What is said once the repositories are known.
pub fn discovered_report(count: usize) -> (r: String)
    ensures
        r@ == "Discovered "@ + number::decimal(count as nat) + " repositories to scan"@,
{
    let mut r = copy_text("Discovered ");
    r.append(decimal_text(count as u64).as_str());
    r.append(" repositories to scan");
    r
}

/// What is said where the search is given up.
pub fn fallback_report(error: &str) -> (r: String)
    ensures
        r@ == "Commit search unavailable ("@ + error@
            + "). Falling back to per-repo scanning."@,
{
    let mut r = copy_text("Commit search unavailable (");
    r.append(error);
    r.append("). Falling back to per-repo scanning.");
    r
}

/// What a request is for.
#[derive(Debug)]
pub enum RequestKind {
    /// A single answer.
    Plain,
    /// A page of a list of repositories.
    Repos { page: usize },
    /// A page of the commits of a repository.
    Commits { repo: String, page: usize },
    /// A page of a search.
    Search { page: usize },
}

/// What is said of a request before it is made.
pub open spec fn request_text(url: Seq<char>, kind: RequestKind) -> Seq<char> {
    match kind {
        RequestKind::Plain => "GET "@ + url,
        RequestKind::Repos { page } => "GET "@ + url + " (page "@ + number::decimal(page as nat)
            + ")"@,
        RequestKind::Commits { repo, page } => "GET "@ + url + " (repo "@ + repo@ + " page "@
            + number::decimal(page as nat) + ")"@,
        RequestKind::Search { page } => "GET "@ + url + " (commit search page "@
            + number::decimal(page as nat) + ")"@,
    }
}

/// What is said of a request before it is made.
pub fn request_report(url: &str, kind: &RequestKind) -> (r: String)
    ensures
        r@ == request_text(url@, *kind),
        *kind is Plain ==> r@ == "GET "@ + url@,
        *kind matches RequestKind::Repos { page } ==> r@ == "GET "@ + url@ + " (page "@
            + number::decimal(page as nat) + ")"@,
        *kind matches RequestKind::Commits { repo, page } ==> r@ == "GET "@ + url@ + " (repo "@
            + repo@ + " page "@ + number::decimal(page as nat) + ")"@,
        *kind matches RequestKind::Search { page } ==> r@ == "GET "@ + url@
            + " (commit search page "@ + number::decimal(page as nat) + ")"@,
{
    let mut r = copy_text("GET ");
    r.append(url);
    match kind {
        RequestKind::Plain => {},
        RequestKind::Repos { page } => {
            r.append(" (page ");
            r.append(decimal_text(*page as u64).as_str());
            r.append(")");
        },
        RequestKind::Commits { repo, page } => {
            r.append(" (repo ");
            r.append(repo.as_str());
            r.append(" page ");
            r.append(decimal_text(*page as u64).as_str());
            r.append(")");
        },
        RequestKind::Search { page } => {
            r.append(" (commit search page ");
            r.append(decimal_text(*page as u64).as_str());
            r.append(")");
        },
    }
    r
}

/// The line by which a commit is listed: its time, its repository, the first seven characters of
/// its hash, the first line of its message, and its address. A list has one line for each commit.
pub proof fn lemma_listed_is(time: Seq<char>, c: CommitRecord)
    ensures
        c.sha@.len() <= 7 ==> listed(time, c) == time + " "@ + c.repo@ + " "@ + c.sha@ + " - "@
            + text::first_line(c.message@) + " ("@ + c.url@ + ")"@,
        c.sha@.len() > 7 ==> listed(time, c) == time + " "@ + c.repo@ + " "@ + c.sha@.take(7)
            + " - "@ + text::first_line(c.message@) + " ("@ + c.url@ + ")"@,
{
    summarize::lemma_line_is(time, c.repo@, c.sha@, c.message@);
}

} // verus!
