//! Summaries of commits: which commits, in which chunks, and what to ask the model.

use crate::calendar;
use crate::calendar::Timestamp;
use crate::chunks;
use crate::chunks::chunk_lines;
use crate::number;
use crate::number::decimal_text;
use crate::order;
use crate::order::sort_by_time;
use crate::record::CommitRecord;
use crate::text;
use crate::text::copy_text;
use vstd::prelude::*;

verus! {

/// What is kept free of a prompt for the words around the commits, in bytes.
pub const PROMPT_PADDING: usize = 1_024;

/// The size of a prompt where none is asked for, in bytes.
pub const DEFAULT_MAX_CHARS: usize = 16_384;

/// The model where none is asked for.
pub const DEFAULT_MODEL: &'static str = "gpt-5";

/// The number of characters of a hash that are shown.
pub const SHORT_SHA: usize = 7;

/// Who runs a model.
#[derive(Clone, Copy, Debug, PartialEq, Eq, Structural)]
pub enum ModelProvider {
    Openai,
    Anthropic,
    Gemini,
}

impl ModelProvider {
    /// The word for a provider.
    pub open spec fn word(self) -> Seq<char> {
        match self {
            ModelProvider::Openai => "openai"@,
            ModelProvider::Anthropic => "anthropic"@,
            ModelProvider::Gemini => "gemini"@,
        }
    }

    /// The name of a provider.
    pub open spec fn label(self) -> Seq<char> {
        match self {
            ModelProvider::Openai => "OpenAI"@,
            ModelProvider::Anthropic => "Anthropic"@,
            ModelProvider::Gemini => "Gemini"@,
        }
    }

    /// The environment variable that holds the key for a provider.
    pub open spec fn key_variable(self) -> Seq<char> {
        match self {
            ModelProvider::Openai => "OPENAI_API_KEY"@,
            ModelProvider::Anthropic => "ANTHROPIC_API_KEY"@,
            ModelProvider::Gemini => "GEMINI_API_KEY"@,
        }
    }

    /// The word for this provider.
    pub fn as_str(&self) -> (r: &'static str)
        ensures
            r@ == self.word(),
            *self is Openai ==> r@ == "openai"@,
            *self is Anthropic ==> r@ == "anthropic"@,
            *self is Gemini ==> r@ == "gemini"@,
    {
        match self {
            ModelProvider::Openai => "openai",
            ModelProvider::Anthropic => "anthropic",
            ModelProvider::Gemini => "gemini",
        }
    }

    /// The environment variable that holds the key for this provider.
    pub fn api_key_variable(&self) -> (r: &'static str)
        ensures
            r@ == self.key_variable(),
            *self is Openai ==> r@ == "OPENAI_API_KEY"@,
            *self is Anthropic ==> r@ == "ANTHROPIC_API_KEY"@,
            *self is Gemini ==> r@ == "GEMINI_API_KEY"@,
    {
        match self {
            ModelProvider::Openai => "OPENAI_API_KEY",
            ModelProvider::Anthropic => "ANTHROPIC_API_KEY",
            ModelProvider::Gemini => "GEMINI_API_KEY",
        }
    }

    /// The name of this provider.
    fn display_name(&self) -> (r: &'static str)
        ensures
            r@ == self.label(),
    {
        match self {
            ModelProvider::Openai => "OpenAI",
            ModelProvider::Anthropic => "Anthropic",
            ModelProvider::Gemini => "Gemini",
        }
    }
}

/// How a summary is printed.
#[derive(Clone, Copy, Debug, PartialEq, Eq, Structural)]
pub enum SummaryOutputFormat {
    Human,
    Json,
}

/// How a summary is made.
#[derive(Clone, Debug)]
pub struct SummarizeOpts {
    pub provider: Option<String>,
    pub model: Option<String>,
    pub max_chars: usize,
    pub verbose: bool,
    pub base_url: Option<String>,
}

impl Default for SummarizeOpts {
    fn default() -> (r: SummarizeOpts)
        ensures
            r.provider is None,
            r.model is None,
            r.max_chars == DEFAULT_MAX_CHARS,
            !r.verbose,
            r.base_url is None,
    {
        SummarizeOpts {
            provider: None,
            model: None,
            max_chars: DEFAULT_MAX_CHARS,
            verbose: false,
            base_url: None,
        }
    }
}

/// A summary and how it came about.
#[derive(Clone, Debug)]
pub struct SummaryOutcome {
    pub summary: String,
    pub provider: String,
    pub model: String,
    pub total_commits: usize,
    pub filtered_out: usize,
    pub included_commits: usize,
    pub context_char_count: usize,
    pub chunk_count: usize,
    pub truncated: bool,
    pub truncated_lines: usize,
}

/// Why there is no summary.
#[derive(Debug)]
pub enum SummarizeError {
    /// No commit is left to summarize.
    NothingLeft,
    /// The size of a prompt leaves no room for commits.
    TooSmall(usize),
    /// There is no key for the provider.
    NoCredentials(ModelProvider),
}

impl SummarizeError {
    /// The text of [`SummarizeError::message`].
    pub open spec fn message_text(self) -> Seq<char> {
        match self {
            SummarizeError::NothingLeft =>
                "No commits to summarize after filtering VIZIER CONVERSATION entries"@,
            SummarizeError::TooSmall(max_chars) => "max_chars of "@ + number::decimal(
                max_chars as nat,
            ) + " is too small; must exceed padding of "@ + number::decimal(PROMPT_PADDING as nat),
            SummarizeError::NoCredentials(provider) => provider.label()
                + " credentials missing: set "@ + provider.key_variable(),
        }
    }

    /// The error in words.
    pub fn message(&self) -> (r: String)
        ensures
            r@ == self.message_text(),
            *self is NothingLeft ==> r@
                == "No commits to summarize after filtering VIZIER CONVERSATION entries"@,
            *self matches SummarizeError::TooSmall(max_chars) ==> r@ == "max_chars of "@
                + number::decimal(max_chars as nat) + " is too small; must exceed padding of "@
                + number::decimal(1_024),
            *self == SummarizeError::NoCredentials(ModelProvider::Openai) ==> r@
                == "OpenAI"@ + " credentials missing: set "@ + "OPENAI_API_KEY"@,
            *self == SummarizeError::NoCredentials(ModelProvider::Anthropic) ==> r@
                == "Anthropic"@ + " credentials missing: set "@ + "ANTHROPIC_API_KEY"@,
            *self == SummarizeError::NoCredentials(ModelProvider::Gemini) ==> r@
                == "Gemini"@ + " credentials missing: set "@ + "GEMINI_API_KEY"@,
    {
        match self {
            SummarizeError::NothingLeft => copy_text(
                "No commits to summarize after filtering VIZIER CONVERSATION entries",
            ),
            SummarizeError::TooSmall(max_chars) => {
                let mut r = copy_text("max_chars of ");
                r.append(decimal_text(*max_chars as u64).as_str());
                r.append(" is too small; must exceed padding of ");
                r.append(decimal_text(PROMPT_PADDING as u64).as_str());
                r
            },
            SummarizeError::NoCredentials(provider) => {
                let mut r = copy_text(provider.display_name());
                r.append(" credentials missing: set ");
                r.append(provider.api_key_variable());
                r
            },
        }
    }
}

/// Whether a message tells of a conversation, which a summary leaves out.
pub open spec fn is_conversation(message: Seq<char>) -> bool {
    text::has_text(text::upper(message), "VIZIER CONVERSATION"@)
}

/// Whether a message tells of a conversation, which a summary leaves out.
pub fn is_filtered(message: &str) -> (r: bool)
    ensures
        r == is_conversation(message@),
        r == text::has_text(text::upper(message@), "VIZIER CONVERSATION"@),
{
    text::upper_contains(message, "VIZIER CONVERSATION")
}

/// The case of the letters in a message does not decide whether it is left out.
pub proof fn lemma_filter_ignores_case(a: Seq<char>, b: Seq<char>)
    requires
        text::lower(a) == text::lower(b),
    ensures
        is_conversation(a) == is_conversation(b),
{
    assert(a.len() == text::lower(a).len() && b.len() == text::lower(b).len());
    assert forall|i: int| 0 <= i < a.len() implies text::ascii_upper(#[trigger] a[i])
        == text::ascii_upper(b[i]) by {
        assert(text::lower(a)[i] == text::ascii_lower(a[i]));
        assert(text::lower(b)[i] == text::ascii_lower(b[i]));
    }
    assert(text::upper(a) =~= text::upper(b));
}

/// The line that stands for a commit.
pub open spec fn line_text(
    time: Seq<char>,
    repo: Seq<char>,
    sha: Seq<char>,
    message: Seq<char>,
) -> Seq<char> {
    time + " | "@ + repo + " | "@ + short_sha(sha) + " | "@ + text::join(
        text::words(text::first_line(message)),
        " "@,
    )
}

/// The first characters of a hash.
pub open spec fn short_sha(sha: Seq<char>) -> Seq<char> {
    sha.take(
        if SHORT_SHA < sha.len() {
            SHORT_SHA as int
        } else {
            sha.len() as int
        },
    )
}

/// The line that stands for a commit.
pub open spec fn commit_line(c: CommitRecord) -> Seq<char> {
    line_text(
        calendar::rfc3339_text(c.timestamp@.0, c.timestamp@.1),
        c.repo@,
        c.sha@,
        c.message@,
    )
}

/// The line that stands for a commit whose time has been written out.
pub fn format_line(time: &str, repo: &str, sha: &str, message: &str) -> (r: String)
    ensures
        r@ == line_text(time@, repo@, sha@, message@),
        r@ == time@ + " | "@ + repo@ + " | "@ + sha@.take(
            if sha@.len() > 7 {
                7
            } else {
                sha@.len() as int
            },
        ) + " | "@ + text::join(text::words(text::first_line(message@)), " "@),
{
    let first = text::first_line_of(message);
    let words = text::split_words(first.as_str());
    let mut r = copy_text(time);
    r.append(" | ");
    r.append(repo);
    r.append(" | ");
    r.append(text::first_chars(sha, SHORT_SHA).as_str());
    r.append(" | ");
    r.append(text::join_texts(&words, " ").as_str());
    r
}

/// The line that stands for a commit.
pub fn format_commit_line(commit: &CommitRecord) -> (r: String)
    ensures
        r@ == commit_line(*commit),
        r@ == calendar::rfc3339_text(commit.timestamp@.0, commit.timestamp@.1) + " | "@
            + commit.repo@ + " | "@ + commit.sha@.take(
            if commit.sha@.len() > 7 {
                7
            } else {
                commit.sha@.len() as int
            },
        ) + " | "@ + text::join(text::words(text::first_line(commit.message@)), " "@),
{
    format_line(
        commit.timestamp.to_rfc3339().as_str(),
        commit.repo.as_str(),
        commit.sha.as_str(),
        commit.message.as_str(),
    )
}

/// The room that the size of a prompt leaves for commits.
pub fn effective_budget(max_chars: usize) -> (r: Result<usize, SummarizeError>)
    ensures
        r is Ok <==> max_chars > PROMPT_PADDING,
        r matches Ok(budget) ==> budget + PROMPT_PADDING == max_chars,
        r matches Err(e) ==> e == SummarizeError::TooSmall(max_chars),
{
    if max_chars <= PROMPT_PADDING {
        return Err(SummarizeError::TooSmall(max_chars));
    }
    Ok(max_chars - PROMPT_PADDING)
}

/// The range of time in words: one date, or two.
pub open spec fn timespan_text(start: (int, int, int), end: (int, int, int)) -> Seq<char> {
    if start == end {
        calendar::date_text(start.0, start.1, start.2)
    } else {
        calendar::date_text(start.0, start.1, start.2) + " to "@ + calendar::date_text(
            end.0,
            end.1,
            end.2,
        )
    }
}

/// The date of an instant.
pub open spec fn date_at(t: (int, int)) -> (int, int, int) {
    calendar::civil_date(t.0 / 86_400)
}

/// The range of time in words.
pub fn describe_timespan(start: &Timestamp, end: &Timestamp) -> (r: String)
    ensures
        r@ == timespan_text(date_at(start@), date_at(end@)),
        ({
            let (y, m, d) = calendar::civil_date(start@.0 / 86_400);
            let (year, month, day) = calendar::civil_date(end@.0 / 86_400);
            &&& start@.0 / 86_400 == end@.0 / 86_400 ==> r@ == calendar::date_text(y, m, d)
            &&& start@.0 / 86_400 != end@.0 / 86_400 ==> r@ == calendar::date_text(y, m, d)
                + " to "@ + calendar::date_text(year, month, day)
        }),
{
    let start_date = start.date();
    let end_date = end.date();
    proof {
        calendar::lemma_civil_date(start_date@.0, start_date@.1, start_date@.2);
        calendar::lemma_civil_date(end_date@.0, end_date@.1, end_date@.2);
    }
    let mut r = start_date.to_text();
    if !start_date.same(&end_date) {
        r.append(" to ");
        r.append(end_date.to_text().as_str());
    }
    r
}

/// The question for the summary of a chunk.
pub open spec fn chunk_question(chunk: Seq<char>, idx: nat, total: nat) -> Seq<char> {
    "Write one narrative sentence summarizing the key accomplishments from these commits (batch "@
        + number::decimal(idx) + "/"@ + number::decimal(total)
        + ") as part of a continuous story of progress. Keep it to a single line.\n\nCommits:\n"@
        + chunk
}

/// How a model is to behave when it summarizes a chunk.
pub open spec fn chunk_manner() -> Seq<char> {
    "You summarize git commit activity into a narrative of user accomplishments. Write as if telling a story of what was built or improved over time. Avoid meta-phrases like 'the commits show' or 'this batch includes'. Do not use bullet points or headings."@
}

/// What to ask for the summary of a chunk, the `idx`th of `total`: how the model is to behave, and
/// the question.
pub fn summarize_prompt(chunk: &str, idx: usize, total: usize) -> (r: (String, String))
    ensures
        r.0@ == chunk_manner(),
        r.1@ == chunk_question(chunk@, idx as nat, total as nat),
        r.1@
            == "Write one narrative sentence summarizing the key accomplishments from these commits (batch "@
            + number::decimal(idx as nat) + "/"@ + number::decimal(total as nat)
            + ") as part of a continuous story of progress. Keep it to a single line.\n\nCommits:\n"@
            + chunk@,
        r.0@
            == "You summarize git commit activity into a narrative of user accomplishments. Write as if telling a story of what was built or improved over time. Avoid meta-phrases like 'the commits show' or 'this batch includes'. Do not use bullet points or headings."@,
{
    let system = copy_text(
        "You summarize git commit activity into a narrative of user accomplishments. Write as if telling a story of what was built or improved over time. Avoid meta-phrases like 'the commits show' or 'this batch includes'. Do not use bullet points or headings.",
    );
    let mut content = copy_text(
        "Write one narrative sentence summarizing the key accomplishments from these commits (batch ",
    );
    content.append(decimal_text(idx as u64).as_str());
    content.append("/");
    content.append(decimal_text(total as u64).as_str());
    content.append(
        ") as part of a continuous story of progress. Keep it to a single line.\n\nCommits:\n",
    );
    content.append(chunk);
    (system, content)
}

/// The question for the summary of the summaries of chunks.
pub open spec fn final_question(partials: Seq<char>, timespan: Seq<char>) -> Seq<char> {
    "Bind this into a unified narrative unit describing the user's activities over the last "@
        + timespan
        + ". Keep it to a single paragraph with no list formatting.\n\nPartial summaries:\n"@
        + partials
}

/// How a model is to behave when it binds the summaries of chunks.
pub open spec fn final_manner() -> Seq<char> {
    "You craft cohesive summaries of software development accomplishments. Write in a flowing narrative without bullet points or section headers."@
}

/// What to ask for the summary of the summaries of chunks: how the model is to behave, and the
/// question.
pub fn final_prompt(partials: &str, timespan: &str) -> (r: (String, String))
    ensures
        r.0@ == final_manner(),
        r.1@ == final_question(partials@, timespan@),
        r.1@
            == "Bind this into a unified narrative unit describing the user's activities over the last "@
            + timespan@
            + ". Keep it to a single paragraph with no list formatting.\n\nPartial summaries:\n"@
            + partials@,
        r.0@
            == "You craft cohesive summaries of software development accomplishments. Write in a flowing narrative without bullet points or section headers."@,
{
    let system = copy_text(
        "You craft cohesive summaries of software development accomplishments. Write in a flowing narrative without bullet points or section headers.",
    );
    let mut content = copy_text(
        "Bind this into a unified narrative unit describing the user's activities over the last ",
    );
    content.append(timespan);
    content.append(
        ". Keep it to a single paragraph with no list formatting.\n\nPartial summaries:\n",
    );
    content.append(partials);
    (system, content)
}

/// The predicate of commits that a summary takes in.
pub open spec fn wanted() -> spec_fn(CommitRecord) -> bool {
    |c: CommitRecord| !is_conversation(c.message@)
}

/// The commits that a summary takes in.
pub open spec fn included(commits: Seq<CommitRecord>) -> Seq<CommitRecord> {
    commits.filter(wanted())
}

/// The lines that stand for commits.
pub open spec fn commit_lines(commits: Seq<CommitRecord>) -> Seq<Seq<char>> {
    Seq::new(commits.len(), |i: int| commit_line(commits[i]))
}

/// The size of the largest of some texts, in bytes.
pub open spec fn largest(texts: Seq<Seq<char>>) -> nat
    decreases texts.len(),
{
    if texts.len() == 0 {
        0
    } else {
        let rest = largest(texts.drop_last());
        let last = text::byte_len(texts.last());
        if last > rest {
            last
        } else {
            rest
        }
    }
}

/// What is to be asked about, and how it was chosen.
#[derive(Debug)]
pub struct SummaryPlan {
    pub total_commits: usize,
    pub filtered_out: usize,
    pub included_commits: usize,
    pub chunks: Vec<String>,
    pub context_char_count: usize,
    pub timespan: String,
}

/// Whether `plan` is the plan for commits of which `sorted` are taken in, in that order.
pub open spec fn is_plan_for(
    plan: SummaryPlan,
    commits: Seq<CommitRecord>,
    sorted: Seq<CommitRecord>,
    max_chars: nat,
) -> bool {
    &&& plan.total_commits == commits.len()
    &&& plan.included_commits == sorted.len()
    &&& plan.filtered_out == commits.len() - sorted.len()
    &&& plan.chunks.deep_view() == chunks::chunked(
        commit_lines(sorted),
        (max_chars - PROMPT_PADDING) as nat,
    )
    &&& plan.context_char_count == largest(plan.chunks.deep_view())
    &&& plan.timespan@ == timespan_text(
        date_at(sorted.first().timestamp@),
        date_at(sorted.last().timestamp@),
    )
}

/// Whether `r` is the outcome of planning a summary: without commits to take in, or else without
/// room for them, there is none; otherwise those commits are taken in the order of time.
pub open spec fn is_plan_outcome(
    r: Result<SummaryPlan, SummarizeError>,
    commits: Seq<CommitRecord>,
    max_chars: usize,
) -> bool {
    if included(commits).len() == 0 {
        r == Err::<SummaryPlan, SummarizeError>(SummarizeError::NothingLeft)
    } else if max_chars <= PROMPT_PADDING {
        r == Err::<SummaryPlan, SummarizeError>(SummarizeError::TooSmall(max_chars))
    } else {
        r is Ok && exists|sorted: Seq<CommitRecord>|
            order::is_stable_sort(sorted, included(commits)) && #[trigger] is_plan_for(
                r->Ok_0,
                commits,
                sorted,
                max_chars as nat,
            )
    }
}

/// Copies of the commits that a summary takes in.
fn take_in(commits: &[CommitRecord]) -> (r: Vec<CommitRecord>)
    ensures
        r@ == included(commits@),
        r@.len() <= commits@.len(),
{
    let mut r: Vec<CommitRecord> = Vec::new();
    assert(commits@.take(0) =~= seq![]);
    proof {
        Seq::<CommitRecord>::empty().lemma_filter_len(wanted());
        assert(included(commits@.take(0)) =~= seq![]);
    }
    for i in 0..commits.len()
        invariant
            r@ == included(commits@.take(i as int)),
    {
        proof {
            assert(commits@.take(i + 1) =~= commits@.take(i as int).push(commits@[i as int]));
            commits@.take(i as int).lemma_filter_push(commits@[i as int], wanted());
        }
        if !is_filtered(commits[i].message.as_str()) {
            r.push(commits[i].clone());
        }
    }
    assert(commits@.take(commits@.len() as int) =~= commits@);
    proof {
        commits@.lemma_filter_len(wanted());
    }
    r
}

/// The size of the largest of some texts, in bytes.
fn largest_size(texts: &Vec<String>) -> (r: usize)
    ensures
        r == largest(texts.deep_view()),
{
    let ghost all = texts.deep_view();
    let mut r: usize = 0;
    for i in 0..texts.len()
        invariant
            all == texts.deep_view(),
            r == largest(all.take(i as int)),
    {
        proof {
            let upto = all.take(i + 1);
            assert(upto.drop_last() =~= all.take(i as int));
            assert(upto.last() == texts@[i as int]@);
        }
        let size = text::byte_count(texts[i].as_str());
        if size > r {
            r = size;
        }
    }
    assert(all.take(all.len() as int) =~= all);
    r
}

/// Plans the summary of commits.
pub fn plan_summary(commits: &[CommitRecord], max_chars: usize) -> (r: Result<
    SummaryPlan,
    SummarizeError,
>)
    ensures
        is_plan_outcome(r, commits@, max_chars),
{
    let taken = take_in(commits);
    if taken.len() == 0 {
        return Err(SummarizeError::NothingLeft);
    }
    let filtered_out = commits.len() - taken.len();
    let ghost kept = taken@;
    let sorted = sort_by_time(taken);
    proof {
        vstd::seq_lib::to_multiset_len(sorted@);
        vstd::seq_lib::to_multiset_len(kept);
    }
    let mut lines: Vec<String> = Vec::new();
    for i in 0..sorted.len()
        invariant
            lines@.len() == i,
            forall|k: int| 0 <= k < i ==> (#[trigger] lines@[k])@ == commit_line(sorted@[k]),
    {
        lines.push(format_commit_line(&sorted[i]));
    }
    assert(lines.deep_view() =~= commit_lines(sorted@));
    let budget = match effective_budget(max_chars) {
        Ok(b) => b,
        Err(e) => {
            return Err(e);
        },
    };
    let chunks = chunk_lines(&lines, budget);
    let context_char_count = largest_size(&chunks);
    let timespan = describe_timespan(
        &sorted[0].timestamp,
        &sorted[sorted.len() - 1].timestamp,
    );
    let plan = SummaryPlan {
        total_commits: commits.len(),
        filtered_out,
        included_commits: sorted.len(),
        chunks,
        context_char_count,
        timespan,
    };
    let r: Result<SummaryPlan, SummarizeError> = Ok(plan);
    assert(is_plan_for(r->Ok_0, commits@, sorted@, max_chars as nat));
    r
}

/// A line is never empty.
proof fn lemma_line_not_empty(c: CommitRecord)
    ensures
        commit_line(c).len() > 0,
{
    reveal_strlit(" | ");
}

/// The commits that a plan takes in, in the order of time, are those for which it was made.
proof fn lemma_plan_order(
    plan: SummaryPlan,
    commits: Seq<CommitRecord>,
    sorted: Seq<CommitRecord>,
    max_chars: usize,
)
    requires
        is_plan_outcome(Ok(plan), commits, max_chars),
        order::is_stable_sort(sorted, included(commits)),
    ensures
        is_plan_for(plan, commits, sorted, max_chars as nat),
        sorted.len() == included(commits).len(),
        sorted.len() > 0,
        max_chars > PROMPT_PADDING,
        forall|i: int| 0 <= i < sorted.len() ==> (#[trigger] commit_lines(sorted)[i]).len() > 0,
{
    let r: Result<SummaryPlan, SummarizeError> = Ok(plan);
    let taken = choose|taken: Seq<CommitRecord>|
        order::is_stable_sort(taken, included(commits)) && #[trigger] is_plan_for(
            r->Ok_0,
            commits,
            taken,
            max_chars as nat,
        );
    order::lemma_stable_sort_unique(taken, sorted, included(commits));
    order::lemma_sort_keeps(sorted, included(commits));
    assert forall|i: int| 0 <= i < sorted.len() implies (#[trigger] commit_lines(sorted)[i]).len()
        > 0 by {
        lemma_line_not_empty(sorted[i]);
    }
}

/// A plan accounts for every commit, and its chunks hold the line of every commit that is taken
/// in, in the order of time, with nothing lost.
pub proof fn lemma_plan_complete(
    plan: SummaryPlan,
    commits: Seq<CommitRecord>,
    sorted: Seq<CommitRecord>,
    max_chars: usize,
)
    requires
        is_plan_outcome(Ok(plan), commits, max_chars),
        order::is_stable_sort(sorted, included(commits)),
    ensures
        plan.total_commits == commits.len(),
        plan.included_commits == included(commits).len(),
        plan.filtered_out + plan.included_commits == plan.total_commits,
        text::join(plan.chunks.deep_view(), "\n"@) == text::join(commit_lines(sorted), "\n"@),
{
    lemma_plan_order(plan, commits, sorted, max_chars);
    chunks::lemma_chunks_hold_lines(commit_lines(sorted), (max_chars - PROMPT_PADDING) as nat);
}

/// A plan has a chunk, and each of its chunks leaves room for the prompt around it, unless it is
/// the line of a single commit.
pub proof fn lemma_plan_keeps_budget(
    plan: SummaryPlan,
    commits: Seq<CommitRecord>,
    sorted: Seq<CommitRecord>,
    max_chars: usize,
)
    requires
        is_plan_outcome(Ok(plan), commits, max_chars),
        order::is_stable_sort(sorted, included(commits)),
    ensures
        plan.chunks@.len() > 0,
        forall|i: int|
            0 <= i < plan.chunks@.len() ==> text::byte_len((#[trigger] plan.chunks@[i])@)
                + PROMPT_PADDING <= max_chars || commit_lines(sorted).contains(plan.chunks@[i]@),
{
    let lines = commit_lines(sorted);
    let budget = (max_chars - PROMPT_PADDING) as nat;
    lemma_plan_order(plan, commits, sorted, max_chars);
    chunks::lemma_chunks_hold_lines(lines, budget);
    chunks::lemma_chunks_keep_budget(lines, budget);
    assert forall|i: int| 0 <= i < plan.chunks@.len() implies text::byte_len(
        (#[trigger] plan.chunks@[i])@,
    ) + PROMPT_PADDING <= max_chars || lines.contains(plan.chunks@[i]@) by {
        assert(plan.chunks.deep_view()[i] == plan.chunks@[i]@);
    }
}

/// A plan and the summaries of its chunks that there are so far.
#[derive(Debug)]
pub struct SummaryRun {
    pub plan: SummaryPlan,
    pub partials: Vec<String>,
}

impl SummaryRun {
    /// Whether there are no more summaries than chunks.
    pub open spec fn wf(self) -> bool {
        self.partials@.len() <= self.plan.chunks@.len()
    }

    /// Whether the summaries of all chunks are there.
    pub open spec fn is_bound(self) -> bool {
        self.partials@.len() == self.plan.chunks@.len()
    }

    /// Before the first answer.
    pub fn new(plan: SummaryPlan) -> (r: SummaryRun)
        ensures
            r.wf(),
            r.plan == plan,
            r.partials@ == Seq::<String>::empty(),
    {
        SummaryRun { plan, partials: Vec::new() }
    }

    /// What to ask next: about the next chunk, and in the end about the summaries.
    pub fn next_prompt(&self) -> (r: (String, String))
        requires
            self.wf(),
        ensures
            !self.is_bound() ==> r.0@ == chunk_manner() && r.1@ == chunk_question(
                self.plan.chunks@[self.partials@.len() as int]@,
                self.partials@.len() + 1,
                self.plan.chunks@.len(),
            ),
            self.is_bound() ==> r.0@ == final_manner() && r.1@ == final_question(
                text::join(self.partials.deep_view(), "\n"@),
                self.plan.timespan@,
            ),
    {
        let idx = self.partials.len();
        let total = self.plan.chunks.len();
        if idx < total {
            summarize_prompt(self.plan.chunks[idx].as_str(), idx + 1, total)
        } else {
            let partials = text::join_texts(&self.partials, "\n");
            final_prompt(partials.as_str(), self.plan.timespan.as_str())
        }
    }

    /// Takes in the answer to what was asked; the last one is the summary.
    pub fn take_reply(&mut self, reply: &str) -> (r: Option<String>)
        requires
            old(self).wf(),
        ensures
            final(self).wf(),
            is_reply_step(*old(self), reply@, *final(self), r.deep_view()),
    {
        let trimmed = text::trim(reply);
        if self.partials.len() < self.plan.chunks.len() {
            let ghost before = self.partials.deep_view();
            self.partials.push(trimmed);
            assert(self.partials.deep_view() =~= before.push(trimmed@));
            None
        } else {
            Some(trimmed)
        }
    }

    /// The outcome of the run with its summary.
    pub fn outcome(&self, summary: String, provider: String, model: String) -> (r: SummaryOutcome)
        ensures
            r.summary == summary,
            r.provider == provider,
            r.model == model,
            r.total_commits == self.plan.total_commits,
            r.filtered_out == self.plan.filtered_out,
            r.included_commits == self.plan.included_commits,
            r.context_char_count == self.plan.context_char_count,
            r.chunk_count == self.plan.chunks@.len(),
            r.truncated == (self.plan.chunks@.len() > 1),
            r.truncated_lines == 0,
    {
        let chunk_count = self.plan.chunks.len();
        SummaryOutcome {
            summary,
            provider,
            model,
            total_commits: self.plan.total_commits,
            filtered_out: self.plan.filtered_out,
            included_commits: self.plan.included_commits,
            context_char_count: self.plan.context_char_count,
            chunk_count,
            truncated: chunk_count > 1,
            truncated_lines: 0,
        }
    }
}

/// Whether an answer turns `before` into `after` and gives the summary `r`.
pub open spec fn is_reply_step(
    before: SummaryRun,
    reply: Seq<char>,
    after: SummaryRun,
    r: Option<Seq<char>>,
) -> bool {
    &&& after.plan == before.plan
    &&& if before.is_bound() {
        r == Some(text::trimmed(reply)) && after.partials == before.partials
    } else {
        r is None && after.partials.deep_view() == before.partials.deep_view().push(
            text::trimmed(reply),
        )
    }
}

/// A run asks once about each chunk and once about the summaries: no answer before the one that
/// follows those on the chunks is the summary, that one is, and the summaries of the chunks are
/// the trimmed answers in order.
pub proof fn lemma_run_length(
    states: Seq<SummaryRun>,
    replies: Seq<Seq<char>>,
    results: Seq<Option<Seq<char>>>,
)
    requires
        replies.len() > 0,
        states.len() == replies.len() + 1,
        results.len() == replies.len(),
        states[0].partials@.len() == 0,
        replies.len() <= states[0].plan.chunks@.len() + 1,
        forall|i: int|
            0 <= i < replies.len() ==> is_reply_step(
                #[trigger] states[i],
                replies[i],
                states[i + 1],
                results[i],
            ),
    ensures
        results.last() is Some <==> replies.len() == states[0].plan.chunks@.len() + 1,
        results.last() is Some ==> results.last() == Some(text::trimmed(replies.last())),
        forall|i: int|
            0 <= i < states[states.len() - 2].partials@.len() ==> #[trigger] states[states.len()
                - 2].partials.deep_view()[i] == text::trimmed(replies[i]),
        states[states.len() - 2].partials@.len() == replies.len() - 1,
        states[states.len() - 2].plan == states[0].plan,
    decreases replies.len(),
{
    let n = replies.len() - 1;
    assert(is_reply_step(states[n], replies[n], states[n + 1], results[n]));
    if n > 0 {
        let earlier = states.drop_last();
        assert forall|i: int| 0 <= i < n implies is_reply_step(
            #[trigger] earlier[i],
            replies.drop_last()[i],
            earlier[i + 1],
            results.drop_last()[i],
        ) by {
            assert(is_reply_step(states[i], replies[i], states[i + 1], results[i]));
        }
        lemma_run_length(earlier, replies.drop_last(), results.drop_last());
        assert(is_reply_step(states[n - 1], replies[n - 1], states[n], results[n - 1]));
        assert(earlier[earlier.len() - 2] == states[n - 1]);
        let before = states[n - 1].partials.deep_view();
        let after = states[n].partials.deep_view();
        assert(after == before.push(text::trimmed(replies[n - 1])));
        assert(after.len() == states[n].partials@.len());
        assert forall|i: int| 0 <= i < states[n].partials@.len() implies #[trigger] after[i]
            == text::trimmed(replies[i]) by {
            if i < n - 1 {
                assert(before[i] == text::trimmed(replies.drop_last()[i]));
            }
        }
    }
}

/// The provider, where one is asked for, and the model.
#[derive(Debug)]
pub struct ApiChoice {
    pub provider: Option<String>,
    pub model: String,
}

/// The provider and the model to use: those asked for, and the default model where none is.
pub fn resolve_api(opts: &SummarizeOpts) -> (r: ApiChoice)
    ensures
        r.provider.deep_view() == opts.provider.deep_view(),
        r.model@ == (match opts.model {
            Some(m) => m@,
            None => DEFAULT_MODEL@,
        }),
{
    let provider = match &opts.provider {
        Some(p) => Some(copy_text(p.as_str())),
        None => None,
    };
    let model = match &opts.model {
        Some(m) => copy_text(m.as_str()),
        None => copy_text(DEFAULT_MODEL),
    };
    ApiChoice { provider, model }
}

/// Whether there is a key for a provider; `value` is what its environment variable holds.
pub fn validate_api_key(provider: ModelProvider, value: &str) -> (r: Result<(), SummarizeError>)
    ensures
        r is Ok <==> text::ink(value@).len() > 0,
        r is Ok <==> exists|i: int| 0 <= i < value@.len() && !text::is_space(#[trigger] value@[i]),
        r matches Err(e) ==> e == SummarizeError::NoCredentials(provider),
{
    proof {
        text::lemma_trimmed_ends(value@);
        if exists|i: int| 0 <= i < value@.len() && !text::is_space(#[trigger] value@[i]) {
            let i = choose|i: int| 0 <= i < value@.len() && !text::is_space(#[trigger] value@[i]);
            text::lemma_ink_has(value@, i);
        } else {
            text::lemma_ink_spaces(value@);
        }
    }
    let key = text::trim(value);
    if key.as_str().is_empty() {
        Err(SummarizeError::NoCredentials(provider))
    } else {
        Ok(())
    }
}

/// What is kept free of a prompt suffices for the words around a chunk: where a chunk and that
/// room fit into the size of a prompt, so does the whole prompt.
pub proof fn lemma_prompt_fits(chunk: Seq<char>, idx: nat, total: nat, max_chars: nat)
    requires
        idx <= u64::MAX,
        total <= u64::MAX,
        text::byte_len(chunk) + PROMPT_PADDING <= max_chars,
    ensures
        text::byte_len(chunk_manner()) + text::byte_len(chunk_question(chunk, idx, total))
            <= max_chars,
{
    let opening =
        "Write one narrative sentence summarizing the key accomplishments from these commits (batch "@;
    let closing =
        ") as part of a continuous story of progress. Keep it to a single line.\n\nCommits:\n"@;
    let a = opening + number::decimal(idx);
    let b = a + "/"@;
    let c = b + number::decimal(total);
    let d = c + closing;
    number::lemma_decimal_of_u64(idx);
    number::lemma_decimal_of_u64(total);
    vstd::utf8::is_ascii_chars_encode_utf8(number::decimal(idx));
    vstd::utf8::is_ascii_chars_encode_utf8(number::decimal(total));
    lemma_words_around();
    text::lemma_byte_len_add(opening, number::decimal(idx));
    text::lemma_byte_len_add(a, "/"@);
    text::lemma_byte_len_add(b, number::decimal(total));
    text::lemma_byte_len_add(c, closing);
    text::lemma_byte_len_add(d, chunk);
}

/// The words around a chunk take fewer bytes than are kept free for them.
proof fn lemma_words_around()
    ensures
        text::byte_len(chunk_manner()) <= 300,
        text::byte_len(
            "Write one narrative sentence summarizing the key accomplishments from these commits (batch "@,
        ) <= 200,
        text::byte_len("/"@) <= 1,
        text::byte_len(
            ") as part of a continuous story of progress. Keep it to a single line.\n\nCommits:\n"@,
        ) <= 200,
{
    reveal_strlit("You summarize git commit activity into a narrative of user accomplishments. Write as if telling a story of what was built or improved over time. Avoid meta-phrases like 'the commits show' or 'this batch includes'. Do not use bullet points or headings.");
    reveal_strlit("Write one narrative sentence summarizing the key accomplishments from these commits (batch ");
    reveal_strlit("/");
    reveal_strlit(") as part of a continuous story of progress. Keep it to a single line.\n\nCommits:\n");
    vstd::utf8::is_ascii_chars_encode_utf8(chunk_manner());
    vstd::utf8::is_ascii_chars_encode_utf8("Write one narrative sentence summarizing the key accomplishments from these commits (batch "@);
    vstd::utf8::is_ascii_chars_encode_utf8("/"@);
    vstd::utf8::is_ascii_chars_encode_utf8(") as part of a continuous story of progress. Keep it to a single line.\n\nCommits:\n"@);
}

/// A commit is left out of a summary if and only if its message holds the words of a conversation,
/// in whatever case; those that are taken in stay in their order, as often as they come.
pub proof fn lemma_taken_in(commits: Seq<CommitRecord>, c: CommitRecord)
    ensures
        included(Seq::<CommitRecord>::empty()) == Seq::<CommitRecord>::empty(),
        included(commits.push(c)) == if text::has_text(
            text::upper(c.message@),
            "VIZIER CONVERSATION"@,
        ) {
            included(commits)
        } else {
            included(commits).push(c)
        },
{
    Seq::<CommitRecord>::empty().lemma_filter_len(wanted());
    commits.lemma_filter_push(c, wanted());
}

/// A message tells of a conversation wherever the two words stand in it, in whatever case.
pub proof fn lemma_conversation_anywhere(a: Seq<char>, words: Seq<char>, b: Seq<char>)
    requires
        text::upper(words) == "VIZIER CONVERSATION"@,
    ensures
        is_conversation(a + words + b),
{
    text::lemma_occurrence(text::upper(a), text::upper(words), text::upper(b));
    assert(text::upper(a + words + b) =~= text::upper(a) + text::upper(words) + text::upper(b));
}

/// The question about a chunk holds the chunk at its end, whichever of however many it is, behind
/// the number of it and of all.
pub proof fn lemma_question_holds_chunk(chunk: Seq<char>, idx: nat, total: nat)
    ensures
        ({
            let q = chunk_question(chunk, idx, total);
            &&& q.len() >= chunk.len()
            &&& q.skip(q.len() - chunk.len()) == chunk
            &&& q.take(q.len() - chunk.len()) == chunk_question(
                Seq::<char>::empty(),
                idx,
                total,
            )
            &&& text::has_text(q, chunk)
            &&& text::has_text(
                q,
                "(batch "@ + number::decimal(idx) + "/"@ + number::decimal(total) + ")"@,
            )
        }),
{
    let opening =
        "Write one narrative sentence summarizing the key accomplishments from these commits (batch "@;
    let closing =
        ") as part of a continuous story of progress. Keep it to a single line.\n\nCommits:\n"@;
    let none = Seq::<char>::empty();
    let q = chunk_question(chunk, idx, total);
    let lead = opening + number::decimal(idx) + "/"@ + number::decimal(total) + closing;
    assert(q =~= lead + chunk);
    assert(q.skip(q.len() - chunk.len()) =~= chunk);
    assert(chunk_question(none, idx, total) =~= lead);
    assert(q.take(q.len() - chunk.len()) =~= lead);
    text::lemma_occurrence(lead, chunk, none);
    assert(lead + chunk + none =~= q);
    lemma_batch_number(lead, chunk, idx, total);
}

/// The number of a chunk and of all of them stands in the question.
proof fn lemma_batch_number(lead: Seq<char>, chunk: Seq<char>, idx: nat, total: nat)
    requires
        lead
            == "Write one narrative sentence summarizing the key accomplishments from these commits (batch "@
            + number::decimal(idx) + "/"@ + number::decimal(total)
            + ") as part of a continuous story of progress. Keep it to a single line.\n\nCommits:\n"@,
    ensures
        text::has_text(
            lead + chunk,
            "(batch "@ + number::decimal(idx) + "/"@ + number::decimal(total) + ")"@,
        ),
{
    let opening =
        "Write one narrative sentence summarizing the key accomplishments from these commits (batch "@;
    let closing =
        ") as part of a continuous story of progress. Keep it to a single line.\n\nCommits:\n"@;
    reveal_strlit(
        "Write one narrative sentence summarizing the key accomplishments from these commits (batch ",
    );
    reveal_strlit(
        ") as part of a continuous story of progress. Keep it to a single line.\n\nCommits:\n",
    );
    reveal_strlit("(batch ");
    reveal_strlit(")");
    let n = opening.len() - 7;
    let front = opening.take(n);
    let back = closing.skip(1) + chunk;
    let needle = "(batch "@ + number::decimal(idx) + "/"@ + number::decimal(total) + ")"@;
    assert(opening =~= front + "(batch "@);
    assert(closing =~= ")"@ + closing.skip(1));
    text::lemma_occurrence(front, needle, back);
    assert(lead + chunk =~= front + needle + back);
}

/// The question for the whole story holds the range of time and, at its end, what was answered.
pub proof fn lemma_final_question_holds(partials: Seq<char>, timespan: Seq<char>)
    ensures
        ({
            let q = final_question(partials, timespan);
            &&& q.len() >= partials.len()
            &&& q.skip(q.len() - partials.len()) == partials
            &&& text::has_text(q, partials)
            &&& text::has_text(q, "over the last "@ + timespan + "."@)
        }),
{
    let opening =
        "Bind this into a unified narrative unit describing the user's activities over the last "@;
    let closing =
        ". Keep it to a single paragraph with no list formatting.\n\nPartial summaries:\n"@;
    reveal_strlit(
        "Bind this into a unified narrative unit describing the user's activities over the last ",
    );
    reveal_strlit(
        ". Keep it to a single paragraph with no list formatting.\n\nPartial summaries:\n",
    );
    reveal_strlit("over the last ");
    reveal_strlit(".");
    let none = Seq::<char>::empty();
    let q = final_question(partials, timespan);
    let lead = opening + timespan + closing;
    assert(q =~= lead + partials);
    assert(q.skip(q.len() - partials.len()) =~= partials);
    text::lemma_occurrence(lead, partials, none);
    assert(lead + partials + none =~= q);
    let n = opening.len() - 14;
    let front = opening.take(n);
    let back = closing.skip(1) + partials;
    let needle = "over the last "@ + timespan + "."@;
    assert(opening =~= front + "over the last "@);
    assert(closing =~= "."@ + closing.skip(1));
    text::lemma_occurrence(front, needle, back);
    assert(q =~= front + needle + back);
}

/// The questions of a run, one about each chunk, together hold the line of every commit that is
/// taken in: for each commit there is a question, with its number, in which the line stands in
/// full.
pub proof fn lemma_questions_hold_commits(
    plan: SummaryPlan,
    commits: Seq<CommitRecord>,
    sorted: Seq<CommitRecord>,
    max_chars: usize,
    i: int,
) -> (k: int)
    requires
        is_plan_outcome(Ok(plan), commits, max_chars),
        order::is_stable_sort(sorted, included(commits)),
        0 <= i < sorted.len(),
    ensures
        0 <= k < plan.chunks@.len(),
        text::has_text(
            chunk_question(plan.chunks@[k]@, (k + 1) as nat, plan.chunks@.len()),
            calendar::rfc3339_text(sorted[i].timestamp@.0, sorted[i].timestamp@.1) + " | "@
                + sorted[i].repo@ + " | "@ + sorted[i].sha@.take(
                if sorted[i].sha@.len() > 7 {
                    7
                } else {
                    sorted[i].sha@.len() as int
                },
            ) + " | "@ + text::join(text::words(text::first_line(sorted[i].message@)), " "@),
        ),
{
    lemma_plan_order(plan, commits, sorted, max_chars);
    let lines = commit_lines(sorted);
    let line = lines[i];
    let k = chunks::lemma_line_in_a_chunk(lines, (max_chars - PROMPT_PADDING) as nat, i);
    let chunk = plan.chunks@[k]@;
    assert(plan.chunks.deep_view()[k] == chunk);
    lemma_line_in_question(chunk, line, (k + 1) as nat, plan.chunks@.len());
    lemma_line_is(
        calendar::rfc3339_text(sorted[i].timestamp@.0, sorted[i].timestamp@.1),
        sorted[i].repo@,
        sorted[i].sha@,
        sorted[i].message@,
    );
    k
}

/// What stands in a chunk stands in the question about it.
proof fn lemma_line_in_question(chunk: Seq<char>, line: Seq<char>, idx: nat, total: nat)
    requires
        text::has_text(chunk, line),
    ensures
        text::has_text(chunk_question(chunk, idx, total), line),
{
    let q = chunk_question(chunk, idx, total);
    lemma_question_holds_chunk(chunk, idx, total);
    let lead = q.take(q.len() - chunk.len());
    assert(q =~= lead + q.skip(q.len() - chunk.len()));
    lemma_occurs_behind(lead, chunk, line);
}

/// What stands in a text stands in it with something in front.
proof fn lemma_occurs_behind(lead: Seq<char>, s: Seq<char>, needle: Seq<char>)
    requires
        text::has_text(s, needle),
    ensures
        text::has_text(lead + s, needle),
{
    let none = Seq::<char>::empty();
    text::lemma_occurrence(none, needle, none);
    let (a, b) = choose|a: Seq<char>, b: Seq<char>| s == #[trigger] (a + needle + b);
    text::lemma_occurrence(lead + a, needle, b);
    assert(lead + s =~= lead + a + needle + b);
}

/// The size that a plan gives is that of one of its chunks, and no chunk is larger.
pub proof fn lemma_largest_is(texts: Seq<Seq<char>>)
    ensures
        forall|i: int|
            0 <= i < texts.len() ==> text::byte_len(#[trigger] texts[i]) <= largest(texts),
        texts.len() > 0 ==> exists|i: int|
            0 <= i < texts.len() && text::byte_len(#[trigger] texts[i]) == largest(texts),
        texts.len() == 0 ==> largest(texts) == 0,
    decreases texts.len(),
{
    if texts.len() > 0 {
        let front = texts.drop_last();
        lemma_largest_is(front);
        assert forall|i: int| 0 <= i < texts.len() implies text::byte_len(#[trigger] texts[i])
            <= largest(texts) by {
            if i < front.len() {
                assert(front[i] == texts[i]);
            }
        }
        if text::byte_len(texts.last()) >= largest(front) || front.len() == 0 {
            assert(text::byte_len(texts[texts.len() - 1]) == largest(texts));
        } else {
            let i = choose|i: int|
                0 <= i < front.len() && text::byte_len(#[trigger] front[i]) == largest(front);
            assert(text::byte_len(texts[i]) == largest(texts));
        }
    }
}

/// What a plan comes to: where no commit is left it is refused for that, otherwise where the size
/// of a prompt leaves no room it is refused for that, and otherwise there is one. It tells how many
/// commits there are and how many are taken in, its chunks are the lines of those in the order of
/// time, the size of its largest chunk, and the dates of the first and the last commit.
pub proof fn lemma_plan_is(
    r: Result<SummaryPlan, SummarizeError>,
    commits: Seq<CommitRecord>,
    sorted: Seq<CommitRecord>,
    max_chars: usize,
)
    requires
        is_plan_outcome(r, commits, max_chars),
        order::is_stable_sort(sorted, included(commits)),
    ensures
        included(commits).len() == 0 ==> r == Err::<SummaryPlan, SummarizeError>(
            SummarizeError::NothingLeft,
        ),
        included(commits).len() > 0 && max_chars <= 1_024 ==> r == Err::<
            SummaryPlan,
            SummarizeError,
        >(SummarizeError::TooSmall(max_chars)),
        included(commits).len() > 0 && max_chars > 1_024 ==> r is Ok,
        r matches Ok(plan) ==> {
            let (y, m, d) = calendar::civil_date(sorted.first().timestamp@.0 / 86_400);
            let (year, month, day) = calendar::civil_date(sorted.last().timestamp@.0 / 86_400);
            &&& plan.total_commits == commits.len()
            &&& plan.included_commits == sorted.len()
            &&& plan.filtered_out == commits.len() - sorted.len()
            &&& plan.chunks.deep_view() == chunks::chunked(
                Seq::new(
                    sorted.len(),
                    |i: int|
                        line_text(
                            calendar::rfc3339_text(sorted[i].timestamp@.0, sorted[i].timestamp@.1),
                            sorted[i].repo@,
                            sorted[i].sha@,
                            sorted[i].message@,
                        ),
                ),
                (max_chars - 1_024) as nat,
            )
            &&& forall|i: int|
                0 <= i < plan.chunks@.len() ==> text::byte_len((#[trigger] plan.chunks@[i])@)
                    <= plan.context_char_count
            &&& exists|i: int|
                0 <= i < plan.chunks@.len() && text::byte_len((#[trigger] plan.chunks@[i])@)
                    == plan.context_char_count
            &&& (y, m, d) == (year, month, day) ==> plan.timespan@ == calendar::date_text(y, m, d)
            &&& (y, m, d) != (year, month, day) ==> plan.timespan@ == calendar::date_text(y, m, d)
                + " to "@ + calendar::date_text(year, month, day)
        },
{
    if let Ok(plan) = r {
        lemma_plan_order(plan, commits, sorted, max_chars);
        lemma_plan_keeps_budget(plan, commits, sorted, max_chars);
        let all = plan.chunks.deep_view();
        lemma_largest_is(all);
        assert(commit_lines(sorted) =~= Seq::new(
            sorted.len(),
            |i: int|
                line_text(
                    calendar::rfc3339_text(sorted[i].timestamp@.0, sorted[i].timestamp@.1),
                    sorted[i].repo@,
                    sorted[i].sha@,
                    sorted[i].message@,
                ),
        ));
        assert forall|i: int| 0 <= i < plan.chunks@.len() implies text::byte_len(
            (#[trigger] plan.chunks@[i])@,
        ) <= plan.context_char_count by {
            assert(all[i] == plan.chunks@[i]@);
        }
        let i = choose|i: int| 0 <= i < all.len() && text::byte_len(#[trigger] all[i]) == largest(all);
        assert(all[i] == plan.chunks@[i]@);
        assert(text::byte_len(plan.chunks@[i]@) == plan.context_char_count);
    }
}

/// The line of a commit: its time, its repository, the first seven characters of its hash, and the
/// words of the first line of its message with one blank between them.
pub proof fn lemma_line_is(
    time: Seq<char>,
    repo: Seq<char>,
    sha: Seq<char>,
    message: Seq<char>,
)
    ensures
        line_text(time, repo, sha, message) == time + " | "@ + repo + " | "@ + short_sha(sha)
            + " | "@ + text::join(text::words(text::first_line(message)), " "@),
        sha.len() <= 7 ==> short_sha(sha) == sha,
        sha.len() > 7 ==> short_sha(sha) == sha.take(7),
{
    if sha.len() <= 7 {
        assert(sha.take(sha.len() as int) =~= sha);
    }
}

/// What an answer comes to: before all chunks are answered, one more trimmed answer is kept and
/// there is no summary yet; after that, the trimmed answer is the summary.
pub proof fn lemma_answer_is(
    before: SummaryRun,
    reply: Seq<char>,
    after: SummaryRun,
    r: Option<Seq<char>>,
)
    requires
        is_reply_step(before, reply, after, r),
    ensures
        after.plan == before.plan,
        before.partials@.len() == before.plan.chunks@.len() ==> r == Some(text::trimmed(reply))
            && after.partials == before.partials,
        before.partials@.len() != before.plan.chunks@.len() ==> r is None
            && after.partials.deep_view() == before.partials.deep_view().push(
            text::trimmed(reply),
        ),
{
}

} // verus!
