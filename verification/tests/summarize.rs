use annals::calendar::{Date, Timestamp};
use annals::chunks::chunk_lines;
use annals::layout::{split_into_sentences, wrap_text, PRETTY_WRAP_WIDTH};
use annals::summarize::{
    describe_timespan, effective_budget, final_prompt, format_commit_line, format_line,
    is_filtered, plan_summary, resolve_api, summarize_prompt, validate_api_key, SummarizeError,
    SummaryRun,
};
use annals::{
    pretty_format_summary, CommitRecord, ModelProvider, SummarizeOpts, DEFAULT_MAX_CHARS,
    DEFAULT_MODEL,
};

fn commit(repo: &str, sha: &str, message: &str) -> CommitRecord {
    CommitRecord {
        repo: repo.to_string(),
        sha: sha.to_string(),
        message: message.to_string(),
        timestamp: Date::new(2024, 1, 1).unwrap().midnight(),
        url: String::new(),
        author: None,
        committer: None,
    }
}

fn dated(sha: &str, secs: i64) -> CommitRecord {
    let mut c = commit("demo/a", sha, "message");
    c.timestamp = Timestamp::new(secs, 0).unwrap();
    c
}

#[test]
fn filters_conversation_commits() {
    let commits = vec![
        commit("demo/a", "a", "normal commit"),
        commit("demo/a", "b", "VIZIER conversation happened"),
    ];

    let filtered: Vec<_> = commits.iter().filter(|c| !is_filtered(&c.message)).collect();
    assert_eq!(filtered.len(), 1);
    assert_eq!(filtered[0].sha, "a");
}

#[test]
fn formats_commit_lines_without_truncation() {
    let long_msg = "x".repeat(300);
    let line = format_commit_line(&commit("demo/b", "abc1234", &long_msg));
    assert!(line.contains("abc1234"));
    assert!(line.contains(&long_msg));
}

#[test]
fn chunks_respect_budget() {
    let lines = vec!["a".repeat(50), "b".repeat(50), "c".repeat(50)];
    let chunks = chunk_lines(&lines, 60);
    assert_eq!(chunks.len(), 3);
}

#[test]
fn pretty_format_wraps_and_separates_sentences() {
    let summary = "This is a very long sentence that should be wrapped across multiple lines to improve readability when rendered in a terminal environment. A second sentence should appear after a blank line to confirm separation.";
    let formatted = pretty_format_summary(summary);
    let parts: Vec<&str> = formatted.split("\n\n").collect();
    assert_eq!(parts.len(), 2);
    assert!(
        parts
            .iter()
            .all(|section| section.lines().all(|line| line.len() <= PRETTY_WRAP_WIDTH))
    );
}

#[test]
fn splits_sentences_with_trailing_fragment() {
    let sentences = split_into_sentences("One sentence. Another without ending");
    assert_eq!(sentences.len(), 2);
    assert_eq!(sentences[0], "One sentence.");
    assert_eq!(sentences[1], "Another without ending");
}

#[test]
fn summarizes_with_mock_client() {
    let answers = ["partial one", "partial two", "partial three", "unified narrative"];
    let commits = vec![
        commit("demo/a", "a", "first message"),
        commit("demo/a", "b", "second message"),
        commit("demo/a", "c", "third message"),
    ];
    let opts = SummarizeOpts {
        provider: Some("openai".to_string()),
        model: Some(DEFAULT_MODEL.to_string()),
        max_chars: 1_100,
        verbose: false,
        base_url: None,
    };
    let api = resolve_api(&opts);
    let mut run = SummaryRun::new(plan_summary(&commits, opts.max_chars).unwrap());
    let mut questions: Vec<String> = Vec::new();
    let mut summary: Option<String> = None;
    for answer in answers {
        assert!(summary.is_none());
        questions.push(run.next_prompt().1);
        summary = run.take_reply(answer);
    }
    let outcome = run.outcome(summary.unwrap(), api.provider.unwrap(), api.model);

    assert_eq!(outcome.summary, "unified narrative");
    assert_eq!(outcome.filtered_out, 0);
    assert_eq!(outcome.chunk_count, 3);
    assert!(outcome.truncated);

    assert_eq!(outcome.provider, "openai");
    assert_eq!(outcome.model, "gpt-5");
    assert_eq!(outcome.total_commits, 3);
    assert_eq!(outcome.included_commits, 3);
    assert_eq!(outcome.context_char_count, 55);
    assert_eq!(outcome.truncated_lines, 0);
    assert!(questions[1].contains("(batch 2/3)"));
    assert!(questions[1].ends_with("2024-01-01T00:00:00+00:00 | demo/a | b | second message"));
    assert!(questions[3].contains("over the last 2024-01-01."));
    assert!(questions[3].ends_with("partial one\npartial two\npartial three"));
}

#[test]
fn lines_of_commits() {
    assert_eq!(
        format_commit_line(&commit("demo/b", "abc1234567", "  Fix\t the  thing \n\nmore")),
        "2024-01-01T00:00:00+00:00 | demo/b | abc1234 | Fix the thing"
    );
    assert_eq!(format_line("t", "r", "é", ""), "t | r | é | ");
    assert_eq!(format_line("t", "r", "12345678", "\nsecond"), "t | r | 1234567 | ");
    assert_eq!(format_line("t", "r", "s", "a\r\nb"), "t | r | s | a");
}

#[test]
fn the_filter_ignores_case() {
    for message in [
        "VIZIER CONVERSATION", "vizier conversation", "x Vizier Conversation y",
        "a\nvizier CONVERSATION",
    ] {
        assert!(is_filtered(message));
    }
    for message in ["", "VIZIER", "vizier  conversation", "vizier-conversation"] {
        assert!(!is_filtered(message));
    }
}

#[test]
fn the_budget_leaves_room_for_the_prompt() {
    assert_eq!(effective_budget(1_025).unwrap(), 1);
    assert_eq!(effective_budget(DEFAULT_MAX_CHARS).unwrap(), 15_360);
    let error = effective_budget(1_024).unwrap_err();
    assert!(matches!(error, SummarizeError::TooSmall(1_024)));
    assert_eq!(error.message(), "max_chars of 1024 is too small; must exceed padding of 1024");
    assert!(effective_budget(0).is_err());
}

#[test]
fn nothing_left_comes_before_too_small() {
    let error = plan_summary(&vec![commit("a", "b", "vizier conversation")], 0).unwrap_err();
    assert!(matches!(error, SummarizeError::NothingLeft));
    assert_eq!(
        error.message(),
        "No commits to summarize after filtering VIZIER CONVERSATION entries"
    );
    assert!(matches!(plan_summary(&Vec::new(), 5_000), Err(SummarizeError::NothingLeft)));
    let small = plan_summary(&vec![commit("a", "b", "c")], 1_000);
    assert!(matches!(small, Err(SummarizeError::TooSmall(1_000))));
}

#[test]
fn a_plan_accounts_for_every_commit() {
    let mut commits = vec![dated("late", 86_400), dated("early", 0), dated("twin", 0)];
    commits.push(commit("demo/a", "x", "vizier conversation"));
    let plan = plan_summary(&commits, 5_000).unwrap();
    assert_eq!(plan.total_commits, 4);
    assert_eq!(plan.filtered_out, 1);
    assert_eq!(plan.included_commits, 3);
    assert_eq!(plan.timespan, "1970-01-01 to 1970-01-02");
    let lines: Vec<String> =
        [&commits[1], &commits[2], &commits[0]].iter().map(|c| format_commit_line(c)).collect();
    assert_eq!(plan.chunks, vec![lines.join("\n")]);
    assert_eq!(plan.context_char_count, plan.chunks[0].len());
}

#[test]
fn chunks_of_a_plan_hold_every_line_and_fit() {
    let commits: Vec<CommitRecord> =
        (0..40).map(|i| dated(&format!("sha{}", i), 100 * i)).collect();
    let plan = plan_summary(&commits, 1_324).unwrap();
    let lines: Vec<String> = commits.iter().map(format_commit_line).collect();
    assert_eq!(plan.chunks.join("\n"), lines.join("\n"));
    assert!(plan.chunks.len() > 1);
    for (i, chunk) in plan.chunks.iter().enumerate() {
        assert!(chunk.len() + 1_024 <= 1_324);
        let (system, content) = summarize_prompt(chunk, i + 1, plan.chunks.len());
        assert!(system.len() + content.len() <= 1_324);
    }
}

#[test]
fn chunk_edges() {
    let chunk = |lines: &[&str], budget: usize| {
        chunk_lines(&lines.iter().map(|l| l.to_string()).collect(), budget)
    };
    assert_eq!(chunk(&["aa", "bb", "c"], 5), vec!["aa\nbb", "c"]);
    assert_eq!(chunk(&["aa", "bbbbbb", "c", "d"], 5), vec!["aa", "bbbbbb", "c\nd"]);
    assert_eq!(chunk(&["bbbbbb", "c"], 5), vec!["bbbbbb", "c"]);
    assert_eq!(chunk(&["é", "é"], 5), vec!["é\né"]);
    assert_eq!(chunk(&["é", "é"], 4), vec!["é", "é"]);
    assert_eq!(chunk(&[], 4), Vec::<String>::new());
    assert_eq!(chunk(&["", "a"], 4), vec!["a"]);
    assert_eq!(chunk(&["a", "", "b"], 4), vec!["a\n\nb"]);
    assert_eq!(chunk(&["a"], 0), vec!["a"]);
}

#[test]
fn a_full_chunk_takes_no_further_line() {
    let lines: Vec<String> = ["aaa", "bb", "cccc", "d"].iter().map(|l| l.to_string()).collect();
    let chunks = chunk_lines(&lines, 6);
    assert_eq!(chunks, vec!["aaa\nbb", "cccc\nd"]);
}

#[test]
fn ranges_in_words() {
    let midnight = |y: i32, m: u32, d: u32| Date::new(y, m, d).unwrap().midnight();
    let start = midnight(2024, 1, 1);
    let same_day = Timestamp::new(start.secs() + 86_399, 0).unwrap();
    assert_eq!(describe_timespan(&start, &same_day), "2024-01-01");
    assert_eq!(describe_timespan(&start, &midnight(2024, 2, 29)), "2024-01-01 to 2024-02-29");
}

#[test]
fn questions_to_the_model() {
    let (system, content) = summarize_prompt("the commits", 2, 13);
    assert_eq!(
        system,
        "You summarize git commit activity into a narrative of user accomplishments. Write as if telling a story of what was built or improved over time. Avoid meta-phrases like 'the commits show' or 'this batch includes'. Do not use bullet points or headings."
    );
    assert_eq!(
        content,
        "Write one narrative sentence summarizing the key accomplishments from these commits (batch 2/13) as part of a continuous story of progress. Keep it to a single line.\n\nCommits:\nthe commits"
    );
    let (system, content) = final_prompt("one\ntwo", "2024-01-01");
    assert_eq!(
        system,
        "You craft cohesive summaries of software development accomplishments. Write in a flowing narrative without bullet points or section headers."
    );
    assert_eq!(
        content,
        "Bind this into a unified narrative unit describing the user's activities over the last 2024-01-01. Keep it to a single paragraph with no list formatting.\n\nPartial summaries:\none\ntwo"
    );
}

#[test]
fn answers_are_trimmed() {
    let plan = plan_summary(&vec![commit("a", "b", "c")], 5_000).unwrap();
    let mut run = SummaryRun::new(plan);
    assert_eq!(run.take_reply(" a part \n"), None);
    assert!(run.next_prompt().1.ends_with("Partial summaries:\na part"));
    assert_eq!(run.take_reply("\tthe whole "), Some("the whole".to_string()));
    assert_eq!(run.partials, vec!["a part"]);
    let outcome = run.outcome("s".to_string(), "p".to_string(), "m".to_string());
    assert!(!outcome.truncated);
    assert_eq!(outcome.chunk_count, 1);
}

#[test]
fn providers_and_models() {
    let opts = SummarizeOpts::default();
    assert_eq!(opts.max_chars, 16_384);
    assert!(!opts.verbose && opts.base_url.is_none());
    let choice = resolve_api(&opts);
    assert_eq!(choice.provider, None);
    assert_eq!(choice.model, "gpt-5");
    assert_eq!(ModelProvider::Openai.as_str(), "openai");
    assert_eq!(ModelProvider::Anthropic.as_str(), "anthropic");
    assert_eq!(ModelProvider::Gemini.as_str(), "gemini");
    assert_eq!(ModelProvider::Anthropic.api_key_variable(), "ANTHROPIC_API_KEY");
}

#[test]
fn keys_of_providers() {
    assert!(validate_api_key(ModelProvider::Openai, "test").is_ok());
    let missing = |p: ModelProvider| validate_api_key(p, " \n").unwrap_err().message();
    assert_eq!(missing(ModelProvider::Openai), "OpenAI credentials missing: set OPENAI_API_KEY");
    assert_eq!(
        missing(ModelProvider::Anthropic),
        "Anthropic credentials missing: set ANTHROPIC_API_KEY"
    );
    assert_eq!(missing(ModelProvider::Gemini), "Gemini credentials missing: set GEMINI_API_KEY");
    assert!(validate_api_key(ModelProvider::Gemini, "").is_err());
}

#[test]
fn sentences() {
    let split = |s: &str| split_into_sentences(s);
    assert_eq!(split("A? B! C."), vec!["A?", "B!", "C."]);
    assert_eq!(split("Wait... what"), vec!["Wait.", ".", ".", "what"]);
    assert_eq!(split("v1.2 is out"), vec!["v1.", "2 is out"]);
    assert_eq!(split(" \n "), Vec::<String>::new());
    assert_eq!(split(""), Vec::<String>::new());
    assert_eq!(split(". "), vec!["."]);
}

#[test]
fn wrapping() {
    assert_eq!(wrap_text("aa bb cc", 5), "aa bb\ncc");
    assert_eq!(wrap_text("aaaaaaaa b", 5), "aaaaaaaa\nb");
    assert_eq!(wrap_text("  a \n b ", 5), "a b");
    assert_eq!(wrap_text("", 5), "");
    assert_eq!(wrap_text("éé éé", 8), "éé\néé");
    assert_eq!(wrap_text("a b", 0), "a\nb");
}

#[test]
fn layout_keeps_every_character_that_is_no_space() {
    let text = "First   one.  Second\nwith a line break! And a tail that is a bit longer than the width of a line in a terminal";
    let ink = |s: &str| s.chars().filter(|c| !c.is_whitespace()).collect::<String>();
    let pretty = pretty_format_summary(text);
    assert_eq!(ink(&pretty), ink(text));
    assert_eq!(
        pretty,
        "First one.\n\nSecond with a line break!\n\nAnd a tail that is a bit longer than the width of a line in a terminal"
    );
    assert_eq!(pretty_format_summary(" "), "");
}
