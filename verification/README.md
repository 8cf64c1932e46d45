# Annals

`annals` gathers the commits that a person made across GitHub repositories and has a language
model tell them as a story.

The project has two parts.

* `src/` is a library whose functions carry contracts that Verus proves. It holds the rules and
  makes no request itself.
* `app/` is the command line program around it. It makes the requests, reads files, and hands
  what came back to the library.

## The library

| module      | what it holds                                                              |
|-------------|----------------------------------------------------------------------------|
| `calendar`  | instants and dates, computed with `chrono`                                 |
| `dates`     | reading of RFC 3339 times, spans such as `30 days`, and plain dates        |
| `query`     | whose commits to look for, in which range of time and which repository     |
| `record`    | repositories and commits                                                   |
| `http`      | status codes, headers, addresses, and what an error response says          |
| `github`    | lists and searches page by page, and the scan of each repository           |
| `collect`   | collections in which no key comes twice                                    |
| `order`     | commits in the order of time                                               |
| `chunks`    | lines in chunks that fit a budget                                          |
| `summarize` | the plan of a summary, the questions to the model, and its answers         |
| `layout`    | text laid out for a terminal                                               |
| `report`    | what is told to the user                                                   |
| `events`    | progress events                                                            |
| `text`, `number` | words, lines, case, bytes, and decimal numbers                        |

Work that needs the network alternates with decisions, so the library offers steps: `RepoPaging`,
`CommitPaging`, `Search`, `Scan` and `SummaryRun` say what to ask next and take in what came of it.

Proof functions named `lemma_..` that are public state what holds across functions: that a fetch
holds no commit twice, lies in the range of time and is in its order, that chunks lose no line and fit the prompt,
that the layout of a summary keeps every character that is no white space, and more.

What is believed without proof is the behaviour of `chrono` and `reqwest` in the functions marked
`external_body` in `calendar` and `http`, each with a comment that says what is claimed, and
`String::push` in `text`.

## The program

```bash
annals fetch-commits --user jdoe --since "7 days"
annals fetch-commits --user jdoe --since 2024-01-01 --until 2024-02-01 --format json
annals summarize --user jdoe --since "1 week" --repo owner/repo-name --pretty
annals summarize --input commits.json
```

The range of time has its start and not its end: commits made at or after `--since` and before
`--until`.

`GITHUB_TOKEN` gives access to private repositories and a higher rate limit. `OPENAI_API_KEY`,
`ANTHROPIC_API_KEY` and `GEMINI_API_KEY` are the keys of the model providers.
