# review_toolkit

A verified library behind two command-line tools that talk to a self-hosted
vLLM server: a pull-request code review for GitHub Actions and a docstring
generator for Python and TypeScript sources.

The library (`src/`) is written in Verus. Every function states what it
returns in `requires`/`ensures` over mathematical models of strings
(sequences of `char`), and Verus proves the code against them:

- `text` — trimming, word counts, `str::lines`, joining, decimal formatting
  and parsing, UTF-8 byte lengths.
- `diff` — splitting a diff into word-bounded chunks, into per-file sections,
  and grouping files into chunks without splitting any file.
- `source` — the modified files named by a diff, safe relative paths, source
  excerpts, and the source context built under a byte budget, smallest file
  first.
- `github` — pull-request settings, which changed files are reviewed, the
  assembled diff and the comment body.
- `config`, `llm`, `error` — endpoint URLs, the retry policy, reply handling
  and model choice.
- `review` — the review pipeline as a state machine: single-round review,
  chunk reviews, verification against sources, summary and fallbacks.
- `docgen`, `git` — docstring detection (through tree-sitter), prompts, and
  the decisions of the git workflow.

Laws that span functions are public proof functions named `law_*`.

`app/` holds the executable around the library: environment, HTTP (reqwest,
octocrab, async-openai), the file system, git2 and the command line (clap).
It runs the library's state machine and hands back what each outside step
produced.

`tests/` runs the library on concrete values.
