//! The review pipeline: prompts, and the decisions between model calls.
//!
//! A review is a conversation with the model driven from outside: the
//! pipeline says which call to make (or which source files to read), the
//! caller performs it and reports the outcome, and the pipeline decides what
//! comes next.  A diff announcing at most one file is reviewed in one call;
//! a larger one is reviewed chunk by chunk, then the findings are verified
//! against the source files, falling back to a summary and finally to the raw
//! chunk output when calls fail.
use vstd::prelude::*;
use crate::diff::{
    count_file_markers, diff_chunks, file_chunks, file_sections, file_separator,
    group_files_into_chunks, match_positions, pair_views, split_diff_by_file,
    split_diff_into_chunks,
};
use crate::llm::ChatMessage;
use crate::source::{build_context_with_budget, context_with_budget, extract_modified_files, file_views, header_names};
use crate::text::{
    chars_of, contains, contains_chars, decimal, join, join_strings, lines, push_decimal,
    push_str, starts_with, starts_with_chars, string_of, trim, views, byte_len,
};

verus! {

pub const SINGLE_ROUND_SYSTEM_PROMPT: &'static str = "You are a senior software engineer performing a thorough pull request code review. Your goal is to help the author ship better code by providing detailed, actionable feedback. For each finding, explain WHY it matters and HOW to fix it. Be constructive: acknowledge good patterns alongside issues. Output the requested format. Only report issues you can directly verify from the provided code. Do NOT speculate about behavior in code you cannot see. Do NOT invent API features, language semantics, or framework behaviors you are not certain about. If the code is correct and well-written, reporting fewer or zero findings is better than inflating issues.";

pub const SINGLE_ROUND_USER_TEMPLATE: &'static str = "Review this diff and output exactly this structure:\n\
    \n\
    ---\n\
    findings_total: <count or 0 if no issues found>\n\
    top_files:\n\
    \x20 - <up to 3 files with most findings>\n\
    risk_score: <critical|high|medium|low|none>\n\
    ---\n\
    \n\
    ## 🔍 AI Code Review\n\
    \n\
    ### 📋 Summary\n\
    \n\
    Write 2-4 sentences summarizing the overall changes, their purpose, and the general code quality.\n\
    \n\
    ### 🛠 Code Quality Issues\n\
    \n\
    | # | Location | Issue | Severity |\n\
    |---|----------|-------|----------|\n\
    | <n> | `file:line` | Description | 🔴 Critical / 🟠 High / 🟡 Medium / 🟢 Low |\n\
    \n\
    For each issue above, add a detail block:\n\
    \n\
    #### Issue N: <short title>\n\
    **Why it matters:** Explain the impact (bug risk, performance, maintainability).\n\
    **Suggestion:** Provide a concrete fix or improvement, with a short code snippet if helpful.\n\
    \n\
    ### 🔒 Security Issues\n\
    \n\
    | # | Location | Issue | Risk Level |\n\
    |---|----------|-------|------------|\n\
    | <n> | `file:line` | Description | 🔴 Critical / 🟠 High / 🟡 Medium / 🟢 Low |\n\
    \n\
    For each security issue above, add a detail block:\n\
    \n\
    #### Security Issue N: <short title>\n\
    **Risk:** Describe the attack vector or vulnerability.\n\
    **Remediation:** Provide a concrete fix with code snippet if applicable.\n\
    \n\
    ### ✅ What Looks Good\n\
    \n\
    List 2-3 positive aspects of the code (good patterns, clean structure, proper error handling, etc.).\n\
    \n\
    Rules:\n\
    - Sort table rows: Critical first, then High, Medium, Low\n\
    - EVERY table row MUST have a matching detail block below its table\n\
    - If a section has no findings, write: | — | — | No issues found. | — |\n\
    - Location always in backticks\n\
    - top_files: files with most findings, max 3\n\
    - risk_score: highest severity present; none if no findings\n\
    - Be specific: reference actual variable names, function names, and line numbers from the diff\n\
    - An empty findings table is a valid and positive outcome when code quality is good.\n\
    - Do NOT report issues based on assumptions about external APIs, frameworks, or language features you cannot verify from the diff.\n\
    - Prefer fewer high-confidence findings over many speculative ones.\n\
    \n\
    Diff to review:\n\
    ```diff\n\
    ";

pub const VERIFY_SYSTEM_PROMPT: &'static str = "You are a senior software engineer verifying code review findings against actual source code. Your job is to FILTER, not to ADD. For each finding, determine if it is correct based on the evidence in the source code provided. Be skeptical of findings that make claims about APIs, frameworks, or language features that cannot be verified from the code. Reject any finding that is speculative or factually incorrect.";

pub const VERIFY_USER_TEMPLATE: &'static str = "Verify each finding below against the source code provided.\n\
    \n\
    For each finding, classify as:\n\
    - CONFIRMED -- the issue is real and verifiable in the source code\n\
    - REJECTED -- the issue is incorrect, speculative, or based on wrong assumptions\n\
    - DOWNGRADED -- the issue exists but the severity is inflated (specify correct severity)\n\
    \n\
    Then produce the final report containing ONLY confirmed (and downgraded) findings,\n\
    using this exact structure:\n\
    \n\
    ---\n\
    findings_total: <count of confirmed + downgraded findings, or 0>\n\
    top_files:\n\
    \x20 - <up to 3 files with most confirmed findings>\n\
    risk_score: <critical|high|medium|low|none>\n\
    ---\n\
    \n\
    ## 🔍 AI Code Review\n\
    \n\
    ### 📋 Summary\n\
    Write 2-4 sentences summarizing the changes and verified findings.\n\
    \n\
    ### 🛠 Code Quality Issues\n\
    | # | Location | Issue | Severity |\n\
    |---|----------|-------|----------|\n\
    (only confirmed/downgraded findings)\n\
    \n\
    For each confirmed issue:\n\
    #### Issue N: <title>\n\
    **Verified:** Explain what in the source code confirms this issue.\n\
    **Suggestion:** Concrete fix.\n\
    \n\
    ### 🔒 Security Issues\n\
    | # | Location | Issue | Risk Level |\n\
    |---|----------|-------|------------|\n\
    (only confirmed/downgraded findings)\n\
    \n\
    ### ✅ What Looks Good\n\
    List 2-3 positive aspects.\n\
    \n\
    Rules:\n\
    - Do NOT add new findings -- only verify the ones provided\n\
    - REJECTED findings must NOT appear in the final report\n\
    - An empty table is a valid outcome if all findings were rejected\n\
    - Sort confirmed findings: Critical first, then High, Medium, Low\n\
    \n\
    [FINDINGS TO VERIFY]\n\
    \n\
    ";

pub const SUMMARIZE_SYSTEM_PROMPT: &'static str = "You are a senior software engineer performing a thorough pull request code review. Your goal is to help the author ship better code by providing detailed, actionable feedback. For each finding, explain WHY it matters and HOW to fix it. Be constructive: acknowledge good patterns alongside issues. Output the requested format. Only report issues you can directly verify from the provided code. Do NOT speculate about behavior in code you cannot see. Do NOT invent API features, language semantics, or framework behaviors you are not certain about. If the code is correct and well-written, reporting fewer or zero findings is better than inflating issues.";

pub const SUMMARIZE_USER_TEMPLATE: &'static str = "Review these findings and output exactly this structure:\n\
    \n\
    ---\n\
    findings_total: <count or 0 if no issues found>\n\
    top_files:\n\
    \x20 - <up to 3 files with most findings>\n\
    risk_score: <critical|high|medium|low|none>\n\
    ---\n\
    \n\
    ## 🔍 AI Code Review\n\
    \n\
    ### 📋 Summary\n\
    \n\
    Write 2-4 sentences summarizing the overall changes, their purpose, and the general code quality.\n\
    \n\
    ### 🛠 Code Quality Issues\n\
    \n\
    | # | Location | Issue | Severity |\n\
    |---|----------|-------|----------|\n\
    | <n> | `file:line` | Description | 🔴 Critical / 🟠 High / 🟡 Medium / 🟢 Low |\n\
    \n\
    For each issue above, add a detail block:\n\
    \n\
    #### Issue N: <short title>\n\
    **Why it matters:** Explain the impact (bug risk, performance, maintainability).\n\
    **Suggestion:** Provide a concrete fix or improvement, with a short code snippet if helpful.\n\
    \n\
    ### 🔒 Security Issues\n\
    \n\
    | # | Location | Issue | Risk Level |\n\
    |---|----------|-------|------------|\n\
    | <n> | `file:line` | Description | 🔴 Critical / 🟠 High / 🟡 Medium / 🟢 Low |\n\
    \n\
    For each security issue above, add a detail block:\n\
    \n\
    #### Security Issue N: <short title>\n\
    **Risk:** Describe the attack vector or vulnerability.\n\
    **Remediation:** Provide a concrete fix with code snippet if applicable.\n\
    \n\
    ### ✅ What Looks Good\n\
    \n\
    List 2-3 positive aspects of the code (good patterns, clean structure, proper error handling, etc.).\n\
    \n\
    Rules:\n\
    - Sort table rows: Critical first, then High, Medium, Low\n\
    - EVERY table row MUST have a matching detail block below its table\n\
    - Deduplicate similar findings across chunks\n\
    - If a section has no findings, write: | — | — | No issues found. | — |\n\
    - Location always in backticks\n\
    - top_files: files with most findings, max 3\n\
    - risk_score: highest severity present; none if no findings\n\
    - Be specific: reference actual variable names, function names, and line numbers from the diff\n\
    - An empty findings table is a valid and positive outcome when code quality is good.\n\
    - Do NOT report issues based on assumptions about external APIs, frameworks, or language features you cannot verify from the diff.\n\
    - Prefer fewer high-confidence findings over many speculative ones.\n\
    \n\
    Findings collected from all diff chunks:\n\
    \n\
    ";


/// The opening of the per-chunk request.
pub open spec fn chunk_prompt_head() -> Seq<char> {
    "Review this diff chunk. List findings only as bullets:\n- CODE: `file:line` \u{2014} <issue> [Critical|High|Medium|Low]\n- SEC: `file:line` \u{2014} <issue> [Critical|High|Medium|Low]\nNo headings, no prose, bullets only.\n\n```diff\n"@
}

/// The closing fence of a diff code block.
pub open spec fn fence_close() -> Seq<char> {
    "\n```"@
}

/// The user prompt for a diff chunk review: bullet instructions and the
/// chunk in a `diff` code block.
pub open spec fn chunk_prompt(chunk: Seq<char>) -> Seq<char> {
    chunk_prompt_head() + chunk + fence_close()
}

/// Construct the user prompt for a diff chunk review.
pub fn chunk_user_prompt(chunk: &str) -> (res: String)
    ensures
        res@ == chunk_prompt(chunk@),
{
    let mut s = string_of(
        "Review this diff chunk. List findings only as bullets:\n- CODE: `file:line` \u{2014} <issue> [Critical|High|Medium|Low]\n- SEC: `file:line` \u{2014} <issue> [Critical|High|Medium|Low]\nNo headings, no prose, bullets only.\n\n```diff\n",
    );
    push_str(&mut s, chunk);
    push_str(&mut s, "\n```");
    s
}

/// Words per chunk in a multi-file review.
pub open spec fn chunk_word_budget() -> nat {
    2000
}

/// The chunks of a multi-file review: per-file sections grouped without
/// splitting a file, or, when the diff has no `# File: ` headers, its lines.
pub open spec fn review_chunks(diff: Seq<char>) -> Seq<Seq<char>> {
    let files = file_sections(diff);
    if files.len() == 0 {
        diff_chunks(diff, chunk_word_budget())
    } else {
        file_chunks(files, chunk_word_budget())
    }
}

/// The diff announces at most one file (`"\n\n# File:"` at most once).
pub open spec fn is_single_file(diff: Seq<char>) -> bool {
    match_positions(diff, file_separator(), 0).len() <= 1
}

/// The chunks of a multi-file review.
pub fn chunks_for_review(diff: &str) -> (res: Vec<String>)
    ensures
        views(res@) == review_chunks(diff@),
{
    let files = split_diff_by_file(diff);
    if files.len() == 0 {
        split_diff_into_chunks(diff, 2000)
    } else {
        group_files_into_chunks(files.as_slice(), 2000)
    }
}

/// The text recorded for a chunk whose call failed (`i` counts from 1).
pub open spec fn chunk_failure_text(i: nat) -> Seq<char> {
    "Chunk "@ + decimal(i) + ": error during analysis"@
}

/// A chunk review that does not record a failed call.
pub open spec fn is_valid_review(r: Seq<char>) -> bool {
    !starts_with(r, "Chunk "@) || !contains(r, ": error during analysis"@)
}

/// The reviews that are real findings, in order.
pub open spec fn valid_reviews(rs: Seq<Seq<char>>) -> Seq<Seq<char>> {
    rs.filter(|r: Seq<char>| is_valid_review(r))
}

/// The separator between chunk outputs.
pub open spec fn review_separator() -> Seq<char> {
    "\n\n---\n\n"@
}

/// The report when neither verification nor summary came through.
pub open spec fn raw_report(reviews: Seq<Seq<char>>) -> Seq<char> {
    "> \u{26a0}\u{fe0f} Verification and summarization failed \u{2014} raw chunk output below.\n\n"@
        + join(reviews, review_separator())
}

/// The text recorded for a chunk whose call failed.
pub fn chunk_failure(i: usize) -> (res: String)
    ensures
        res@ == chunk_failure_text(i as nat),
{
    let mut s = string_of("Chunk ");
    push_decimal(&mut s, i);
    push_str(&mut s, ": error during analysis");
    s
}

/// Whether a chunk review is a real finding rather than a failure record.
pub fn review_is_valid(r: &str) -> (res: bool)
    ensures
        res == is_valid_review(r@),
{
    let v = chars_of(r);
    let prefix = chars_of("Chunk ");
    let marker = chars_of(": error during analysis");
    !starts_with_chars(&v, &prefix) || !contains_chars(&v, &marker)
}

/// The reviews that are real findings, in order.
pub fn filter_valid_reviews(reviews: &Vec<String>) -> (res: Vec<String>)
    ensures
        views(res@) == valid_reviews(views(reviews@)),
{
    let ghost rv = views(reviews@);
    let mut out: Vec<String> = Vec::new();
    let mut i: usize = 0;
    while i < reviews.len()
        invariant
            rv == views(reviews@),
            0 <= i <= reviews@.len(),
            views(out@) == valid_reviews(rv.take(i as int)),
        decreases reviews@.len() - i,
    {
        let ok = review_is_valid(reviews[i].as_str());
        proof {
            assert(rv.take(i + 1) =~= rv.take(i as int).push(rv[i as int]));
            rv.take(i as int).lemma_filter_push(rv[i as int], |r: Seq<char>| is_valid_review(r));
        }
        if ok {
            let ghost before = out@;
            out.push(string_of(reviews[i].as_str()));
            proof {
                assert(views(out@) =~= views(before).push(reviews@[i as int]@));
            }
        }
        i = i + 1;
    }
    proof {
        assert(rv.take(reviews@.len() as int) =~= rv);
    }
    out
}

/// The report made of the raw chunk outputs.
pub fn raw_chunk_report(reviews: &Vec<String>) -> (res: String)
    ensures
        res@ == raw_report(views(reviews@)),
{
    let mut s = string_of(
        "> \u{26a0}\u{fe0f} Verification and summarization failed \u{2014} raw chunk output below.\n\n",
    );
    let joined = join_strings(reviews, "\n\n---\n\n");
    push_str(&mut s, joined.as_str());
    s
}

// ---------------------------------------------------------------------------
// Model calls
// ---------------------------------------------------------------------------

/// A chat-completions request: the messages, the token limit, and the
/// temperature in hundredths.
pub struct LlmCall {
    pub messages: Vec<ChatMessage>,
    pub max_tokens: u32,
    pub temperature_percent: u32,
}

/// Role and content of each message of a call.
pub open spec fn messages_view(ms: Seq<ChatMessage>) -> Seq<(Seq<char>, Seq<char>)> {
    ms.map_values(|m: ChatMessage| (m.role@, m.content@))
}

/// A call with a system message and a user message.
pub open spec fn is_call(c: LlmCall, system: Seq<char>, user: Seq<char>, max_tokens: u32, temperature_percent: u32) -> bool {
    &&& messages_view(c.messages@) == seq![("system"@, system), ("user"@, user)]
    &&& c.max_tokens == max_tokens
    &&& c.temperature_percent == temperature_percent
}

fn make_call(system: &str, user: String, max_tokens: u32, temperature_percent: u32) -> (res: LlmCall)
    ensures
        is_call(res, system@, user@, max_tokens, temperature_percent),
{
    let mut messages: Vec<ChatMessage> = Vec::new();
    messages.push(ChatMessage { role: "system", content: string_of(system) });
    messages.push(ChatMessage { role: "user", content: user });
    proof {
        assert(messages_view(messages@) =~= seq![("system"@, system@), ("user"@, user@)]);
    }
    LlmCall { messages, max_tokens, temperature_percent }
}

/// The single-round review of a whole diff.
pub open spec fn single_round_user(diff: Seq<char>) -> Seq<char> {
    SINGLE_ROUND_USER_TEMPLATE@ + diff + fence_close()
}

/// The combined findings handed to verification or summary.
pub open spec fn combined_findings(valid: Seq<Seq<char>>) -> Seq<char> {
    join(valid, review_separator())
}

/// The verification request: findings and source context.
pub open spec fn verify_user(valid: Seq<Seq<char>>, sources: Seq<(Seq<char>, Seq<char>)>, budget: nat) -> Seq<char> {
    VERIFY_USER_TEMPLATE@ + combined_findings(valid) + context_with_budget(sources, budget as int)
}

/// The summary request.
pub open spec fn summarize_user(valid: Seq<Seq<char>>) -> Seq<char> {
    SUMMARIZE_USER_TEMPLATE@ + combined_findings(valid)
}

fn single_round_call(diff: &str) -> (res: LlmCall)
    ensures
        is_call(res, SINGLE_ROUND_SYSTEM_PROMPT@, single_round_user(diff@), 4096, 20),
{
    let mut user = string_of(SINGLE_ROUND_USER_TEMPLATE);
    push_str(&mut user, diff);
    push_str(&mut user, "\n```");
    make_call(SINGLE_ROUND_SYSTEM_PROMPT, user, 4096, 20)
}

fn chunk_call(chunk: &str) -> (res: LlmCall)
    ensures
        is_call(res, SINGLE_ROUND_SYSTEM_PROMPT@, chunk_prompt(chunk@), 2048, 10),
{
    make_call(SINGLE_ROUND_SYSTEM_PROMPT, chunk_user_prompt(chunk), 2048, 10)
}

fn summarize_call(valid: &Vec<String>) -> (res: LlmCall)
    ensures
        is_call(res, SUMMARIZE_SYSTEM_PROMPT@, summarize_user(views(valid@)), 4096, 10),
{
    let mut user = string_of(SUMMARIZE_USER_TEMPLATE);
    let joined = join_strings(valid, "\n\n---\n\n");
    push_str(&mut user, joined.as_str());
    make_call(SUMMARIZE_SYSTEM_PROMPT, user, 4096, 10)
}

fn verify_call(valid: &Vec<String>, sources: &Vec<(String, String)>, budget: usize) -> (res: LlmCall)
    requires
        forall|i: int| 0 <= i < sources@.len() ==> byte_len(#[trigger] sources@[i].1@) <= usize::MAX,
    ensures
        is_call(res, VERIFY_SYSTEM_PROMPT@, verify_user(views(valid@), file_views(sources@), budget as nat), 4096, 10),
{
    let mut user = string_of(VERIFY_USER_TEMPLATE);
    let joined = join_strings(valid, "\n\n---\n\n");
    push_str(&mut user, joined.as_str());
    let context = build_context_with_budget(sources.as_slice(), budget);
    push_str(&mut user, context.as_str());
    make_call(VERIFY_SYSTEM_PROMPT, user, 4096, 10)
}


// ---------------------------------------------------------------------------
// The pipeline as a state machine
// ---------------------------------------------------------------------------

/// Where a review stands between two outside steps.
pub enum ReviewState {
    /// The review is over.
    Done,
    /// Waiting for the single-round review.
    SingleRound,
    /// Waiting for the review of chunk `next`; `reviews` holds one entry per
    /// earlier chunk, `paths` the files to read for verification.
    Chunks { chunks: Vec<String>, next: usize, reviews: Vec<String>, paths: Vec<String>, budget: usize },
    /// Waiting for the contents of the modified files.
    Sources { reviews: Vec<String>, valid: Vec<String>, budget: usize },
    /// Waiting for the verification of the findings.
    Verifying { reviews: Vec<String>, valid: Vec<String> },
    /// Waiting for the summary of the findings.
    Summarizing { reviews: Vec<String>, valid: Vec<String> },
}

/// What the caller does next.
pub enum ReviewAction {
    /// Make this chat-completions call and report its text (or its failure).
    Call(LlmCall),
    /// Read these files (relative to the working directory) and report those read.
    ReadSources(Vec<String>),
    /// The review is over with this report (`None`: no review).
    Finish(Option<String>),
}

/// What the caller reports.
pub enum ReviewEvent {
    /// The text of the call's reply, or `None` when the call failed.
    Reply(Option<String>),
    /// The files that could be read, as `(path, content)`.
    SourcesRead(Vec<(String, String)>),
}

/// The view of an optional string.
pub open spec fn opt_view(o: Option<String>) -> Option<Seq<char>> {
    match o {
        Some(s) => Some(s@),
        None => None,
    }
}

/// An upper bound on the outside steps (calls and file reads) left before the
/// review finishes.
pub open spec fn steps_left(state: ReviewState) -> nat {
    match state {
        ReviewState::Done => 0,
        ReviewState::SingleRound => 1,
        ReviewState::Chunks { chunks, next, .. } => if next <= chunks@.len() {
            (chunks@.len() - next) as nat + 3
        } else {
            3
        },
        ReviewState::Sources { .. } => 3,
        ReviewState::Verifying { .. } => 2,
        ReviewState::Summarizing { .. } => 1,
    }
}

/// The state waits for `event`, and its parts are consistent.
pub open spec fn awaits(state: ReviewState, event: ReviewEvent) -> bool {
    match state {
        ReviewState::Done => false,
        ReviewState::SingleRound => event is Reply,
        ReviewState::Chunks { chunks, next, reviews, .. } => {
            &&& event is Reply
            &&& next < chunks@.len()
            &&& reviews@.len() == next
        },
        ReviewState::Sources { valid, .. } => {
            &&& valid@.len() > 0
            &&& event matches ReviewEvent::SourcesRead(files)
            &&& forall|i: int| 0 <= i < files@.len() ==> byte_len(#[trigger] files@[i].1@) <= usize::MAX
        },
        ReviewState::Verifying { valid, .. } => event is Reply && valid@.len() > 0,
        ReviewState::Summarizing { valid, .. } => event is Reply && valid@.len() > 0,
    }
}

/// The state is `Chunks` with these parts.
pub open spec fn is_chunks_state(
    st: ReviewState,
    chunks: Seq<Seq<char>>,
    next: int,
    reviews: Seq<Seq<char>>,
    paths: Seq<Seq<char>>,
    budget: usize,
) -> bool {
    match st {
        ReviewState::Chunks { chunks: c, next: n, reviews: r, paths: p, budget: b } => {
            &&& views(c@) == chunks
            &&& n == next
            &&& views(r@) == reviews
            &&& views(p@) == paths
            &&& b == budget
        },
        _ => false,
    }
}

/// The action is the review of chunk `i` of `chunks`.
pub open spec fn calls_chunk(act: ReviewAction, chunks: Seq<Seq<char>>, i: int) -> bool {
    act matches ReviewAction::Call(c) && is_call(c, SINGLE_ROUND_SYSTEM_PROMPT@, chunk_prompt(chunks[i]), 2048, 10)
}

/// The action is the summary of `valid`.
pub open spec fn calls_summary(act: ReviewAction, valid: Seq<Seq<char>>) -> bool {
    act matches ReviewAction::Call(c) && is_call(c, SUMMARIZE_SYSTEM_PROMPT@, summarize_user(valid), 4096, 10)
}

/// The state holds these reviews and valid reviews, in the given phase.
pub open spec fn holds_findings(st: ReviewState, phase: int, reviews: Seq<Seq<char>>, valid: Seq<Seq<char>>, budget: usize) -> bool {
    match st {
        ReviewState::Sources { reviews: r, valid: v, budget: b } => {
            &&& phase == 0
            &&& views(r@) == reviews
            &&& views(v@) == valid
            &&& b == budget
        },
        ReviewState::Verifying { reviews: r, valid: v } => {
            &&& phase == 1
            &&& views(r@) == reviews
            &&& views(v@) == valid
        },
        ReviewState::Summarizing { reviews: r, valid: v } => {
            &&& phase == 2
            &&& views(r@) == reviews
            &&& views(v@) == valid
        },
        _ => false,
    }
}

/// The review ends with `report`.
pub open spec fn finishes(st: ReviewState, act: ReviewAction, report: Option<Seq<char>>) -> bool {
    &&& st is Done
    &&& act matches ReviewAction::Finish(r) && opt_view(r) == report
}

/// What follows the last chunk review: with no valid finding, the raw
/// output; otherwise the modified files are read for verification.
pub open spec fn after_chunks(st: ReviewState, act: ReviewAction, reviews: Seq<Seq<char>>, paths: Seq<Seq<char>>, budget: usize) -> bool {
    let valid = valid_reviews(reviews);
    if valid.len() == 0 {
        finishes(st, act, Some(raw_report(reviews)))
    } else {
        &&& holds_findings(st, 0, reviews, valid, budget)
        &&& act matches ReviewAction::ReadSources(ps) && views(ps@) == paths
    }
}

fn after_chunk_reviews(reviews: Vec<String>, paths: Vec<String>, budget: usize) -> (res: (ReviewState, ReviewAction))
    ensures
        after_chunks(res.0, res.1, views(reviews@), views(paths@), budget),
{
    let valid = filter_valid_reviews(&reviews);
    if valid.len() == 0 {
        let report = raw_chunk_report(&reviews);
        (ReviewState::Done, ReviewAction::Finish(Some(report)))
    } else {
        (ReviewState::Sources { reviews, valid, budget }, ReviewAction::ReadSources(paths))
    }
}

/// How a review of `diff` begins: a blank diff has no review; a single-file
/// diff gets one call; otherwise the first chunk is reviewed, or there is no
/// review when there is no chunk.
pub open spec fn review_start(diff: Seq<char>, budget: usize, st: ReviewState, act: ReviewAction) -> bool {
    &&& trim(diff).len() == 0 ==> finishes(st, act, None)
    &&& trim(diff).len() > 0 && is_single_file(diff) ==> {
            &&& st is SingleRound
            &&& act matches ReviewAction::Call(c) && is_call(c, SINGLE_ROUND_SYSTEM_PROMPT@, single_round_user(diff), 4096, 20)
        }
    &&& trim(diff).len() > 0 && !is_single_file(diff) && review_chunks(diff).len() == 0 ==> finishes(st, act, None)
    &&& trim(diff).len() > 0 && !is_single_file(diff) && review_chunks(diff).len() > 0 ==> {
            &&& is_chunks_state(st, review_chunks(diff), 0, seq![], header_names(lines(diff)), budget)
            &&& calls_chunk(act, review_chunks(diff), 0)
        }
}

/// Begins the review of `diff`; `budget` bounds the bytes of source context
/// handed to verification.
pub fn start_review(diff: &str, budget: usize) -> (res: (ReviewState, ReviewAction))
    ensures
        review_start(diff@, budget, res.0, res.1),
        steps_left(res.0) <= review_chunks(diff@).len() + 3,
{
    if crate::llm::is_blank(diff) {
        return (ReviewState::Done, ReviewAction::Finish(None));
    }
    if count_file_markers(diff) <= 1 {
        return (ReviewState::SingleRound, ReviewAction::Call(single_round_call(diff)));
    }
    let chunks = chunks_for_review(diff);
    if chunks.len() == 0 {
        return (ReviewState::Done, ReviewAction::Finish(None));
    }
    let call = chunk_call(chunks[0].as_str());
    let paths = extract_modified_files(diff);
    let reviews: Vec<String> = Vec::new();
    proof {
        assert(views(reviews@) =~= Seq::<Seq<char>>::empty());
    }
    (ReviewState::Chunks { chunks, next: 0, reviews, paths, budget }, ReviewAction::Call(call))
}

/// The step of the review from `state` on `event`: the next state and
/// action for each stage (see `review_step`).
pub open spec fn review_transition(state: ReviewState, event: ReviewEvent, after: ReviewState, act: ReviewAction) -> bool {
    match (state, event) {
        (ReviewState::SingleRound, ReviewEvent::Reply(r)) => finishes(after, act, opt_view(r)),
        (ReviewState::Chunks { chunks, next, reviews, paths, budget }, ReviewEvent::Reply(r)) => {
            let rec = match r {
                Some(t) => t@,
                None => chunk_failure_text((next + 1) as nat),
            };
            let reviews2 = views(reviews@).push(rec);
            if next + 1 < chunks@.len() {
                &&& is_chunks_state(after, views(chunks@), next + 1, reviews2, views(paths@), budget)
                &&& calls_chunk(act, views(chunks@), next + 1)
            } else {
                after_chunks(after, act, reviews2, views(paths@), budget)
            }
        },
        (ReviewState::Sources { reviews, valid, budget }, ReviewEvent::SourcesRead(files)) => {
            if files@.len() == 0 {
                &&& holds_findings(after, 2, views(reviews@), views(valid@), 0)
                &&& calls_summary(act, views(valid@))
            } else {
                &&& holds_findings(after, 1, views(reviews@), views(valid@), 0)
                &&& act matches ReviewAction::Call(c) && is_call(c, VERIFY_SYSTEM_PROMPT@,
                    verify_user(views(valid@), file_views(files@), budget as nat), 4096, 10)
            }
        },
        (ReviewState::Verifying { reviews, valid }, ReviewEvent::Reply(r)) => match r {
            Some(t) => finishes(after, act, Some(t@)),
            None => {
                &&& holds_findings(after, 2, views(reviews@), views(valid@), 0)
                &&& calls_summary(act, views(valid@))
            },
        },
        (ReviewState::Summarizing { reviews, .. }, ReviewEvent::Reply(r)) => match r {
            Some(t) => finishes(after, act, Some(t@)),
            None => finishes(after, act, Some(raw_report(views(reviews@)))),
        },
        _ => false,
    }
}

/// The next step of the review after `event`.
pub fn review_step(state: ReviewState, event: ReviewEvent) -> (res: (ReviewState, ReviewAction))
    requires
        awaits(state, event),
    ensures
        review_transition(state, event, res.0, res.1),
        steps_left(res.0) < steps_left(state),
{
    match state {
        ReviewState::SingleRound => {
            let r = match event {
                ReviewEvent::Reply(r) => r,
                ReviewEvent::SourcesRead(_) => None,
            };
            (ReviewState::Done, ReviewAction::Finish(r))
        },
        ReviewState::Chunks { chunks, next, reviews, paths, budget } => {
            let n_chunks = chunks.len();
            assert(next < n_chunks);
            let r = match event {
                ReviewEvent::Reply(r) => r,
                ReviewEvent::SourcesRead(_) => None,
            };
            let rec = match r {
                Some(t) => t,
                None => chunk_failure(next + 1),
            };
            let mut reviews = reviews;
            let ghost before = reviews@;
            reviews.push(rec);
            proof {
                assert(views(reviews@) =~= views(before).push(rec@));
            }
            if next + 1 < n_chunks {
                let call = chunk_call(chunks[next + 1].as_str());
                (ReviewState::Chunks { chunks, next: next + 1, reviews, paths, budget }, ReviewAction::Call(call))
            } else {
                after_chunk_reviews(reviews, paths, budget)
            }
        },
        ReviewState::Sources { reviews, valid, budget } => {
            let files = match event {
                ReviewEvent::SourcesRead(f) => f,
                ReviewEvent::Reply(_) => Vec::new(),
            };
            if files.len() == 0 {
                let call = summarize_call(&valid);
                (ReviewState::Summarizing { reviews, valid }, ReviewAction::Call(call))
            } else {
                let call = verify_call(&valid, &files, budget);
                (ReviewState::Verifying { reviews, valid }, ReviewAction::Call(call))
            }
        },
        ReviewState::Verifying { reviews, valid } => {
            match event {
                ReviewEvent::Reply(Some(t)) => (ReviewState::Done, ReviewAction::Finish(Some(t))),
                _ => {
                    let call = summarize_call(&valid);
                    (ReviewState::Summarizing { reviews, valid }, ReviewAction::Call(call))
                },
            }
        },
        ReviewState::Summarizing { reviews, valid } => {
            match event {
                ReviewEvent::Reply(Some(t)) => (ReviewState::Done, ReviewAction::Finish(Some(t))),
                _ => {
                    let report = raw_chunk_report(&reviews);
                    (ReviewState::Done, ReviewAction::Finish(Some(report)))
                },
            }
        },
        ReviewState::Done => (ReviewState::Done, ReviewAction::Finish(None)),
    }
}

/// What the review records for the chunk replies: each reply's text, or for
/// a failed call the failure note of its chunk (counted from 1).
pub open spec fn recorded_reviews(replies: Seq<Option<String>>) -> Seq<Seq<char>> {
    Seq::new(
        replies.len(),
        |i: int|
            match replies[i] {
                Some(t) => t@,
                None => chunk_failure_text((i + 1) as nat),
            },
    )
}

/// Law of the chunk rounds of a multi-file review. Follow the review from
/// `start_review` through `review_step` as the chunk replies come in: the
/// chunks are reviewed once each, in order, each with the chunk prompt (2048
/// tokens, temperature 0.1), and before anything else; each reply, or the
/// failure note of its chunk, is recorded in order; and after the last chunk
/// the review either ends with the raw output (no valid finding) or asks for
/// the modified files to verify the valid findings.
pub proof fn law_review_chunk_rounds(
    diff: Seq<char>,
    budget: usize,
    states: Seq<ReviewState>,
    actions: Seq<ReviewAction>,
    replies: Seq<Option<String>>,
)
    requires
        trim(diff).len() > 0,
        !is_single_file(diff),
        review_chunks(diff).len() > 0,
        replies.len() <= review_chunks(diff).len(),
        states.len() == replies.len() + 1,
        actions.len() == states.len(),
        review_start(diff, budget, states[0], actions[0]),
        forall|i: int|
            0 <= i < replies.len() ==> review_transition(
                #[trigger] states[i],
                ReviewEvent::Reply(replies[i]),
                states[i + 1],
                actions[i + 1],
            ),
    ensures
        forall|i: int|
            0 <= i < states.len() && i < review_chunks(diff).len() ==> {
                &&& is_chunks_state(
                    #[trigger] states[i],
                    review_chunks(diff),
                    i,
                    recorded_reviews(replies.take(i)),
                    header_names(lines(diff)),
                    budget,
                )
                &&& calls_chunk(actions[i], review_chunks(diff), i)
            },
        replies.len() == review_chunks(diff).len() ==> after_chunks(
            states.last(),
            actions.last(),
            recorded_reviews(replies),
            header_names(lines(diff)),
            budget,
        ),
    decreases replies.len(),
{
    let cs = review_chunks(diff);
    let paths = header_names(lines(diff));
    if replies.len() == 0 {
        assert(recorded_reviews(replies.take(0)) =~= Seq::<Seq<char>>::empty());
    } else {
        let k = replies.len() - 1;
        let st0 = states.drop_last();
        let ac0 = actions.drop_last();
        let rp0 = replies.drop_last();
        assert forall|i: int| 0 <= i < rp0.len() implies review_transition(
            #[trigger] st0[i],
            ReviewEvent::Reply(rp0[i]),
            st0[i + 1],
            ac0[i + 1],
        ) by {
            assert(st0[i] == states[i]);
            assert(st0[i + 1] == states[i + 1]);
            assert(ac0[i + 1] == actions[i + 1]);
            assert(rp0[i] == replies[i]);
        }
        assert(st0[0] == states[0]);
        assert(ac0[0] == actions[0]);
        law_review_chunk_rounds(diff, budget, st0, ac0, rp0);
        assert(st0[k] == states[k]);
        assert(ac0[k] == actions[k]);
        assert(rp0.take(k) =~= replies.take(k));
        let prev = recorded_reviews(replies.take(k));
        assert(is_chunks_state(states[k], cs, k, prev, paths, budget));
        assert(review_transition(states[k], ReviewEvent::Reply(replies[k]), states[k + 1], actions[k + 1]));
        let rec = match replies[k] {
            Some(t) => t@,
            None => chunk_failure_text((k + 1) as nat),
        };
        assert(recorded_reviews(replies.take(k + 1)) =~= prev.push(rec));
        assert(replies.take(k + 1) =~= replies);
        assert forall|i: int| 0 <= i < states.len() && i < cs.len() implies {
            &&& is_chunks_state(#[trigger] states[i], cs, i, recorded_reviews(replies.take(i)), paths, budget)
            &&& calls_chunk(actions[i], cs, i)
        } by {
            if i < states.len() - 1 {
                assert(st0[i] == states[i]);
                assert(ac0[i] == actions[i]);
                assert(rp0.take(i) =~= replies.take(i));
            }
        }
    }
}

/// The report that ends a multi-file review once its valid findings are
/// known: the verification reply when source files were read and it came
/// back; otherwise the summary reply when it came back; otherwise the raw
/// chunk output.
pub open spec fn fallback_report(
    reviews: Seq<Seq<char>>,
    files_read: bool,
    verification: Option<Seq<char>>,
    summary: Option<Seq<char>>,
) -> Seq<char> {
    if files_read && verification is Some {
        verification->0
    } else if summary is Some {
        summary->0
    } else {
        raw_report(reviews)
    }
}

/// Law of the rounds after the chunks. From the state that holds the chunk
/// reviews and their valid findings and waits for the modified files: reading
/// files leads to a verification call with them, none to the summary call; a
/// verification reply ends the review; otherwise the summary is asked for,
/// and its reply ends the review, or the raw chunk output does. The review
/// ends with `fallback_report`.
pub proof fn law_review_fallback(
    s0: ReviewState,
    files: Vec<(String, String)>,
    s1: ReviewState,
    a1: ReviewAction,
    r1: Option<String>,
    s2: ReviewState,
    a2: ReviewAction,
    r2: Option<String>,
    s3: ReviewState,
    a3: ReviewAction,
)
    requires
        s0 matches ReviewState::Sources { .. },
        review_transition(s0, ReviewEvent::SourcesRead(files), s1, a1),
        review_transition(s1, ReviewEvent::Reply(r1), s2, a2),
        !(s2 is Done) ==> review_transition(s2, ReviewEvent::Reply(r2), s3, a3),
    ensures
        ({
            match s0 {
                ReviewState::Sources { reviews, valid, budget } => {
                    let files_read = files@.len() > 0;
                    let verification = if files_read { opt_view(r1) } else { None };
                    let summary = if files_read { opt_view(r2) } else { opt_view(r1) };
                    let report = fallback_report(views(reviews@), files_read, verification, summary);
                    &&& files_read ==> (a1 matches ReviewAction::Call(c) && is_call(c, VERIFY_SYSTEM_PROMPT@,
                        verify_user(views(valid@), file_views(files@), budget as nat), 4096, 10))
                    &&& !files_read ==> calls_summary(a1, views(valid@))
                    &&& (files_read && r1 is None) ==> calls_summary(a2, views(valid@))
                    &&& if files_read && r1 is Some || !files_read {
                        finishes(s2, a2, Some(report))
                    } else {
                        finishes(s3, a3, Some(report))
                    }
                },
                _ => false,
            }
        }),
{
}

/// Law of the summary request: its user message is the summary template
/// followed by every valid chunk review, in order, each at its place after the
/// earlier ones and their `"\n\n---\n\n"` separators, and nothing else.
/// No finding is dropped, reordered or cut.
pub proof fn law_summary_request_carries_every_finding(valid: Seq<Seq<char>>)
    ensures
        ({
            let u = summarize_user(valid);
            let t = SUMMARIZE_USER_TEMPLATE@;
            let sep = "\n\n---\n\n"@;
            &&& u.take(t.len() as int) == t
            &&& forall|i: int| 0 <= i < valid.len() ==> u.subrange(
                t.len() + crate::text::join_offset(valid, sep.len(), i),
                t.len() + crate::text::join_offset(valid, sep.len(), i) + valid[i].len(),
            ) == #[trigger] valid[i]
            &&& forall|i: int| 0 <= i < valid.len() - 1 ==> u.subrange(
                t.len() + crate::text::join_offset(valid, sep.len(), i) + (#[trigger] valid[i]).len(),
                t.len() + crate::text::join_offset(valid, sep.len(), i + 1),
            ) == sep
            &&& u.len() == t.len() + if valid.len() == 0 {
                0
            } else {
                crate::text::join_offset(valid, sep.len(), valid.len() - 1) + valid[valid.len() - 1].len()
            }
        }),
{
    let t = SUMMARIZE_USER_TEMPLATE@;
    let sep = "\n\n---\n\n"@;
    let j = join(valid, sep);
    let u = summarize_user(valid);
    assert(u == t + j);
    crate::text::lemma_join_layout(valid, sep);
    assert(u.take(t.len() as int) =~= t);
    assert forall|i: int| 0 <= i < valid.len() implies u.subrange(
        t.len() + crate::text::join_offset(valid, sep.len(), i),
        t.len() + crate::text::join_offset(valid, sep.len(), i) + valid[i].len(),
    ) == #[trigger] valid[i] by {
        let o = crate::text::join_offset(valid, sep.len(), i);
        crate::text::lemma_join_part_at(valid, sep, i);
        assert(u.subrange(t.len() + o, t.len() + o + valid[i].len()) =~= j.subrange(o, o + valid[i].len()));
    }
    assert forall|i: int| 0 <= i < valid.len() - 1 implies u.subrange(
        t.len() + crate::text::join_offset(valid, sep.len(), i) + (#[trigger] valid[i]).len(),
        t.len() + crate::text::join_offset(valid, sep.len(), i + 1),
    ) == sep by {
        let a = crate::text::join_offset(valid, sep.len(), i) + valid[i].len();
        let b = crate::text::join_offset(valid, sep.len(), i + 1);
        crate::text::lemma_join_part_at(valid, sep, i);
        crate::text::lemma_join_part_at(valid, sep, i + 1);
        crate::text::lemma_join_sep_at(valid, sep, i);
        assert(u.subrange(t.len() + a, t.len() + b) =~= j.subrange(a, b));
    }
}

/// Law of the review requests around the diff: the single-round request is
/// its template, the whole diff, and the closing fence; a chunk request opens
/// with the bullet instructions, holds the whole chunk inside a ```` ```diff ````
/// block, and ends with the closing fence.
pub proof fn law_diff_requests_hold_the_diff(diff: Seq<char>, chunk: Seq<char>)
    ensures
        ({
            let u = single_round_user(diff);
            let t = SINGLE_ROUND_USER_TEMPLATE@;
            &&& u.take(t.len() as int) == t
            &&& u.subrange(t.len() as int, (t.len() + diff.len()) as int) == diff
            &&& u.skip((t.len() + diff.len()) as int) == "\n```"@
        }),
        ({
            let p = chunk_prompt(chunk);
            let open = "```diff\n"@;
            &&& starts_with(p, "Review this diff chunk. List findings only as bullets:\n"@)
            &&& crate::text::ends_with(p, "\n```"@)
            &&& p.subrange(p.len() - 4 - chunk.len(), p.len() - 4) == chunk
            &&& crate::text::ends_with(p.take(p.len() - 4 - chunk.len()), open)
        }),
{
    reveal_strlit("\n```");
    reveal_strlit("```diff\n");
    reveal_strlit("Review this diff chunk. List findings only as bullets:\n");
    reveal_strlit("Review this diff chunk. List findings only as bullets:\n- CODE: `file:line` \u{2014} <issue> [Critical|High|Medium|Low]\n- SEC: `file:line` \u{2014} <issue> [Critical|High|Medium|Low]\nNo headings, no prose, bullets only.\n\n```diff\n");
    let t = SINGLE_ROUND_USER_TEMPLATE@;
    let u = single_round_user(diff);
    assert(u.take(t.len() as int) =~= t);
    assert(u.subrange(t.len() as int, (t.len() + diff.len()) as int) =~= diff);
    assert(u.skip((t.len() + diff.len()) as int) =~= "\n```"@);
    let h = chunk_prompt_head();
    let p = chunk_prompt(chunk);
    let start = "Review this diff chunk. List findings only as bullets:\n"@;
    assert(p.take(start.len() as int) =~= h.take(start.len() as int));
    assert(h.take(start.len() as int) =~= start);
    assert(p.skip(p.len() - 4) =~= "\n```"@);
    assert(p.subrange(p.len() - 4 - chunk.len(), p.len() - 4) =~= chunk);
    let q = p.take(p.len() - 4 - chunk.len());
    assert(q =~= h);
    assert(h.skip(h.len() - 8) =~= "```diff\n"@);
}

/// Law of the verification request: the verification template, then every
/// valid chunk review, in order, each at its place after the earlier ones and
/// their separators, then the source context built under the budget.
pub proof fn law_verify_request_carries_findings_and_sources(
    valid: Seq<Seq<char>>,
    sources: Seq<(Seq<char>, Seq<char>)>,
    budget: nat,
)
    ensures
        ({
            let u = verify_user(valid, sources, budget);
            let t = VERIFY_USER_TEMPLATE@;
            let sep = "\n\n---\n\n"@;
            let ctx = context_with_budget(sources, budget as int);
            let end = t.len() + if valid.len() == 0 {
                0
            } else {
                crate::text::join_offset(valid, sep.len(), valid.len() - 1) + valid[valid.len() - 1].len()
            };
            &&& u.take(t.len() as int) == t
            &&& forall|i: int| 0 <= i < valid.len() ==> u.subrange(
                t.len() + crate::text::join_offset(valid, sep.len(), i),
                t.len() + crate::text::join_offset(valid, sep.len(), i) + valid[i].len(),
            ) == #[trigger] valid[i]
            &&& forall|i: int| 0 <= i < valid.len() - 1 ==> u.subrange(
                t.len() + crate::text::join_offset(valid, sep.len(), i) + (#[trigger] valid[i]).len(),
                t.len() + crate::text::join_offset(valid, sep.len(), i + 1),
            ) == sep
            &&& u.len() == end + ctx.len()
            &&& u.skip(end) == ctx
        }),
{
    let t = VERIFY_USER_TEMPLATE@;
    let sep = "\n\n---\n\n"@;
    let j = join(valid, sep);
    let ctx = context_with_budget(sources, budget as int);
    let u = verify_user(valid, sources, budget);
    assert(u == t + j + ctx);
    crate::text::lemma_join_layout(valid, sep);
    assert(u.take(t.len() as int) =~= t);
    assert(u.skip((t.len() + j.len()) as int) =~= ctx);
    assert forall|i: int| 0 <= i < valid.len() implies u.subrange(
        t.len() + crate::text::join_offset(valid, sep.len(), i),
        t.len() + crate::text::join_offset(valid, sep.len(), i) + valid[i].len(),
    ) == #[trigger] valid[i] by {
        let o = crate::text::join_offset(valid, sep.len(), i);
        crate::text::lemma_join_part_at(valid, sep, i);
        assert(u.subrange(t.len() + o, t.len() + o + valid[i].len()) =~= j.subrange(o, o + valid[i].len()));
    }
    assert forall|i: int| 0 <= i < valid.len() - 1 implies u.subrange(
        t.len() + crate::text::join_offset(valid, sep.len(), i) + (#[trigger] valid[i]).len(),
        t.len() + crate::text::join_offset(valid, sep.len(), i + 1),
    ) == sep by {
        let a = crate::text::join_offset(valid, sep.len(), i) + valid[i].len();
        let b = crate::text::join_offset(valid, sep.len(), i + 1);
        crate::text::lemma_join_part_at(valid, sep, i);
        crate::text::lemma_join_part_at(valid, sep, i + 1);
        crate::text::lemma_join_sep_at(valid, sep, i);
        assert(u.subrange(t.len() + a, t.len() + b) =~= j.subrange(a, b));
    }
}

/// Law of the raw fallback report: the warning line, a blank line, then every
/// chunk review (failure notes included), in order, each at its place after
/// the earlier ones and their separators, and nothing else.
pub proof fn law_raw_report_keeps_every_review(reviews: Seq<Seq<char>>)
    ensures
        ({
            let r = raw_report(reviews);
            let w = "> \u{26a0}\u{fe0f} Verification and summarization failed \u{2014} raw chunk output below.\n\n"@;
            let sep = "\n\n---\n\n"@;
            &&& r.take(w.len() as int) == w
            &&& forall|i: int| 0 <= i < reviews.len() ==> r.subrange(
                w.len() + crate::text::join_offset(reviews, sep.len(), i),
                w.len() + crate::text::join_offset(reviews, sep.len(), i) + reviews[i].len(),
            ) == #[trigger] reviews[i]
            &&& r.len() == w.len() + if reviews.len() == 0 {
                0
            } else {
                crate::text::join_offset(reviews, sep.len(), reviews.len() - 1) + reviews[reviews.len() - 1].len()
            }
        }),
{
    let w = "> \u{26a0}\u{fe0f} Verification and summarization failed \u{2014} raw chunk output below.\n\n"@;
    let sep = "\n\n---\n\n"@;
    let j = join(reviews, sep);
    let r = raw_report(reviews);
    assert(r == w + j);
    crate::text::lemma_join_layout(reviews, sep);
    assert(r.take(w.len() as int) =~= w);
    assert forall|i: int| 0 <= i < reviews.len() implies r.subrange(
        w.len() + crate::text::join_offset(reviews, sep.len(), i),
        w.len() + crate::text::join_offset(reviews, sep.len(), i) + reviews[i].len(),
    ) == #[trigger] reviews[i] by {
        let o = crate::text::join_offset(reviews, sep.len(), i);
        crate::text::lemma_join_part_at(reviews, sep, i);
        assert(r.subrange(w.len() + o, w.len() + o + reviews[i].len()) =~= j.subrange(o, o + reviews[i].len()));
    }
}

/// Laws of which chunk reviews count as findings. The note recorded for a
/// failed chunk call is never kept; a review that does not open with
/// `Chunk ` is always kept; a kept review is never a failure note; and
/// filtering two runs of reviews keeps those of the first, then those of the
/// second, each in order.
pub proof fn law_valid_reviews(i: nat, r: Seq<char>, a: Seq<Seq<char>>, b: Seq<Seq<char>>)
    ensures
        valid_reviews(seq![chunk_failure_text(i)]) == Seq::<Seq<char>>::empty(),
        !starts_with(r, "Chunk "@) ==> valid_reviews(seq![r]) == seq![r],
        forall|k: int| 0 <= k < a.len() && !starts_with(#[trigger] a[k], "Chunk "@) ==> valid_reviews(a).contains(a[k]),
        forall|k: int|
            0 <= k < valid_reviews(a).len() ==> !(starts_with(#[trigger] valid_reviews(a)[k], "Chunk "@)
                && contains(valid_reviews(a)[k], ": error during analysis"@)),
        valid_reviews(a + b) == valid_reviews(a) + valid_reviews(b),
{
    reveal_strlit("Chunk ");
    reveal_strlit(": error during analysis");
    let f = chunk_failure_text(i);
    let d = decimal(i);
    assert(f.take(6) =~= "Chunk "@);
    let off: int = 6 + d.len() as int;
    assert(f.subrange(off, off + 23) =~= ": error during analysis"@);
    assert(crate::text::occurs_at(f, ": error during analysis"@, off));
    assert(!is_valid_review(f));
    let pred = |x: Seq<char>| is_valid_review(x);
    reveal(Seq::filter);
    let one = seq![f];
    assert(one.drop_last() =~= Seq::<Seq<char>>::empty());
    assert(one.filter(pred) =~= Seq::<Seq<char>>::empty().filter(pred));
    assert(Seq::<Seq<char>>::empty().filter(pred) =~= Seq::<Seq<char>>::empty());
    let two = seq![r];
    assert(two.drop_last() =~= Seq::<Seq<char>>::empty());
    if !starts_with(r, "Chunk "@) {
        assert(is_valid_review(r));
        assert(two.filter(pred) =~= Seq::<Seq<char>>::empty().filter(pred).push(r));
    }
    assert forall|k: int| 0 <= k < a.len() && !starts_with(#[trigger] a[k], "Chunk "@) implies valid_reviews(a).contains(a[k]) by {
        assert(pred(a[k]));
        a.lemma_filter_contains(pred, k);
    }
    assert forall|k: int| 0 <= k < valid_reviews(a).len() implies !(starts_with(#[trigger] valid_reviews(a)[k], "Chunk "@)
        && contains(valid_reviews(a)[k], ": error during analysis"@)) by {
        a.lemma_filter_pred(pred, k);
    }
    Seq::filter_distributes_over_add(a, b, pred);
}

} // verus!
