use review_toolkit::review::{
    chunk_user_prompt, SINGLE_ROUND_SYSTEM_PROMPT, SINGLE_ROUND_USER_TEMPLATE,
    SUMMARIZE_SYSTEM_PROMPT, SUMMARIZE_USER_TEMPLATE, VERIFY_SYSTEM_PROMPT, VERIFY_USER_TEMPLATE,
};

#[test]
fn summarize_system_prompt_is_role_focused() {
    assert!(
        SUMMARIZE_SYSTEM_PROMPT.contains("senior software engineer"),
        "system prompt must establish engineer role"
    );
    assert!(
        SUMMARIZE_SYSTEM_PROMPT.contains("pull request code review"),
        "system prompt must state the task"
    );
    assert!(
        SUMMARIZE_SYSTEM_PROMPT.contains("actionable feedback"),
        "system prompt must encourage detailed feedback"
    );
    assert!(
        !SUMMARIZE_SYSTEM_PROMPT.contains("## Code Quality Issues"),
        "format instructions must be in the user message, not system prompt"
    );
}

#[test]
fn chunk_prompt_contains_bullet_instructions() {
    // The per-chunk prompt must ask for CODE: and SEC: bullets, not Markdown sections.
    let chunk = "- old line\n+ new line\n";
    let prompt = chunk_user_prompt(chunk);
    assert!(prompt.contains("CODE:"));
    assert!(prompt.contains("SEC:"));
    assert!(!prompt.contains("Issues, Improvements, Positives"));
}

#[test]
fn single_round_prompt_contains_both_sections() {
    assert!(SINGLE_ROUND_USER_TEMPLATE.contains("Code Quality Issues"));
    assert!(SINGLE_ROUND_USER_TEMPLATE.contains("Security Issues"));
    assert!(SINGLE_ROUND_USER_TEMPLATE.contains("Severity"));
    assert!(SINGLE_ROUND_USER_TEMPLATE.contains("Risk Level"));
    assert!(SINGLE_ROUND_USER_TEMPLATE.contains("Sort table rows: Critical first"));
}

#[test]
fn single_round_template_contains_detail_sections() {
    assert!(
        SINGLE_ROUND_USER_TEMPLATE.contains("Summary"),
        "template must include a Summary section"
    );
    assert!(
        SINGLE_ROUND_USER_TEMPLATE.contains("Why it matters:"),
        "template must ask for impact explanation"
    );
    assert!(
        SINGLE_ROUND_USER_TEMPLATE.contains("Suggestion:"),
        "template must ask for actionable suggestions"
    );
    assert!(
        SINGLE_ROUND_USER_TEMPLATE.contains("What Looks Good"),
        "template must include positive highlights section"
    );
}

#[test]
fn single_round_template_contains_yaml_frontmatter() {
    assert!(
        SINGLE_ROUND_USER_TEMPLATE.contains("findings_total:"),
        "template must include YAML findings_total key"
    );
    assert!(
        SINGLE_ROUND_USER_TEMPLATE.contains("risk_score:"),
        "template must include YAML risk_score key"
    );
    assert!(
        SINGLE_ROUND_USER_TEMPLATE.contains("top_files:"),
        "template must include YAML top_files key"
    );
}

#[test]
fn single_round_template_contains_emoji_severity_badges() {
    assert!(
        SINGLE_ROUND_USER_TEMPLATE.contains("🔴 Critical"),
        "template must include red circle for Critical"
    );
    assert!(
        SINGLE_ROUND_USER_TEMPLATE.contains("🟠 High"),
        "template must include orange circle for High"
    );
    assert!(
        SINGLE_ROUND_USER_TEMPLATE.contains("🟡 Medium"),
        "template must include yellow circle for Medium"
    );
    assert!(
        SINGLE_ROUND_USER_TEMPLATE.contains("🟢 Low"),
        "template must include green circle for Low"
    );
}

#[test]
fn single_round_template_contains_pipe_table_syntax() {
    assert!(
        SINGLE_ROUND_USER_TEMPLATE.contains("| # | Location |"),
        "template must include pipe-syntax table header"
    );
    assert!(
        SINGLE_ROUND_USER_TEMPLATE.contains("|---|"),
        "template must include pipe-syntax table separator"
    );
}

#[test]
fn system_prompts_are_role_focused_not_format_heavy() {
    for prompt in &[SINGLE_ROUND_SYSTEM_PROMPT, SUMMARIZE_SYSTEM_PROMPT] {
        assert!(
            prompt.contains("senior software engineer"),
            "system prompt must establish senior engineer role"
        );
        assert!(
            prompt.contains("pull request code review"),
            "system prompt must state the task"
        );
        assert!(
            prompt.contains("actionable feedback"),
            "system prompt must encourage detailed feedback"
        );
        assert!(
            !prompt.contains("markdown table"),
            "format instructions belong in user prompts, not system prompts"
        );
    }
}

#[test]
fn summarize_template_contains_yaml_frontmatter() {
    assert!(
        SUMMARIZE_USER_TEMPLATE.contains("findings_total:"),
        "summarize template must include YAML findings_total key"
    );
    assert!(
        SUMMARIZE_USER_TEMPLATE.contains("risk_score:"),
        "summarize template must include YAML risk_score key"
    );
    assert!(
        SUMMARIZE_USER_TEMPLATE.contains("top_files:"),
        "summarize template must include YAML top_files key"
    );
}

#[test]
fn summarize_template_contains_emoji_severity_badges() {
    assert!(
        SUMMARIZE_USER_TEMPLATE.contains("🔴 Critical"),
        "summarize template must include red circle for Critical"
    );
    assert!(
        SUMMARIZE_USER_TEMPLATE.contains("🟠 High"),
        "summarize template must include orange circle for High"
    );
    assert!(
        SUMMARIZE_USER_TEMPLATE.contains("🟡 Medium"),
        "summarize template must include yellow circle for Medium"
    );
    assert!(
        SUMMARIZE_USER_TEMPLATE.contains("🟢 Low"),
        "summarize template must include green circle for Low"
    );
}

#[test]
fn summarize_template_has_deduplication_rule() {
    assert!(
        SUMMARIZE_USER_TEMPLATE.contains("Deduplicate similar findings across chunks"),
        "summarize template must instruct LLM to deduplicate"
    );
    assert!(
        SUMMARIZE_USER_TEMPLATE.contains("Findings collected from all diff chunks:"),
        "summarize template must end with the findings section header"
    );
}

#[test]
fn summarize_template_contains_detail_sections() {
    assert!(
        SUMMARIZE_USER_TEMPLATE.contains("Summary"),
        "summarize template must include a Summary section"
    );
    assert!(
        SUMMARIZE_USER_TEMPLATE.contains("Why it matters:"),
        "summarize template must ask for impact explanation"
    );
    assert!(
        SUMMARIZE_USER_TEMPLATE.contains("Suggestion:"),
        "summarize template must ask for actionable suggestions"
    );
    assert!(
        SUMMARIZE_USER_TEMPLATE.contains("What Looks Good"),
        "summarize template must include positive highlights section"
    );
    assert!(
        SUMMARIZE_USER_TEMPLATE.contains("Remediation:"),
        "summarize template must ask for security remediation"
    );
}

#[test]
fn templates_require_detail_blocks_for_every_finding() {
    assert!(
        SINGLE_ROUND_USER_TEMPLATE
            .contains("EVERY table row MUST have a matching detail block"),
        "single-round template must enforce detail blocks"
    );
    assert!(
        SUMMARIZE_USER_TEMPLATE.contains("EVERY table row MUST have a matching detail block"),
        "summarize template must enforce detail blocks"
    );
}

#[test]
fn system_prompts_contain_factual_guards() {
    for prompt in &[SINGLE_ROUND_SYSTEM_PROMPT, SUMMARIZE_SYSTEM_PROMPT] {
        assert!(
            prompt
                .contains("Only report issues you can directly verify from the provided code"),
            "system prompt must require verifiable findings"
        );
        assert!(
            prompt.contains("Do NOT speculate about behavior in code you cannot see"),
            "system prompt must forbid speculation"
        );
        assert!(
            prompt.contains(
                "Do NOT invent API features, language semantics, or framework behaviors"
            ),
            "system prompt must forbid inventing behaviors"
        );
        assert!(
            prompt.contains("reporting fewer or zero findings is better than inflating issues"),
            "system prompt must discourage inflating issues"
        );
    }
}

#[test]
fn user_templates_contain_anti_filling_rules() {
    for template in &[SINGLE_ROUND_USER_TEMPLATE, SUMMARIZE_USER_TEMPLATE] {
        assert!(
            template.contains("An empty findings table is a valid and positive outcome"),
            "template must allow empty findings"
        );
        assert!(
            template.contains("Do NOT report issues based on assumptions about external APIs"),
            "template must forbid assumption-based findings"
        );
        assert!(
            template
                .contains("Prefer fewer high-confidence findings over many speculative ones"),
            "template must prefer quality over quantity"
        );
    }
}

#[test]
fn verify_system_prompt_is_skeptical() {
    assert!(VERIFY_SYSTEM_PROMPT.contains("FILTER"));
    assert!(VERIFY_SYSTEM_PROMPT.contains("skeptical"));
    assert!(!VERIFY_SYSTEM_PROMPT.contains("thorough"));
}

#[test]
fn verify_template_has_classification() {
    assert!(VERIFY_USER_TEMPLATE.contains("CONFIRMED"));
    assert!(VERIFY_USER_TEMPLATE.contains("REJECTED"));
    assert!(VERIFY_USER_TEMPLATE.contains("DOWNGRADED"));
    assert!(VERIFY_USER_TEMPLATE.contains("[FINDINGS TO VERIFY]"));
}

#[test]
fn chunk_prompt_wraps_chunk_in_diff_block() {
    let prompt = chunk_user_prompt("+ x");
    assert!(prompt.starts_with("Review this diff chunk. List findings only as bullets:\n- CODE: `file:line` — <issue>"));
    assert!(prompt.ends_with("bullets only.\n\n```diff\n+ x\n```"));
}

#[test]
fn prompt_constants_have_exact_text() {
    assert!(SINGLE_ROUND_USER_TEMPLATE.starts_with("Review this diff and output exactly this structure:\n\n---\nfindings_total:"));
    assert!(SINGLE_ROUND_USER_TEMPLATE.contains("top_files:\n  - <up to 3 files with most findings>\n"));
    assert!(SINGLE_ROUND_USER_TEMPLATE.ends_with("Diff to review:\n```diff\n"));
    assert!(VERIFY_USER_TEMPLATE.ends_with("[FINDINGS TO VERIFY]\n\n"));
    assert!(SUMMARIZE_USER_TEMPLATE.ends_with("Findings collected from all diff chunks:\n\n"));
    assert_eq!(SINGLE_ROUND_SYSTEM_PROMPT, SUMMARIZE_SYSTEM_PROMPT);
}
