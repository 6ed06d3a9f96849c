use review_toolkit::source::{build_context_with_budget, extract_modified_files, is_safe_path, truncate_source};

#[test]
fn extract_files_from_diff() {
    let diff = "some header\n# File: src/main.rs\n+ code\n# File: src/lib.rs\n+ more";
    let files = extract_modified_files(diff);
    assert_eq!(files, vec!["src/main.rs", "src/lib.rs"]);
}

#[test]
fn extract_files_empty_diff() {
    assert!(extract_modified_files("").is_empty());
    assert!(extract_modified_files("no file headers here").is_empty());
}

#[test]
fn budget_excludes_large_files() {
    let files = vec![
        ("small.rs".to_string(), "x".repeat(100)),
        ("big.rs".to_string(), "y".repeat(10_000)),
    ];
    // Budget that fits header + small.rs but not big.rs
    let output = build_context_with_budget(&files, 500);
    assert!(output.contains("small.rs"));
    assert!(output.contains("excluded"));
    assert!(output.contains("big.rs"));
}

#[test]
fn safe_path_rejects_traversal() {
    assert!(!is_safe_path("../etc/passwd"));
    assert!(!is_safe_path("/etc/shadow"));
    assert!(!is_safe_path("foo/../../bar"));
    assert!(!is_safe_path("\\windows\\system32"));
}

#[test]
fn safe_path_accepts_relative() {
    assert!(is_safe_path("src/main.rs"));
    assert!(is_safe_path("crates/cli/src/lib.rs"));
    assert!(is_safe_path("Cargo.toml"));
}

#[test]
fn budget_includes_all_when_sufficient() {
    let files = vec![
        ("a.rs".to_string(), "code a".to_string()),
        ("b.rs".to_string(), "code b".to_string()),
    ];
    let output = build_context_with_budget(&files, 100_000);
    assert!(output.contains("a.rs"));
    assert!(output.contains("b.rs"));
    assert!(!output.contains("excluded"));
}

#[test]
fn budget_context_exact_layout() {
    let files = vec![
        ("long.rs".to_string(), "abcdef".to_string()),
        ("short.rs".to_string(), "ab".to_string()),
        ("mid.rs".to_string(), "abcd".to_string()),
    ];
    let header = "\n\n[SOURCE FILES — for verification context, do NOT review unchanged code]\n";
    let e_short = "\n## file: short.rs\n```\nab\n```\n";
    let e_mid = "\n## file: mid.rs\n```\nabcd\n```\n";
    let budget = header.len() + e_short.len() + e_mid.len();
    let out = build_context_with_budget(&files, budget);
    assert_eq!(
        out,
        format!("{header}{e_short}{e_mid}\n[Context budget reached — 1 file(s) excluded: long.rs]\n")
    );
}

#[test]
fn budget_always_includes_smallest_file() {
    let files = vec![("only.rs".to_string(), "z".repeat(50))];
    let out = build_context_with_budget(&files, 0);
    assert!(out.contains("## file: only.rs"));
    assert!(!out.contains("excluded"));
}

#[test]
fn budget_with_no_files_is_empty() {
    let files: Vec<(String, String)> = vec![];
    assert_eq!(build_context_with_budget(&files, 10), "");
}

#[test]
fn equal_lengths_keep_input_order() {
    let files = vec![
        ("b.rs".to_string(), "xx".to_string()),
        ("a.rs".to_string(), "yy".to_string()),
    ];
    let out = build_context_with_budget(&files, 100_000);
    assert!(out.find("b.rs").unwrap() < out.find("a.rs").unwrap());
}

#[test]
fn long_source_is_truncated() {
    let content = (0..1005).map(|i| format!("l{i}")).collect::<Vec<_>>().join("\n");
    let out = truncate_source(&content);
    let kept = (0..1000).map(|i| format!("l{i}")).collect::<Vec<_>>().join("\n");
    assert_eq!(out, format!("{kept}\n\n[... truncated at 1000 lines, 1005 total ...]"));
}

#[test]
fn short_source_is_kept() {
    assert_eq!(truncate_source("a\nb\n"), "a\nb\n");
}

#[test]
fn budget_accounts_for_every_file() {
    let files = vec![
        ("c.rs".to_string(), "c".repeat(300)),
        ("a.rs".to_string(), "a".repeat(10)),
        ("d.rs".to_string(), "d".repeat(400)),
        ("b.rs".to_string(), "b".repeat(20)),
    ];
    let budget = 250;
    let out = build_context_with_budget(&files, budget);
    let note_at = out.find("\n[Context budget reached").unwrap();
    let body = &out[..note_at];
    assert!(body.len() <= budget);
    assert!(body.contains("## file: a.rs") && body.contains("## file: b.rs"));
    assert!(out[note_at..].contains("2 file(s) excluded: c.rs, d.rs"));
}
