use review_toolkit::github::{
    assemble_pr_diff, comment_body, github_config_from_values, repository_parts, should_skip_file,
    ChangedFile, GithubConfigError, MAX_COMMENT_CHARS,
};

#[test]
fn skip_file_skips_bun_lockb() {
    assert!(should_skip_file("bun.lockb"));
    assert!(should_skip_file("packages/app/bun.lockb"));
}

#[test]
fn skip_file_skips_npm_shrinkwrap() {
    assert!(should_skip_file("npm-shrinkwrap.json"));
    assert!(should_skip_file("packages/app/npm-shrinkwrap.json"));
}

#[test]
fn skip_file_filters_lock_dotfiles_and_markdown() {
    // Lock files
    assert!(should_skip_file("Cargo.lock"));
    assert!(should_skip_file("package-lock.json"));
    assert!(should_skip_file("yarn.lock"));
    // Dotfiles and dot-directories
    assert!(should_skip_file(".gitignore"));
    assert!(should_skip_file(".github/workflows/ci.yml"));
    // Markdown
    assert!(should_skip_file("README.md"));
    assert!(should_skip_file("docs/guide.mdx"));
    // Source files should pass through
    assert!(!should_skip_file("src/main.rs"));
    assert!(!should_skip_file("frontend/src/components/ui/button.tsx"));
    assert!(!should_skip_file("Cargo.toml"));
}

#[test]
fn skip_file_matches_basename_only_for_exact_names() {
    assert!(should_skip_file("deploy/lock.yaml"));
    assert!(!should_skip_file("deploy/mylock.yaml"));
    assert!(!should_skip_file("src/Cargo.lock.rs"));
    assert!(should_skip_file("a/b/.env"));
    assert!(!should_skip_file("a.b/c.rs"));
}

#[test]
fn config_from_values_reads_all() {
    let cfg = github_config_from_values(
        Some("owner/repo".to_string()),
        Some("42".to_string()),
        Some("ghp_test".to_string()),
    )
    .expect("values are set");
    assert_eq!(cfg.repository, "owner/repo");
    assert_eq!(cfg.pr_number, 42u64);
    assert_eq!(cfg.token, "ghp_test");
}

#[test]
fn config_from_values_reports_first_missing() {
    let err = github_config_from_values(None, None, None).err().unwrap();
    assert_eq!(err, GithubConfigError::MissingRepository);
    assert!(err.message().contains("GITHUB_REPOSITORY"));
    let err = github_config_from_values(Some("o/r".into()), None, None).err().unwrap();
    assert_eq!(err.message(), "PULL_REQUEST_NUMBER must be set");
    let err = github_config_from_values(Some("o/r".into()), Some("4x".into()), None).err().unwrap();
    assert_eq!(err.message(), "PULL_REQUEST_NUMBER must be a number");
    let err = github_config_from_values(Some("o/r".into()), Some("+7".into()), None).err().unwrap();
    assert_eq!(err.message(), "GITHUB_TOKEN must be set");
}

#[test]
fn pr_number_overflow_is_rejected() {
    let err = github_config_from_values(
        Some("o/r".into()),
        Some("18446744073709551616".into()),
        Some("t".into()),
    )
    .err()
    .unwrap();
    assert_eq!(err, GithubConfigError::InvalidPrNumber);
    let ok = github_config_from_values(
        Some("o/r".into()),
        Some("18446744073709551615".into()),
        Some("t".into()),
    )
    .ok()
    .unwrap();
    assert_eq!(ok.pr_number, u64::MAX);
}

#[test]
fn repository_parts_split_at_first_slash() {
    assert_eq!(repository_parts("owner/repo/extra").unwrap(), ("owner".to_string(), "repo/extra".to_string()));
    assert_eq!(repository_parts("noslash").unwrap_err(), "Invalid repository format: noslash");
}

#[test]
fn assembled_diff_skips_and_headers() {
    let files = vec![
        ChangedFile { filename: "src/a.rs".into(), patch: Some("+ a".into()) },
        ChangedFile { filename: "Cargo.lock".into(), patch: Some("+ lock".into()) },
        ChangedFile { filename: "bin.dat".into(), patch: None },
        ChangedFile { filename: "src/b.rs".into(), patch: Some("- b".into()) },
    ];
    assert_eq!(assemble_pr_diff(&files), "\n\n# File: src/a.rs\n+ a\n\n# File: src/b.rs\n- b");
}

#[test]
fn comment_body_keeps_short_reports() {
    let report = "## Review\nAll good.";
    assert_eq!(comment_body(report), report);
}

#[test]
fn comment_body_cuts_at_sixty_thousand_characters() {
    let report: String = "é".repeat(60_005);
    let body = comment_body(&report);
    assert_eq!(body.chars().count(), MAX_COMMENT_CHARS);
    assert_eq!(MAX_COMMENT_CHARS, 60_000);
    assert!(report.starts_with(&body));
}

#[test]
fn diff_headers_read_back_as_reviewed_files() {
    let files = vec![
        ChangedFile { filename: "src/a.rs".into(), patch: Some("@@ -1 +1 @@\n-a\n+b".into()) },
        ChangedFile { filename: "Cargo.lock".into(), patch: Some("+lock".into()) },
        ChangedFile { filename: "src/no_patch.bin".into(), patch: None },
        ChangedFile { filename: "lib/b.py".into(), patch: Some("+x = 1\r\n".into()) },
    ];
    let diff = assemble_pr_diff(&files);
    assert_eq!(
        review_toolkit::source::extract_modified_files(&diff),
        vec!["src/a.rs".to_string(), "lib/b.py".to_string()]
    );
}

#[test]
fn assembled_diff_announces_one_file_per_reviewed_file() {
    let mut files = vec![ChangedFile { filename: "src/a.rs".into(), patch: Some("+a".into()) }];
    assert_eq!(review_toolkit::diff::count_file_markers(&assemble_pr_diff(&files)), 1);
    files.push(ChangedFile { filename: "README.md".into(), patch: Some("+docs".into()) });
    assert_eq!(review_toolkit::diff::count_file_markers(&assemble_pr_diff(&files)), 1);
    files.push(ChangedFile { filename: "src/b.rs".into(), patch: Some("\n+b\n".into()) });
    files.push(ChangedFile { filename: "src/c.rs".into(), patch: None });
    assert_eq!(review_toolkit::diff::count_file_markers(&assemble_pr_diff(&files)), 2);
}

#[test]
fn split_of_assembled_diff_gives_each_reviewed_file() {
    let files = vec![
        ChangedFile { filename: "src/a.rs".into(), patch: Some("@@ -1 +1 @@\n-a\n+b".into()) },
        ChangedFile { filename: ".github/ci.yml".into(), patch: Some("+on: push".into()) },
        ChangedFile { filename: "src/b.rs".into(), patch: Some("+fn b() {}\n".into()) },
    ];
    let diff = assemble_pr_diff(&files);
    assert_eq!(
        review_toolkit::diff::split_diff_by_file(&diff),
        vec![
            ("src/a.rs".to_string(), "\n@@ -1 +1 @@\n-a\n+b\n\n".to_string()),
            ("src/b.rs".to_string(), "\n+fn b() {}\n".to_string()),
        ]
    );
}
