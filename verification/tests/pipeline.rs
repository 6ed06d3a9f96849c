use review_toolkit::review::{
    chunk_failure, filter_valid_reviews, raw_chunk_report, review_is_valid, review_step,
    start_review, ReviewAction, ReviewEvent, ReviewState, SINGLE_ROUND_SYSTEM_PROMPT,
    SINGLE_ROUND_USER_TEMPLATE, SUMMARIZE_USER_TEMPLATE, VERIFY_USER_TEMPLATE,
};

fn call_of(a: &ReviewAction) -> (String, String, u32, u32) {
    match a {
        ReviewAction::Call(c) => (
            c.messages[0].content.clone(),
            c.messages[1].content.clone(),
            c.max_tokens,
            c.temperature_percent,
        ),
        _ => panic!("expected a call"),
    }
}

#[test]
fn blank_diff_is_not_reviewed() {
    let (st, act) = start_review("  \n ", 1000);
    assert!(matches!(st, ReviewState::Done));
    assert!(matches!(act, ReviewAction::Finish(None)));
}

#[test]
fn single_file_diff_takes_one_call() {
    let diff = "\n\n# File: a.rs\n+ foo\n";
    let (st, act) = start_review(diff, 1000);
    assert!(matches!(st, ReviewState::SingleRound));
    let (sys, user, tokens, temp) = call_of(&act);
    assert_eq!(sys, SINGLE_ROUND_SYSTEM_PROMPT);
    assert_eq!(user, format!("{SINGLE_ROUND_USER_TEMPLATE}{diff}\n```"));
    assert_eq!((tokens, temp), (4096, 20));
    let (st, act) = review_step(st, ReviewEvent::Reply(Some("report".to_string())));
    assert!(matches!(st, ReviewState::Done));
    assert!(matches!(act, ReviewAction::Finish(Some(ref r)) if r == "report"));
}

#[test]
fn failed_single_round_gives_no_review() {
    let (st, _) = start_review("+ one line", 1000);
    let (_, act) = review_step(st, ReviewEvent::Reply(None));
    assert!(matches!(act, ReviewAction::Finish(None)));
}

#[test]
fn multi_file_review_verifies_against_sources() {
    let diff = "\n\n# File: a.rs\n+ foo\n\n# File: b.rs\n+ bar\n";
    let (st, act) = start_review(diff, 100_000);
    let (_, user, tokens, temp) = call_of(&act);
    assert!(user.contains("# File: a.rs"));
    assert!(user.contains("# File: b.rs"));
    assert_eq!((tokens, temp), (2048, 10));
    let (st, act) = review_step(st, ReviewEvent::Reply(Some("- CODE: `a.rs:1` — x [Low]".into())));
    match &act {
        ReviewAction::ReadSources(paths) => assert_eq!(paths, &vec!["a.rs".to_string(), "b.rs".to_string()]),
        _ => panic!("expected a read"),
    }
    let sources = vec![("a.rs".to_string(), "fn a() {}".to_string())];
    let (st, act) = review_step(st, ReviewEvent::SourcesRead(sources));
    let (_, user, tokens, temp) = call_of(&act);
    assert!(user.starts_with(VERIFY_USER_TEMPLATE));
    assert!(user.contains("- CODE: `a.rs:1`"));
    assert!(user.contains("## file: a.rs\n```\nfn a() {}\n```\n"));
    assert_eq!((tokens, temp), (4096, 10));
    let (st, act) = review_step(st, ReviewEvent::Reply(Some("verified".into())));
    assert!(matches!(st, ReviewState::Done));
    assert!(matches!(act, ReviewAction::Finish(Some(ref r)) if r == "verified"));
}

#[test]
fn no_sources_falls_back_to_summary_then_raw() {
    let diff = "\n\n# File: a.rs\n+ foo\n\n# File: b.rs\n+ bar\n";
    let (st, _) = start_review(diff, 100_000);
    let (st, _) = review_step(st, ReviewEvent::Reply(Some("finding".into())));
    let (st, act) = review_step(st, ReviewEvent::SourcesRead(vec![]));
    let (_, user, _, _) = call_of(&act);
    assert_eq!(user, format!("{SUMMARIZE_USER_TEMPLATE}finding"));
    let (st, act) = review_step(st, ReviewEvent::Reply(None));
    assert!(matches!(st, ReviewState::Done));
    match act {
        ReviewAction::Finish(Some(r)) => assert_eq!(
            r,
            "> ⚠️ Verification and summarization failed — raw chunk output below.\n\nfinding"
        ),
        _ => panic!("expected the raw report"),
    }
}

#[test]
fn all_chunks_failing_gives_raw_report() {
    let diff = "\n\n# File: a.rs\n+ foo\n\n# File: b.rs\n+ bar\n";
    let (st, _) = start_review(diff, 100_000);
    let (_, act) = review_step(st, ReviewEvent::Reply(None));
    match act {
        ReviewAction::Finish(Some(r)) => assert!(r.ends_with("below.\n\nChunk 1: error during analysis")),
        _ => panic!("expected the raw report"),
    }
}

#[test]
fn failed_verification_falls_back_to_summary() {
    let diff = "\n\n# File: a.rs\n+ foo\n\n# File: b.rs\n+ bar\n";
    let (st, _) = start_review(diff, 100_000);
    let (st, _) = review_step(st, ReviewEvent::Reply(Some("f".into())));
    let (st, _) = review_step(st, ReviewEvent::SourcesRead(vec![("a.rs".into(), "x".into())]));
    let (st, act) = review_step(st, ReviewEvent::Reply(None));
    let (_, user, _, _) = call_of(&act);
    assert_eq!(user, format!("{SUMMARIZE_USER_TEMPLATE}f"));
    let (_, act) = review_step(st, ReviewEvent::Reply(Some("summary".into())));
    assert!(matches!(act, ReviewAction::Finish(Some(ref r)) if r == "summary"));
}

#[test]
fn chunk_failure_records_and_filtering() {
    assert_eq!(chunk_failure(3), "Chunk 3: error during analysis");
    assert!(!review_is_valid("Chunk 3: error during analysis"));
    assert!(review_is_valid("Chunk 3 looks fine"));
    assert!(review_is_valid("- CODE: x: error during analysis"));
    let reviews = vec!["a".to_string(), chunk_failure(2), "b".to_string()];
    assert_eq!(filter_valid_reviews(&reviews), vec!["a".to_string(), "b".to_string()]);
    assert_eq!(
        raw_chunk_report(&reviews),
        "> ⚠️ Verification and summarization failed — raw chunk output below.\n\na\n\n---\n\nChunk 2: error during analysis\n\n---\n\nb"
    );
}

#[test]
fn review_finishes_within_chunks_plus_three_steps() {
    let big: String = (0..3).map(|f| {
        let body = (0..900).map(|i| format!("+ w{i}")).collect::<Vec<_>>().join("\n");
        format!("\n\n# File: f{f}.rs\n{body}")
    }).collect();
    let chunks = review_toolkit::review::chunks_for_review(&big).len();
    assert!(chunks >= 2);
    let (mut st, mut act) = start_review(&big, 100_000);
    let mut steps = 0;
    loop {
        let event = match act {
            ReviewAction::Finish(_) => break,
            ReviewAction::Call(_) => ReviewEvent::Reply(Some("- SEC: `f0.rs:1` — y [High]".into())),
            ReviewAction::ReadSources(_) => ReviewEvent::SourcesRead(vec![]),
        };
        steps += 1;
        (st, act) = review_step(st, event);
    }
    assert!(steps <= chunks + 3);
    assert_eq!(steps, chunks + 2);
}
