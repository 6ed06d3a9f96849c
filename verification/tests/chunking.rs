use review_toolkit::diff::{
    count_file_markers, group_files_into_chunks, split_diff_by_file,
    split_diff_into_chunks,
};

#[test]
fn chunks_split_on_word_count() {
    // Build a diff with many lines so word count exceeds max_words=2000
    let big = (0..5000)
        .map(|i| format!("+ word{i}"))
        .collect::<Vec<_>>()
        .join("\n");
    let chunks = split_diff_into_chunks(&big, 2000);
    assert!(chunks.len() > 1);
}

#[test]
fn empty_diff_yields_no_chunks() {
    assert!(split_diff_into_chunks("", 2000).is_empty());
    assert!(split_diff_into_chunks("   \n  ", 2000).is_empty());
}

#[test]
fn small_diff_is_single_chunk() {
    let diff = "- old line\n+ new line\n";
    let chunks = split_diff_into_chunks(diff, 2000);
    assert_eq!(chunks.len(), 1);
    assert_eq!(chunks[0], diff.trim_end_matches('\n'));
}

#[test]
fn multi_file_diff_detected() {
    let diff = "\n\n# File: a.rs\n+ foo\n\n# File: b.rs\n+ bar\n";
    assert_eq!(count_file_markers(diff), 2);
}

#[test]
fn single_file_diff_detected() {
    let diff = "\n\n# File: a.rs\n+ foo\n";
    assert_eq!(count_file_markers(diff), 1);
}

#[test]
fn split_by_file_parses_headers() {
    let diff = "\n\n# File: src/a.rs\n+ line a\n\n# File: src/b.rs\n+ line b\n";
    let files = split_diff_by_file(diff);
    assert_eq!(files.len(), 2);
    assert_eq!(files[0].0, "src/a.rs");
    assert_eq!(files[1].0, "src/b.rs");
    assert!(files[0].1.contains("+ line a"));
    assert!(files[1].1.contains("+ line b"));
}

#[test]
fn split_by_file_handles_empty() {
    assert!(split_diff_by_file("").is_empty());
    assert!(split_diff_by_file("   ").is_empty());
}

#[test]
fn split_by_file_single_file() {
    let diff = "\n\n# File: src/main.rs\n+ hello\n+ world\n";
    let files = split_diff_by_file(diff);
    assert_eq!(files.len(), 1);
    assert_eq!(files[0].0, "src/main.rs");
}

#[test]
fn group_files_respects_boundaries() {
    let files = vec![
        ("a.rs".to_string(), "word ".repeat(800)),
        ("b.rs".to_string(), "word ".repeat(800)),
        ("c.rs".to_string(), "word ".repeat(800)),
    ];
    let chunks = group_files_into_chunks(&files, 2000);
    // a.rs + b.rs = 1600 words fits in one chunk
    // c.rs would make 2400, so c.rs goes to chunk 2
    assert_eq!(chunks.len(), 2);
    assert!(chunks[0].contains("# File: a.rs"));
    assert!(chunks[0].contains("# File: b.rs"));
    assert!(chunks[1].contains("# File: c.rs"));
}

#[test]
fn group_files_large_single_file_solo() {
    let files = vec![("big.rs".to_string(), "word ".repeat(3000))];
    let chunks = group_files_into_chunks(&files, 2000);
    assert_eq!(chunks.len(), 1);
    assert!(chunks[0].contains("# File: big.rs"));
}

#[test]
fn chunks_keep_every_line_in_order() {
    let diff = "a b c\nd e\r\nf\n\ng h i j";
    let chunks = split_diff_into_chunks(diff, 4);
    assert_eq!(chunks, vec!["a b c", "d e\nf\n", "g h i j"]);
    assert_eq!(chunks.join("\n"), "a b c\nd e\nf\n\ng h i j");
}

#[test]
fn long_line_forms_its_own_chunk() {
    let chunks = split_diff_into_chunks("x\none two three four five\ny", 3);
    assert_eq!(chunks, vec!["x", "one two three four five", "y"]);
}

#[test]
fn grouped_chunk_is_trimmed_and_blank_line_separated() {
    let files = vec![
        ("a.rs".to_string(), "\n+ one\n\n".to_string()),
        ("b.rs".to_string(), "\n+ two  ".to_string()),
    ];
    let chunks = group_files_into_chunks(&files, 100);
    assert_eq!(chunks, vec!["# File: a.rs\n\n+ one\n\n\n\n# File: b.rs\n\n+ two"]);
}

#[test]
fn no_files_no_chunks() {
    let files: Vec<(String, String)> = vec![];
    assert!(group_files_into_chunks(&files, 10).is_empty());
}

#[test]
fn split_by_file_body_runs_to_next_header() {
    let diff = "preamble\n\n# File:   x.py  \n+ a\n\n# File: y.py";
    let files = split_diff_by_file(diff);
    assert_eq!(
        files,
        vec![
            ("x.py".to_string(), "\n+ a\n\n".to_string()),
            ("y.py".to_string(), "".to_string())
        ]
    );
}

#[test]
fn split_by_file_without_headers_is_empty() {
    assert!(split_diff_by_file("+ just a line\n").is_empty());
}

#[test]
fn marker_inside_an_added_line_is_no_header() {
    let diff = "\n\n# File: a.rs\n+ s = \"# File: b.rs\"\n";
    let files = split_diff_by_file(diff);
    assert_eq!(files.len(), 1);
    assert_eq!(files[0].0, "a.rs");
    assert!(files[0].1.contains("+ s = \"# File: b.rs\""));
    let inline = "\n\n# File: a # File: b\n+ x";
    assert_eq!(split_diff_by_file(inline), vec![("a # File: b".to_string(), "\n+ x".to_string())]);
}

#[test]
fn file_marker_count_does_not_overlap() {
    assert_eq!(count_file_markers("no files"), 0);
    assert_eq!(count_file_markers("\n\n# File:\n\n# File:"), 2);
}

#[test]
fn sections_write_back_to_the_diff() {
    let diff = "intro\n\n# File: a.rs\n+ x\n\n# File: b.rs\n+ y\n";
    let files = split_diff_by_file(diff);
    let pre = &diff[..diff.find("# File: ").unwrap()];
    let back: String = files.iter().map(|(n, b)| format!("# File: {n}{b}")).collect();
    assert_eq!(format!("{pre}{back}"), diff);
}

#[test]
fn chunk_text_holds_the_words_of_its_lines() {
    let diff = (0..40).map(|i| format!("+ a{i} b{i}")).collect::<Vec<_>>().join("\n");
    let chunks = split_diff_into_chunks(&diff, 15);
    assert!(!chunks.is_empty());
    for c in &chunks {
        assert!(c.split_whitespace().count() <= 15);
    }
    assert_eq!(chunks.iter().map(|c| c.split_whitespace().count()).sum::<usize>(), 120);
    let files: Vec<(String, String)> =
        (0..5).map(|i| (format!("f{i}.rs"), "+ one two three\n".to_string())).collect();
    for c in group_files_into_chunks(&files, 12) {
        assert!(c.split_whitespace().count() <= 12);
    }
}
