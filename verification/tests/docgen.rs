use review_toolkit::docgen::{
    docgen_prompt, docstring_format, is_source_extension, needs_docstrings,
    needs_docstrings_for_extension, python_has_missing_docstrings, source_language,
};
use review_toolkit::git::{branch_name_for, dirty_paths, docgen_branch_name, merge_commit_message, named_branch};

fn py(src: &str) -> bool {
    python_has_missing_docstrings(src, false)
}

#[test]
fn py_fn_without_docstring_detected() {
    assert!(py("def foo():\n    pass\n"));
}

#[test]
fn py_fn_with_docstring_not_flagged() {
    assert!(!py("def foo():\n    \"\"\"Docstring.\"\"\"\n    pass\n"));
}

#[test]
fn py_class_without_docstring_detected() {
    assert!(py("class Foo:\n    pass\n"));
}

#[test]
fn py_force_flags_documented_fn() {
    assert!(python_has_missing_docstrings(
        "def foo():\n    \"\"\"Exists.\"\"\"\n    pass\n",
        true
    ));
}

#[test]
fn py_without_definitions_needs_nothing() {
    assert!(!py("x = 1\n"));
    assert!(!python_has_missing_docstrings("x = 1\n", true));
}

#[test]
fn dispatch_by_extension() {
    let src = "def foo():\n    pass\n";
    assert!(needs_docstrings_for_extension(Some("py"), src, false));
    assert!(!needs_docstrings_for_extension(Some("ts"), src, false));
    assert!(!needs_docstrings_for_extension(None, src, false));
    assert!(needs_docstrings(std::path::Path::new("pkg/mod.py"), src, false));
    assert!(!needs_docstrings(std::path::Path::new("pkg/mod.tsx"), src, false));
}

#[test]
fn formats_languages_and_prompt() {
    assert!(is_source_extension(Some("tsx")));
    assert!(!is_source_extension(Some("md")));
    assert!(!is_source_extension(None));
    assert_eq!(docstring_format(None, Some("py")), "mkdocs");
    assert_eq!(docstring_format(None, Some("ts")), "tsdoc");
    assert_eq!(docstring_format(Some("google"), Some("py")), "google");
    assert_eq!(source_language(Some("py")), "Python");
    assert_eq!(source_language(Some("ts")), "TypeScript");
    assert_eq!(
        docgen_prompt(false, "mkdocs", "Python", "x = 1"),
        "Add docstrings to all functions and classes that are missing them using mkdocs format in the following Python source code. Return ONLY the complete patched source code with no explanation and no markdown fences.\n\nx = 1"
    );
    assert!(docgen_prompt(true, "tsdoc", "TypeScript", "").starts_with("Replace all existing docstrings and add missing ones using tsdoc"));
}

#[test]
fn git_decisions() {
    assert_eq!(named_branch(Some("main".into())).unwrap(), "main");
    assert_eq!(
        named_branch(Some(String::new())).unwrap_err(),
        "docgen requires a named branch (HEAD is detached)"
    );
    assert!(named_branch(None).is_err());
    assert_eq!(branch_name_for("20250101-120000"), "docgen/20250101-120000");
    let name = docgen_branch_name();
    assert!(name.starts_with("docgen/"));
    assert_eq!(name.len(), "docgen/20250101-120000".len());
    assert_eq!(merge_commit_message("docgen/x"), "docs: merge docgen/x");
    let entries = vec![(0u32, Some("clean.rs".to_string())), (4, Some("mod.rs".to_string())), (128, None), (1, Some("new.rs".to_string()))];
    assert_eq!(dirty_paths(&entries), vec!["mod.rs".to_string(), "new.rs".to_string()]);
}

#[test]
fn force_flags_every_source_with_definitions() {
    let documented = "class A:\n    \"\"\"A.\"\"\"\n\ndef f():\n    \"\"\"F.\"\"\"\n    return 1\n";
    assert!(!python_has_missing_docstrings(documented, false));
    assert!(python_has_missing_docstrings(documented, true));
    let undocumented = "def g():\n    return 2\n";
    assert!(python_has_missing_docstrings(undocumented, false));
    assert!(python_has_missing_docstrings(undocumented, true));
}

#[test]
fn only_a_py_extension_is_checked() {
    let src = "def f():\n    pass\n";
    assert!(needs_docstrings(std::path::Path::new("a.b/tool.py"), src, false));
    assert!(!needs_docstrings(std::path::Path::new(".py"), src, false));
    assert!(!needs_docstrings(std::path::Path::new("dir.py/tool"), src, false));
    assert!(!needs_docstrings(std::path::Path::new("tool.pyc"), src, false));
}

#[test]
fn branch_name_carries_a_timestamp() {
    let name = docgen_branch_name();
    let stamp: Vec<char> = name["docgen/".len()..].chars().collect();
    assert!(stamp.len() >= 15);
    let dash = stamp.len() - 7;
    assert_eq!(stamp[dash], '-');
    for (i, c) in stamp.iter().enumerate().skip(stamp.len() - 15) {
        if i != dash {
            assert!(c.is_ascii_digit());
        }
    }
}
