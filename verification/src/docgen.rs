//! Docstring generation: which files need docstrings, and what to ask for.
use vstd::prelude::*;
use std::path::Path;
use tree_sitter::{Language, Parser, Query, QueryCursor, StreamingIterator};
use tree_sitter_python::LANGUAGE;
use crate::text::{push_str, string_of};

verus! {

/// `std::path::Path`, carried through opaquely.
#[verifier::external_type_specification]
#[verifier::external_body]
pub struct ExPath(Path);

// ---------------------------------------------------------------------------
// Python definitions and their docstrings
// ---------------------------------------------------------------------------

/// The beginning of a Python function or class body: the node kind of its
/// first statement and, inside that statement, of its first expression.
pub type DefinitionShape = (Option<&'static str>, Option<&'static str>);

/// The view of an optional string slice.
pub open spec fn opt_str_view(o: Option<&str>) -> Option<Seq<char>> {
    match o {
        Some(s) => Some(s@),
        None => None,
    }
}

/// The node kinds of a definition shape.
pub open spec fn shape_view(d: DefinitionShape) -> (Option<Seq<char>>, Option<Seq<char>>) {
    (opt_str_view(d.0), opt_str_view(d.1))
}

/// The shapes of a list of definitions.
pub open spec fn shapes_view(o: Option<Vec<DefinitionShape>>) -> Option<Seq<(Option<Seq<char>>, Option<Seq<char>>)>> {
    match o {
        Some(v) => Some(v@.map_values(|d: DefinitionShape| shape_view(d))),
        None => None,
    }
}

/// What tree-sitter's Python grammar finds in `source`: for every
/// `function_definition` and `class_definition` node, in query-match order,
/// the kinds of the first named child of its `body` and of that child's first
/// named child; `None` when the parser returns no tree.
pub uninterp spec fn python_definitions(source: Seq<char>) -> Option<Seq<(Option<Seq<char>>, Option<Seq<char>>)>>;

/// Parses `source` with tree-sitter-python and runs the query
/// `[(function_definition) (class_definition)] @def`, reporting for each
/// captured node the kinds of its body's first named child and of that
/// child's first named child.
///
/// Trusted: the result is what `python_definitions` names for `source`.
/// `set_language` and `Query::new` fail only when the bundled grammar and the
/// tree-sitter runtime are incompatible, which does not depend on `source`;
/// with the versions this crate builds against both succeed (the tests run
/// them), so their `unwrap`s do not fire.
#[verifier::external_body]
fn python_definition_shapes(source: &str) -> (res: Option<Vec<DefinitionShape>>)
    ensures
        shapes_view(res) == python_definitions(source@),
{
    let lang = Language::from(LANGUAGE);
    let mut parser = Parser::new();
    parser.set_language(&lang).unwrap();
    let tree = parser.parse(source, None)?;
    let query = Query::new(&lang, "[(function_definition) (class_definition)] @def").unwrap();
    let mut cursor = QueryCursor::new();
    let mut found = cursor.matches(&query, tree.root_node(), source.as_bytes());
    let mut shapes = Vec::new();
    while let Some(m) = found.next() {
        let s = m.captures[0].node.child_by_field_name("body").and_then(|b| b.named_child(0));
        shapes.push((s.map(|n| n.kind()), s.and_then(|n| n.named_child(0)).map(|n| n.kind())));
    }
    Some(shapes)
}

/// A definition whose body opens with a string expression statement.
pub open spec fn has_docstring(d: (Option<Seq<char>>, Option<Seq<char>>)) -> bool {
    d.0 == Some("expression_statement"@) && d.1 == Some("string"@)
}

/// Some definition lacks a docstring, or, with `force`, there is any definition.
pub open spec fn needs_docstring_among(defs: Seq<(Option<Seq<char>>, Option<Seq<char>>)>, force: bool) -> bool {
    exists|i: int| 0 <= i < defs.len() && (!has_docstring(#[trigger] defs[i]) || force)
}

/// Laws of docstring detection: with `force`, a source is flagged exactly when
/// it has some function or class; and whatever is flagged without `force` is
/// flagged with it.
pub proof fn law_force_flags_every_definition(defs: Seq<(Option<Seq<char>>, Option<Seq<char>>)>)
    ensures
        needs_docstring_among(defs, true) == (defs.len() > 0),
        needs_docstring_among(defs, false) ==> needs_docstring_among(defs, true),
{
    if defs.len() > 0 {
        let d = defs[0];
        assert(!has_docstring(d) || true);
        assert(exists|i: int| 0 <= i < defs.len() && (!has_docstring(#[trigger] defs[i]) || true));
    }
}

/// Laws of docstring detection over the definitions found in a source.
/// A definition is documented exactly when its body opens with an
/// expression statement holding a string. Any undocumented definition, at any
/// position, flags the source; a source with only documented definitions is
/// not flagged without `force`; and an undocumented definition still flags
/// the source when other definitions precede it.
pub proof fn law_docstring_detection(
    defs: Seq<(Option<Seq<char>>, Option<Seq<char>>)>,
    more: Seq<(Option<Seq<char>>, Option<Seq<char>>)>,
    force: bool,
)
    ensures
        forall|d: (Option<Seq<char>>, Option<Seq<char>>)|
            #[trigger] has_docstring(d) == (d.0 == Some("expression_statement"@) && d.1 == Some("string"@)),
        forall|i: int| 0 <= i < defs.len() && !has_docstring(#[trigger] defs[i]) ==> needs_docstring_among(defs, force),
        (forall|i: int| 0 <= i < defs.len() ==> has_docstring(#[trigger] defs[i])) ==> !needs_docstring_among(defs, false),
        forall|j: int| 0 <= j < more.len() && !has_docstring(#[trigger] more[j]) ==> needs_docstring_among(defs + more, false),
{
    assert forall|i: int| 0 <= i < defs.len() && !has_docstring(#[trigger] defs[i]) implies needs_docstring_among(defs, force) by {
        assert(!has_docstring(defs[i]) || force);
    }
    let all = defs + more;
    assert forall|j: int| 0 <= j < more.len() && !has_docstring(#[trigger] more[j]) implies needs_docstring_among(all, false) by {
        let k = defs.len() + j;
        assert(all[k] == more[j]);
        assert(!has_docstring(all[k]) || false);
    }
}

fn kind_is(k: Option<&str>, expected: &str) -> (res: bool)
    ensures
        res == (opt_str_view(k) == Some(expected@)),
{
    match k {
        Some(s) => crate::text::str_eq(s, expected),
        None => false,
    }
}

/// Whether the definition's body opens with a docstring.
pub fn shape_has_docstring(d: &DefinitionShape) -> (res: bool)
    ensures
        res == has_docstring(shape_view(*d)),
{
    kind_is(d.0, "expression_statement") && kind_is(d.1, "string")
}

/// Whether any definition lacks a docstring (with `force`: whether there is any).
pub fn any_needs_docstring(defs: &Vec<DefinitionShape>, force: bool) -> (res: bool)
    ensures
        res == needs_docstring_among(defs@.map_values(|d: DefinitionShape| shape_view(d)), force),
{
    let ghost dv = defs@.map_values(|d: DefinitionShape| shape_view(d));
    let mut i: usize = 0;
    while i < defs.len()
        invariant
            dv == defs@.map_values(|d: DefinitionShape| shape_view(d)),
            0 <= i <= defs@.len(),
            forall|j: int| 0 <= j < i ==> !(!has_docstring(#[trigger] dv[j]) || force),
        decreases defs@.len() - i,
    {
        let documented = shape_has_docstring(&defs[i]);
        if !documented || force {
            proof {
                assert(dv[i as int] == shape_view(defs@[i as int]));
            }
            return true;
        }
        i = i + 1;
    }
    false
}

/// Returns `true` if the Python source has functions/classes missing docstrings.
pub fn python_has_missing_docstrings(source: &str, force: bool) -> (res: bool)
    ensures
        res == match python_definitions(source@) {
            Some(defs) => needs_docstring_among(defs, force),
            None => false,
        },
{
    match python_definition_shapes(source) {
        Some(defs) => any_needs_docstring(&defs, force),
        None => false,
    }
}

// ---------------------------------------------------------------------------
// Files and prompts
// ---------------------------------------------------------------------------

/// What `Path::extension` followed by `OsStr::to_str` gives for `file`: the
/// part of the file name after its last `.` (none for a name without one, or
/// with only a leading one), when that part is valid UTF-8.
pub uninterp spec fn path_extension_of(file: &Path) -> Option<Seq<char>>;

/// The extension of a path as text (`Path::extension` then `OsStr::to_str`).
/// Trusted: the result is what `path_extension_of` names for `file`.
#[verifier::external_body]
fn path_extension(file: &Path) -> (res: Option<String>)
    ensures
        match res {
            Some(e) => path_extension_of(file) == Some(e@),
            None => path_extension_of(file) is None,
        },
{
    file.extension().and_then(|e| e.to_str()).map(String::from)
}

/// Whether a file with this extension is checked: only Python sources are;
/// TypeScript detection is not implemented and reports nothing.
pub open spec fn checks_extension(ext: Option<Seq<char>>) -> bool {
    ext == Some("py"@)
}

fn is_extension(ext: Option<&str>, expected: &str) -> (res: bool)
    ensures
        res == (opt_str_view(ext) == Some(expected@)),
{
    match ext {
        Some(e) => crate::text::str_eq(e, expected),
        None => false,
    }
}

/// Dispatch on a file extension: Python sources are checked, others are not.
pub fn needs_docstrings_for_extension(ext: Option<&str>, source: &str, force: bool) -> (res: bool)
    ensures
        res == (checks_extension(opt_str_view(ext)) && match python_definitions(source@) {
            Some(defs) => needs_docstring_among(defs, force),
            None => false,
        }),
{
    if is_extension(ext, "py") {
        python_has_missing_docstrings(source, force)
    } else {
        false
    }
}

/// Dispatch to Python or TS detector based on file extension.
/// (TS detection is a stub that returns false.)
pub fn needs_docstrings(file: &Path, source: &str, force: bool) -> (res: bool)
    ensures
        res == (checks_extension(path_extension_of(file)) && match python_definitions(source@) {
            Some(defs) => needs_docstring_among(defs, force),
            None => false,
        }),
{
    let ext = path_extension(file);
    match ext {
        Some(e) => needs_docstrings_for_extension(Some(e.as_str()), source, force),
        None => needs_docstrings_for_extension(None, source, force),
    }
}

/// Extensions of the source files docgen processes.
pub open spec fn is_source_ext(ext: Option<Seq<char>>) -> bool {
    ext == Some("py"@) || ext == Some("ts"@) || ext == Some("tsx"@)
}

/// Whether a file with this extension is processed (`.py`, `.ts`, `.tsx`).
pub fn is_source_extension(ext: Option<&str>) -> (res: bool)
    ensures
        res == is_source_ext(opt_str_view(ext)),
{
    is_extension(ext, "py") || is_extension(ext, "ts") || is_extension(ext, "tsx")
}

/// The docstring format: the one asked for, otherwise `mkdocs` for Python and
/// `tsdoc` for anything else.
pub fn docstring_format(requested: Option<&str>, ext: Option<&str>) -> (res: String)
    ensures
        res@ == match requested {
            Some(f) => f@,
            None => if opt_str_view(ext) == Some("py"@) {
                "mkdocs"@
            } else {
                "tsdoc"@
            },
        },
{
    match requested {
        Some(f) => string_of(f),
        None => if is_extension(ext, "py") {
            string_of("mkdocs")
        } else {
            string_of("tsdoc")
        },
    }
}

/// The language named in the prompt: Python for `.py`, TypeScript otherwise.
pub fn source_language(ext: Option<&str>) -> (res: &'static str)
    ensures
        res@ == if opt_str_view(ext) == Some("py"@) {
            "Python"@
        } else {
            "TypeScript"@
        },
{
    if is_extension(ext, "py") {
        "Python"
    } else {
        "TypeScript"
    }
}

/// What the model is asked to do with the docstrings.
pub open spec fn docgen_action(force: bool) -> Seq<char> {
    if force {
        "Replace all existing docstrings and add missing ones"@
    } else {
        "Add docstrings to all functions and classes that are missing them"@
    }
}

/// The docstring-generation prompt for one source file.
pub open spec fn docgen_prompt_text(force: bool, format: Seq<char>, language: Seq<char>, source: Seq<char>) -> Seq<char> {
    docgen_action(force) + " using "@ + format + " format in the following "@ + language
        + " source code. Return ONLY the complete patched source code with no explanation and no markdown fences.\n\n"@
        + source
}

/// Laws of the docstring prompt: it opens with the requested action (replace
/// all docstrings with `force`, add the missing ones without), names the
/// format and then the language, and ends with the whole source file, after
/// the instruction's closing blank line.
pub proof fn law_docgen_prompt(force: bool, format: Seq<char>, language: Seq<char>, source: Seq<char>)
    ensures
        ({
            let p = docgen_prompt_text(force, format, language, source);
            let head = if force {
                "Replace all existing docstrings and add missing ones using "@
            } else {
                "Add docstrings to all functions and classes that are missing them using "@
            };
            &&& crate::text::starts_with(p, head)
            &&& p.subrange(head.len() as int, (head.len() + format.len()) as int) == format
            &&& crate::text::ends_with(p, source)
            &&& crate::text::ends_with(p.take(p.len() - source.len()), "no markdown fences.\n\n"@)
            &&& crate::text::occurs_at(p, " format in the following "@ + language + " source code."@, (head.len() + format.len()) as int)
        }),
{
    reveal_strlit("Replace all existing docstrings and add missing ones");
    reveal_strlit("Add docstrings to all functions and classes that are missing them");
    reveal_strlit(" using ");
    reveal_strlit("Replace all existing docstrings and add missing ones using ");
    reveal_strlit("Add docstrings to all functions and classes that are missing them using ");
    reveal_strlit(" format in the following ");
    reveal_strlit(" source code.");
    reveal_strlit(" source code. Return ONLY the complete patched source code with no explanation and no markdown fences.\n\n");
    reveal_strlit("no markdown fences.\n\n");
    let p = docgen_prompt_text(force, format, language, source);
    let head = if force {
        "Replace all existing docstrings and add missing ones using "@
    } else {
        "Add docstrings to all functions and classes that are missing them using "@
    };
    let tail = " source code. Return ONLY the complete patched source code with no explanation and no markdown fences.\n\n"@;
    let mid = " format in the following "@ + language + " source code."@;
    assert(docgen_action(force) + " using "@ =~= head);
    assert(p =~= head + format + " format in the following "@ + language + tail + source);
    assert(p.take(head.len() as int) =~= head);
    assert(p.subrange(head.len() as int, (head.len() + format.len()) as int) =~= format);
    assert(p.skip(p.len() - source.len()) =~= source);
    let q = p.take(p.len() - source.len());
    assert(q =~= head + format + " format in the following "@ + language + tail);
    assert(q.skip(q.len() - 21) =~= "no markdown fences.\n\n"@);
    assert(tail.take(13) =~= " source code."@);
    assert(p.subrange((head.len() + format.len()) as int, (head.len() + format.len() + mid.len()) as int) =~= mid);
}

/// The docstring-generation prompt for one source file.
pub fn docgen_prompt(force: bool, format: &str, language: &str, source: &str) -> (res: String)
    ensures
        res@ == docgen_prompt_text(force, format@, language@, source@),
{
    let mut s = if force {
        string_of("Replace all existing docstrings and add missing ones")
    } else {
        string_of("Add docstrings to all functions and classes that are missing them")
    };
    push_str(&mut s, " using ");
    push_str(&mut s, format);
    push_str(&mut s, " format in the following ");
    push_str(&mut s, language);
    push_str(
        &mut s,
        " source code. Return ONLY the complete patched source code with no explanation and no markdown fences.\n\n",
    );
    push_str(&mut s, source);
    s
}

} // verus!
