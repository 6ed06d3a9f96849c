//! Pull-request settings and the assembly of a PR's diff from its changed files.
use vstd::prelude::*;
use crate::text::{
    chars_of, ends_with, ends_with_chars, lines, parse_u64, parse_unsigned, push_char, push_str,
    string_of, string_of_range,
};
use crate::diff::{
    file_header, file_marker, file_sections, file_separator, header_end, lemma_marker_has_no_newline,
    lemma_match_positions_concat, lemma_match_positions_shift, lemma_no_match_positions,
    match_positions, section_end, section_starts, shift_positions,
};
use crate::text::occurs_at;
use crate::source::{header_names, lemma_header_names_lines_concat, lemma_header_names_single};

verus! {

/// Settings of the pull request under review.
pub struct GithubConfig {
    pub repository: String,
    pub pr_number: u64,
    pub token: String,
}

/// Why the pull-request settings could not be formed.
#[derive(PartialEq, Eq, Structural, Debug, Clone, Copy)]
pub enum GithubConfigError {
    MissingRepository,
    MissingPrNumber,
    InvalidPrNumber,
    MissingToken,
}

impl GithubConfigError {
    /// The text reported for this error.
    pub open spec fn text(self) -> Seq<char> {
        match self {
            GithubConfigError::MissingRepository => "GITHUB_REPOSITORY must be set"@,
            GithubConfigError::MissingPrNumber => "PULL_REQUEST_NUMBER must be set"@,
            GithubConfigError::InvalidPrNumber => "PULL_REQUEST_NUMBER must be a number"@,
            GithubConfigError::MissingToken => "GITHUB_TOKEN must be set"@,
        }
    }

    /// The text reported for this error.
    pub fn message(&self) -> (res: String)
        ensures
            res@ == self.text(),
    {
        match self {
            GithubConfigError::MissingRepository => string_of("GITHUB_REPOSITORY must be set"),
            GithubConfigError::MissingPrNumber => string_of("PULL_REQUEST_NUMBER must be set"),
            GithubConfigError::InvalidPrNumber => string_of(
                "PULL_REQUEST_NUMBER must be a number",
            ),
            GithubConfigError::MissingToken => string_of("GITHUB_TOKEN must be set"),
        }
    }
}

/// The error the settings formed from these values fail with, if any:
/// the first unset variable in the order repository, number, token, with a
/// number that does not parse reported before a missing token.
pub open spec fn config_error(
    repository: Option<Seq<char>>,
    pr_number: Option<Seq<char>>,
    token: Option<Seq<char>>,
) -> Option<GithubConfigError> {
    if repository is None {
        Some(GithubConfigError::MissingRepository)
    } else if pr_number is None {
        Some(GithubConfigError::MissingPrNumber)
    } else if parse_unsigned(pr_number->0, u64::MAX as nat) is None {
        Some(GithubConfigError::InvalidPrNumber)
    } else if token is None {
        Some(GithubConfigError::MissingToken)
    } else {
        None
    }
}

/// The view of an optional string.
pub open spec fn opt_view(o: Option<String>) -> Option<Seq<char>> {
    match o {
        Some(s) => Some(s@),
        None => None,
    }
}

/// Forms the pull-request settings from the values of `GITHUB_REPOSITORY`,
/// `PULL_REQUEST_NUMBER` and `GITHUB_TOKEN` (`None` when a variable is unset),
/// checking them in that order.
pub fn github_config_from_values(
    repository: Option<String>,
    pr_number: Option<String>,
    token: Option<String>,
) -> (res: Result<GithubConfig, GithubConfigError>)
    ensures
        ({
            let err = config_error(opt_view(repository), opt_view(pr_number), opt_view(token));
            match res {
                Err(e) => err == Some(e),
                Ok(cfg) => {
                    &&& err is None
                    &&& repository == Some(cfg.repository)
                    &&& token == Some(cfg.token)
                    &&& parse_unsigned(pr_number->0@, u64::MAX as nat) == Some(cfg.pr_number as nat)
                },
            }
        }),
{
    let repository = match repository {
        Some(r) => r,
        None => return Err(GithubConfigError::MissingRepository),
    };
    let pr_text = match pr_number {
        Some(p) => p,
        None => return Err(GithubConfigError::MissingPrNumber),
    };
    let pr_number = match parse_u64(pr_text.as_str()) {
        Some(n) => n,
        None => return Err(GithubConfigError::InvalidPrNumber),
    };
    let token = match token {
        Some(t) => t,
        None => return Err(GithubConfigError::MissingToken),
    };
    Ok(GithubConfig { repository, pr_number, token })
}

// ---------------------------------------------------------------------------
// Which files are reviewed
// ---------------------------------------------------------------------------

/// Index of the last `c` in `s`, or -1.
pub open spec fn last_index_of_char(s: Seq<char>, c: char) -> int
    decreases s.len(),
{
    if s.len() == 0 {
        -1
    } else if s.last() == c {
        s.len() - 1
    } else {
        last_index_of_char(s.drop_last(), c)
    }
}

/// The last `/`-separated part of a path (`rsplit('/').next()`).
pub open spec fn basename(s: Seq<char>) -> Seq<char> {
    s.skip(last_index_of_char(s, '/') + 1)
}

/// Some `/`-separated part of the path starts with a dot.
pub open spec fn has_dot_part(s: Seq<char>) -> bool {
    (s.len() > 0 && s[0] == '.') || exists|i: int|
        0 <= i < s.len() - 1 && s[i] == '/' && #[trigger] s[i + 1] == '.'
}

/// A lock file: `Cargo.lock`, `npm-shrinkwrap.json`, `lock.yaml`, `lock.yml`,
/// or a name ending in `.lock`, `.lockb` or `-lock.json`.
pub open spec fn is_lock_file(s: Seq<char>) -> bool {
    let b = basename(s);
    ||| b == "Cargo.lock"@
    ||| b == "npm-shrinkwrap.json"@
    ||| ends_with(s, ".lock"@)
    ||| ends_with(s, ".lockb"@)
    ||| ends_with(s, "-lock.json"@)
    ||| b == "lock.yaml"@
    ||| b == "lock.yml"@
}

/// Files left out of a review: lock files, Markdown documentation and
/// anything under or named by a dot-part.
pub open spec fn skipped_file(s: Seq<char>) -> bool {
    ||| is_lock_file(s)
    ||| ends_with(s, ".md"@)
    ||| ends_with(s, ".mdx"@)
    ||| has_dot_part(s)
}

/// Laws of the review's skip rules (`should_skip_file`), path by path:
/// Markdown documentation (`.md`, `.mdx`, anywhere), lock files (`*.lock`,
/// `*.lockb`, `*-lock.json`, and `Cargo.lock`, `npm-shrinkwrap.json`,
/// `lock.yaml`, `lock.yml` at the root or in any directory) and anything
/// whose path or some directory starts with a dot are skipped; a skipped file
/// never reaches the assembled diff.
pub proof fn law_skip_rules(s: Seq<char>, dir: Seq<char>, name: Seq<char>)
    ensures
        ends_with(s, ".md"@) || ends_with(s, ".mdx"@) ==> skipped_file(s),
        ends_with(s, ".lock"@) || ends_with(s, ".lockb"@) || ends_with(s, "-lock.json"@) ==> skipped_file(s),
        s.len() > 0 && s[0] == '.' ==> skipped_file(s),
        (name == "Cargo.lock"@ || name == "npm-shrinkwrap.json"@ || name == "lock.yaml"@ || name == "lock.yml"@)
            ==> skipped_file(name) && skipped_file(dir + seq!['/'] + name),
        skipped_file(dir + seq!['/', '.'] + name),
        skipped_file(name) ==> pr_diff(seq![(name, Some(dir))]) == Seq::<char>::empty(),
{
    if (name == "Cargo.lock"@ || name == "npm-shrinkwrap.json"@ || name == "lock.yaml"@ || name == "lock.yml"@) {
        reveal_strlit("Cargo.lock");
        reveal_strlit("npm-shrinkwrap.json");
        reveal_strlit("lock.yaml");
        reveal_strlit("lock.yml");
        lemma_basename_of_plain(name);
        let full = dir + seq!['/'] + name;
        lemma_basename_after_slash(dir, name);
    }
    let t = dir + seq!['/', '.'] + name;
    let k = dir.len() as int;
    assert(t[k] == '/' && t[k + 1] == '.');
    assert(has_dot_part(t));
    let one = seq![(name, Some(dir))];
    assert(one.drop_last() =~= Seq::<(Seq<char>, Option<Seq<char>>)>::empty());
    assert(one.last() == (name, Some(dir)));
    assert(pr_diff(one.drop_last()) == Seq::<char>::empty());
}

/// A name without `/` is its own basename.
proof fn lemma_basename_of_plain(name: Seq<char>)
    requires
        !name.contains('/'),
    ensures
        basename(name) == name,
    decreases name.len(),
{
    lemma_no_slash_last_index(name);
    assert(name.skip(0) =~= name);
}

proof fn lemma_no_slash_last_index(name: Seq<char>)
    requires
        !name.contains('/'),
    ensures
        last_index_of_char(name, '/') == -1,
    decreases name.len(),
{
    if name.len() > 0 {
        assert(name.last() != '/') by {
            assert(name[name.len() - 1] == name.last());
        }
        assert forall|c: char| name.drop_last().contains(c) implies name.contains(c) by {
            let j = choose|j: int| 0 <= j < name.drop_last().len() && name.drop_last()[j] == c;
            assert(name[j] == c);
        }
        lemma_no_slash_last_index(name.drop_last());
    }
}

/// After a `/`, a name without `/` is the basename.
proof fn lemma_basename_after_slash(dir: Seq<char>, name: Seq<char>)
    requires
        !name.contains('/'),
    ensures
        basename(dir + seq!['/'] + name) == name,
    decreases name.len(),
{
    let full = dir + seq!['/'] + name;
    lemma_last_slash_of_suffix(dir, name);
    assert(full.skip(dir.len() as int + 1) =~= name);
}

proof fn lemma_last_slash_of_suffix(dir: Seq<char>, name: Seq<char>)
    requires
        !name.contains('/'),
    ensures
        last_index_of_char(dir + seq!['/'] + name, '/') == dir.len(),
    decreases name.len(),
{
    let full = dir + seq!['/'] + name;
    if name.len() == 0 {
        assert(full.last() == '/');
        assert(full.len() - 1 == dir.len());
    } else {
        assert(full.last() == name.last());
        assert(name.last() != '/') by {
            assert(name[name.len() - 1] == name.last());
        }
        assert forall|c: char| name.drop_last().contains(c) implies name.contains(c) by {
            let j = choose|j: int| 0 <= j < name.drop_last().len() && name.drop_last()[j] == c;
            assert(name[j] == c);
        }
        lemma_last_slash_of_suffix(dir, name.drop_last());
        assert(full.drop_last() =~= dir + seq!['/'] + name.drop_last());
    }
}

fn ends_with_str(v: &Vec<char>, lit: &str) -> (res: bool)
    ensures
        res == ends_with(v@, lit@),
{
    let l = chars_of(lit);
    ends_with_chars(v, &l)
}

fn range_equals(v: &Vec<char>, lo: usize, lit: &str) -> (res: bool)
    requires
        lo <= v@.len(),
    ensures
        res == (v@.skip(lo as int) == lit@),
{
    let l = chars_of(lit);
    if v.len() - lo != l.len() {
        proof {
            assert(v@.skip(lo as int).len() != lit@.len());
        }
        return false;
    }
    let mut j: usize = 0;
    while j < l.len()
        invariant
            l@ == lit@,
            lo <= v@.len(),
            v@.len() <= usize::MAX,
            v@.len() - lo == l@.len(),
            0 <= j <= l@.len(),
            forall|k: int| 0 <= k < j ==> v@[lo + k] == l@[k],
        decreases l@.len() - j,
    {
        assert(lo + j < v@.len());
        if v[lo + j] != l[j] {
            proof {
                assert(v@.skip(lo as int)[j as int] != lit@[j as int]);
            }
            return false;
        }
        j = j + 1;
    }
    proof {
        assert(v@.skip(lo as int) =~= lit@);
    }
    true
}

/// Returns true for files that should be excluded from code review:
/// lock files (Cargo.lock, *.lock, *-lock.json, lock.yaml/yml),
/// dotfiles/dot-directories (e.g. `.gitignore`, `.github/`), and
/// documentation files (`.md`, `.mdx`).
pub fn should_skip_file(filename: &str) -> (res: bool)
    ensures
        res == skipped_file(filename@),
{
    let v = chars_of(filename);
    let mut start: usize = v.len();
    while start > 0 && v[start - 1] != '/'
        invariant
            start <= v@.len(),
            forall|k: int| start <= k < v@.len() ==> v@[k] != '/',
        decreases start,
    {
        start = start - 1;
    }
    proof {
        assert(last_index_of_char(v@, '/') == start - 1) by {
            lemma_last_index_of_char(v@, '/', start as int);
        }
    }
    let lock = range_equals(&v, start, "Cargo.lock") || range_equals(&v, start, "npm-shrinkwrap.json")
        || ends_with_str(&v, ".lock") || ends_with_str(&v, ".lockb") || ends_with_str(&v, "-lock.json")
        || range_equals(&v, start, "lock.yaml") || range_equals(&v, start, "lock.yml");
    if lock {
        return true;
    }
    if ends_with_str(&v, ".md") || ends_with_str(&v, ".mdx") {
        return true;
    }
    if v.len() > 0 && v[0] == '.' {
        return true;
    }
    let mut i: usize = 0;
    while v.len() > 0 && i < v.len() - 1
        invariant
            0 <= i <= v@.len(),
            v@ == filename@,
            forall|k: int| 0 <= k < i && k < v@.len() - 1 ==> !(v@[k] == '/' && #[trigger] v@[k + 1] == '.'),
        decreases v@.len() - i,
    {
        if v[i] == '/' && v[i + 1] == '.' {
            proof {
                assert(has_dot_part(v@));
            }
            return true;
        }
        i = i + 1;
    }
    proof {
        assert(!has_dot_part(v@));
    }
    false
}

pub proof fn lemma_last_index_of_char(s: Seq<char>, c: char, start: int)
    requires
        0 <= start <= s.len(),
        forall|k: int| start <= k < s.len() ==> s[k] != c,
        start > 0 ==> s[start - 1] == c,
    ensures
        last_index_of_char(s, c) == start - 1,
    decreases s.len(),
{
    if s.len() > 0 && start < s.len() {
        lemma_last_index_of_char(s.drop_last(), c, start);
    }
}

// ---------------------------------------------------------------------------
// Repository name and diff assembly
// ---------------------------------------------------------------------------

/// Index of the first `/`, or -1.
pub open spec fn first_slash(s: Seq<char>) -> int {
    crate::text::index_of_char(s, '/')
}

/// Splits `owner/repo` at its first `/` (`splitn(2, '/')`); without a `/`
/// the name is rejected with `Invalid repository format: <name>`.
pub fn repository_parts(repository: &str) -> (res: Result<(String, String), String>)
    ensures
        ({
            let k = first_slash(repository@);
            match res {
                Err(e) => k < 0 && e@ == "Invalid repository format: "@ + repository@,
                Ok(p) => k >= 0 && p.0@ == repository@.take(k) && p.1@ == repository@.skip(k + 1),
            }
        }),
{
    let v = chars_of(repository);
    let mut k: usize = 0;
    while k < v.len() && v[k] != '/'
        invariant
            k <= v@.len(),
            forall|i: int| 0 <= i < k ==> v@[i] != '/',
        decreases v@.len() - k,
    {
        k = k + 1;
    }
    proof {
        crate::text::lemma_index_of_char_at(v@, '/', k as int);
    }
    if k == v.len() {
        let mut e = string_of("Invalid repository format: ");
        push_str(&mut e, repository);
        return Err(e);
    }
    let owner = string_of_range(&v, 0, k);
    let repo = string_of_range(&v, k + 1, v.len());
    proof {
        assert(v@.subrange(0, k as int) =~= v@.take(k as int));
        assert(v@.subrange(k + 1, v@.len() as int) =~= v@.skip(k + 1));
    }
    Ok((owner, repo))
}

/// A file changed by the pull request, with its patch when GitHub sends one.
pub struct ChangedFile {
    pub filename: String,
    pub patch: Option<String>,
}

/// The name and patch of a changed file.
pub open spec fn changed_view(f: ChangedFile) -> (Seq<char>, Option<Seq<char>>) {
    (
        f.filename@,
        match f.patch {
            Some(p) => Some(p@),
            None => None,
        },
    )
}

/// The diff of a pull request: for each changed file that is reviewed and has
/// a patch, a blank line, a `# File: <name>` header line and the patch.
pub open spec fn pr_diff(files: Seq<(Seq<char>, Option<Seq<char>>)>) -> Seq<char>
    decreases files.len(),
{
    if files.len() == 0 {
        seq![]
    } else {
        let rest = pr_diff(files.drop_last());
        let (name, patch) = files.last();
        if skipped_file(name) {
            rest
        } else {
            match patch {
                Some(p) => rest + "\n\n# File: "@ + name + seq!['\n'] + p,
                None => rest,
            }
        }
    }
}

/// Builds the reviewed diff from the changed files, skipping lock files,
/// dotfiles and documentation, and files without a patch.
pub fn assemble_pr_diff(files: &[ChangedFile]) -> (res: String)
    ensures
        res@ == pr_diff(files@.map_values(|f: ChangedFile| changed_view(f))),
{
    let ghost fs = files@.map_values(|f: ChangedFile| changed_view(f));
    let mut diff = String::new();
    let mut i: usize = 0;
    while i < files.len()
        invariant
            fs == files@.map_values(|f: ChangedFile| changed_view(f)),
            0 <= i <= files@.len(),
            diff@ == pr_diff(fs.take(i as int)),
        decreases files@.len() - i,
    {
        let entry = &files[i];
        proof {
            assert(fs.take(i + 1).drop_last() =~= fs.take(i as int));
            assert(fs.take(i + 1).last() == changed_view(*entry));
        }
        if !should_skip_file(entry.filename.as_str()) {
            match &entry.patch {
                Some(patch) => {
                    let ghost before = diff@;
                    push_str(&mut diff, "\n\n# File: ");
                    push_str(&mut diff, entry.filename.as_str());
                    push_char(&mut diff, '\n');
                    push_str(&mut diff, patch.as_str());
                    proof {
                        assert(diff@ =~= before + "\n\n# File: "@ + entry.filename@ + seq!['\n'] + patch@);
                    }
                },
                None => {},
            }
        }
        i = i + 1;
    }
    proof {
        assert(fs.take(files@.len() as int) =~= fs);
    }
    diff
}

/// The names of the files a pull request's diff is built from: those that are
/// reviewed and have a patch, in order.
pub open spec fn reviewed_names(files: Seq<(Seq<char>, Option<Seq<char>>)>) -> Seq<Seq<char>>
    decreases files.len(),
{
    if files.len() == 0 {
        seq![]
    } else {
        let rest = reviewed_names(files.drop_last());
        let (name, patch) = files.last();
        if !skipped_file(name) && patch is Some {
            rest.push(name)
        } else {
            rest
        }
    }
}

/// A changed file whose name and patch leave the diff's headers intact: a
/// one-line name without surrounding whitespace, and no patch line that reads
/// as a `# File: ` header.
pub open spec fn plain_entry(f: (Seq<char>, Option<Seq<char>>)) -> bool {
    &&& !f.0.contains('\n')
    &&& crate::text::trim(f.0) == f.0
    &&& f.1 matches Some(p) ==> forall|i: int|
        0 <= i < lines(p).len() ==> !crate::text::starts_with(#[trigger] lines(p)[i], file_marker())
}

/// Law of the diff's headers: reading back the `# File: ` headers of the diff
/// assembled from a pull request's files (what `extract_modified_files` does)
/// gives the reviewed files that have a patch, in order, provided no name or
/// patch line could be taken for a header.
pub proof fn law_diff_headers_round_trip(files: Seq<(Seq<char>, Option<Seq<char>>)>)
    requires
        forall|i: int| 0 <= i < files.len() && !skipped_file(#[trigger] files[i].0) && files[i].1 is Some
            ==> plain_entry(files[i]),
    ensures
        header_names(lines(pr_diff(files))) == reviewed_names(files),
    decreases files.len(),
{
    if files.len() > 0 {
        let init = files.drop_last();
        assert forall|i: int| 0 <= i < init.len() && !skipped_file(#[trigger] init[i].0) && init[i].1 is Some
            implies plain_entry(init[i]) by {
            assert(init[i] == files[i]);
        }
        law_diff_headers_round_trip(init);
        let (name, patch) = files.last();
        if !skipped_file(name) && patch is Some {
            let p = patch->0;
            assert(plain_entry(files[files.len() - 1]));
            let r = pr_diff(init);
            let h = file_marker() + name;
            reveal_strlit("\n\n# File: ");
            assert(pr_diff(files) =~= r + seq!['\n'] + (Seq::<char>::empty() + seq!['\n'] + (h
                + seq!['\n'] + p)));
            lemma_header_names_lines_concat(r, Seq::<char>::empty() + seq!['\n'] + (h + seq!['\n'] + p));
            lemma_header_names_lines_concat(Seq::<char>::empty(), h + seq!['\n'] + p);
            lemma_header_names_lines_concat(h, p);
            assert(lines(Seq::<char>::empty()) == Seq::<Seq<char>>::empty());
            assert forall|i: int| 0 <= i < h.len() implies h[i] != '\n' by {
                if i >= 8 {
                    assert(h[i] == name[i - 8]);
                    assert(name.contains(name[i - 8]));
                }
            }
            crate::text::lemma_index_of_char_at(h, '\n', h.len() as int);
            assert(lines(h) == seq![h]);
            lemma_header_names_single(h);
            assert(h.take(8) =~= file_marker());
            assert(h.skip(8) =~= name);
            lemma_no_headers(lines(p));
            assert(header_names(lines(pr_diff(files))) =~= header_names(lines(r)) + seq![name]);
        }
    }
}

/// A reviewed file that adds exactly one `"\n\n# File:"` separator to the
/// diff: its name is one line, and its patch, with the line break before it,
/// holds no separator of its own.
pub open spec fn single_separator_entry(f: (Seq<char>, Option<Seq<char>>)) -> bool {
    &&& !f.0.contains('\n')
    &&& f.1 matches Some(p) ==> !crate::text::contains(seq!['\n'] + p, file_separator())
}

/// No `"\n\n# File:"` separator runs across the end of `r` when a separator
/// follows it.
pub proof fn lemma_no_separator_across(r: Seq<char>, t: Seq<char>)
    ensures
        forall|q: int| q < r.len() < q + file_separator().len() ==> !occurs_at(r + (file_separator() + t), file_separator(), q),
{
    let sep = file_separator();
    let whole = r + (sep + t);
    assert forall|q: int| q < r.len() < q + sep.len() implies !occurs_at(whole, sep, q) by {
        if occurs_at(whole, sep, q) {
            let k = r.len() - q;
            assert(whole.subrange(q, q + sep.len())[k] == sep[k]);
            assert(whole[r.len() as int] == '\n');
            assert(k == 1);
            assert(whole.subrange(q, q + sep.len())[2] == sep[2]);
            assert(whole[r.len() as int + 1] == '\n');
        }
    }
}

/// What follows a file's separator (a space, its one-line name, a line break
/// and its patch) holds no separator unless the patch, with that line break,
/// does.
pub proof fn lemma_entry_tail_has_no_separator(name: Seq<char>, p: Seq<char>)
    requires
        !name.contains('\n'),
        !crate::text::contains(seq!['\n'] + p, file_separator()),
    ensures
        !crate::text::contains(seq![' '] + name + seq!['\n'] + p, file_separator()),
{
    let sep = file_separator();
    let t = seq![' '] + name + seq!['\n'] + p;
    if crate::text::contains(t, sep) {
        let q = choose|q: int| occurs_at(t, sep, q);
        let u = seq!['\n'] + p;
        let off = 1 + name.len();
        assert(t.subrange(q, q + sep.len())[0] == '\n');
        assert(t[q] == '\n');
        assert(q >= off) by {
            if q < off {
                if q == 0 {
                    assert(t[0] == ' ');
                } else {
                    assert(t[q] == name[q - 1]);
                    assert(name.contains(name[q - 1]));
                }
            }
        }
        assert(t.subrange(q, q + sep.len()) =~= u.subrange(q - off, q - off + sep.len()));
        assert(occurs_at(u, sep, q - off));
    }
}

/// Law of the review strategy: the diff assembled from a pull request's files
/// announces (`"\n\n# File:"` separators, counted as `str::matches` does) one
/// file per reviewed file with a patch, so it is reviewed in a single round
/// exactly when at most one such file changed; provided no name or patch
/// adds a separator of its own.
pub proof fn law_diff_announces_reviewed_files(files: Seq<(Seq<char>, Option<Seq<char>>)>)
    requires
        forall|i: int| 0 <= i < files.len() && !skipped_file(#[trigger] files[i].0) && files[i].1 is Some
            ==> single_separator_entry(files[i]),
    ensures
        match_positions(pr_diff(files), file_separator(), 0).len() == reviewed_names(files).len(),
        crate::review::is_single_file(pr_diff(files)) == (reviewed_names(files).len() <= 1),
    decreases files.len(),
{
    let sep = file_separator();
    if files.len() == 0 {
        assert(match_positions(Seq::<char>::empty(), sep, 0) =~= Seq::<int>::empty());
    } else {
        let init = files.drop_last();
        assert forall|i: int| 0 <= i < init.len() && !skipped_file(#[trigger] init[i].0) && init[i].1 is Some
            implies single_separator_entry(init[i]) by {
            assert(init[i] == files[i]);
        }
        law_diff_announces_reviewed_files(init);
        let (name, patch) = files.last();
        if !skipped_file(name) && patch is Some {
            let p = patch->0;
            assert(single_separator_entry(files[files.len() - 1]));
            let r = pr_diff(init);
            let t = seq![' '] + name + seq!['\n'] + p;
            let tail = sep + t;
            reveal_strlit("\n\n# File: ");
            assert(pr_diff(files) =~= r + tail);
            lemma_no_separator_across(r, t);
            lemma_match_positions_concat(r, tail, sep, 0);
            assert(tail.subrange(0, sep.len() as int) =~= sep);
            lemma_match_positions_shift(sep, t, sep, 0);
            lemma_entry_tail_has_no_separator(name, p);
            lemma_no_match_positions(t, sep);
            assert(shift_positions(Seq::<int>::empty(), sep.len() as int) =~= Seq::<int>::empty());
            assert(match_positions(tail, sep, 0) =~= seq![0int]);
        }
    }
}

/// The reviewed files of a pull request that have a patch: name and patch,
/// in order.
pub open spec fn reviewed_entries(files: Seq<(Seq<char>, Option<Seq<char>>)>) -> Seq<(Seq<char>, Seq<char>)>
    decreases files.len(),
{
    if files.len() == 0 {
        seq![]
    } else {
        let rest = reviewed_entries(files.drop_last());
        let (name, patch) = files.last();
        if !skipped_file(name) && patch is Some {
            rest.push((name, patch->0))
        } else {
            rest
        }
    }
}

/// The section `split_diff_by_file` gives for the `i`-th reviewed file: its
/// name, and from the header's line break on, its patch, followed by the blank
/// line before the next header when there is one.
pub open spec fn entry_section(es: Seq<(Seq<char>, Seq<char>)>, i: int) -> (Seq<char>, Seq<char>) {
    (
        es[i].0,
        seq!['\n'] + es[i].1 + if i + 1 < es.len() {
            seq!['\n', '\n']
        } else {
            Seq::<char>::empty()
        },
    )
}

/// A reviewed file that survives splitting unchanged: a one-line name without
/// surrounding whitespace, and no `# File: ` marker in its name or patch.
pub open spec fn splittable_entry(f: (Seq<char>, Option<Seq<char>>)) -> bool {
    &&& !f.0.contains('\n')
    &&& crate::text::trim(f.0) == f.0
    &&& !crate::text::contains(f.0, file_marker())
    &&& f.1 matches Some(p) ==> !crate::text::contains(p, file_marker())
}

/// A `# File: ` header for `name` starts at `p` in `d` and its line ends
/// right after the name.
pub open spec fn header_at(d: Seq<char>, p: int, name: Seq<char>) -> bool {
    &&& occurs_at(d, file_marker(), p)
    &&& p + 8 + name.len() < d.len()
    &&& d.subrange(p + 8, p + 8 + name.len()) == name
    &&& d[p + 8 + name.len()] == '\n'
}

/// A header line ends at the line break right after a one-line name.
pub proof fn lemma_header_end(d: Seq<char>, p: int, name: Seq<char>)
    requires
        header_at(d, p, name),
        !name.contains('\n'),
    ensures
        header_end(d, p) == p + 8 + name.len(),
{
    let rest = d.skip(p + 8);
    assert forall|i: int| 0 <= i < name.len() implies rest[i] != '\n' by {
        assert(rest[i] == d.subrange(p + 8, p + 8 + name.len())[i]);
        assert(name.contains(name[i]));
    }
    crate::text::lemma_index_of_char_at(rest, '\n', name.len() as int);
}

/// No `# File: ` marker in a name or a patch means none in the name, a line
/// break and the patch.
pub proof fn lemma_no_marker_in_entry_body(name: Seq<char>, p: Seq<char>)
    requires
        !crate::text::contains(name, file_marker()),
        !crate::text::contains(p, file_marker()),
    ensures
        !crate::text::contains(name + seq!['\n'] + p, file_marker()),
{
    let m = file_marker();
    let body = name + seq!['\n'] + p;
    if crate::text::contains(body, m) {
        let q = choose|q: int| occurs_at(body, m, q);
        if q + 8 <= name.len() {
            assert(body.subrange(q, q + 8) =~= name.subrange(q, q + 8));
            assert(occurs_at(name, m, q));
        } else if q > name.len() {
            assert(body.subrange(q, q + 8) =~= p.subrange(q - name.len() - 1, q - name.len() + 7));
            assert(occurs_at(p, m, q - name.len() - 1));
        } else {
            lemma_marker_has_no_newline();
            let k = name.len() - q;
            assert(body.subrange(q, q + 8)[k] == m[k]);
            assert(body[name.len() as int] == '\n');
        }
    }
}

/// Where the headers and sections of the assembled diff lie: one header per
/// reviewed file, in order, each followed by its patch and, before the next
/// header, a blank line.
pub proof fn lemma_pr_diff_layout(files: Seq<(Seq<char>, Option<Seq<char>>)>)
    requires
        forall|i: int| 0 <= i < files.len() && !skipped_file(#[trigger] files[i].0) && files[i].1 is Some
            ==> splittable_entry(files[i]),
    ensures
        ({
            let d = pr_diff(files);
            let ps = section_starts(d);
            let es = reviewed_entries(files);
            &&& ps.len() == es.len()
            &&& es.len() == 0 ==> d.len() == 0
            &&& forall|i: int| 0 <= i < es.len() ==> header_at(d, #[trigger] ps[i], es[i].0)
            &&& forall|i: int| 0 <= i < es.len() ==> !(#[trigger] es[i]).0.contains('\n')
            &&& forall|i: int| 0 <= i < es.len() ==> crate::text::trim((#[trigger] es[i]).0) == es[i].0
            &&& forall|i: int| 0 <= i < es.len() - 1 ==> ps[i] + 8 + es[i].0.len() < #[trigger] ps[i + 1]
            &&& forall|i: int| 0 <= i < es.len() - 1 ==> d.subrange(ps[i] + 8 + es[i].0.len(), #[trigger] ps[i + 1])
                == seq!['\n'] + es[i].1 + seq!['\n', '\n']
            &&& es.len() > 0 ==> d.subrange(ps[es.len() - 1] + 8 + es[es.len() - 1].0.len(), d.len() as int)
                == seq!['\n'] + es[es.len() - 1].1
        }),
    decreases files.len(),
{
    if files.len() > 0 {
        let init = files.drop_last();
        assert forall|i: int| 0 <= i < init.len() && !skipped_file(#[trigger] init[i].0) && init[i].1 is Some
            implies splittable_entry(init[i]) by {
            assert(init[i] == files[i]);
        }
        lemma_pr_diff_layout(init);
        let (name, patch) = files.last();
        if !skipped_file(name) && patch is Some {
            assert(splittable_entry(files[files.len() - 1]));
            lemma_pr_diff_layout_step(init, name, patch->0);
            assert(files =~= init.push((name, Some(patch->0))));
        } else {
            assert(pr_diff(files) == pr_diff(init));
            assert(reviewed_entries(files) == reviewed_entries(init));
        }
    }
}

/// One reviewed file appended to the assembled diff keeps the layout.
proof fn lemma_pr_diff_layout_step(init: Seq<(Seq<char>, Option<Seq<char>>)>, name: Seq<char>, p: Seq<char>)
    requires
        splittable_entry((name, Some(p))),
        !skipped_file(name),
        ({
            let d = pr_diff(init);
            let ps = section_starts(d);
            let es = reviewed_entries(init);
            &&& ps.len() == es.len()
            &&& es.len() == 0 ==> d.len() == 0
            &&& forall|i: int| 0 <= i < es.len() ==> header_at(d, #[trigger] ps[i], es[i].0)
            &&& forall|i: int| 0 <= i < es.len() ==> !(#[trigger] es[i]).0.contains('\n')
            &&& forall|i: int| 0 <= i < es.len() ==> crate::text::trim((#[trigger] es[i]).0) == es[i].0
            &&& forall|i: int| 0 <= i < es.len() - 1 ==> ps[i] + 8 + es[i].0.len() < #[trigger] ps[i + 1]
            &&& forall|i: int| 0 <= i < es.len() - 1 ==> d.subrange(ps[i] + 8 + es[i].0.len(), #[trigger] ps[i + 1])
                == seq!['\n'] + es[i].1 + seq!['\n', '\n']
            &&& es.len() > 0 ==> d.subrange(ps[es.len() - 1] + 8 + es[es.len() - 1].0.len(), d.len() as int)
                == seq!['\n'] + es[es.len() - 1].1
        }),
    ensures
        ({
            let files = init.push((name, Some(p)));
            let d = pr_diff(files);
            let ps = section_starts(d);
            let es = reviewed_entries(files);
            &&& ps.len() == es.len()
            &&& es.len() == 0 ==> d.len() == 0
            &&& forall|i: int| 0 <= i < es.len() ==> header_at(d, #[trigger] ps[i], es[i].0)
            &&& forall|i: int| 0 <= i < es.len() ==> !(#[trigger] es[i]).0.contains('\n')
            &&& forall|i: int| 0 <= i < es.len() ==> crate::text::trim((#[trigger] es[i]).0) == es[i].0
            &&& forall|i: int| 0 <= i < es.len() - 1 ==> ps[i] + 8 + es[i].0.len() < #[trigger] ps[i + 1]
            &&& forall|i: int| 0 <= i < es.len() - 1 ==> d.subrange(ps[i] + 8 + es[i].0.len(), #[trigger] ps[i + 1])
                == seq!['\n'] + es[i].1 + seq!['\n', '\n']
            &&& es.len() > 0 ==> d.subrange(ps[es.len() - 1] + 8 + es[es.len() - 1].0.len(), d.len() as int)
                == seq!['\n'] + es[es.len() - 1].1
        }),
{
    let files = init.push((name, Some(p)));
    assert(files.drop_last() =~= init);
    let m = file_marker();
    let d = pr_diff(init);
    let ps = section_starts(d);
    let es = reviewed_entries(init);
    let n = es.len();
    let body = name + seq!['\n'] + p;
    let head = seq!['\n', '\n'] + m;
    let e = head + body;
    reveal_strlit("\n\n# File: ");
    let d2 = d + e;
    assert(pr_diff(files) =~= d2);
    let es2 = reviewed_entries(files);
    assert(es2 == es.push((name, p)));
    // Where the headers are.
    let h = file_header();
    assert(head =~= h);
    lemma_marker_has_no_newline();
    assert forall|q: int| q < d.len() < q + h.len() implies !occurs_at(d2, h, q) by {
        if occurs_at(d2, h, q) {
            let k = d.len() - q;
            assert(d2.subrange(q, q + h.len())[k] == h[k]);
            assert(d2[d.len() as int] == '\n');
            if k >= 2 {
                assert(h[k] == m[k - 2]);
            }
            assert(k == 1);
            assert(d2.subrange(q, q + h.len())[2] == h[2]);
            assert(d2[d.len() as int + 1] == '\n');
        }
    }
    lemma_match_positions_concat(d, e, h, 0);
    lemma_no_marker_in_entry_body(name, p);
    assert(!crate::text::contains(body, h)) by {
        if crate::text::contains(body, h) {
            let q = choose|q: int| occurs_at(body, h, q);
            assert(body.subrange(q + 2, q + 10) =~= body.subrange(q, q + 10).subrange(2, 10));
            assert(h.subrange(2, 10) =~= m);
            assert(occurs_at(body, m, q + 2));
        }
    }
    lemma_no_match_positions(body, h);
    lemma_match_positions_shift(h, body, h, 0);
    assert(e.subrange(0, 10) =~= h);
    assert(shift_positions(Seq::<int>::empty(), 10) =~= Seq::<int>::empty());
    assert(match_positions(e, h, 0) == seq![0int] + match_positions(e, h, 10));
    assert(match_positions(e, h, 0) =~= seq![0int]);
    assert(shift_positions(seq![0int], d.len() as int) =~= seq![d.len() as int]);
    assert(match_positions(d2, h, 0) =~= match_positions(d, h, 0).push(d.len() as int));
    let ps2 = section_starts(d2);
    assert(ps2 =~= ps.push(d.len() as int + 2));
    // Old headers stay where they were.
    assert forall|i: int| 0 <= i < n implies header_at(d2, #[trigger] ps2[i], es2[i].0) by {
        assert(ps2[i] == ps[i]);
        assert(es2[i] == es[i]);
        assert(header_at(d, ps[i], es[i].0));
        let q = ps[i];
        assert(d2.subrange(q, q + 8) =~= d.subrange(q, q + 8));
        assert(d2.subrange(q + 8, q + 8 + es[i].0.len()) =~= d.subrange(q + 8, q + 8 + es[i].0.len()));
    }
    // The new header.
    let q: int = d.len() as int + 2;
    assert(d2.subrange(q, q + 8) =~= m);
    assert(d2.subrange(q + 8, q + 8 + name.len() as int) =~= name);
    assert(d2[q + 8 + name.len() as int] == '\n');
    assert(header_at(d2, ps2[n as int], es2[n as int].0));
    assert forall|i: int| 0 <= i < es2.len() implies !(#[trigger] es2[i]).0.contains('\n') by {
        if i < n {
            assert(es2[i] == es[i]);
        }
    }
    assert forall|i: int| 0 <= i < es2.len() implies crate::text::trim((#[trigger] es2[i]).0) == es2[i].0 by {
        if i < n {
            assert(es2[i] == es[i]);
        }
    }
    // Sections between headers.
    assert forall|i: int| 0 <= i < es2.len() - 1 implies ps2[i] + 8 + es2[i].0.len() < #[trigger] ps2[i + 1]
        && d2.subrange(ps2[i] + 8 + es2[i].0.len(), ps2[i + 1]) == seq!['\n'] + es2[i].1 + seq!['\n', '\n'] by {
        assert(es2[i] == es[i]);
        assert(ps2[i] == ps[i]);
        let a = ps[i] + 8 + es[i].0.len();
        if i < n - 1 {
            assert(ps2[i + 1] == ps[i + 1]);
            assert(d2.subrange(a, ps[i + 1]) =~= d.subrange(a, ps[i + 1]));
        } else {
            assert(i == n - 1);
            assert(header_at(d, ps[i], es[i].0));
            assert(d2.subrange(a, d.len() as int + 2) =~= d.subrange(a, d.len() as int) + seq!['\n', '\n']);
        }
    }
    assert(d2.subrange(q + 8 + name.len() as int, d2.len() as int) =~= seq!['\n'] + p);
}

/// Law of splitting the assembled diff: when no name or patch could be taken
/// for part of a header, `split_diff_by_file` gives back, from the diff
/// assembled from a pull request's files, in order, one section per
/// reviewed file with a patch: its name, and its patch after the header's line
/// break, followed by the blank line before the next header when there is one.
pub proof fn law_split_recovers_reviewed_files(files: Seq<(Seq<char>, Option<Seq<char>>)>)
    requires
        forall|i: int| 0 <= i < files.len() && !skipped_file(#[trigger] files[i].0) && files[i].1 is Some
            ==> splittable_entry(files[i]),
    ensures
        file_sections(pr_diff(files)) == Seq::new(
            reviewed_entries(files).len(),
            |i: int| entry_section(reviewed_entries(files), i),
        ),
{
    lemma_pr_diff_layout(files);
    let d = pr_diff(files);
    let ps = section_starts(d);
    let es = reviewed_entries(files);
    let n = es.len();
    assert forall|i: int| 0 <= i < n implies header_end(d, #[trigger] ps[i]) == ps[i] + 8 + es[i].0.len() by {
        assert(header_at(d, ps[i], es[i].0));
        assert(!es[i].0.contains('\n'));
        lemma_header_end(d, ps[i], es[i].0);
    }
    let expected = Seq::new(n, |i: int| entry_section(es, i));
    if n == 0 {
        assert(d.len() == 0);
        assert(crate::text::trim(d).len() == 0) by {
            assert(crate::text::trim_start(d) == d);
            assert(crate::text::trim_end(d) == d);
        }
        assert(file_sections(d) =~= expected);
    } else {
        assert(header_at(d, ps[0], es[0].0));
        assert(d.subrange(ps[0], ps[0] + 8)[0] == file_marker()[0]);
        crate::text::lemma_trim_nonempty(d, ps[0]);
        assert forall|i: int| 0 <= i < n implies #[trigger] file_sections(d)[i] == expected[i] by {
            assert(header_end(d, ps[i]) == ps[i] + 8 + es[i].0.len());
            assert(header_at(d, ps[i], es[i].0));
            assert(crate::text::trim(es[i].0) == es[i].0);
            if i + 1 < n {
                assert(section_end(d, ps, i) == ps[i + 1]);
                assert(d.subrange(ps[i] + 8 + es[i].0.len(), ps[i + 1]) == seq!['\n'] + es[i].1 + seq!['\n', '\n']);
            } else {
                assert(section_end(d, ps, i) == d.len());
                assert(seq!['\n'] + es[i].1 + Seq::<char>::empty() =~= seq!['\n'] + es[i].1);
            }
        }
        assert(file_sections(d) =~= expected);
    }
}

/// Lines none of which reads as a header have no header names.
pub proof fn lemma_no_headers(ls: Seq<Seq<char>>)
    requires
        forall|i: int| 0 <= i < ls.len() ==> !crate::text::starts_with(#[trigger] ls[i], file_marker()),
    ensures
        header_names(ls) == Seq::<Seq<char>>::empty(),
    decreases ls.len(),
{
    if ls.len() > 0 {
        let init = ls.drop_last();
        assert forall|i: int| 0 <= i < init.len() implies !crate::text::starts_with(#[trigger] init[i], file_marker()) by {
            assert(init[i] == ls[i]);
        }
        lemma_no_headers(init);
        assert(!crate::text::starts_with(ls[ls.len() - 1], file_marker()));
    }
}

/// The longest comment posted on a pull request, in characters.
pub const MAX_COMMENT_CHARS: usize = 60000;

/// The comment posted for a review: the report, cut after its first
/// `MAX_COMMENT_CHARS` characters.
pub open spec fn comment_text(report: Seq<char>) -> Seq<char> {
    if report.len() <= MAX_COMMENT_CHARS {
        report
    } else {
        report.take(MAX_COMMENT_CHARS as int)
    }
}

/// Laws of the comment body: it is never longer than 60 000 characters, it is
/// always the report's beginning, and a report within the limit is posted
/// whole.
pub proof fn law_comment_text(report: Seq<char>)
    ensures
        comment_text(report).len() <= 60000,
        comment_text(report) == report.take(comment_text(report).len() as int),
        report.len() <= 60000 ==> comment_text(report) == report,
        report.len() > 60000 ==> comment_text(report).len() == 60000,
{
    if report.len() <= MAX_COMMENT_CHARS {
        assert(report.take(report.len() as int) =~= report);
    } else {
        assert(report.take(MAX_COMMENT_CHARS as int).take(60000) =~= report.take(60000));
    }
}

/// The body of the pull-request comment for `report`, within GitHub's limit.
pub fn comment_body(report: &str) -> (res: String)
    ensures
        res@ == comment_text(report@),
{
    let v = chars_of(report);
    let end = if v.len() <= MAX_COMMENT_CHARS { v.len() } else { MAX_COMMENT_CHARS };
    let body = string_of_range(&v, 0, end);
    proof {
        assert(v@.subrange(0, v@.len() as int) =~= v@);
        assert(v@.subrange(0, MAX_COMMENT_CHARS as int) =~= v@.take(MAX_COMMENT_CHARS as int));
    }
    body
}

} // verus!
