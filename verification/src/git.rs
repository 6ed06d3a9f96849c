//! Decisions around the git operations of docgen and of the dirty-file scan.
use vstd::prelude::*;
use crate::text::{is_empty_str, push_str, string_of};

verus! {

/// The paths reported dirty: entries whose status flags are not all clear
/// (`Status::CURRENT`) and that have a path, in order.
pub open spec fn dirty(entries: Seq<(u32, Option<Seq<char>>)>) -> Seq<Seq<char>>
    decreases entries.len(),
{
    if entries.len() == 0 {
        seq![]
    } else {
        let rest = dirty(entries.drop_last());
        let (bits, path) = entries.last();
        if bits != 0 && path is Some {
            rest.push(path->0)
        } else {
            rest
        }
    }
}

/// The status flags and path of a status entry.
pub open spec fn status_view(e: (u32, Option<String>)) -> (u32, Option<Seq<char>>) {
    (
        e.0,
        match e.1 {
            Some(p) => Some(p@),
            None => None,
        },
    )
}

/// The dirty paths among `(status bits, path)` entries of a status scan.
pub fn dirty_paths(entries: &[(u32, Option<String>)]) -> (res: Vec<String>)
    ensures
        crate::text::views(res@) == dirty(entries@.map_values(|e: (u32, Option<String>)| status_view(e))),
{
    let ghost ev = entries@.map_values(|e: (u32, Option<String>)| status_view(e));
    let mut out: Vec<String> = Vec::new();
    let mut i: usize = 0;
    while i < entries.len()
        invariant
            ev == entries@.map_values(|e: (u32, Option<String>)| status_view(e)),
            0 <= i <= entries@.len(),
            crate::text::views(out@) == dirty(ev.take(i as int)),
        decreases entries@.len() - i,
    {
        proof {
            assert(ev.take(i + 1).drop_last() =~= ev.take(i as int));
            assert(ev.take(i + 1).last() == status_view(entries@[i as int]));
        }
        let (bits, path) = &entries[i];
        if *bits != 0 {
            match path {
                Some(p) => {
                    let ghost before = out@;
                    out.push(string_of(p.as_str()));
                    proof {
                        assert(crate::text::views(out@) =~= crate::text::views(before).push(p@));
                    }
                },
                None => {},
            }
        }
        i = i + 1;
    }
    proof {
        assert(ev.take(entries@.len() as int) =~= ev);
    }
    out
}

/// Laws of the dirty-file scan (`dirty_paths`). A single status entry is
/// reported exactly when some status flag is set (any bit pattern other
/// than `Status::CURRENT`, unstaged and untracked changes included) and it
/// has a path; and the scan of two runs of entries is the scan of the first
/// followed by that of the second, so every such entry is reported, in order,
/// and no other.
pub proof fn law_dirty_paths(
    bits: u32,
    path: Option<Seq<char>>,
    a: Seq<(u32, Option<Seq<char>>)>,
    b: Seq<(u32, Option<Seq<char>>)>,
)
    ensures
        dirty(seq![(bits, path)]) == if bits != 0 && path is Some {
            seq![path->0]
        } else {
            Seq::<Seq<char>>::empty()
        },
        dirty(a + b) == dirty(a) + dirty(b),
        forall|i: int|
            0 <= i < a.len() && (#[trigger] a[i]).0 != 0 && a[i].1 is Some ==> dirty(a).contains(a[i].1->0),
        dirty(a).len() <= a.len(),
{
    let one = seq![(bits, path)];
    assert(one.drop_last() =~= Seq::<(u32, Option<Seq<char>>)>::empty());
    assert(one.last() == (bits, path));
    assert(dirty(one.drop_last()) == Seq::<Seq<char>>::empty());
    if bits != 0 && path is Some {
        assert(Seq::<Seq<char>>::empty().push(path->0) =~= seq![path->0]);
    }
    lemma_dirty_concat(a, b);
    lemma_dirty_members(a);
}

proof fn lemma_dirty_concat(a: Seq<(u32, Option<Seq<char>>)>, b: Seq<(u32, Option<Seq<char>>)>)
    ensures
        dirty(a + b) == dirty(a) + dirty(b),
    decreases b.len(),
{
    if b.len() == 0 {
        assert(a + b =~= a);
        assert(dirty(a) + Seq::<Seq<char>>::empty() =~= dirty(a));
    } else {
        lemma_dirty_concat(a, b.drop_last());
        assert((a + b).drop_last() =~= a + b.drop_last());
        assert((a + b).last() == b.last());
        let (bits, path) = b.last();
        if bits != 0 && path is Some {
            assert(dirty(a) + dirty(b) =~= (dirty(a) + dirty(b.drop_last())).push(path->0));
        }
    }
}

proof fn lemma_dirty_members(a: Seq<(u32, Option<Seq<char>>)>)
    ensures
        forall|i: int|
            0 <= i < a.len() && (#[trigger] a[i]).0 != 0 && a[i].1 is Some ==> dirty(a).contains(a[i].1->0),
        dirty(a).len() <= a.len(),
    decreases a.len(),
{
    if a.len() > 0 {
        let init = a.drop_last();
        lemma_dirty_members(init);
        let rest = dirty(init);
        assert forall|i: int|
            0 <= i < a.len() && (#[trigger] a[i]).0 != 0 && a[i].1 is Some implies dirty(a).contains(a[i].1->0) by {
            if i < a.len() - 1 {
                assert(init[i] == a[i]);
                assert(rest.contains(a[i].1->0));
                let j = choose|j: int| 0 <= j < rest.len() && rest[j] == a[i].1->0;
                assert(dirty(a)[j] == rest[j]);
            } else {
                assert(dirty(a)[rest.len() as int] == a[i].1->0);
            }
        }
    }
}

/// The refusal when HEAD does not name a branch.
pub open spec fn detached_head_text() -> Seq<char> {
    "docgen requires a named branch (HEAD is detached)"@
}

/// The branch HEAD names (its shorthand), or the refusal when HEAD is
/// detached (no shorthand, or an empty one).
pub fn named_branch(shorthand: Option<String>) -> (res: Result<String, String>)
    ensures
        match shorthand {
            Some(b) if b@.len() > 0 => res == Ok::<String, String>(b),
            _ => res matches Err(e) && e@ == detached_head_text(),
        },
{
    match shorthand {
        Some(b) => if is_empty_str(b.as_str()) {
            Err(string_of("docgen requires a named branch (HEAD is detached)"))
        } else {
            Ok(b)
        },
        None => Err(string_of("docgen requires a named branch (HEAD is detached)")),
    }
}

/// A `%Y%m%d-%H%M%S` timestamp as chrono writes it: a year of at least four
/// digits (with a sign before years outside 0..=9999), then month and day of
/// two digits each, `-`, and hour, minute and second of two digits each. So
/// it ends with eight digits, `-` and six digits.
pub open spec fn timestamp_text(s: Seq<char>) -> bool {
    &&& s.len() >= 15
    &&& s[s.len() - 7] == '-'
    &&& forall|i: int| s.len() - 15 <= i < s.len() && i != s.len() - 7 ==> crate::text::is_digit(#[trigger] s[i])
}

/// The local time as `%Y%m%d-%H%M%S` (`chrono::Local::now().format(..)`).
/// Trusted: the result has the shape chrono documents for these specifiers
/// (`timestamp_text`); which time it shows depends on the clock and is not
/// stated.
#[verifier::external_body]
fn local_timestamp() -> (res: String)
    ensures
        timestamp_text(res@),
{
    chrono::Local::now().format("%Y%m%d-%H%M%S").to_string()
}

/// The name of the branch docgen commits to, for a timestamp.
pub fn branch_name_for(stamp: &str) -> (res: String)
    ensures
        res@ == "docgen/"@ + stamp@,
{
    let mut s = string_of("docgen/");
    push_str(&mut s, stamp);
    s
}

/// A fresh docgen branch name: `docgen/` and the local time as
/// `%Y%m%d-%H%M%S`.
pub fn docgen_branch_name() -> (res: String)
    ensures
        res@.len() >= 22,
        res@ == "docgen/"@ + res@.skip(7),
        timestamp_text(res@.skip(7)),
{
    let stamp = local_timestamp();
    let name = branch_name_for(stamp.as_str());
    proof {
        reveal_strlit("docgen/");
        assert(name@.skip(7) =~= stamp@);
    }
    name
}

/// The message of the commit that adds the docstrings.
pub open spec fn docstring_commit_text() -> Seq<char> {
    "docs: add docstrings via docgen"@
}

/// The message of the commit that adds the docstrings.
pub fn docstring_commit_message() -> (res: String)
    ensures
        res@ == docstring_commit_text(),
{
    string_of("docs: add docstrings via docgen")
}

/// The message of the merge commit of `branch`.
pub fn merge_commit_message(branch: &str) -> (res: String)
    ensures
        res@ == "docs: merge "@ + branch@,
{
    let mut s = string_of("docs: merge ");
    push_str(&mut s, branch);
    s
}

/// The refusal when merging the docgen branch conflicts.
pub fn merge_conflict_message() -> (res: String)
    ensures
        res@ == "merge conflict detected \u{2014} docgen branch not merged; manual resolution required"@,
{
    string_of("merge conflict detected \u{2014} docgen branch not merged; manual resolution required")
}

} // verus!
