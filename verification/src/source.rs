//! Source files as verification context for a review.
use vstd::prelude::*;
use crate::diff::{file_marker, line_spans, span_views, spans_valid};
use crate::text::{
    chars_of, contains, contains_chars, join, lines, push_char, push_range, push_str,
    starts_with, trim, trim_bounds, views, matches_at, string_of_range,
};

verus! {

/// The trimmed names of the `# File: ` header lines among `ls`, in order.
pub open spec fn header_names(ls: Seq<Seq<char>>) -> Seq<Seq<char>>
    decreases ls.len(),
{
    if ls.len() == 0 {
        seq![]
    } else {
        let rest = header_names(ls.drop_last());
        let l = ls.last();
        if starts_with(l, file_marker()) {
            rest.push(trim(l.skip(8)))
        } else {
            rest
        }
    }
}

/// The header names of two runs of lines are those of the first, then those
/// of the second.
pub proof fn lemma_header_names_concat(a: Seq<Seq<char>>, b: Seq<Seq<char>>)
    ensures
        header_names(a + b) == header_names(a) + header_names(b),
    decreases b.len(),
{
    if b.len() == 0 {
        assert(a + b =~= a);
        assert(header_names(a) + Seq::<Seq<char>>::empty() =~= header_names(a));
    } else {
        lemma_header_names_concat(a, b.drop_last());
        assert((a + b).drop_last() =~= a + b.drop_last());
        assert((a + b).last() == b.last());
        if starts_with(b.last(), file_marker()) {
            assert(header_names(a) + header_names(b) =~= (header_names(a) + header_names(
                b.drop_last(),
            )).push(trim(b.last().skip(8))));
        }
    }
}

/// The header name of a single line, if it is a header.
pub proof fn lemma_header_names_single(l: Seq<char>)
    ensures
        header_names(seq![l]) == if starts_with(l, file_marker()) {
            seq![trim(l.skip(8))]
        } else {
            Seq::<Seq<char>>::empty()
        },
{
    let one = seq![l];
    assert(one.drop_last() =~= Seq::<Seq<char>>::empty());
    assert(one.last() == l);
    assert(header_names(one.drop_last()) == Seq::<Seq<char>>::empty());
    if starts_with(l, file_marker()) {
        assert(header_names(one) == header_names(one.drop_last()).push(trim(l.skip(8))));
        assert(Seq::<Seq<char>>::empty().push(trim(l.skip(8))) =~= seq![trim(l.skip(8))]);
    } else {
        assert(header_names(one) == header_names(one.drop_last()));
    }
}

/// A trailing carriage return does not change a line's header name.
pub proof fn lemma_header_names_strip_cr(l: Seq<char>)
    ensures
        header_names(seq![crate::text::strip_cr(l)]) == header_names(seq![l]),
{
    lemma_header_names_single(l);
    lemma_header_names_single(crate::text::strip_cr(l));
    if l.len() > 0 && l.last() == '\r' {
        let d = l.drop_last();
        if starts_with(l, file_marker()) {
            assert(l.len() >= 9) by {
                if l.len() == 8 {
                    assert(l.take(8)[7] == file_marker()[7]);
                }
            }
            assert(d.take(8) =~= l.take(8));
            assert(d.skip(8) =~= l.skip(8).drop_last());
            crate::text::lemma_trim_drop_last_ws(l.skip(8));
        }
        if starts_with(d, file_marker()) {
            assert(d.take(8) =~= l.take(8));
        }
    }
}

/// The header names of `a`, a newline, then `x` are those of `a`'s lines and
/// of `x`'s lines.
pub proof fn lemma_header_names_lines_concat(a: Seq<char>, x: Seq<char>)
    ensures
        header_names(lines(a + seq!['\n'] + x)) == header_names(lines(a)) + header_names(lines(x)),
    decreases a.len(),
{
    let s = a + seq!['\n'] + x;
    if a.len() == 0 {
        crate::text::lemma_index_of_char_at(s, '\n', 0);
        assert(s.take(0) =~= Seq::<char>::empty());
        assert(s.skip(1) =~= x);
        lemma_header_names_concat(seq![Seq::<char>::empty()], lines(x));
        lemma_header_names_single(Seq::<char>::empty());
        assert(Seq::<Seq<char>>::empty() + header_names(lines(x)) =~= header_names(lines(x)));
    } else {
        crate::text::lemma_index_of_char_bounds(a, '\n');
        let k = crate::text::index_of_char(a, '\n');
        if k < 0 {
            crate::text::lemma_index_of_char_at(s, '\n', a.len() as int);
            assert(s.take(a.len() as int) =~= a);
            assert(s.skip(a.len() as int + 1) =~= x);
            lemma_header_names_concat(seq![crate::text::strip_cr(a)], lines(x));
            lemma_header_names_strip_cr(a);
        } else {
            crate::text::lemma_index_of_char_at(s, '\n', k);
            assert(s.take(k) =~= a.take(k));
            let rest = a.skip(k + 1);
            assert(s.skip(k + 1) =~= rest + seq!['\n'] + x);
            lemma_header_names_lines_concat(rest, x);
            let h = seq![crate::text::strip_cr(a.take(k))];
            lemma_header_names_concat(h, lines(s.skip(k + 1)));
            lemma_header_names_concat(h, lines(rest));
            assert(header_names(h) + (header_names(lines(rest)) + header_names(lines(x))) =~= (
            header_names(h) + header_names(lines(rest))) + header_names(lines(x)));
        }
    }
}

/// Extract modified file paths from a diff string.
/// Parses `# File:` headers added when the diff was fetched.
pub fn extract_modified_files(diff: &str) -> (res: Vec<String>)
    ensures
        views(res@) == header_names(lines(diff@)),
{
    let v = chars_of(diff);
    let spans = line_spans(&v);
    let mut m: Vec<char> = Vec::new();
    m.push('#');
    m.push(' ');
    m.push('F');
    m.push('i');
    m.push('l');
    m.push('e');
    m.push(':');
    m.push(' ');
    proof {
        assert(m@ =~= file_marker());
    }
    let ghost ls = lines(v@);
    let mut out: Vec<String> = Vec::new();
    let mut i: usize = 0;
    while i < spans.len()
        invariant
            m@ == file_marker(),
            spans_valid(v@, spans@),
            span_views(v@, spans@) == ls,
            0 <= i <= spans@.len(),
            views(out@) == header_names(ls.take(i as int)),
        decreases spans@.len() - i,
    {
        let (s, e) = spans[i];
        let ghost l = v@.subrange(s as int, e as int);
        proof {
            assert(ls[i as int] == l);
            assert(ls.take(i + 1).drop_last() =~= ls.take(i as int));
            assert(ls.take(i + 1).last() == l);
        }
        let is_header = e - s >= 8 && matches_at(&v, &m, s);
        proof {
            if e - s >= 8 {
                assert(l.take(8) =~= v@.subrange(s as int, s + 8));
            }
        }
        if is_header {
            let (a, b) = trim_bounds(&v, s + 8, e);
            let name = string_of_range(&v, a, b);
            let ghost old_out = out@;
            out.push(name);
            proof {
                assert(l.skip(8) =~= v@.subrange(s + 8, e as int));
                assert(views(out@) =~= views(old_out).push(name@));
            }
        }
        i = i + 1;
    }
    proof {
        assert(ls.take(spans@.len() as int) =~= ls);
    }
    out
}

/// A path that neither starts at the root (`/` or `\`) nor contains `..`.
pub open spec fn safe_path(path: Seq<char>) -> bool {
    !starts_with(path, seq!['/']) && !starts_with(path, seq!['\\']) && !contains(
        path,
        seq!['.', '.'],
    )
}

/// Returns true if a file path is safe to read (no traversal, no absolute path).
pub fn is_safe_path(path: &str) -> (res: bool)
    ensures
        res == safe_path(path@),
{
    let v = chars_of(path);
    let mut dots: Vec<char> = Vec::new();
    dots.push('.');
    dots.push('.');
    let first_is_root = v.len() > 0 && (v[0] == '/' || v[0] == '\\');
    proof {
        if v@.len() > 0 {
            assert(v@.take(1) =~= seq![v@[0]]);
            if starts_with(v@, seq!['/']) {
                assert(v@.take(1)[0] == '/');
            }
            if starts_with(v@, seq!['\\']) {
                assert(v@.take(1)[0] == '\\');
            }
            if v@[0] == '/' {
                assert(v@.take(1) =~= seq!['/']);
            }
            if v@[0] == '\\' {
                assert(v@.take(1) =~= seq!['\\']);
            }
        }
    }
    let traversal = contains_chars(&v, &dots);
    proof {
        assert(dots@ =~= seq!['.', '.']);
    }
    !first_is_root && !traversal
}

/// Lines of a source file kept as verification context.
pub open spec fn max_source_lines() -> nat {
    1000
}

/// The note that closes a source file cut at `max_source_lines()` lines.
pub open spec fn truncation_note(total: nat) -> Seq<char> {
    "\n\n[... truncated at 1000 lines, "@ + crate::text::decimal(total) + " total ...]"@
}

/// A source file as handed to the model: unchanged up to 1000 lines, otherwise
/// its first 1000 lines joined with `'\n'` and a note with the full count.
pub open spec fn source_excerpt(content: Seq<char>) -> Seq<char> {
    let ls = lines(content);
    if ls.len() > max_source_lines() {
        join(ls.take(max_source_lines() as int), seq!['\n']) + truncation_note(ls.len())
    } else {
        content
    }
}

/// The excerpt of a source file kept for verification (see `source_excerpt`).
pub fn truncate_source(content: &str) -> (res: String)
    ensures
        res@ == source_excerpt(content@),
{
    let v = chars_of(content);
    let spans = line_spans(&v);
    if spans.len() <= 1000 {
        return crate::text::string_of(content);
    }
    let mut out = String::new();
    let mut i: usize = 0;
    let ghost ls = lines(v@);
    while i < 1000
        invariant
            spans@.len() > 1000,
            spans_valid(v@, spans@),
            span_views(v@, spans@) == ls,
            0 <= i <= 1000,
            out@ == join(ls.take(i as int), seq!['\n']),
        decreases 1000 - i,
    {
        let (a, b) = spans[i];
        proof {
            assert(ls[i as int] == v@.subrange(a as int, b as int));
            assert(ls.take(i + 1) =~= ls.take(i as int).push(ls[i as int]));
            crate::text::lemma_join_push(ls.take(i as int), seq!['\n'], ls[i as int]);
            if i == 0 {
                assert(ls.take(0) =~= Seq::<Seq<char>>::empty());
            }
        }
        if i > 0 {
            push_char(&mut out, '\n');
        }
        push_range(&mut out, &v, a, b);
        proof {
            if i == 0 {
                assert(Seq::<char>::empty() + v@.subrange(a as int, b as int) =~= v@.subrange(
                    a as int,
                    b as int,
                ));
            } else {
                assert(out@ =~= join(ls.take(i as int), seq!['\n']) + seq!['\n'] + v@.subrange(
                    a as int,
                    b as int,
                ));
            }
        }
        i = i + 1;
    }
    let ghost body = out@;
    push_str(&mut out, "\n\n[... truncated at 1000 lines, ");
    crate::text::push_decimal(&mut out, spans.len());
    push_str(&mut out, " total ...]");
    proof {
        assert(out@ =~= body + truncation_note(ls.len()));
    }
    out
}


// ---------------------------------------------------------------------------
// Context under a byte budget
// ---------------------------------------------------------------------------

/// The heading of the source-context block.
pub open spec fn context_header() -> Seq<char> {
    "\n\n[SOURCE FILES \u{2014} for verification context, do NOT review unchanged code]\n"@
}

/// `"\n## file: "`.
pub open spec fn entry_open() -> Seq<char> {
    seq!['\n', '#', '#', ' ', 'f', 'i', 'l', 'e', ':', ' ']
}

/// `"\n```\n"`.
pub open spec fn entry_fence() -> Seq<char> {
    seq!['\n', '`', '`', '`', '\n']
}

/// A file's entry in the context block.
pub open spec fn context_entry(name: Seq<char>, content: Seq<char>) -> Seq<char> {
    entry_open() + name + entry_fence() + content + entry_fence()
}

/// The note naming the files left out for lack of budget.
pub open spec fn exclusion_note(excluded: Seq<Seq<char>>) -> Seq<char> {
    "\n[Context budget reached \u{2014} "@ + crate::text::decimal(excluded.len()) + " file(s) excluded: "@
        + join(excluded, seq![',', ' ']) + "]\n"@
}

/// `order` with index `i` placed after every index whose key is at most `keys[i]`
/// and before the trailing indices whose keys are larger (a stable insertion).
pub open spec fn insert_by_key(order: Seq<int>, i: int, keys: Seq<nat>) -> Seq<int>
    decreases order.len(),
{
    if order.len() == 0 {
        seq![i]
    } else if keys[order.last()] <= keys[i] {
        order.push(i)
    } else {
        insert_by_key(order.drop_last(), i, keys).push(order.last())
    }
}

/// The indices `0..n` in the order of a stable sort by `keys`
/// (what `sort_by_key` yields).
pub open spec fn stable_order(keys: Seq<nat>, n: nat) -> Seq<int>
    decreases n,
{
    if n == 0 {
        seq![]
    } else {
        insert_by_key(stable_order(keys, (n - 1) as nat), n - 1, keys)
    }
}

/// The byte length of each file's content: the sort key.
pub open spec fn content_keys(files: Seq<(Seq<char>, Seq<char>)>) -> Seq<nat> {
    files.map_values(|f: (Seq<char>, Seq<char>)| crate::text::byte_len(f.1))
}

/// Output so far, bytes used, files included, names excluded, after offering
/// the files of `order` in turn: a file is left out when it would take the
/// output over `max` bytes and some file is already in.
pub open spec fn budget_fold(files: Seq<(Seq<char>, Seq<char>)>, order: Seq<int>, max: int) -> (
    Seq<char>,
    int,
    nat,
    Seq<Seq<char>>,
)
    decreases order.len(),
{
    if order.len() == 0 {
        (context_header(), crate::text::byte_len(context_header()) as int, 0, seq![])
    } else {
        let (out, used, included, excluded) = budget_fold(files, order.drop_last(), max);
        let f = files[order.last()];
        let e = context_entry(f.0, f.1);
        let n = crate::text::byte_len(e) as int;
        if used + n > max && included > 0 {
            (out, used, included, excluded.push(f.0))
        } else {
            (out + e, used + n, included + 1, excluded)
        }
    }
}

/// What `build_context_with_budget` returns: nothing for no files; otherwise
/// the header, the entries of the files offered smallest first that fit the
/// budget (the first one always does), and a note naming the others.
pub open spec fn context_with_budget(files: Seq<(Seq<char>, Seq<char>)>, max: int) -> Seq<char> {
    if files.len() == 0 {
        seq![]
    } else {
        let (out, _, _, excluded) = budget_fold(
            files,
            stable_order(content_keys(files), files.len()),
            max,
        );
        if excluded.len() > 0 {
            out + exclusion_note(excluded)
        } else {
            out
        }
    }
}

pub proof fn lemma_ascii_byte_len(s: Seq<char>)
    requires
        forall|i: int| 0 <= i < s.len() ==> (s[i] as u32) < 0x80,
    ensures
        crate::text::byte_len(s) == s.len(),
    decreases s.len(),
{
    if s.len() > 0 {
        lemma_ascii_byte_len(s.drop_last());
        crate::text::lemma_byte_len_push(s.drop_last(), s.last());
        assert(s.drop_last().push(s.last()) =~= s);
    }
}

pub proof fn lemma_entry_byte_len(name: Seq<char>, content: Seq<char>)
    ensures
        crate::text::byte_len(context_entry(name, content)) == 20 + crate::text::byte_len(name)
            + crate::text::byte_len(content),
{
    lemma_ascii_byte_len(entry_open());
    lemma_ascii_byte_len(entry_fence());
    crate::text::lemma_byte_len_concat(entry_open(), name);
    crate::text::lemma_byte_len_concat(entry_open() + name, entry_fence());
    crate::text::lemma_byte_len_concat(entry_open() + name + entry_fence(), content);
    crate::text::lemma_byte_len_concat(entry_open() + name + entry_fence() + content, entry_fence());
}

/// Where a stable insertion puts `i`: after the last index whose key is at most `keys[i]`.
pub proof fn lemma_insert_by_key_at(order: Seq<int>, i: int, keys: Seq<nat>, p: int)
    requires
        0 <= p <= order.len(),
        forall|j: int| p <= j < order.len() ==> keys[#[trigger] order[j]] > keys[i],
        p > 0 ==> keys[order[p - 1]] <= keys[i],
    ensures
        insert_by_key(order, i, keys) == order.insert(p, i),
    decreases order.len(),
{
    if order.len() == 0 {
        assert(order.insert(p, i) =~= seq![i]);
    } else if p == order.len() {
        assert(order.insert(p, i) =~= order.push(i));
    } else {
        assert(keys[order[order.len() - 1]] > keys[i]);
        lemma_insert_by_key_at(order.drop_last(), i, keys, p);
        assert(order.drop_last().insert(p, i).push(order.last()) =~= order.insert(p, i));
    }
}

/// The sorted index order, computed by insertion.
fn sorted_order(keys: &Vec<usize>) -> (res: Vec<usize>)
    ensures
        res@.len() == keys@.len(),
        forall|j: int| 0 <= j < res@.len() ==> #[trigger] res@[j] < keys@.len(),
        res@.map_values(|x: usize| x as int) == stable_order(
            keys@.map_values(|k: usize| k as nat),
            keys@.len(),
        ),
{
    let ghost ks = keys@.map_values(|k: usize| k as nat);
    let mut order: Vec<usize> = Vec::new();
    let mut i: usize = 0;
    while i < keys.len()
        invariant
            0 <= i <= keys@.len(),
            ks == keys@.map_values(|k: usize| k as nat),
            order@.len() == i,
            forall|j: int| 0 <= j < order@.len() ==> #[trigger] order@[j] < i,
            order@.map_values(|x: usize| x as int) == stable_order(ks, i as nat),
        decreases keys@.len() - i,
    {
        let mut p = order.len();
        while p > 0 && keys[order[p - 1]] > keys[i]
            invariant
                0 <= p <= order@.len(),
                i < keys@.len(),
                forall|j: int| 0 <= j < order@.len() ==> #[trigger] order@[j] < i,
                forall|j: int| p <= j < order@.len() ==> keys@[#[trigger] order@[j] as int] > keys@[i as int],
            decreases p,
        {
            p = p - 1;
        }
        let ghost old_order = order@;
        order.insert(p, i);
        proof {
            let oi = old_order.map_values(|x: usize| x as int);
            assert(stable_order(ks, (i + 1) as nat) == insert_by_key(stable_order(ks, i as nat), i as int, ks));
            assert forall|j: int| p <= j < oi.len() implies ks[#[trigger] oi[j]] > ks[i as int] by {
                assert(oi[j] == old_order[j] as int);
            }
            if p > 0 {
                assert(oi[p - 1] == old_order[p - 1] as int);
            }
            lemma_insert_by_key_at(oi, i as int, ks, p as int);
            assert(order@.map_values(|x: usize| x as int) =~= oi.insert(p as int, i as int));
            assert forall|j: int| 0 <= j < order@.len() implies #[trigger] order@[j] < i + 1 by {
                if j < p {
                    assert(order@[j] == old_order[j]);
                } else if j > p {
                    assert(order@[j] == old_order[j - 1]);
                }
            }
        }
        i = i + 1;
    }
    order
}

/// `a + b`, or `None` when it does not fit in `usize` (also when either is `None`).
fn add_opt(a: Option<usize>, b: Option<usize>) -> (res: Option<usize>)
    ensures
        res matches Some(r) ==> a matches Some(x) && b matches Some(y) && r == x + y,
        res is None ==> a is None || b is None || (a matches Some(x) && b matches Some(y) && x
            + y > usize::MAX),
{
    match (a, b) {
        (Some(x), Some(y)) => x.checked_add(y),
        _ => None,
    }
}

/// The views of a slice of string pairs.
pub open spec fn file_views(files: Seq<(String, String)>) -> Seq<(Seq<char>, Seq<char>)> {
    files.map_values(|p: (String, String)| (p.0@, p.1@))
}

/// Build source context respecting a character budget.
/// Includes files smallest-first until budget is reached.
#[verifier::rlimit(40)]
pub fn build_context_with_budget(files: &[(String, String)], max_chars: usize) -> (res: String)
    requires
        forall|i: int|
            0 <= i < files@.len() ==> crate::text::byte_len(#[trigger] files@[i].1@) <= usize::MAX,
    ensures
        res@ == context_with_budget(file_views(files@), max_chars as int),
{
    if files.len() == 0 {
        return String::new();
    }
    let ghost fv = file_views(files@);
    let mut keys: Vec<usize> = Vec::new();
    let mut i: usize = 0;
    while i < files.len()
        invariant
            0 <= i <= files@.len(),
            fv == file_views(files@),
            forall|k: int|
                0 <= k < files@.len() ==> crate::text::byte_len(#[trigger] files@[k].1@) <= usize::MAX,
            keys@.map_values(|k: usize| k as nat) == content_keys(fv).take(i as int),
        decreases files@.len() - i,
    {
        let n = files[i].1.as_str().len();
        proof {
            assert(n == crate::text::byte_len(fv[i as int].1));
        }
        let ghost old_keys = keys@;
        keys.push(n);
        proof {
            assert(content_keys(fv)[i as int] == n as nat);
            assert(keys@ =~= old_keys.push(n));
            assert(keys@.map_values(|k: usize| k as nat) =~= old_keys.map_values(|k: usize| k as nat).push(n as nat));
            assert(content_keys(fv).take(i + 1) =~= content_keys(fv).take(i as int).push(n as nat));
        }
        i = i + 1;
    }
    proof {
        assert(content_keys(fv).take(files@.len() as int) =~= content_keys(fv));
    }
    let order = sorted_order(&keys);
    let ghost ord = stable_order(content_keys(fv), fv.len());
    let header = "\n\n[SOURCE FILES \u{2014} for verification context, do NOT review unchanged code]\n";
    let mut out = crate::text::string_of(header);
    let mut used: Option<usize> = crate::text::utf8_len(header);
    let mut included: usize = 0;
    let mut excluded: Vec<String> = Vec::new();
    let mut k: usize = 0;
    while k < order.len()
        invariant
            fv == file_views(files@),
            fv.len() == files@.len(),
            order@.len() == fv.len(),
            forall|j: int| 0 <= j < order@.len() ==> #[trigger] order@[j] < fv.len(),
            order@.map_values(|x: usize| x as int) == ord,
            ord == stable_order(content_keys(fv), fv.len()),
            0 <= k <= order@.len(),
            included <= k,
            ({
                let st = budget_fold(fv, ord.take(k as int), max_chars as int);
                &&& out@ == st.0
                &&& (used matches Some(u) ==> u == st.1)
                &&& (used is None ==> st.1 > usize::MAX)
                &&& included == st.2
                &&& views(excluded@) == st.3
            }),
        decreases order@.len() - k,
    {
        let idx = order[k];
        let name = &files[idx].0;
        let content = &files[idx].1;
        let name_len = crate::text::utf8_len(name.as_str());
        let content_len = crate::text::utf8_len(content.as_str());
        let entry_len = add_opt(add_opt(Some(20), name_len), content_len);
        let ghost prev = budget_fold(fv, ord.take(k as int), max_chars as int);
        proof {
            assert(ord[k as int] == idx as int);
            assert(ord.take(k + 1).drop_last() =~= ord.take(k as int));
            assert(ord.take(k + 1).last() == idx as int);
            assert(fv[idx as int] == (name@, content@));
            lemma_entry_byte_len(name@, content@);
        }
        let over = match (used, entry_len) {
            (Some(u), Some(n)) => n > max_chars || u > max_chars - n,
            _ => true,
        };
        if included > 0 && over {
            let ghost old_ex = excluded@;
            excluded.push(crate::text::string_of(name.as_str()));
            proof {
                assert(views(excluded@) =~= views(old_ex).push(name@));
            }
        } else {
            push_str(&mut out, "\n## file: ");
            push_str(&mut out, name.as_str());
            push_str(&mut out, "\n```\n");
            push_str(&mut out, content.as_str());
            push_str(&mut out, "\n```\n");
            proof {
                reveal_strlit("\n## file: ");
                reveal_strlit("\n```\n");
                assert(out@ =~= prev.0 + context_entry(name@, content@));
            }
            used = add_opt(used, entry_len);
            included = included + 1;
        }
        k = k + 1;
    }
    proof {
        assert(ord.take(order@.len() as int) =~= ord);
    }
    if excluded.len() > 0 {
        let ghost body = out@;
        push_str(&mut out, "\n[Context budget reached \u{2014} ");
        crate::text::push_decimal(&mut out, excluded.len());
        push_str(&mut out, " file(s) excluded: ");
        let names = crate::text::join_strings(&excluded, ", ");
        push_str(&mut out, names.as_str());
        push_str(&mut out, "]\n");
        proof {
            reveal_strlit(", ");
            assert(", "@ =~= seq![',', ' ']);
            assert(out@ =~= body + exclusion_note(views(excluded@)));
        }
    }
    out
}


// ---------------------------------------------------------------------------
// Laws of the budgeted context
// ---------------------------------------------------------------------------

/// `order` is sorted by `keys`, ties kept in increasing index order.
pub open spec fn sorted_stable(order: Seq<int>, keys: Seq<nat>) -> bool {
    forall|a: int, b: int|
        #![trigger order[a], order[b]]
        0 <= a < b < order.len() ==> keys[order[a]] <= keys[order[b]] && (keys[order[a]]
            == keys[order[b]] ==> order[a] < order[b])
}

pub proof fn lemma_insert_by_key(order: Seq<int>, i: int, keys: Seq<nat>)
    requires
        0 <= i < keys.len(),
        sorted_stable(order, keys),
        forall|j: int| 0 <= j < order.len() ==> 0 <= #[trigger] order[j] < i,
    ensures
        ({
            let r = insert_by_key(order, i, keys);
            &&& r.len() == order.len() + 1
            &&& forall|x: int| r.contains(x) <==> (order.contains(x) || x == i)
            &&& forall|j: int| 0 <= j < r.len() ==> 0 <= #[trigger] r[j] <= i
            &&& sorted_stable(r, keys)
        }),
    decreases order.len(),
{
    let r = insert_by_key(order, i, keys);
    if order.len() == 0 {
        assert(r =~= seq![i]);
        assert forall|x: int| r.contains(x) <==> (order.contains(x) || x == i) by {
            if r.contains(x) {
                assert(r[0] == i);
            }
            if x == i {
                assert(r[0] == x);
            }
        }
    } else if keys[order.last()] <= keys[i] {
        assert(r == order.push(i));
        assert forall|x: int| r.contains(x) <==> (order.contains(x) || x == i) by {
            if r.contains(x) {
                let j = choose|j: int| 0 <= j < r.len() && r[j] == x;
                if j < order.len() {
                    assert(order[j] == x);
                }
            }
            if order.contains(x) {
                let j = choose|j: int| 0 <= j < order.len() && order[j] == x;
                assert(r[j] == x);
            }
            if x == i {
                assert(r[order.len() as int] == x);
            }
        }
        assert forall|a: int, b: int| 0 <= a < b < r.len() implies keys[r[a]] <= keys[r[b]] && (
        keys[r[a]] == keys[r[b]] ==> r[a] < r[b]) by {
            if b == order.len() {
                assert(r[b] == i);
                assert(r[a] == order[a]);
                if a < order.len() - 1 {
                    assert(keys[order[a]] <= keys[order[order.len() - 1]]);
                }
            } else {
                assert(r[a] == order[a]);
                assert(r[b] == order[b]);
            }
        }
    } else {
        let init = order.drop_last();
        let last = order.last();
        assert forall|a: int, b: int| 0 <= a < b < init.len() implies keys[init[a]] <= keys[init[b]]
            && (keys[init[a]] == keys[init[b]] ==> init[a] < init[b]) by {
            assert(init[a] == order[a]);
            assert(init[b] == order[b]);
        }
        assert forall|j: int| 0 <= j < init.len() implies 0 <= #[trigger] init[j] < i by {
            assert(init[j] == order[j]);
        }
        lemma_insert_by_key(init, i, keys);
        let inner = insert_by_key(init, i, keys);
        assert(r == inner.push(last));
        assert(0 <= last < i) by {
            assert(order[order.len() - 1] == last);
        }
        assert forall|x: int| r.contains(x) <==> (order.contains(x) || x == i) by {
            if r.contains(x) {
                let j = choose|j: int| 0 <= j < r.len() && r[j] == x;
                if j < inner.len() {
                    assert(inner[j] == x);
                    assert(inner.contains(x));
                    if init.contains(x) {
                        let t = choose|t: int| 0 <= t < init.len() && init[t] == x;
                        assert(order[t] == x);
                    }
                } else {
                    assert(order[order.len() - 1] == x);
                }
            }
            if order.contains(x) {
                let j = choose|j: int| 0 <= j < order.len() && order[j] == x;
                if j < init.len() {
                    assert(init[j] == x);
                    assert(init.contains(x));
                    assert(inner.contains(x));
                    let t = choose|t: int| 0 <= t < inner.len() && inner[t] == x;
                    assert(r[t] == x);
                } else {
                    assert(r[inner.len() as int] == x);
                }
            }
            if x == i {
                assert(inner.contains(i));
                let t = choose|t: int| 0 <= t < inner.len() && inner[t] == i;
                assert(r[t] == x);
            }
        }
        assert forall|j: int| 0 <= j < r.len() implies 0 <= #[trigger] r[j] <= i by {
            if j < inner.len() {
                assert(r[j] == inner[j]);
            }
        }
        assert forall|a: int, b: int| 0 <= a < b < r.len() implies keys[r[a]] <= keys[r[b]] && (
        keys[r[a]] == keys[r[b]] ==> r[a] < r[b]) by {
            if b == inner.len() {
                assert(r[b] == last);
                assert(r[a] == inner[a]);
                assert(inner.contains(inner[a]));
                if inner[a] == i {
                    assert(keys[i] < keys[last]);
                } else {
                    assert(init.contains(inner[a]));
                    let t = choose|t: int| 0 <= t < init.len() && init[t] == inner[a];
                    assert(order[t] == inner[a]);
                    assert(order[order.len() - 1] == last);
                }
            } else {
                assert(r[a] == inner[a]);
                assert(r[b] == inner[b]);
            }
        }
    }
}

/// The stable order is a permutation of `0..n` sorted by key, ties in index order.
pub proof fn lemma_stable_order(keys: Seq<nat>, n: nat)
    requires
        n <= keys.len(),
    ensures
        ({
            let o = stable_order(keys, n);
            &&& o.len() == n
            &&& forall|x: int| o.contains(x) <==> 0 <= x < n
            &&& forall|j: int| 0 <= j < o.len() ==> 0 <= #[trigger] o[j] < n
            &&& sorted_stable(o, keys)
        }),
    decreases n,
{
    if n > 0 {
        lemma_stable_order(keys, (n - 1) as nat);
        let prev = stable_order(keys, (n - 1) as nat);
        lemma_insert_by_key(prev, n - 1, keys);
    }
}

/// The total byte length of the entries of the files of `order`.
pub open spec fn entries_total(files: Seq<(Seq<char>, Seq<char>)>, order: Seq<int>) -> int
    decreases order.len(),
{
    if order.len() == 0 {
        0
    } else {
        entries_total(files, order.drop_last()) + crate::text::byte_len(
            context_entry(files[order.last()].0, files[order.last()].1),
        ) as int
    }
}

/// The entries of the files of `order`, concatenated.
pub open spec fn entries_text(files: Seq<(Seq<char>, Seq<char>)>, order: Seq<int>) -> Seq<char>
    decreases order.len(),
{
    if order.len() == 0 {
        seq![]
    } else {
        entries_text(files, order.drop_last()) + context_entry(
            files[order.last()].0,
            files[order.last()].1,
        )
    }
}

pub proof fn lemma_budget_all_fit(files: Seq<(Seq<char>, Seq<char>)>, order: Seq<int>, max: int)
    requires
        crate::text::byte_len(context_header()) + entries_total(files, order) <= max,
    ensures
        budget_fold(files, order, max) == (
            context_header() + entries_text(files, order),
            crate::text::byte_len(context_header()) + entries_total(files, order),
            order.len(),
            Seq::<Seq<char>>::empty(),
        ),
    decreases order.len(),
{
    if order.len() == 0 {
        assert(context_header() + Seq::<char>::empty() =~= context_header());
    } else {
        lemma_budget_all_fit(files, order.drop_last(), max);
        let f = files[order.last()];
        assert(context_header() + entries_text(files, order.drop_last()) + context_entry(f.0, f.1)
            =~= context_header() + entries_text(files, order));
    }
}

pub proof fn lemma_budget_first_included(files: Seq<(Seq<char>, Seq<char>)>, order: Seq<int>, max: int)
    requires
        order.len() > 0,
    ensures
        ({
            let st = budget_fold(files, order, max);
            let first = context_header() + context_entry(files[order[0]].0, files[order[0]].1);
            &&& st.2 >= 1
            &&& st.0.len() >= first.len()
            &&& st.0.take(first.len() as int) == first
        }),
    decreases order.len(),
{
    let first = context_header() + context_entry(files[order[0]].0, files[order[0]].1);
    if order.len() == 1 {
        assert(order.drop_last() =~= Seq::<int>::empty());
        assert(budget_fold(files, order, max).0 =~= first);
        assert(first.take(first.len() as int) =~= first);
    } else {
        lemma_budget_first_included(files, order.drop_last(), max);
        assert(order.drop_last()[0] == order[0]);
        let prev = budget_fold(files, order.drop_last(), max).0;
        let f = files[order.last()];
        assert((prev + context_entry(f.0, f.1)).take(first.len() as int) =~= prev.take(first.len() as int));
    }
}

/// The total byte length of the entries of the first `n` files, in input order.
pub open spec fn entries_total_upto(files: Seq<(Seq<char>, Seq<char>)>, n: nat) -> int
    decreases n,
{
    if n == 0 {
        0
    } else {
        entries_total_upto(files, (n - 1) as nat) + crate::text::byte_len(
            context_entry(files[n - 1].0, files[n - 1].1),
        ) as int
    }
}

pub proof fn lemma_entries_total_insert(files: Seq<(Seq<char>, Seq<char>)>, order: Seq<int>, i: int, keys: Seq<nat>)
    ensures
        entries_total(files, insert_by_key(order, i, keys)) == entries_total(files, order)
            + crate::text::byte_len(context_entry(files[i].0, files[i].1)),
    decreases order.len(),
{
    let r = insert_by_key(order, i, keys);
    if order.len() == 0 {
        assert(r == seq![i]);
        assert(r.drop_last() =~= Seq::<int>::empty());
        assert(r.last() == i);
        assert(entries_total(files, r.drop_last()) == 0);
        assert(entries_total(files, order) == 0);
        assert(entries_total(files, r) == entries_total(files, r.drop_last()) + crate::text::byte_len(context_entry(files[r.last()].0, files[r.last()].1)));
    } else if keys[order.last()] <= keys[i] {
        assert(r == order.push(i));
        assert(r.drop_last() =~= order);
        assert(r.last() == i);
    } else {
        lemma_entries_total_insert(files, order.drop_last(), i, keys);
        let inner = insert_by_key(order.drop_last(), i, keys);
        assert(r == inner.push(order.last()));
        assert(r.drop_last() =~= inner);
        assert(r.last() == order.last());
    }
}

/// Offering the files in sorted order, their entries add up to the same total
/// as in input order.
pub proof fn lemma_stable_order_total(files: Seq<(Seq<char>, Seq<char>)>, keys: Seq<nat>, n: nat)
    ensures
        entries_total(files, stable_order(keys, n)) == entries_total_upto(files, n),
    decreases n,
{
    if n > 0 {
        lemma_stable_order_total(files, keys, (n - 1) as nat);
        lemma_entries_total_insert(files, stable_order(keys, (n - 1) as nat), n - 1, keys);
    }
}

/// What the fold keeps: its output is as long as the bytes it counts, every
/// file offered is either included or named as excluded, and the output stays
/// within `max` unless it holds a single file.
pub proof fn lemma_budget_fold_accounting(files: Seq<(Seq<char>, Seq<char>)>, order: Seq<int>, max: int)
    ensures
        ({
            let st = budget_fold(files, order, max);
            &&& st.1 == crate::text::byte_len(st.0)
            &&& st.2 + st.3.len() == order.len()
            &&& st.1 <= max || st.2 <= 1
            &&& order.len() > 0 ==> st.2 >= 1 && (st.1 <= max || st.1 == crate::text::byte_len(context_header())
                + crate::text::byte_len(context_entry(files[order[0]].0, files[order[0]].1)))
        }),
    decreases order.len(),
{
    if order.len() > 0 {
        lemma_budget_fold_accounting(files, order.drop_last(), max);
        let prev = budget_fold(files, order.drop_last(), max);
        let f = files[order.last()];
        crate::text::lemma_byte_len_concat(prev.0, context_entry(f.0, f.1));
        if order.len() > 1 {
            assert(order.drop_last()[0] == order[0]);
        }
    }
}

/// Laws of `build_context_with_budget`.
///
/// Files are offered smallest first: the offering order is a permutation of
/// the files sorted by content length, equal lengths in input order. The
/// smallest file is always included, right after the header. Every file is
/// either included or named in the closing note. Each later file is left out
/// (and named in the note, in order) exactly when the bytes used so far plus
/// its entry exceed the budget; otherwise its entry is appended. The header
/// and the included entries stay within the budget, unless the smallest file
/// alone exceeds it; in particular they do whenever the header and the
/// smallest file's entry fit.
/// When the header and all entries fit in the budget, every file is included,
/// smallest first, and none is reported as excluded.
pub proof fn law_build_context_with_budget(files: Seq<(Seq<char>, Seq<char>)>, max: int)
    requires
        files.len() > 0,
    ensures
        ({
            let keys = content_keys(files);
            let o = stable_order(keys, files.len());
            let first = context_header() + context_entry(files[o[0]].0, files[o[0]].1);
            let (body, used, included, excluded) = budget_fold(files, o, max);
            &&& o.len() == files.len()
            &&& forall|x: int| o.contains(x) <==> 0 <= x < files.len()
            &&& sorted_stable(o, keys)
            &&& context_with_budget(files, max).len() >= first.len()
            &&& context_with_budget(files, max).take(first.len() as int) == first
            &&& context_with_budget(files, max) == if excluded.len() > 0 {
                body + exclusion_note(excluded)
            } else {
                body
            }
            &&& included >= 1
            &&& included + excluded.len() == files.len()
            &&& crate::text::byte_len(body) <= max || included == 1
            &&& crate::text::byte_len(context_header()) + crate::text::byte_len(
                context_entry(files[o[0]].0, files[o[0]].1),
            ) <= max ==> crate::text::byte_len(body) <= max
            &&& forall|j: int| 0 < j < files.len() ==> ({
                let before = #[trigger] budget_fold(files, o.take(j), max);
                let after = budget_fold(files, o.take(j + 1), max);
                let e = crate::text::byte_len(context_entry(files[o[j]].0, files[o[j]].1));
                &&& (after.3.len() > before.3.len()) == (before.1 + e > max)
                &&& after.3.len() > before.3.len() ==> after.3 == before.3.push(files[o[j]].0) && after.0 == before.0
                &&& after.3.len() == before.3.len() ==> after.0 == before.0 + context_entry(files[o[j]].0, files[o[j]].1)
            })
            &&& crate::text::byte_len(context_header()) + entries_total_upto(files, files.len()) <= max
                ==> context_with_budget(files, max) == context_header() + entries_text(files, o)
        }),
{
    let keys = content_keys(files);
    lemma_stable_order(keys, files.len());
    let o = stable_order(keys, files.len());
    lemma_budget_first_included(files, o, max);
    lemma_budget_fold_accounting(files, o, max);
    lemma_stable_order_total(files, keys, files.len());
    let st = budget_fold(files, o, max);
    let first = context_header() + context_entry(files[o[0]].0, files[o[0]].1);
    if st.3.len() > 0 {
        assert((st.0 + exclusion_note(st.3)).take(first.len() as int) =~= st.0.take(first.len() as int));
    }
    if crate::text::byte_len(context_header()) + entries_total(files, o) <= max {
        lemma_budget_all_fit(files, o, max);
    }
    assert forall|j: int| 0 < j < files.len() implies ({
        let before = #[trigger] budget_fold(files, o.take(j), max);
        let after = budget_fold(files, o.take(j + 1), max);
        let e = crate::text::byte_len(context_entry(files[o[j]].0, files[o[j]].1));
        &&& (after.3.len() > before.3.len()) == (before.1 + e > max)
        &&& after.3.len() > before.3.len() ==> after.3 == before.3.push(files[o[j]].0) && after.0 == before.0
        &&& after.3.len() == before.3.len() ==> after.0 == before.0 + context_entry(files[o[j]].0, files[o[j]].1)
    }) by {
        let t = o.take(j + 1);
        assert(t.drop_last() =~= o.take(j));
        assert(t.last() == o[j]);
        lemma_budget_fold_accounting(files, o.take(j), max);
        assert(o.take(j)[0] == o[0]);
    }
}

/// Laws of `extract_modified_files` over the diff's lines: a line made of
/// `# File: ` and a name gives that name, trimmed; a line that does not open
/// with `# File: ` gives nothing; and the names of two runs of lines are those
/// of the first, then those of the second, so every header line gives its
/// name, in order.
pub proof fn law_header_names(name: Seq<char>, l: Seq<char>, a: Seq<Seq<char>>, b: Seq<Seq<char>>)
    ensures
        header_names(seq![seq!['#', ' ', 'F', 'i', 'l', 'e', ':', ' '] + name]) == seq![trim(name)],
        !(l.len() >= 8 && l.take(8) == seq!['#', ' ', 'F', 'i', 'l', 'e', ':', ' '])
            ==> header_names(seq![l]) == Seq::<Seq<char>>::empty(),
        header_names(a + b) == header_names(a) + header_names(b),
{
    let h = seq!['#', ' ', 'F', 'i', 'l', 'e', ':', ' '] + name;
    lemma_header_names_single(h);
    assert(h.take(8) =~= file_marker());
    assert(h.skip(8) =~= name);
    lemma_header_names_single(l);
    lemma_header_names_concat(a, b);
}

/// Law of the safe-path check: a path is read only when it does not start
/// with `/` or `\` and holds no `..` anywhere.
pub proof fn law_safe_path(p: Seq<char>)
    ensures
        safe_path(p) == (!(p.len() > 0 && (p[0] == '/' || p[0] == '\\')) && !(exists|i: int|
            0 <= i < p.len() - 1 && p[i] == '.' && #[trigger] p[i + 1] == '.')),
{
    if p.len() > 0 {
        assert(starts_with(p, seq!['/']) == (p[0] == '/')) by {
            if p[0] == '/' {
                assert(p.take(1) =~= seq!['/']);
            }
            if starts_with(p, seq!['/']) {
                assert(p.take(1)[0] == '/');
            }
        }
        assert(starts_with(p, seq!['\\']) == (p[0] == '\\')) by {
            if p[0] == '\\' {
                assert(p.take(1) =~= seq!['\\']);
            }
            if starts_with(p, seq!['\\']) {
                assert(p.take(1)[0] == '\\');
            }
        }
    }
    let dd = seq!['.', '.'];
    if contains(p, dd) {
        let i = choose|i: int| crate::text::occurs_at(p, dd, i);
        assert(p.subrange(i, i + 2)[0] == p[i]);
        assert(p.subrange(i, i + 2)[1] == p[i + 1]);
    }
    if exists|i: int| 0 <= i < p.len() - 1 && p[i] == '.' && #[trigger] p[i + 1] == '.' {
        let i = choose|i: int| 0 <= i < p.len() - 1 && p[i] == '.' && #[trigger] p[i + 1] == '.';
        assert(p.subrange(i, i + 2) =~= dd);
        assert(crate::text::occurs_at(p, dd, i));
    }
}

/// Laws of the source excerpt: a file of at most 1000 lines is kept whole; a
/// longer one keeps exactly its first 1000 lines, joined with line breaks, and
/// ends with a note that names the cut and the total number of lines.
pub proof fn law_source_excerpt(content: Seq<char>)
    ensures
        lines(content).len() <= 1000 ==> source_excerpt(content) == content,
        lines(content).len() > 1000 ==> {
            let e = source_excerpt(content);
            let kept = join(lines(content).take(1000), seq!['\n']);
            &&& e.take(kept.len() as int) == kept
            &&& e.skip(kept.len() as int) == "\n\n[... truncated at 1000 lines, "@ + crate::text::decimal(
                lines(content).len(),
            ) + " total ...]"@
        },
{
    if lines(content).len() > 1000 {
        let kept = join(lines(content).take(1000), seq!['\n']);
        let e = source_excerpt(content);
        assert(e.take(kept.len() as int) =~= kept);
        assert(e.skip(kept.len() as int) =~= truncation_note(lines(content).len()));
    }
}

} // verus!
