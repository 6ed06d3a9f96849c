//! Splitting a pull-request diff into review chunks.
//!
//! A diff is split into lines or into per-file sections, and these are packed
//! greedily into chunks of at most `max_words` whitespace-separated words.
//! The packing is modelled once, by `greedy_groups`, and its laws (nothing is
//! lost or reordered, no group is empty, a group of two or more items respects
//! the word budget, and a new group starts only when the next item would
//! overflow the previous one) are proved for both kinds of chunking.
use vstd::prelude::*;
use crate::text::{
    chars_of, count_words, count_words_in, index_of_char, lemma_index_of_char_bounds, lemma_word_count_prefix, matches_at, occurs_at, push_str, string_of_range, join, lemma_index_of_char_at, lemma_join_push, lines,
    push_char, push_range, strip_cr, trim, trim_bounds, views, word_count,
};

verus! {

// ---------------------------------------------------------------------------
// Greedy packing of weighted items
// ---------------------------------------------------------------------------

/// Sum of the word counts of the items of `g`.
pub open spec fn total_words(g: Seq<Seq<char>>) -> nat
    decreases g.len(),
{
    if g.len() == 0 {
        0
    } else {
        total_words(g.drop_last()) + word_count(g.last())
    }
}

/// The items of all groups, concatenated in order.
pub open spec fn concat_all(gs: Seq<Seq<Seq<char>>>) -> Seq<Seq<char>>
    decreases gs.len(),
{
    if gs.len() == 0 {
        seq![]
    } else {
        concat_all(gs.drop_last()) + gs.last()
    }
}

/// Whether the current group counts as started: by its word total
/// (`by_words`) or by holding any item.
pub open spec fn group_started(cur: Seq<Seq<char>>, by_words: bool) -> bool {
    if by_words {
        total_words(cur) > 0
    } else {
        cur.len() > 0
    }
}

/// Closed groups and the open group after packing `xs` left to right: an item
/// opens a new group when the open one has started and adding the item would
/// take its word total over `max`.
pub open spec fn greedy_state(xs: Seq<Seq<char>>, max: nat, by_words: bool) -> (
    Seq<Seq<Seq<char>>>,
    Seq<Seq<char>>,
)
    decreases xs.len(),
{
    if xs.len() == 0 {
        (seq![], seq![])
    } else {
        let (done, cur) = greedy_state(xs.drop_last(), max, by_words);
        let x = xs.last();
        if group_started(cur, by_words) && total_words(cur) + word_count(x) > max {
            (done.push(cur), seq![x])
        } else {
            (done, cur.push(x))
        }
    }
}

/// The groups of the greedy packing of `xs`.
pub open spec fn greedy_groups(xs: Seq<Seq<char>>, max: nat, by_words: bool) -> Seq<
    Seq<Seq<char>>,
> {
    let (done, cur) = greedy_state(xs, max, by_words);
    if cur.len() > 0 {
        done.push(cur)
    } else {
        done
    }
}

/// The invariants of the packing state.
pub open spec fn greedy_state_inv(
    xs: Seq<Seq<char>>,
    max: nat,
    by_words: bool,
    done: Seq<Seq<Seq<char>>>,
    cur: Seq<Seq<char>>,
) -> bool {
    &&& concat_all(done) + cur == xs
    &&& forall|k: int| 0 <= k < done.len() ==> #[trigger] done[k].len() > 0
    &&& cur.len() == 0 ==> done.len() == 0
    &&& (!by_words || forall|i: int| 0 <= i < xs.len() ==> word_count(#[trigger] xs[i]) > 0)
        ==> {
        &&& forall|k: int|
            0 <= k < done.len() && #[trigger] done[k].len() >= 2 ==> total_words(done[k]) <= max
        &&& cur.len() >= 2 ==> total_words(cur) <= max
        &&& cur.len() > 0 ==> total_words(cur) > 0 || !by_words
    }
    &&& forall|k: int|
        0 <= k < done.len() - 1 ==> total_words(#[trigger] done[k]) + word_count(done[k + 1][0])
            > max
    &&& done.len() > 0 && cur.len() > 0 ==> total_words(done.last()) + word_count(cur[0]) > max
}

pub proof fn lemma_total_words_push(g: Seq<Seq<char>>, x: Seq<char>)
    ensures
        total_words(g.push(x)) == total_words(g) + word_count(x),
{
    assert(g.push(x).drop_last() =~= g);
}

pub proof fn lemma_concat_all_push(gs: Seq<Seq<Seq<char>>>, g: Seq<Seq<char>>)
    ensures
        concat_all(gs.push(g)) == concat_all(gs) + g,
{
    assert(gs.push(g).drop_last() =~= gs);
}

pub proof fn lemma_greedy_state_inv(xs: Seq<Seq<char>>, max: nat, by_words: bool)
    ensures
        greedy_state_inv(xs, max, by_words, greedy_state(xs, max, by_words).0, greedy_state(
            xs,
            max,
            by_words,
        ).1),
    decreases xs.len(),
{
    if xs.len() == 0 {
        assert(concat_all(Seq::<Seq<Seq<char>>>::empty()) + Seq::<Seq<char>>::empty() =~= xs);
    } else {
        let ys = xs.drop_last();
        lemma_greedy_state_inv(ys, max, by_words);
        let (done, cur) = greedy_state(ys, max, by_words);
        let x = xs.last();
        let pos = !by_words || forall|i: int| 0 <= i < xs.len() ==> word_count(#[trigger] xs[i]) > 0;
        if by_words && pos {
            assert forall|i: int| 0 <= i < ys.len() implies word_count(#[trigger] ys[i]) > 0 by {
                assert(ys[i] == xs[i]);
            }
            assert(word_count(xs[xs.len() - 1]) > 0);
        }
        lemma_total_words_push(cur, x);
        if group_started(cur, by_words) && total_words(cur) + word_count(x) > max {
            let done2 = done.push(cur);
            let cur2 = seq![x];
            lemma_concat_all_push(done, cur);
            assert(concat_all(done2) + cur2 =~= concat_all(done) + cur + seq![x]);
            assert(concat_all(done) + cur + seq![x] =~= (concat_all(done) + cur).push(x));
            assert(xs =~= ys.push(x));
            assert(cur.len() > 0);
            assert(total_words(cur2) == word_count(x)) by {
                lemma_total_words_push(Seq::<Seq<char>>::empty(), x);
                assert(Seq::<Seq<char>>::empty().push(x) =~= cur2);
            }
            assert forall|k: int| 0 <= k < done2.len() - 1 implies total_words(
                #[trigger] done2[k],
            ) + word_count(done2[k + 1][0]) > max by {
                if k < done.len() - 1 {
                    assert(done2[k] == done[k]);
                    assert(done2[k + 1] == done[k + 1]);
                } else {
                    assert(done2[k] == done.last());
                    assert(done2[k + 1] == cur);
                }
            }
            assert forall|k: int| 0 <= k < done2.len() implies #[trigger] done2[k].len() > 0 by {
                if k < done.len() {
                    assert(done2[k] == done[k]);
                }
            }
            if pos {
                assert forall|k: int|
                    0 <= k < done2.len() && #[trigger] done2[k].len() >= 2 implies total_words(
                    done2[k],
                ) <= max by {
                    if k < done.len() {
                        assert(done2[k] == done[k]);
                    }
                }
            }
        } else {
            let cur2 = cur.push(x);
            assert(concat_all(done) + cur2 =~= (concat_all(done) + cur).push(x));
            assert(xs =~= ys.push(x));
            if cur.len() > 0 {
                assert(cur2[0] == cur[0]);
            }
            if pos && cur2.len() >= 2 {
                if by_words {
                    assert(total_words(cur) > 0);
                }
            }
        }
    }
}

/// Sum of `total_words` over a concatenation of groups.
pub proof fn lemma_greedy_groups_state(xs: Seq<Seq<char>>, max: nat, by_words: bool)
    ensures
        ({
            let gs = greedy_groups(xs, max, by_words);
            &&& concat_all(gs) == xs
            &&& forall|k: int| 0 <= k < gs.len() ==> #[trigger] gs[k].len() > 0
        }),
{
    lemma_greedy_state_inv(xs, max, by_words);
    let (done, cur) = greedy_state(xs, max, by_words);
    let gs = greedy_groups(xs, max, by_words);
    if cur.len() > 0 {
        lemma_concat_all_push(done, cur);
        assert forall|k: int| 0 <= k < gs.len() implies #[trigger] gs[k].len() > 0 by {
            if k < done.len() {
                assert(gs[k] == done[k]);
            }
        }
    } else {
        assert(concat_all(done) + cur =~= concat_all(done));
    }
}

/// Laws of the greedy packing.
///
/// Packing loses, duplicates and reorders nothing; every group holds at least
/// one item; a group of two or more items stays within the word budget (when
/// groups open by word total, provided every item has a word); and a group is
/// closed only because its first successor would have taken it over budget.
pub proof fn lemma_greedy_groups_laws(xs: Seq<Seq<char>>, max: nat, by_words: bool)
    ensures
        ({
            let gs = greedy_groups(xs, max, by_words);
            &&& concat_all(gs) == xs
            &&& forall|k: int| 0 <= k < gs.len() ==> #[trigger] gs[k].len() > 0
            &&& (!by_words || forall|i: int| 0 <= i < xs.len() ==> word_count(#[trigger] xs[i]) > 0)
                ==> forall|k: int|
                0 <= k < gs.len() && #[trigger] gs[k].len() >= 2 ==> total_words(gs[k]) <= max
            &&& forall|k: int|
                0 <= k < gs.len() - 1 ==> total_words(#[trigger] gs[k]) + word_count(gs[k + 1][0])
                    > max
        }),
{
    lemma_greedy_state_inv(xs, max, by_words);
    lemma_greedy_groups_state(xs, max, by_words);
    let (done, cur) = greedy_state(xs, max, by_words);
    let gs = greedy_groups(xs, max, by_words);
    if cur.len() > 0 {
        assert forall|k: int| 0 <= k < gs.len() - 1 implies total_words(#[trigger] gs[k])
            + word_count(gs[k + 1][0]) > max by {
            if k < done.len() - 1 {
                assert(gs[k] == done[k]);
                assert(gs[k + 1] == done[k + 1]);
            } else {
                assert(gs[k] == done.last());
                assert(gs[k + 1] == cur);
            }
        }
        if !by_words || forall|i: int| 0 <= i < xs.len() ==> word_count(#[trigger] xs[i]) > 0 {
            assert forall|k: int| 0 <= k < gs.len() && #[trigger] gs[k].len() >= 2 implies total_words(
                gs[k],
            ) <= max by {
                if k < done.len() {
                    assert(gs[k] == done[k]);
                }
            }
        }
    }
}

// ---------------------------------------------------------------------------
// Lines of a diff
// ---------------------------------------------------------------------------

/// The text of each span of `v`.
pub open spec fn span_views(v: Seq<char>, spans: Seq<(usize, usize)>) -> Seq<Seq<char>> {
    spans.map_values(|p: (usize, usize)| v.subrange(p.0 as int, p.1 as int))
}

/// Every span lies within `v`.
pub open spec fn spans_valid(v: Seq<char>, spans: Seq<(usize, usize)>) -> bool {
    forall|i: int| 0 <= i < spans.len() ==> #[trigger] spans[i].0 <= spans[i].1 <= v.len()
}

/// Index of the first `'\n'` at or after `from`, or `v.len()`.
fn find_newline(v: &Vec<char>, from: usize) -> (res: usize)
    requires
        from <= v@.len(),
    ensures
        from <= res <= v@.len(),
        res < v@.len() ==> v@[res as int] == '\n',
        forall|i: int| from <= i < res ==> v@[i] != '\n',
        index_of_char(v@.skip(from as int), '\n') == if res < v@.len() {
            res - from
        } else {
            -1
        },
{
    let mut k = from;
    while k < v.len() && v[k] != '\n'
        invariant
            from <= k <= v@.len(),
            forall|i: int| from <= i < k ==> v@[i] != '\n',
        decreases v@.len() - k,
    {
        k = k + 1;
    }
    proof {
        let t = v@.skip(from as int);
        assert forall|i: int| 0 <= i < k - from implies t[i] != '\n' by {
            assert(t[i] == v@[from + i]);
        }
        if k < v@.len() {
            assert(t[k - from] == v@[k as int]);
        }
        lemma_index_of_char_at(t, '\n', k - from);
    }
    k
}

/// The spans of `str::lines` over `v`.
pub fn line_spans(v: &Vec<char>) -> (res: Vec<(usize, usize)>)
    ensures
        spans_valid(v@, res@),
        span_views(v@, res@) == lines(v@),
{
    let mut spans: Vec<(usize, usize)> = Vec::new();
    let mut pos: usize = 0;
    proof {
        assert(v@.skip(0) =~= v@);
    }
    while pos < v.len()
        invariant
            pos <= v@.len(),
            spans_valid(v@, spans@),
            lines(v@) == span_views(v@, spans@) + lines(v@.skip(pos as int)),
        decreases v@.len() - pos,
    {
        let k = find_newline(v, pos);
        let ghost t = v@.skip(pos as int);
        let ghost old_spans = spans@;
        if k == v.len() {
            spans.push((pos, k));
            proof {
                assert(t.len() > 0);
                assert(lines(t) == seq![t]);
                assert(t =~= v@.subrange(pos as int, k as int));
                assert(span_views(v@, spans@) =~= span_views(v@, old_spans).push(t));
                assert(v@.skip(k as int) =~= Seq::<char>::empty());
                assert(lines(v@.skip(k as int)) =~= Seq::<Seq<char>>::empty());
            }
            pos = k;
            proof {
                assert(lines(v@) =~= span_views(v@, spans@) + lines(v@.skip(pos as int)));
            }
        } else {
            let end = if k > pos && v[k - 1] == '\r' {
                k - 1
            } else {
                k
            };
            spans.push((pos, end));
            proof {
                let kk = k - pos;
                assert(t.take(kk) =~= v@.subrange(pos as int, k as int));
                assert(strip_cr(t.take(kk)) =~= v@.subrange(pos as int, end as int));
                assert(t.skip(kk + 1) =~= v@.skip(k + 1));
                assert(lines(t) == seq![strip_cr(t.take(kk))] + lines(t.skip(kk + 1)));
                assert(span_views(v@, spans@) =~= span_views(v@, old_spans).push(
                    v@.subrange(pos as int, end as int),
                ));
            }
            pos = k + 1;
            proof {
                assert(lines(v@) =~= span_views(v@, spans@) + lines(v@.skip(pos as int)));
            }
        }
    }
    proof {
        assert(v@.skip(pos as int) =~= Seq::<char>::empty());
        assert(lines(v@) =~= span_views(v@, spans@));
    }
    spans
}

/// The text of the spans joined with `sep`.
fn join_spans(v: &Vec<char>, spans: &Vec<(usize, usize)>, sep: char) -> (res: String)
    requires
        spans_valid(v@, spans@),
    ensures
        res@ == join(span_views(v@, spans@), seq![sep]),
{
    let mut s = String::new();
    let mut i: usize = 0;
    while i < spans.len()
        invariant
            0 <= i <= spans@.len(),
            spans_valid(v@, spans@),
            s@ == join(span_views(v@, spans@.take(i as int)), seq![sep]),
        decreases spans@.len() - i,
    {
        let (a, b) = spans[i];
        proof {
            let p = v@.subrange(a as int, b as int);
            assert(span_views(v@, spans@.take(i + 1)) =~= span_views(v@, spans@.take(i as int)).push(p));
            lemma_join_push(span_views(v@, spans@.take(i as int)), seq![sep], p);
            if i == 0 {
                assert(span_views(v@, spans@.take(0)) =~= Seq::<Seq<char>>::empty());
            }
        }
        if i > 0 {
            push_char(&mut s, sep);
        }
        push_range(&mut s, v, a, b);
        proof {
            if i == 0 {
                assert(Seq::<char>::empty() + v@.subrange(a as int, b as int) =~= v@.subrange(
                    a as int,
                    b as int,
                ));
            } else {
                assert(s@ =~= join(span_views(v@, spans@.take(i as int)), seq![sep]) + seq![sep]
                    + v@.subrange(a as int, b as int));
            }
        }
        i = i + 1;
    }
    proof {
        assert(spans@.take(spans@.len() as int) =~= spans@);
    }
    s
}

/// The chunks `split_diff_into_chunks` produces: nothing for a blank diff,
/// otherwise the greedy packing of the diff's lines, each group joined with
/// `'\n'`.
pub open spec fn diff_chunks(diff: Seq<char>, max_words: nat) -> Seq<Seq<char>> {
    if trim(diff).len() == 0 {
        seq![]
    } else {
        greedy_groups(lines(diff), max_words, false).map_values(
            |g: Seq<Seq<char>>| join(g, seq!['\n']),
        )
    }
}

/// Split a diff string into chunks capped at `max_words` words per chunk.
///
/// Lines are never split; a line that alone exceeds the cap forms its own chunk.
pub fn split_diff_into_chunks(diff: &str, max_words: usize) -> (res: Vec<String>)
    ensures
        views(res@) == diff_chunks(diff@, max_words as nat),
{
    let v = chars_of(diff);
    let (a, b) = trim_bounds(&v, 0, v.len());
    proof {
        assert(v@.subrange(0, v@.len() as int) =~= diff@);
    }
    if a == b {
        proof {
            assert(v@.subrange(a as int, b as int) =~= Seq::<char>::empty());
        }
        let empty: Vec<String> = Vec::new();
        proof {
            assert(views(empty@) =~= Seq::<Seq<char>>::empty());
        }
        return empty;
    }
    let spans = line_spans(&v);
    let ghost ls = lines(v@);
    let ghost max = max_words as nat;
    let mut chunks: Vec<String> = Vec::new();
    let mut cur: Vec<(usize, usize)> = Vec::new();
    let mut count: usize = 0;
    let mut idx: usize = 0;
    while idx < spans.len()
        invariant
            0 <= idx <= spans@.len(),
            max == max_words as nat,
            spans_valid(v@, spans@),
            span_views(v@, spans@) == ls,
            spans_valid(v@, cur@),
            greedy_state(ls.take(idx as int), max, false).0.map_values(
                |g: Seq<Seq<char>>| join(g, seq!['\n']),
            ) == views(chunks@),
            greedy_state(ls.take(idx as int), max, false).1 == span_views(v@, cur@),
            count == total_words(span_views(v@, cur@)),
            count <= max_words || cur@.len() <= 1,
        decreases spans@.len() - idx,
    {
        let (s, e) = spans[idx];
        let words = count_words(&v, s, e);
        let ghost prev = greedy_state(ls.take(idx as int), max, false);
        let ghost x = v@.subrange(s as int, e as int);
        proof {
            assert(ls[idx as int] == x);
            assert(ls.take(idx + 1).drop_last() =~= ls.take(idx as int));
            assert(ls.take(idx + 1).last() == x);
        }
        if cur.len() > 0 && (count > max_words || words > max_words - count) {
            let joined = join_spans(&v, &cur, '\n');
            let ghost old_chunks = chunks@;
            chunks.push(joined);
            proof {
                assert(views(chunks@) =~= views(old_chunks).push(joined@));
                assert(prev.0.push(prev.1).map_values(|g: Seq<Seq<char>>| join(g, seq!['\n']))
                    =~= prev.0.map_values(|g: Seq<Seq<char>>| join(g, seq!['\n'])).push(
                    join(prev.1, seq!['\n']),
                ));
            }
            cur = Vec::new();
            cur.push((s, e));
            count = words;
            proof {
                assert(greedy_state(ls.take(idx + 1), max, false) == (prev.0.push(prev.1), seq![x]));
                assert(span_views(v@, cur@) =~= seq![x]);
                lemma_total_words_push(Seq::<Seq<char>>::empty(), x);
                assert(Seq::<Seq<char>>::empty().push(x) =~= seq![x]);
            }
        } else {
            let ghost old_cur = cur@;
            cur.push((s, e));
            proof {
                assert(span_views(v@, cur@) =~= span_views(v@, old_cur).push(x));
                lemma_total_words_push(span_views(v@, old_cur), x);
                assert(greedy_state(ls.take(idx + 1), max, false) == (prev.0, prev.1.push(x)));
            }
            count = count + words;
        }
        idx = idx + 1;
    }
    proof {
        assert(ls.take(spans@.len() as int) =~= ls);
    }
    if cur.len() > 0 {
        let joined = join_spans(&v, &cur, '\n');
        let ghost old_chunks = chunks@;
        chunks.push(joined);
        proof {
            let st = greedy_state(ls, max, false);
            assert(views(chunks@) =~= views(old_chunks).push(joined@));
            assert(st.0.push(st.1).map_values(|g: Seq<Seq<char>>| join(g, seq!['\n']))
                =~= st.0.map_values(|g: Seq<Seq<char>>| join(g, seq!['\n'])).push(
                join(st.1, seq!['\n']),
            ));
        }
    }
    proof {
        assert(trim(diff@).len() != 0);
    }
    chunks
}


// ---------------------------------------------------------------------------
// Per-file sections
// ---------------------------------------------------------------------------

/// The header that introduces a file's section in a review diff: `"# File: "`.
pub open spec fn file_marker() -> Seq<char> {
    seq!['#', ' ', 'F', 'i', 'l', 'e', ':', ' ']
}

/// The marker holds no line break.
pub proof fn lemma_marker_has_no_newline()
    ensures
        forall|k: int| 0 <= k < file_marker().len() ==> #[trigger] file_marker()[k] != '\n',
{
    let m = file_marker();
    assert forall|k: int| 0 <= k < m.len() implies #[trigger] m[k] != '\n' by {
        if k == 0 {
        } else if k == 1 {
        } else if k == 2 {
        } else if k == 3 {
        } else if k == 4 {
        } else if k == 5 {
        } else if k == 6 {
        } else {
        }
    }
}

/// The text of a file's section: header, name, newline, body.
pub open spec fn file_section(name: Seq<char>, body: Seq<char>) -> Seq<char> {
    file_marker() + name + seq!['\n'] + body
}

/// The views of a sequence of string pairs.
pub open spec fn pair_views(v: Seq<(String, String)>) -> Seq<(Seq<char>, Seq<char>)> {
    v.map_values(|p: (String, String)| (p.0@, p.1@))
}

/// The chunks `group_files_into_chunks` produces: the greedy packing (by
/// word total) of the files' sections, each group joined with a blank line
/// and trimmed.
pub open spec fn file_chunks(files: Seq<(Seq<char>, Seq<char>)>, max_words: nat) -> Seq<Seq<char>> {
    greedy_groups(
        files.map_values(|p: (Seq<char>, Seq<char>)| file_section(p.0, p.1)),
        max_words,
        true,
    ).map_values(|g: Seq<Seq<char>>| trim(join(g, seq!['\n', '\n'])))
}

/// A file's section always holds the two words of its header.
pub proof fn lemma_section_has_words(name: Seq<char>, body: Seq<char>)
    ensures
        word_count(file_section(name, body)) >= 2,
{
    let m = file_marker();
    assert(word_count(m) == 2) by {
        reveal_with_fuel(word_count, 9);
        assert(m.drop_last() =~= seq!['#', ' ', 'F', 'i', 'l', 'e', ':']);
        assert(m.drop_last().drop_last() =~= seq!['#', ' ', 'F', 'i', 'l', 'e']);
        assert(m.drop_last().drop_last().drop_last() =~= seq!['#', ' ', 'F', 'i', 'l']);
        assert(m.drop_last().drop_last().drop_last().drop_last() =~= seq!['#', ' ', 'F', 'i']);
        assert(m.drop_last().drop_last().drop_last().drop_last().drop_last() =~= seq!['#', ' ', 'F']);
        assert(m.drop_last().drop_last().drop_last().drop_last().drop_last().drop_last() =~= seq!['#', ' ']);
        assert(m.drop_last().drop_last().drop_last().drop_last().drop_last().drop_last().drop_last() =~= seq!['#']);
        assert(seq!['#'].drop_last() =~= Seq::<char>::empty());
    }
    lemma_word_count_prefix(m, name + seq!['\n'] + body);
    assert(file_section(name, body) =~= m + (name + seq!['\n'] + body));
}

/// `"# File: "` as characters.
fn marker_chars() -> (res: Vec<char>)
    ensures
        res@ == file_marker(),
{
    let mut v: Vec<char> = Vec::new();
    v.push('#');
    v.push(' ');
    v.push('F');
    v.push('i');
    v.push('l');
    v.push('e');
    v.push(':');
    v.push(' ');
    proof {
        assert(v@ =~= file_marker());
    }
    v
}

/// A trimmed copy of `s`.
fn trimmed(s: &String) -> (res: String)
    ensures
        res@ == trim(s@),
{
    let v = chars_of(s.as_str());
    let (a, b) = trim_bounds(&v, 0, v.len());
    proof {
        assert(v@.subrange(0, v@.len() as int) =~= s@);
    }
    string_of_range(&v, a, b)
}

/// Group per-file diffs into chunks that respect file boundaries.
/// No file is ever split across chunks. Files exceeding max_words go solo.
pub fn group_files_into_chunks(files: &[(String, String)], max_words: usize) -> (res: Vec<String>)
    ensures
        views(res@) == file_chunks(pair_views(files@), max_words as nat),
{
    let ghost xs = pair_views(files@).map_values(
        |p: (Seq<char>, Seq<char>)| file_section(p.0, p.1),
    );
    let ghost max = max_words as nat;
    let ghost sep = seq!['\n', '\n'];
    let mut chunks: Vec<String> = Vec::new();
    let mut current = String::new();
    let mut current_words: usize = 0;
    let mut n_cur: usize = 0;
    let mut i: usize = 0;
    while i < files.len()
        invariant
            0 <= i <= files@.len(),
            max == max_words as nat,
            sep == seq!['\n', '\n'],
            xs == pair_views(files@).map_values(
                |p: (Seq<char>, Seq<char>)| file_section(p.0, p.1),
            ),
            greedy_state(xs.take(i as int), max, true).0.map_values(
                |g: Seq<Seq<char>>| trim(join(g, sep)),
            ) == views(chunks@),
            greedy_state(xs.take(i as int), max, true).1.len() == n_cur,
            join(greedy_state(xs.take(i as int), max, true).1, sep) == current@,
            current_words == total_words(greedy_state(xs.take(i as int), max, true).1),
            current_words <= max_words || n_cur <= 1,
            n_cur <= i,
            n_cur > 0 ==> current_words > 0,
        decreases files@.len() - i,
    {
        let name = &files[i].0;
        let body = &files[i].1;
        let mut text = String::new();
        push_str(&mut text, "# File: ");
        push_str(&mut text, name.as_str());
        push_char(&mut text, '\n');
        push_str(&mut text, body.as_str());
        let file_words = count_words_in(text.as_str());
        let ghost prev = greedy_state(xs.take(i as int), max, true);
        let ghost x = text@;
        proof {
            reveal_strlit("# File: ");
            assert(x =~= file_section(name@, body@));
            assert(xs[i as int] == x);
            assert(xs.take(i + 1).drop_last() =~= xs.take(i as int));
            assert(xs.take(i + 1).last() == x);
            lemma_section_has_words(name@, body@);
        }
        if current_words > 0 && (current_words > max_words || file_words > max_words - current_words) {
            let t = trimmed(&current);
            let ghost old_chunks = chunks@;
            chunks.push(t);
            proof {
                assert(views(chunks@) =~= views(old_chunks).push(t@));
                assert(prev.0.push(prev.1).map_values(|g: Seq<Seq<char>>| trim(join(g, sep)))
                    =~= prev.0.map_values(|g: Seq<Seq<char>>| trim(join(g, sep))).push(
                    trim(join(prev.1, sep)),
                ));
                assert(greedy_state(xs.take(i + 1), max, true) == (prev.0.push(prev.1), seq![x]));
                lemma_total_words_push(Seq::<Seq<char>>::empty(), x);
                assert(Seq::<Seq<char>>::empty().push(x) =~= seq![x]);
                lemma_join_push(Seq::<Seq<char>>::empty(), sep, x);
            }
            current = text;
            current_words = file_words;
            n_cur = 1;
        } else {
            proof {
                assert(greedy_state(xs.take(i + 1), max, true) == (prev.0, prev.1.push(x)));
                lemma_total_words_push(prev.1, x);
                lemma_join_push(prev.1, sep, x);
            }
            if n_cur > 0 {
                push_str(&mut current, "\n\n");
                proof {
                    reveal_strlit("\n\n");
                }
            }
            push_str(&mut current, text.as_str());
            proof {
                if n_cur == 0 {
                    assert(prev.1 =~= Seq::<Seq<char>>::empty());
                    assert(current@ =~= x);
                }
            }
            current_words = current_words + file_words;
            n_cur = n_cur + 1;
        }
        i = i + 1;
    }
    proof {
        assert(xs.take(files@.len() as int) =~= xs);
    }
    if n_cur > 0 {
        let t = trimmed(&current);
        let ghost old_chunks = chunks@;
        chunks.push(t);
        proof {
            let st = greedy_state(xs, max, true);
            assert(views(chunks@) =~= views(old_chunks).push(t@));
            assert(st.0.push(st.1).map_values(|g: Seq<Seq<char>>| trim(join(g, sep)))
                =~= st.0.map_values(|g: Seq<Seq<char>>| trim(join(g, sep))).push(
                trim(join(st.1, sep)),
            ));
        }
    }
    chunks
}


// ---------------------------------------------------------------------------
// Finding every occurrence of a pattern
// ---------------------------------------------------------------------------

/// The positions `str::matches` reports for `pat` in `s` from `from` on:
/// the first occurrence, then the search resumes just after it.
pub open spec fn match_positions(s: Seq<char>, pat: Seq<char>, from: int) -> Seq<int>
    decreases s.len() - from,
{
    if pat.len() == 0 || from < 0 || from + pat.len() > s.len() {
        seq![]
    } else if occurs_at(s, pat, from) {
        seq![from] + match_positions(s, pat, from + pat.len())
    } else {
        match_positions(s, pat, from + 1)
    }
}

/// The reported positions are occurrences of `pat`, at or after `from`, each
/// at least the pattern's length after the previous one.
pub open spec fn positions_ok(s: Seq<char>, pat: Seq<char>, from: int, ps: Seq<int>) -> bool {
    &&& forall|i: int| 0 <= i < ps.len() ==> from <= #[trigger] ps[i] && occurs_at(s, pat, ps[i])
    &&& forall|i: int| 0 <= i < ps.len() - 1 ==> #[trigger] ps[i] + pat.len() <= ps[i + 1]
}

pub proof fn lemma_match_positions(s: Seq<char>, pat: Seq<char>, from: int)
    requires
        from >= 0,
    ensures
        positions_ok(s, pat, from, match_positions(s, pat, from)),
    decreases s.len() - from,
{
    let all = match_positions(s, pat, from);
    if pat.len() == 0 || from + pat.len() > s.len() {
    } else if occurs_at(s, pat, from) {
        lemma_match_positions(s, pat, from + pat.len());
        let rest = match_positions(s, pat, from + pat.len());
        assert(all == seq![from] + rest);
        assert forall|i: int| 0 <= i < all.len() implies from <= #[trigger] all[i] && occurs_at(
            s,
            pat,
            all[i],
        ) by {
            if i > 0 {
                assert(all[i] == rest[i - 1]);
            }
        }
        assert forall|i: int| 0 <= i < all.len() - 1 implies #[trigger] all[i] + pat.len()
            <= all[i + 1] by {
            assert(all[i + 1] == rest[i]);
            if i > 0 {
                assert(all[i] == rest[i - 1]);
            }
        }
    } else {
        lemma_match_positions(s, pat, from + 1);
        let rest = match_positions(s, pat, from + 1);
        assert(all == rest);
        assert forall|i: int| 0 <= i < all.len() implies from <= #[trigger] all[i] && occurs_at(
            s,
            pat,
            all[i],
        ) by {
            assert(all[i] == rest[i]);
        }
    }
}

/// Positions moved by `d`.
pub open spec fn shift_positions(ps: Seq<int>, d: int) -> Seq<int> {
    ps.map_values(|p: int| p + d)
}

/// Matches found in the part of `x + b` that lies in `b` are those of `b`,
/// moved by `x`'s length.
pub proof fn lemma_match_positions_shift(x: Seq<char>, b: Seq<char>, pat: Seq<char>, j: int)
    requires
        0 <= j,
    ensures
        match_positions(x + b, pat, x.len() + j) == shift_positions(match_positions(b, pat, j), x.len() as int),
    decreases b.len() - j,
{
    let s = x + b;
    let from = x.len() + j;
    if pat.len() == 0 || j + pat.len() > b.len() {
        assert(shift_positions(Seq::<int>::empty(), x.len() as int) =~= Seq::<int>::empty());
    } else {
        assert(s.subrange(from, from + pat.len()) =~= b.subrange(j, j + pat.len()));
        if occurs_at(b, pat, j) {
            lemma_match_positions_shift(x, b, pat, j + pat.len());
            let rest = match_positions(b, pat, j + pat.len());
            assert(shift_positions(seq![j] + rest, x.len() as int) =~= seq![from] + shift_positions(
                rest,
                x.len() as int,
            ));
        } else {
            lemma_match_positions_shift(x, b, pat, j + 1);
        }
    }
}

/// With no occurrence of `pat` across the end of `a`, the matches in `a + b`
/// from `i` on are those in `a` from `i` on, then those of `b` moved past `a`.
pub proof fn lemma_match_positions_concat(a: Seq<char>, b: Seq<char>, pat: Seq<char>, i: int)
    requires
        0 <= i <= a.len(),
        forall|q: int| q < a.len() < q + pat.len() ==> !occurs_at(a + b, pat, q),
    ensures
        match_positions(a + b, pat, i) == match_positions(a, pat, i) + shift_positions(
            match_positions(b, pat, 0),
            a.len() as int,
        ),
    decreases a.len() - i,
{
    let s = a + b;
    if pat.len() == 0 {
        assert(shift_positions(Seq::<int>::empty(), a.len() as int) =~= Seq::<int>::empty());
        assert(Seq::<int>::empty() + Seq::<int>::empty() =~= Seq::<int>::empty());
    } else if i + pat.len() <= a.len() {
        assert(s.subrange(i, i + pat.len()) =~= a.subrange(i, i + pat.len()));
        let tail = shift_positions(match_positions(b, pat, 0), a.len() as int);
        if occurs_at(a, pat, i) {
            lemma_match_positions_concat(a, b, pat, i + pat.len());
            assert(seq![i] + match_positions(a, pat, i + pat.len()) + tail =~= seq![i] + (
            match_positions(a, pat, i + pat.len()) + tail));
        } else {
            lemma_match_positions_concat(a, b, pat, i + 1);
        }
    } else if i == a.len() {
        lemma_match_positions_shift(a, b, pat, 0);
        assert(Seq::<int>::empty() + shift_positions(match_positions(b, pat, 0), a.len() as int)
            =~= shift_positions(match_positions(b, pat, 0), a.len() as int));
    } else {
        if i + pat.len() > s.len() {
            assert(match_positions(b, pat, 0) == Seq::<int>::empty());
            assert(Seq::<int>::empty() + shift_positions(Seq::<int>::empty(), a.len() as int)
                =~= Seq::<int>::empty());
        } else {
            assert(!occurs_at(s, pat, i));
            lemma_match_positions_concat(a, b, pat, i + 1);
        }
    }
}

/// A text in which `pat` does not occur has no match.
pub proof fn lemma_no_match_positions(s: Seq<char>, pat: Seq<char>)
    requires
        !crate::text::contains(s, pat),
    ensures
        match_positions(s, pat, 0) == Seq::<int>::empty(),
{
    lemma_match_positions(s, pat, 0);
    let ps = match_positions(s, pat, 0);
    if ps.len() > 0 {
        assert(occurs_at(s, pat, ps[0]));
    }
}

/// The positions of `str::matches(pat)` in `v`.
pub fn find_all(v: &Vec<char>, pat: &Vec<char>) -> (res: Vec<usize>)
    ensures
        res@.len() == match_positions(v@, pat@, 0).len(),
        forall|i: int| 0 <= i < res@.len() ==> res@[i] as int == #[trigger] match_positions(v@, pat@, 0)[i],
{
    let mut out: Vec<usize> = Vec::new();
    if pat.len() == 0 {
        return out;
    }
    let mut i: usize = 0;
    while i < v.len() && pat.len() <= v.len() - i
        invariant
            pat@.len() > 0,
            i <= v@.len(),
            match_positions(v@, pat@, 0) == out@.map_values(|p: usize| p as int) + match_positions(
                v@,
                pat@,
                i as int,
            ),
        decreases v@.len() - i,
    {
        let ghost old_out = out@;
        if matches_at(v, pat, i) {
            out.push(i);
            proof {
                assert(out@.map_values(|p: usize| p as int) =~= old_out.map_values(|p: usize| p as int).push(i as int));
                assert(match_positions(v@, pat@, i as int) == seq![i as int] + match_positions(v@, pat@, i + pat@.len()));
            }
            i = i + pat.len();
            proof {
                assert(match_positions(v@, pat@, 0) =~= out@.map_values(|p: usize| p as int) + match_positions(v@, pat@, i as int));
            }
        } else {
            i = i + 1;
        }
    }
    proof {
        assert(match_positions(v@, pat@, i as int) =~= Seq::<int>::empty());
        assert(match_positions(v@, pat@, 0) =~= out@.map_values(|p: usize| p as int));
    }
    out
}

/// `"\n\n# File:"`, the separator that precedes each file of a fetched diff.
pub open spec fn file_separator() -> Seq<char> {
    seq!['\n', '\n', '#', ' ', 'F', 'i', 'l', 'e', ':']
}

/// The number of files a fetched diff announces:
/// `diff.matches("\n\n# File:").count()`.
pub fn count_file_markers(diff: &str) -> (res: usize)
    ensures
        res == match_positions(diff@, file_separator(), 0).len(),
{
    let v = chars_of(diff);
    let mut pat: Vec<char> = Vec::new();
    pat.push('\n');
    pat.push('\n');
    let m = marker_chars();
    let mut j: usize = 0;
    while j < 7
        invariant
            0 <= j <= 7,
            m@ == file_marker(),
            pat@ == seq!['\n', '\n'] + file_marker().take(j as int),
        decreases 7 - j,
    {
        pat.push(m[j]);
        proof {
            assert(file_marker().take(j + 1) =~= file_marker().take(j as int).push(file_marker()[j as int]));
        }
        j = j + 1;
    }
    proof {
        assert(pat@ =~= file_separator());
    }
    find_all(&v, &pat).len()
}

/// End of the header line of the section whose marker is at `p`: the
/// position of the next `'\n'`, or the end of `s`.
pub open spec fn header_end(s: Seq<char>, p: int) -> int {
    let k = index_of_char(s.skip(p + 8), '\n');
    if k < 0 {
        s.len() as int
    } else {
        p + 8 + k
    }
}

/// `"\n\n# File: "`: a file header opens a line that follows a blank line.
pub open spec fn file_header() -> Seq<char> {
    seq!['\n', '\n'] + file_marker()
}

/// The positions of the `"# File: "` markers of `s` that open a file header
/// (`"\n\n# File: "`, matched as `str::matches` does); a marker elsewhere, as
/// inside an added line, starts no section.
pub open spec fn section_starts(s: Seq<char>) -> Seq<int> {
    match_positions(s, file_header(), 0).map_values(|q: int| q + 2)
}

/// Each section start is a marker, at least one marker's length after the
/// previous one.
pub proof fn lemma_section_starts(s: Seq<char>)
    ensures
        positions_ok(s, file_marker(), 0, section_starts(s)),
        forall|k: int| 0 <= k < section_starts(s).len() ==> #[trigger] section_starts(s)[k] >= 2,
{
    let h = file_header();
    lemma_match_positions(s, h, 0);
    let hs = match_positions(s, h, 0);
    let ss = section_starts(s);
    assert forall|k: int| 0 <= k < ss.len() implies 0 <= #[trigger] ss[k] && occurs_at(s, file_marker(), ss[k]) && ss[k] >= 2 by {
        assert(ss[k] == hs[k] + 2);
        assert(occurs_at(s, h, hs[k]));
        assert(s.subrange(hs[k] + 2, hs[k] + 10) =~= s.subrange(hs[k], hs[k] + 10).subrange(2, 10));
        assert(h.subrange(2, 10) =~= file_marker());
    }
    assert forall|k: int| 0 <= k < ss.len() - 1 implies #[trigger] ss[k] + file_marker().len() <= ss[k + 1] by {
        assert(ss[k] == hs[k] + 2);
        assert(ss[k + 1] == hs[k + 1] + 2);
    }
}

/// The section starts of `v`, computed.
fn section_start_positions(v: &Vec<char>) -> (res: Vec<usize>)
    ensures
        res@.len() == section_starts(v@).len(),
        forall|k: int| 0 <= k < res@.len() ==> res@[k] as int == #[trigger] section_starts(v@)[k],
        positions_ok(v@, file_marker(), 0, section_starts(v@)),
{
    let m = marker_chars();
    let mut h: Vec<char> = Vec::new();
    h.push('\n');
    h.push('\n');
    let mut j: usize = 0;
    while j < 8
        invariant
            0 <= j <= 8,
            m@ == file_marker(),
            h@ == seq!['\n', '\n'] + file_marker().take(j as int),
        decreases 8 - j,
    {
        h.push(m[j]);
        proof {
            assert(file_marker().take(j + 1) =~= file_marker().take(j as int).push(file_marker()[j as int]));
        }
        j = j + 1;
    }
    proof {
        assert(file_marker().take(8) =~= file_marker());
        assert(h@ =~= file_header());
        lemma_match_positions(v@, h@, 0);
        lemma_section_starts(v@);
    }
    let qs = find_all(&v, &h);
    let ghost hs = match_positions(v@, h@, 0);
    let mut out: Vec<usize> = Vec::new();
    let n = v.len();
    let mut i: usize = 0;
    while i < qs.len()
        invariant
            n == v@.len(),
            h@ == file_header(),
            hs == match_positions(v@, h@, 0),
            qs@.len() == hs.len(),
            forall|k: int| 0 <= k < qs@.len() ==> qs@[k] as int == #[trigger] hs[k],
            positions_ok(v@, h@, 0, hs),
            0 <= i <= qs@.len(),
            out@.len() == i,
            forall|k: int| 0 <= k < i ==> out@[k] as int == #[trigger] hs[k] + 2,
        decreases qs@.len() - i,
    {
        proof {
            assert(occurs_at(v@, h@, hs[i as int]));
            assert(h@.len() == 10);
            assert(qs@[i as int] + 10 <= v@.len());
        }
        out.push(qs[i] + 2);
        i = i + 1;
    }
    out
}

/// End of the `i`-th section: the next marker, or the end of `s`.
pub open spec fn section_end(s: Seq<char>, ps: Seq<int>, i: int) -> int {
    if i + 1 < ps.len() {
        ps[i + 1]
    } else {
        s.len() as int
    }
}

/// Each header line ends before the next header's marker starts, so every
/// section's body has a length.
pub open spec fn headers_separated(s: Seq<char>) -> bool {
    let ps = section_starts(s);
    forall|i: int| 0 <= i < ps.len() - 1 ==> header_end(s, #[trigger] ps[i]) <= ps[i + 1]
}

/// The `(filename, body)` pairs of `split_diff_by_file`: for each file header
/// (`"# File: "` opening a line after a blank line), the trimmed rest of its
/// line and the text from the end of that line to the next header's marker.
pub open spec fn file_sections(s: Seq<char>) -> Seq<(Seq<char>, Seq<char>)> {
    if trim(s).len() == 0 {
        seq![]
    } else {
        let ps = section_starts(s);
        Seq::new(
            ps.len(),
            |i: int|
                (
                    trim(s.subrange(ps[i] + 8, header_end(s, ps[i]))),
                    s.subrange(header_end(s, ps[i]), section_end(s, ps, i)),
                ),
        )
    }
}

/// Every header line ends before the next header: the next header opens with
/// a line break, which ends the line of the one before. So any text can be
/// cut into its sections.
pub proof fn lemma_headers_separated(s: Seq<char>)
    ensures
        headers_separated(s),
{
    let h = file_header();
    lemma_match_positions(s, h, 0);
    let hs = match_positions(s, h, 0);
    let ps = section_starts(s);
    assert forall|i: int| 0 <= i < ps.len() - 1 implies header_end(s, #[trigger] ps[i]) <= ps[i + 1] by {
        assert(ps[i] == hs[i] + 2);
        assert(ps[i + 1] == hs[i + 1] + 2);
        assert(occurs_at(s, h, hs[i + 1]));
        assert(s.subrange(hs[i + 1], hs[i + 1] + 10)[0] == h[0]);
        let rest = s.skip(ps[i] + 8);
        let j = hs[i + 1] - (ps[i] + 8);
        assert(rest[j] == '\n');
        crate::text::lemma_index_of_char_bounds(rest, '\n');
    }
}

/// The section whose marker starts at `start` and whose body ends at `body_end`.
fn section_at(v: &Vec<char>, start: usize, body_end: usize) -> (res: (String, String))
    requires
        occurs_at(v@, file_marker(), start as int),
        header_end(v@, start as int) <= body_end <= v@.len(),
    ensures
        res.0@ == trim(v@.subrange(start + 8, header_end(v@, start as int))),
        res.1@ == v@.subrange(header_end(v@, start as int), body_end as int),
{
    let header_start = start + 8;
    let line_end = find_newline(&v, header_start);
    let (ta, tb) = trim_bounds(&v, header_start, line_end);
    let filename = string_of_range(&v, ta, tb);
    let body = string_of_range(&v, line_end, body_end);
    (filename, body)
}

/// Split a diff string into per-file sections.
/// Returns Vec<(filename, file_diff)> parsed from `# File:` headers.
#[verifier::rlimit(50)]
pub fn split_diff_by_file(diff: &str) -> (res: Vec<(String, String)>)
    ensures
        pair_views(res@) == file_sections(diff@),
{
    proof {
        lemma_headers_separated(diff@);
    }
    let v = chars_of(diff);
    let (a, b) = trim_bounds(&v, 0, v.len());
    proof {
        assert(v@.subrange(0, v@.len() as int) =~= diff@);
    }
    let mut results: Vec<(String, String)> = Vec::new();
    if a == b {
        proof {
            assert(pair_views(results@) =~= file_sections(diff@));
        }
        return results;
    }
    let ps = section_start_positions(&v);
    let ghost sec = file_sections(diff@);
    let ghost ss = section_starts(v@);
    let mut idx: usize = 0;
    while idx < ps.len()
        invariant
            v@ == diff@,
            trim(diff@).len() != 0,
            headers_separated(diff@),
            sec == file_sections(diff@),
            ss == section_starts(v@),
            ps@.len() == ss.len(),
            forall|k: int| 0 <= k < ps@.len() ==> ps@[k] as int == #[trigger] ss[k],
            positions_ok(v@, file_marker(), 0, ss),
            0 <= idx <= ps@.len(),
            pair_views(results@) == sec.take(idx as int),
        decreases ps@.len() - idx,
    {
        let start = ps[idx];
        let body_end = if idx + 1 < ps.len() {
            ps[idx + 1]
        } else {
            v.len()
        };
        proof {
            assert(occurs_at(v@, file_marker(), ss[idx as int]));
            if idx + 1 < ps@.len() {
                assert(header_end(v@, ss[idx as int]) <= ss[idx + 1]);
                assert(ss[idx + 1] <= v@.len()) by {
                    assert(occurs_at(v@, file_marker(), ss[idx + 1]));
                }
            } else {
                lemma_index_of_char_bounds(v@.skip(start + 8), '\n');
            }
        }
        let section = section_at(&v, start, body_end);
        let ghost old_results = results@;
        results.push(section);
        proof {
            assert(pair_views(results@) =~= pair_views(old_results).push((section.0@, section.1@)));
            assert(sec[idx as int] == (section.0@, section.1@));
            assert(sec.take(idx + 1) =~= sec.take(idx as int).push(sec[idx as int]));
        }
        idx = idx + 1;
    }
    proof {
        assert(sec.take(ps@.len() as int) =~= sec);
    }
    results
}


// ---------------------------------------------------------------------------
// Laws of chunking
// ---------------------------------------------------------------------------

/// Each group joined with `sep`.
pub open spec fn joined_groups(gs: Seq<Seq<Seq<char>>>, sep: Seq<char>) -> Seq<Seq<char>> {
    gs.map_values(|g: Seq<Seq<char>>| join(g, sep))
}

pub proof fn lemma_join_append(a: Seq<Seq<char>>, b: Seq<Seq<char>>, sep: Seq<char>)
    requires
        a.len() > 0,
        b.len() > 0,
    ensures
        join(a + b, sep) == join(a, sep) + sep + join(b, sep),
    decreases b.len(),
{
    let ab = a + b;
    assert(ab.drop_last() =~= a + b.drop_last());
    assert(ab.last() == b.last());
    if b.len() == 1 {
        assert(b.drop_last() =~= Seq::<Seq<char>>::empty());
        assert(a + b.drop_last() =~= a);
        assert(join(b, sep) == b[0]);
    } else {
        lemma_join_append(a, b.drop_last(), sep);
        assert(join(ab, sep) =~= join(a, sep) + sep + join(b.drop_last(), sep) + sep + b.last());
    }
}

pub proof fn lemma_join_groups(gs: Seq<Seq<Seq<char>>>, sep: Seq<char>)
    requires
        forall|k: int| 0 <= k < gs.len() ==> #[trigger] gs[k].len() > 0,
    ensures
        join(joined_groups(gs, sep), sep) == join(concat_all(gs), sep),
    decreases gs.len(),
{
    if gs.len() > 0 {
        let init = gs.drop_last();
        let g = gs.last();
        assert forall|k: int| 0 <= k < init.len() implies #[trigger] init[k].len() > 0 by {
            assert(init[k] == gs[k]);
        }
        lemma_join_groups(init, sep);
        let jg = joined_groups(gs, sep);
        assert(jg.drop_last() =~= joined_groups(init, sep));
        assert(jg.last() == join(g, sep));
        assert(g.len() > 0) by {
            assert(gs[gs.len() - 1].len() > 0);
        }
        if init.len() == 0 {
            assert(concat_all(init) =~= Seq::<Seq<char>>::empty());
            assert(concat_all(gs) =~= g);
            assert(jg.len() == 1);
        } else {
            assert(init.last().len() > 0) by {
                assert(init[init.len() - 1].len() > 0);
            }
            assert(concat_all(init).len() > 0) by {
                assert(concat_all(init) == concat_all(init.drop_last()) + init.last());
            }
            lemma_join_append(concat_all(init), g, sep);
        }
    }
}

pub proof fn lemma_total_words_at_least_item(g: Seq<Seq<char>>, i: int)
    requires
        0 <= i < g.len(),
    ensures
        total_words(g) >= word_count(g[i]),
    decreases g.len(),
{
    if i < g.len() - 1 {
        lemma_total_words_at_least_item(g.drop_last(), i);
        assert(g.drop_last()[i] == g[i]);
    }
}

/// Every item of every group is among the groups' items taken together.
pub proof fn lemma_concat_all_member(gs: Seq<Seq<Seq<char>>>, k: int, i: int)
    requires
        0 <= k < gs.len(),
        0 <= i < gs[k].len(),
    ensures
        concat_all(gs).contains(gs[k][i]),
    decreases gs.len(),
{
    let c = concat_all(gs.drop_last());
    if k == gs.len() - 1 {
        assert(concat_all(gs)[c.len() + i] == gs[k][i]);
    } else {
        lemma_concat_all_member(gs.drop_last(), k, i);
        assert(gs.drop_last()[k] == gs[k]);
        let j = choose|j: int| 0 <= j < c.len() && c[j] == gs[k][i];
        assert(concat_all(gs)[j] == c[j]);
    }
}

/// The text of sections written back: for each, the marker, the name and the
/// body.
pub open spec fn sections_text(secs: Seq<(Seq<char>, Seq<char>)>) -> Seq<char>
    decreases secs.len(),
{
    if secs.len() == 0 {
        seq![]
    } else {
        sections_text(secs.drop_last()) + file_marker() + secs.last().0 + secs.last().1
    }
}

/// The name part of the `i`-th header line of `s`, as it stands.
pub open spec fn raw_header_name(s: Seq<char>, i: int) -> Seq<char> {
    let ps = section_starts(s);
    s.subrange(ps[i] + 8, header_end(s, ps[i]))
}

/// Law of `split_diff_by_file`: it finds one section per file header, none
/// when there is no header; and when every header names its file without
/// surrounding whitespace, the text before the first header followed by the
/// sections written back (marker, name, body) is the diff itself: nothing is
/// lost, duplicated or moved.
pub proof fn law_split_diff_by_file_reassembles(s: Seq<char>)
    requires
        forall|i: int| 0 <= i < section_starts(s).len() ==> trim(#[trigger] raw_header_name(s, i)) == raw_header_name(s, i),
    ensures
        file_sections(s).len() == section_starts(s).len(),
        section_starts(s).len() > 0 ==> s == s.take(section_starts(s)[0]) + sections_text(file_sections(s)),
{
    let ps = section_starts(s);
    let n = ps.len();
    if n == 0 {
        if trim(s).len() != 0 {
            assert(file_sections(s).len() == 0);
        }
    } else {
        lemma_section_piece(s, 0);
        let secs = file_sections(s);
        lemma_sections_prefix(s, n as int);
        lemma_section_piece(s, n - 1);
        assert(secs.take(n as int) =~= secs);
        assert(s.take(s.len() as int) =~= s);
    }
}

/// Where the `i`-th section lies: its marker, its header line and its body,
/// in order, within `s`.
proof fn lemma_section_piece(s: Seq<char>, i: int)
    requires
        0 <= i < section_starts(s).len(),
    ensures
        ({
            let ps = section_starts(s);
            let p = ps[i];
            let he = header_end(s, p);
            let se = section_end(s, ps, i);
            &&& 0 <= p
            &&& p + 8 <= he <= se <= s.len()
            &&& s.subrange(p, p + 8) == file_marker()
            &&& trim(s).len() > 0
            &&& file_sections(s)[i] == (trim(s.subrange(p + 8, he)), s.subrange(he, se))
            &&& file_sections(s).len() == ps.len()
            &&& i + 1 < ps.len() ==> se == ps[i + 1]
        }),
{
    let ps = section_starts(s);
    lemma_section_starts(s);
    lemma_headers_separated(s);
    let p = ps[i];
    assert(occurs_at(s, file_marker(), p));
    assert(s.subrange(p, p + 8)[0] == file_marker()[0]);
    crate::text::lemma_trim_nonempty(s, p);
    crate::text::lemma_index_of_char_bounds(s.skip(p + 8), '\n');
    if i + 1 < ps.len() {
        assert(header_end(s, p) <= ps[i + 1]);
        assert(occurs_at(s, file_marker(), ps[i + 1]));
    }
}

/// The first `k` sections written back after the text before the first
/// header give the diff up to the end of section `k - 1` (the first header
/// when `k` is 0).
proof fn lemma_sections_prefix(s: Seq<char>, k: int)
    requires
        section_starts(s).len() > 0,
        0 <= k <= section_starts(s).len(),
        forall|i: int| 0 <= i < section_starts(s).len() ==> trim(#[trigger] raw_header_name(s, i)) == raw_header_name(s, i),
    ensures
        ({
            let ps = section_starts(s);
            let end = if k == 0 { ps[0] } else { section_end(s, ps, k - 1) };
            s.take(end) == s.take(ps[0]) + sections_text(file_sections(s).take(k))
        }),
    decreases k,
{
    let ps = section_starts(s);
    let secs = file_sections(s);
    if k == 0 {
        assert(secs.take(0) =~= Seq::<(Seq<char>, Seq<char>)>::empty());
        assert(s.take(ps[0]) + Seq::<char>::empty() =~= s.take(ps[0]));
    } else {
        lemma_sections_prefix(s, k - 1);
        let i = k - 1;
        lemma_section_piece(s, i);
        if i > 0 {
            lemma_section_piece(s, i - 1);
        }
        let p = ps[i];
        let he = header_end(s, p);
        let se = section_end(s, ps, i);
        assert(trim(raw_header_name(s, i)) == raw_header_name(s, i));
        assert(secs.take(k).drop_last() =~= secs.take(i));
        assert(secs.take(k).last() == secs[i]);
        assert(s.take(se) =~= s.take(p) + s.subrange(p, p + 8) + s.subrange(p + 8, he) + s.subrange(he, se));
    }
}

/// Items joined with whitespace hold the words of the items together.
pub proof fn lemma_word_count_join(g: Seq<Seq<char>>, sep: Seq<char>)
    requires
        sep.len() > 0,
        forall|i: int| 0 <= i < sep.len() ==> crate::text::is_ws(#[trigger] sep[i]),
    ensures
        word_count(join(g, sep)) == total_words(g),
    decreases g.len(),
{
    if g.len() == 0 {
        assert(word_count(join(g, sep)) == 0);
    } else if g.len() == 1 {
        assert(g.drop_last() =~= Seq::<Seq<char>>::empty());
        assert(total_words(g.drop_last()) == 0);
        assert(join(g, sep) == g[0]);
        assert(g.last() == g[0]);
    } else {
        lemma_word_count_join(g.drop_last(), sep);
        let j = join(g.drop_last(), sep);
        assert(join(g, sep) == j + sep + g.last());
        assert(crate::text::is_ws(sep[0]));
        crate::text::lemma_word_count_blank(sep);
        crate::text::lemma_word_count_concat(j, sep);
        assert((j + sep).last() == sep[sep.len() - 1]);
        crate::text::lemma_word_count_concat(j + sep, g.last());
    }
}

/// Laws of `split_diff_into_chunks`.
///
/// The chunks are the diff's lines in greedy groups, each joined with `'\n'`:
/// there is at least one; joined with `'\n'` again they give back the diff's
/// lines joined with `'\n'` (no line is lost, split, duplicated or moved);
/// each chunk has exactly the words of its lines; a chunk of two or more lines
/// stays within `max_words`, and when no line exceeds `max_words` no chunk
/// does; and a chunk ends only because the next line would have taken it over
/// `max_words`.
pub proof fn law_split_diff_into_chunks(diff: Seq<char>, max_words: nat)
    requires
        trim(diff).len() > 0,
    ensures
        ({
            let gs = greedy_groups(lines(diff), max_words, false);
            let cs = diff_chunks(diff, max_words);
            &&& cs == joined_groups(gs, seq!['\n'])
            &&& cs.len() > 0
            &&& join(cs, seq!['\n']) == join(lines(diff), seq!['\n'])
            &&& forall|k: int| 0 <= k < gs.len() ==> #[trigger] gs[k].len() > 0
            &&& forall|k: int| 0 <= k < cs.len() ==> word_count(#[trigger] cs[k]) == total_words(gs[k])
            &&& forall|k: int| 0 <= k < cs.len() && gs[k].len() >= 2 ==> word_count(#[trigger] cs[k]) <= max_words
            &&& (forall|i: int| 0 <= i < lines(diff).len() ==> word_count(#[trigger] lines(diff)[i]) <= max_words)
                ==> forall|k: int| 0 <= k < cs.len() ==> word_count(#[trigger] cs[k]) <= max_words
            &&& forall|k: int| 0 <= k < cs.len() - 1 ==> word_count(#[trigger] cs[k]) + word_count(gs[k + 1][0]) > max_words
        }),
{
    let ls = lines(diff);
    let gs = greedy_groups(ls, max_words, false);
    let cs = diff_chunks(diff, max_words);
    lemma_greedy_groups_laws(ls, max_words, false);
    assert(cs =~= joined_groups(gs, seq!['\n']));
    lemma_join_groups(gs, seq!['\n']);
    assert(ls.len() > 0);
    if gs.len() == 0 {
        assert(concat_all(gs) =~= Seq::<Seq<char>>::empty());
    }
    assert forall|k: int| 0 <= k < cs.len() implies word_count(#[trigger] cs[k]) == total_words(gs[k]) by {
        assert(cs[k] == join(gs[k], seq!['\n']));
        lemma_word_count_join(gs[k], seq!['\n']);
    }
    if forall|i: int| 0 <= i < ls.len() ==> word_count(#[trigger] ls[i]) <= max_words {
        assert forall|k: int| 0 <= k < cs.len() implies word_count(#[trigger] cs[k]) <= max_words by {
            assert(word_count(cs[k]) == total_words(gs[k]));
            if gs[k].len() < 2 {
                lemma_concat_all_member(gs, k, 0);
                assert(gs[k].drop_last() =~= Seq::<Seq<char>>::empty());
                let j = choose|j: int| 0 <= j < ls.len() && ls[j] == gs[k][0];
                assert(word_count(ls[j]) <= max_words);
            }
        }
    }
}

/// Laws of `group_files_into_chunks`.
///
/// No file is ever split across chunks: the chunks are the files' sections
/// (`# File: <name>`, newline, body) in greedy groups, in order, each group
/// joined with a blank line and trimmed; every section is in exactly one
/// group; each chunk has exactly the words of its sections; a chunk of two or
/// more files stays within `max_words`; a file whose section alone exceeds
/// `max_words` is a chunk of its own; and a chunk ends only because the next
/// file would have taken it over `max_words`.
pub proof fn law_group_files_into_chunks(files: Seq<(Seq<char>, Seq<char>)>, max_words: nat)
    ensures
        ({
            let xs = files.map_values(|p: (Seq<char>, Seq<char>)| file_section(p.0, p.1));
            let gs = greedy_groups(xs, max_words, true);
            let cs = file_chunks(files, max_words);
            &&& cs == gs.map_values(
                |g: Seq<Seq<char>>| trim(join(g, seq!['\n', '\n'])),
            )
            &&& concat_all(gs) == xs
            &&& forall|k: int| 0 <= k < gs.len() ==> #[trigger] gs[k].len() > 0
            &&& forall|k: int| 0 <= k < cs.len() ==> word_count(#[trigger] cs[k]) == total_words(gs[k])
            &&& forall|k: int| 0 <= k < gs.len() && #[trigger] gs[k].len() >= 2 ==> total_words(gs[k]) <= max_words
            &&& forall|k: int| 0 <= k < cs.len() && gs[k].len() >= 2 ==> word_count(#[trigger] cs[k]) <= max_words
            &&& forall|k: int, i: int|
                0 <= k < gs.len() && 0 <= i < gs[k].len() && word_count(#[trigger] gs[k][i]) > max_words
                    ==> gs[k].len() == 1
            &&& forall|k: int| 0 <= k < gs.len() - 1 ==> total_words(#[trigger] gs[k]) + word_count(gs[k + 1][0]) > max_words
            &&& forall|k: int| 0 <= k < cs.len() - 1 ==> word_count(#[trigger] cs[k]) + word_count(gs[k + 1][0]) > max_words
        }),
{
    let cs0 = file_chunks(files, max_words);
    let gs0 = greedy_groups(
        files.map_values(|p: (Seq<char>, Seq<char>)| file_section(p.0, p.1)),
        max_words,
        true,
    );
    assert forall|k: int| 0 <= k < cs0.len() implies word_count(#[trigger] cs0[k]) == total_words(gs0[k]) by {
        lemma_word_count_join(gs0[k], seq!['\n', '\n']);
        crate::text::lemma_word_count_trim(join(gs0[k], seq!['\n', '\n']));
    }
    let xs = files.map_values(|p: (Seq<char>, Seq<char>)| file_section(p.0, p.1));
    let gs = greedy_groups(xs, max_words, true);
    assert forall|i: int| 0 <= i < xs.len() implies word_count(#[trigger] xs[i]) > 0 by {
        lemma_section_has_words(files[i].0, files[i].1);
    }
    lemma_greedy_groups_laws(xs, max_words, true);
    assert forall|k: int, i: int|
        0 <= k < gs.len() && 0 <= i < gs[k].len() && word_count(#[trigger] gs[k][i]) > max_words
            implies gs[k].len() == 1 by {
        lemma_total_words_at_least_item(gs[k], i);
        if gs[k].len() >= 2 {
            assert(total_words(gs[k]) <= max_words);
        }
    }
}

} // verus!
