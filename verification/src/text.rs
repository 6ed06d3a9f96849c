//! Character-level text primitives with their mathematical meaning.
//!
//! Every string is modelled by its sequence of `char`s (the view `s@` of a
//! `String` or `&str`).  The spec functions below state what the std string
//! operations the toolkit relies on (`trim`, `lines`, `split_whitespace`,
//! `join`, `len`, decimal formatting and parsing) mean on that model; the exec
//! functions compute them and are proved against those statements.
use vstd::prelude::*;
use vstd::utf8::*;

verus! {

// ---------------------------------------------------------------------------
// Whitespace, trimming, words
// ---------------------------------------------------------------------------

/// Unicode `White_Space`, the property behind `char::is_whitespace`,
/// `str::trim` and `str::split_whitespace`.
pub open spec fn is_ws(c: char) -> bool {
    let v = c as u32;
    ||| 0x9 <= v <= 0xD
    ||| v == 0x20
    ||| v == 0x85
    ||| v == 0xA0
    ||| v == 0x1680
    ||| 0x2000 <= v <= 0x200A
    ||| v == 0x2028
    ||| v == 0x2029
    ||| v == 0x202F
    ||| v == 0x205F
    ||| v == 0x3000
}

/// `s` with leading whitespace removed.
pub open spec fn trim_start(s: Seq<char>) -> Seq<char>
    decreases s.len(),
{
    if s.len() > 0 && is_ws(s[0]) {
        trim_start(s.drop_first())
    } else {
        s
    }
}

/// `s` with trailing whitespace removed.
pub open spec fn trim_end(s: Seq<char>) -> Seq<char>
    decreases s.len(),
{
    if s.len() > 0 && is_ws(s.last()) {
        trim_end(s.drop_last())
    } else {
        s
    }
}

/// `str::trim`: both ends stripped of whitespace.
pub open spec fn trim(s: Seq<char>) -> Seq<char> {
    trim_end(trim_start(s))
}

/// Position `i` begins a whitespace-delimited word of `s`.
pub open spec fn word_start(s: Seq<char>, i: int) -> bool {
    !is_ws(s[i]) && (i == 0 || is_ws(s[i - 1]))
}

/// `s.split_whitespace().count()`: the number of maximal non-whitespace runs.
pub open spec fn word_count(s: Seq<char>) -> nat
    decreases s.len(),
{
    if s.len() == 0 {
        0
    } else {
        word_count(s.drop_last()) + if word_start(s, s.len() - 1) {
            1nat
        } else {
            0nat
        }
    }
}

/// Words of two texts that meet at whitespace (or where one is empty) add up.
pub proof fn lemma_word_count_concat(a: Seq<char>, b: Seq<char>)
    requires
        a.len() == 0 || b.len() == 0 || is_ws(a.last()) || is_ws(b[0]),
    ensures
        word_count(a + b) == word_count(a) + word_count(b),
    decreases b.len(),
{
    if b.len() == 0 {
        assert(a + b =~= a);
    } else {
        lemma_word_count_concat(a, b.drop_last());
        let ab = a + b;
        assert(ab.drop_last() =~= a + b.drop_last());
        let j = ab.len() - 1;
        if b.len() >= 2 {
            assert(ab[j] == b[b.len() - 1]);
            assert(ab[j - 1] == b[b.len() - 2]);
        } else {
            assert(ab[j] == b[0]);
            if a.len() > 0 {
                assert(ab[j - 1] == a.last());
            }
        }
    }
}

/// Whitespace holds no word.
pub proof fn lemma_word_count_blank(s: Seq<char>)
    requires
        forall|i: int| 0 <= i < s.len() ==> is_ws(#[trigger] s[i]),
    ensures
        word_count(s) == 0,
    decreases s.len(),
{
    if s.len() > 0 {
        lemma_word_count_blank(s.drop_last());
    }
}

/// Trimming keeps every word.
pub proof fn lemma_word_count_trim(s: Seq<char>)
    ensures
        word_count(trim(s)) == word_count(s),
{
    lemma_word_count_trim_start(s);
    lemma_word_count_trim_end(trim_start(s));
}

proof fn lemma_word_count_trim_start(s: Seq<char>)
    ensures
        word_count(trim_start(s)) == word_count(s),
    decreases s.len(),
{
    if s.len() > 0 && is_ws(s[0]) {
        lemma_word_count_trim_start(s.drop_first());
        let h = seq![s[0]];
        lemma_word_count_concat(h, s.drop_first());
        assert(h + s.drop_first() =~= s);
        lemma_word_count_blank(h);
    }
}

proof fn lemma_word_count_trim_end(s: Seq<char>)
    ensures
        word_count(trim_end(s)) == word_count(s),
    decreases s.len(),
{
    if s.len() > 0 && is_ws(s.last()) {
        lemma_word_count_trim_end(s.drop_last());
    }
}

/// The exec counterpart of `is_ws`.
pub fn is_whitespace(c: char) -> (res: bool)
    ensures
        res == is_ws(c),
{
    let v = c as u32;
    (0x9 <= v && v <= 0xD) || v == 0x20 || v == 0x85 || v == 0xA0 || v == 0x1680 || (0x2000 <= v
        && v <= 0x200A) || v == 0x2028 || v == 0x2029 || v == 0x202F || v == 0x205F || v == 0x3000
}

pub proof fn lemma_trim_start_skip(s: Seq<char>, a: int)
    requires
        0 <= a <= s.len(),
        forall|i: int| 0 <= i < a ==> is_ws(s[i]),
    ensures
        trim_start(s) == trim_start(s.skip(a)),
    decreases a,
{
    if a > 0 {
        assert(s.skip(1) =~= s.drop_first());
        lemma_trim_start_skip(s.drop_first(), a - 1);
        assert(s.drop_first().skip(a - 1) =~= s.skip(a));
    } else {
        assert(s.skip(0) =~= s);
    }
}

pub proof fn lemma_trim_end_take(s: Seq<char>, b: int)
    requires
        0 <= b <= s.len(),
        forall|i: int| b <= i < s.len() ==> is_ws(s[i]),
    ensures
        trim_end(s) == trim_end(s.take(b)),
    decreases s.len() - b,
{
    if b < s.len() {
        lemma_trim_end_take(s.drop_last(), b);
        assert(s.drop_last().take(b) =~= s.take(b));
    } else {
        assert(s.take(b) =~= s);
    }
}

/// Dropping a trailing whitespace character does not change the trimmed text.
pub proof fn lemma_trim_drop_last_ws(s: Seq<char>)
    requires
        s.len() > 0,
        is_ws(s.last()),
    ensures
        trim(s.drop_last()) == trim(s),
    decreases s.len(),
{
    if is_ws(s[0]) {
        if s.len() == 1 {
            assert(s.drop_last() =~= Seq::<char>::empty());
            assert(trim_start(s) == trim_start(s.drop_first()));
            assert(s.drop_first() =~= Seq::<char>::empty());
        } else {
            let t = s.drop_first();
            lemma_trim_drop_last_ws(t);
            assert(s.drop_last().drop_first() =~= t.drop_last());
            assert(s.drop_last()[0] == s[0]);
        }
    } else {
        assert(s.len() >= 2);
        assert(s.drop_last()[0] == s[0]);
        assert(trim_start(s.drop_last()) == s.drop_last());
    }
}

/// Trimming keeps a text that has a non-whitespace character non-empty.
pub proof fn lemma_trim_nonempty(s: Seq<char>, j: int)
    requires
        0 <= j < s.len(),
        !is_ws(s[j]),
    ensures
        trim(s).len() > 0,
    decreases s.len(),
{
    if is_ws(s[0]) {
        lemma_trim_nonempty(s.drop_first(), j - 1);
        assert(trim_start(s) == trim_start(s.drop_first()));
    } else {
        assert(trim_start(s) == s);
        lemma_trim_end_nonempty(s, j);
    }
}

proof fn lemma_trim_end_nonempty(s: Seq<char>, j: int)
    requires
        0 <= j < s.len(),
        !is_ws(s[j]),
    ensures
        trim_end(s).len() > 0,
    decreases s.len(),
{
    if is_ws(s.last()) {
        lemma_trim_end_nonempty(s.drop_last(), j);
    }
}

/// Bounds of the trimmed part of `v[lo..hi]`.
pub fn trim_bounds(v: &Vec<char>, lo: usize, hi: usize) -> (res: (usize, usize))
    requires
        lo <= hi <= v@.len(),
    ensures
        lo <= res.0 <= res.1 <= hi,
        v@.subrange(res.0 as int, res.1 as int) == trim(v@.subrange(lo as int, hi as int)),
{
    let mut a = lo;
    while a < hi && is_whitespace(v[a])
        invariant
            lo <= a <= hi <= v@.len(),
            forall|i: int| lo <= i < a ==> is_ws(v@[i]),
        decreases hi - a,
    {
        a = a + 1;
    }
    let ghost s = v@.subrange(lo as int, hi as int);
    proof {
        lemma_trim_start_skip(s, a - lo);
        assert(s.skip(a - lo) =~= v@.subrange(a as int, hi as int));
        if a < hi {
            assert(!is_ws(v@[a as int]));
        }
    }
    let mut b = hi;
    while b > a && is_whitespace(v[b - 1])
        invariant
            lo <= a <= b <= hi <= v@.len(),
            forall|i: int| b <= i < hi ==> is_ws(v@[i]),
        decreases b - a,
    {
        b = b - 1;
    }
    proof {
        let t = v@.subrange(a as int, hi as int);
        assert(trim_start(t) == t);
        lemma_trim_end_take(t, b - a);
        assert(t.take(b - a) =~= v@.subrange(a as int, b as int));
        let u = v@.subrange(a as int, b as int);
        if b > a {
            assert(!is_ws(u.last()));
        }
        assert(trim_end(u) == u);
    }
    (a, b)
}

/// `word_count` of `v[lo..hi]`.
pub fn count_words(v: &Vec<char>, lo: usize, hi: usize) -> (res: usize)
    requires
        lo <= hi <= v@.len(),
    ensures
        res == word_count(v@.subrange(lo as int, hi as int)),
{
    let mut n: usize = 0;
    let mut i = lo;
    while i < hi
        invariant
            lo <= i <= hi <= v@.len(),
            n == word_count(v@.subrange(lo as int, i as int)),
            n <= i - lo,
        decreases hi - i,
    {
        let start = !is_whitespace(v[i]) && (i == lo || is_whitespace(v[i - 1]));
        proof {
            let t = v@.subrange(lo as int, i + 1);
            assert(t.drop_last() =~= v@.subrange(lo as int, i as int));
            assert(t.last() == v@[i as int]);
            if i > lo {
                assert(t[t.len() - 2] == v@[i - 1]);
            }
        }
        if start {
            n = n + 1;
        }
        i = i + 1;
    }
    n
}

/// `word_count` of a whole string.
pub fn count_words_in(s: &str) -> (res: usize)
    ensures
        res == word_count(s@),
{
    let v = chars_of(s);
    let n = count_words(&v, 0, v.len());
    proof {
        assert(v@.subrange(0, v@.len() as int) =~= s@);
    }
    n
}

/// Word starts of a prefix stay word starts in the whole.
pub proof fn lemma_word_count_prefix(a: Seq<char>, b: Seq<char>)
    ensures
        word_count(a + b) >= word_count(a),
    decreases b.len(),
{
    if b.len() == 0 {
        assert(a + b =~= a);
    } else {
        lemma_word_count_prefix(a, b.drop_last());
        assert((a + b).drop_last() =~= a + b.drop_last());
    }
}

// ---------------------------------------------------------------------------
// Searching, lines, joining
// ---------------------------------------------------------------------------

/// Index of the first `c` in `s`, or -1.
pub open spec fn index_of_char(s: Seq<char>, c: char) -> int
    decreases s.len(),
{
    if s.len() == 0 {
        -1
    } else if s[0] == c {
        0
    } else {
        let r = index_of_char(s.drop_first(), c);
        if r < 0 {
            -1
        } else {
            r + 1
        }
    }
}

pub proof fn lemma_index_of_char_bounds(s: Seq<char>, c: char)
    ensures
        -1 <= index_of_char(s, c) < s.len(),
        index_of_char(s, c) >= 0 ==> s[index_of_char(s, c)] == c,
        forall|i: int|
            0 <= i < s.len() && (index_of_char(s, c) < 0 || i < index_of_char(s, c)) ==> s[i] != c,
    decreases s.len(),
{
    if s.len() > 0 {
        lemma_index_of_char_bounds(s.drop_first(), c);
        assert forall|i: int|
            0 <= i < s.len() && (index_of_char(s, c) < 0 || i < index_of_char(s, c)) implies s[i]
            != c by {
            if i > 0 {
                assert(s[i] == s.drop_first()[i - 1]);
            }
        }
    }
}

pub proof fn lemma_index_of_char_at(s: Seq<char>, c: char, k: int)
    requires
        0 <= k <= s.len(),
        forall|i: int| 0 <= i < k ==> s[i] != c,
        k < s.len() ==> s[k] == c,
    ensures
        index_of_char(s, c) == if k < s.len() {
            k
        } else {
            -1
        },
    decreases k,
{
    if k > 0 {
        lemma_index_of_char_at(s.drop_first(), c, k - 1);
    }
}

/// Removes one trailing carriage return.
pub open spec fn strip_cr(l: Seq<char>) -> Seq<char> {
    if l.len() > 0 && l.last() == '\r' {
        l.drop_last()
    } else {
        l
    }
}

/// `str::lines`: pieces split at `'\n'`, each without a trailing `'\r'` that
/// preceded the `'\n'`; a final `'\n'` adds no empty line.
pub open spec fn lines(s: Seq<char>) -> Seq<Seq<char>>
    decreases s.len(),
{
    if s.len() == 0 {
        seq![]
    } else {
        let k = index_of_char(s, '\n');
        if k < 0 {
            seq![s]
        } else {
            proof {
                lemma_index_of_char_bounds(s, '\n');
            }
            seq![strip_cr(s.take(k))] + lines(s.skip(k + 1))
        }
    }
}

/// The pieces joined with `sep` between consecutive ones (`join`).
pub open spec fn join(parts: Seq<Seq<char>>, sep: Seq<char>) -> Seq<char>
    decreases parts.len(),
{
    if parts.len() == 0 {
        seq![]
    } else if parts.len() == 1 {
        parts[0]
    } else {
        join(parts.drop_last(), sep) + sep + parts.last()
    }
}

/// `prefix` is a prefix of `s`.
pub open spec fn starts_with(s: Seq<char>, prefix: Seq<char>) -> bool {
    prefix.len() <= s.len() && s.take(prefix.len() as int) == prefix
}

/// `suffix` is a suffix of `s`.
pub open spec fn ends_with(s: Seq<char>, suffix: Seq<char>) -> bool {
    suffix.len() <= s.len() && s.skip(s.len() - suffix.len()) == suffix
}

/// `needle` occurs in `s` at position `i`.
pub open spec fn occurs_at(s: Seq<char>, needle: Seq<char>, i: int) -> bool {
    0 <= i && i + needle.len() <= s.len() && s.subrange(i, i + needle.len()) == needle
}

/// `needle` occurs somewhere in `s` (`str::contains`).
pub open spec fn contains(s: Seq<char>, needle: Seq<char>) -> bool {
    exists|i: int| occurs_at(s, needle, i)
}

/// Whether `needle` occurs in `v` at position `i`.
pub fn matches_at(v: &Vec<char>, needle: &Vec<char>, i: usize) -> (res: bool)
    ensures
        res == occurs_at(v@, needle@, i as int),
{
    if i > v.len() || needle.len() > v.len() - i {
        return false;
    }
    let mut j: usize = 0;
    while j < needle.len()
        invariant
            i + needle@.len() <= v@.len(),
            v@.len() == v.len(),
            needle@.len() == needle.len(),
            0 <= j <= needle@.len(),
            forall|k: int| 0 <= k < j ==> v@[i + k] == needle@[k],
        decreases needle@.len() - j,
    {
        if v[i + j] != needle[j] {
            proof {
                assert(v@.subrange(i as int, i + needle@.len())[j as int] != needle@[j as int]);
            }
            return false;
        }
        j = j + 1;
    }
    proof {
        assert(v@.subrange(i as int, i + needle@.len()) =~= needle@);
    }
    true
}

/// Whether `needle` occurs anywhere in `v`.
pub fn contains_chars(v: &Vec<char>, needle: &Vec<char>) -> (res: bool)
    ensures
        res == contains(v@, needle@),
{
    if needle.len() == 0 {
        proof {
            assert(v@.subrange(0, 0) =~= needle@);
            assert(occurs_at(v@, needle@, 0));
        }
        return true;
    }
    let mut i: usize = 0;
    while i < v.len()
        invariant
            0 < needle@.len(),
            i <= v@.len(),
            forall|k: int| 0 <= k < i ==> !occurs_at(v@, needle@, k),
        decreases v@.len() - i,
    {
        if matches_at(v, needle, i) {
            return true;
        }
        i = i + 1;
    }
    assert forall|k: int| !occurs_at(v@, needle@, k) by {
        if 0 <= k < i {
        }
    }
    false
}

/// Whether a string has no characters.
pub fn is_empty_str(s: &str) -> (res: bool)
    ensures
        res == (s@.len() == 0),
{
    let v = chars_of(s);
    v.len() == 0
}

/// Whether two strings have the same characters.
pub fn str_eq(a: &str, b: &str) -> (res: bool)
    ensures
        res == (a@ == b@),
{
    let x = chars_of(a);
    let y = chars_of(b);
    if x.len() != y.len() {
        return false;
    }
    let mut i: usize = 0;
    while i < x.len()
        invariant
            x@ == a@,
            y@ == b@,
            x@.len() == y@.len(),
            0 <= i <= x@.len(),
            forall|j: int| 0 <= j < i ==> x@[j] == y@[j],
        decreases x@.len() - i,
    {
        if x[i] != y[i] {
            proof {
                assert(a@[i as int] != b@[i as int]);
            }
            return false;
        }
        i = i + 1;
    }
    proof {
        assert(x@ =~= y@);
    }
    true
}

/// Whether `v` starts with `prefix`.
pub fn starts_with_chars(v: &Vec<char>, prefix: &Vec<char>) -> (res: bool)
    ensures
        res == starts_with(v@, prefix@),
{
    let r = matches_at(v, prefix, 0);
    proof {
        if prefix@.len() <= v@.len() {
            assert(v@.subrange(0, prefix@.len() as int) =~= v@.take(prefix@.len() as int));
        }
    }
    r
}

/// Whether `v` ends with `suffix`.
pub fn ends_with_chars(v: &Vec<char>, suffix: &Vec<char>) -> (res: bool)
    ensures
        res == ends_with(v@, suffix@),
{
    if suffix.len() > v.len() {
        return false;
    }
    let r = matches_at(v, suffix, v.len() - suffix.len());
    proof {
        assert(v@.subrange(v@.len() - suffix@.len(), v@.len() as int) =~= v@.skip(
            v@.len() - suffix@.len(),
        ));
    }
    r
}

// ---------------------------------------------------------------------------
// Building strings
// ---------------------------------------------------------------------------

/// Appends one character to a `String` (`String::push`).
/// Trusted: the new contents are the old contents followed by `c`.
#[verifier::external_body]
pub(crate) fn push_char(s: &mut String, c: char)
    ensures
        final(s)@ == old(s)@.push(c),
{
    s.push(c);
}

/// The characters of a string slice, in order.
pub fn chars_of(s: &str) -> (res: Vec<char>)
    ensures
        res@ == s@,
{
    let mut v: Vec<char> = Vec::new();
    for c in it: s.chars()
        invariant
            v@ == it.seq().take(it.index()),
            it.seq() == s@,
    {
        v.push(c);
    }
    v
}

/// Appends `v[lo..hi]` to `s`.
pub fn push_range(s: &mut String, v: &Vec<char>, lo: usize, hi: usize)
    requires
        lo <= hi <= v@.len(),
    ensures
        final(s)@ == old(s)@ + v@.subrange(lo as int, hi as int),
{
    let mut i = lo;
    while i < hi
        invariant
            lo <= i <= hi <= v@.len(),
            s@ == old(s)@ + v@.subrange(lo as int, i as int),
        decreases hi - i,
    {
        push_char(s, v[i]);
        proof {
            assert(v@.subrange(lo as int, i + 1) =~= v@.subrange(lo as int, i as int).push(
                v@[i as int],
            ));
        }
        i = i + 1;
    }
}

/// Appends all of `t` to `s`.
pub fn push_str(s: &mut String, t: &str)
    ensures
        final(s)@ == old(s)@ + t@,
{
    let v = chars_of(t);
    push_range(s, &v, 0, v.len());
    proof {
        assert(v@.subrange(0, v@.len() as int) =~= t@);
    }
}

/// A new `String` holding `v[lo..hi]`.
pub fn string_of_range(v: &Vec<char>, lo: usize, hi: usize) -> (res: String)
    requires
        lo <= hi <= v@.len(),
    ensures
        res@ == v@.subrange(lo as int, hi as int),
{
    let mut s = String::new();
    push_range(&mut s, v, lo, hi);
    proof {
        assert(Seq::<char>::empty() + v@.subrange(lo as int, hi as int) =~= v@.subrange(
            lo as int,
            hi as int,
        ));
    }
    s
}

/// A copy of `t` as an owned `String`.
pub fn string_of(t: &str) -> (res: String)
    ensures
        res@ == t@,
{
    let mut s = String::new();
    push_str(&mut s, t);
    proof {
        assert(Seq::<char>::empty() + t@ =~= t@);
    }
    s
}

/// The views of a sequence of `String`s.
pub open spec fn views(v: Seq<String>) -> Seq<Seq<char>> {
    v.map_values(|s: String| s@)
}

pub proof fn lemma_join_push(parts: Seq<Seq<char>>, sep: Seq<char>, p: Seq<char>)
    ensures
        join(parts.push(p), sep) == if parts.len() == 0 {
            p
        } else {
            join(parts, sep) + sep + p
        },
{
    assert(parts.push(p).drop_last() =~= parts);
}

/// Where the `i`-th part starts in the parts joined with a separator of
/// length `sep_len`: after every earlier part and its separator.
pub open spec fn join_offset(parts: Seq<Seq<char>>, sep_len: nat, i: int) -> int
    decreases i,
{
    if i <= 0 {
        0
    } else {
        join_offset(parts, sep_len, i - 1) + parts[i - 1].len() + sep_len
    }
}

proof fn lemma_join_offset_prefix(parts: Seq<Seq<char>>, sep_len: nat, i: int)
    requires
        0 <= i < parts.len(),
    ensures
        join_offset(parts.drop_last(), sep_len, i) == join_offset(parts, sep_len, i),
    decreases i,
{
    if i > 0 {
        lemma_join_offset_prefix(parts, sep_len, i - 1);
        assert(parts.drop_last()[i - 1] == parts[i - 1]);
    }
}

/// The length of joined parts: up to the end of the last part.
proof fn lemma_join_len(parts: Seq<Seq<char>>, sep: Seq<char>)
    ensures
        join(parts, sep).len() == if parts.len() == 0 {
            0
        } else {
            join_offset(parts, sep.len(), parts.len() - 1) + parts[parts.len() - 1].len()
        },
    decreases parts.len(),
{
    let n = parts.len();
    if n >= 2 {
        let init = parts.drop_last();
        lemma_join_len(init, sep);
        lemma_join_offset_prefix(parts, sep.len(), n - 2);
        assert(init[n - 2] == parts[n - 2]);
    }
}

/// Each part of joined parts stands at its offset.
pub proof fn lemma_join_part_at(parts: Seq<Seq<char>>, sep: Seq<char>, i: int)
    requires
        0 <= i < parts.len(),
    ensures
        0 <= join_offset(parts, sep.len(), i),
        join_offset(parts, sep.len(), i) + parts[i].len() <= join(parts, sep).len(),
        join(parts, sep).subrange(
            join_offset(parts, sep.len(), i),
            join_offset(parts, sep.len(), i) + parts[i].len(),
        ) == parts[i],
    decreases parts.len(),
{
    let n = parts.len();
    let j = join(parts, sep);
    lemma_join_len(parts, sep);
    lemma_join_offset_nonneg(parts, sep.len(), i);
    if n == 1 {
        assert(j.subrange(0, parts[0].len() as int) =~= parts[0]);
    } else {
        let init = parts.drop_last();
        let ji = join(init, sep);
        assert(j == ji + sep + parts.last());
        lemma_join_len(init, sep);
        if i == n - 1 {
            lemma_join_offset_prefix(parts, sep.len(), n - 2);
            assert(init[n - 2] == parts[n - 2]);
            let o = join_offset(parts, sep.len(), i);
            assert(o == ji.len() + sep.len());
            assert(j.subrange(o, o + parts[i].len()) =~= parts.last());
        } else {
            lemma_join_part_at(init, sep, i);
            lemma_join_offset_prefix(parts, sep.len(), i);
            assert(init[i] == parts[i]);
            let o = join_offset(parts, sep.len(), i);
            assert(j.subrange(o, o + parts[i].len()) =~= ji.subrange(o, o + parts[i].len()));
        }
    }
}

proof fn lemma_join_offset_nonneg(parts: Seq<Seq<char>>, sep_len: nat, i: int)
    ensures
        0 <= join_offset(parts, sep_len, i),
    decreases i,
{
    if i > 0 {
        lemma_join_offset_nonneg(parts, sep_len, i - 1);
    }
}

/// Between consecutive parts of joined parts stands the separator.
pub proof fn lemma_join_sep_at(parts: Seq<Seq<char>>, sep: Seq<char>, i: int)
    requires
        0 <= i < parts.len() - 1,
    ensures
        join(parts, sep).subrange(
            join_offset(parts, sep.len(), i) + parts[i].len(),
            join_offset(parts, sep.len(), i + 1),
        ) == sep,
    decreases parts.len(),
{
    let n = parts.len();
    let j = join(parts, sep);
    let init = parts.drop_last();
    let ji = join(init, sep);
    assert(j == ji + sep + parts.last());
    lemma_join_offset_prefix(parts, sep.len(), i);
    assert(init[i] == parts[i]);
    let o = join_offset(parts, sep.len(), i) + parts[i].len();
    if i < n - 2 {
        lemma_join_sep_at(init, sep, i);
        lemma_join_offset_prefix(parts, sep.len(), i + 1);
        lemma_join_part_at(init, sep, i + 1);
        let e = join_offset(parts, sep.len(), i + 1);
        lemma_join_offset_nonneg(parts, sep.len(), i);
        assert(e == join_offset(init, sep.len(), i + 1));
        assert(e <= ji.len());
        assert(e == join_offset(parts, sep.len(), i) + parts[i].len() + sep.len());
        assert(j.subrange(o, e) =~= ji.subrange(o, e));
    } else {
        lemma_join_len(init, sep);
        assert(o == ji.len());
        assert(j.subrange(o, o + sep.len()) =~= sep);
    }
}

/// Layout of joined parts: each part stands at its offset, in order, with
/// the separator between consecutive parts and nothing after the last.
pub proof fn lemma_join_layout(parts: Seq<Seq<char>>, sep: Seq<char>)
    ensures
        ({
            let j = join(parts, sep);
            &&& forall|i: int| 0 <= i < parts.len() ==> j.subrange(
                join_offset(parts, sep.len(), i),
                join_offset(parts, sep.len(), i) + parts[i].len(),
            ) == #[trigger] parts[i]
            &&& forall|i: int| 0 <= i < parts.len() - 1 ==> j.subrange(
                join_offset(parts, sep.len(), i) + (#[trigger] parts[i]).len(),
                join_offset(parts, sep.len(), i + 1),
            ) == sep
            &&& j.len() == if parts.len() == 0 {
                0
            } else {
                join_offset(parts, sep.len(), parts.len() - 1) + parts[parts.len() - 1].len()
            }
        }),
{
    lemma_join_len(parts, sep);
    assert forall|i: int| 0 <= i < parts.len() implies join(parts, sep).subrange(
        join_offset(parts, sep.len(), i),
        join_offset(parts, sep.len(), i) + parts[i].len(),
    ) == #[trigger] parts[i] by {
        lemma_join_part_at(parts, sep, i);
    }
    assert forall|i: int| 0 <= i < parts.len() - 1 implies join(parts, sep).subrange(
        join_offset(parts, sep.len(), i) + (#[trigger] parts[i]).len(),
        join_offset(parts, sep.len(), i + 1),
    ) == sep by {
        lemma_join_sep_at(parts, sep, i);
    }
}

/// `parts` joined with `sep`.
pub fn join_strings(parts: &Vec<String>, sep: &str) -> (res: String)
    ensures
        res@ == join(views(parts@), sep@),
{
    let mut s = String::new();
    let mut i: usize = 0;
    while i < parts.len()
        invariant
            0 <= i <= parts@.len(),
            s@ == join(views(parts@.take(i as int)), sep@),
        decreases parts@.len() - i,
    {
        proof {
            assert(views(parts@.take(i + 1)) =~= views(parts@.take(i as int)).push(
                parts@[i as int]@,
            ));
            lemma_join_push(views(parts@.take(i as int)), sep@, parts@[i as int]@);
        }
        if i > 0 {
            push_str(&mut s, sep);
        }
        push_str(&mut s, parts[i].as_str());
        proof {
            if i == 0 {
                assert(Seq::<char>::empty() + parts@[0]@ =~= parts@[0]@);
                assert(views(parts@.take(0)) =~= Seq::<Seq<char>>::empty());
            }
        }
        i = i + 1;
    }
    proof {
        assert(parts@.take(parts@.len() as int) =~= parts@);
    }
    s
}

// ---------------------------------------------------------------------------
// Decimal numbers
// ---------------------------------------------------------------------------

/// The ASCII digit for `d < 10`.
pub open spec fn digit_char(d: nat) -> char {
    (('0' as u32) + d) as char
}

/// The decimal representation of `n` (`{}` on an unsigned integer).
pub open spec fn decimal(n: nat) -> Seq<char>
    decreases n,
{
    if n < 10 {
        seq![digit_char(n)]
    } else {
        decimal(n / 10).push(digit_char(n % 10))
    }
}

fn digit(d: usize) -> (c: char)
    requires
        d < 10,
    ensures
        c == digit_char(d as nat),
{
    if d == 0 {
        '0'
    } else if d == 1 {
        '1'
    } else if d == 2 {
        '2'
    } else if d == 3 {
        '3'
    } else if d == 4 {
        '4'
    } else if d == 5 {
        '5'
    } else if d == 6 {
        '6'
    } else if d == 7 {
        '7'
    } else if d == 8 {
        '8'
    } else {
        '9'
    }
}

/// Appends the decimal representation of `n`.
pub fn push_decimal(s: &mut String, n: usize)
    ensures
        final(s)@ == old(s)@ + decimal(n as nat),
    decreases n,
{
    if n >= 10 {
        push_decimal(s, n / 10);
    }
    push_char(s, digit(n % 10));
    proof {
        if n < 10 {
            assert(old(s)@ + decimal(n as nat) =~= old(s)@.push(digit_char(n as nat)));
        } else {
            assert(old(s)@ + decimal(n as nat) =~= (old(s)@ + decimal((n / 10) as nat)).push(
                digit_char((n % 10) as nat),
            ));
        }
    }
}

/// An ASCII decimal digit.
pub open spec fn is_digit(c: char) -> bool {
    '0' <= c <= '9'
}

/// The value of a string of decimal digits.
pub open spec fn digits_value(s: Seq<char>) -> nat
    decreases s.len(),
{
    if s.len() == 0 {
        0
    } else {
        digits_value(s.drop_last()) * 10 + ((s.last() as u32) - ('0' as u32)) as nat
    }
}

/// The digits that `FromStr` for unsigned integers reads: one leading `+` is allowed.
pub open spec fn unsigned_digits(s: Seq<char>) -> Seq<char> {
    if s.len() > 0 && s[0] == '+' {
        s.drop_first()
    } else {
        s
    }
}

/// `s` is accepted by `u64::from_str` as a number with that value
/// (at least one digit, only digits after an optional `+`).
pub open spec fn well_formed_unsigned(s: Seq<char>) -> bool {
    let d = unsigned_digits(s);
    d.len() > 0 && forall|i: int| 0 <= i < d.len() ==> is_digit(d[i])
}

/// What `str::parse::<u64>` returns, as an `Option`.
pub open spec fn parse_unsigned(s: Seq<char>, max: nat) -> Option<nat> {
    if well_formed_unsigned(s) && digits_value(unsigned_digits(s)) <= max {
        Some(digits_value(unsigned_digits(s)))
    } else {
        None
    }
}

pub proof fn lemma_digits_value_prefix(s: Seq<char>, j: int)
    requires
        0 <= j <= s.len(),
        forall|i: int| 0 <= i < s.len() ==> is_digit(s[i]),
    ensures
        digits_value(s.take(j)) <= digits_value(s),
    decreases s.len() - j,
{
    if j < s.len() {
        lemma_digits_value_prefix(s.drop_last(), j);
        assert(s.drop_last().take(j) =~= s.take(j));
    } else {
        assert(s.take(j) =~= s);
    }
}

/// `str::parse::<u64>`, as an `Option`.
pub fn parse_u64(s: &str) -> (res: Option<u64>)
    ensures
        res matches Some(n) ==> parse_unsigned(s@, u64::MAX as nat) == Some(n as nat),
        res is None ==> parse_unsigned(s@, u64::MAX as nat) is None,
{
    let v = chars_of(s);
    let start: usize = if v.len() > 0 && v[0] == '+' {
        1
    } else {
        0
    };
    let ghost d = unsigned_digits(s@);
    proof {
        if start == 1 {
            assert(d =~= v@.subrange(1, v@.len() as int));
        } else {
            assert(d =~= v@.subrange(0, v@.len() as int));
        }
    }
    if start >= v.len() {
        return None;
    }
    let mut value: u64 = 0;
    let mut i = start;
    while i < v.len()
        invariant
            start <= i <= v@.len(),
            d == v@.subrange(start as int, v@.len() as int),
            d == unsigned_digits(s@),
            v@ == s@,
            forall|k: int| 0 <= k < i - start ==> is_digit(d[k]),
            value == digits_value(d.take(i - start)),
        decreases v@.len() - i,
    {
        let c = v[i];
        if !('0' <= c && c <= '9') {
            proof {
                assert(d[i - start] == v@[i as int]);
                assert(!is_digit(d[i - start]));
                assert(0 <= i - start < d.len());
                assert(unsigned_digits(s@) == d);
                assert(!(forall|k: int| 0 <= k < d.len() ==> is_digit(d[k])));
                assert(!well_formed_unsigned(s@));
            }
            return None;
        }
        let dv = (c as u32 - '0' as u32) as u64;
        proof {
            assert(d.take(i - start + 1).drop_last() =~= d.take(i - start));
            assert(d.take(i - start + 1).last() == c);
            assert(d[i - start] == v@[i as int]);
        }
        if value > (u64::MAX - dv) / 10 {
            proof {
                assert(value * 10 + dv > u64::MAX) by (nonlinear_arith)
                    requires
                        value > (u64::MAX - dv) / 10,
                        dv <= 9,
                ;
                assert(d[i - start] == v@[i as int]);
                assert(digits_value(d.take(i - start + 1)) == value * 10 + dv);
                if forall|k: int| 0 <= k < d.len() ==> is_digit(d[k]) {
                    lemma_digits_value_prefix(d, i - start + 1);
                }
            }
            return None;
        }
        proof {
            assert(value * 10 + dv <= u64::MAX) by (nonlinear_arith)
                requires
                    value <= (u64::MAX - dv) / 10,
                    dv <= 9,
            ;
        }
        value = value * 10 + dv;
        i = i + 1;
    }
    proof {
        assert(d.take(d.len() as int) =~= d);
    }
    Some(value)
}

// ---------------------------------------------------------------------------
// UTF-8 byte length (`str::len`)
// ---------------------------------------------------------------------------

/// Number of bytes of the UTF-8 encoding of `s` (what `str::len` returns).
pub open spec fn byte_len(s: Seq<char>) -> nat {
    encode_utf8(s).len()
}

/// Number of bytes of the UTF-8 encoding of one character.
pub open spec fn char_byte_len(c: char) -> nat {
    encode_scalar(c as u32).len()
}

pub proof fn lemma_byte_len_concat(a: Seq<char>, b: Seq<char>)
    ensures
        byte_len(a + b) == byte_len(a) + byte_len(b),
    decreases a.len(),
{
    if a.len() == 0 {
        assert(a + b =~= b);
    } else {
        lemma_byte_len_concat(a.drop_first(), b);
        assert((a + b).drop_first() =~= a.drop_first() + b);
        assert((a + b)[0] == a[0]);
    }
}

pub proof fn lemma_byte_len_push(a: Seq<char>, c: char)
    ensures
        byte_len(a.push(c)) == byte_len(a) + char_byte_len(c),
{
    lemma_byte_len_concat(a, seq![c]);
    assert(a + seq![c] =~= a.push(c));
    assert(seq![c].drop_first() =~= Seq::<char>::empty());
    assert(encode_utf8(seq![c]) =~= encode_scalar(c as u32) + encode_utf8(Seq::<char>::empty()));
    assert(encode_utf8(seq![c]) =~= encode_scalar(c as u32));
}

fn char_bytes(c: char) -> (res: usize)
    ensures
        res == char_byte_len(c),
        1 <= res <= 4,
{
    let v = c as u32;
    proof {
        char_is_scalar(c);
    }
    if v <= 0x7F {
        1
    } else if v <= 0x7FF {
        2
    } else if v <= 0xFFFF {
        3
    } else {
        4
    }
}

/// The UTF-8 byte length of `s`, or `None` when it does not fit in `usize`.
pub fn utf8_len(s: &str) -> (res: Option<usize>)
    ensures
        res matches Some(n) ==> n == byte_len(s@),
        res is None ==> byte_len(s@) > usize::MAX,
{
    let v = chars_of(s);
    let mut n: usize = 0;
    let mut i: usize = 0;
    while i < v.len()
        invariant
            0 <= i <= v@.len(),
            v@ == s@,
            n == byte_len(v@.take(i as int)),
        decreases v@.len() - i,
    {
        let w = char_bytes(v[i]);
        proof {
            assert(v@.take(i + 1) =~= v@.take(i as int).push(v@[i as int]));
            lemma_byte_len_push(v@.take(i as int), v@[i as int]);
        }
        if n > usize::MAX - w {
            proof {
                lemma_byte_len_concat(v@.take(i + 1), v@.skip(i + 1));
                assert(v@.take(i + 1) + v@.skip(i + 1) =~= v@);
            }
            return None;
        }
        n = n + w;
        i = i + 1;
    }
    proof {
        assert(v@.take(v@.len() as int) =~= v@);
    }
    Some(n)
}

} // verus!
