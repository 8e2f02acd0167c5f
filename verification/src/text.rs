//! Text handling shared by the parsers: the model of a text is its sequence of
//! characters, and each function here is proved against a spec function that
//! says, over that sequence, what `str`'s method of the same purpose returns.

use vstd::prelude::*;

verus! {

// ---------------------------------------------------------------------------
// Characters
// ---------------------------------------------------------------------------

/// The Unicode `White_Space` characters, which `str::trim` and
/// `str::split_whitespace` strip and split on.
pub open spec fn is_white_space(c: char) -> bool {
    let u = c as u32;
    ||| 0x09 <= u <= 0x0d
    ||| u == 0x20 || u == 0x85 || u == 0xa0 || u == 0x1680
    ||| 0x2000 <= u <= 0x200a
    ||| u == 0x2028 || u == 0x2029 || u == 0x202f || u == 0x205f || u == 0x3000
}

pub fn white_space(c: char) -> (b: bool)
    ensures
        b == is_white_space(c),
{
    let u = c as u32;
    (0x09 <= u && u <= 0x0d) || u == 0x20 || u == 0x85 || u == 0xa0 || u == 0x1680 || (0x2000
        <= u && u <= 0x200a) || u == 0x2028 || u == 0x2029 || u == 0x202f || u == 0x205f || u
        == 0x3000
}

/// The characters of `s`, in order.
pub fn chars_of(s: &str) -> (v: Vec<char>)
    ensures
        v@ == s@,
{
    let mut v: Vec<char> = Vec::new();
    for c in it: s.chars()
        invariant
            v@ == it.seq().take(it.index() as int),
    {
        v.push(c);
    }
    v
}

/// The characters of `s` from `lo` up to `hi`.
pub fn sub_chars(s: &Vec<char>, lo: usize, hi: usize) -> (v: Vec<char>)
    requires
        lo <= hi <= s.len(),
    ensures
        v@ == s@.subrange(lo as int, hi as int),
{
    let mut v: Vec<char> = Vec::new();
    let mut i = lo;
    while i < hi
        invariant
            lo <= i <= hi <= s.len(),
            v@ == s@.subrange(lo as int, i as int),
        decreases hi - i,
    {
        v.push(s[i]);
        i = i + 1;
        assert(v@ =~= s@.subrange(lo as int, i as int));
    }
    v
}

// ---------------------------------------------------------------------------
// Searching
// ---------------------------------------------------------------------------

/// Index of the first `c` in `s` at or after `i`, or `s.len()` when there is none.
pub open spec fn find_from(s: Seq<char>, i: int, c: char) -> int
    decreases s.len() - i,
{
    if i >= s.len() {
        s.len() as int
    } else if s[i] == c {
        i
    } else {
        find_from(s, i + 1, c)
    }
}

pub proof fn lemma_find_from(s: Seq<char>, i: int, c: char)
    requires
        0 <= i <= s.len(),
    ensures
        i <= find_from(s, i, c) <= s.len(),
        find_from(s, i, c) < s.len() ==> s[find_from(s, i, c)] == c,
        forall|k: int| i <= k < find_from(s, i, c) ==> s[k] != c,
    decreases s.len() - i,
{
    if i < s.len() && s[i] != c {
        lemma_find_from(s, i + 1, c);
    }
}

/// First position at or after `i` whose character is `c`, or `s.len()`.
pub fn find_char(s: &Vec<char>, i: usize, c: char) -> (j: usize)
    requires
        i <= s.len(),
    ensures
        j == find_from(s@, i as int, c),
{
    let mut j = i;
    while j < s.len() && s[j] != c
        invariant
            i <= j <= s.len(),
            find_from(s@, j as int, c) == find_from(s@, i as int, c),
        decreases s.len() - j,
    {
        j = j + 1;
    }
    j
}

/// Whether `s` begins with `p` (`str::starts_with` with a string pattern).
pub open spec fn starts_with(s: Seq<char>, p: Seq<char>) -> bool {
    p.len() <= s.len() && s.subrange(0, p.len() as int) == p
}

/// Whether `p` occurs in `s` (`str::contains` with a string pattern).
pub open spec fn contains_seq(s: Seq<char>, p: Seq<char>) -> bool {
    exists|i: int| 0 <= i && i + p.len() <= s.len() && #[trigger] s.subrange(i, i + p.len()) == p
}

fn matches_at(s: &Vec<char>, i: usize, p: &Vec<char>) -> (b: bool)
    requires
        i + p.len() <= s.len(),
    ensures
        b == (s@.subrange(i as int, i + p.len()) == p@),
{
    let mut k: usize = 0;
    while k < p.len()
        invariant
            k <= p.len(),
            i + p.len() <= s.len(),
            forall|m: int| 0 <= m < k ==> s@[i + m] == p@[m],
        decreases p.len() - k,
    {
        if s[i + k] != p[k] {
            assert(s@.subrange(i as int, i + p.len())[k as int] != p@[k as int]);
            return false;
        }
        k = k + 1;
    }
    assert(s@.subrange(i as int, i + p.len()) =~= p@);
    true
}

pub fn starts_with_chars(s: &Vec<char>, p: &Vec<char>) -> (b: bool)
    ensures
        b == starts_with(s@, p@),
{
    if p.len() > s.len() {
        false
    } else {
        matches_at(s, 0, p)
    }
}

pub fn contains_chars(s: &Vec<char>, p: &Vec<char>) -> (b: bool)
    ensures
        b == contains_seq(s@, p@),
{
    if p.len() > s.len() {
        return false;
    }
    let last = s.len() - p.len();
    let mut i: usize = 0;
    loop
        invariant
            i <= last,
            last + p.len() == s.len(),
            forall|k: int| 0 <= k < i ==> #[trigger] s@.subrange(k, k + p.len()) != p@,
        decreases last - i,
    {
        if matches_at(s, i, p) {
            return true;
        }
        if i == last {
            return false;
        }
        i = i + 1;
    }
}

// ---------------------------------------------------------------------------
// Splitting
// ---------------------------------------------------------------------------

/// The texts held by a sequence of character vectors.
pub open spec fn texts(v: Seq<Vec<char>>) -> Seq<Seq<char>> {
    v.map_values(|x: Vec<char>| x@)
}

/// The pieces of `s` from position `i` on, cut at every `sep`; the cut
/// characters are dropped and empty pieces kept (`str::split` with a char).
pub open spec fn split_from(s: Seq<char>, i: int, sep: char) -> Seq<Seq<char>>
    decreases s.len() - i,
{
    if i < 0 || i > s.len() {
        seq![]
    } else {
        let j = find_from(s, i, sep);
        proof {
            lemma_find_from(s, i, sep);
        }
        if j >= s.len() {
            seq![s.subrange(i, s.len() as int)]
        } else {
            seq![s.subrange(i, j)] + split_from(s, j + 1, sep)
        }
    }
}

/// `str::split(sep)`: the pieces of `s` between the occurrences of `sep`.
pub open spec fn split(s: Seq<char>, sep: char) -> Seq<Seq<char>> {
    split_from(s, 0, sep)
}

pub fn split_chars(s: &Vec<char>, sep: char) -> (parts: Vec<Vec<char>>)
    ensures
        texts(parts@) == split(s@, sep),
{
    let mut parts: Vec<Vec<char>> = Vec::new();
    let mut i: usize = 0;
    loop
        invariant
            i <= s.len(),
            split(s@, sep) == texts(parts@) + split_from(s@, i as int, sep),
        decreases s.len() - i,
    {
        let j = find_char(s, i, sep);
        proof {
            lemma_find_from(s@, i as int, sep);
        }
        let piece = sub_chars(s, i, j);
        let ghost before = texts(parts@);
        parts.push(piece);
        assert(texts(parts@) =~= before.push(piece@));
        if j == s.len() {
            assert(split_from(s@, i as int, sep) == seq![s@.subrange(i as int, s@.len() as int)]);
            assert(texts(parts@) =~= before + split_from(s@, i as int, sep));
            return parts;
        }
        assert(split_from(s@, i as int, sep) == seq![s@.subrange(i as int, j as int)]
            + split_from(s@, j + 1, sep));
        assert(before + split_from(s@, i as int, sep) =~= texts(parts@) + split_from(
            s@,
            j + 1,
            sep,
        ));
        i = j + 1;
    }
}

proof fn lemma_find_from_shift(u: Seq<char>, v: Seq<char>, k: int, c: char)
    requires
        0 <= k <= v.len(),
    ensures
        find_from(u + v, u.len() + k, c) == u.len() + find_from(v, k, c),
    decreases v.len() - k,
{
    if k < v.len() {
        assert((u + v)[u.len() + k] == v[k]);
        lemma_find_from_shift(u, v, k + 1, c);
    }
}

proof fn lemma_find_from_prefix(p: Seq<char>, sep: char, q: Seq<char>, i: int)
    requires
        0 <= i <= p.len(),
    ensures
        find_from(p + seq![sep] + q, i, sep) == find_from(p, i, sep),
    decreases p.len() - i,
{
    let s = p + seq![sep] + q;
    if i < p.len() {
        assert(s[i] == p[i]);
        lemma_find_from_prefix(p, sep, q, i + 1);
    } else {
        assert(s[i] == sep);
    }
}

/// The pieces cut from a text that follows `u` are those cut from the text
/// alone.
proof fn lemma_split_from_shift(u: Seq<char>, v: Seq<char>, k: int, sep: char)
    requires
        0 <= k <= v.len(),
    ensures
        split_from(u + v, u.len() + k, sep) == split_from(v, k, sep),
    decreases v.len() - k,
{
    let s = u + v;
    lemma_find_from_shift(u, v, k, sep);
    lemma_find_from(v, k, sep);
    let j = find_from(v, k, sep);
    if j < v.len() {
        lemma_split_from_shift(u, v, j + 1, sep);
        assert(s.subrange(u.len() + k, u.len() + j) =~= v.subrange(k, j));
    } else {
        assert(s.subrange(u.len() + k, s.len() as int) =~= v.subrange(k, v.len() as int));
    }
}

proof fn lemma_split_from_prefix(p: Seq<char>, sep: char, q: Seq<char>, i: int)
    requires
        0 <= i <= p.len(),
    ensures
        split_from(p + seq![sep] + q, i, sep) == split_from(p, i, sep) + split_from(
            p + seq![sep] + q,
            p.len() + 1int,
            sep,
        ),
    decreases p.len() - i,
{
    let s = p + seq![sep] + q;
    lemma_find_from_prefix(p, sep, q, i);
    lemma_find_from(p, i, sep);
    let j = find_from(p, i, sep);
    assert(s.subrange(i, j) =~= p.subrange(i, j));
    if j < p.len() {
        lemma_split_from_prefix(p, sep, q, j + 1);
        assert(split_from(s, i, sep) =~= split_from(p, i, sep) + split_from(s, p.len() + 1int, sep));
    } else {
        assert(p.subrange(i, p.len() as int) =~= p.subrange(i, j));
        assert(split_from(s, i, sep) =~= split_from(p, i, sep) + split_from(s, p.len() + 1int, sep));
    }
}

/// Cutting `p`, `sep`, `q` at each `sep` gives the pieces of `p`, then those
/// of `q`.
pub proof fn lemma_split_concat(p: Seq<char>, sep: char, q: Seq<char>)
    ensures
        split(p + seq![sep] + q, sep) == split(p, sep) + split(q, sep),
{
    lemma_split_from_prefix(p, sep, q, 0);
    lemma_split_from_shift(p + seq![sep], q, 0, sep);
    assert(p + seq![sep] + q == (p + seq![sep]) + q);
}

/// A text without `sep` is one piece.
pub proof fn lemma_split_without_sep(s: Seq<char>, sep: char)
    requires
        !s.contains(sep),
    ensures
        split(s, sep) == seq![s],
{
    lemma_find_from(s, 0, sep);
    if find_from(s, 0, sep) < s.len() {
        assert(s[find_from(s, 0, sep)] == sep);
    }
    assert(s.subrange(0, s.len() as int) =~= s);
}

/// Removing a character that a text does not hold leaves the text as it is.
pub proof fn lemma_without_absent_char(s: Seq<char>, c: char)
    requires
        !s.contains(c),
    ensures
        without_char(s, c) == s,
    decreases s.len(),
{
    if s.len() > 0 {
        assert(s.last() == s[s.len() - 1]);
        assert(!s.drop_last().contains(c)) by {
            if s.drop_last().contains(c) {
                let k = choose|k: int| 0 <= k < s.drop_last().len() && s.drop_last()[k] == c;
                assert(s[k] == c);
            }
        }
        lemma_without_absent_char(s.drop_last(), c);
        assert(s.drop_last().push(s.last()) =~= s);
    }
}

/// Removing a character from two texts one after the other removes it from
/// each.
pub proof fn lemma_without_char_concat(a: Seq<char>, b: Seq<char>, c: char)
    ensures
        without_char(a + b, c) == without_char(a, c) + without_char(b, c),
    decreases b.len(),
{
    if b.len() == 0 {
        assert(a + b =~= a);
        assert(without_char(a, c) + without_char(b, c) =~= without_char(a, c));
    } else {
        assert((a + b).drop_last() =~= a + b.drop_last());
        lemma_without_char_concat(a, b.drop_last(), c);
        if b.last() != c {
            assert(without_char(a, c) + without_char(b.drop_last(), c).push(b.last()) =~= (
            without_char(a, c) + without_char(b.drop_last(), c)).push(b.last()));
        }
    }
}

/// `s` without a final carriage return.
pub open spec fn strip_cr(line: Seq<char>) -> Seq<char> {
    if line.len() > 0 && line.last() == '\r' {
        line.drop_last()
    } else {
        line
    }
}

/// The lines of `s` from position `i` on: cut at each `'\n'`, a `'\r'` just
/// before it dropped, and no empty line after a final `'\n'` (`str::lines`).
pub open spec fn lines_from(s: Seq<char>, i: int) -> Seq<Seq<char>>
    decreases s.len() - i,
{
    if i < 0 || i >= s.len() {
        seq![]
    } else {
        let j = find_from(s, i, '\n');
        proof {
            lemma_find_from(s, i, '\n');
        }
        if j >= s.len() {
            seq![s.subrange(i, s.len() as int)]
        } else {
            seq![strip_cr(s.subrange(i, j))] + lines_from(s, j + 1)
        }
    }
}

/// `str::lines`.
pub open spec fn lines(s: Seq<char>) -> Seq<Seq<char>> {
    lines_from(s, 0)
}

pub fn lines_of(s: &Vec<char>) -> (out: Vec<Vec<char>>)
    ensures
        texts(out@) == lines(s@),
{
    let mut out: Vec<Vec<char>> = Vec::new();
    let mut i: usize = 0;
    while i < s.len()
        invariant
            i <= s.len(),
            lines(s@) == texts(out@) + lines_from(s@, i as int),
        decreases s.len() - i,
    {
        let j = find_char(s, i, '\n');
        proof {
            lemma_find_from(s@, i as int, '\n');
        }
        let ghost before = texts(out@);
        if j == s.len() {
            let piece = sub_chars(s, i, j);
            out.push(piece);
            assert(texts(out@) =~= before.push(piece@));
            assert(lines_from(s@, j as int) =~= Seq::<Seq<char>>::empty());
            assert(texts(out@) + lines_from(s@, j as int) =~= before + lines_from(
                s@,
                i as int,
            ));
            i = j;
        } else {
            let end = if j > i && s[j - 1] == '\r' {
                j - 1
            } else {
                j
            };
            let piece = sub_chars(s, i, end);
            assert(piece@ =~= strip_cr(s@.subrange(i as int, j as int)));
            out.push(piece);
            assert(texts(out@) =~= before.push(piece@));
            assert(before + lines_from(s@, i as int) =~= texts(out@) + lines_from(
                s@,
                j + 1,
            ));
            i = j + 1;
        }
    }
    assert(lines_from(s@, i as int) =~= Seq::<Seq<char>>::empty());
    assert(texts(out@) =~= texts(out@) + lines_from(s@, i as int));
    out
}

/// First position at or after `i` that is not white space, or `s.len()`.
pub open spec fn skip_white(s: Seq<char>, i: int) -> int
    decreases s.len() - i,
{
    if i >= s.len() {
        s.len() as int
    } else if is_white_space(s[i]) {
        skip_white(s, i + 1)
    } else {
        i
    }
}

/// First position at or after `i` that is white space, or `s.len()`.
pub open spec fn skip_word(s: Seq<char>, i: int) -> int
    decreases s.len() - i,
{
    if i >= s.len() {
        s.len() as int
    } else if !is_white_space(s[i]) {
        skip_word(s, i + 1)
    } else {
        i
    }
}

pub proof fn lemma_skip_white(s: Seq<char>, i: int)
    requires
        0 <= i <= s.len(),
    ensures
        i <= skip_white(s, i) <= s.len(),
        skip_white(s, i) < s.len() ==> !is_white_space(s[skip_white(s, i)]),
        forall|k: int| i <= k < skip_white(s, i) ==> is_white_space(s[k]),
    decreases s.len() - i,
{
    if i < s.len() && is_white_space(s[i]) {
        lemma_skip_white(s, i + 1);
    }
}

pub proof fn lemma_skip_word(s: Seq<char>, i: int)
    requires
        0 <= i <= s.len(),
    ensures
        i <= skip_word(s, i) <= s.len(),
        skip_word(s, i) < s.len() ==> is_white_space(s[skip_word(s, i)]),
        forall|k: int| i <= k < skip_word(s, i) ==> !is_white_space(s[k]),
    decreases s.len() - i,
{
    if i < s.len() && !is_white_space(s[i]) {
        lemma_skip_word(s, i + 1);
    }
}

/// The maximal runs of non-white-space characters of `s` from position `i`
/// on, in order (`str::split_whitespace`).
pub open spec fn words_from(s: Seq<char>, i: int) -> Seq<Seq<char>>
    decreases s.len() - i,
{
    if i < 0 || i >= s.len() {
        seq![]
    } else {
        let a = skip_white(s, i);
        proof {
            lemma_skip_white(s, i);
        }
        if a >= s.len() {
            seq![]
        } else {
            let b = skip_word(s, a);
            proof {
                lemma_skip_word(s, a);
            }
            seq![s.subrange(a, b)] + words_from(s, b)
        }
    }
}

/// `str::split_whitespace`.
pub open spec fn words(s: Seq<char>) -> Seq<Seq<char>> {
    words_from(s, 0)
}

fn skip_white_exec(s: &Vec<char>, i: usize) -> (j: usize)
    requires
        i <= s.len(),
    ensures
        j == skip_white(s@, i as int),
{
    let mut j = i;
    while j < s.len() && white_space(s[j])
        invariant
            i <= j <= s.len(),
            skip_white(s@, j as int) == skip_white(s@, i as int),
        decreases s.len() - j,
    {
        j = j + 1;
    }
    j
}

fn skip_word_exec(s: &Vec<char>, i: usize) -> (j: usize)
    requires
        i <= s.len(),
    ensures
        j == skip_word(s@, i as int),
{
    let mut j = i;
    while j < s.len() && !white_space(s[j])
        invariant
            i <= j <= s.len(),
            skip_word(s@, j as int) == skip_word(s@, i as int),
        decreases s.len() - j,
    {
        j = j + 1;
    }
    j
}

pub fn words_of(s: &Vec<char>) -> (out: Vec<Vec<char>>)
    ensures
        texts(out@) == words(s@),
{
    let mut out: Vec<Vec<char>> = Vec::new();
    let mut i: usize = 0;
    while i < s.len()
        invariant
            i <= s.len(),
            words(s@) == texts(out@) + words_from(s@, i as int),
        decreases s.len() - i,
    {
        let a = skip_white_exec(s, i);
        proof {
            lemma_skip_white(s@, i as int);
        }
        if a == s.len() {
            assert(words_from(s@, i as int) =~= Seq::<Seq<char>>::empty());
            assert(texts(out@) + words_from(s@, i as int) =~= texts(out@));
            assert(words_from(s@, a as int) =~= Seq::<Seq<char>>::empty());
            i = a;
        } else {
            let b = skip_word_exec(s, a);
            proof {
                lemma_skip_word(s@, a as int);
            }
            let piece = sub_chars(s, a, b);
            let ghost before = texts(out@);
            out.push(piece);
            assert(texts(out@) =~= before.push(piece@));
            assert(before + words_from(s@, i as int) =~= texts(out@) + words_from(
                s@,
                b as int,
            ));
            i = b;
        }
    }
    assert(words_from(s@, i as int) =~= Seq::<Seq<char>>::empty());
    assert(texts(out@) =~= texts(out@) + words_from(s@, i as int));
    out
}

/// Position just after the last non-white-space character in `lo..hi`, or `lo`.
pub open spec fn trim_end_from(s: Seq<char>, lo: int, hi: int) -> int
    decreases hi - lo,
{
    if hi <= lo {
        lo
    } else if is_white_space(s[hi - 1]) {
        trim_end_from(s, lo, hi - 1)
    } else {
        hi
    }
}

/// Start of `trim(s)` within `s`.
pub open spec fn trim_start_index(s: Seq<char>) -> int {
    skip_white(s, 0)
}

/// End of `trim(s)` within `s`.
pub open spec fn trim_end_index(s: Seq<char>) -> int {
    trim_end_from(s, skip_white(s, 0), s.len() as int)
}

/// `str::trim`: `s` without its leading and trailing white space.
pub open spec fn trim(s: Seq<char>) -> Seq<char> {
    s.subrange(trim_start_index(s), trim_end_index(s))
}

/// The bounds of `trim(s)` within `s`.
pub fn trim_bounds(s: &Vec<char>) -> (r: (usize, usize))
    ensures
        r.0 == trim_start_index(s@),
        r.1 == trim_end_index(s@),
        r.0 <= r.1 <= s.len(),
{
    let a = skip_white_exec(s, 0);
    proof {
        lemma_skip_white(s@, 0);
    }
    let mut b = s.len();
    while b > a && white_space(s[b - 1])
        invariant
            a <= b <= s.len(),
            trim_end_from(s@, a as int, b as int) == trim_end_from(s@, a as int, s@.len() as int),
        decreases b,
    {
        b = b - 1;
    }
    (a, b)
}

pub fn trim_chars(s: &Vec<char>) -> (t: Vec<char>)
    ensures
        t@ == trim(s@),
{
    let (a, b) = trim_bounds(s);
    sub_chars(s, a, b)
}

/// `s` without any occurrence of `c` (`str::replace(c, "")`).
pub open spec fn without_char(s: Seq<char>, c: char) -> Seq<char>
    decreases s.len(),
{
    if s.len() == 0 {
        s
    } else if s.last() == c {
        without_char(s.drop_last(), c)
    } else {
        without_char(s.drop_last(), c).push(s.last())
    }
}

pub fn remove_char(s: &Vec<char>, c: char) -> (t: Vec<char>)
    ensures
        t@ == without_char(s@, c),
{
    let mut t: Vec<char> = Vec::new();
    let mut i: usize = 0;
    while i < s.len()
        invariant
            i <= s.len(),
            t@ == without_char(s@.take(i as int), c),
        decreases s.len() - i,
    {
        assert(s@.take(i + 1).drop_last() =~= s@.take(i as int));
        if s[i] != c {
            t.push(s[i]);
        }
        i = i + 1;
    }
    assert(s@.take(s.len() as int) =~= s@);
    t
}

// ---------------------------------------------------------------------------
// Decimal numbers
// ---------------------------------------------------------------------------

pub open spec fn is_digit(c: char) -> bool {
    0x30 <= (c as u32) <= 0x39
}

pub open spec fn all_digits(s: Seq<char>) -> bool {
    forall|i: int| 0 <= i < s.len() ==> is_digit(#[trigger] s[i])
}

/// The number that the decimal digits `s` write.
pub open spec fn decimal_value(s: Seq<char>) -> int
    decreases s.len(),
{
    if s.len() == 0 {
        0
    } else {
        decimal_value(s.drop_last()) * 10 + ((s.last() as u32) - 0x30)
    }
}

/// The digits that `str::parse` reads for an unsigned type: `s` without one
/// leading `'+'`.
pub open spec fn unsigned_digits(s: Seq<char>) -> Seq<char> {
    if s.len() > 0 && s[0] == '+' {
        s.drop_first()
    } else {
        s
    }
}

/// What `str::parse` gives for an unsigned integer type whose largest value
/// is `max`: the number, when `s` is an optional `'+'` and then at least one
/// ASCII digit, and the number is at most `max`.
pub open spec fn parse_unsigned(s: Seq<char>, max: int) -> Option<int> {
    let d = unsigned_digits(s);
    if d.len() > 0 && all_digits(d) && decimal_value(d) <= max {
        Some(decimal_value(d))
    } else {
        None
    }
}

/// `str::parse::<u32>`, its error as `None`.
pub open spec fn parse_u32(s: Seq<char>) -> Option<u32> {
    match parse_unsigned(s, u32::MAX as int) {
        Some(v) => Some(v as u32),
        None => None,
    }
}

/// `str::parse::<u64>`, its error as `None`.
pub open spec fn parse_u64(s: Seq<char>) -> Option<u64> {
    match parse_unsigned(s, u64::MAX as int) {
        Some(v) => Some(v as u64),
        None => None,
    }
}

/// `s.parse::<u32>().unwrap_or(0)`.
pub open spec fn u32_or_zero(s: Seq<char>) -> u32 {
    match parse_u32(s) {
        Some(v) => v,
        None => 0,
    }
}

/// `s.parse::<u64>().unwrap_or(0)`.
pub open spec fn u64_or_zero(s: Seq<char>) -> u64 {
    match parse_u64(s) {
        Some(v) => v,
        None => 0,
    }
}

/// Decimal digits never write a negative number.
pub proof fn lemma_decimal_value_nonneg(s: Seq<char>)
    requires
        all_digits(s),
    ensures
        decimal_value(s) >= 0,
    decreases s.len(),
{
    if s.len() > 0 {
        assert(all_digits(s.drop_last()));
        lemma_decimal_value_nonneg(s.drop_last());
        assert(is_digit(s[s.len() - 1]));
    }
}

/// Decimal digits that write a number of at most `u32::MAX` parse as it.
pub proof fn lemma_parse_u32_digits(d: Seq<char>)
    requires
        d.len() > 0,
        all_digits(d),
        decimal_value(d) <= u32::MAX,
    ensures
        parse_u32(d) == Some(decimal_value(d) as u32),
        parse_u32(d).unwrap() as int == decimal_value(d),
{
    assert(is_digit(d[0]));
    assert(d[0] != '+');
    assert(unsigned_digits(d) == d);
    lemma_decimal_value_nonneg(d);
}

/// A longer run of digits never writes a smaller number.
proof fn lemma_decimal_value_prefix(s: Seq<char>, k: int)
    requires
        all_digits(s),
        0 <= k <= s.len(),
    ensures
        decimal_value(s.take(k)) <= decimal_value(s),
    decreases s.len() - k,
{
    if k < s.len() {
        lemma_decimal_value_prefix(s, k + 1);
        let t = s.take(k + 1);
        assert(t.drop_last() =~= s.take(k));
        assert(all_digits(s.take(k)));
        lemma_decimal_value_nonneg(s.take(k));
        assert(is_digit(t[k]));
    } else {
        assert(s.take(k) =~= s);
    }
}

/// `str::parse` of `s` for an unsigned type whose largest value is `max`.
fn parse_unsigned_chars(s: &Vec<char>, max: u64) -> (r: Option<u64>)
    ensures
        match r {
            Some(v) => parse_unsigned(s@, max as int) == Some(v as int),
            None => parse_unsigned(s@, max as int) is None,
        },
{
    let start: usize = if s.len() > 0 && s[0] == '+' {
        1
    } else {
        0
    };
    let ghost d = unsigned_digits(s@);
    assert(d =~= s@.subrange(start as int, s@.len() as int));
    if start == s.len() {
        return None;
    }
    let mut value: u64 = 0;
    let mut i = start;
    while i < s.len()
        invariant
            start <= i <= s.len(),
            d == unsigned_digits(s@),
            d == s@.subrange(start as int, s@.len() as int),
            all_digits(d.take(i - start)),
            value as int == decimal_value(d.take(i - start)),
            value <= max,
        decreases s.len() - i,
    {
        let c = s[i];
        let u = c as u32;
        if u < 0x30 || u > 0x39 {
            assert(!is_digit(d[i - start]));
            return None;
        }
        let digit = (u - 0x30) as u64;
        let next: u128 = value as u128 * 10 + digit as u128;
        let ghost t = d.take(i - start + 1);
        assert(t.drop_last() =~= d.take(i - start));
        assert(t.last() == c);
        assert(all_digits(t));
        if next > max as u128 {
            proof {
                if all_digits(d) {
                    lemma_decimal_value_prefix(d, i - start + 1);
                }
            }
            return None;
        }
        value = next as u64;
        i = i + 1;
    }
    assert(d.take(i - start) =~= d);
    Some(value)
}

pub fn parse_u32_chars(s: &Vec<char>) -> (r: Option<u32>)
    ensures
        r == parse_u32(s@),
{
    match parse_unsigned_chars(s, 0xffff_ffff) {
        Some(v) => Some(v as u32),
        None => None,
    }
}

pub fn parse_u64_chars(s: &Vec<char>) -> (r: Option<u64>)
    ensures
        r == parse_u64(s@),
{
    parse_unsigned_chars(s, 0xffff_ffff_ffff_ffff)
}

pub fn u32_or_zero_chars(s: &Vec<char>) -> (r: u32)
    ensures
        r == u32_or_zero(s@),
{
    match parse_u32_chars(s) {
        Some(v) => v,
        None => 0,
    }
}

pub fn u64_or_zero_chars(s: &Vec<char>) -> (r: u64)
    ensures
        r == u64_or_zero(s@),
{
    match parse_u64_chars(s) {
        Some(v) => v,
        None => 0,
    }
}

} // verus!
