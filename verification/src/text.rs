//! Character-level text handling: the parts of `str`'s line, word and
//! number handling that the `/proc` and `/sys` readers rely on, stated over
//! `Seq<char>` and implemented over `&[char]`.
use vstd::prelude::*;

verus! {

broadcast use vstd::string::group_string_axioms;

/// The characters of `s`, in order.
pub fn chars_of(s: &str) -> (out: Vec<char>)
    ensures
        out@ == s@,
{
    let mut out: Vec<char> = Vec::new();
    for c in it: s.chars()
        invariant
            out@ == it.seq().take(it.index() as int),
            it.seq() == s@,
    {
        out.push(c);
    }
    out
}

/// Unicode `White_Space`, the set that `char::is_whitespace` tests.
pub open spec fn is_ws(c: char) -> bool {
    let u = c as u32;
    ||| 0x09 <= u <= 0x0d
    ||| u == 0x20
    ||| u == 0x85
    ||| u == 0xa0
    ||| u == 0x1680
    ||| 0x2000 <= u <= 0x200a
    ||| u == 0x2028
    ||| u == 0x2029
    ||| u == 0x202f
    ||| u == 0x205f
    ||| u == 0x3000
}

/// Whether `c` is whitespace in the sense of `char::is_whitespace`.
pub fn is_whitespace(c: char) -> (b: bool)
    ensures
        b == is_ws(c),
{
    let u = c as u32;
    (0x09 <= u && u <= 0x0d) || u == 0x20 || u == 0x85 || u == 0xa0 || u == 0x1680 || (0x2000
        <= u && u <= 0x200a) || u == 0x2028 || u == 0x2029 || u == 0x202f || u == 0x205f || u
        == 0x3000
}

/// The first index at or after `i` that does not hold whitespace (or the length).
pub open spec fn skip_ws(s: Seq<char>, i: int) -> int
    decreases s.len() - i,
{
    if 0 <= i < s.len() && is_ws(s[i]) {
        skip_ws(s, i + 1)
    } else {
        i
    }
}

/// The first index at or after `i` that holds whitespace (or the length).
pub open spec fn word_end(s: Seq<char>, i: int) -> int
    decreases s.len() - i,
{
    if 0 <= i < s.len() && !is_ws(s[i]) {
        word_end(s, i + 1)
    } else {
        i
    }
}

pub proof fn lemma_skip_ws_bounds(s: Seq<char>, i: int)
    requires
        0 <= i <= s.len(),
    ensures
        i <= skip_ws(s, i) <= s.len(),
        skip_ws(s, i) < s.len() ==> !is_ws(s[skip_ws(s, i)]),
    decreases s.len() - i,
{
    if i < s.len() && is_ws(s[i]) {
        lemma_skip_ws_bounds(s, i + 1);
    }
}

pub proof fn lemma_word_end_bounds(s: Seq<char>, i: int)
    requires
        0 <= i <= s.len(),
    ensures
        i <= word_end(s, i) <= s.len(),
        i < s.len() && !is_ws(s[i]) ==> i < word_end(s, i),
        word_end(s, i) < s.len() ==> is_ws(s[word_end(s, i)]),
        forall|k: int| i <= k < word_end(s, i) ==> !is_ws(#[trigger] s[k]),
    decreases s.len() - i,
{
    if i < s.len() && !is_ws(s[i]) {
        lemma_word_end_bounds(s, i + 1);
    }
}

/// The whitespace-separated words of `s` from index `i` on, as
/// `str::split_whitespace` yields them.
pub open spec fn words_from(s: Seq<char>, i: int) -> Seq<Seq<char>>
    decreases s.len() - i,
    when 0 <= i <= s.len()
    via words_from_decreases
{
    let j = skip_ws(s, i);
    if j >= s.len() {
        seq![]
    } else {
        let k = word_end(s, j);
        seq![s.subrange(j, k)] + words_from(s, k)
    }
}

#[via_fn]
proof fn words_from_decreases(s: Seq<char>, i: int) {
    lemma_skip_ws_bounds(s, i);
    let j = skip_ws(s, i);
    if j < s.len() {
        lemma_word_end_bounds(s, j);
    }
}

/// Every word is nonempty.
pub proof fn lemma_words_from_nonempty(s: Seq<char>, i: int)
    requires
        0 <= i <= s.len(),
    ensures
        forall|k: int|
            0 <= k < words_from(s, i).len() ==> (#[trigger] words_from(s, i)[k]).len() > 0,
    decreases s.len() - i,
{
    lemma_skip_ws_bounds(s, i);
    let j = skip_ws(s, i);
    if j < s.len() {
        lemma_word_end_bounds(s, j);
        let k = word_end(s, j);
        lemma_words_from_nonempty(s, k);
        let w = words_from(s, i);
        assert forall|m: int| 0 <= m < w.len() implies (#[trigger] w[m]).len() > 0 by {
            if m > 0 {
                assert(w[m] == words_from(s, k)[m - 1]);
            }
        }
    }
}

/// Every word of `s` is nonempty.
pub proof fn lemma_words_nonempty(s: Seq<char>)
    ensures
        forall|k: int| 0 <= k < words(s).len() ==> (#[trigger] words(s)[k]).len() > 0,
{
    lemma_words_from_nonempty(s, 0);
}

proof fn lemma_skip_ws_shift(p: Seq<char>, r: Seq<char>, m: int)
    requires
        0 <= m <= r.len(),
    ensures
        skip_ws(p + r, p.len() + m) == p.len() + skip_ws(r, m),
    decreases r.len() - m,
{
    let s = p + r;
    if m < r.len() {
        assert(s[p.len() + m] == r[m]);
        if is_ws(r[m]) {
            lemma_skip_ws_shift(p, r, m + 1);
        }
    }
}

proof fn lemma_word_end_shift(p: Seq<char>, r: Seq<char>, m: int)
    requires
        0 <= m <= r.len(),
    ensures
        word_end(p + r, p.len() + m) == p.len() + word_end(r, m),
    decreases r.len() - m,
{
    let s = p + r;
    if m < r.len() {
        assert(s[p.len() + m] == r[m]);
        if !is_ws(r[m]) {
            lemma_word_end_shift(p, r, m + 1);
        }
    }
}

/// The words of `p + r` from inside `r` on are the words of `r` from there.
proof fn lemma_words_from_shift(p: Seq<char>, r: Seq<char>, m: int)
    requires
        0 <= m <= r.len(),
    ensures
        words_from(p + r, p.len() + m) == words_from(r, m),
    decreases r.len() - m,
{
    let s = p + r;
    lemma_skip_ws_shift(p, r, m);
    lemma_skip_ws_bounds(r, m);
    let j = skip_ws(r, m);
    if j < r.len() {
        lemma_word_end_shift(p, r, j);
        lemma_word_end_bounds(r, j);
        let k = word_end(r, j);
        lemma_words_from_shift(p, r, k);
        assert(s.subrange(p.len() + j, p.len() + k) =~= r.subrange(j, k));
    }
}

/// Skipping whitespace from anywhere inside a run of whitespace ends where
/// the run ends.
proof fn lemma_skip_ws_run(s: Seq<char>, k: int, e: int)
    requires
        0 <= k <= e <= s.len(),
        forall|x: int| k <= x < e ==> is_ws(#[trigger] s[x]),
    ensures
        skip_ws(s, k) == skip_ws(s, e),
    decreases e - k,
{
    if k < e {
        lemma_skip_ws_run(s, k + 1, e);
    }
}

proof fn lemma_word_end_run(s: Seq<char>, k: int, e: int)
    requires
        0 <= k <= e <= s.len(),
        forall|x: int| k <= x < e ==> !is_ws(#[trigger] s[x]),
    ensures
        word_end(s, k) == word_end(s, e),
    decreases e - k,
{
    if k < e {
        lemma_word_end_run(s, k + 1, e);
    }
}

/// Text without whitespace.
pub open spec fn no_ws(w: Seq<char>) -> bool {
    forall|i: int| 0 <= i < w.len() ==> !is_ws(#[trigger] w[i])
}

/// Text made only of whitespace.
pub open spec fn all_ws(w: Seq<char>) -> bool {
    forall|i: int| 0 <= i < w.len() ==> is_ws(#[trigger] w[i])
}

/// A word followed by whitespace and then `rest` splits into that word
/// followed by the words of `rest`.
pub proof fn lemma_words_of_word_then_rest(w: Seq<char>, sep: Seq<char>, rest: Seq<char>)
    requires
        w.len() > 0,
        no_ws(w),
        sep.len() > 0,
        all_ws(sep),
    ensures
        words(w + sep + rest) == seq![w] + words(rest),
{
    let s = w + sep + rest;
    let p = w + sep;
    assert(s =~= p + rest);
    assert(!is_ws(s[0])) by {
        assert(s[0] == w[0]);
    }
    assert(skip_ws(s, 0) == 0);
    assert forall|x: int| 0 <= x < w.len() implies !is_ws(#[trigger] s[x]) by {
        assert(s[x] == w[x]);
    }
    lemma_word_end_run(s, 0, w.len() as int);
    assert(s[w.len() as int] == sep[0]);
    assert(word_end(s, w.len() as int) == w.len());
    lemma_word_end_bounds(s, 0);
    assert(s.subrange(0, w.len() as int) =~= w);
    assert(words_from(s, 0) == seq![w] + words_from(s, w.len() as int));
    assert forall|x: int| w.len() <= x < p.len() implies is_ws(#[trigger] s[x]) by {
        assert(s[x] == sep[x - w.len()]);
    }
    lemma_skip_ws_run(s, w.len() as int, p.len() as int);
    lemma_words_from_shift(p, rest, 0);
    assert(words_from(s, w.len() as int) == words_from(s, p.len() as int)) by {
        lemma_skip_ws_bounds(s, p.len() as int);
    }
}

/// `str::split_whitespace` of `s`.
pub open spec fn words(s: Seq<char>) -> Seq<Seq<char>> {
    words_from(s, 0)
}

/// The views of a sequence of character vectors.
pub open spec fn views(v: Seq<Vec<char>>) -> Seq<Seq<char>> {
    v.map_values(|w: Vec<char>| w@)
}

/// A copy of `s[from..to]`.
pub fn copy_range(s: &[char], from: usize, to: usize) -> (out: Vec<char>)
    requires
        from <= to <= s@.len(),
    ensures
        out@ == s@.subrange(from as int, to as int),
{
    let mut out: Vec<char> = Vec::new();
    let mut i = from;
    while i < to
        invariant
            from <= i <= to <= s@.len(),
            out@ == s@.subrange(from as int, i as int),
        decreases to - i,
    {
        out.push(s[i]);
        i = i + 1;
    }
    out
}

/// The whitespace-separated words of `s`, in order (`str::split_whitespace`).
pub fn split_whitespace(s: &[char]) -> (out: Vec<Vec<char>>)
    ensures
        views(out@) == words(s@),
{
    let mut out: Vec<Vec<char>> = Vec::new();
    let mut i: usize = 0;
    let n = s.len();
    while i < n
        invariant
            n == s@.len(),
            0 <= i <= n,
            words(s@) == views(out@) + words_from(s@, i as int),
        ensures
            i == n,
            words(s@) == views(out@) + words_from(s@, i as int),
        decreases n - i,
    {
        let ghost i0 = i as int;
        let mut j = i;
        while j < n && is_whitespace(s[j])
            invariant
                n == s@.len(),
                i0 <= j <= n,
                skip_ws(s@, i0) == skip_ws(s@, j as int),
            decreases n - j,
        {
            j = j + 1;
        }
        if j == n {
            assert(words_from(s@, i0) == Seq::<Seq<char>>::empty());
            assert(views(out@) + words_from(s@, n as int) =~= views(out@));
            i = n;
            break;
        }
        let mut k = j;
        while k < n && !is_whitespace(s[k])
            invariant
                n == s@.len(),
                j <= k <= n,
                word_end(s@, j as int) == word_end(s@, k as int),
            decreases n - k,
        {
            k = k + 1;
        }
        proof {
            lemma_word_end_bounds(s@, j as int);
        }
        let w = copy_range(s, j, k);
        let ghost before = out@;
        out.push(w);
        assert(views(out@) =~= views(before).push(s@.subrange(j as int, k as int)));
        assert(words_from(s@, i0) == seq![s@.subrange(j as int, k as int)] + words_from(
            s@,
            k as int,
        ));
        assert(words(s@) =~= views(out@) + words_from(s@, k as int));
        i = k;
    }
    proof {
        assert(views(out@) + words_from(s@, n as int) =~= views(out@));
    }
    out
}

/// The first index at or after `i` that holds `c` (or the length).
pub open spec fn find_from(s: Seq<char>, c: char, i: int) -> int
    decreases s.len() - i,
{
    if 0 <= i < s.len() && s[i] != c {
        find_from(s, c, i + 1)
    } else {
        i
    }
}

pub proof fn lemma_find_from_bounds(s: Seq<char>, c: char, i: int)
    requires
        0 <= i <= s.len(),
    ensures
        i <= find_from(s, c, i) <= s.len(),
        find_from(s, c, i) < s.len() ==> s[find_from(s, c, i)] == c,
        forall|k: int| i <= k < find_from(s, c, i) ==> #[trigger] s[k] != c,
    decreases s.len() - i,
{
    if i < s.len() && s[i] != c {
        lemma_find_from_bounds(s, c, i + 1);
    }
}

/// Index of the first `c` in `s` at or after `from`, if any.
pub fn find_char_from(s: &[char], c: char, from: usize) -> (r: Option<usize>)
    requires
        from <= s@.len(),
    ensures
        r is None <==> find_from(s@, c, from as int) == s@.len(),
        r matches Some(k) ==> k as int == find_from(s@, c, from as int) && k < s@.len(),
{
    let mut k = from;
    while k < s.len() && s[k] != c
        invariant
            from <= k <= s@.len(),
            find_from(s@, c, from as int) == find_from(s@, c, k as int),
        decreases s@.len() - k,
    {
        k = k + 1;
    }
    if k < s.len() {
        Some(k)
    } else {
        None
    }
}

/// `str::find` for a single character: the index of the first `c`.
pub open spec fn find_first(s: Seq<char>, c: char) -> Option<int> {
    if find_from(s, c, 0) < s.len() {
        Some(find_from(s, c, 0))
    } else {
        None
    }
}

/// The last index below `j` that holds `c`, or -1.
pub open spec fn rfind_before(s: Seq<char>, c: char, j: int) -> int
    decreases j,
{
    if 0 < j <= s.len() && s[j - 1] != c {
        rfind_before(s, c, j - 1)
    } else if 0 < j <= s.len() {
        j - 1
    } else {
        -1
    }
}

/// `str::rfind` for a single character: the index of the last `c`.
pub open spec fn find_last(s: Seq<char>, c: char) -> Option<int> {
    if rfind_before(s, c, s.len() as int) >= 0 {
        Some(rfind_before(s, c, s.len() as int))
    } else {
        None
    }
}

pub proof fn lemma_rfind_before_bounds(s: Seq<char>, c: char, j: int)
    requires
        0 <= j <= s.len(),
    ensures
        -1 <= rfind_before(s, c, j) < j,
        rfind_before(s, c, j) >= 0 ==> s[rfind_before(s, c, j)] == c,
        forall|k: int| rfind_before(s, c, j) < k < j ==> #[trigger] s[k] != c,
    decreases j,
{
    if 0 < j && s[j - 1] != c {
        lemma_rfind_before_bounds(s, c, j - 1);
    }
}

/// Index of the first `c` in `s` (`str::find`).
pub fn find_char(s: &[char], c: char) -> (r: Option<usize>)
    ensures
        r matches Some(k) ==> find_first(s@, c) == Some(k as int),
        r is None ==> find_first(s@, c) is None,
{
    proof {
        lemma_find_from_bounds(s@, c, 0);
    }
    find_char_from(s, c, 0)
}

/// Index of the last `c` in `s` (`str::rfind`).
pub fn rfind_char(s: &[char], c: char) -> (r: Option<usize>)
    ensures
        r matches Some(k) ==> find_last(s@, c) == Some(k as int),
        r is None ==> find_last(s@, c) is None,
{
    let mut j = s.len();
    while j > 0 && s[j - 1] != c
        invariant
            j <= s@.len(),
            rfind_before(s@, c, s@.len() as int) == rfind_before(s@, c, j as int),
        decreases j,
    {
        j = j - 1;
    }
    if j > 0 {
        Some(j - 1)
    } else {
        None
    }
}

/// A line with one trailing carriage return removed, if it has one.
pub open spec fn strip_cr(line: Seq<char>) -> Seq<char> {
    if line.len() > 0 && line.last() == '\r' {
        line.drop_last()
    } else {
        line
    }
}

/// The lines of `s` from index `i` on, as `str::lines` yields them: split at
/// each `\n`, one `\r` before a `\n` dropped, no empty line after a final `\n`.
pub open spec fn lines_from(s: Seq<char>, i: int) -> Seq<Seq<char>>
    decreases s.len() - i,
    when 0 <= i <= s.len()
    via lines_from_decreases
{
    if i >= s.len() {
        seq![]
    } else {
        let n = find_from(s, '\n', i);
        if n >= s.len() {
            seq![s.subrange(i, s.len() as int)]
        } else {
            seq![strip_cr(s.subrange(i, n))] + lines_from(s, n + 1)
        }
    }
}

#[via_fn]
proof fn lines_from_decreases(s: Seq<char>, i: int) {
    if 0 <= i < s.len() {
        lemma_find_from_bounds(s, '\n', i);
    }
}

/// `str::lines` of `s`.
pub open spec fn lines(s: Seq<char>) -> Seq<Seq<char>> {
    lines_from(s, 0)
}

/// The lines of `s`, in order (`str::lines`).
pub fn split_lines(s: &[char]) -> (out: Vec<Vec<char>>)
    ensures
        views(out@) == lines(s@),
{
    let mut out: Vec<Vec<char>> = Vec::new();
    let mut i: usize = 0;
    let n = s.len();
    while i < n
        invariant
            n == s@.len(),
            0 <= i <= n,
            lines(s@) == views(out@) + lines_from(s@, i as int),
        decreases n - i,
    {
        let ghost i0 = i as int;
        proof {
            lemma_find_from_bounds(s@, '\n', i0);
        }
        let ghost before = out@;
        match find_char_from(s, '\n', i) {
            None => {
                out.push(copy_range(s, i, n));
                assert(views(out@) =~= views(before).push(s@.subrange(i0, n as int)));
                assert(lines_from(s@, n as int) == Seq::<Seq<char>>::empty());
                assert(lines(s@) =~= views(out@) + lines_from(s@, n as int));
                i = n;
            },
            Some(k) => {
                let mut end = k;
                if end > i && s[end - 1] == '\r' {
                    end = end - 1;
                }
                let line = copy_range(s, i, end);
                assert(line@ =~= strip_cr(s@.subrange(i0, k as int)));
                out.push(line);
                assert(views(out@) =~= views(before).push(strip_cr(s@.subrange(i0, k as int))));
                assert(lines(s@) =~= views(out@) + lines_from(s@, k + 1));
                i = k + 1;
            },
        }
    }
    proof {
        assert(views(out@) + lines_from(s@, n as int) =~= views(out@));
    }
    out
}

proof fn lemma_find_from_shift(p: Seq<char>, r: Seq<char>, c: char, m: int)
    requires
        0 <= m <= r.len(),
    ensures
        find_from(p + r, c, p.len() + m) == p.len() + find_from(r, c, m),
    decreases r.len() - m,
{
    if m < r.len() {
        assert((p + r)[p.len() + m] == r[m]);
        if r[m] != c {
            lemma_find_from_shift(p, r, c, m + 1);
        }
    }
}

proof fn lemma_lines_from_shift(p: Seq<char>, r: Seq<char>, m: int)
    requires
        0 <= m <= r.len(),
    ensures
        lines_from(p + r, p.len() + m) == lines_from(r, m),
    decreases r.len() - m,
{
    let s = p + r;
    if m < r.len() {
        lemma_find_from_shift(p, r, '\n', m);
        lemma_find_from_bounds(r, '\n', m);
        let n = find_from(r, '\n', m);
        if n >= r.len() {
            assert(s.subrange(p.len() + m, s.len() as int) =~= r.subrange(m, r.len() as int));
        } else {
            assert(s.subrange(p.len() + m, p.len() + n) =~= r.subrange(m, n));
            lemma_lines_from_shift(p, r, n + 1);
        }
    }
}

/// Text of a single line: no line feed in it.
pub open spec fn no_newline(a: Seq<char>) -> bool {
    forall|i: int| 0 <= i < a.len() ==> a[i] != '\n'
}

/// A line, a line feed, then `rest` splits into that line (less one
/// carriage return at its end) followed by the lines of `rest`.
pub proof fn lemma_lines_of_line_then_rest(a: Seq<char>, rest: Seq<char>)
    requires
        no_newline(a),
    ensures
        lines(a + seq!['\n'] + rest) == seq![strip_cr(a)] + lines(rest),
{
    let p = a + seq!['\n'];
    let s = a + seq!['\n'] + rest;
    assert(s =~= p + rest);
    assert(s[a.len() as int] == '\n');
    assert forall|k: int| 0 <= k < a.len() implies s[k] != '\n' by {
        assert(s[k] == a[k]);
    }
    lemma_find_from_bounds(s, '\n', 0);
    assert(find_from(s, '\n', 0) == a.len()) by {
        let f = find_from(s, '\n', 0);
        if f < a.len() {
            assert(s[f] == '\n');
        }
    }
    assert(s.subrange(0, a.len() as int) =~= a);
    lemma_lines_from_shift(p, rest, 0);
}

/// Whether `a` and `b` hold the same characters.
pub fn chars_equal(a: &[char], b: &[char]) -> (r: bool)
    ensures
        r == (a@ == b@),
{
    if a.len() != b.len() {
        return false;
    }
    let mut i: usize = 0;
    while i < a.len()
        invariant
            a@.len() == b@.len(),
            i <= a@.len(),
            forall|k: int| 0 <= k < i ==> a@[k] == b@[k],
        decreases a@.len() - i,
    {
        if a[i] != b[i] {
            return false;
        }
        i = i + 1;
    }
    assert(a@ =~= b@);
    true
}

/// Whether `s` begins with `prefix` (`str::starts_with`).
pub fn starts_with(s: &[char], prefix: &[char]) -> (r: bool)
    ensures
        r == prefix@.is_prefix_of(s@),
{
    if prefix.len() > s.len() {
        return false;
    }
    let mut i: usize = 0;
    while i < prefix.len()
        invariant
            prefix@.len() <= s@.len(),
            i <= prefix@.len(),
            forall|k: int| 0 <= k < i ==> prefix@[k] == s@[k],
        decreases prefix@.len() - i,
    {
        if prefix[i] != s[i] {
            return false;
        }
        i = i + 1;
    }
    true
}

/// `str::strip_prefix` of `s` by `prefix`.
pub open spec fn strip_prefix_spec(s: Seq<char>, prefix: Seq<char>) -> Option<Seq<char>> {
    if prefix.is_prefix_of(s) {
        Some(s.skip(prefix.len() as int))
    } else {
        None
    }
}

/// What follows `prefix` in `s`, if `s` begins with it (`str::strip_prefix`).
pub fn strip_prefix(s: &[char], prefix: &[char]) -> (r: Option<Vec<char>>)
    ensures
        r matches Some(v) ==> strip_prefix_spec(s@, prefix@) == Some(v@),
        r is None ==> strip_prefix_spec(s@, prefix@) is None,
{
    if starts_with(s, prefix) {
        Some(copy_range(s, prefix.len(), s.len()))
    } else {
        None
    }
}

/// The last index at or before `j` such that everything from it up to `j`
/// is whitespace.
pub open spec fn rskip_ws(s: Seq<char>, j: int) -> int
    decreases j,
{
    if 0 < j <= s.len() && is_ws(s[j - 1]) {
        rskip_ws(s, j - 1)
    } else {
        j
    }
}

/// `str::trim`: `s` without leading and trailing whitespace.
pub open spec fn trim_spec(s: Seq<char>) -> Seq<char> {
    let a = skip_ws(s, 0);
    let b = rskip_ws(s, s.len() as int);
    if a < b {
        s.subrange(a, b)
    } else {
        seq![]
    }
}

/// `s` without leading and trailing whitespace (`str::trim`).
pub fn trim(s: &[char]) -> (out: Vec<char>)
    ensures
        out@ == trim_spec(s@),
{
    let mut a: usize = 0;
    while a < s.len() && is_whitespace(s[a])
        invariant
            a <= s@.len(),
            skip_ws(s@, 0) == skip_ws(s@, a as int),
        decreases s@.len() - a,
    {
        a = a + 1;
    }
    let mut b: usize = s.len();
    while b > 0 && is_whitespace(s[b - 1])
        invariant
            b <= s@.len(),
            rskip_ws(s@, s@.len() as int) == rskip_ws(s@, b as int),
        decreases b,
    {
        b = b - 1;
    }
    if a < b {
        copy_range(s, a, b)
    } else {
        Vec::new()
    }
}

/// `str::split_once` for a single character: the text before and after the
/// first `c`.
pub open spec fn split_once_spec(s: Seq<char>, c: char) -> Option<(Seq<char>, Seq<char>)> {
    let k = find_from(s, c, 0);
    if k < s.len() {
        Some((s.take(k), s.skip(k + 1)))
    } else {
        None
    }
}

/// The text before and after the first `c` in `s` (`str::split_once`).
pub fn split_once(s: &[char], c: char) -> (r: Option<(Vec<char>, Vec<char>)>)
    ensures
        r matches Some(p) ==> split_once_spec(s@, c) == Some((p.0@, p.1@)),
        r is None ==> split_once_spec(s@, c) is None,
{
    proof {
        lemma_find_from_bounds(s@, c, 0);
    }
    let n = s.len();
    match find_char_from(s, c, 0) {
        Some(k) => Some((copy_range(s, 0, k), copy_range(s, k + 1, n))),
        None => None,
    }
}

/// An ASCII decimal digit.
pub open spec fn is_digit(c: char) -> bool {
    48 <= (c as u32) <= 57
}

pub open spec fn digit_value(c: char) -> nat {
    ((c as u32) - 48) as nat
}

pub open spec fn all_digits(s: Seq<char>) -> bool {
    forall|i: int| 0 <= i < s.len() ==> is_digit(#[trigger] s[i])
}

/// The number that the decimal digits `s` spell.
pub open spec fn decimal_value(s: Seq<char>) -> nat
    decreases s.len(),
{
    if s.len() == 0 {
        0
    } else {
        decimal_value(s.drop_last()) * 10 + digit_value(s.last())
    }
}

/// The digits of an unsigned number's text: one leading `+` is allowed.
pub open spec fn unsigned_digits(s: Seq<char>) -> Seq<char> {
    if s.len() > 0 && s[0] == '+' {
        s.drop_first()
    } else {
        s
    }
}

/// Whether `s` is the text of an unsigned number no larger than `max`, in
/// the form that `str::parse` accepts for unsigned integers.
pub open spec fn parses_unsigned(s: Seq<char>, max: nat) -> bool {
    let d = unsigned_digits(s);
    d.len() > 0 && all_digits(d) && decimal_value(d) <= max
}

/// `s.parse::<u64>()`, with `None` for an error.
pub open spec fn parse_u64_spec(s: Seq<char>) -> Option<u64> {
    if parses_unsigned(s, u64::MAX as nat) {
        Some(decimal_value(unsigned_digits(s)) as u64)
    } else {
        None
    }
}

/// `s.parse::<u32>()`, with `None` for an error.
pub open spec fn parse_u32_spec(s: Seq<char>) -> Option<u32> {
    if parses_unsigned(s, u32::MAX as nat) {
        Some(decimal_value(unsigned_digits(s)) as u32)
    } else {
        None
    }
}

/// A number's digits never spell less than any prefix of them.
pub proof fn lemma_decimal_value_prefix(s: Seq<char>, k: int)
    requires
        0 <= k <= s.len(),
    ensures
        decimal_value(s.take(k)) <= decimal_value(s),
    decreases s.len(),
{
    if k < s.len() {
        lemma_decimal_value_prefix(s.drop_last(), k);
        assert(s.drop_last().take(k) =~= s.take(k));
    } else {
        assert(s.take(k) =~= s);
    }
}

/// The unsigned number that `s` spells, if it is one no larger than `max`.
fn parse_unsigned(s: &[char], max: u64) -> (r: Option<u64>)
    requires
        max >= 9,
    ensures
        r is Some <==> parses_unsigned(s@, max as nat),
        r matches Some(v) ==> v == decimal_value(unsigned_digits(s@)),
{
    let n = s.len();
    if n == 0 {
        return None;
    }
    let start: usize = if s[0] == '+' {
        1
    } else {
        0
    };
    let ghost d = unsigned_digits(s@);
    assert(d =~= s@.subrange(start as int, n as int));
    if start == n {
        return None;
    }
    let mut v: u64 = 0;
    let mut i: usize = start;
    while i < n
        invariant
            n == s@.len(),
            start <= i <= n,
            d == s@.subrange(start as int, n as int),
            d == unsigned_digits(s@),
            d.len() > 0,
            all_digits(d.take(i - start)),
            v as nat == decimal_value(d.take(i - start)),
            v <= max,
            max >= 9,
        decreases n - i,
    {
        let c = s[i];
        let u = c as u32;
        if u < 48 || u > 57 {
            assert(d[i - start] == c);
            assert(!is_digit(d[i - start]));
            return None;
        }
        let digit = (u - 48) as u64;
        let ghost t = d.take(i - start + 1);
        assert(t.drop_last() =~= d.take(i - start));
        assert(t.last() == c);
        if v > (max - digit) / 10 {
            assert(v * 10 + digit > max) by (nonlinear_arith)
                requires
                    v > (max - digit) / 10,
                    digit <= 9,
            ;
            proof {
                lemma_decimal_value_prefix(d, i - start + 1);
            }
            return None;
        }
        assert(v * 10 + digit <= max) by (nonlinear_arith)
            requires
                v <= (max - digit) / 10,
                digit <= 9,
                digit <= max,
        ;
        v = v * 10 + digit;
        i = i + 1;
    }
    assert(d.take(n - start) =~= d);
    Some(v)
}

/// `s.parse::<u64>()`, with `None` for an error.
pub fn parse_u64(s: &[char]) -> (r: Option<u64>)
    ensures
        r == parse_u64_spec(s@),
{
    parse_unsigned(s, u64::MAX)
}

/// `s.parse::<u32>()`, with `None` for an error.
pub fn parse_u32(s: &[char]) -> (r: Option<u32>)
    ensures
        r == parse_u32_spec(s@),
{
    match parse_unsigned(s, 0xffff_ffffu64) {
        Some(v) => Some(v as u32),
        None => None,
    }
}

} // verus!
