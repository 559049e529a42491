//! Character-level scanning primitives shared by the log and model codecs.
//!
//! All scanning is specified against `Seq<char>` views. `spec_find` is the
//! mathematical "leftmost occurrence at or after an index" function; the
//! executable `find_from` is proved to return exactly that occurrence.

use vstd::prelude::*;

verus! {

/// The pattern `p` occurs in `s` starting at index `i`.
pub open spec fn match_at(s: Seq<char>, p: Seq<char>, i: int) -> bool {
    &&& 0 <= i
    &&& i + p.len() <= s.len()
    &&& s.subrange(i, i + p.len() as int) == p
}

/// Index of the leftmost occurrence of `p` in `s` at or after `i`, if any.
pub open spec fn spec_find(s: Seq<char>, p: Seq<char>, i: int) -> Option<int>
    decreases s.len() - i + 1,
{
    if i + p.len() > s.len() {
        None
    } else if match_at(s, p, i) {
        Some(i)
    } else {
        spec_find(s, p, i + 1)
    }
}

/// What a successful or failed find means, spelled out for callers.
pub proof fn lemma_find_props(s: Seq<char>, p: Seq<char>, i: int)
    ensures
        match spec_find(s, p, i) {
            Some(j) => i <= j && match_at(s, p, j) && (forall|k: int|
                i <= k < j ==> !match_at(s, p, k)),
            None => forall|k: int| i <= k ==> !match_at(s, p, k),
        },
    decreases (if i <= s.len() { s.len() - i + 1 } else { 0 }),
{
    if i + p.len() > s.len() {
        assert forall|k: int| i <= k implies !match_at(s, p, k) by {
            assert(k + p.len() >= i + p.len());
        }
    } else if match_at(s, p, i) {
    } else {
        lemma_find_props(s, p, i + 1);
    }
}

/// `b == true` exactly when `p` occurs in `v` at index `j`.
pub fn is_match(v: &Vec<char>, p: &Vec<char>, j: usize) -> (b: bool)
    requires
        j + p@.len() <= v@.len(),
    ensures
        b == match_at(v@, p@, j as int),
{
    let n = v.len();
    let m = p.len();
    let mut k: usize = 0;
    while k < m
        invariant
            k <= m,
            n == v@.len(),
            m == p@.len(),
            j + m <= n,
            forall|t: int| 0 <= t < k ==> v@[j + t] == p@[t],
        decreases m - k,
    {
        if v[j + k] != p[k] {
            assert(v@.subrange(j as int, j + m as int)[k as int] != p@[k as int]);
            return false;
        }
        k += 1;
    }
    proof {
        assert(v@.subrange(j as int, j + m as int) =~= p@);
    }
    true
}

/// Leftmost occurrence of `p` in `v` at or after `from`; returns exactly
/// what `spec_find` denotes.
pub fn find_from(v: &Vec<char>, p: &Vec<char>, from: usize) -> (r: Option<usize>)
    ensures
        match r {
            Some(j) => spec_find(v@, p@, from as int) == Some(j as int),
            None => spec_find(v@, p@, from as int) is None,
        },
{
    let n = v.len();
    let m = p.len();
    if from > n {
        assert(spec_find(v@, p@, from as int) is None);
        return None;
    }
    if m == 0 {
        proof {
            assert(v@.subrange(from as int, from as int) =~= p@);
        }
        return Some(from);
    }
    if m > n {
        assert(spec_find(v@, p@, from as int) is None);
        return None;
    }
    let mut j = from;
    while j <= n - m
        invariant
            from <= j,
            j <= n,
            1 <= m <= n,
            n == v@.len(),
            m == p@.len(),
            spec_find(v@, p@, from as int) == spec_find(v@, p@, j as int),
        decreases n - j,
    {
        if is_match(v, p, j) {
            return Some(j);
        }
        assert(spec_find(v@, p@, j as int) == spec_find(v@, p@, j + 1 as int));
        j += 1;
    }
    assert(spec_find(v@, p@, j as int) is None);
    None
}

/// Content ranges of successive non-overlapping `open ... close` blocks,
/// scanning left to right from `i`: each block is the shortest stretch from
/// an occurrence of `open` to the next occurrence of `close`; the scan
/// resumes after the closing delimiter.
pub open spec fn scan_blocks(s: Seq<char>, open: Seq<char>, close: Seq<char>, i: int) -> Seq<
    (int, int),
>
    decreases s.len() - i
        when open.len() > 0 && close.len() > 0
        via scan_blocks_dec
{
    match spec_find(s, open, i) {
        None => seq![],
        Some(a) => match spec_find(s, close, a + open.len()) {
            None => seq![],
            Some(b) => seq![(a + open.len() as int, b)] + scan_blocks(
                s,
                open,
                close,
                b + close.len(),
            ),
        },
    }
}

#[via_fn]
proof fn scan_blocks_dec(s: Seq<char>, open: Seq<char>, close: Seq<char>, i: int) {
    lemma_find_props(s, open, i);
    match spec_find(s, open, i) {
        None => {},
        Some(a) => {
            lemma_find_props(s, close, a + open.len());
        },
    }
}

/// Every block range of `scan_blocks` lies within the string and after `i`.
pub proof fn lemma_scan_blocks_ranges(s: Seq<char>, open: Seq<char>, close: Seq<char>, i: int)
    requires
        open.len() > 0,
        close.len() > 0,
    ensures
        forall|k: int|
            0 <= k < scan_blocks(s, open, close, i).len() ==> {
                let r = #[trigger] scan_blocks(s, open, close, i)[k];
                i <= r.0 <= r.1 <= s.len()
            },
    decreases (if i <= s.len() { s.len() - i + 1 } else { 0 }),
{
    lemma_find_props(s, open, i);
    match spec_find(s, open, i) {
        None => {},
        Some(a) => {
            lemma_find_props(s, close, a + open.len());
            match spec_find(s, close, a + open.len()) {
                None => {},
                Some(b) => {
                    lemma_scan_blocks_ranges(s, open, close, b + close.len());
                    let rest = scan_blocks(s, open, close, b + close.len());
                    let all = scan_blocks(s, open, close, i);
                    assert forall|k: int| 0 <= k < all.len() implies {
                        let r = #[trigger] all[k];
                        i <= r.0 <= r.1 <= s.len()
                    } by {
                        if k > 0 {
                            assert(all[k] == rest[k - 1]);
                        }
                    }
                },
            }
        },
    }
}

/// The executable block scanner; returns exactly what `scan_blocks` denotes.
pub fn find_blocks(v: &Vec<char>, open: &Vec<char>, close: &Vec<char>) -> (r: Vec<(usize, usize)>)
    requires
        open@.len() > 0,
        close@.len() > 0,
    ensures
        r@.map(|_k: int, p: (usize, usize)| (p.0 as int, p.1 as int)) == scan_blocks(
            v@,
            open@,
            close@,
            0,
        ),
        forall|k: int| 0 <= k < r@.len() ==> (#[trigger] r@[k]).0 <= r@[k].1 && r@[k].1 <= v@.len(),
{
    let mut r: Vec<(usize, usize)> = Vec::new();
    let n = v.len();
    let ol = open.len();
    let cl = close.len();
    let mut i: usize = 0;
    loop
        invariant
            n == v@.len(),
            ol == open@.len(),
            cl == close@.len(),
            i <= n + 1,
            forall|k: int|
                0 <= k < r@.len() ==> (#[trigger] r@[k]).0 <= r@[k].1 && r@[k].1 <= v@.len(),
            r@.map(|_k: int, p: (usize, usize)| (p.0 as int, p.1 as int)) + scan_blocks(
                v@,
                open@,
                close@,
                i as int,
            ) == scan_blocks(v@, open@, close@, 0),
        decreases n + 1 - i,
    {
        let ghost pre = r@.map(|_k: int, p: (usize, usize)| (p.0 as int, p.1 as int));
        match find_from(v, open, i) {
            None => {
                proof {
                    assert(pre + scan_blocks(v@, open@, close@, i as int) =~= pre);
                }
                return r;
            },
            Some(a) => {
                proof {
                    lemma_find_props(v@, open@, i as int);
                }
                match find_from(v, close, a + ol) {
                    None => {
                        proof {
                            assert(pre + scan_blocks(v@, open@, close@, i as int) =~= pre);
                        }
                        return r;
                    },
                    Some(b) => {
                        proof {
                            lemma_find_props(v@, close@, a + open@.len() as int);
                        }
                        r.push((a + ol, b));
                        proof {
                            assert(r@.map(|_k: int, p: (usize, usize)| (p.0 as int, p.1 as int))
                                + scan_blocks(v@, open@, close@, b + close@.len() as int) =~= pre
                                + scan_blocks(v@, open@, close@, i as int));
                        }
                        i = b + cl;
                    },
                }
            },
        }
    }
}

/// Whitespace as the trimming of marking tokens understands it.
pub open spec fn is_space(c: char) -> bool {
    c == ' ' || c == '\t' || c == '\n' || c == '\r' || c == '\u{b}' || c == '\u{c}'
        || c == '\u{85}' || c == '\u{a0}' || c == '\u{1680}' || ('\u{2000}' <= c && c
        <= '\u{200a}') || c == '\u{2028}' || c == '\u{2029}' || c == '\u{202f}' || c == '\u{205f}'
        || c == '\u{3000}'
}

/// First non-space position at or after `a`, stopping at `b`.
pub open spec fn trim_start(s: Seq<char>, a: int, b: int) -> int
    decreases b - a when a <= b
{
    if a >= b {
        a
    } else if 0 <= a < s.len() && is_space(s[a]) {
        trim_start(s, a + 1, b)
    } else {
        a
    }
}

/// Position just after the last non-space character in `[a, b)`.
pub open spec fn trim_end(s: Seq<char>, a: int, b: int) -> int
    decreases b - a when a <= b
{
    if b <= a {
        b
    } else if 0 <= b - 1 < s.len() && is_space(s[b - 1]) {
        trim_end(s, a, b - 1)
    } else {
        b
    }
}

/// Whitespace test matching `is_space`.
pub fn is_space_char(c: char) -> (r: bool)
    ensures
        r == is_space(c),
{
    c == ' ' || c == '\t' || c == '\n' || c == '\r' || c == '\u{b}' || c == '\u{c}'
        || c == '\u{85}' || c == '\u{a0}' || c == '\u{1680}' || ('\u{2000}' <= c && c
        <= '\u{200a}') || c == '\u{2028}' || c == '\u{2029}' || c == '\u{202f}' || c == '\u{205f}'
        || c == '\u{3000}'
}

/// Trim a token range; agrees with `trim_start` and `trim_end`.
pub fn trim_token(v: &Vec<char>, a: usize, b: usize) -> (r: (usize, usize))
    requires
        a <= b <= v@.len(),
    ensures
        r.0 as int == trim_start(v@, a as int, b as int),
        r.1 as int == trim_end(v@, r.0 as int, b as int),
        a <= r.0 <= r.1 <= b,
{
    let mut x = a;
    while x < b && is_space_char(v[x])
        invariant
            a <= x <= b,
            b <= v@.len(),
            trim_start(v@, a as int, b as int) == trim_start(v@, x as int, b as int),
        decreases b - x,
    {
        x += 1;
    }
    let mut y = b;
    while y > x && is_space_char(v[y - 1])
        invariant
            x <= y <= b,
            b <= v@.len(),
            trim_end(v@, x as int, b as int) == trim_end(v@, x as int, y as int),
        decreases y,
    {
        y -= 1;
    }
    (x, y)
}

/// Some character of `s` in `[a, b)` is not whitespace.
pub open spec fn nonblank_range(s: Seq<char>, a: int, b: int) -> bool {
    exists|k: int| a <= k < b && 0 <= k < s.len() && !is_space(s[k])
}

/// Whether the whole string has a non-whitespace character.
pub fn is_nonblank(v: &Vec<char>) -> (r: bool)
    ensures
        r == nonblank_range(v@, 0, v@.len() as int),
{
    let n = v.len();
    let mut i: usize = 0;
    while i < n
        invariant
            i <= n,
            n == v@.len(),
            forall|k: int| 0 <= k < i ==> is_space(v@[k]),
        decreases n - i,
    {
        if !is_space_char(v[i]) {
            return true;
        }
        i += 1;
    }
    false
}

/// A line's trailing carriage return is not part of its text.
pub open spec fn strip_cr(l: Seq<char>) -> Seq<char> {
    if l.len() > 0 && l.last() == '\r' {
        l.drop_last()
    } else {
        l
    }
}

/// The lines of `s` from position `i` on: split at every newline, each
/// line's trailing carriage return removed; no trailing empty line.
pub open spec fn lines_from(s: Seq<char>, i: int) -> Seq<Seq<char>>
    decreases s.len() - i
        via lines_from_dec
{
    if i >= s.len() || i < 0 {
        seq![]
    } else {
        match spec_find(s, "\n"@, i) {
            Some(k) => seq![strip_cr(s.subrange(i, k))] + lines_from(s, k + 1),
            None => seq![strip_cr(s.subrange(i, s.len() as int))],
        }
    }
}

#[via_fn]
proof fn lines_from_dec(s: Seq<char>, i: int) {
    reveal_strlit("\n");
    lemma_find_props(s, "\n"@, i);
}

/// The lines of a string, as `str::lines` splits them.
pub open spec fn spec_lines(s: Seq<char>) -> Seq<Seq<char>> {
    lines_from(s, 0)
}

/// Split a string into its lines; returns exactly `spec_lines`.
pub fn lines_of(s: &str, v: &Vec<char>) -> (r: Vec<String>)
    requires
        v@ == s@,
    ensures
        r@.map(|_k: int, l: String| l@) == spec_lines(s@),
{
    let nl = to_chars("\n");
    proof {
        reveal_strlit("\n");
    }
    let n = v.len();
    let mut r: Vec<String> = Vec::new();
    let mut i: usize = 0;
    loop
        invariant
            n == v@.len(),
            v@ == s@,
            nl@ == "\n"@,
            i <= n + 1,
            r@.map(|_k: int, l: String| l@) + lines_from(s@, i as int) == spec_lines(s@),
        decreases n + 1 - i,
    {
        let ghost pre = r@.map(|_k: int, l: String| l@);
        if i >= n {
            proof {
                assert(pre + lines_from(s@, i as int) =~= pre);
            }
            return r;
        }
        match find_from(v, &nl, i) {
            Some(k) => {
                proof {
                    lemma_find_props(v@, "\n"@, i as int);
                }
                let mut end = k;
                if end > i && v[end - 1] == '\r' {
                    end = end - 1;
                }
                proof {
                    assert(strip_cr(s@.subrange(i as int, k as int)) =~= s@.subrange(
                        i as int,
                        end as int,
                    ));
                }
                r.push(s.substring_char(i, end).to_owned());
                proof {
                    assert(r@.map(|_t: int, l: String| l@) + lines_from(s@, k + 1 as int) =~= pre
                        + lines_from(s@, i as int));
                }
                i = k + 1;
            },
            None => {
                let mut end = n;
                if end > i && v[end - 1] == '\r' {
                    end = end - 1;
                }
                proof {
                    assert(strip_cr(s@.subrange(i as int, n as int)) =~= s@.subrange(
                        i as int,
                        end as int,
                    ));
                }
                r.push(s.substring_char(i, end).to_owned());
                proof {
                    assert(r@.map(|_t: int, l: String| l@) =~= pre + lines_from(s@, i as int));
                }
                return r;
            },
        }
    }
}

/// `p` is a prefix of `s`.
pub fn has_prefix(s: &str, p: &str) -> (r: bool)
    ensures
        r == match_at(s@, p@, 0),
{
    let n = s.unicode_len();
    let m = p.unicode_len();
    if m > n {
        return false;
    }
    let mut i: usize = 0;
    while i < m
        invariant
            i <= m,
            m <= n,
            n == s@.len(),
            m == p@.len(),
            forall|t: int| 0 <= t < i ==> s@[t] == p@[t],
        decreases m - i,
    {
        if s.get_char(i) != p.get_char(i) {
            assert(s@.subrange(0, m as int)[i as int] != p@[i as int]);
            return false;
        }
        i += 1;
    }
    proof {
        assert(s@.subrange(0, m as int) =~= p@);
    }
    true
}

/// `p` is a suffix of `s`.
pub open spec fn ends_with(s: Seq<char>, p: Seq<char>) -> bool {
    p.len() <= s.len() && s.subrange(s.len() - p.len(), s.len() as int) == p
}

/// Suffix test matching `ends_with`.
pub fn has_suffix(s: &str, p: &str) -> (r: bool)
    ensures
        r == ends_with(s@, p@),
{
    let n = s.unicode_len();
    let m = p.unicode_len();
    if m > n {
        return false;
    }
    let mut i: usize = 0;
    while i < m
        invariant
            i <= m,
            m <= n,
            n == s@.len(),
            m == p@.len(),
            forall|t: int| 0 <= t < i ==> s@[n - m + t] == p@[t],
        decreases m - i,
    {
        if s.get_char(n - m + i) != p.get_char(i) {
            assert(s@.subrange(n - m as int, n as int)[i as int] != p@[i as int]);
            return false;
        }
        i += 1;
    }
    proof {
        assert(s@.subrange(n - m as int, n as int) =~= p@);
    }
    true
}

/// `p` occurs somewhere in `s`.
pub fn contains_str(s: &str, v: &Vec<char>, p: &str) -> (r: bool)
    requires
        v@ == s@,
    ensures
        r == (spec_find(s@, p@, 0) is Some),
{
    let pv = to_chars(p);
    find_from(v, &pv, 0).is_some()
}

/// Start of the whitespace-free word that ends just before `e`.
pub open spec fn word_start(s: Seq<char>, e: int) -> int
    decreases e,
{
    if e <= 0 {
        0
    } else if 0 <= e - 1 < s.len() && !is_space(s[e - 1]) {
        word_start(s, e - 1)
    } else {
        e
    }
}

/// The last whitespace-separated word of `s`, if any.
pub open spec fn last_word(s: Seq<char>) -> Option<Seq<char>> {
    let e = trim_end(s, 0, s.len() as int);
    if e <= 0 {
        None
    } else {
        Some(s.subrange(word_start(s, e), e))
    }
}

/// Extract the last whitespace-separated word; agrees with `last_word`.
pub fn find_last_word(s: &str, v: &Vec<char>) -> (r: Option<String>)
    requires
        v@ == s@,
    ensures
        match r {
            Some(w) => last_word(s@) == Some(w@),
            None => last_word(s@) is None,
        },
{
    let n = v.len();
    let mut e = n;
    while e > 0 && is_space_char(v[e - 1])
        invariant
            e <= n,
            n == v@.len(),
            trim_end(v@, 0, n as int) == trim_end(v@, 0, e as int),
        decreases e,
    {
        e -= 1;
    }
    if e == 0 {
        return None;
    }
    let mut w = e;
    while w > 0 && !is_space_char(v[w - 1])
        invariant
            w <= e,
            e <= n,
            n == v@.len(),
            word_start(v@, e as int) == word_start(v@, w as int),
        decreases w,
    {
        w -= 1;
    }
    Some(s.substring_char(w, e).to_owned())
}

/// The whitespace-separated words of `s`, scanning from `i`.
pub open spec fn words_from(s: Seq<char>, i: int) -> Seq<Seq<char>>
    decreases s.len() - i
        when 0 <= i
        via words_from_dec
{
    if i >= s.len() {
        seq![]
    } else if is_space(s[i]) {
        words_from(s, i + 1)
    } else {
        let e = word_end(s, i);
        seq![s.subrange(i, e)] + words_from(s, e)
    }
}

#[via_fn]
proof fn words_from_dec(s: Seq<char>, i: int) {
    if 0 <= i && i < s.len() && !is_space(s[i]) {
        lemma_word_end(s, i);
    }
}

/// End of the word starting at `i`.
pub open spec fn word_end(s: Seq<char>, i: int) -> int
    decreases s.len() - i when 0 <= i
{
    if i >= s.len() || is_space(s[i]) {
        i
    } else {
        word_end(s, i + 1)
    }
}

/// The word end never falls before its start and stays in the string.
pub proof fn lemma_word_end(s: Seq<char>, i: int)
    requires
        0 <= i <= s.len(),
    ensures
        i <= word_end(s, i) <= s.len(),
        i < s.len() && !is_space(s[i]) ==> i < word_end(s, i),
    decreases s.len() - i,
{
    if i < s.len() && !is_space(s[i]) {
        lemma_word_end(s, i + 1);
    }
}

/// The whitespace-separated words of `s`.
pub open spec fn spec_words(s: Seq<char>) -> Seq<Seq<char>> {
    words_from(s, 0)
}

/// Split into whitespace-separated words; returns exactly `spec_words`.
pub fn split_words(s: &str, v: &Vec<char>) -> (r: Vec<String>)
    requires
        v@ == s@,
    ensures
        r@.map(|_k: int, w: String| w@) == spec_words(s@),
{
    let n = v.len();
    let mut r: Vec<String> = Vec::new();
    let mut i: usize = 0;
    while i < n
        invariant
            i <= n,
            n == v@.len(),
            v@ == s@,
            r@.map(|_k: int, w: String| w@) + words_from(s@, i as int) == spec_words(s@),
        decreases n - i,
    {
        let ghost pre = r@.map(|_k: int, w: String| w@);
        if is_space_char(v[i]) {
            i += 1;
        } else {
            let mut e = i + 1;
            proof {
                lemma_word_end(s@, i as int);
            }
            while e < n && !is_space_char(v[e])
                invariant
                    i < e <= n,
                    n == v@.len(),
                    word_end(s@, i as int) == word_end(s@, e as int),
                decreases n - e,
            {
                e += 1;
            }
            proof {
                assert(word_end(s@, e as int) == e);
            }
            r.push(s.substring_char(i, e).to_owned());
            proof {
                assert(r@.map(|_k: int, w: String| w@) + words_from(s@, e as int) =~= pre
                    + words_from(s@, i as int));
            }
            i = e;
        }
    }
    proof {
        assert(r@.map(|_k: int, w: String| w@) + words_from(s@, i as int) =~= r@.map(
            |_k: int, w: String| w@,
        ));
    }
    r
}

/// `s` with every trailing occurrence of `c` removed.
pub open spec fn strip_trailing(s: Seq<char>, c: char) -> Seq<char>
    decreases s.len(),
{
    if s.len() > 0 && s.last() == c {
        strip_trailing(s.drop_last(), c)
    } else {
        s
    }
}

/// Remove every trailing occurrence of `c`; agrees with `strip_trailing`.
pub fn trim_end_char(s: &str, c: char) -> (r: String)
    ensures
        r@ == strip_trailing(s@, c),
{
    let v = to_chars(s);
    let n = v.len();
    proof {
        assert(v@.take(n as int) =~= v@);
    }
    let mut e = n;
    while e > 0 && v[e - 1] == c
        invariant
            e <= n,
            n == v@.len(),
            strip_trailing(v@, c) == strip_trailing(v@.take(e as int), c),
        decreases e,
    {
        proof {
            assert(v@.take(e as int).drop_last() =~= v@.take(e - 1 as int));
        }
        e -= 1;
    }
    proof {
        if e > 0 {
            assert(strip_trailing(v@.take(e as int), c) == v@.take(e as int));
        }
        assert(strip_trailing(v@, c) =~= s@.subrange(0, e as int));
    }
    s.substring_char(0, e).to_owned()
}

/// Rightmost occurrence of `p` at or below start index `j`.
pub open spec fn rfind_below(s: Seq<char>, p: Seq<char>, j: int) -> Option<int>
    decreases (if j >= 0 { j + 1 } else { 0 }),
{
    if j < 0 {
        None
    } else if match_at(s, p, j) {
        Some(j)
    } else {
        rfind_below(s, p, j - 1)
    }
}

/// Rightmost occurrence of `p` in `s`, if any.
pub open spec fn spec_rfind(s: Seq<char>, p: Seq<char>) -> Option<int> {
    rfind_below(s, p, s.len() - p.len())
}

/// What a successful rightmost find means.
pub proof fn lemma_rfind_props(s: Seq<char>, p: Seq<char>)
    ensures
        match spec_rfind(s, p) {
            Some(j) => 0 <= j && j + p.len() <= s.len() && match_at(s, p, j),
            None => true,
        },
{
    lemma_rfind_below_props(s, p, s.len() - p.len());
}

proof fn lemma_rfind_below_props(s: Seq<char>, p: Seq<char>, j: int)
    ensures
        match rfind_below(s, p, j) {
            Some(k) => 0 <= k && k + p.len() <= s.len() && match_at(s, p, k),
            None => true,
        },
    decreases (if j >= 0 { j + 1 } else { 0 }),
{
    if j >= 0 && !match_at(s, p, j) {
        lemma_rfind_below_props(s, p, j - 1);
    }
}

/// Rightmost occurrence; returns exactly what `spec_rfind` denotes.
pub fn rfind(v: &Vec<char>, p: &Vec<char>) -> (r: Option<usize>)
    ensures
        match r {
            Some(j) => spec_rfind(v@, p@) == Some(j as int),
            None => spec_rfind(v@, p@) is None,
        },
{
    let n = v.len();
    let m = p.len();
    if m > n {
        proof {
            assert(n - m < 0);
        }
        return None;
    }
    let mut j = n - m;
    loop
        invariant
            j <= n - m,
            m <= n,
            n == v@.len(),
            m == p@.len(),
            spec_rfind(v@, p@) == rfind_below(v@, p@, j as int),
        decreases j + 1,
    {
        if is_match(v, p, j) {
            return Some(j);
        }
        if j == 0 {
            return None;
        }
        j -= 1;
    }
}

/// The whitespace-trimmed text of a string.
pub open spec fn trim_of(s: Seq<char>) -> Seq<char> {
    let a = trim_start(s, 0, s.len() as int);
    let b = trim_end(s, a, s.len() as int);
    s.subrange(a, b)
}

/// Trim leading and trailing whitespace; agrees with `trim_of`.
pub fn trim_str(s: &str, v: &Vec<char>) -> (r: String)
    requires
        v@ == s@,
    ensures
        r@ == trim_of(s@),
{
    let n = v.len();
    let (a, b) = trim_token(v, 0, n);
    s.substring_char(a, b).to_owned()
}

/// Code-point lexicographic order on character sequences; for UTF-8 text
/// this coincides with the byte order strings sort by.
pub open spec fn lex_leq(a: Seq<char>, b: Seq<char>) -> bool
    decreases a.len(),
{
    if a.len() == 0 {
        true
    } else if b.len() == 0 {
        false
    } else if a[0] != b[0] {
        (a[0] as u32) < (b[0] as u32)
    } else {
        lex_leq(a.drop_first(), b.drop_first())
    }
}

/// The character for one decimal digit.
pub open spec fn dec_digit(d: int) -> char {
    if d == 0 {
        '0'
    } else if d == 1 {
        '1'
    } else if d == 2 {
        '2'
    } else if d == 3 {
        '3'
    } else if d == 4 {
        '4'
    } else if d == 5 {
        '5'
    } else if d == 6 {
        '6'
    } else if d == 7 {
        '7'
    } else if d == 8 {
        '8'
    } else {
        '9'
    }
}

/// The decimal notation of a non-negative integer, most significant digit
/// first, without leading zeros (except for zero itself).
pub open spec fn spec_dec(n: int) -> Seq<char>
    decreases n,
{
    if n < 10 {
        seq![dec_digit(n)]
    } else {
        spec_dec(n / 10).push(dec_digit(n % 10))
    }
}

fn digit_str(d: u64) -> (r: &'static str)
    requires
        d < 10,
    ensures
        r@ == seq![dec_digit(d as int)],
{
    proof {
        reveal_strlit("0");
        reveal_strlit("1");
        reveal_strlit("2");
        reveal_strlit("3");
        reveal_strlit("4");
        reveal_strlit("5");
        reveal_strlit("6");
        reveal_strlit("7");
        reveal_strlit("8");
        reveal_strlit("9");
    }
    let r = match d {
        0 => "0",
        1 => "1",
        2 => "2",
        3 => "3",
        4 => "4",
        5 => "5",
        6 => "6",
        7 => "7",
        8 => "8",
        _ => "9",
    };
    proof {
        assert(r@ =~= seq![dec_digit(d as int)]);
    }
    r
}

/// Decimal notation of `n`.
pub fn u64_to_string(n: u64) -> (r: String)
    ensures
        r@ == spec_dec(n as int),
    decreases n,
{
    if n < 10 {
        digit_str(n).to_owned()
    } else {
        let mut s = u64_to_string(n / 10);
        s.append(digit_str(n % 10));
        proof {
            assert(s@ =~= spec_dec(n as int));
        }
        s
    }
}

/// Character-for-character equality of two string slices.
pub fn str_eq(a: &str, b: &str) -> (r: bool)
    ensures
        r == (a@ == b@),
{
    let n = a.unicode_len();
    let m = b.unicode_len();
    if n != m {
        return false;
    }
    let mut i: usize = 0;
    while i < n
        invariant
            i <= n,
            n == a@.len(),
            n == b@.len(),
            forall|t: int| 0 <= t < i ==> a@[t] == b@[t],
        decreases n - i,
    {
        if a.get_char(i) != b.get_char(i) {
            return false;
        }
        i += 1;
    }
    proof {
        assert(a@ =~= b@);
    }
    true
}

/// Collect the characters of `s` into a vector with the same view.
pub fn to_chars(s: &str) -> (v: Vec<char>)
    ensures
        v@ == s@,
{
    let n = s.unicode_len();
    let mut v: Vec<char> = Vec::new();
    let mut i: usize = 0;
    while i < n
        invariant
            i <= n,
            n == s@.len(),
            v@ == s@.subrange(0, i as int),
        decreases n - i,
    {
        let c = s.get_char(i);
        v.push(c);
        proof {
            assert(v@ =~= s@.subrange(0, i + 1 as int));
        }
        i += 1;
    }
    proof {
        assert(v@ =~= s@);
    }
    v
}

} // verus!
