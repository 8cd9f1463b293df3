//! Character-level text handling: the slicing, splitting and trimming
//! rules of `str` that the request and configuration parsers rely on,
//! stated over `Seq<char>` and implemented over `[char]`.
use vstd::prelude::*;
use vstd::slice::slice_subrange;
use vstd::slice::slice_to_vec;

verus! {

broadcast use vstd::slice::group_slice_axioms;

/// Whether `c` has the Unicode `White_Space` property, which is what
/// `char::is_whitespace` tests.
pub open spec fn is_ws(c: char) -> bool {
    let v = c as u32;
    (0x09 <= v && v <= 0x0d) || v == 0x20 || v == 0x85 || v == 0xa0 || v == 0x1680 || (0x2000 <= v
        && v <= 0x200a) || v == 0x2028 || v == 0x2029 || v == 0x202f || v == 0x205f || v == 0x3000
}

pub fn char_is_ws(c: char) -> (r: bool)
    ensures
        r == is_ws(c),
{
    let v = c as u32;
    (0x09 <= v && v <= 0x0d) || v == 0x20 || v == 0x85 || v == 0xa0 || v == 0x1680 || (0x2000
        <= v && v <= 0x200a) || v == 0x2028 || v == 0x2029 || v == 0x202f || v == 0x205f || v
        == 0x3000
}

/// The view of an optional string.
pub open spec fn opt_view(o: Option<String>) -> Option<Seq<char>> {
    match o {
        Some(s) => Some(s@),
        None => None,
    }
}

/// Views of a vector of strings.
pub open spec fn strs(v: Seq<String>) -> Seq<Seq<char>> {
    v.map_values(|s: String| s@)
}

/// Views of a vector of character vectors.
pub open spec fn dv(v: Seq<Vec<char>>) -> Seq<Seq<char>> {
    v.map_values(|x: Vec<char>| x@)
}

pub proof fn lemma_dv_push(v: Seq<Vec<char>>, x: Vec<char>)
    ensures
        dv(v.push(x)) == dv(v).push(x@),
{
    assert(dv(v.push(x)) =~= dv(v).push(x@));
}

// ---------------------------------------------------------------------
// Trimming
// ---------------------------------------------------------------------
/// The first index at or after `i` that does not hold whitespace.
pub open spec fn skip_ws(s: Seq<char>, i: int) -> int
    decreases s.len() - i,
{
    if 0 <= i < s.len() && is_ws(s[i]) {
        skip_ws(s, i + 1)
    } else {
        i
    }
}

/// The end of `s.subrange(a, j)` once trailing whitespace is removed.
pub open spec fn back_ws(s: Seq<char>, a: int, j: int) -> int
    decreases j - a,
{
    if a < j && j <= s.len() && is_ws(s[j - 1]) {
        back_ws(s, a, j - 1)
    } else {
        j
    }
}

/// `str::trim`: `s` without leading and trailing whitespace.
pub open spec fn trim(s: Seq<char>) -> Seq<char> {
    let a = skip_ws(s, 0);
    s.subrange(a, back_ws(s, a, s.len() as int))
}

pub proof fn lemma_skip_ws_bounds(s: Seq<char>, i: int)
    requires
        0 <= i <= s.len(),
    ensures
        i <= skip_ws(s, i) <= s.len(),
        skip_ws(s, i) < s.len() ==> !is_ws(s[skip_ws(s, i)]),
    decreases s.len() - i,
{
    if i < s.len() && is_ws(s[i]) {
        lemma_skip_ws_bounds(s, i + 1);
    }
}

pub proof fn lemma_back_ws_bounds(s: Seq<char>, a: int, j: int)
    requires
        0 <= a <= j <= s.len(),
    ensures
        a <= back_ws(s, a, j) <= j,
    decreases j - a,
{
    if a < j && is_ws(s[j - 1]) {
        lemma_back_ws_bounds(s, a, j - 1);
    }
}

pub fn trim_chars(s: &[char]) -> (r: Vec<char>)
    ensures
        r@ == trim(s@),
{
    let n = s.len();
    let mut a: usize = 0;
    while a < n && char_is_ws(s[a])
        invariant
            n == s@.len(),
            a <= n,
            skip_ws(s@, a as int) == skip_ws(s@, 0),
        decreases n - a,
    {
        a = a + 1;
    }
    let mut b: usize = n;
    while b > a && char_is_ws(s[b - 1])
        invariant
            n == s@.len(),
            a <= b <= n,
            a == skip_ws(s@, 0),
            back_ws(s@, a as int, b as int) == back_ws(s@, a as int, n as int),
        decreases b,
    {
        b = b - 1;
    }
    slice_to_vec(slice_subrange(s, a, b))
}

/// The first index at or after `i` whose character is not `c`.
pub open spec fn skip_char(s: Seq<char>, c: char, i: int) -> int
    decreases s.len() - i,
{
    if 0 <= i < s.len() && s[i] == c {
        skip_char(s, c, i + 1)
    } else {
        i
    }
}

/// The end of `s.subrange(a, j)` once trailing copies of `c` are removed.
pub open spec fn back_char(s: Seq<char>, c: char, a: int, j: int) -> int
    decreases j - a,
{
    if a < j && j <= s.len() && s[j - 1] == c {
        back_char(s, c, a, j - 1)
    } else {
        j
    }
}

/// `str::trim_matches(c)` for a single character `c`.
pub open spec fn trim_char(s: Seq<char>, c: char) -> Seq<char> {
    let a = skip_char(s, c, 0);
    s.subrange(a, back_char(s, c, a, s.len() as int))
}

pub proof fn lemma_skip_char_bounds(s: Seq<char>, c: char, i: int)
    requires
        0 <= i <= s.len(),
    ensures
        i <= skip_char(s, c, i) <= s.len(),
    decreases s.len() - i,
{
    if i < s.len() && s[i] == c {
        lemma_skip_char_bounds(s, c, i + 1);
    }
}

pub fn trim_matches_char(s: &[char], c: char) -> (r: Vec<char>)
    ensures
        r@ == trim_char(s@, c),
{
    let n = s.len();
    let mut a: usize = 0;
    while a < n && s[a] == c
        invariant
            n == s@.len(),
            a <= n,
            skip_char(s@, c, a as int) == skip_char(s@, c, 0),
        decreases n - a,
    {
        a = a + 1;
    }
    let mut b: usize = n;
    while b > a && s[b - 1] == c
        invariant
            n == s@.len(),
            a <= b <= n,
            a == skip_char(s@, c, 0),
            back_char(s@, c, a as int, b as int) == back_char(s@, c, a as int, n as int),
        decreases b,
    {
        b = b - 1;
    }
    slice_to_vec(slice_subrange(s, a, b))
}

// ---------------------------------------------------------------------
// Matching a pattern
// ---------------------------------------------------------------------
/// `pat` occurs in `s` at index `i`.
pub open spec fn occurs_at(s: Seq<char>, pat: Seq<char>, i: int) -> bool {
    0 <= i && i + pat.len() <= s.len() && s.subrange(i, i + pat.len()) == pat
}

pub fn matches_at(s: &[char], pat: &[char], i: usize) -> (r: bool)
    ensures
        r == occurs_at(s@, pat@, i as int),
{
    if i > s.len() || pat.len() > s.len() - i {
        return false;
    }
    let mut k: usize = 0;
    while k < pat.len()
        invariant
            i + pat@.len() <= s@.len(),
            i + pat@.len() <= s.len(),
            k <= pat@.len(),
            forall|j: int| 0 <= j < k ==> s@[i + j] == pat@[j],
        decreases pat@.len() - k,
    {
        if s[i + k] != pat[k] {
            assert(s@.subrange(i as int, i + pat@.len())[k as int] != pat@[k as int]);
            return false;
        }
        k = k + 1;
    }
    assert(s@.subrange(i as int, i + pat@.len()) =~= pat@);
    true
}

/// `str::starts_with` with a string pattern.
pub open spec fn starts_with(s: Seq<char>, pat: Seq<char>) -> bool {
    occurs_at(s, pat, 0)
}

/// `str::ends_with` with a string pattern.
pub open spec fn ends_with(s: Seq<char>, pat: Seq<char>) -> bool {
    occurs_at(s, pat, s.len() - pat.len())
}

pub fn has_prefix(s: &[char], pat: &[char]) -> (r: bool)
    ensures
        r == starts_with(s@, pat@),
{
    matches_at(s, pat, 0)
}

pub fn has_suffix(s: &[char], pat: &[char]) -> (r: bool)
    ensures
        r == ends_with(s@, pat@),
{
    if pat.len() > s.len() {
        false
    } else {
        matches_at(s, pat, s.len() - pat.len())
    }
}

/// The first index at or after `i` where `pat` occurs (`str::find`).
pub open spec fn find_from(s: Seq<char>, pat: Seq<char>, i: int) -> Option<int>
    decreases s.len() + 1 - i,
{
    if i < 0 || i + pat.len() > s.len() {
        None
    } else if occurs_at(s, pat, i) {
        Some(i)
    } else {
        find_from(s, pat, i + 1)
    }
}

pub open spec fn find(s: Seq<char>, pat: Seq<char>) -> Option<int> {
    find_from(s, pat, 0)
}

/// `str::contains` with a string pattern.
pub open spec fn contains(s: Seq<char>, pat: Seq<char>) -> bool {
    find(s, pat) is Some
}

pub proof fn lemma_find_from_props(s: Seq<char>, pat: Seq<char>, i: int)
    requires
        0 <= i,
    ensures
        find_from(s, pat, i) matches Some(k) ==> i <= k && occurs_at(s, pat, k) && forall|
            j: int,
        | i <= j < k ==> !occurs_at(s, pat, j),
        find_from(s, pat, i) is None ==> forall|j: int| i <= j ==> !occurs_at(s, pat, j),
    decreases s.len() + 1 - i,
{
    if i + pat.len() > s.len() {
    } else if occurs_at(s, pat, i) {
    } else {
        lemma_find_from_props(s, pat, i + 1);
    }
}

pub fn find_chars_from(s: &[char], pat: &[char], start: usize) -> (r: Option<usize>)
    ensures
        r matches Some(k) ==> find_from(s@, pat@, start as int) == Some(k as int),
        r is None ==> find_from(s@, pat@, start as int) is None,
{
    let mut i = start;
    while i <= s.len() && pat.len() <= s.len() - i
        invariant
            start <= i,
            find_from(s@, pat@, i as int) == find_from(s@, pat@, start as int),
        decreases s@.len() + 1 - i,
    {
        if matches_at(s, pat, i) {
            return Some(i);
        }
        assert(pat@.len() > 0) by {
            if pat@.len() == 0 {
                assert(s@.subrange(i as int, i as int) =~= pat@);
            }
        }
        i = i + 1;
    }
    None
}

pub fn find_chars(s: &[char], pat: &[char]) -> (r: Option<usize>)
    ensures
        r matches Some(k) ==> find(s@, pat@) == Some(k as int),
        r is None ==> find(s@, pat@) is None,
{
    find_chars_from(s, pat, 0)
}

pub fn contains_chars(s: &[char], pat: &[char]) -> (r: bool)
    ensures
        r == contains(s@, pat@),
{
    find_chars(s, pat).is_some()
}

/// The last index at or before `i` where `pat` occurs.
pub open spec fn rfind_from(s: Seq<char>, pat: Seq<char>, i: int) -> Option<int>
    decreases i + 1,
{
    if i < 0 {
        None
    } else if occurs_at(s, pat, i) {
        Some(i)
    } else {
        rfind_from(s, pat, i - 1)
    }
}

pub proof fn lemma_rfind_from_props(s: Seq<char>, pat: Seq<char>, i: int)
    ensures
        rfind_from(s, pat, i) matches Some(k) ==> k <= i && occurs_at(s, pat, k),
    decreases i + 1,
{
    if i >= 0 && !occurs_at(s, pat, i) {
        lemma_rfind_from_props(s, pat, i - 1);
    }
}

/// `str::rfind` with a string pattern.
pub open spec fn rfind(s: Seq<char>, pat: Seq<char>) -> Option<int> {
    rfind_from(s, pat, s.len() - pat.len())
}

pub fn rfind_chars(s: &[char], pat: &[char]) -> (r: Option<usize>)
    ensures
        r matches Some(k) ==> rfind(s@, pat@) == Some(k as int),
        r is None ==> rfind(s@, pat@) is None,
{
    if pat.len() > s.len() {
        return None;
    }
    let mut i = s.len() - pat.len();
    loop
        invariant
            i <= s@.len() - pat@.len(),
            rfind_from(s@, pat@, i as int) == rfind(s@, pat@),
        decreases i,
    {
        if matches_at(s, pat, i) {
            return Some(i);
        }
        if i == 0 {
            assert(rfind_from(s@, pat@, -1) is None);
            return None;
        }
        i = i - 1;
    }
}


// ---------------------------------------------------------------------
// Lines, words and pieces
// ---------------------------------------------------------------------
/// The first index at or after `i` that holds a line feed, or the length.
pub open spec fn next_nl(s: Seq<char>, i: int) -> int
    decreases s.len() - i,
{
    if 0 <= i < s.len() && s[i] != '\n' {
        next_nl(s, i + 1)
    } else {
        i
    }
}

pub proof fn lemma_next_nl_bounds(s: Seq<char>, i: int)
    requires
        0 <= i <= s.len(),
    ensures
        i <= next_nl(s, i) <= s.len(),
        next_nl(s, i) < s.len() ==> s[next_nl(s, i)] == '\n',
    decreases s.len() - i,
{
    if i < s.len() && s[i] != '\n' {
        lemma_next_nl_bounds(s, i + 1);
    }
}

/// `t` without one trailing carriage return.
pub open spec fn strip_cr(t: Seq<char>) -> Seq<char> {
    if t.len() > 0 && t.last() == '\r' {
        t.drop_last()
    } else {
        t
    }
}

/// The lines of `s.subrange(i, s.len())`, as `str::lines` yields them.
pub open spec fn lines_from(s: Seq<char>, i: int) -> Seq<Seq<char>>
    decreases s.len() - i,
{
    if i < 0 || i >= s.len() {
        seq![]
    } else {
        let e = next_nl(s, i);
        proof {
            lemma_next_nl_bounds(s, i);
        }
        if e >= s.len() {
            seq![s.subrange(i, s.len() as int)]
        } else {
            seq![strip_cr(s.subrange(i, e))] + lines_from(s, e + 1)
        }
    }
}

/// `str::lines`: pieces separated by `\n` or `\r\n`; a final line ending
/// adds no empty line.
pub open spec fn lines(s: Seq<char>) -> Seq<Seq<char>> {
    lines_from(s, 0)
}

pub fn strip_cr_chars(t: &[char]) -> (r: Vec<char>)
    ensures
        r@ == strip_cr(t@),
{
    if t.len() > 0 && t[t.len() - 1] == '\r' {
        slice_to_vec(slice_subrange(t, 0, t.len() - 1))
    } else {
        slice_to_vec(t)
    }
}

pub fn lines_of(s: &[char]) -> (r: Vec<Vec<char>>)
    ensures
        dv(r@) == lines(s@),
{
    let mut out: Vec<Vec<char>> = Vec::new();
    let mut i: usize = 0;
    while i < s.len()
        invariant
            i <= s@.len(),
            dv(out@) + lines_from(s@, i as int) == lines(s@),
        decreases s@.len() - i,
    {
        let mut e = i;
        while e < s.len() && s[e] != '\n'
            invariant
                i <= e <= s@.len(),
                next_nl(s@, e as int) == next_nl(s@, i as int),
            decreases s@.len() - e,
        {
            e = e + 1;
        }
        if e == s.len() {
            let line = slice_to_vec(slice_subrange(s, i, e));
            proof {
                lemma_dv_push(out@, line);
                assert(lines_from(s@, i as int) == seq![s@.subrange(i as int, s@.len() as int)]);
                assert(lines_from(s@, e as int) =~= Seq::<Seq<char>>::empty());
            }
            out.push(line);
            i = e;
        } else {
            let line = strip_cr_chars(slice_subrange(s, i, e));
            proof {
                lemma_dv_push(out@, line);
                assert(dv(out@.push(line)) + lines_from(s@, e + 1) =~= dv(out@) + lines_from(
                    s@,
                    i as int,
                ));
            }
            out.push(line);
            i = e + 1;
        }
    }
    assert(lines_from(s@, i as int) =~= Seq::<Seq<char>>::empty());
    assert(dv(out@) + Seq::<Seq<char>>::empty() =~= dv(out@));
    out
}

/// The first index at or after `i` that holds whitespace, or the length.
pub open spec fn next_ws(s: Seq<char>, i: int) -> int
    decreases s.len() - i,
{
    if 0 <= i < s.len() && !is_ws(s[i]) {
        next_ws(s, i + 1)
    } else {
        i
    }
}

pub proof fn lemma_next_ws_bounds(s: Seq<char>, i: int)
    requires
        0 <= i <= s.len(),
    ensures
        i <= next_ws(s, i) <= s.len(),
    decreases s.len() - i,
{
    if i < s.len() && !is_ws(s[i]) {
        lemma_next_ws_bounds(s, i + 1);
    }
}

/// The whitespace-separated words of `s.subrange(i, s.len())`.
pub open spec fn words_from(s: Seq<char>, i: int) -> Seq<Seq<char>>
    decreases s.len() - i,
{
    if i < 0 || i > s.len() {
        seq![]
    } else {
        let a = skip_ws(s, i);
        proof {
            lemma_skip_ws_bounds(s, i);
        }
        if a >= s.len() {
            seq![]
        } else {
            let b = next_ws(s, a);
            proof {
                lemma_next_ws_bounds(s, a + 1);
            }
            seq![s.subrange(a, b)] + words_from(s, b)
        }
    }
}

/// `str::split_whitespace`.
pub open spec fn words(s: Seq<char>) -> Seq<Seq<char>> {
    words_from(s, 0)
}

pub fn words_of(s: &[char]) -> (r: Vec<Vec<char>>)
    ensures
        dv(r@) == words(s@),
{
    let mut out: Vec<Vec<char>> = Vec::new();
    let mut i: usize = 0;
    loop
        invariant
            i <= s@.len(),
            dv(out@) + words_from(s@, i as int) == words(s@),
        decreases s@.len() - i,
    {
        let mut a = i;
        while a < s.len() && char_is_ws(s[a])
            invariant
                i <= a <= s@.len(),
                skip_ws(s@, a as int) == skip_ws(s@, i as int),
            decreases s@.len() - a,
        {
            a = a + 1;
        }
        if a == s.len() {
            assert(dv(out@) + Seq::<Seq<char>>::empty() =~= dv(out@));
            return out;
        }
        let mut b = a + 1;
        while b < s.len() && !char_is_ws(s[b])
            invariant
                a < b <= s@.len(),
                next_ws(s@, b as int) == next_ws(s@, a as int),
            decreases s@.len() - b,
        {
            b = b + 1;
        }
        let w = slice_to_vec(slice_subrange(s, a, b));
        proof {
            lemma_dv_push(out@, w);
            assert(dv(out@.push(w)) + words_from(s@, b as int) =~= dv(out@) + words_from(
                s@,
                i as int,
            ));
        }
        out.push(w);
        i = b;
    }
}

/// The pieces of `s.subrange(i, s.len())` between occurrences of `pat`
/// (`str::split` with a non-empty string pattern).
pub open spec fn split_from(s: Seq<char>, pat: Seq<char>, i: int) -> Seq<Seq<char>>
    decreases s.len() + 1 - i,
{
    if pat.len() == 0 || i < 0 || i > s.len() {
        seq![s.subrange(i, s.len() as int)]
    } else {
        match find_from(s, pat, i) {
            None => seq![s.subrange(i, s.len() as int)],
            Some(k) => {
                proof {
                    lemma_find_from_props(s, pat, i);
                }
                seq![s.subrange(i, k)] + split_from(s, pat, k + pat.len())
            },
        }
    }
}

/// `split_from` always yields at least one piece.
pub proof fn lemma_split_from_nonempty(s: Seq<char>, pat: Seq<char>, i: int)
    ensures
        split_from(s, pat, i).len() >= 1,
{
    if !(pat.len() == 0 || i < 0 || i > s.len()) {
        lemma_find_from_props(s, pat, i);
    }
}

pub open spec fn split(s: Seq<char>, pat: Seq<char>) -> Seq<Seq<char>> {
    split_from(s, pat, 0)
}

pub fn split_chars(s: &[char], pat: &[char]) -> (r: Vec<Vec<char>>)
    requires
        pat@.len() > 0,
    ensures
        dv(r@) == split(s@, pat@),
{
    let mut out: Vec<Vec<char>> = Vec::new();
    let mut i: usize = 0;
    loop
        invariant
            pat@.len() > 0,
            i <= s@.len(),
            s@.len() == s.len(),
            dv(out@) + split_from(s@, pat@, i as int) == split(s@, pat@),
        decreases s@.len() + 1 - i,
    {
        match find_chars_from(s, pat, i) {
            None => {
                let w = slice_to_vec(slice_subrange(s, i, s.len()));
                proof {
                    lemma_dv_push(out@, w);
                }
                out.push(w);
                return out;
            },
            Some(k) => {
                proof {
                    lemma_find_from_props(s@, pat@, i as int);
                }
                let w = slice_to_vec(slice_subrange(s, i, k));
                proof {
                    lemma_dv_push(out@, w);
                    assert(dv(out@.push(w)) + split_from(s@, pat@, k + pat@.len()) =~= dv(out@)
                        + split_from(s@, pat@, i as int));
                }
                out.push(w);
                let pl = pat.len();
                assert(pl == pat@.len());
                assert(k + pl <= s@.len());
                i = k + pl;
            },
        }
    }
}

/// `str::splitn(2, pat)`: the piece before the first occurrence of `pat`
/// and the rest, or the whole of `s` when `pat` does not occur.
pub open spec fn split_once(s: Seq<char>, pat: Seq<char>) -> Seq<Seq<char>> {
    match find(s, pat) {
        None => seq![s],
        Some(k) => seq![s.subrange(0, k), s.subrange(k + pat.len(), s.len() as int)],
    }
}

pub fn split_once_chars(s: &[char], pat: &[char]) -> (r: Vec<Vec<char>>)
    ensures
        dv(r@) == split_once(s@, pat@),
{
    let mut out: Vec<Vec<char>> = Vec::new();
    match find_chars(s, pat) {
        None => {
            let w = slice_to_vec(s);
            out.push(w);
            assert(dv(out@) =~= seq![s@]);
        },
        Some(k) => {
            proof {
                lemma_find_from_props(s@, pat@, 0);
            }
            assert(k + pat@.len() <= s@.len());
            assert(s@.len() == s.len());
            let a = slice_to_vec(slice_subrange(s, 0, k));
            let b = slice_to_vec(slice_subrange(s, k + pat.len(), s.len()));
            out.push(a);
            out.push(b);
            assert(dv(out@) =~= seq![a@, b@]);
        },
    }
    out
}

/// The index reached from `i` by removing copies of `pat` one after the other.
pub open spec fn strip_prefixes_from(s: Seq<char>, pat: Seq<char>, i: int) -> int
    decreases s.len() - i,
{
    if pat.len() > 0 && occurs_at(s, pat, i) {
        strip_prefixes_from(s, pat, i + pat.len())
    } else {
        i
    }
}

/// `str::trim_start_matches` with a string pattern.
pub open spec fn trim_start_str(s: Seq<char>, pat: Seq<char>) -> Seq<char> {
    s.subrange(strip_prefixes_from(s, pat, 0), s.len() as int)
}

pub proof fn lemma_strip_prefixes_bounds(s: Seq<char>, pat: Seq<char>, i: int)
    requires
        0 <= i <= s.len(),
    ensures
        i <= strip_prefixes_from(s, pat, i) <= s.len(),
    decreases s.len() - i,
{
    if pat.len() > 0 && occurs_at(s, pat, i) {
        lemma_strip_prefixes_bounds(s, pat, i + pat.len());
    }
}

/// Once every leading copy of a non-empty `pat` is removed, what is left
/// does not start with `pat`.
pub proof fn lemma_trim_start_str_done(s: Seq<char>, pat: Seq<char>, i: int)
    requires
        pat.len() > 0,
        0 <= i <= s.len(),
    ensures
        !occurs_at(s, pat, strip_prefixes_from(s, pat, i)),
    decreases s.len() - i,
{
    if occurs_at(s, pat, i) {
        lemma_trim_start_str_done(s, pat, i + pat.len());
    }
}

pub fn trim_start_matches_chars(s: &[char], pat: &[char]) -> (r: Vec<char>)
    ensures
        r@ == trim_start_str(s@, pat@),
{
    let mut i: usize = 0;
    if pat.len() > 0 {
        loop
            invariant
                i <= s@.len(),
                s@.len() == s.len(),
                pat@.len() > 0,
                strip_prefixes_from(s@, pat@, i as int) == strip_prefixes_from(s@, pat@, 0),
            ensures
                i <= s@.len(),
                strip_prefixes_from(s@, pat@, 0) == i,
            decreases s@.len() - i,
        {
            if !matches_at(s, pat, i) {
                assert(pat@.len() > 0 && !occurs_at(s@, pat@, i as int));
                assert(strip_prefixes_from(s@, pat@, i as int) == i);
                break;
            }
            assert(i + pat@.len() <= s@.len());
            i = i + pat.len();
        }
    }
    assert(strip_prefixes_from(s@, pat@, 0) == i);
    slice_to_vec(slice_subrange(s, i, s.len()))
}

/// The pieces of `xs` joined with `sep` between them (`[_]::join`).
pub open spec fn join(xs: Seq<Seq<char>>, sep: Seq<char>) -> Seq<char>
    decreases xs.len(),
{
    if xs.len() == 0 {
        seq![]
    } else if xs.len() == 1 {
        xs[0]
    } else {
        join(xs.drop_last(), sep) + sep + xs.last()
    }
}

pub fn join_chars(xs: &[Vec<char>], sep: &[char]) -> (r: Vec<char>)
    ensures
        r@ == join(dv(xs@), sep@),
{
    let mut out: Vec<char> = Vec::new();
    let mut i: usize = 0;
    while i < xs.len()
        invariant
            i <= xs@.len(),
            out@ == join(dv(xs@).take(i as int), sep@),
        decreases xs@.len() - i,
    {
        let ghost before = out@;
        if i > 0 {
            out.extend_from_slice(sep);
        }
        out.extend_from_slice(xs[i].as_slice());
        proof {
            let t = dv(xs@).take(i + 1);
            assert(t.drop_last() =~= dv(xs@).take(i as int));
            if i == 0 {
                assert(out@ =~= t[0]);
            } else {
                assert(out@ =~= before + sep@ + t.last());
            }
        }
        i = i + 1;
    }
    assert(dv(xs@).take(xs@.len() as int) =~= dv(xs@));
    out
}


// ---------------------------------------------------------------------
// Numbers
// ---------------------------------------------------------------------
/// `char::to_digit(radix)`.
pub open spec fn digit_value(c: char, radix: nat) -> Option<nat> {
    let v = c as u32;
    let d: int = if 48 <= v <= 57 {
        v - 48
    } else if 97 <= v <= 122 {
        v - 97 + 10
    } else if 65 <= v <= 90 {
        v - 65 + 10
    } else {
        36
    };
    if d < radix {
        Some(d as nat)
    } else {
        None
    }
}

/// The value of the digit string `d` in base `radix`, if every character is a digit.
pub open spec fn digits_value(d: Seq<char>, radix: nat) -> Option<nat>
    decreases d.len(),
{
    if d.len() == 0 {
        Some(0)
    } else {
        match (digits_value(d.drop_last(), radix), digit_value(d.last(), radix)) {
            (Some(v), Some(x)) => Some(v * radix + x),
            _ => None,
        }
    }
}

/// `from_str_radix` (and `str::parse` when `radix` is 10) for an unsigned
/// integer type whose largest value is `max`: an optional `+`, then at
/// least one digit, and a value that fits.
pub open spec fn parse_unsigned(s: Seq<char>, radix: nat, max: nat) -> Option<nat> {
    let d = if s.len() > 1 && s[0] == '+' {
        s.drop_first()
    } else {
        s
    };
    if s.len() == 0 {
        None
    } else {
        match digits_value(d, radix) {
            Some(v) => if v <= max {
                Some(v)
            } else {
                None
            },
            None => None,
        }
    }
}

pub fn char_digit(c: char, radix: u32) -> (r: Option<u32>)
    requires
        2 <= radix <= 36,
    ensures
        r matches Some(x) ==> digit_value(c, radix as nat) == Some(x as nat),
        r is None ==> digit_value(c, radix as nat) is None,
{
    let v = c as u32;
    let d: u32 = if 48 <= v && v <= 57 {
        v - 48
    } else if 97 <= v && v <= 122 {
        v - 97 + 10
    } else if 65 <= v && v <= 90 {
        v - 65 + 10
    } else {
        36
    };
    if d < radix {
        Some(d)
    } else {
        None
    }
}

proof fn lemma_digits_value_prefix(d: Seq<char>, radix: nat, k: int)
    requires
        0 <= k <= d.len(),
        radix >= 1,
    ensures
        digits_value(d.take(k), radix) is None ==> digits_value(d, radix) is None,
        digits_value(d.take(k), radix) matches Some(a) ==> (digits_value(d, radix) matches Some(
            b,
        ) ==> a <= b),
    decreases d.len() - k,
{
    if k == d.len() {
        assert(d.take(k) =~= d);
    } else {
        lemma_digits_value_prefix(d, radix, k + 1);
        assert(d.take(k + 1).drop_last() =~= d.take(k));
        if let Some(a) = digits_value(d.take(k), radix) {
            if let Some(x) = digit_value(d[k], radix) {
                assert(a * radix + x >= a) by (nonlinear_arith)
                    requires
                        radix >= 1,
                        a >= 0,
                        x >= 0,
                ;
            }
        }
    }
}

#[verifier::spinoff_prover]
#[verifier::rlimit(30)]
pub fn parse_unsigned_chars(s: &[char], radix: u32, max: usize) -> (r: Option<usize>)
    requires
        2 <= radix <= 36,
    ensures
        r matches Some(v) ==> parse_unsigned(s@, radix as nat, max as nat) == Some(v as nat),
        r is None ==> parse_unsigned(s@, radix as nat, max as nat) is None,
{
    if s.len() == 0 {
        return None;
    }
    let start: usize = if s.len() > 1 && s[0] == '+' {
        1
    } else {
        0
    };
    let ghost d = if s@.len() > 1 && s@[0] == '+' {
        s@.drop_first()
    } else {
        s@
    };
    assert(d =~= s@.subrange(start as int, s@.len() as int));
    let mut v: usize = 0;
    let mut i: usize = start;
    assert(d.take(0) =~= Seq::<char>::empty());
    while i < s.len()
        invariant
            start <= i <= s@.len(),
            s@.len() == s.len(),
            2 <= radix <= 36,
            d == s@.subrange(start as int, s@.len() as int),
            s@.len() > 0,
            d == (if s@.len() > 1 && s@[0] == '+' {
                s@.drop_first()
            } else {
                s@
            }),
            v <= max,
            digits_value(d.take(i - start), radix as nat) == Some(v as nat),
        decreases s@.len() - i,
    {
        let k: Ghost<int> = Ghost(i - start);
        assert(d.take(k@ + 1).drop_last() =~= d.take(k@));
        assert(d.take(k@ + 1).last() == s@[i as int]);
        match char_digit(s[i], radix) {
            None => {
                proof {
                    assert(digits_value(d.take(k@ + 1), radix as nat) is None);
                    lemma_digits_value_prefix(d, radix as nat, k@ + 1);
                    assert(digits_value(d, radix as nat) is None);
                }
                return None;
            },
            Some(x) => {
                let xs = x as usize;
                if xs > max || v > (max - xs) / (radix as usize) {
                    proof {
                        let r = radix as int;
                        let q = (max - xs) / r;
                        if xs as int <= max as int {
                            assert(v * r + xs > max) by (nonlinear_arith)
                                requires
                                    v > q,
                                    q == (max - xs) / r,
                                    r >= 2,
                                    xs <= max,
                            ;
                        } else {
                            assert(v * r + xs > max) by (nonlinear_arith)
                                requires
                                    xs > max,
                                    r >= 2,
                                    v >= 0,
                            ;
                        }
                        assert(digits_value(d.take(k@ + 1), radix as nat) == Some(
                            (v * r + xs) as nat,
                        ));
                        lemma_digits_value_prefix(d, radix as nat, k@ + 1);
                    }
                    return None;
                }
                proof {
                    let r = radix as int;
                    let q = (max - xs) / r;
                    assert(v * r + xs <= max) by (nonlinear_arith)
                        requires
                            v <= q,
                            q == (max - xs) / r,
                            r >= 2,
                            xs <= max,
                    ;
                }
                v = v * (radix as usize) + xs;
                i = i + 1;
            },
        }
    }
    assert(d.take(i - start) =~= d);
    Some(v)
}

pub open spec fn digit_char(d: nat) -> char {
    if d < 10 {
        ((d + 48) as u8) as char
    } else {
        ((d + 55) as u8) as char
    }
}

/// The digits of `n` in base `radix`, most significant first, upper-case
/// letters for digits above nine, and no leading zeros.
pub open spec fn radix_digits(n: nat, radix: nat) -> Seq<char>
    decreases n,
{
    if n < radix || radix < 2 {
        seq![digit_char(n)]
    } else {
        proof {
            assert(n / radix < n) by (nonlinear_arith)
                requires
                    radix >= 2,
                    n >= radix,
            ;
        }
        radix_digits(n / radix, radix) + seq![digit_char(n % radix)]
    }
}

/// `n` written in decimal, as `format!("{}", n)` writes it.
pub open spec fn decimal(n: nat) -> Seq<char> {
    radix_digits(n, 10)
}

/// `n` written in upper-case hexadecimal, as `format!("{:X}", n)` writes it.
pub open spec fn hex_upper(n: nat) -> Seq<char> {
    radix_digits(n, 16)
}

pub fn radix_digits_chars(n: usize, radix: usize) -> (r: Vec<char>)
    requires
        radix == 10 || radix == 16,
    ensures
        r@ == radix_digits(n as nat, radix as nat),
    decreases n,
{
    let d = n % radix;
    let c = if d < 10 {
        ((d + 48) as u8) as char
    } else {
        ((d + 55) as u8) as char
    };
    if n < radix {
        let mut out = Vec::new();
        out.push(c);
        assert(out@ =~= seq![digit_char(n as nat)]);
        out
    } else {
        let mut out = radix_digits_chars(n / radix, radix);
        out.push(c);
        out
    }
}

pub fn decimal_chars(n: usize) -> (r: Vec<char>)
    ensures
        r@ == decimal(n as nat),
{
    radix_digits_chars(n, 10)
}

pub fn hex_upper_chars(n: usize) -> (r: Vec<char>)
    ensures
        r@ == hex_upper(n as nat),
{
    radix_digits_chars(n, 16)
}


// ---------------------------------------------------------------------
// Strings and bytes
// ---------------------------------------------------------------------
/// What `str::to_lowercase` returns for a string with these characters.
pub uninterp spec fn lowercase(s: Seq<char>) -> Seq<char>;

/// What `str::to_uppercase` returns for a string with these characters.
pub uninterp spec fn uppercase(s: Seq<char>) -> Seq<char>;

/// What `String::from_utf8_lossy` returns for these bytes.
pub uninterp spec fn utf8_lossy(b: Seq<u8>) -> Seq<char>;

/// Calls `String::push`; the contract states that `c` is appended.
#[verifier::external_body]
fn string_push(s: &mut String, c: char)
    ensures
        final(s)@ == old(s)@.push(c),
{
    s.push(c);
}

/// Calls `str::to_lowercase`; the result is named `lowercase` of the input.
#[verifier::external_body]
fn str_to_lowercase(s: &str) -> (r: String)
    ensures
        r@ == lowercase(s@),
{
    s.to_lowercase()
}

/// Calls `str::to_uppercase`; the result is named `uppercase` of the input.
#[verifier::external_body]
fn str_to_uppercase(s: &str) -> (r: String)
    ensures
        r@ == uppercase(s@),
{
    s.to_uppercase()
}

/// Calls `String::from_utf8_lossy`; the result is named `utf8_lossy` of the
/// bytes, and, as its documentation says, bytes that are valid UTF-8 are
/// decoded unchanged.
#[verifier::external_body]
fn bytes_to_string_lossy(b: &[u8]) -> (r: String)
    ensures
        r@ == utf8_lossy(b@),
        vstd::utf8::valid_utf8(b@) ==> r@ == vstd::utf8::decode_utf8(b@),
{
    String::from_utf8_lossy(b).into_owned()
}

/// The characters of `s`.
pub fn chars_of(s: &str) -> (r: Vec<char>)
    ensures
        r@ == s@,
{
    let mut out: Vec<char> = Vec::new();
    for c in it: s.chars()
        invariant
            out@ == it.seq().take(it.index() as int),
    {
        out.push(c);
    }
    out
}

/// A `String` holding the characters `v`.
pub fn string_of(v: &[char]) -> (r: String)
    ensures
        r@ == v@,
{
    let mut s = String::new();
    let mut i: usize = 0;
    while i < v.len()
        invariant
            i <= v@.len(),
            s@ == v@.take(i as int),
        decreases v@.len() - i,
    {
        string_push(&mut s, v[i]);
        assert(v@.take(i + 1) =~= v@.take(i as int).push(v@[i as int]));
        i = i + 1;
    }
    assert(v@.take(v@.len() as int) =~= v@);
    s
}

/// Whether the characters `a` spell `lit`.
pub fn eq_lit(a: &[char], lit: &str) -> (r: bool)
    ensures
        r == (a@ == lit@),
{
    string_of(a) == String::from_str(lit)
}

/// A copy of a vector of strings.
pub fn clone_strings(v: &Vec<String>) -> (r: Vec<String>)
    ensures
        strs(r@) == strs(v@),
{
    let mut out: Vec<String> = Vec::new();
    let mut i: usize = 0;
    while i < v.len()
        invariant
            i <= v@.len(),
            strs(out@) == strs(v@).take(i as int),
        decreases v@.len() - i,
    {
        let s = v[i].clone();
        assert(s@ == v@[i as int]@);
        assert(strs(out@.push(s)) =~= strs(out@).push(s@));
        assert(strs(v@).take(i + 1) =~= strs(v@).take(i as int).push(v@[i as int]@));
        out.push(s);
        i = i + 1;
    }
    assert(strs(v@).take(v@.len() as int) =~= strs(v@));
    out
}

/// A copy of an optional string.
pub fn clone_opt_string(o: &Option<String>) -> (r: Option<String>)
    ensures
        opt_view(r) == opt_view(*o),
{
    match o {
        Some(s) => Some(s.clone()),
        None => None,
    }
}

/// The characters of `s` in lower case (`str::to_lowercase`).
pub fn lower_chars(s: &[char]) -> (r: Vec<char>)
    ensures
        r@ == lowercase(s@),
{
    let st = string_of(s);
    let low = str_to_lowercase(st.as_str());
    chars_of(low.as_str())
}

/// The characters of `s` in upper case (`str::to_uppercase`).
pub fn upper_chars(s: &[char]) -> (r: Vec<char>)
    ensures
        r@ == uppercase(s@),
{
    let st = string_of(s);
    let up = str_to_uppercase(st.as_str());
    chars_of(up.as_str())
}

/// The characters of `String::from_utf8_lossy(b)`.
pub fn lossy_chars(b: &[u8]) -> (r: Vec<char>)
    ensures
        r@ == utf8_lossy(b@),
        vstd::utf8::valid_utf8(b@) ==> r@ == vstd::utf8::decode_utf8(b@),
{
    let st = bytes_to_string_lossy(b);
    chars_of(st.as_str())
}

/// The UTF-8 encoding of the characters `v` (`String::into_bytes`).
pub fn utf8_of(v: &[char]) -> (r: Vec<u8>)
    ensures
        r@ == vstd::utf8::encode_utf8(v@),
{
    let st = string_of(v);
    let b = st.as_str().as_bytes();
    slice_to_vec(b)
}

} // verus!
