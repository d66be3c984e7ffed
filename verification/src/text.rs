//! Character-level text model shared by the IR scanners.
//!
//! Every string is viewed as a `Seq<char>`.  The spec functions below say
//! what trimming, searching, line splitting and joining compute; the
//! executable helpers work on `Vec<char>` buffers and are proved to match.

use vstd::prelude::*;

verus! {

// ---------------------------------------------------------------------------
// Character classes
// ---------------------------------------------------------------------------

/// Whether a character has the Unicode `White_Space` property: the code
/// points that `PropList.txt` lists for it.
pub open spec fn spec_is_whitespace(c: char) -> bool {
    ||| '\u{9}' <= c <= '\u{d}'
    ||| c == ' '
    ||| c == '\u{85}'
    ||| c == '\u{a0}'
    ||| c == '\u{1680}'
    ||| '\u{2000}' <= c <= '\u{200a}'
    ||| c == '\u{2028}'
    ||| c == '\u{2029}'
    ||| c == '\u{202f}'
    ||| c == '\u{205f}'
    ||| c == '\u{3000}'
}

/// Whether a character is alphabetic or numeric in the Unicode sense.
pub uninterp spec fn spec_is_alphanumeric(c: char) -> bool;

/// `char::is_whitespace`: true exactly for characters with the Unicode
/// `White_Space` property (see `spec_is_whitespace`).
pub assume_specification[ char::is_whitespace ](c: char) -> (b: bool)
    ensures
        b == spec_is_whitespace(c),
;

/// `char::is_alphanumeric`: true for alphabetic or numeric characters; the
/// contract only names that predicate.
pub assume_specification[ char::is_alphanumeric ](c: char) -> (b: bool)
    ensures
        b == spec_is_alphanumeric(c),
;

/// `String::push` appends one character to the end of the string.
pub assume_specification[ String::push ](s: &mut String, ch: char)
    ensures
        final(s)@ == old(s)@.push(ch),
;

/// Characters allowed in an LLVM block label: alphanumerics, `_`, `.`, `-`.
pub open spec fn is_label_char(c: char) -> bool {
    spec_is_alphanumeric(c) || c == '_' || c == '.' || c == '-'
}

pub fn label_char(c: char) -> (b: bool)
    ensures
        b == is_label_char(c),
{
    c.is_alphanumeric() || c == '_' || c == '.' || c == '-'
}

// ---------------------------------------------------------------------------
// Spec model
// ---------------------------------------------------------------------------

/// Index of the first non-whitespace character at or after `i`.
pub open spec fn ws_run_end(s: Seq<char>, i: int) -> int
    decreases s.len() - i,
{
    if 0 <= i < s.len() && spec_is_whitespace(s[i]) {
        ws_run_end(s, i + 1)
    } else {
        i
    }
}

/// Index just past the last non-whitespace character at or before `j`.
pub open spec fn ws_run_start(s: Seq<char>, j: int) -> int
    decreases j,
{
    if 0 < j <= s.len() && spec_is_whitespace(s[j - 1]) {
        ws_run_start(s, j - 1)
    } else {
        j
    }
}

/// `str::trim_start`.
pub open spec fn trim_start(s: Seq<char>) -> Seq<char> {
    s.skip(ws_run_end(s, 0))
}

/// `str::trim_end`.
pub open spec fn trim_end(s: Seq<char>) -> Seq<char> {
    s.take(ws_run_start(s, s.len() as int))
}

/// `str::trim`.
pub open spec fn trim(s: Seq<char>) -> Seq<char> {
    trim_end(trim_start(s))
}

/// `s` holds `p` at position `i`.
pub open spec fn matches_at(s: Seq<char>, p: Seq<char>, i: int) -> bool {
    0 <= i && i + p.len() <= s.len() && s.subrange(i, i + p.len()) == p
}

/// `str::starts_with`.
pub open spec fn starts_with(s: Seq<char>, p: Seq<char>) -> bool {
    matches_at(s, p, 0)
}

/// First position at or after `i` where `p` occurs in `s`.
pub open spec fn find_from(s: Seq<char>, p: Seq<char>, i: int) -> Option<int>
    decreases s.len() + 1 - i,
{
    if i < 0 || i + p.len() > s.len() {
        None
    } else if s.subrange(i, i + p.len()) == p {
        Some(i)
    } else {
        find_from(s, p, i + 1)
    }
}

/// `str::find` with a string pattern.
pub open spec fn find(s: Seq<char>, p: Seq<char>) -> Option<int> {
    find_from(s, p, 0)
}

/// `str::contains` with a string pattern.
pub open spec fn contains(s: Seq<char>, p: Seq<char>) -> bool {
    find(s, p) is Some
}

/// Index of the first occurrence of `c` at or after `i`, or `s.len()`.
pub open spec fn char_pos_from(s: Seq<char>, c: char, i: int) -> int
    decreases s.len() - i,
{
    if 0 <= i < s.len() && s[i] != c {
        char_pos_from(s, c, i + 1)
    } else {
        i
    }
}

/// Index of the first character at or after `i` that is not `c`.
pub open spec fn skip_char_from(s: Seq<char>, c: char, i: int) -> int
    decreases s.len() - i,
{
    if 0 <= i < s.len() && s[i] == c {
        skip_char_from(s, c, i + 1)
    } else {
        i
    }
}

/// `str::trim_start_matches` with a single character.
pub open spec fn trim_start_char(s: Seq<char>, c: char) -> Seq<char> {
    s.skip(skip_char_from(s, c, 0))
}

/// Index of the first non-label character at or after `i`, or `s.len()`.
pub open spec fn label_end(s: Seq<char>, i: int) -> int
    decreases s.len() - i,
{
    if 0 <= i < s.len() && is_label_char(s[i]) {
        label_end(s, i + 1)
    } else {
        i
    }
}

/// Every character of `s` is a label character.
pub open spec fn all_label_chars(s: Seq<char>) -> bool {
    forall|k: int| 0 <= k < s.len() ==> is_label_char(#[trigger] s[k])
}

/// The lines of `s` from position `i` on, as `str::lines` yields them: split
/// at `\n`, a `\r` directly before a `\n` dropped, no empty line after a
/// final `\n`.
pub open spec fn lines_from(s: Seq<char>, i: int) -> Seq<Seq<char>>
    decreases s.len() + 1 - i,
{
    if i < 0 || i >= s.len() {
        seq![]
    } else {
        let e = char_pos_from(s, '\n', i);
        let raw = s.subrange(i, e);
        let line = if e < s.len() && raw.len() > 0 && raw.last() == '\r' {
            raw.drop_last()
        } else {
            raw
        };
        if e < i || e > s.len() {
            seq![]
        } else {
            seq![line] + lines_from(s, e + 1)
        }
    }
}

/// `str::lines`.
pub open spec fn lines(s: Seq<char>) -> Seq<Seq<char>> {
    lines_from(s, 0)
}

/// `[..].join(sep)`.
pub open spec fn join(parts: Seq<Seq<char>>, sep: Seq<char>) -> Seq<char>
    decreases parts.len(),
{
    if parts.len() == 0 {
        seq![]
    } else if parts.len() == 1 {
        parts[0]
    } else {
        join(parts.drop_last(), sep) + sep + parts.last()
    }
}

// ---------------------------------------------------------------------------
// Lemmas
// ---------------------------------------------------------------------------

pub proof fn lemma_ws_run_end_bounds(s: Seq<char>, i: int)
    requires
        0 <= i <= s.len(),
    ensures
        i <= ws_run_end(s, i) <= s.len(),
        ws_run_end(s, i) < s.len() ==> !spec_is_whitespace(s[ws_run_end(s, i)]),
        forall|k: int| i <= k < ws_run_end(s, i) ==> spec_is_whitespace(#[trigger] s[k]),
    decreases s.len() - i,
{
    if i < s.len() && spec_is_whitespace(s[i]) {
        lemma_ws_run_end_bounds(s, i + 1);
    }
}

pub proof fn lemma_ws_run_start_bounds(s: Seq<char>, j: int)
    requires
        0 <= j <= s.len(),
    ensures
        0 <= ws_run_start(s, j) <= j,
        ws_run_start(s, j) > 0 ==> !spec_is_whitespace(s[ws_run_start(s, j) - 1]),
        forall|k: int| ws_run_start(s, j) <= k < j ==> spec_is_whitespace(#[trigger] s[k]),
    decreases j,
{
    if j > 0 && spec_is_whitespace(s[j - 1]) {
        lemma_ws_run_start_bounds(s, j - 1);
    }
}

pub proof fn lemma_find_from_props(s: Seq<char>, p: Seq<char>, i: int)
    requires
        0 <= i,
    ensures
        find_from(s, p, i) matches Some(k) ==> i <= k && matches_at(s, p, k),
        find_from(s, p, i) matches Some(k) ==> forall|m: int|
            i <= m < k ==> !matches_at(s, p, m),
        find_from(s, p, i) is None ==> forall|m: int| i <= m ==> !matches_at(s, p, m),
    decreases s.len() + 1 - i,
{
    if i + p.len() > s.len() {
    } else if s.subrange(i, i + p.len()) == p {
    } else {
        lemma_find_from_props(s, p, i + 1);
    }
}

pub proof fn lemma_label_end_bounds(s: Seq<char>, i: int)
    requires
        0 <= i <= s.len(),
    ensures
        i <= label_end(s, i) <= s.len(),
        label_end(s, i) < s.len() ==> !is_label_char(s[label_end(s, i)]),
        forall|k: int| i <= k < label_end(s, i) ==> is_label_char(#[trigger] s[k]),
    decreases s.len() - i,
{
    if i < s.len() && is_label_char(s[i]) {
        lemma_label_end_bounds(s, i + 1);
    }
}

pub proof fn lemma_char_pos_bounds(s: Seq<char>, c: char, i: int)
    requires
        0 <= i <= s.len(),
    ensures
        i <= char_pos_from(s, c, i) <= s.len(),
        char_pos_from(s, c, i) < s.len() ==> s[char_pos_from(s, c, i)] == c,
        forall|k: int| i <= k < char_pos_from(s, c, i) ==> #[trigger] s[k] != c,
    decreases s.len() - i,
{
    if i < s.len() && s[i] != c {
        lemma_char_pos_bounds(s, c, i + 1);
    }
}

pub proof fn lemma_skip_char_bounds(s: Seq<char>, c: char, i: int)
    requires
        0 <= i <= s.len(),
    ensures
        i <= skip_char_from(s, c, i) <= s.len(),
        skip_char_from(s, c, i) < s.len() ==> s[skip_char_from(s, c, i)] != c,
        forall|k: int| i <= k < skip_char_from(s, c, i) ==> #[trigger] s[k] == c,
    decreases s.len() - i,
{
    if i < s.len() && s[i] == c {
        lemma_skip_char_bounds(s, c, i + 1);
    }
}

// ---------------------------------------------------------------------------
// Executable helpers
// ---------------------------------------------------------------------------

/// The characters of `s`, in order, as a vector.
pub fn chars_of(s: &str) -> (v: Vec<char>)
    ensures
        v@ == s@,
{
    broadcast use vstd::string::group_string_axioms;

    let mut v: Vec<char> = Vec::new();
    for c in it: s.chars()
        invariant
            v@ == it.seq().take(it.index() as int),
            it.seq() == s@,
    {
        v.push(c);
    }
    v
}

/// A `String` holding the characters of `v`.
pub fn string_of(v: &[char]) -> (s: String)
    ensures
        s@ == v@,
{
    let mut s = String::new();
    let mut i: usize = 0;
    while i < v.len()
        invariant
            i <= v.len(),
            s@ == v@.take(i as int),
        decreases v.len() - i,
    {
        s.push(v[i]);
        i += 1;
        assert(s@ =~= v@.take(i as int));
    }
    assert(v@.take(v.len() as int) =~= v@);
    s
}

/// Copy of `v[lo..hi]`.
pub fn copy_range(v: &[char], lo: usize, hi: usize) -> (r: Vec<char>)
    requires
        lo <= hi <= v.len(),
    ensures
        r@ == v@.subrange(lo as int, hi as int),
{
    let mut r: Vec<char> = Vec::new();
    let mut i: usize = lo;
    while i < hi
        invariant
            lo <= i <= hi <= v.len(),
            r@ == v@.subrange(lo as int, i as int),
        decreases hi - i,
    {
        r.push(v[i]);
        i += 1;
        assert(r@ =~= v@.subrange(lo as int, i as int));
    }
    r
}

/// Append all characters of `b` to `a`.
pub fn extend(a: &mut Vec<char>, b: &[char])
    ensures
        final(a)@ == old(a)@ + b@,
{
    let mut i: usize = 0;
    while i < b.len()
        invariant
            i <= b.len(),
            a@ == old(a)@ + b@.take(i as int),
        decreases b.len() - i,
    {
        a.push(b[i]);
        i += 1;
        assert(a@ =~= old(a)@ + b@.take(i as int));
    }
    assert(b@.take(b.len() as int) =~= b@);
}

/// Index of the first non-whitespace character of `v` at or after `i`.
pub fn skip_ws(v: &[char], i: usize) -> (r: usize)
    requires
        i <= v.len(),
    ensures
        r == ws_run_end(v@, i as int),
{
    let mut k = i;
    while k < v.len() && v[k].is_whitespace()
        invariant
            i <= k <= v.len(),
            ws_run_end(v@, i as int) == ws_run_end(v@, k as int),
        decreases v.len() - k,
    {
        k += 1;
    }
    k
}

/// Length of `v` without its trailing whitespace.
pub fn trim_end_len(v: &[char]) -> (r: usize)
    ensures
        r == ws_run_start(v@, v.len() as int),
{
    let mut j = v.len();
    while j > 0 && v[j - 1].is_whitespace()
        invariant
            j <= v.len(),
            ws_run_start(v@, v.len() as int) == ws_run_start(v@, j as int),
        decreases j,
    {
        j -= 1;
    }
    j
}

/// `v` without trailing whitespace.
pub fn trim_end_chars(v: &[char]) -> (r: Vec<char>)
    ensures
        r@ == trim_end(v@),
{
    let j = trim_end_len(v);
    proof {
        lemma_ws_run_start_bounds(v@, v.len() as int);
    }
    copy_range(v, 0, j)
}

/// `v` without leading and trailing whitespace.
pub fn trim_chars(v: &[char]) -> (r: Vec<char>)
    ensures
        r@ == trim(v@),
{
    let i = skip_ws(v, 0);
    proof {
        lemma_ws_run_end_bounds(v@, 0);
    }
    let t = copy_range(v, i, v.len());
    assert(t@ =~= trim_start(v@));
    trim_end_chars(&t)
}

/// Whether `p` occurs in `v` at position `i`.
pub fn matches_at_exec(v: &[char], p: &[char], i: usize) -> (b: bool)
    ensures
        b == matches_at(v@, p@, i as int),
{
    if i > v.len() || p.len() > v.len() - i {
        return false;
    }
    let mut k: usize = 0;
    while k < p.len()
        invariant
            i + p.len() <= v.len(),
            k <= p.len(),
            forall|m: int| 0 <= m < k ==> v@[i + m] == p@[m],
        decreases p.len() - k,
    {
        if v[i + k] != p[k] {
            assert(v@.subrange(i as int, i + p.len())[k as int] != p@[k as int]);
            return false;
        }
        k += 1;
    }
    assert(v@.subrange(i as int, i + p.len()) =~= p@);
    true
}

/// Whether `v` starts with `p`.
pub fn starts_with_exec(v: &[char], p: &[char]) -> (b: bool)
    ensures
        b == starts_with(v@, p@),
{
    matches_at_exec(v, p, 0)
}

/// First position at or after `i` where `p` occurs in `v`.
pub fn find_from_exec(v: &[char], p: &[char], i: usize) -> (r: Option<usize>)
    ensures
        r matches Some(k) ==> find_from(v@, p@, i as int) == Some(k as int),
        r is None ==> find_from(v@, p@, i as int) is None,
{
    if p.len() == 0 {
        if i <= v.len() {
            assert(v@.subrange(i as int, i as int) =~= p@);
            return Some(i);
        } else {
            return None;
        }
    }
    let mut k = i;
    while k < v.len() && p.len() <= v.len() - k
        invariant
            i <= k,
            p.len() > 0,
            find_from(v@, p@, i as int) == find_from(v@, p@, k as int),
        decreases v.len() - k,
    {
        if matches_at_exec(v, p, k) {
            return Some(k);
        }
        k += 1;
    }
    None
}

/// Whether `p` occurs anywhere in `v`.
pub fn contains_exec(v: &[char], p: &[char]) -> (b: bool)
    ensures
        b == contains(v@, p@),
{
    find_from_exec(v, p, 0).is_some()
}

/// Index of the first `c` in `v` at or after `i`, or `v.len()`.
pub fn char_pos(v: &[char], c: char, i: usize) -> (r: usize)
    requires
        i <= v.len(),
    ensures
        r == char_pos_from(v@, c, i as int),
{
    let mut k = i;
    while k < v.len() && v[k] != c
        invariant
            i <= k <= v.len(),
            char_pos_from(v@, c, i as int) == char_pos_from(v@, c, k as int),
        decreases v.len() - k,
    {
        k += 1;
    }
    k
}

/// `v` with all leading occurrences of `c` removed.
pub fn trim_start_char_exec(v: &[char], c: char) -> (r: Vec<char>)
    ensures
        r@ == trim_start_char(v@, c),
{
    let mut k: usize = 0;
    while k < v.len() && v[k] == c
        invariant
            k <= v.len(),
            skip_char_from(v@, c, 0) == skip_char_from(v@, c, k as int),
        decreases v.len() - k,
    {
        k += 1;
    }
    proof {
        lemma_skip_char_bounds(v@, c, 0);
    }
    copy_range(v, k, v.len())
}

/// Index of the first non-label character of `v` at or after `i`.
pub fn label_end_exec(v: &[char], i: usize) -> (r: usize)
    requires
        i <= v.len(),
    ensures
        r == label_end(v@, i as int),
{
    let mut k = i;
    while k < v.len() && label_char(v[k])
        invariant
            i <= k <= v.len(),
            label_end(v@, i as int) == label_end(v@, k as int),
        decreases v.len() - k,
    {
        k += 1;
    }
    k
}

/// Whether every character of `v` is a label character.
pub fn all_label_chars_exec(v: &[char]) -> (b: bool)
    ensures
        b == all_label_chars(v@),
{
    let e = label_end_exec(v, 0);
    proof {
        lemma_label_end_bounds(v@, 0);
    }
    e == v.len()
}

/// Whether `a` and `b` hold the same characters.
pub fn chars_eq(a: &[char], b: &[char]) -> (r: bool)
    ensures
        r == (a@ == b@),
{
    if a.len() != b.len() {
        return false;
    }
    let r = matches_at_exec(a, b, 0);
    assert(a@.subrange(0, b.len() as int) =~= a@);
    r
}

/// The lines of `v`, split as `str::lines` splits them.
pub fn split_lines(v: &[char]) -> (r: Vec<Vec<char>>)
    ensures
        r@.map_values(|l: Vec<char>| l@) == lines(v@),
{
    let mut r: Vec<Vec<char>> = Vec::new();
    let mut i: usize = 0;
    while i < v.len()
        invariant
            i <= v.len(),
            r@.map_values(|l: Vec<char>| l@) + lines_from(v@, i as int) == lines(v@),
        decreases v.len() - i,
    {
        let e = char_pos(v, '\n', i);
        proof {
            lemma_char_pos_bounds(v@, '\n', i as int);
        }
        let mut line = copy_range(v, i, e);
        if e < v.len() && line.len() > 0 && line[line.len() - 1] == '\r' {
            line.pop();
            assert(line@ =~= v@.subrange(i as int, e as int).drop_last());
        }
        let ghost before = r@.map_values(|l: Vec<char>| l@);
        r.push(line);
        assert(r@.map_values(|l: Vec<char>| l@) =~= before.push(line@));
        assert(before + lines_from(v@, i as int) =~= before.push(line@) + lines_from(
            v@,
            e + 1,
        ));
        if e < v.len() {
            i = e + 1;
        } else {
            assert(lines_from(v@, e + 1) =~= lines_from(v@, v.len() as int));
            i = v.len();
        }
    }
    assert(lines_from(v@, i as int) =~= Seq::<Seq<char>>::empty());
    assert(r@.map_values(|l: Vec<char>| l@) =~= lines(v@));
    r
}

/// The parts joined with `sep` between consecutive parts.
pub fn join_chars(parts: &Vec<Vec<char>>, sep: &[char]) -> (r: Vec<char>)
    ensures
        r@ == join(parts@.map_values(|l: Vec<char>| l@), sep@),
{
    let ghost ps = parts@.map_values(|l: Vec<char>| l@);
    let mut r: Vec<char> = Vec::new();
    let mut i: usize = 0;
    while i < parts.len()
        invariant
            i <= parts.len(),
            ps == parts@.map_values(|l: Vec<char>| l@),
            r@ == join(ps.take(i as int), sep@),
        decreases parts.len() - i,
    {
        if i > 0 {
            extend(&mut r, sep);
        }
        extend(&mut r, &parts[i]);
        proof {
            let t = ps.take(i + 1);
            assert(t.drop_last() =~= ps.take(i as int));
            if i == 0 {
                assert(ps.take(0) =~= Seq::<Seq<char>>::empty());
            }
        }
        i += 1;
    }
    assert(ps.take(parts.len() as int) =~= ps);
    r
}

/// `s` from position `i` on, with every non-overlapping occurrence of the
/// non-empty `pat` (leftmost first) replaced by `rep`.
pub open spec fn replace_from(s: Seq<char>, pat: Seq<char>, rep: Seq<char>, i: int) -> Seq<char>
    decreases s.len() + 1 - i,
{
    if pat.len() == 0 || i < 0 || i > s.len() {
        seq![]
    } else {
        match find_from(s, pat, i) {
            None => s.subrange(i, s.len() as int),
            Some(k) => if k < i || k + pat.len() > s.len() {
                seq![]
            } else {
                s.subrange(i, k) + rep + replace_from(s, pat, rep, k + pat.len())
            },
        }
    }
}

/// `str::replace` with a non-empty pattern.
pub open spec fn replace_all(s: Seq<char>, pat: Seq<char>, rep: Seq<char>) -> Seq<char> {
    replace_from(s, pat, rep, 0)
}

/// Every occurrence of the non-empty `pat` in `s` replaced by `rep`.
pub fn replace_all_exec(s: &[char], pat: &[char], rep: &[char]) -> (r: Vec<char>)
    requires
        pat@.len() > 0,
    ensures
        r@ == replace_all(s@, pat@, rep@),
{
    let mut out: Vec<char> = Vec::new();
    let mut pos: usize = 0;
    loop
        invariant
            pos <= s.len(),
            pat@.len() > 0,
            out@ + replace_from(s@, pat@, rep@, pos as int) == replace_all(s@, pat@, rep@),
        decreases s.len() - pos,
    {
        let found = find_from_exec(s, pat, pos);
        proof {
            lemma_find_from_props(s@, pat@, pos as int);
        }
        match found {
            None => {
                let tail = copy_range(s, pos, s.len());
                extend(&mut out, &tail);
                return out;
            },
            Some(k) => {
                let ghost before = out@;
                let mid = copy_range(s, pos, k);
                extend(&mut out, &mid);
                extend(&mut out, rep);
                assert(out@ + replace_from(s@, pat@, rep@, k + pat.len()) =~= before
                    + replace_from(s@, pat@, rep@, pos as int));
                pos = k + pat.len();
            },
        }
    }
}

} // verus!
