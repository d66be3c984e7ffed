//! Line-level recognisers for textual LLVM IR: branch targets, terminators
//! and block labels.

use vstd::prelude::*;

use crate::text::{
    all_label_chars, all_label_chars_exec, char_pos, char_pos_from, chars_eq, chars_of,
    copy_range, find_from, find_from_exec, is_label_char, label_end, label_end_exec,
    lemma_find_from_props,
    lemma_label_end_bounds, lemma_ws_run_end_bounds, lemma_ws_run_start_bounds, matches_at,
    spec_is_whitespace, starts_with, starts_with_exec, trim, trim_chars, ws_run_end, ws_run_start,
};

verus! {

// ---------------------------------------------------------------------------
// Spec model
// ---------------------------------------------------------------------------

/// The marker that precedes a block reference in a branch: `label %`.
pub open spec fn label_marker() -> Seq<char> {
    "label %"@
}

/// The label names that follow each `label %` in `s`, scanning from `pos`.
/// After a marker, scanning resumes right after it; an empty name is skipped.
pub open spec fn label_refs_from(s: Seq<char>, pos: int) -> Seq<Seq<char>>
    decreases s.len() + 1 - pos,
{
    match find_from(s, label_marker(), pos) {
        None => seq![],
        Some(k) => {
            let start = k + label_marker().len();
            let end = label_end(s, start);
            let here = if end > start {
                seq![s.subrange(start, end)]
            } else {
                seq![]
            };
            if start <= pos || start > s.len() {
                seq![]
            } else {
                here + label_refs_from(s, start)
            }
        },
    }
}

/// All label references in `s`.
pub open spec fn label_refs(s: Seq<char>) -> Seq<Seq<char>> {
    label_refs_from(s, 0)
}

/// The successor labels named by a `br` instruction on one line; empty when
/// the trimmed line does not start with `br `.
pub open spec fn branch_targets(line: Seq<char>) -> Seq<Seq<char>> {
    let s = trim(line);
    if starts_with(s, "br "@) {
        label_refs(s)
    } else {
        seq![]
    }
}

/// Index of the first whitespace character at or after `i`, or `s.len()`.
pub open spec fn word_end(s: Seq<char>, i: int) -> int
    decreases s.len() - i,
{
    if 0 <= i < s.len() && !spec_is_whitespace(s[i]) {
        word_end(s, i + 1)
    } else {
        i
    }
}

/// The first whitespace-separated word of `line` (empty if there is none).
pub open spec fn first_word(line: Seq<char>) -> Seq<char> {
    let t = trim(line);
    t.take(word_end(t, 0))
}

/// The instruction names that end a basic block.
pub open spec fn is_terminator_word(w: Seq<char>) -> bool {
    ||| w == "br"@
    ||| w == "ret"@
    ||| w == "switch"@
    ||| w == "unreachable"@
    ||| w == "indirectbr"@
    ||| w == "invoke"@
    ||| w == "resume"@
    ||| w == "callbr"@
}

/// Whether a line holds a terminator instruction.
pub open spec fn is_terminator_line(line: Seq<char>) -> bool {
    is_terminator_word(first_word(line))
}

/// The line starts with a space or a tab.
pub open spec fn is_indented(line: Seq<char>) -> bool {
    line.len() > 0 && (line[0] == ' ' || line[0] == '\t')
}

/// A line that may carry a block label: not indented, and its trimmed form
/// is non-empty and starts with neither `;` nor `{`.
pub open spec fn may_be_label_line(line: Seq<char>) -> bool {
    let t = trim(line);
    &&& !is_indented(line)
    &&& t.len() > 0
    &&& t[0] != ';'
    &&& t[0] != '{'
}

/// The text after a label's colon may only be empty or a comment.
pub open spec fn label_tail_ok(t: Seq<char>, colon: int) -> bool {
    let after = trim(t.skip(colon + 1));
    after.len() == 0 || after[0] == ';'
}

/// The label a line declares, read the way the IR-structure reader reads it:
/// the text before the first `:` of the trimmed line, all label characters
/// (possibly none), followed by nothing or a comment.
pub open spec fn block_label_of(line: Seq<char>) -> Option<Seq<char>> {
    let t = trim(line);
    let colon = char_pos_from(t, ':', 0);
    if may_be_label_line(line) && colon < t.len() && all_label_chars(t.take(colon))
        && label_tail_ok(t, colon) {
        Some(t.take(colon))
    } else {
        None
    }
}

/// The label a line declares, read the way the block parser reads it: as
/// `block_label_of`, but the label must be non-empty and free of spaces.
pub open spec fn block_header_of(line: Seq<char>) -> Option<Seq<char>> {
    let t = trim(line);
    let colon = char_pos_from(t, ':', 0);
    let label = t.take(colon);
    if may_be_label_line(line) && colon < t.len() && label.len() > 0 && !label.contains(' ')
        && all_label_chars(label) && label_tail_ok(t, colon) {
        Some(label)
    } else {
        None
    }
}

// ---------------------------------------------------------------------------
// Lemmas
// ---------------------------------------------------------------------------

proof fn lemma_word_end_bounds(s: Seq<char>, i: int)
    requires
        0 <= i <= s.len(),
    ensures
        i <= word_end(s, i) <= s.len(),
    decreases s.len() - i,
{
    if i < s.len() && !spec_is_whitespace(s[i]) {
        lemma_word_end_bounds(s, i + 1);
    }
}

/// Number of positions at or after `pos` where `p` occurs in `s`.
pub open spec fn occurrences_from(s: Seq<char>, p: Seq<char>, pos: int) -> nat
    decreases s.len() + 1 - pos,
{
    if pos < 0 || pos > s.len() {
        0
    } else {
        (if matches_at(s, p, pos) {
            1nat
        } else {
            0nat
        }) + occurrences_from(s, p, pos + 1)
    }
}

proof fn lemma_occurrences_mono(s: Seq<char>, p: Seq<char>, a: int, b: int)
    requires
        0 <= a <= b,
    ensures
        occurrences_from(s, p, a) >= occurrences_from(s, p, b),
    decreases b - a,
{
    if a < b {
        lemma_occurrences_mono(s, p, a + 1, b);
    }
}

/// Occurrences in a subrange are occurrences in the whole.
proof fn lemma_occurrences_sub(s: Seq<char>, p: Seq<char>, lo: int, hi: int, i: int)
    requires
        0 <= lo <= hi <= s.len(),
        0 <= i,
    ensures
        occurrences_from(s.subrange(lo, hi), p, i) <= occurrences_from(s, p, lo + i),
    decreases hi - lo + 1 - i,
{
    let t = s.subrange(lo, hi);
    if i <= t.len() {
        lemma_occurrences_sub(s, p, lo, hi, i + 1);
        if matches_at(t, p, i) {
            assert(s.subrange(lo + i, lo + i + p.len()) =~= t.subrange(i, i + p.len()));
        }
    }
}

/// The names read after `label %` markers from `pos` on are non-empty runs
/// of label characters, no more of them than markers.
pub proof fn lemma_label_refs_shape(s: Seq<char>, pos: int)
    requires
        0 <= pos <= s.len(),
    ensures
        forall|k: int|
            0 <= k < label_refs_from(s, pos).len() ==> {
                &&& (#[trigger] label_refs_from(s, pos)[k]).len() > 0
                &&& all_label_chars(label_refs_from(s, pos)[k])
            },
        label_refs_from(s, pos).len() <= occurrences_from(s, label_marker(), pos),
    decreases s.len() + 1 - pos,
{
    reveal_strlit("label %");
    lemma_find_from_props(s, label_marker(), pos);
    match find_from(s, label_marker(), pos) {
        None => {},
        Some(k) => {
            let start = k + label_marker().len();
            if !(start <= pos || start > s.len()) {
                lemma_label_refs_shape(s, start);
                lemma_label_end_bounds(s, start);
                let end = label_end(s, start);
                let rest = label_refs_from(s, start);
                let here = if end > start {
                    seq![s.subrange(start, end)]
                } else {
                    seq![]
                };
                let all = label_refs_from(s, pos);
                assert(all == here + rest);
                assert forall|j: int| 0 <= j < all.len() implies {
                    &&& (#[trigger] all[j]).len() > 0
                    &&& all_label_chars(all[j])
                } by {
                    if j < here.len() {
                        assert(all[j] == s.subrange(start, end));
                        assert forall|m: int| 0 <= m < all[j].len() implies is_label_char(
                            #[trigger] all[j][m],
                        ) by {
                            assert(all[j][m] == s[start + m]);
                        }
                    } else {
                        assert(all[j] == rest[j - here.len()]);
                    }
                }
                lemma_occurrences_mono(s, label_marker(), pos, k);
                lemma_occurrences_mono(s, label_marker(), k + 1, start);
            }
        },
    }
}

/// Law: every branch target read from a line is a non-empty run of label
/// characters, and a line names no more targets than it holds `label %`
/// markers.
pub proof fn lemma_branch_targets_shape(line: Seq<char>)
    ensures
        forall|k: int|
            0 <= k < branch_targets(line).len() ==> {
                &&& (#[trigger] branch_targets(line)[k]).len() > 0
                &&& all_label_chars(branch_targets(line)[k])
            },
        branch_targets(line).len() <= occurrences_from(line, label_marker(), 0),
{
    let a = ws_run_end(line, 0);
    lemma_ws_run_end_bounds(line, 0);
    let ts = line.skip(a);
    lemma_ws_run_start_bounds(ts, ts.len() as int);
    let b = ws_run_start(ts, ts.len() as int);
    let t = trim(line);
    assert(t =~= line.subrange(a, a + b));
    if starts_with(t, "br "@) {
        lemma_label_refs_shape(t, 0);
        lemma_occurrences_sub(line, label_marker(), a, a + b, 0);
        lemma_occurrences_mono(line, label_marker(), 0, a);
    }
}

// ---------------------------------------------------------------------------
// Executable recognisers
// ---------------------------------------------------------------------------

/// Every name that follows a `label %` marker in `s`.
pub fn label_refs_exec(s: &[char]) -> (r: Vec<Vec<char>>)
    ensures
        r@.map_values(|t: Vec<char>| t@) == label_refs(s@),
{
    let marker = chars_of("label %");
    proof {
        reveal_strlit("label %");
    }
    let mut r: Vec<Vec<char>> = Vec::new();
    let mut pos: usize = 0;
    loop
        invariant
            pos <= s.len(),
            marker@ == label_marker(),
            marker@.len() == 7,
            r@.map_values(|t: Vec<char>| t@) + label_refs_from(s@, pos as int) == label_refs(
                s@,
            ),
        decreases s.len() - pos,
    {
        let found = find_from_exec(s, &marker, pos);
        proof {
            lemma_find_from_props(s@, marker@, pos as int);
        }
        match found {
            None => {
                assert(label_refs_from(s@, pos as int) =~= Seq::<Seq<char>>::empty());
                assert(r@.map_values(|t: Vec<char>| t@) =~= label_refs(s@));
                return r;
            },
            Some(k) => {
                let start = k + marker.len();
                let end = label_end_exec(s, start);
                proof {
                    lemma_label_end_bounds(s@, start as int);
                }
                let ghost before = r@.map_values(|t: Vec<char>| t@);
                if end > start {
                    let name = copy_range(s, start, end);
                    r.push(name);
                    assert(r@.map_values(|t: Vec<char>| t@) =~= before + seq![
                        s@.subrange(start as int, end as int),
                    ]);
                } else {
                    assert(r@.map_values(|t: Vec<char>| t@) =~= before);
                }
                assert(r@.map_values(|t: Vec<char>| t@) + label_refs_from(s@, start as int)
                    =~= before + label_refs_from(s@, pos as int));
                pos = start;
            },
        }
    }
}

/// `s` with leading and trailing whitespace removed, then scanned for
/// branch targets if it starts with `br `.
pub fn branch_targets_exec(line: &[char]) -> (r: Vec<Vec<char>>)
    ensures
        r@.map_values(|t: Vec<char>| t@) == branch_targets(line@),
{
    let s = trim_chars(line);
    let br = chars_of("br ");
    if !starts_with_exec(&s, &br) {
        let r: Vec<Vec<char>> = Vec::new();
        assert(r@.map_values(|t: Vec<char>| t@) =~= Seq::<Seq<char>>::empty());
        return r;
    }
    label_refs_exec(&s)
}

/// The first whitespace-separated word of `line`.
pub fn first_word_exec(line: &[char]) -> (w: Vec<char>)
    ensures
        w@ == first_word(line@),
{
    let t = trim_chars(line);
    let mut k: usize = 0;
    while k < t.len() && !t[k].is_whitespace()
        invariant
            k <= t.len(),
            word_end(t@, 0) == word_end(t@, k as int),
        decreases t.len() - k,
    {
        k += 1;
    }
    copy_range(&t, 0, k)
}

/// Whether `w` is the name of a terminator instruction.
pub fn is_terminator_word_exec(w: &[char]) -> (b: bool)
    ensures
        b == is_terminator_word(w@),
{
    chars_eq(w, &chars_of("br")) || chars_eq(w, &chars_of("ret")) || chars_eq(
        w,
        &chars_of("switch"),
    ) || chars_eq(w, &chars_of("unreachable")) || chars_eq(w, &chars_of("indirectbr"))
        || chars_eq(w, &chars_of("invoke")) || chars_eq(w, &chars_of("resume")) || chars_eq(
        w,
        &chars_of("callbr"),
    )
}

/// Whether `line` holds a terminator instruction.
pub fn is_terminator_line_exec(line: &[char]) -> (b: bool)
    ensures
        b == is_terminator_line(line@),
{
    let w = first_word_exec(line);
    is_terminator_word_exec(&w)
}

/// Whether `line` may carry a block label.
pub fn may_be_label_line_exec(line: &[char], t: &[char]) -> (b: bool)
    requires
        t@ == trim(line@),
    ensures
        b == may_be_label_line(line@),
{
    if line.len() > 0 && (line[0] == ' ' || line[0] == '\t') {
        return false;
    }
    t.len() > 0 && t[0] != ';' && t[0] != '{'
}

/// Whether the text after the colon at `colon` is empty or a comment.
pub fn label_tail_ok_exec(t: &[char], colon: usize) -> (b: bool)
    requires
        colon < t.len(),
    ensures
        b == label_tail_ok(t@, colon as int),
{
    let rest = copy_range(t, colon + 1, t.len());
    assert(rest@ =~= t@.skip(colon + 1));
    let after = trim_chars(&rest);
    after.len() == 0 || after[0] == ';'
}

/// The label declared by `line`, if any (see `block_label_of`).
pub fn block_label_exec(line: &[char]) -> (r: Option<Vec<char>>)
    ensures
        r matches Some(l) ==> block_label_of(line@) == Some(l@),
        r is None ==> block_label_of(line@) is None,
{
    let t = trim_chars(line);
    if !may_be_label_line_exec(line, &t) {
        return None;
    }
    let colon = char_pos(&t, ':', 0);
    if colon >= t.len() {
        return None;
    }
    let label = copy_range(&t, 0, colon);
    if all_label_chars_exec(&label) && label_tail_ok_exec(&t, colon) {
        Some(label)
    } else {
        None
    }
}

/// Whether `v` holds a space character.
pub fn has_space(v: &[char]) -> (b: bool)
    ensures
        b == v@.contains(' '),
{
    let mut k: usize = 0;
    while k < v.len()
        invariant
            k <= v.len(),
            forall|m: int| 0 <= m < k ==> v@[m] != ' ',
        decreases v.len() - k,
    {
        if v[k] == ' ' {
            assert(v@[k as int] == ' ');
            return true;
        }
        k += 1;
    }
    false
}

/// The label declared by `line` for the block parser (see `block_header_of`).
pub fn block_header_exec(line: &[char], t: &[char]) -> (r: Option<Vec<char>>)
    requires
        t@ == trim(line@),
    ensures
        r matches Some(l) ==> block_header_of(line@) == Some(l@),
        r is None ==> block_header_of(line@) is None,
{
    if !may_be_label_line_exec(line, t) {
        return None;
    }
    let colon = char_pos(t, ':', 0);
    if colon >= t.len() {
        return None;
    }
    let label = copy_range(t, 0, colon);
    if label.len() > 0 && !has_space(&label) && all_label_chars_exec(&label)
        && label_tail_ok_exec(t, colon) {
        Some(label)
    } else {
        None
    }
}

} // verus!
