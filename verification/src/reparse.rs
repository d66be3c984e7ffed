//! Reading the IR again after a back-edge was added: the new text parses to
//! the same blocks, and only the branching block gains a successor.

use vstd::prelude::*;

use crate::cfg::{
    arm_edited, back_edge, back_edge_count, back_edge_edits, candidates, lemma_back_edge_effect,
    lemma_blocks_indices, parsed_blocks, block_step, blocks_upto, cond_branch_line, cond_name, decimal,
    digit_char, freeze_line, instr_update, leading_ws, listed, phi_arm, BlockView, ParsePhase,
};
use crate::scan::{
    lemma_branch_targets_shape, block_header_of, branch_targets, first_word, is_indented, is_terminator_line,
    is_terminator_word, label_marker,
    label_refs, label_refs_from, label_tail_ok, may_be_label_line, word_end,
};
use crate::text::{
    all_label_chars, join, lines, lines_from, char_pos_from, contains, find, find_from, lemma_char_pos_bounds, starts_with, is_label_char, label_end, lemma_find_from_props,
    lemma_label_end_bounds, lemma_ws_run_end_bounds, lemma_ws_run_start_bounds, matches_at,
    spec_is_alphanumeric, spec_is_whitespace, trim, trim_end, trim_start, ws_run_end,
    ws_run_start,
};

verus! {

// ---------------------------------------------------------------------------
// Whitespace runs, characterised pointwise
// ---------------------------------------------------------------------------

proof fn lemma_ws_end_at(s: Seq<char>, i: int, j: int)
    requires
        0 <= i <= j <= s.len(),
        forall|k: int| i <= k < j ==> spec_is_whitespace(#[trigger] s[k]),
        j == s.len() || !spec_is_whitespace(s[j]),
    ensures
        ws_run_end(s, i) == j,
    decreases j - i,
{
    if i < j {
        lemma_ws_end_at(s, i + 1, j);
    }
}

proof fn lemma_ws_start_at(s: Seq<char>, i: int, j: int)
    requires
        0 <= i <= j <= s.len(),
        forall|k: int| i <= k < j ==> spec_is_whitespace(#[trigger] s[k]),
        i == 0 || !spec_is_whitespace(s[i - 1]),
    ensures
        ws_run_start(s, j) == i,
    decreases j - i,
{
    if i < j {
        lemma_ws_start_at(s, i, j - 1);
    }
}

proof fn lemma_word_end_at(s: Seq<char>, i: int, j: int)
    requires
        0 <= i <= j <= s.len(),
        forall|k: int| i <= k < j ==> !spec_is_whitespace(#[trigger] s[k]),
        j == s.len() || spec_is_whitespace(s[j]),
    ensures
        word_end(s, i) == j,
    decreases j - i,
{
    if i < j {
        lemma_word_end_at(s, i + 1, j);
    }
}

/// Trimming a text that ends in a non-blank part only trims the front.
proof fn lemma_trim_append(a: Seq<char>, b: Seq<char>)
    requires
        b.len() > 0,
        !spec_is_whitespace(b[0]),
        !spec_is_whitespace(b.last()),
    ensures
        trim(a + b) == trim_start(a) + b,
{
    let w = ws_run_end(a, 0);
    lemma_ws_run_end_bounds(a, 0);
    let ab = a + b;
    assert forall|k: int| 0 <= k < w implies spec_is_whitespace(#[trigger] ab[k]) by {
        assert(ab[k] == a[k]);
    }
    if w < a.len() {
        assert(ab[w] == a[w]);
    } else {
        assert(ab[w] == b[0]);
    }
    lemma_ws_end_at(ab, 0, w);
    let y = ab.skip(w);
    assert(y =~= a.skip(w) + b);
    assert(y[y.len() - 1] == b.last());
    lemma_ws_start_at(y, y.len() as int, y.len() as int);
    assert(y.take(y.len() as int) =~= y);
}

/// Trimming the end first and then the front is trimming.
proof fn lemma_trim_commute(l: Seq<char>)
    ensures
        trim_start(trim_end(l)) == trim(l),
{
    let w = ws_run_end(l, 0);
    let e = ws_run_start(l, l.len() as int);
    lemma_ws_run_end_bounds(l, 0);
    lemma_ws_run_start_bounds(l, l.len() as int);
    if w == l.len() {
        lemma_ws_start_at(l, 0, l.len() as int);
        assert(trim_end(l) =~= Seq::<char>::empty());
        lemma_ws_end_at(trim_end(l), 0, 0);
        let u = l.skip(w);
        assert(u =~= Seq::<char>::empty());
        lemma_ws_start_at(u, 0, 0);
        assert(trim_start(trim_end(l)) =~= trim(l));
    } else {
        assert(w < e);
        let te = l.take(e);
        assert forall|k: int| 0 <= k < w implies spec_is_whitespace(#[trigger] te[k]) by {
            assert(te[k] == l[k]);
        }
        assert(te[w] == l[w]);
        lemma_ws_end_at(te, 0, w);
        let u = l.skip(w);
        assert forall|k: int| e - w <= k < u.len() implies spec_is_whitespace(#[trigger] u[k]) by {
            assert(u[k] == l[k + w]);
        }
        assert(u[e - w - 1] == l[e - 1]);
        lemma_ws_start_at(u, e - w, u.len() as int);
        assert(te.skip(w) =~= u.take(e - w));
    }
}

// ---------------------------------------------------------------------------
// Character facts
// ---------------------------------------------------------------------------

/// Two facts of std's character classes that the crate only names: no
/// whitespace character is alphanumeric, and `,` is not alphanumeric.
pub open spec fn std_char_facts() -> bool {
    &&& forall|c: char| #[trigger] spec_is_whitespace(c) ==> !spec_is_alphanumeric(c)
    &&& !spec_is_alphanumeric(',')
}

/// Test the two character facts that the reparse law rests on, by asking
/// `char::is_alphanumeric` about every whitespace character and about `,`.
pub fn check_std_char_facts() -> (b: bool)
    ensures
        b == std_char_facts(),
{
    let ws: [char; 25] = [
        '\u{9}', '\u{a}', '\u{b}', '\u{c}', '\u{d}', ' ', '\u{85}', '\u{a0}', '\u{1680}',
        '\u{2000}', '\u{2001}', '\u{2002}', '\u{2003}', '\u{2004}', '\u{2005}', '\u{2006}',
        '\u{2007}', '\u{2008}', '\u{2009}', '\u{200a}', '\u{2028}', '\u{2029}', '\u{202f}',
        '\u{205f}', '\u{3000}',
    ];
    let mut ok = !','.is_alphanumeric();
    let mut i: usize = 0;
    while i < 25
        invariant
            i <= 25,
            ws@.len() == 25,
            ok == (!spec_is_alphanumeric(',') && forall|k: int|
                0 <= k < i ==> !spec_is_alphanumeric(#[trigger] ws@[k])),
        decreases 25 - i,
    {
        let a = ws[i].is_alphanumeric();
        ok = ok && !a;
        i += 1;
    }
    proof {
        if ok {
            assert forall|c: char| #[trigger] spec_is_whitespace(c) implies !spec_is_alphanumeric(c) by {
                let v = c as u32;
                if '\u{9}' <= c <= '\u{d}' {
                    assert(ws@[(v - 9) as int] == c);
                } else if c == ' ' {
                    assert(ws@[5] == c);
                } else if c == '\u{85}' {
                    assert(ws@[6] == c);
                } else if c == '\u{a0}' {
                    assert(ws@[7] == c);
                } else if c == '\u{1680}' {
                    assert(ws@[8] == c);
                } else if '\u{2000}' <= c <= '\u{200a}' {
                    assert(ws@[(v - 0x2000 + 9) as int] == c);
                } else if c == '\u{2028}' {
                    assert(ws@[20] == c);
                } else if c == '\u{2029}' {
                    assert(ws@[21] == c);
                } else if c == '\u{202f}' {
                    assert(ws@[22] == c);
                } else if c == '\u{205f}' {
                    assert(ws@[23] == c);
                } else {
                    assert(ws@[24] == c);
                }
            }
        }
        if !ok {
            if spec_is_alphanumeric(',') {
            } else {
                let k = choose|k: int| 0 <= k < 25 && spec_is_alphanumeric(#[trigger] ws@[k]);
                assert(spec_is_whitespace(ws@[k]));
            }
        }
    }
    ok
}

proof fn lemma_label_char_solid(c: char)
    requires
        std_char_facts(),
        is_label_char(c),
    ensures
        !spec_is_whitespace(c),
{
    if spec_is_whitespace(c) {
        assert(!spec_is_alphanumeric(c));
    }
}

proof fn lemma_decimal_digits(n: nat)
    ensures
        decimal(n).len() > 0,
        forall|k: int| 0 <= k < decimal(n).len() ==> '0' <= #[trigger] decimal(n)[k] <= '9',
    decreases n,
{
    if n >= 10 {
        lemma_decimal_digits(n / 10);
        let d = decimal(n / 10);
        assert(decimal(n) == d.push(digit_char(n % 10)));
        assert forall|k: int| 0 <= k < decimal(n).len() implies '0' <= #[trigger] decimal(n)[k]
            <= '9' by {
            if k < d.len() {
                assert(decimal(n)[k] == d[k]);
            }
        }
    }
}

proof fn lemma_label_end_at(s: Seq<char>, i: int, j: int)
    requires
        0 <= i <= j <= s.len(),
        forall|k: int| i <= k < j ==> is_label_char(#[trigger] s[k]),
        j == s.len() || !is_label_char(s[j]),
    ensures
        label_end(s, i) == j,
    decreases j - i,
{
    if i < j {
        lemma_label_end_at(s, i + 1, j);
    }
}

/// What a `label %` marker at `m` implies about the text.
proof fn lemma_marker_chars(s: Seq<char>, m: int)
    requires
        matches_at(s, label_marker(), m),
    ensures
        0 <= m,
        m + 7 <= s.len(),
        s[m] == 'l',
        s[m + 5] == ' ',
        s[m + 6] == '%',
{
    reveal_strlit("label %");
    assert(s.subrange(m, m + 7)[0] == s[m]);
    assert(s.subrange(m, m + 7)[5] == s[m + 5]);
    assert(s.subrange(m, m + 7)[6] == s[m + 6]);
}

/// No marker anywhere in `[i, j)` leaves `find_from` free to go on.
proof fn lemma_find_skip(s: Seq<char>, i: int, j: int)
    requires
        0 <= i <= j,
        forall|m: int| i <= m < j ==> !matches_at(s, label_marker(), m),
    ensures
        find_from(s, label_marker(), i) == find_from(s, label_marker(), j),
    decreases j - i,
{
    reveal_strlit("label %");
    if i < j {
        assert(label_marker().len() == 7);
        assert(!matches_at(s, label_marker(), i));
        lemma_find_skip(s, i + 1, j);
    }
}

// ---------------------------------------------------------------------------
// The conditional branch
// ---------------------------------------------------------------------------

/// The trimmed text of the new conditional branch.
pub open spec fn branch_text(cond: Seq<char>, p: Seq<char>, x: Seq<char>) -> Seq<char> {
    "br i1 %"@ + cond + ", label %"@ + p + ", label %"@ + x
}

/// The fresh condition name: `backedge_` and digits.
pub open spec fn cond_ok(cond: Seq<char>) -> bool {
    &&& cond.len() >= 10
    &&& forall|k: int| 0 <= k < cond.len() ==> {
        &&& #[trigger] cond[k] != 'l'
        &&& cond[k] != ':'
        &&& cond[k] != ' '
        &&& cond[k] != '='
        &&& !spec_is_whitespace(cond[k])
    }
}

proof fn lemma_cond_name_ok(t: usize)
    ensures
        cond_ok(crate::cfg::cond_name(t)),
{
    reveal_strlit("backedge_");
    lemma_decimal_digits(t as nat);
    let c = crate::cfg::cond_name(t);
    let d = decimal(t as nat);
    assert forall|k: int| 0 <= k < c.len() implies {
        &&& #[trigger] c[k] != 'l'
        &&& c[k] != ':'
        &&& c[k] != ' '
        &&& c[k] != '='
        &&& !spec_is_whitespace(c[k])
    } by {
        if k >= 9 {
            assert(c[k] == d[k - 9]);
        }
    }
}

/// The new branch names exactly the loop header and the old successor.
#[verifier::spinoff_prover]
proof fn lemma_branch_targets_text(cond: Seq<char>, p: Seq<char>, x: Seq<char>)
    requires
        std_char_facts(),
        cond_ok(cond),
        p.len() > 0,
        all_label_chars(p),
        x.len() > 0,
        all_label_chars(x),
    ensures
        label_refs(branch_text(cond, p, x)) == seq![p, x],
{
    reveal_strlit("br i1 %");
    reveal_strlit(", label %");
    reveal_strlit("label %");
    let s = branch_text(cond, p, x);
    let c = cond.len() as int;
    let m0 = 9 + c;
    let ps = m0 + 7;
    let m1 = ps + p.len() + 2;
    let xs = m1 + 7;
    assert(s.len() == xs + x.len());
    assert forall|k: int| 0 <= k < p.len() implies s[ps + k] == p[k] by {}
    assert forall|k: int| 0 <= k < x.len() implies s[xs + k] == x[k] by {}
    assert forall|k: int| 7 <= k < 7 + c implies s[k] == cond[k - 7] by {}
    // no marker before m0
    assert forall|m: int| 0 <= m < m0 implies !matches_at(s, label_marker(), m) by {
        if matches_at(s, label_marker(), m) {
            lemma_marker_chars(s, m);
            if 7 <= m < 7 + c {
                assert(s[m] == cond[m - 7]);
            }
        }
    }
    lemma_find_skip(s, 0, m0);
    assert(s.subrange(m0, m0 + 7) =~= label_marker());
    assert(find_from(s, label_marker(), m0) == Some(m0));
    // the header label
    assert forall|k: int| ps <= k < ps + p.len() implies is_label_char(#[trigger] s[k]) by {
        assert(s[k] == p[k - ps]);
    }
    assert(s[ps + p.len()] == ',');
    lemma_label_end_at(s, ps, ps + p.len());
    assert(s.subrange(ps, ps + p.len()) =~= p);
    // no marker between the two names
    assert forall|m: int| ps <= m < m1 implies !matches_at(s, label_marker(), m) by {
        if matches_at(s, label_marker(), m) {
            lemma_marker_chars(s, m);
            if m + 5 < ps + p.len() {
                assert(s[m + 5] == p[m + 5 - ps]);
                lemma_label_char_solid(p[m + 5 - ps]);
            } else if m < ps + p.len() {
                assert(m + 6 == m1 || m + 5 == ps + p.len());
            }
        }
    }
    lemma_find_skip(s, ps, m1);
    assert(s.subrange(m1, m1 + 7) =~= label_marker());
    assert(find_from(s, label_marker(), m1) == Some(m1));
    // the old successor
    assert forall|k: int| xs <= k < s.len() implies is_label_char(#[trigger] s[k]) by {
        assert(s[k] == x[k - xs]);
    }
    lemma_label_end_at(s, xs, s.len() as int);
    assert(s.subrange(xs, s.len() as int) =~= x);
    // nothing after it
    assert forall|m: int| xs <= m implies !matches_at(s, label_marker(), m) by {
        if matches_at(s, label_marker(), m) {
            lemma_marker_chars(s, m);
            assert(s[m + 5] == x[m + 5 - xs]);
            lemma_label_char_solid(x[m + 5 - xs]);
        }
    }
    lemma_find_from_props(s, label_marker(), xs);
    assert(label_refs_from(s, xs) =~= Seq::<Seq<char>>::empty());
    assert(label_refs_from(s, ps) =~= seq![x]);
    assert(label_refs_from(s, 0) =~= seq![p, x]);
}

// ---------------------------------------------------------------------------
// A PHI line with the new arm
// ---------------------------------------------------------------------------

proof fn lemma_find_append(s: Seq<char>, a: Seq<char>, i: int)
    requires
        0 <= i,
        forall|m: int| m + 7 > s.len() ==> !matches_at(s + a, label_marker(), m),
    ensures
        find_from(s + a, label_marker(), i) == find_from(s, label_marker(), i),
    decreases s.len() + 1 - i,
{
    reveal_strlit("label %");
    assert(label_marker().len() == 7);
    if i + 7 > s.len() {
        lemma_find_from_props(s + a, label_marker(), i);
    } else {
        assert((s + a).subrange(i, i + 7) =~= s.subrange(i, i + 7));
        lemma_find_append(s, a, i + 1);
    }
}

proof fn lemma_label_end_append(s: Seq<char>, a: Seq<char>, i: int)
    requires
        0 <= i <= s.len(),
        a.len() > 0,
        !is_label_char(a[0]),
    ensures
        label_end(s + a, i) == label_end(s, i),
    decreases s.len() - i,
{
    if i < s.len() {
        assert((s + a)[i] == s[i]);
        lemma_label_end_append(s, a, i + 1);
    } else {
        assert((s + a)[i] == a[0]);
    }
}

/// Text appended after the last marker leaves the branch targets alone.
proof fn lemma_refs_append(s: Seq<char>, a: Seq<char>, pos: int)
    requires
        0 <= pos <= s.len(),
        a.len() > 0,
        !is_label_char(a[0]),
        forall|m: int| m + 7 > s.len() ==> !matches_at(s + a, label_marker(), m),
    ensures
        label_refs_from(s + a, pos) == label_refs_from(s, pos),
    decreases s.len() + 1 - pos,
{
    reveal_strlit("label %");
    assert(label_marker().len() == 7);
    lemma_find_append(s, a, pos);
    lemma_find_from_props(s, label_marker(), pos);
    match find_from(s, label_marker(), pos) {
        None => {},
        Some(k) => {
            let start = k + 7;
            if !(start <= pos || start > s.len()) {
                lemma_label_end_append(s, a, start);
                lemma_label_end_bounds(s, start);
                let end = label_end(s, start);
                assert((s + a).subrange(start, end) =~= s.subrange(start, end));
                lemma_refs_append(s, a, start);
            }
        },
    }
}

/// The arm adds no `label %` marker, not even one that starts in the line.
proof fn lemma_arm_no_marker(s: Seq<char>, b: Seq<char>)
    requires
        std_char_facts(),
        all_label_chars(b),
    ensures
        forall|m: int|
            m + 7 > s.len() ==> !matches_at(s + crate::cfg::phi_arm(b), label_marker(), m),
{
    reveal_strlit(", [ undef, %");
    reveal_strlit(" ]");
    let arm = crate::cfg::phi_arm(b);
    let t = s + arm;
    let a = s.len() as int;
    assert(arm.len() == 14 + b.len());
    assert forall|m: int| m + 7 > s.len() implies !matches_at(t, label_marker(), m) by {
        if matches_at(t, label_marker(), m) {
            lemma_marker_chars(t, m);
            let q = m + 6 - a;
            assert(t[m + 6] == arm[q]);
            if q < 12 {
                assert(q == 11);
                assert(t[m] == arm[5]);
            } else if q < 12 + b.len() {
                assert(arm[q] == b[q - 12]);
                if q == 12 {
                    assert(t[m + 5] == arm[11]);
                } else {
                    assert(t[m + 5] == arm[q - 1]);
                    assert(arm[q - 1] == b[q - 13]);
                    lemma_label_char_solid(b[q - 13]);
                }
            }
        }
    }
}

proof fn lemma_char_pos_at(s: Seq<char>, c: char, i: int, j: int)
    requires
        0 <= i <= j <= s.len(),
        forall|k: int| i <= k < j ==> #[trigger] s[k] != c,
        j == s.len() || s[j] == c,
    ensures
        char_pos_from(s, c, i) == j,
    decreases j - i,
{
    if i < j {
        lemma_char_pos_at(s, c, i + 1, j);
    }
}

proof fn lemma_word_end_props(s: Seq<char>, i: int)
    requires
        0 <= i <= s.len(),
    ensures
        i <= word_end(s, i) <= s.len(),
        forall|k: int| i <= k < word_end(s, i) ==> !spec_is_whitespace(#[trigger] s[k]),
        word_end(s, i) < s.len() ==> spec_is_whitespace(s[word_end(s, i)]),
    decreases s.len() - i,
{
    if i < s.len() && !spec_is_whitespace(s[i]) {
        lemma_word_end_props(s, i + 1);
    }
}

/// A trimmed text starts and ends with non-blank characters.
proof fn lemma_trim_ends(x: Seq<char>)
    ensures
        trim(x).len() > 0 ==> !spec_is_whitespace(trim(x)[0]) && !spec_is_whitespace(
            trim(x).last(),
        ),
        trim(trim(x)) == trim(x),
{
    let w = ws_run_end(x, 0);
    lemma_ws_run_end_bounds(x, 0);
    let y = x.skip(w);
    let e = ws_run_start(y, y.len() as int);
    lemma_ws_run_start_bounds(y, y.len() as int);
    let u = trim(x);
    if u.len() > 0 {
        assert(u[0] == y[0]);
        assert(y[0] == x[w]);
        assert(u.last() == y[e - 1]);
        lemma_trim_append(Seq::<char>::empty(), u);
        assert(Seq::<char>::empty() + u =~= u);
        lemma_ws_end_at(Seq::<char>::empty(), 0, 0);
        assert(trim_start(Seq::<char>::empty()) =~= Seq::<char>::empty());
        assert(Seq::<char>::empty() + u =~= u);
    } else {
        lemma_ws_end_at(u, 0, 0);
        lemma_ws_start_at(u.skip(0), 0, 0);
        assert(trim(u) =~= u);
    }
}

/// A text that contains `p` has a match that `find` sees.
proof fn lemma_contains_at(s: Seq<char>, p: Seq<char>, k: int)
    requires
        matches_at(s, p, k),
    ensures
        contains(s, p),
{
    lemma_find_from_props(s, p, 0);
}

/// How the parser sees a PHI line once the back-edge arm is appended: as
/// the same line, with the same PHI, terminator and targets.
#[verifier::spinoff_prover]
proof fn lemma_edit_line(l: Seq<char>, b: Seq<char>)
    requires
        std_char_facts(),
        contains(trim(l), "= phi "@),
        all_label_chars(b),
        !b.contains(':'),
    ensures
        ({
            let e = trim_end(l) + crate::cfg::phi_arm(b);
            let tl = trim(l);
            let te = trim(e);
            &&& te == tl + crate::cfg::phi_arm(b)
            &&& tl.len() >= 7
            &&& starts_with(te, "define "@) == starts_with(tl, "define "@)
            &&& te != seq!['}']
            &&& tl != seq!['}']
            &&& block_header_of(e) == block_header_of(l)
            &&& te[0] == tl[0]
            &&& contains(te, "= phi "@)
            &&& is_terminator_line(te) == is_terminator_line(tl)
            &&& branch_targets(te) == branch_targets(tl)
        }),
{
    reveal_strlit("= phi ");
    reveal_strlit(", [ undef, %");
    reveal_strlit(" ]");
    reveal_strlit("define ");
    reveal_strlit("br ");
    let arm = crate::cfg::phi_arm(b);
    let tl = trim(l);
    let e = trim_end(l) + arm;
    assert(arm.len() == 14 + b.len());
    assert(arm[0] == ',');
    assert(arm[arm.len() - 1] == ']');
    lemma_trim_append(trim_end(l), arm);
    lemma_trim_commute(l);
    let te = trim(e);
    assert(te == tl + arm);
    lemma_trim_ends(l);
    // where the PHI marker sits
    lemma_find_from_props(tl, "= phi "@, 0);
    let k = find(tl, "= phi "@)->0;
    assert(tl.subrange(k, k + 6)[1] == tl[k + 1]);
    assert(tl.subrange(k, k + 6)[2] == tl[k + 2]);
    assert(tl.subrange(k, k + 6)[5] == tl[k + 5]);
    assert(tl[k + 1] == ' ' && tl[k + 2] == 'p' && tl[k + 5] == ' ');
    assert(tl.len() >= k + 7);
    assert(te.subrange(0, 7) =~= tl.subrange(0, 7));
    assert(te.subrange(0, 3) =~= tl.subrange(0, 3));
    assert(te.subrange(k, k + 6) =~= tl.subrange(k, k + 6));
    lemma_contains_at(te, "= phi "@, k);
    // idempotent trims
    lemma_trim_ends(e);
    // first words
    lemma_word_end_props(tl, 0);
    let w = word_end(tl, 0);
    assert(w <= k + 1);
    assert forall|j: int| 0 <= j < w implies !spec_is_whitespace(#[trigger] te[j]) by {
        assert(te[j] == tl[j]);
    }
    assert(te[w] == tl[w]);
    lemma_word_end_at(te, 0, w);
    assert(te.take(w) =~= tl.take(w));
    // targets
    assert(!is_label_char(arm[0]));
    lemma_arm_no_marker(tl, b);
    lemma_refs_append(tl, arm, 0);
    // headers
    let tr_l = trim_end(l);
    lemma_ws_run_start_bounds(l, l.len() as int);
    lemma_ws_run_end_bounds(l, 0);
    assert(tr_l.len() > 0) by {
        if tr_l.len() == 0 {
            lemma_ws_start_at(l, 0, l.len() as int);
            assert forall|j: int| 0 <= j < l.len() implies spec_is_whitespace(#[trigger] l[j]) by {}
            lemma_ws_end_at(l, 0, l.len() as int);
            assert(l.skip(l.len() as int) =~= Seq::<char>::empty());
        }
    }
    assert(e[0] == l[0]);
    assert(is_indented(e) == is_indented(l));
    assert(may_be_label_line(e) == may_be_label_line(l));
    let c = char_pos_from(tl, ':', 0);
    lemma_char_pos_bounds(tl, ':', 0);
    if c < tl.len() {
        assert forall|j: int| 0 <= j < c implies #[trigger] te[j] != ':' by {
            assert(te[j] == tl[j]);
        }
        assert(te[c] == tl[c]);
        lemma_char_pos_at(te, ':', 0, c);
        assert(te.take(c) =~= tl.take(c));
        let rest = tl.skip(c + 1);
        assert(te.skip(c + 1) =~= rest + arm);
        lemma_trim_append(rest, arm);
        let ts = trim_start(rest);
        lemma_ws_run_end_bounds(rest, 0);
        if ts.len() > 0 {
            lemma_ws_run_start_bounds(ts, ts.len() as int);
            assert(ts[0] == rest[ws_run_end(rest, 0)]);
            if ws_run_start(ts, ts.len() as int) == 0 {
                assert(!spec_is_whitespace(ts[0]));
            }
            assert(trim(rest)[0] == ts[0]);
            assert((ts + arm)[0] == ts[0]);
            assert(label_tail_ok(te, c) == label_tail_ok(tl, c));
        } else {
            assert(ws_run_end(rest, 0) == rest.len());
            assert(k + 2 < c) by {
                if k + 2 > c {
                    assert(rest[k + 2 - c - 1] == tl[k + 2]);
                }
            }
            assert(tl.take(c)[k + 1] == ' ');
            assert(tl.take(c).contains(' '));
        }
    } else {
        assert forall|j: int| 0 <= j < te.len() implies #[trigger] te[j] != ':' by {
            if j >= tl.len() {
                let q = j - tl.len();
                assert(te[j] == arm[q]);
                if 12 <= q < 12 + b.len() {
                    assert(arm[q] == b[q - 12]);
                }
            } else {
                assert(te[j] == tl[j]);
            }
        }
        lemma_char_pos_at(te, ':', 0, te.len() as int);
    }
}

// ---------------------------------------------------------------------------
// The freeze, the new branch and the old terminator, as the parser sees them
// ---------------------------------------------------------------------------

proof fn lemma_terminator_word_chars(w: Seq<char>)
    requires
        is_terminator_word(w),
    ensures
        w.len() >= 2,
        w[0] != '%',
        w[0] != ';',
        w.len() == 6 ==> w[0] != 'd',
        forall|k: int| 0 <= k < w.len() ==> #[trigger] w[k] != ':',
{
    reveal_strlit("br");
    reveal_strlit("ret");
    reveal_strlit("switch");
    reveal_strlit("unreachable");
    reveal_strlit("indirectbr");
    reveal_strlit("invoke");
    reveal_strlit("resume");
    reveal_strlit("callbr");
}

/// The freeze line is an ordinary instruction: no function start or end,
/// no label, not a terminator.
#[verifier::spinoff_prover]
proof fn lemma_freeze_line(indent: Seq<char>, cond: Seq<char>)
    requires
        forall|k: int| 0 <= k < indent.len() ==> spec_is_whitespace(#[trigger] indent[k]),
        cond_ok(cond),
    ensures
        ({
            let f = crate::cfg::freeze_line(indent, cond);
            let tf = trim(f);
            &&& !starts_with(tf, "define "@)
            &&& tf != seq!['}']
            &&& block_header_of(f) is None
            &&& tf.len() > 0
            &&& tf[0] != ';'
            &&& !is_terminator_line(tf)
        }),
{
    reveal_strlit("%");
    reveal_strlit(" = freeze i1 poison");
    reveal_strlit("define ");
    let f = crate::cfg::freeze_line(indent, cond);
    let body = "%"@ + cond + " = freeze i1 poison"@;
    assert(f =~= indent + body);
    let c = cond.len() as int;
    assert(body.len() == c + 20);
    assert forall|k: int| 1 <= k < 1 + c implies body[k] == cond[k - 1] by {}
    lemma_ws_end_at(indent, 0, indent.len() as int);
    assert(trim_start(indent) =~= Seq::<char>::empty());
    lemma_trim_append(indent, body);
    assert(Seq::<char>::empty() + body =~= body);
    let tf = trim(f);
    assert(tf == body);
    assert(tf.subrange(0, 7)[0] == '%');
    // no colon
    assert forall|k: int| 0 <= k < body.len() implies #[trigger] body[k] != ':' by {
        if 1 <= k < 1 + c {
            assert(body[k] == cond[k - 1]);
        }
    }
    lemma_char_pos_at(body, ':', 0, body.len() as int);
    // first word `%backedge_N`
    lemma_trim_ends(f);
    assert forall|k: int| 0 <= k < 1 + c implies !spec_is_whitespace(#[trigger] body[k]) by {
        if k >= 1 {
            assert(body[k] == cond[k - 1]);
        }
    }
    assert(body[1 + c] == ' ');
    lemma_word_end_at(body, 0, 1 + c);
    let fw = body.take(1 + c);
    if is_terminator_word(fw) {
        lemma_terminator_word_chars(fw);
    }
}

/// The new branch: an instruction whose first word is `br` and whose
/// targets are the loop header and the old successor.
#[verifier::spinoff_prover]
#[verifier::rlimit(40)]
proof fn lemma_branch_line(indent: Seq<char>, cond: Seq<char>, p: Seq<char>, x: Seq<char>)
    requires
        std_char_facts(),
        forall|k: int| 0 <= k < indent.len() ==> spec_is_whitespace(#[trigger] indent[k]),
        cond_ok(cond),
        p.len() > 0,
        all_label_chars(p),
        x.len() > 0,
        all_label_chars(x),
    ensures
        ({
            let r = crate::cfg::cond_branch_line(indent, cond, p, x);
            let tr = trim(r);
            &&& tr == branch_text(cond, p, x)
            &&& !starts_with(tr, "define "@)
            &&& tr != seq!['}']
            &&& block_header_of(r) is None
            &&& tr.len() > 0
            &&& tr[0] != ';'
            &&& is_terminator_line(tr)
            &&& branch_targets(tr) == seq![p, x]
        }),
{
    reveal_strlit("br i1 %");
    reveal_strlit("define ");
    reveal_strlit("br ");
    reveal_strlit("br");
    let r = crate::cfg::cond_branch_line(indent, cond, p, x);
    let body = branch_text(cond, p, x);
    assert(r =~= indent + body);
    assert(body.last() == x.last());
    lemma_label_char_solid(x.last());
    lemma_ws_end_at(indent, 0, indent.len() as int);
    assert(trim_start(indent) =~= Seq::<char>::empty());
    lemma_trim_append(indent, body);
    assert(Seq::<char>::empty() + body =~= body);
    let tr = trim(r);
    assert(tr == body);
    assert(tr.subrange(0, 7)[0] == 'b');
    assert(tr.subrange(0, 3) =~= "br "@);
    // no label: a colon could only come after `br `
    let c = char_pos_from(tr, ':', 0);
    lemma_char_pos_bounds(tr, ':', 0);
    if c < tr.len() {
        assert(c >= 3);
        assert(tr.take(c)[2] == ' ');
    }
    // the first word is `br`
    lemma_trim_ends(r);
    lemma_word_end_at(tr, 0, 2);
    assert(tr.take(2) =~= "br"@);
    lemma_branch_targets_text(cond, p, x);
}

/// A terminator line is no function start or end and no label line.
#[verifier::spinoff_prover]
proof fn lemma_terminator_line(l: Seq<char>)
    requires
        std_char_facts(),
        is_terminator_line(trim(l)),
    ensures
        !starts_with(trim(l), "define "@),
        trim(l) != seq!['}'],
        block_header_of(l) is None,
        trim(l).len() > 0,
        trim(l)[0] != ';',
{
    reveal_strlit("define ");
    let u = trim(l);
    lemma_trim_ends(l);
    lemma_word_end_props(u, 0);
    let w = word_end(u, 0);
    let fw = u.take(w);
    assert(first_word(u) == fw);
    lemma_terminator_word_chars(fw);
    assert(u[0] == fw[0]);
    if starts_with(u, "define "@) {
        assert(u.subrange(0, 7)[6] == u[6]);
        assert forall|k: int| 0 <= k < 6 implies !spec_is_whitespace(#[trigger] u[k]) by {
            assert(u.subrange(0, 7)[k] == u[k]);
        }
        lemma_word_end_at(u, 0, 6);
        assert(u.subrange(0, 7)[0] == u[0]);
    }
    let c = char_pos_from(u, ':', 0);
    lemma_char_pos_bounds(u, ':', 0);
    if block_header_of(l) is Some {
        let lab = u.take(c);
        assert forall|k: int| 0 <= k <= c implies !spec_is_whitespace(#[trigger] u[k]) by {
            if k < c {
                assert(lab[k] == u[k]);
                lemma_label_char_solid(lab[k]);
            }
        }
        if w <= c {
            assert(spec_is_whitespace(u[w]));
        }
        assert(fw[c] == ':');
    }
}

// ---------------------------------------------------------------------------
// The parser on the old and the new lines
// ---------------------------------------------------------------------------

/// A line index of the old text, as it stands in the new text, where the
/// freeze was inserted at line `t`.
pub open spec fn shifted(i: usize, t: usize) -> usize {
    if i == usize::MAX {
        usize::MAX
    } else if i < t {
        i
    } else {
        (i + 1) as usize
    }
}

/// The parser state `n` on the new lines matches the state `o` on the old
/// ones: same phase and labels, line indices shifted, the block whose
/// terminator is the old line `t` branching to `p` or `x`, and the same
/// PHI counts except, once line `t` is read, for block `d`.
pub open spec fn related(
    n: (ParsePhase, Seq<BlockView>),
    o: (ParsePhase, Seq<BlockView>),
    t: usize,
    d: int,
    past: bool,
    p: Seq<char>,
    x: Seq<char>,
) -> bool {
    &&& n.0 == o.0
    &&& n.1.len() == o.1.len()
    &&& forall|k: int|
        0 <= k < o.1.len() ==> {
            &&& n.1[k].label == (#[trigger] o.1[k]).label
            &&& n.1[k].terminator_line == shifted(o.1[k].terminator_line, t)
            &&& n.1[k].successors == if o.1[k].terminator_line == t {
                seq![p, x]
            } else {
                o.1[k].successors
            }
            &&& (!past || k != d) ==> n.1[k].phi_lines.len() == o.1[k].phi_lines.len()
        }
}

/// Two lines the parser treats alike.
pub open spec fn same_role(ln: Seq<char>, lo: Seq<char>) -> bool {
    let tn = trim(ln);
    let to = trim(lo);
    &&& starts_with(tn, "define "@) == starts_with(to, "define "@)
    &&& (tn == seq!['}']) == (to == seq!['}'])
    &&& block_header_of(ln) == block_header_of(lo)
    &&& (tn.len() > 0 && tn[0] != ';') == (to.len() > 0 && to[0] != ';')
    &&& contains(tn, "= phi "@) == contains(to, "= phi "@)
    &&& is_terminator_line(tn) == is_terminator_line(to)
    &&& branch_targets(tn) == branch_targets(to)
}

proof fn lemma_step_alike(
    n: (ParsePhase, Seq<BlockView>),
    o: (ParsePhase, Seq<BlockView>),
    ln: Seq<char>,
    lo: Seq<char>,
    jn: usize,
    j: usize,
    t: usize,
    d: int,
    past: bool,
    p: Seq<char>,
    x: Seq<char>,
)
    requires
        related(n, o, t, d, past, p, x),
        same_role(ln, lo),
        j != t,
        j != usize::MAX,
        t != usize::MAX,
        jn == shifted(j, t),
    ensures
        related(block_step(n, ln, jn), block_step(o, lo, j), t, d, past, p, x),
{
    let tn = trim(ln);
    let to = trim(lo);
    let n2 = block_step(n, ln, jn);
    let o2 = block_step(o, lo, j);
    if o.0 == ParsePhase::Inside && to != seq!['}'] && block_header_of(lo) is Some {
        assert forall|k: int| 0 <= k < o2.1.len() implies {
            &&& n2.1[k].label == (#[trigger] o2.1[k]).label
            &&& n2.1[k].terminator_line == shifted(o2.1[k].terminator_line, t)
            &&& n2.1[k].successors == if o2.1[k].terminator_line == t {
                seq![p, x]
            } else {
                o2.1[k].successors
            }
            &&& (!past || k != d) ==> n2.1[k].phi_lines.len() == o2.1[k].phi_lines.len()
        } by {
            if k < o.1.len() {
                assert(o2.1[k] == o.1[k]);
                assert(n2.1[k] == n.1[k]);
            }
        }
    } else if o.0 == ParsePhase::Inside && to != seq!['}'] && o.1.len() > 0 && to.len() > 0
        && to[0] != ';' {
        let last = o.1.len() - 1;
        assert forall|k: int| 0 <= k < o2.1.len() implies {
            &&& n2.1[k].label == (#[trigger] o2.1[k]).label
            &&& n2.1[k].terminator_line == shifted(o2.1[k].terminator_line, t)
            &&& n2.1[k].successors == if o2.1[k].terminator_line == t {
                seq![p, x]
            } else {
                o2.1[k].successors
            }
            &&& (!past || k != d) ==> n2.1[k].phi_lines.len() == o2.1[k].phi_lines.len()
        } by {
            if k != last {
                assert(o2.1[k] == o.1[k]);
                assert(n2.1[k] == n.1[k]);
            } else {
                assert(o.1[k] == o.1.last());
                assert(n.1[k] == n.1.last());
            }
        }
    }
}

/// What the parser needs of a line that it reads as an instruction.
pub open spec fn plain_instr(l: Seq<char>) -> bool {
    let u = trim(l);
    &&& !starts_with(u, "define "@)
    &&& u != seq!['}']
    &&& block_header_of(l) is None
    &&& u.len() > 0
    &&& u[0] != ';'
}

/// Reading the freeze and the new branch does to the new state what reading
/// the old terminator did to the old one, but for the new successor and
/// the PHI count of the block `d` that owns the terminator.
proof fn lemma_step_at_t(
    n: (ParsePhase, Seq<BlockView>),
    o: (ParsePhase, Seq<BlockView>),
    lo: Seq<char>,
    f: Seq<char>,
    r: Seq<char>,
    t: usize,
    d: int,
    p: Seq<char>,
    x: Seq<char>,
)
    requires
        related(n, o, t, d, false, p, x),
        d == o.1.len() - 1,
        t < usize::MAX - 1,
        plain_instr(lo),
        is_terminator_line(trim(lo)),
        branch_targets(trim(lo)) == seq![x],
        plain_instr(f),
        !is_terminator_line(trim(f)),
        plain_instr(r),
        is_terminator_line(trim(r)),
        branch_targets(trim(r)) == seq![p, x],
    ensures
        block_step(o, lo, t).1.len() == o.1.len(),
        related(
            block_step(block_step(n, f, t), r, (t + 1) as usize),
            block_step(o, lo, t),
            t,
            d,
            true,
            p,
            x,
        ),
{
    let n1 = block_step(n, f, t);
    let n2 = block_step(n1, r, (t + 1) as usize);
    let o2 = block_step(o, lo, t);
    if o.0 == ParsePhase::Inside && o.1.len() > 0 {
        let last = o.1.len() - 1;
        assert(n1.1 == n.1.update(last, instr_update(n.1.last(), trim(f), t)));
        assert(n2.1 == n1.1.update(last, instr_update(n1.1.last(), trim(r), (t + 1) as usize)));
        assert forall|k: int| 0 <= k < o2.1.len() implies {
            &&& n2.1[k].label == (#[trigger] o2.1[k]).label
            &&& n2.1[k].terminator_line == shifted(o2.1[k].terminator_line, t)
            &&& n2.1[k].successors == if o2.1[k].terminator_line == t {
                seq![p, x]
            } else {
                o2.1[k].successors
            }
            &&& (!true || k != d) ==> n2.1[k].phi_lines.len() == o2.1[k].phi_lines.len()
        } by {
            if k != last {
                assert(o2.1[k] == o.1[k]);
                assert(n2.1[k] == n.1[k]);
            } else {
                assert(o.1[k] == o.1.last());
                assert(n.1[k] == n.1.last());
            }
        }
    }
}

/// Every block label is a non-empty run of label characters without `:`.
pub open spec fn labels_ok(bs: Seq<BlockView>) -> bool {
    forall|k: int|
        0 <= k < bs.len() ==> {
            &&& (#[trigger] bs[k]).label.len() > 0
            &&& all_label_chars(bs[k].label)
            &&& !bs[k].label.contains(':')
        }
}

proof fn lemma_labels_ok(ls: Seq<Seq<char>>, n: int)
    requires
        0 <= n <= ls.len(),
    ensures
        labels_ok(blocks_upto(ls, n).1),
    decreases n,
{
    if n > 0 {
        lemma_labels_ok(ls, n - 1);
        let o = blocks_upto(ls, n - 1);
        let c = blocks_upto(ls, n);
        let line = ls[n - 1];
        if o.0 == ParsePhase::Inside && trim(line) != seq!['}'] && block_header_of(line) is Some {
            let t = trim(line);
            let col = char_pos_from(t, ':', 0);
            lemma_char_pos_bounds(t, ':', 0);
            let lab = t.take(col);
            assert(!lab.contains(':')) by {
                if lab.contains(':') {
                    let q = choose|q: int| 0 <= q < lab.len() && lab[q] == ':';
                    assert(t[q] == ':');
                }
            }
            assert forall|k: int| 0 <= k < c.1.len() implies {
                &&& (#[trigger] c.1[k]).label.len() > 0
                &&& all_label_chars(c.1[k].label)
                &&& !c.1[k].label.contains(':')
            } by {
                if k < o.1.len() {
                    assert(c.1[k] == o.1[k]);
                }
            }
        } else {
            assert forall|k: int| 0 <= k < c.1.len() implies {
                &&& (#[trigger] c.1[k]).label.len() > 0
                &&& all_label_chars(c.1[k].label)
                &&& !c.1[k].label.contains(':')
            } by {
                assert(c.1[k].label == o.1[k].label);
            }
        }
    }
}

proof fn lemma_same_role_refl(l: Seq<char>)
    ensures
        same_role(l, l),
{
}

/// The parser on the new lines keeps pace with the parser on the old ones.
proof fn lemma_reparse_upto(
    ls: Seq<Seq<char>>,
    nl: Seq<Seq<char>>,
    j: int,
    t: usize,
    phis: Seq<usize>,
    b: Seq<char>,
    p: Seq<char>,
    x: Seq<char>,
    d: int,
)
    requires
        std_char_facts(),
        back_edge_edits(ls, nl, t, phis, b, p, x),
        t < ls.len(),
        ls.len() + 2 <= usize::MAX,
        forall|m: int|
            0 <= m < phis.len() ==> contains(trim(ls[#[trigger] phis[m] as int]), "= phi "@),
        all_label_chars(b),
        !b.contains(':'),
        p.len() > 0,
        all_label_chars(p),
        x.len() > 0,
        all_label_chars(x),
        is_terminator_line(trim(ls[t as int])),
        branch_targets(trim(ls[t as int])) == seq![x],
        d == blocks_upto(ls, t as int).1.len() - 1,
        0 <= j <= ls.len(),
    ensures
        related(
            blocks_upto(nl, if j <= t { j } else { j + 1 }),
            blocks_upto(ls, j),
            t,
            d,
            j > t,
            p,
            x,
        ),
    decreases j,
{
    if j > 0 {
        let i = j - 1;
        lemma_reparse_upto(ls, nl, i, t, phis, b, p, x, d);
        if i == t {
            let l1t = arm_edited(ls, phis, b, t as int);
            let indent = leading_ws(l1t);
            lemma_ws_run_end_bounds(l1t, 0);
            assert forall|k: int| 0 <= k < indent.len() implies spec_is_whitespace(
                #[trigger] indent[k],
            ) by {
                assert(indent[k] == l1t[k]);
            }
            let cond = cond_name(t);
            lemma_cond_name_ok(t);
            lemma_freeze_line(indent, cond);
            lemma_branch_line(indent, cond, p, x);
            lemma_terminator_line(ls[t as int]);
            assert(blocks_upto(nl, t + 1) == block_step(blocks_upto(nl, t as int), nl[t as int], t));
            assert(blocks_upto(nl, t + 2) == block_step(
                blocks_upto(nl, t + 1),
                nl[t + 1],
                (t + 1) as usize,
            ));
            assert(blocks_upto(ls, t + 1) == block_step(blocks_upto(ls, t as int), ls[t as int], t));
            lemma_step_at_t(
                blocks_upto(nl, t as int),
                blocks_upto(ls, t as int),
                ls[t as int],
                nl[t as int],
                nl[t + 1],
                t,
                d,
                p,
                x,
            );
        } else {
            let ni = if i < t {
                i
            } else {
                i + 1
            };
            assert(nl[ni] == arm_edited(ls, phis, b, i));
            if listed(phis, i) {
                let m = choose|m: int| 0 <= m < phis.len() && phis[m] == i;
                assert(contains(trim(ls[phis[m] as int]), "= phi "@));
                lemma_edit_line(ls[i], b);
            } else {
                lemma_same_role_refl(ls[i]);
            }
            assert(blocks_upto(nl, ni + 1) == block_step(blocks_upto(nl, ni), nl[ni], ni as usize));
            assert(blocks_upto(ls, i + 1) == block_step(blocks_upto(ls, i), ls[i], i as usize));
            lemma_step_alike(
                blocks_upto(nl, ni),
                blocks_upto(ls, i),
                nl[ni],
                ls[i],
                ni as usize,
                i as usize,
                t,
                d,
                i > t,
                p,
                x,
            );
        }
    }
}

/// After line `t`, only the block that was last when line `t` was read can
/// have `t` as its terminator line.
proof fn lemma_owner(ls: Seq<Seq<char>>, t: int, n: int)
    requires
        0 <= t < n <= ls.len(),
        ls.len() <= usize::MAX,
    ensures
        forall|k: int|
            0 <= k < blocks_upto(ls, n).1.len() && (#[trigger] blocks_upto(ls, n).1[k]).terminator_line
                == t ==> k == blocks_upto(ls, t).1.len() - 1,
    decreases n,
{
    let o = blocks_upto(ls, n - 1);
    let c = blocks_upto(ls, n);
    if n == t + 1 {
        lemma_blocks_indices(ls, t);
        assert forall|k: int| 0 <= k < c.1.len() && (#[trigger] c.1[k]).terminator_line == t implies k
            == o.1.len() - 1 by {
            if k < o.1.len() - 1 || (k < o.1.len() && c.1.len() > o.1.len()) {
                assert(c.1[k] == o.1[k]);
                assert(0 <= k < o.1.len());
            }
        }
    } else {
        lemma_owner(ls, t, n - 1);
        assert forall|k: int| 0 <= k < c.1.len() && (#[trigger] c.1[k]).terminator_line == t implies k
            == blocks_upto(ls, t).1.len() - 1 by {
            if k < o.1.len() && c.1[k] == o.1[k] {
                assert(o.1[k].terminator_line == t);
            } else if k < o.1.len() {
                assert(k == o.1.len() - 1);
            }
        }
    }
}

/// The blocks `nbs` read from the new lines are the blocks `bs` read from
/// the old ones, with the same labels; block `bi` now branches to `p` or
/// `x`, and every other block keeps its successors and its number of PHIs.
pub open spec fn reparsed_as(
    nbs: Seq<BlockView>,
    bs: Seq<BlockView>,
    bi: int,
    p: Seq<char>,
    x: Seq<char>,
) -> bool {
    &&& nbs.len() == bs.len()
    &&& forall|k: int| 0 <= k < bs.len() ==> (#[trigger] nbs[k]).label == bs[k].label
    &&& nbs[bi].successors == seq![p, x]
    &&& forall|k: int|
        0 <= k < bs.len() && k != bi ==> {
            &&& (#[trigger] nbs[k]).successors == bs[k].successors
            &&& nbs[k].phi_lines.len() == bs[k].phi_lines.len()
        }
}

/// Law: splitting the new IR into lines and parsing it again finds the same
/// blocks under the same labels; the branching block B now has the two
/// successors P and X (its old edge to X is kept), and every other block
/// keeps its successors and its number of PHI lines.  It rests on two facts
/// of std's character classes (`std_char_facts`).
pub proof fn lemma_back_edge_reparse(text: Seq<char>, pick: int)
    requires
        0 <= pick < back_edge_count(text),
        lines(text).len() + 2 <= usize::MAX,
        std_char_facts(),
    ensures
        ({
            let ls = lines(text);
            let bs = parsed_blocks(ls);
            let c = candidates(bs)[pick];
            &&& back_edge(text, pick) matches Some(r)
            &&& lines(r.0).len() <= ls.len() + 1
            &&& reparsed_as(
                parsed_blocks(lines(r.0)),
                bs,
                c.0 as int,
                c.1,
                bs[c.0 as int].successors[0],
            )
        }),
{
    let ls = lines(text);
    let bs = parsed_blocks(ls);
    let c = candidates(bs)[pick];
    let bi = c.0 as int;
    let b = bs[bi];
    lemma_back_edge_effect(text, pick);
    crate::cfg::lemma_back_edge_defined(text, pick);
    let pi = crate::cfg::first_label_from(bs, c.1, 0)->0;
    let pb = bs[pi];
    let t = b.terminator_line;
    let x = b.successors[0];
    let r = back_edge(text, pick)->0;
    let nl = choose|nl: Seq<Seq<char>>|
        r.0 == join(nl, "\n"@) && back_edge_edits(ls, nl, t, pb.phi_lines, b.label, c.1, x);
    lemma_labels_ok(ls, ls.len() as int);
    let w = choose|i: int|
        0 <= i < bs.len() && bs[i].label == c.1 && bs[i].successors.contains(b.label);
    crate::cfg::lemma_first_label(bs, c.1, 0, w);
    assert(0 <= pi < bs.len());
    lemma_branch_targets_shape(trim(ls[t as int]));
    assert(branch_targets(trim(ls[t as int]))[0] == x);
    let d = blocks_upto(ls, t as int).1.len() - 1;
    lemma_reparse_upto(ls, nl, ls.len() as int, t, pb.phi_lines, b.label, c.1, x, d);
    lemma_owner(ls, t as int, ls.len() as int);
    let nbs = parsed_blocks(nl);
    assert(nbs == blocks_upto(nl, (ls.len() + 1) as int).1);
    assert(bi == d);
    assert(reparsed_as(nbs, bs, bi, c.1, x));
    lemma_lines_no_newline(text, 0);
    lemma_edits_no_newline(ls, nl, t, pb.phi_lines, b.label, c.1, x);
    lemma_parse_joined(nl);
    lemma_lines_join(nl);
    lemma_relined_index(nl);
}

// ---------------------------------------------------------------------------
// Splitting the joined lines again
// ---------------------------------------------------------------------------

/// A line without a `\r` at its end.
pub open spec fn strip_cr(l: Seq<char>) -> Seq<char> {
    if l.len() > 0 && l.last() == '\r' {
        l.drop_last()
    } else {
        l
    }
}

/// What `str::lines` gives back for lines joined by `\n`: each line but the
/// last without a final `\r`, and the last one only if it is not empty.
pub open spec fn relined(parts: Seq<Seq<char>>) -> Seq<Seq<char>>
    decreases parts.len(),
{
    if parts.len() == 0 {
        seq![]
    } else if parts.len() == 1 {
        if parts[0].len() > 0 {
            seq![parts[0]]
        } else {
            seq![]
        }
    } else {
        seq![strip_cr(parts[0])] + relined(parts.drop_first())
    }
}

pub open spec fn no_newline(parts: Seq<Seq<char>>) -> bool {
    forall|k: int| 0 <= k < parts.len() ==> !(#[trigger] parts[k]).contains('\n')
}

proof fn lemma_join_front(parts: Seq<Seq<char>>, sep: Seq<char>)
    requires
        parts.len() >= 2,
    ensures
        join(parts, sep) == parts[0] + sep + join(parts.drop_first(), sep),
    decreases parts.len(),
{
    let r = parts.drop_first();
    if parts.len() == 2 {
        assert(parts.drop_last() =~= seq![parts[0]]);
        assert(r =~= seq![parts[1]]);
        assert(join(parts.drop_last(), sep) == parts[0]);
        assert(join(r, sep) == parts[1]);
        assert(join(parts, sep) == join(parts.drop_last(), sep) + sep + parts.last());
    } else {
        let dl = parts.drop_last();
        assert(join(parts, sep) == join(dl, sep) + sep + parts.last());
        assert(join(r, sep) == join(r.drop_last(), sep) + sep + r.last());
        lemma_join_front(parts.drop_last(), sep);
        assert(parts.drop_last().drop_first() =~= r.drop_last());
        assert(parts.drop_last()[0] == parts[0]);
        assert(r.last() == parts.last());
        assert(join(parts, sep) =~= parts[0] + sep + join(r, sep));
    }
}

proof fn lemma_char_pos_shift(a: Seq<char>, r: Seq<char>, c: char, i: int)
    requires
        0 <= i <= r.len(),
    ensures
        char_pos_from(a + r, c, a.len() + i) == a.len() + char_pos_from(r, c, i),
    decreases r.len() - i,
{
    if i < r.len() {
        assert((a + r)[a.len() + i] == r[i]);
        lemma_char_pos_shift(a, r, c, i + 1);
    }
}

proof fn lemma_lines_shift(a: Seq<char>, r: Seq<char>, i: int)
    requires
        0 <= i,
    ensures
        lines_from(a + r, a.len() + i) == lines_from(r, i),
    decreases r.len() + 1 - i,
{
    let s = a + r;
    if i < r.len() {
        lemma_char_pos_shift(a, r, '\n', i);
        lemma_char_pos_bounds(r, '\n', i);
        let e = char_pos_from(r, '\n', i);
        assert(s.subrange(a.len() + i, a.len() + e) =~= r.subrange(i, e));
        lemma_lines_shift(a, r, e + 1);
    }
}

proof fn lemma_lines_join(parts: Seq<Seq<char>>)
    requires
        no_newline(parts),
    ensures
        lines(join(parts, "\n"@)) == relined(parts),
    decreases parts.len(),
{
    reveal_strlit("\n");
    if parts.len() == 1 {
        let a = parts[0];
        assert(join(parts, "\n"@) == a);
        if a.len() > 0 {
            assert forall|k: int| 0 <= k < a.len() implies #[trigger] a[k] != '\n' by {
                assert(!parts[0].contains('\n'));
            }
            lemma_char_pos_at(a, '\n', 0, a.len() as int);
            assert(a.subrange(0, a.len() as int) =~= a);
            assert(lines_from(a, a.len() + 1int) =~= Seq::<Seq<char>>::empty());
            assert(lines_from(a, 0) =~= seq![a]);
        }
    } else if parts.len() >= 2 {
        let a = parts[0];
        let rest = parts.drop_first();
        assert(no_newline(rest)) by {
            assert forall|k: int| 0 <= k < rest.len() implies !(#[trigger] rest[k]).contains('\n') by {
                assert(rest[k] == parts[k + 1]);
            }
        }
        lemma_lines_join(rest);
        lemma_join_front(parts, "\n"@);
        let jr = join(rest, "\n"@);
        let s = a + "\n"@ + jr;
        assert forall|k: int| 0 <= k < a.len() implies #[trigger] s[k] != '\n' by {
            assert(s[k] == a[k]);
            assert(!parts[0].contains('\n'));
        }
        assert(s[a.len() as int] == '\n');
        lemma_char_pos_at(s, '\n', 0, a.len() as int);
        assert(s.subrange(0, a.len() as int) =~= a);
        assert(s =~= (a + "\n"@) + jr);
        lemma_lines_shift(a + "\n"@, jr, 0);
        assert(lines_from(s, a.len() + 1int) == lines_from(jr, 0));
        assert(lines_from(s, 0) =~= seq![strip_cr(a)] + lines(jr));
    }
}

/// The lines of `relined(parts)`, one by one.
proof fn lemma_relined_index(parts: Seq<Seq<char>>)
    requires
        parts.len() >= 1,
    ensures
        relined(parts).len() == if parts.last().len() > 0 {
            parts.len() as int
        } else {
            parts.len() - 1
        },
        forall|k: int|
            0 <= k < relined(parts).len() ==> #[trigger] relined(parts)[k] == if k < parts.len()
                - 1 {
                strip_cr(parts[k])
            } else {
                parts[k]
            },
    decreases parts.len(),
{
    if parts.len() >= 2 {
        let rest = parts.drop_first();
        lemma_relined_index(rest);
        assert(rest.last() == parts.last());
        assert forall|k: int| 0 <= k < relined(parts).len() implies #[trigger] relined(parts)[k]
            == if k < parts.len() - 1 {
            strip_cr(parts[k])
        } else {
            parts[k]
        } by {
            if k > 0 {
                assert(relined(parts)[k] == relined(rest)[k - 1]);
                assert(rest[k - 1] == parts[k]);
            }
        }
    }
}

/// Dropping a final `\r` changes neither the trimmed text nor indentation,
/// so the parser reads the line the same way.
proof fn lemma_strip_cr_step(st: (ParsePhase, Seq<BlockView>), l: Seq<char>, i: usize)
    ensures
        block_step(st, strip_cr(l), i) == block_step(st, l, i),
{
    if l.len() > 0 && l.last() == '\r' {
        let m = l.drop_last();
        assert(l =~= m + seq!['\r']);
        let w = ws_run_end(m, 0);
        lemma_ws_run_end_bounds(m, 0);
        assert forall|k: int| 0 <= k < w implies spec_is_whitespace(#[trigger] l[k]) by {
            assert(l[k] == m[k]);
        }
        if w < m.len() {
            assert(l[w] == m[w]);
            lemma_ws_end_at(l, 0, w);
            let y = m.skip(w);
            let yl = l.skip(w);
            assert(yl =~= y.push('\r'));
            let e = ws_run_start(y, y.len() as int);
            lemma_ws_run_start_bounds(y, y.len() as int);
            assert(e > 0) by {
                if e == 0 {
                    assert(spec_is_whitespace(y[0]));
                    assert(y[0] == m[w]);
                }
            }
            assert forall|k: int| e <= k < yl.len() implies spec_is_whitespace(#[trigger] yl[k]) by {
                if k < y.len() {
                    assert(yl[k] == y[k]);
                }
            }
            assert(yl[e - 1] == y[e - 1]);
            lemma_ws_start_at(yl, e, yl.len() as int);
            assert(yl.take(e) =~= y.take(e));
        } else {
            lemma_ws_end_at(l, 0, l.len() as int);
            assert(m.skip(w) =~= Seq::<char>::empty());
            assert(l.skip(l.len() as int) =~= Seq::<char>::empty());
        }
        assert(trim(l) == trim(m));
        if m.len() > 0 {
            assert(l[0] == m[0]);
        }
        assert(is_indented(l) == is_indented(m));
    }
}

/// An empty line changes nothing.
proof fn lemma_empty_step(st: (ParsePhase, Seq<BlockView>), l: Seq<char>, i: usize)
    requires
        l.len() == 0,
    ensures
        block_step(st, l, i) == st,
{
    reveal_strlit("define ");
    lemma_ws_end_at(l, 0, 0);
    lemma_ws_start_at(l.skip(0), 0, 0);
    assert(trim(l) =~= l);
}

proof fn lemma_relined_blocks(parts: Seq<Seq<char>>, n: int)
    requires
        parts.len() >= 1,
        0 <= n <= relined(parts).len(),
    ensures
        blocks_upto(relined(parts), n) == blocks_upto(parts, n),
    decreases n,
{
    if n > 0 {
        lemma_relined_blocks(parts, n - 1);
        lemma_relined_index(parts);
        let k = n - 1;
        if k < parts.len() - 1 {
            lemma_strip_cr_step(blocks_upto(parts, k), parts[k], k as usize);
        }
    }
}

/// Joining lines without `\n` and splitting the text again reads to the
/// same blocks.
proof fn lemma_parse_joined(parts: Seq<Seq<char>>)
    requires
        no_newline(parts),
        parts.len() >= 1,
    ensures
        parsed_blocks(lines(join(parts, "\n"@))) == parsed_blocks(parts),
{
    lemma_lines_join(parts);
    lemma_relined_index(parts);
    let rl = relined(parts);
    lemma_relined_blocks(parts, rl.len() as int);
    if parts.last().len() == 0 {
        let k = parts.len() - 1;
        lemma_empty_step(blocks_upto(parts, k), parts[k], k as usize);
    }
}

proof fn lemma_concat_no_nl(a: Seq<char>, b: Seq<char>)
    requires
        !a.contains('\n'),
        !b.contains('\n'),
    ensures
        !(a + b).contains('\n'),
{
    if (a + b).contains('\n') {
        let k = choose|k: int| 0 <= k < (a + b).len() && (a + b)[k] == '\n';
        if k < a.len() {
            assert(a[k] == '\n');
        } else {
            assert(b[k - a.len()] == '\n');
        }
    }
}

proof fn lemma_solid_no_nl(a: Seq<char>)
    requires
        forall|k: int| 0 <= k < a.len() ==> !spec_is_whitespace(#[trigger] a[k]),
    ensures
        !a.contains('\n'),
{
    if a.contains('\n') {
        let k = choose|k: int| 0 <= k < a.len() && a[k] == '\n';
        assert(!spec_is_whitespace(a[k]));
    }
}

proof fn lemma_label_no_nl(a: Seq<char>)
    requires
        std_char_facts(),
        all_label_chars(a),
    ensures
        !a.contains('\n'),
{
    assert forall|k: int| 0 <= k < a.len() implies !spec_is_whitespace(#[trigger] a[k]) by {
        lemma_label_char_solid(a[k]);
    }
    lemma_solid_no_nl(a);
}

proof fn lemma_part_no_nl(a: Seq<char>, lo: int, hi: int)
    requires
        !a.contains('\n'),
        0 <= lo <= hi <= a.len(),
    ensures
        !a.subrange(lo, hi).contains('\n'),
{
    if a.subrange(lo, hi).contains('\n') {
        let k = choose|k: int| 0 <= k < hi - lo && a.subrange(lo, hi)[k] == '\n';
        assert(a[lo + k] == '\n');
    }
}

proof fn lemma_lines_no_newline(s: Seq<char>, i: int)
    requires
        0 <= i,
    ensures
        no_newline(lines_from(s, i)),
    decreases s.len() + 1 - i,
{
    if i < s.len() {
        let e = char_pos_from(s, '\n', i);
        lemma_char_pos_bounds(s, '\n', i);
        lemma_lines_no_newline(s, e + 1);
        let raw = s.subrange(i, e);
        assert(!raw.contains('\n')) by {
            if raw.contains('\n') {
                let k = choose|k: int| 0 <= k < raw.len() && raw[k] == '\n';
                assert(s[i + k] == '\n');
            }
        }
        if raw.len() > 0 {
            lemma_part_no_nl(raw, 0, raw.len() - 1);
            assert(raw.drop_last() =~= raw.subrange(0, raw.len() - 1));
        }
        let all = lines_from(s, i);
        let rest = lines_from(s, e + 1);
        assert forall|k: int| 0 <= k < all.len() implies !(#[trigger] all[k]).contains('\n') by {
            if k > 0 {
                assert(all[k] == rest[k - 1]);
            }
        }
    }
}

proof fn lemma_edits_no_newline(
    ls: Seq<Seq<char>>,
    nl: Seq<Seq<char>>,
    t: usize,
    phis: Seq<usize>,
    b: Seq<char>,
    p: Seq<char>,
    x: Seq<char>,
)
    requires
        std_char_facts(),
        no_newline(ls),
        back_edge_edits(ls, nl, t, phis, b, p, x),
        t < ls.len(),
        all_label_chars(b),
        all_label_chars(p),
        all_label_chars(x),
    ensures
        no_newline(nl),
{
    reveal_strlit(", [ undef, %");
    reveal_strlit(" ]");
    reveal_strlit("%");
    reveal_strlit(" = freeze i1 poison");
    reveal_strlit("br i1 %");
    reveal_strlit(", label %");
    let arm = phi_arm(b);
    lemma_label_no_nl(b);
    lemma_concat_no_nl(", [ undef, %"@, b);
    lemma_concat_no_nl(", [ undef, %"@ + b, " ]"@);
    assert(!arm.contains('\n'));
    assert forall|j: int| 0 <= j < ls.len() implies !(#[trigger] arm_edited(ls, phis, b, j)).contains(
        '\n',
    ) by {
        assert(!ls[j].contains('\n'));
        if listed(phis, j) {
            lemma_ws_run_start_bounds(ls[j], ls[j].len() as int);
            lemma_part_no_nl(ls[j], 0, ws_run_start(ls[j], ls[j].len() as int));
            assert(trim_end(ls[j]) =~= ls[j].subrange(0, ws_run_start(ls[j], ls[j].len() as int)));
            lemma_concat_no_nl(trim_end(ls[j]), arm);
        }
    }
    let l1t = arm_edited(ls, phis, b, t as int);
    let indent = leading_ws(l1t);
    lemma_ws_run_end_bounds(l1t, 0);
    lemma_part_no_nl(l1t, 0, ws_run_end(l1t, 0));
    assert(indent =~= l1t.subrange(0, ws_run_end(l1t, 0)));
    let cond = cond_name(t);
    lemma_cond_name_ok(t);
    lemma_solid_no_nl(cond);
    lemma_label_no_nl(p);
    lemma_label_no_nl(x);
    lemma_concat_no_nl(indent, "%"@);
    lemma_concat_no_nl(indent + "%"@, cond);
    lemma_concat_no_nl(indent + "%"@ + cond, " = freeze i1 poison"@);
    lemma_concat_no_nl(indent, "br i1 %"@);
    lemma_concat_no_nl(indent + "br i1 %"@, cond);
    lemma_concat_no_nl(indent + "br i1 %"@ + cond, ", label %"@);
    lemma_concat_no_nl(indent + "br i1 %"@ + cond + ", label %"@, p);
    lemma_concat_no_nl(indent + "br i1 %"@ + cond + ", label %"@ + p, ", label %"@);
    lemma_concat_no_nl(indent + "br i1 %"@ + cond + ", label %"@ + p + ", label %"@, x);
    assert forall|j: int| 0 <= j < nl.len() implies !(#[trigger] nl[j]).contains('\n') by {
        if j < t {
            assert(nl[j] == arm_edited(ls, phis, b, j));
        } else if j == t {
        } else if j == t + 1 {
        } else {
            assert(nl[j] == arm_edited(ls, phis, b, j - 1));
        }
    }
}

} // verus!
