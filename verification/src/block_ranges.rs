//! The blocks that the block parser finds, described by line ranges: the
//! label lines of the first function, and for each block the PHI lines and
//! the last terminator between its label and the next one.

use vstd::prelude::*;

use crate::cfg::{block_step, blocks_upto, instr_update, listed, parsed_blocks, BlockView, ParsePhase};
use crate::scan::{block_header_of, branch_targets, is_terminator_line};
use crate::text::{contains, starts_with, trim};

verus! {

/// The line opens a function: its trimmed text starts with `define `.
pub open spec fn opens_function(l: Seq<char>) -> bool {
    starts_with(trim(l), "define "@)
}

/// The line closes a function: its trimmed text is `}`.
pub open spec fn closes_function(l: Seq<char>) -> bool {
    trim(l) == seq!['}']
}

/// Index of the first line at or after `i` that opens a function, or the
/// number of lines.
pub open spec fn first_open(ls: Seq<Seq<char>>, i: int) -> int
    decreases ls.len() - i,
{
    if i < 0 || i >= ls.len() {
        ls.len() as int
    } else if opens_function(ls[i]) {
        i
    } else {
        first_open(ls, i + 1)
    }
}

/// Index of the first line at or after `i` that closes a function, or the
/// number of lines.
pub open spec fn first_close(ls: Seq<Seq<char>>, i: int) -> int
    decreases ls.len() - i,
{
    if i < 0 || i >= ls.len() {
        ls.len() as int
    } else if closes_function(ls[i]) {
        i
    } else {
        first_close(ls, i + 1)
    }
}

/// The line that opens the first function.
pub open spec fn fn_start(ls: Seq<Seq<char>>) -> int {
    first_open(ls, 0)
}

/// The line that closes the first function.
pub open spec fn fn_end(ls: Seq<Seq<char>>) -> int {
    first_close(ls, fn_start(ls) + 1)
}

/// A line with content: its trimmed text is non-empty and no comment.
pub open spec fn content_line(l: Seq<char>) -> bool {
    let t = trim(l);
    t.len() > 0 && t[0] != ';'
}

/// A content line holding a PHI.
pub open spec fn phi_line(l: Seq<char>) -> bool {
    content_line(l) && contains(trim(l), "= phi "@)
}

/// A content line holding a terminator.
pub open spec fn term_line(l: Seq<char>) -> bool {
    content_line(l) && is_terminator_line(trim(l))
}

/// Block `b` spans the lines strictly between `lo` and `hi`: its PHI lines
/// are exactly the PHI lines there, in order; its terminator is the last
/// terminator line there (none if there is none); its successors are the
/// targets of that terminator.
pub open spec fn block_spans(ls: Seq<Seq<char>>, b: BlockView, lo: int, hi: int) -> bool {
    let tl = b.terminator_line;
    &&& forall|m1: int, m2: int|
        #![trigger b.phi_lines[m1], b.phi_lines[m2]]
        0 <= m1 < m2 < b.phi_lines.len() ==> b.phi_lines[m1] < b.phi_lines[m2]
    &&& forall|m: int|
        0 <= m < b.phi_lines.len() ==> lo < #[trigger] b.phi_lines[m] < hi && phi_line(
            ls[b.phi_lines[m] as int],
        )
    &&& forall|i: int| lo < i < hi && #[trigger] phi_line(ls[i]) ==> listed(b.phi_lines, i)
    &&& tl == usize::MAX ==> forall|i: int| lo < i < hi ==> !#[trigger] term_line(ls[i])
    &&& tl != usize::MAX ==> {
        &&& lo < tl < hi
        &&& term_line(ls[tl as int])
        &&& forall|i: int| tl < i < hi ==> !#[trigger] term_line(ls[i])
    }
    &&& b.successors == if tl == usize::MAX {
        seq![]
    } else {
        branch_targets(trim(ls[tl as int]))
    }
}

/// `hs` lists, in order, exactly the label lines in `[lo, hi)`.
pub open spec fn headers_of(ls: Seq<Seq<char>>, hs: Seq<int>, lo: int, hi: int) -> bool {
    &&& forall|a: int, b: int| #![trigger hs[a], hs[b]] 0 <= a < b < hs.len() ==> hs[a] < hs[b]
    &&& forall|k: int|
        0 <= k < hs.len() ==> lo <= #[trigger] hs[k] < hi && block_header_of(ls[hs[k]]) is Some
    &&& forall|i: int|
        lo <= i < hi && (#[trigger] block_header_of(ls[i])) is Some ==> exists|k: int|
            0 <= k < hs.len() && hs[k] == i
}

/// The blocks `bs` are those of the label lines `hs` in `[lo, hi)`: each is
/// named by its label line and spans the lines up to the next label line,
/// the last one up to `hi`.
pub open spec fn parsed_as_ranges(
    ls: Seq<Seq<char>>,
    bs: Seq<BlockView>,
    hs: Seq<int>,
    lo: int,
    hi: int,
) -> bool {
    &&& headers_of(ls, hs, lo, hi)
    &&& bs.len() == hs.len()
    &&& forall|k: int|
        0 <= k < bs.len() ==> {
            &&& (#[trigger] bs[k]).label == block_header_of(ls[hs[k]])->0
            &&& block_spans(
                ls,
                bs[k],
                hs[k],
                if k + 1 < hs.len() {
                    hs[k + 1]
                } else {
                    hi
                },
            )
        }
}

proof fn lemma_first_open(ls: Seq<Seq<char>>, i: int)
    requires
        0 <= i <= ls.len(),
    ensures
        i <= first_open(ls, i) <= ls.len(),
        forall|j: int| i <= j < first_open(ls, i) ==> !opens_function(#[trigger] ls[j]),
        first_open(ls, i) < ls.len() ==> opens_function(ls[first_open(ls, i)]),
    decreases ls.len() - i,
{
    if i < ls.len() && !opens_function(ls[i]) {
        lemma_first_open(ls, i + 1);
    }
}

proof fn lemma_first_close(ls: Seq<Seq<char>>, i: int)
    requires
        0 <= i,
    ensures
        i <= ls.len() ==> i <= first_close(ls, i),
        first_close(ls, i) <= ls.len(),
        forall|j: int| i <= j < first_close(ls, i) ==> !closes_function(#[trigger] ls[j]),
        first_close(ls, i) < ls.len() ==> closes_function(ls[first_close(ls, i)]),
    decreases ls.len() - i,
{
    if i < ls.len() && !closes_function(ls[i]) {
        lemma_first_close(ls, i + 1);
    }
}

/// Reading one more line of a block extends its span by that line.
proof fn lemma_span_extend(ls: Seq<Seq<char>>, b: BlockView, lo: int, i: int)
    requires
        0 <= lo < i < ls.len(),
        i < usize::MAX,
        block_spans(ls, b, lo, i),
    ensures
        block_spans(
            ls,
            if content_line(ls[i]) {
                instr_update(b, trim(ls[i]), i as usize)
            } else {
                b
            },
            lo,
            i + 1,
        ),
{
    let b2 = if content_line(ls[i]) {
        instr_update(b, trim(ls[i]), i as usize)
    } else {
        b
    };
    let t = trim(ls[i]);
    let ph = b2.phi_lines;
    if phi_line(ls[i]) {
        assert(ph == b.phi_lines.push(i as usize));
        assert forall|m1: int, m2: int| 0 <= m1 < m2 < ph.len() implies ph[m1] < ph[m2] by {
            if m2 == ph.len() - 1 {
                assert(ph[m1] == b.phi_lines[m1]);
            } else {
                assert(ph[m1] == b.phi_lines[m1]);
                assert(ph[m2] == b.phi_lines[m2]);
            }
        }
        assert forall|m: int| 0 <= m < ph.len() implies lo < #[trigger] ph[m] < i + 1 && phi_line(
            ls[ph[m] as int],
        ) by {
            if m < b.phi_lines.len() {
                assert(ph[m] == b.phi_lines[m]);
            }
        }
        assert forall|j: int| lo < j < i + 1 && #[trigger] phi_line(ls[j]) implies listed(ph, j) by {
            if j < i {
                assert(listed(b.phi_lines, j));
                let m = choose|m: int| 0 <= m < b.phi_lines.len() && b.phi_lines[m] == j;
                assert(ph[m] == j);
            } else {
                assert(ph[ph.len() - 1] == j);
            }
        }
    } else {
        assert(ph == b.phi_lines);
        assert forall|j: int| lo < j < i + 1 && #[trigger] phi_line(ls[j]) implies listed(ph, j) by {
            assert(j < i);
        }
    }
    if term_line(ls[i]) {
        assert(b2.terminator_line == i);
    } else {
        assert(b2.terminator_line == b.terminator_line);
        assert(b2.successors == b.successors);
        if b.terminator_line == usize::MAX {
            assert forall|j: int| lo < j < i + 1 implies !#[trigger] term_line(ls[j]) by {
                if j < i {
                }
            }
        } else {
            assert forall|j: int| b.terminator_line < j < i + 1 implies !#[trigger] term_line(
                ls[j],
            ) by {
                if j < i {
                }
            }
        }
    }
}

/// The prefix of the lines read so far, as block ranges.
pub open spec fn read_up_to(ls: Seq<Seq<char>>, n: int) -> int {
    let d = fn_start(ls);
    let e = fn_end(ls);
    if n <= d {
        d + 1
    } else if n <= e {
        n
    } else {
        e
    }
}

proof fn lemma_ranges_upto(ls: Seq<Seq<char>>, n: int)
    requires
        0 <= n <= ls.len(),
        ls.len() <= usize::MAX,
    ensures
        blocks_upto(ls, n).0 == if n <= fn_start(ls) {
            ParsePhase::Before
        } else if n <= fn_end(ls) {
            ParsePhase::Inside
        } else {
            ParsePhase::After
        },
        exists|hs: Seq<int>|
            #[trigger] parsed_as_ranges(
                ls,
                blocks_upto(ls, n).1,
                hs,
                fn_start(ls) + 1,
                read_up_to(ls, n),
            ),
    decreases n,
{
    let d = fn_start(ls);
    let e = fn_end(ls);
    lemma_first_open(ls, 0);
    lemma_first_close(ls, d + 1);
    if n == 0 {
        let hs = Seq::<int>::empty();
        assert(parsed_as_ranges(ls, blocks_upto(ls, 0).1, hs, d + 1, read_up_to(ls, 0)));
    } else {
        let i = n - 1;
        lemma_ranges_upto(ls, i);
        let prev = blocks_upto(ls, i);
        let cur = blocks_upto(ls, n);
        let hs = choose|hs: Seq<int>|
            #[trigger] parsed_as_ranges(ls, prev.1, hs, d + 1, read_up_to(ls, i));
        let line = ls[i];
        assert(cur == block_step(prev, line, i as usize));
        if i < d || i > e {
            assert(cur == prev);
            assert(parsed_as_ranges(ls, cur.1, hs, d + 1, read_up_to(ls, n)));
        } else if i == d {
            assert(hs.len() == 0) by {
                if hs.len() > 0 {
                    assert(d + 1 <= hs[0] < d + 1);
                }
            }
            assert(parsed_as_ranges(ls, cur.1, hs, d + 1, read_up_to(ls, n)));
        } else if i == e {
            assert(closes_function(ls[e]));
            assert(parsed_as_ranges(ls, cur.1, hs, d + 1, read_up_to(ls, n)));
        } else {
            // inside the first function, before its end
            assert(!closes_function(line));
            assert(read_up_to(ls, i) == i);
            assert(read_up_to(ls, n) == n);
            let t = trim(line);
            if block_header_of(line) is Some {
                let nb = BlockView {
                    label: block_header_of(line)->0,
                    phi_lines: seq![],
                    terminator_line: usize::MAX,
                    successors: seq![],
                };
                assert(cur.1 == prev.1.push(nb));
                let hs2 = hs.push(i);
                assert forall|a: int, b: int| #![trigger hs2[a], hs2[b]] 0 <= a < b < hs2.len() implies hs2[a]
                    < hs2[b] by {
                    if b == hs2.len() - 1 {
                        assert(hs2[a] == hs[a]);
                    } else {
                        assert(hs2[a] == hs[a]);
                        assert(hs2[b] == hs[b]);
                    }
                }
                assert forall|j: int|
                    d + 1 <= j < n && (#[trigger] block_header_of(ls[j])) is Some implies exists|k: int|
                    0 <= k < hs2.len() && hs2[k] == j by {
                    if j < i {
                        let k = choose|k: int| 0 <= k < hs.len() && hs[k] == j;
                        assert(hs2[k] == j);
                    } else {
                        assert(hs2[hs2.len() - 1] == j);
                    }
                }
                assert forall|k: int| 0 <= k < cur.1.len() implies {
                    &&& (#[trigger] cur.1[k]).label == block_header_of(ls[hs2[k]])->0
                    &&& block_spans(
                        ls,
                        cur.1[k],
                        hs2[k],
                        if k + 1 < hs2.len() {
                            hs2[k + 1]
                        } else {
                            n
                        },
                    )
                } by {
                    if k < prev.1.len() {
                        assert(cur.1[k] == prev.1[k]);
                        assert(hs2[k] == hs[k]);
                        if k + 1 < hs.len() {
                            assert(hs2[k + 1] == hs[k + 1]);
                        }
                    } else {
                        assert(cur.1[k] == nb);
                        assert(hs2[k] == i);
                    }
                }
                assert(parsed_as_ranges(ls, cur.1, hs2, d + 1, read_up_to(ls, n)));
            } else {
                assert forall|j: int|
                    d + 1 <= j < n && (#[trigger] block_header_of(ls[j])) is Some implies exists|k: int|
                    0 <= k < hs.len() && hs[k] == j by {
                    assert(j < i);
                }
                if prev.1.len() > 0 {
                    let last = prev.1.len() - 1;
                    let lo = hs[last];
                    assert(d + 1 <= lo < i);
                    lemma_span_extend(ls, prev.1[last], lo, i);
                    if content_line(line) {
                        assert(cur.1 == prev.1.update(last, instr_update(prev.1.last(), t, i as usize)));
                    } else {
                        assert(cur.1 == prev.1);
                    }
                    assert forall|k: int| 0 <= k < cur.1.len() implies {
                        &&& (#[trigger] cur.1[k]).label == block_header_of(ls[hs[k]])->0
                        &&& block_spans(
                            ls,
                            cur.1[k],
                            hs[k],
                            if k + 1 < hs.len() {
                                hs[k + 1]
                            } else {
                                n
                            },
                        )
                    } by {
                        if k < last {
                            assert(cur.1[k] == prev.1[k]);
                        }
                    }
                } else {
                    assert(cur.1 == prev.1);
                }
                assert(parsed_as_ranges(ls, cur.1, hs, d + 1, read_up_to(ls, n)));
            }
        }
    }
}

/// Law: the block parser reads the first function by line ranges.  Its
/// label lines are exactly the label lines between the line that opens the
/// first function and the line that closes it; each block is named by its
/// label line and spans the lines up to the next label line (the last one
/// up to the closing line).  A block's PHI lines are exactly the non-comment
/// lines of its span that hold `= phi `, in order; its terminator is the
/// last non-comment terminator line of its span (`usize::MAX` if none), and
/// its successors are that line's branch targets.
pub proof fn lemma_parsed_blocks_ranges(ls: Seq<Seq<char>>)
    requires
        ls.len() <= usize::MAX,
    ensures
        exists|hs: Seq<int>|
            #[trigger] parsed_as_ranges(ls, parsed_blocks(ls), hs, fn_start(ls) + 1, fn_end(ls)),
{
    lemma_ranges_upto(ls, ls.len() as int);
    lemma_first_open(ls, 0);
    lemma_first_close(ls, fn_start(ls) + 1);
    let d = fn_start(ls);
    let e = fn_end(ls);
    if d == ls.len() {
        let hs = choose|hs: Seq<int>|
            #[trigger] parsed_as_ranges(
                ls,
                parsed_blocks(ls),
                hs,
                d + 1,
                read_up_to(ls, ls.len() as int),
            );
        assert(hs.len() == 0) by {
            if hs.len() > 0 {
                assert(d + 1 <= hs[0] < d + 1);
            }
        }
        assert(parsed_as_ranges(ls, parsed_blocks(ls), hs, d + 1, e));
    } else {
        assert(read_up_to(ls, ls.len() as int) == e);
    }
}

} // verus!
