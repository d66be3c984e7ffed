//! Basic-block structure of generated IR functions, and insertion of a
//! synthetic back-edge that turns a straight-line region into a loop.

use vstd::prelude::*;

use rand::rngs::ThreadRng;
use rand::Rng;

use crate::pred_map::{hits, merged, pred_lookup, preds_of, PredMap};
use crate::scan::{
    block_header_exec, block_header_of, branch_targets, branch_targets_exec,
    is_terminator_line, is_terminator_line_exec,
};
use crate::text::{
    char_pos, char_pos_from, chars_eq, chars_of, contains, copy_range, lemma_char_pos_bounds,
    lemma_ws_run_start_bounds, contains_exec, extend, join, join_chars, lemma_ws_run_end_bounds,
    lines, skip_ws, split_lines, starts_with, starts_with_exec, string_of, trim, trim_chars,
    trim_end, trim_end_chars, ws_run_end,
};

verus! {

/// A basic block of a function in the module.
#[derive(Debug)]
pub struct Block {
    /// The block's label, without the colon.
    pub label: String,
    /// Indices of the lines of the block that hold a PHI instruction.
    pub phi_lines: Vec<usize>,
    /// Index of the block's terminator line; `usize::MAX` when none was found.
    pub terminator_line: usize,
    /// Direct successor labels named by the terminator.
    pub successors: Vec<String>,
}

/// The mathematical content of a `Block`.
pub struct BlockView {
    pub label: Seq<char>,
    pub phi_lines: Seq<usize>,
    pub terminator_line: usize,
    pub successors: Seq<Seq<char>>,
}

impl View for Block {
    type V = BlockView;

    open spec fn view(&self) -> BlockView {
        BlockView {
            label: self.label@,
            phi_lines: self.phi_lines@,
            terminator_line: self.terminator_line,
            successors: self.successors@.map_values(|s: String| s@),
        }
    }
}

/// The views of a sequence of strings.
pub open spec fn strs_view(v: Seq<String>) -> Seq<Seq<char>> {
    v.map_values(|s: String| s@)
}

/// The views of a sequence of blocks.
pub open spec fn blocks_view(v: Seq<Block>) -> Seq<BlockView> {
    v.map_values(|b: Block| b@)
}

// ---------------------------------------------------------------------------
// Block parsing
// ---------------------------------------------------------------------------

/// The effect of one instruction line (already trimmed) on the block it
/// belongs to: a PHI adds its line index; a terminator records its line and
/// its branch targets.
pub open spec fn instr_update(b: BlockView, t: Seq<char>, i: usize) -> BlockView {
    let b1 = if contains(t, "= phi "@) {
        BlockView {
            label: b.label,
            phi_lines: b.phi_lines.push(i),
            terminator_line: b.terminator_line,
            successors: b.successors,
        }
    } else {
        b
    };
    if is_terminator_line(t) {
        BlockView {
            label: b1.label,
            phi_lines: b1.phi_lines,
            terminator_line: i,
            successors: branch_targets(t),
        }
    } else {
        b1
    }
}

/// Where the block parser stands: before the first function, inside it, or
/// past its closing brace.
#[derive(Clone, Copy, PartialEq, Eq, Structural)]
pub enum ParsePhase {
    Before,
    Inside,
    After,
}

/// One step of the block parser on line `i`.  The state is the phase and
/// the blocks found so far; only the first function is read.
pub open spec fn block_step(st: (ParsePhase, Seq<BlockView>), line: Seq<char>, i: usize) -> (
    ParsePhase,
    Seq<BlockView>,
) {
    let t = trim(line);
    match st.0 {
        ParsePhase::Before => if starts_with(t, "define "@) {
            (ParsePhase::Inside, st.1)
        } else {
            st
        },
        ParsePhase::After => st,
        ParsePhase::Inside => if t == seq!['}'] {
            (ParsePhase::After, st.1)
        } else if block_header_of(line) is Some {
            (
                ParsePhase::Inside,
                st.1.push(
                    BlockView {
                        label: block_header_of(line)->0,
                        phi_lines: seq![],
                        terminator_line: usize::MAX,
                        successors: seq![],
                    },
                ),
            )
        } else if st.1.len() > 0 && t.len() > 0 && t[0] != ';' {
            (ParsePhase::Inside, st.1.update(st.1.len() - 1, instr_update(st.1.last(), t, i)))
        } else {
            st
        },
    }
}

/// Parser state after the first `n` lines.
pub open spec fn blocks_upto(lines: Seq<Seq<char>>, n: int) -> (ParsePhase, Seq<BlockView>)
    decreases n,
{
    if n <= 0 {
        (ParsePhase::Before, seq![])
    } else {
        block_step(blocks_upto(lines, n - 1), lines[n - 1], (n - 1) as usize)
    }
}

/// The blocks of the first function in `lines`: it opens at the first line
/// whose trimmed text starts with `define ` and closes at the next line that
/// is just `}`; nothing after it is read.
pub open spec fn parsed_blocks(lines: Seq<Seq<char>>) -> Seq<BlockView> {
    blocks_upto(lines, lines.len() as int).1
}

/// Every recorded line index of every block is below `n`.
pub open spec fn indices_below(bs: Seq<BlockView>, n: int) -> bool {
    forall|k: int|
        0 <= k < bs.len() ==> {
            &&& forall|m: int|
                0 <= m < (#[trigger] bs[k]).phi_lines.len() ==> bs[k].phi_lines[m] < n
            &&& (bs[k].terminator_line == usize::MAX || bs[k].terminator_line < n)
        }
}

pub proof fn lemma_blocks_indices(lines: Seq<Seq<char>>, n: int)
    requires
        0 <= n <= lines.len(),
        lines.len() <= usize::MAX,
    ensures
        indices_below(blocks_upto(lines, n).1, n),
    decreases n,
{
    if n > 0 {
        lemma_blocks_indices(lines, n - 1);
        let prev = blocks_upto(lines, n - 1).1;
        let cur = blocks_upto(lines, n).1;
        assert forall|k: int| 0 <= k < cur.len() implies {
            &&& forall|m: int|
                0 <= m < (#[trigger] cur[k]).phi_lines.len() ==> cur[k].phi_lines[m] < n
            &&& (cur[k].terminator_line == usize::MAX || cur[k].terminator_line < n)
        } by {
            if k < prev.len() {
                assert(0 <= k < prev.len());
                let pk = prev[k];
                assert forall|m: int| 0 <= m < pk.phi_lines.len() implies pk.phi_lines[m]
                    < n - 1 by {}
            }
        }
    }
}

/// Copies of the given character vectors as strings.
pub fn strings_of(v: &Vec<Vec<char>>) -> (r: Vec<String>)
    ensures
        strs_view(r@) == v@.map_values(|t: Vec<char>| t@),
{
    let mut r: Vec<String> = Vec::new();
    let mut i: usize = 0;
    while i < v.len()
        invariant
            i <= v.len(),
            strs_view(r@) == v@.map_values(|t: Vec<char>| t@).take(i as int),
        decreases v.len() - i,
    {
        let s = string_of(&v[i]);
        let ghost before = strs_view(r@);
        r.push(s);
        assert(strs_view(r@) =~= before.push(s@));
        assert(v@.map_values(|t: Vec<char>| t@).take(i + 1) =~= v@.map_values(|t: Vec<char>| t@).take(i as int).push(v@[i as int]@));
        i += 1;
    }
    assert(v@.map_values(|t: Vec<char>| t@).take(v.len() as int) =~= v@.map_values(
        |t: Vec<char>| t@,
    ));
    r
}

/// Successor labels from a `br` terminator on a single line.
pub fn parse_branch_targets(line: &str) -> (targets: Vec<String>)
    ensures
        strs_view(targets@) == branch_targets(line@),
{
    let v = chars_of(line);
    let t = branch_targets_exec(&v);
    strings_of(&t)
}

/// Whether the line's first word is a terminator instruction.
pub fn is_terminator(s: &str) -> (b: bool)
    ensures
        b == is_terminator_line(s@),
{
    let v = chars_of(s);
    is_terminator_line_exec(&v)
}

/// Apply one instruction line to a block (see `instr_update`).
fn update_block(b: &mut Block, t: &[char], i: usize)
    ensures
        final(b)@ == instr_update(old(b)@, t@, i),
{
    let phi = chars_of("= phi ");
    if contains_exec(t, &phi) {
        b.phi_lines.push(i);
    }
    if is_terminator_line_exec(t) {
        b.terminator_line = i;
        let targets = branch_targets_exec(t);
        b.successors = strings_of(&targets);
    }
    assert(b@ =~= instr_update(old(b)@, t@, i));
}

/// Parse all basic blocks of the first function in `lines`.
///
/// The function opens at the first line whose trimmed text starts with
/// `define ` and closes at the next line that trims to `}`; later functions
/// are not read.  A block starts at an unindented `label:` line (optionally
/// followed by a comment); later instruction lines of the block record PHI
/// lines and the terminator with its branch targets.
pub fn parse_blocks(lines: &[String]) -> (blocks: Vec<Block>)
    ensures
        blocks_view(blocks@) == parsed_blocks(strs_view(lines@)),
{
    let ghost lv = strs_view(lines@);
    let mut blocks: Vec<Block> = Vec::new();
    let mut phase = ParsePhase::Before;
    let define = chars_of("define ");
    let mut i: usize = 0;
    while i < lines.len()
        invariant
            i <= lines.len(),
            lv == strs_view(lines@),
            define@ == "define "@,
            (phase, blocks_view(blocks@)) == blocks_upto(lv, i as int),
        decreases lines.len() - i,
    {
        let line = chars_of(lines[i].as_str());
        assert(line@ == lv[i as int]);
        let t = trim_chars(&line);
        let ghost prev = blocks_view(blocks@);
        match phase {
            ParsePhase::Before => {
                if starts_with_exec(&t, &define) {
                    phase = ParsePhase::Inside;
                }
            },
            ParsePhase::After => {},
            ParsePhase::Inside => {
                if chars_eq(&t, &['}']) {
                    assert(seq!['}'] =~= ['}']@);
                    phase = ParsePhase::After;
                } else {
                    assert(seq!['}'] =~= ['}']@);
                    match block_header_exec(&line, &t) {
                        Some(label) => {
                            let b = Block {
                                label: string_of(&label),
                                phi_lines: Vec::new(),
                                terminator_line: usize::MAX,
                                successors: Vec::new(),
                            };
                            blocks.push(b);
                            assert(b@.successors =~= Seq::<Seq<char>>::empty());
                            assert(blocks_view(blocks@) =~= prev.push(b@));
                        },
                        None => {
                            if blocks.len() > 0 && t.len() > 0 && t[0] != ';' {
                                let mut b = blocks.pop().unwrap();
                                assert(b@ == prev.last());
                                update_block(&mut b, &t, i);
                                blocks.push(b);
                                assert(blocks_view(blocks@) =~= prev.update(
                                    prev.len() - 1,
                                    instr_update(prev.last(), t@, i),
                                ));
                            }
                        },
                    }
                }
            },
        }
        i += 1;
    }
    blocks
}

// ---------------------------------------------------------------------------
// Back-edge insertion
// ---------------------------------------------------------------------------

/// The (label, successors) edges of the blocks.
pub open spec fn edges_of(bs: Seq<BlockView>) -> Seq<(Seq<char>, Seq<Seq<char>>)> {
    bs.map_values(|b: BlockView| (b.label, b.successors))
}

/// The predecessors that may receive a back-edge: neither the entry block
/// nor the block itself.
pub open spec fn keep_preds(ps: Seq<Seq<char>>, entry: Seq<char>, own: Seq<char>) -> Seq<
    Seq<char>,
>
    decreases ps.len(),
{
    if ps.len() == 0 {
        seq![]
    } else {
        keep_preds(ps.drop_last(), entry, own) + if ps.last() != entry && ps.last() != own {
            seq![ps.last()]
        } else {
            seq![]
        }
    }
}

/// The candidate pairs contributed by block `k`: a block whose terminator
/// is found and names exactly one successor, paired with each of its direct
/// predecessors other than the entry block and itself.
pub open spec fn block_candidates(bs: Seq<BlockView>, k: int) -> Seq<(usize, Seq<char>)> {
    let b = bs[k];
    if b.terminator_line == usize::MAX || b.successors.len() != 1 {
        seq![]
    } else {
        keep_preds(preds_of(edges_of(bs), b.label), bs[0].label, b.label).map_values(
            |p: Seq<char>| (k as usize, p),
        )
    }
}

pub open spec fn candidates_upto(bs: Seq<BlockView>, n: int) -> Seq<(usize, Seq<char>)>
    decreases n,
{
    if n <= 0 {
        seq![]
    } else {
        candidates_upto(bs, n - 1) + block_candidates(bs, n - 1)
    }
}

/// All (block index, predecessor label) pairs where a back-edge may go, in
/// block order and, per block, in predecessor order.
pub open spec fn candidates(bs: Seq<BlockView>) -> Seq<(usize, Seq<char>)> {
    candidates_upto(bs, bs.len() as int)
}

/// Index of the first block at or after `i` whose label is `l`.
pub open spec fn first_label_from(bs: Seq<BlockView>, l: Seq<char>, i: int) -> Option<int>
    decreases bs.len() - i,
{
    if i < 0 || i >= bs.len() {
        None
    } else if bs[i].label == l {
        Some(i)
    } else {
        first_label_from(bs, l, i + 1)
    }
}

/// The new PHI arm for the back-edge from the block labelled `b`.
pub open spec fn phi_arm(b: Seq<char>) -> Seq<char> {
    ", [ undef, %"@ + b + " ]"@
}

/// The lines with the back-edge arm appended to each listed PHI line (each
/// first stripped of trailing whitespace).
pub open spec fn add_phi_arms(ls: Seq<Seq<char>>, idxs: Seq<usize>, b: Seq<char>) -> Seq<
    Seq<char>,
>
    decreases idxs.len(),
{
    if idxs.len() == 0 {
        ls
    } else {
        let prev = add_phi_arms(ls, idxs.drop_last(), b);
        let k = idxs.last() as int;
        prev.update(k, trim_end(prev[k]) + phi_arm(b))
    }
}

/// The leading whitespace of a line.
pub open spec fn leading_ws(l: Seq<char>) -> Seq<char> {
    l.take(ws_run_end(l, 0))
}

/// The decimal digit character for `d < 10`.
pub open spec fn digit_char(d: nat) -> char {
    (d + 48) as char
}

/// The decimal representation of `n`, without leading zeros.
pub open spec fn decimal(n: nat) -> Seq<char>
    decreases n,
{
    if n < 10 {
        seq![digit_char(n)]
    } else {
        decimal(n / 10).push(digit_char(n % 10))
    }
}

/// The name of the fresh condition value for a terminator on line `t`.
pub open spec fn cond_name(t: usize) -> Seq<char> {
    "backedge_"@ + decimal(t as nat)
}

/// The conditional branch that replaces the terminator.
pub open spec fn cond_branch_line(indent: Seq<char>, cond: Seq<char>, p: Seq<char>, x: Seq<char>) -> Seq<
    char,
> {
    indent + "br i1 %"@ + cond + ", label %"@ + p + ", label %"@ + x
}

/// The line that defines the branch condition.
pub open spec fn freeze_line(indent: Seq<char>, cond: Seq<char>) -> Seq<char> {
    indent + "%"@ + cond + " = freeze i1 poison"@
}

/// The lines after adding the back-edge from block `b` to block `p`: the
/// PHI lines of `p` gain an arm for `b`, the terminator of `b` becomes a
/// conditional branch to `p` or to its old successor, and the freeze that
/// defines the condition is inserted just before it.
pub open spec fn with_back_edge(ls: Seq<Seq<char>>, b: BlockView, p: BlockView) -> Seq<
    Seq<char>,
> {
    let l1 = add_phi_arms(ls, p.phi_lines, b.label);
    let t = b.terminator_line as int;
    let indent = leading_ws(l1[t]);
    let cond = cond_name(b.terminator_line);
    l1.update(t, cond_branch_line(indent, cond, p.label, b.successors[0])).insert(
        t,
        freeze_line(indent, cond),
    )
}

/// Number of ways a back-edge can be added to the IR text.
pub open spec fn back_edge_count(text: Seq<char>) -> int {
    let bs = parsed_blocks(lines(text));
    if bs.len() < 2 {
        0
    } else {
        candidates(bs).len() as int
    }
}

/// The result of adding the back-edge of candidate `pick`: the new IR text,
/// the label of the branching block and the label of the new loop header.
pub open spec fn back_edge(text: Seq<char>, pick: int) -> Option<
    (Seq<char>, Seq<char>, Seq<char>),
> {
    let ls = lines(text);
    let bs = parsed_blocks(ls);
    if bs.len() < 2 {
        None
    } else {
        let cs = candidates(bs);
        if pick < 0 || pick >= cs.len() {
            None
        } else {
            let bi = cs[pick].0 as int;
            let p = cs[pick].1;
            match first_label_from(bs, p, 0) {
                None => None,
                Some(pi) => Some((join(with_back_edge(ls, bs[bi], bs[pi]), "\n"@), bs[bi].label, p)),
            }
        }
    }
}

pub open spec fn triple_view(t: (String, String, String)) -> (Seq<char>, Seq<char>, Seq<char>) {
    (t.0@, t.1@, t.2@)
}

pub open spec fn cand_view(c: (usize, String)) -> (usize, Seq<char>) {
    (c.0, c.1@)
}

proof fn lemma_preds_push(
    es: Seq<(Seq<char>, Seq<Seq<char>>)>,
    e: (Seq<char>, Seq<Seq<char>>),
    k: Seq<char>,
)
    ensures
        pred_lookup(es.push(e), k) == merged(pred_lookup(es, k), hits(e.1, k, e.0)),
{
    assert(es.push(e).drop_last() =~= es);
    let h = hits(e.1, k, e.0);
    if preds_of(es, k).len() == 0 {
        assert(preds_of(es, k) + h =~= Seq::<Seq<char>>::empty() + h);
        assert(Seq::<Seq<char>>::empty() + h =~= h);
    }
}

/// The predecessor map of the blocks.
fn pred_map_of(blocks: &Vec<Block>) -> (m: PredMap)
    ensures
        m.wf(),
        forall|k: Seq<char>|
            #![trigger m.lookup(k)]
            m.lookup(k) == pred_lookup(edges_of(blocks_view(blocks@)), k),
{
    let ghost es = edges_of(blocks_view(blocks@));
    let mut m = PredMap::new();
    let mut i: usize = 0;
    while i < blocks.len()
        invariant
            i <= blocks.len(),
            es == edges_of(blocks_view(blocks@)),
            m.wf(),
            forall|k: Seq<char>|
                #![trigger m.lookup(k)]
                m.lookup(k) == pred_lookup(es.take(i as int), k),
        decreases blocks.len() - i,
    {
        let ghost before = m;
        m.add_block(&blocks[i].label, &blocks[i].successors);
        proof {
            assert(es.take(i + 1) =~= es.take(i as int).push(es[i as int]));
            assert forall|k: Seq<char>| #![trigger m.lookup(k)] m.lookup(k) == pred_lookup(
                es.take(i + 1),
                k,
            ) by {
                lemma_preds_push(es.take(i as int), es[i as int], k);
            }
        }
        i += 1;
    }
    proof {
        assert(es.take(blocks.len() as int) =~= es);
    }
    m
}

/// The candidate (block index, predecessor label) pairs for a back-edge, as
/// described by `candidates`.
pub fn back_edge_candidates(blocks: &Vec<Block>) -> (cs: Vec<(usize, String)>)
    requires
        blocks@.len() > 0,
    ensures
        cs@.map_values(|c: (usize, String)| cand_view(c)) == candidates(blocks_view(blocks@)),
{
    let ghost bs = blocks_view(blocks@);
    let pm = pred_map_of(blocks);
    let entry = &blocks[0].label;
    let mut cs: Vec<(usize, String)> = Vec::new();
    let mut k: usize = 0;
    while k < blocks.len()
        invariant
            k <= blocks.len(),
            bs == blocks_view(blocks@),
            bs.len() > 0,
            entry@ == bs[0].label,
            pm.wf(),
            forall|key: Seq<char>|
                #![trigger pm.lookup(key)]
                pm.lookup(key) == pred_lookup(edges_of(bs), key),
            cs@.map_values(|c: (usize, String)| cand_view(c)) == candidates_upto(bs, k as int),
        decreases blocks.len() - k,
    {
        let b = &blocks[k];
        assert(b@ == bs[k as int]);
        let ghost before = cs@.map_values(|c: (usize, String)| cand_view(c));
        if b.terminator_line != usize::MAX && b.successors.len() == 1 {
            let label_chars = chars_of(b.label.as_str());
            match pm.get(&label_chars) {
                None => {
                    assert(keep_preds(preds_of(edges_of(bs), b.label@), entry@, b.label@)
                        =~= Seq::<Seq<char>>::empty());
                    assert(block_candidates(bs, k as int) =~= Seq::<(usize, Seq<char>)>::empty());
                    assert(cs@.map_values(|c: (usize, String)| cand_view(c)) =~= before
                        + block_candidates(bs, k as int));
                },
                Some(preds) => {
                    let ghost pv = preds@.map_values(|s: String| s@);
                    assert(pv == preds_of(edges_of(bs), b.label@));
                    let mut j: usize = 0;
                    while j < preds.len()
                        invariant
                            j <= preds.len(),
                            pv == preds@.map_values(|s: String| s@),
                            cs@.map_values(|c: (usize, String)| cand_view(c)) == before
                                + keep_preds(pv.take(j as int), entry@, b.label@).map_values(
                                |p: Seq<char>| (k, p),
                            ),
                        decreases preds.len() - j,
                    {
                        let p = &preds[j];
                        let ghost mid = cs@.map_values(|c: (usize, String)| cand_view(c));
                        assert(pv.take(j + 1).drop_last() =~= pv.take(j as int));
                        assert(pv.take(j + 1).last() == p@);
                        if !(*p == *entry) && !(*p == b.label) {
                            cs.push((k, p.clone()));
                            assert(cs@.map_values(|c: (usize, String)| cand_view(c)) =~= mid.push(
                                (k, p@),
                            ));
                            assert(keep_preds(pv.take(j + 1), entry@, b.label@).map_values(
                                |q: Seq<char>| (k, q),
                            ) =~= keep_preds(pv.take(j as int), entry@, b.label@).map_values(
                                |q: Seq<char>| (k, q),
                            ).push((k, p@)));
                        } else {
                            assert(keep_preds(pv.take(j + 1), entry@, b.label@) =~= keep_preds(
                                pv.take(j as int),
                                entry@,
                                b.label@,
                            ));
                        }
                        j += 1;
                    }
                    assert(pv.take(preds.len() as int) =~= pv);
                },
            }
        } else {
            assert(cs@.map_values(|c: (usize, String)| cand_view(c)) =~= before
                + block_candidates(bs, k as int));
        }
        k += 1;
    }
    cs
}

/// The thread-local random number generator of `rand`, carried opaquely.
#[verifier::external_type_specification]
#[verifier::external_body]
pub struct ExThreadRng(rand::rngs::ThreadRng);

/// `Rng::gen_range(0..n)` on the thread-local generator: a uniformly drawn
/// index below `n` (the range must not be empty).
#[verifier::external_body]
fn random_below(rng: &mut ThreadRng, n: usize) -> (r: usize)
    requires
        n > 0,
    ensures
        r < n,
{
    rng.gen_range(0..n)
}

/// Decimal digits of `n`.
pub fn decimal_exec(n: usize) -> (r: Vec<char>)
    ensures
        r@ == decimal(n as nat),
{
    let mut m = n;
    let mut acc: Vec<char> = Vec::new();
    while m >= 10
        invariant
            decimal(n as nat) == decimal(m as nat) + acc@,
        decreases m,
    {
        let d = ((m % 10) as u8 + 48u8) as char;
        assert(d == digit_char((m % 10) as nat));
        let ghost old_acc = acc@;
        acc.insert(0, d);
        assert(decimal(m as nat) == decimal((m / 10) as nat).push(d));
        assert(decimal((m / 10) as nat) + acc@ =~= decimal(m as nat) + old_acc);
        m = m / 10;
    }
    let d = (m as u8 + 48u8) as char;
    assert(d == digit_char(m as nat));
    let ghost old_acc = acc@;
    acc.insert(0, d);
    assert(acc@ =~= seq![d] + old_acc);
    acc
}

/// Extend `a` by the characters of a string literal.
fn push_str(a: &mut Vec<char>, s: &str)
    ensures
        final(a)@ == old(a)@ + s@,
{
    let v = chars_of(s);
    extend(a, &v);
}

/// Rewrite the lines for the back-edge from block `b` to block `p` (see
/// `with_back_edge`).
fn apply_back_edge(lines: &Vec<Vec<char>>, b: &Block, p: &Block) -> (r: Vec<Vec<char>>)
    requires
        b.terminator_line < lines@.len(),
        b.successors@.len() == 1,
        forall|m: int| 0 <= m < p.phi_lines@.len() ==> p.phi_lines@[m] < lines@.len(),
    ensures
        r@.map_values(|l: Vec<char>| l@) == with_back_edge(
            lines@.map_values(|l: Vec<char>| l@),
            b@,
            p@,
        ),
{
    let ghost ls = lines@.map_values(|l: Vec<char>| l@);
    let mut new_lines: Vec<Vec<char>> = Vec::new();
    let mut i: usize = 0;
    while i < lines.len()
        invariant
            i <= lines.len(),
            ls == lines@.map_values(|l: Vec<char>| l@),
            new_lines@.map_values(|l: Vec<char>| l@) == ls.take(i as int),
        decreases lines.len() - i,
    {
        let c = copy_line(&lines[i]);
        let ghost before = new_lines@.map_values(|l: Vec<char>| l@);
        new_lines.push(c);
        assert(new_lines@.map_values(|l: Vec<char>| l@) =~= before.push(c@));
        assert(ls.take(i + 1) =~= ls.take(i as int).push(ls[i as int]));
        i += 1;
    }
    assert(ls.take(lines.len() as int) =~= ls);
    let blabel = chars_of(b.label.as_str());
    let mut arm = chars_of(", [ undef, %");
    extend(&mut arm, &blabel);
    push_str(&mut arm, " ]");
    assert(arm@ == phi_arm(b.label@));
    let mut j: usize = 0;
    while j < p.phi_lines.len()
        invariant
            j <= p.phi_lines.len(),
            ls == lines@.map_values(|l: Vec<char>| l@),
            arm@ == phi_arm(b.label@),
            new_lines@.len() == ls.len(),
            forall|m: int| 0 <= m < p.phi_lines@.len() ==> p.phi_lines@[m] < ls.len(),
            new_lines@.map_values(|l: Vec<char>| l@) == add_phi_arms(
                ls,
                p.phi_lines@.take(j as int),
                b.label@,
            ),
        decreases p.phi_lines.len() - j,
    {
        let k = p.phi_lines[j];
        let ghost before = new_lines@.map_values(|l: Vec<char>| l@);
        let mut line = trim_end_chars(&new_lines[k]);
        extend(&mut line, &arm);
        new_lines.set(k, line);
        assert(p.phi_lines@.take(j + 1).drop_last() =~= p.phi_lines@.take(j as int));
        assert(new_lines@.map_values(|l: Vec<char>| l@) =~= before.update(
            k as int,
            trim_end(before[k as int]) + phi_arm(b.label@),
        ));
        j += 1;
    }
    assert(p.phi_lines@.take(p.phi_lines.len() as int) =~= p.phi_lines@);
    let ghost l1 = new_lines@.map_values(|l: Vec<char>| l@);
    let t = b.terminator_line;
    let w = skip_ws(&new_lines[t], 0);
    proof {
        lemma_ws_run_end_bounds(new_lines@[t as int]@, 0);
    }
    let indent = copy_range(&new_lines[t], 0, w);
    assert(indent@ == leading_ws(l1[t as int]));
    let mut cond = chars_of("backedge_");
    let digits = decimal_exec(t);
    extend(&mut cond, &digits);
    assert(cond@ == cond_name(t));
    let mut br = indent.clone();
    push_str(&mut br, "br i1 %");
    extend(&mut br, &cond);
    push_str(&mut br, ", label %");
    extend(&mut br, &chars_of(p.label.as_str()));
    push_str(&mut br, ", label %");
    extend(&mut br, &chars_of(b.successors[0].as_str()));
    assert(br@ == cond_branch_line(indent@, cond@, p.label@, b@.successors[0]));
    let mut fr = indent.clone();
    push_str(&mut fr, "%");
    extend(&mut fr, &cond);
    push_str(&mut fr, " = freeze i1 poison");
    assert(fr@ == freeze_line(indent@, cond@));
    let ghost fv = fr@;
    let ghost bv = br@;
    new_lines.set(t, br);
    new_lines.insert(t, fr);
    assert(new_lines@.map_values(|l: Vec<char>| l@) =~= l1.update(t as int, bv).insert(
        t as int,
        fv,
    ));
    new_lines
}

/// A copy of one line.
fn copy_line(l: &Vec<char>) -> (r: Vec<char>)
    ensures
        r@ == l@,
{
    let r = copy_range(l.as_slice(), 0, l.len());
    assert(r@ =~= l@);
    r
}

// ---------------------------------------------------------------------------
// Facts about candidates
// ---------------------------------------------------------------------------

proof fn lemma_hits_elems(succs: Seq<Seq<char>>, target: Seq<char>, label: Seq<char>, x: Seq<char>)
    requires
        hits(succs, target, label).contains(x),
    ensures
        x == label,
        succs.contains(target),
    decreases succs.len(),
{
    let prev = hits(succs.drop_last(), target, label);
    if prev.contains(x) {
        lemma_hits_elems(succs.drop_last(), target, label, x);
        let j = choose|j: int| 0 <= j < succs.drop_last().len() && succs.drop_last()[j] == target;
        assert(succs[j] == target);
    } else {
        let k = choose|k: int| 0 <= k < hits(succs, target, label).len() && hits(succs, target, label)[k] == x;
        assert(k >= prev.len());
        assert(succs[succs.len() - 1] == target);
    }
}

/// Every predecessor reported for `target` is the label of a block that
/// branches to `target`.
proof fn lemma_preds_elems(bs: Seq<BlockView>, target: Seq<char>, x: Seq<char>)
    requires
        preds_of(edges_of(bs), target).contains(x),
    ensures
        exists|i: int| 0 <= i < bs.len() && bs[i].label == x && bs[i].successors.contains(target),
    decreases bs.len(),
{
    let es = edges_of(bs);
    assert(es.drop_last() =~= edges_of(bs.drop_last()));
    let prev = preds_of(es.drop_last(), target);
    let h = hits(es.last().1, target, es.last().0);
    let k = choose|k: int| 0 <= k < preds_of(es, target).len() && preds_of(es, target)[k] == x;
    if k < prev.len() {
        assert(prev[k] == x);
        lemma_preds_elems(bs.drop_last(), target, x);
        let i = choose|i: int|
            0 <= i < bs.drop_last().len() && bs.drop_last()[i].label == x
                && bs.drop_last()[i].successors.contains(target);
        assert(bs[i] == bs.drop_last()[i]);
    } else {
        assert(h[k - prev.len()] == x);
        lemma_hits_elems(es.last().1, target, es.last().0, x);
        assert(bs[bs.len() - 1].label == x);
    }
}

proof fn lemma_keep_elems(ps: Seq<Seq<char>>, entry: Seq<char>, own: Seq<char>, x: Seq<char>)
    requires
        keep_preds(ps, entry, own).contains(x),
    ensures
        ps.contains(x),
        x != entry,
        x != own,
    decreases ps.len(),
{
    let prev = keep_preds(ps.drop_last(), entry, own);
    let k = choose|k: int| 0 <= k < keep_preds(ps, entry, own).len() && keep_preds(ps, entry, own)[k] == x;
    if k < prev.len() {
        assert(prev[k] == x);
        lemma_keep_elems(ps.drop_last(), entry, own, x);
        let j = choose|j: int| 0 <= j < ps.drop_last().len() && ps.drop_last()[j] == x;
        assert(ps[j] == x);
    } else {
        assert(ps[ps.len() - 1] == x);
    }
}

proof fn lemma_hits_has(succs: Seq<Seq<char>>, target: Seq<char>, label: Seq<char>)
    requires
        succs.contains(target),
    ensures
        hits(succs, target, label).contains(label),
    decreases succs.len(),
{
    let prev = hits(succs.drop_last(), target, label);
    if succs.last() == target {
        assert(hits(succs, target, label)[prev.len() as int] == label);
    } else {
        let j = choose|j: int| 0 <= j < succs.len() && succs[j] == target;
        assert(succs.drop_last()[j] == target);
        lemma_hits_has(succs.drop_last(), target, label);
        let m = choose|m: int| 0 <= m < prev.len() && prev[m] == label;
        assert(hits(succs, target, label)[m] == label);
    }
}

proof fn lemma_preds_has(bs: Seq<BlockView>, target: Seq<char>, q: int)
    requires
        0 <= q < bs.len(),
        bs[q].successors.contains(target),
    ensures
        preds_of(edges_of(bs), target).contains(bs[q].label),
    decreases bs.len(),
{
    let es = edges_of(bs);
    assert(es.drop_last() =~= edges_of(bs.drop_last()));
    let prev = preds_of(es.drop_last(), target);
    let all = preds_of(es, target);
    if q == bs.len() - 1 {
        lemma_hits_has(bs[q].successors, target, bs[q].label);
        let h = hits(es.last().1, target, es.last().0);
        let m = choose|m: int| 0 <= m < h.len() && h[m] == bs[q].label;
        assert(all[prev.len() + m] == bs[q].label);
    } else {
        assert(bs.drop_last()[q] == bs[q]);
        lemma_preds_has(bs.drop_last(), target, q);
        let m = choose|m: int| 0 <= m < prev.len() && prev[m] == bs[q].label;
        assert(all[m] == bs[q].label);
    }
}

proof fn lemma_keep_has(ps: Seq<Seq<char>>, entry: Seq<char>, own: Seq<char>, x: Seq<char>)
    requires
        ps.contains(x),
        x != entry,
        x != own,
    ensures
        keep_preds(ps, entry, own).contains(x),
    decreases ps.len(),
{
    let prev = keep_preds(ps.drop_last(), entry, own);
    let all = keep_preds(ps, entry, own);
    if ps.last() == x {
        assert(all[prev.len() as int] == x);
    } else {
        let j = choose|j: int| 0 <= j < ps.len() && ps[j] == x;
        assert(ps.drop_last()[j] == x);
        lemma_keep_has(ps.drop_last(), entry, own, x);
        let m = choose|m: int| 0 <= m < prev.len() && prev[m] == x;
        assert(all[m] == x);
    }
}

proof fn lemma_candidates_upto_has(bs: Seq<BlockView>, n: int, k: int, c: (usize, Seq<char>))
    requires
        0 <= k < n <= bs.len(),
        block_candidates(bs, k).contains(c),
    ensures
        candidates_upto(bs, n).contains(c),
    decreases n,
{
    let prev = candidates_upto(bs, n - 1);
    let all = candidates_upto(bs, n);
    if k == n - 1 {
        let m = choose|m: int|
            0 <= m < block_candidates(bs, k).len() && block_candidates(bs, k)[m] == c;
        assert(all[prev.len() + m] == c);
    } else {
        lemma_candidates_upto_has(bs, n - 1, k, c);
        let m = choose|m: int| 0 <= m < prev.len() && prev[m] == c;
        assert(all[m] == c);
    }
}

/// Law: the candidate list is complete.  Every block B whose terminator was
/// found and names exactly one successor, paired with every block P that
/// branches to B and is neither the entry block nor B, is a candidate.
pub proof fn lemma_candidates_complete(bs: Seq<BlockView>, k: int, q: int)
    requires
        0 <= k < bs.len(),
        0 <= q < bs.len(),
        bs.len() <= usize::MAX,
        bs[k].terminator_line != usize::MAX,
        bs[k].successors.len() == 1,
        bs[q].successors.contains(bs[k].label),
        bs[q].label != bs[0].label,
        bs[q].label != bs[k].label,
    ensures
        candidates(bs).contains((k as usize, bs[q].label)),
{
    lemma_preds_has(bs, bs[k].label, q);
    let kp = keep_preds(preds_of(edges_of(bs), bs[k].label), bs[0].label, bs[k].label);
    lemma_keep_has(preds_of(edges_of(bs), bs[k].label), bs[0].label, bs[k].label, bs[q].label);
    let m = choose|m: int| 0 <= m < kp.len() && kp[m] == bs[q].label;
    assert(block_candidates(bs, k)[m] == (k as usize, bs[q].label));
    lemma_candidates_upto_has(bs, bs.len() as int, k, (k as usize, bs[q].label));
}

/// Law: every such pair can be drawn.  For a block B of the IR whose
/// terminator names exactly one successor and a block P that branches to B
/// and is neither the entry block nor B, some candidate index below
/// `back_edge_count` gives the back-edge from B to P.
pub proof fn lemma_every_pair_drawable(text: Seq<char>, k: int, q: int)
    requires
        lines(text).len() <= usize::MAX,
        0 <= k < parsed_blocks(lines(text)).len(),
        0 <= q < parsed_blocks(lines(text)).len(),
        ({
            let bs = parsed_blocks(lines(text));
            &&& bs[k].terminator_line != usize::MAX
            &&& bs[k].successors.len() == 1
            &&& bs[q].successors.contains(bs[k].label)
            &&& bs[q].label != bs[0].label
            &&& bs[q].label != bs[k].label
        }),
    ensures
        exists|pick: int|
            0 <= pick < back_edge_count(text) && (#[trigger] back_edge(text, pick) matches Some(r)
                && r.1 == parsed_blocks(lines(text))[k].label && r.2 == parsed_blocks(
                lines(text),
            )[q].label),
{
    let ls = lines(text);
    let bs = parsed_blocks(ls);
    lemma_blocks_len(ls, ls.len() as int);
    assert(q != 0);
    lemma_candidates_complete(bs, k, q);
    let c = (k as usize, bs[q].label);
    let pick = choose|pick: int| 0 <= pick < candidates(bs).len() && candidates(bs)[pick] == c;
    lemma_back_edge_defined(text, pick);
}

/// What every back-edge candidate satisfies.
pub open spec fn candidate_ok(bs: Seq<BlockView>, c: (usize, Seq<char>)) -> bool {
    let b = bs[c.0 as int];
    &&& c.0 < bs.len()
    &&& b.terminator_line != usize::MAX
    &&& b.successors.len() == 1
    &&& c.1 != bs[0].label
    &&& c.1 != b.label
    &&& exists|i: int| 0 <= i < bs.len() && bs[i].label == c.1 && bs[i].successors.contains(b.label)
}

proof fn lemma_candidates_ok(bs: Seq<BlockView>, n: int, idx: int)
    requires
        0 <= n <= bs.len(),
        bs.len() <= usize::MAX,
        0 <= idx < candidates_upto(bs, n).len(),
    ensures
        candidate_ok(bs, candidates_upto(bs, n)[idx]),
    decreases n,
{
    let prev = candidates_upto(bs, n - 1);
    if idx < prev.len() {
        lemma_candidates_ok(bs, n - 1, idx);
    } else {
        let k = n - 1;
        let b = bs[k];
        let c = candidates_upto(bs, n)[idx];
        let bc = block_candidates(bs, k);
        assert(bc[idx - prev.len()] == c);
        let kp = keep_preds(preds_of(edges_of(bs), b.label), bs[0].label, b.label);
        assert(kp[idx - prev.len()] == c.1);
        assert(kp.contains(c.1));
        lemma_keep_elems(preds_of(edges_of(bs), b.label), bs[0].label, b.label, c.1);
        lemma_preds_elems(bs, b.label, c.1);
    }
}

pub(crate) proof fn lemma_first_label(bs: Seq<BlockView>, l: Seq<char>, i: int, w: int)
    requires
        0 <= i <= w < bs.len(),
        bs[w].label == l,
    ensures
        first_label_from(bs, l, i) matches Some(j) && i <= j < bs.len() && bs[j].label == l,
    decreases bs.len() - i,
{
    if bs[i].label != l {
        lemma_first_label(bs, l, i + 1, w);
    }
}

/// Law: a back-edge can be added for every candidate index below
/// `back_edge_count`; the branching block ends in a found terminator with a
/// single successor, and the new loop header is a direct predecessor of it
/// that is neither the entry block nor the block itself.
pub proof fn lemma_back_edge_defined(text: Seq<char>, pick: int)
    requires
        0 <= pick < back_edge_count(text),
        lines(text).len() <= usize::MAX,
    ensures
        back_edge(text, pick) is Some,
        ({
            let bs = parsed_blocks(lines(text));
            let c = candidates(bs)[pick];
            &&& back_edge(text, pick) matches Some(t) && t.1 == bs[c.0 as int].label && t.2 == c.1
            &&& candidate_ok(bs, c)
        }),
{
    let ls = lines(text);
    let bs = parsed_blocks(ls);
    lemma_blocks_len(ls, ls.len() as int);
    lemma_candidates_ok(bs, bs.len() as int, pick);
    let c = candidates(bs)[pick];
    let w = choose|i: int| 0 <= i < bs.len() && bs[i].label == c.1 && bs[i].successors.contains(bs[c.0 as int].label);
    lemma_first_label(bs, c.1, 0, w);
}

/// Each block's PHI line indices are strictly increasing.
pub open spec fn phis_increasing(bs: Seq<BlockView>) -> bool {
    forall|k: int, m1: int, m2: int|
        #![trigger bs[k].phi_lines[m1], bs[k].phi_lines[m2]]
        0 <= k < bs.len() && 0 <= m1 < m2 < bs[k].phi_lines.len() ==> bs[k].phi_lines[m1]
            < bs[k].phi_lines[m2]
}

/// What the parser recorded agrees with the lines: each PHI line holds a
/// PHI, and a found terminator line is a terminator naming the block's
/// successors.
pub open spec fn blocks_faithful(bs: Seq<BlockView>, ls: Seq<Seq<char>>) -> bool {
    forall|k: int|
        0 <= k < bs.len() ==> {
            &&& forall|m: int|
                0 <= m < (#[trigger] bs[k]).phi_lines.len() ==> contains(
                    trim(ls[bs[k].phi_lines[m] as int]),
                    "= phi "@,
                )
            &&& bs[k].terminator_line != usize::MAX ==> {
                &&& is_terminator_line(trim(ls[bs[k].terminator_line as int]))
                &&& bs[k].successors == branch_targets(trim(ls[bs[k].terminator_line as int]))
            }
        }
}

proof fn lemma_blocks_shape(lines: Seq<Seq<char>>, n: int)
    requires
        0 <= n <= lines.len(),
        lines.len() <= usize::MAX,
    ensures
        phis_increasing(blocks_upto(lines, n).1),
        blocks_faithful(blocks_upto(lines, n).1, lines),
    decreases n,
{
    if n > 0 {
        lemma_blocks_shape(lines, n - 1);
        lemma_blocks_indices(lines, n - 1);
        let st = blocks_upto(lines, n - 1);
        let prev = st.1;
        let cur = blocks_upto(lines, n).1;
        let line = lines[n - 1];
        let t = trim(line);
        let i = (n - 1) as usize;
        if st.0 == ParsePhase::Inside && t != seq!['}'] && block_header_of(line) is None && prev.len() > 0 && t.len() > 0
            && t[0] != ';' {
            let last = prev.len() - 1;
            let nb = instr_update(prev.last(), t, i);
            assert(cur == prev.update(last, nb));
            let pl = prev[last].phi_lines;
            assert(forall|m: int| 0 <= m < pl.len() ==> pl[m] < n - 1);
            assert forall|k: int, m1: int, m2: int|
                0 <= k < cur.len() && 0 <= m1 < m2 < cur[k].phi_lines.len() implies cur[k].phi_lines[m1]
                < cur[k].phi_lines[m2] by {
                if k != last {
                    assert(cur[k] == prev[k]);
                } else if m2 >= pl.len() {
                    assert(cur[k].phi_lines[m2] == i);
                    assert(cur[k].phi_lines[m1] == pl[m1]);
                } else {
                    assert(cur[k].phi_lines[m1] == pl[m1]);
                    assert(cur[k].phi_lines[m2] == pl[m2]);
                }
            }
            assert forall|k: int| 0 <= k < cur.len() implies {
                &&& forall|m: int|
                    0 <= m < (#[trigger] cur[k]).phi_lines.len() ==> contains(
                        trim(lines[cur[k].phi_lines[m] as int]),
                        "= phi "@,
                    )
                &&& cur[k].terminator_line != usize::MAX ==> {
                    &&& is_terminator_line(trim(lines[cur[k].terminator_line as int]))
                    &&& cur[k].successors == branch_targets(
                        trim(lines[cur[k].terminator_line as int]),
                    )
                }
            } by {
                if k != last {
                    assert(cur[k] == prev[k]);
                } else {
                    assert forall|m: int| 0 <= m < cur[k].phi_lines.len() implies contains(
                        trim(lines[cur[k].phi_lines[m] as int]),
                        "= phi "@,
                    ) by {
                        if m < pl.len() {
                            assert(cur[k].phi_lines[m] == pl[m]);
                        } else {
                            assert(cur[k].phi_lines[m] == i);
                        }
                    }
                }
            }
        } else {
            assert forall|k: int| 0 <= k < cur.len() && k < prev.len() implies cur[k] == prev[k] by {}
        }
    }
}

/// Line `j` is one of the listed indices.
pub open spec fn listed(idxs: Seq<usize>, j: int) -> bool {
    exists|m: int| 0 <= m < idxs.len() && idxs[m] == j
}

/// Line `j` of `ls` after the PHI arm for `b` is added to the listed lines.
pub open spec fn arm_edited(ls: Seq<Seq<char>>, idxs: Seq<usize>, b: Seq<char>, j: int) -> Seq<char> {
    if listed(idxs, j) {
        trim_end(ls[j]) + phi_arm(b)
    } else {
        ls[j]
    }
}

proof fn lemma_add_phi_arms(ls: Seq<Seq<char>>, idxs: Seq<usize>, b: Seq<char>)
    requires
        forall|m: int| 0 <= m < idxs.len() ==> idxs[m] < ls.len(),
        forall|m1: int, m2: int|
            #![trigger idxs[m1], idxs[m2]]
            0 <= m1 < m2 < idxs.len() ==> idxs[m1] < idxs[m2],
    ensures
        add_phi_arms(ls, idxs, b).len() == ls.len(),
        forall|j: int|
            0 <= j < ls.len() ==> #[trigger] add_phi_arms(ls, idxs, b)[j] == arm_edited(
                ls,
                idxs,
                b,
                j,
            ),
    decreases idxs.len(),
{
    if idxs.len() > 0 {
        let d = idxs.drop_last();
        lemma_add_phi_arms(ls, d, b);
        let prev = add_phi_arms(ls, d, b);
        let k = idxs.last() as int;
        assert forall|j: int| 0 <= j < ls.len() implies #[trigger] add_phi_arms(ls, idxs, b)[j]
            == arm_edited(ls, idxs, b, j) by {
            if j == k {
                assert(listed(idxs, j)) by {
                    assert(idxs[idxs.len() - 1] == j);
                }
                if listed(d, j) {
                    let m = choose|m: int| 0 <= m < d.len() && d[m] == j;
                    assert(idxs[m] < idxs[idxs.len() - 1]);
                }
            } else {
                if listed(idxs, j) {
                    let m = choose|m: int| 0 <= m < idxs.len() && idxs[m] == j;
                    assert(d[m] == j);
                }
                if listed(d, j) {
                    let m = choose|m: int| 0 <= m < d.len() && d[m] == j;
                    assert(idxs[m] == j);
                }
            }
        }
    }
}

/// `nl` is `ls` with the edits of a back-edge: each line listed in `phis`
/// gains the arm for `b`, the freeze of the fresh condition is inserted at
/// line `t`, and the terminator that stood there becomes a conditional
/// branch to `p` or `x`; every other line is unchanged.
pub open spec fn back_edge_edits(
    ls: Seq<Seq<char>>,
    nl: Seq<Seq<char>>,
    t: usize,
    phis: Seq<usize>,
    b: Seq<char>,
    p: Seq<char>,
    x: Seq<char>,
) -> bool {
    let indent = leading_ws(arm_edited(ls, phis, b, t as int));
    let cond = cond_name(t);
    &&& nl.len() == ls.len() + 1
    &&& forall|j: int| 0 <= j < t ==> nl[j] == #[trigger] arm_edited(ls, phis, b, j)
    &&& nl[t as int] == freeze_line(indent, cond)
    &&& nl[t + 1] == cond_branch_line(indent, cond, p, x)
    &&& forall|j: int| t < j < ls.len() ==> nl[j + 1] == #[trigger] arm_edited(ls, phis, b, j)
}

/// Law: adding the back-edge of a candidate changes only what the edge
/// needs.  The new text is the old lines with each PHI line of the header P
/// extended by the arm `[ undef, %B ]`, and with B's terminator, an
/// unconditional branch to X, replaced by the freeze of a fresh condition
/// and a conditional branch to P or X; all other lines are kept, in order.
pub proof fn lemma_back_edge_effect(text: Seq<char>, pick: int)
    requires
        0 <= pick < back_edge_count(text),
        lines(text).len() <= usize::MAX,
    ensures
        ({
            let ls = lines(text);
            let bs = parsed_blocks(ls);
            let c = candidates(bs)[pick];
            let b = bs[c.0 as int];
            &&& first_label_from(bs, c.1, 0) matches Some(pi)
            &&& bs[pi].label == c.1
            &&& forall|m: int|
                0 <= m < bs[pi].phi_lines.len() ==> contains(
                    trim(ls[#[trigger] bs[pi].phi_lines[m] as int]),
                    "= phi "@,
                )
            &&& b.terminator_line < ls.len()
            &&& is_terminator_line(trim(ls[b.terminator_line as int]))
            &&& branch_targets(trim(ls[b.terminator_line as int])) == seq![b.successors[0]]
            &&& back_edge(text, pick) matches Some(r)
            &&& exists|nl: Seq<Seq<char>>|
                r.0 == join(nl, "\n"@) && back_edge_edits(
                    ls,
                    nl,
                    b.terminator_line,
                    bs[pi].phi_lines,
                    b.label,
                    c.1,
                    b.successors[0],
                )
        }),
{
    let ls = lines(text);
    let bs = parsed_blocks(ls);
    lemma_back_edge_defined(text, pick);
    lemma_blocks_indices(ls, ls.len() as int);
    lemma_blocks_shape(ls, ls.len() as int);
    lemma_blocks_len(ls, ls.len() as int);
    let c = candidates(bs)[pick];
    let b = bs[c.0 as int];
    let pi = first_label_from(bs, c.1, 0)->0;
    let w = choose|i: int| 0 <= i < bs.len() && bs[i].label == c.1 && bs[i].successors.contains(b.label);
    lemma_first_label(bs, c.1, 0, w);
    let p = bs[pi];
    assert(b.successors =~= seq![b.successors[0]]);
    let phis = p.phi_lines;
    assert forall|m: int| 0 <= m < phis.len() implies phis[m] < ls.len() by {
        assert(0 <= pi < bs.len());
    }
    assert forall|m1: int, m2: int| 0 <= m1 < m2 < phis.len() implies phis[m1] < phis[m2] by {
        assert(0 <= pi < bs.len());
    }
    lemma_add_phi_arms(ls, phis, b.label);
    let l1 = add_phi_arms(ls, phis, b.label);
    let t = b.terminator_line;
    let indent = leading_ws(l1[t as int]);
    let cond = cond_name(t);
    let u = l1.update(t as int, cond_branch_line(indent, cond, p.label, b.successors[0]));
    let nl = u.insert(t as int, freeze_line(indent, cond));
    u.insert_ensures(t as int, freeze_line(indent, cond));
    assert(nl == with_back_edge(ls, b, p));
    assert(l1[t as int] == arm_edited(ls, phis, b.label, t as int));
    assert forall|j: int| 0 <= j < t implies nl[j] == #[trigger] arm_edited(ls, phis, b.label, j) by {
        assert(nl[j] == u[j]);
        assert(u[j] == l1[j]);
    }
    assert forall|j: int| t < j < ls.len() implies nl[j + 1] == #[trigger] arm_edited(
        ls,
        phis,
        b.label,
        j,
    ) by {
        assert(nl[j + 1] == u[j]);
        assert(u[j] == l1[j]);
    }
    assert(nl[t + 1] == u[t as int]);
    assert(back_edge_edits(ls, nl, t, phis, b.label, c.1, b.successors[0]));
}

/// The parser never finds more blocks than lines.
proof fn lemma_blocks_len(lines: Seq<Seq<char>>, n: int)
    requires
        0 <= n <= lines.len(),
    ensures
        blocks_upto(lines, n).1.len() <= n,
    decreases n,
{
    if n > 0 {
        lemma_blocks_len(lines, n - 1);
    }
}

fn finish_back_edge(
    lines: &Vec<Vec<char>>,
    blocks: &Vec<Block>,
    cs: &Vec<(usize, String)>,
    pick: usize,
) -> (r: Option<(String, String, String)>)
    requires
        blocks_view(blocks@) == parsed_blocks(lines@.map_values(|l: Vec<char>| l@)),
        blocks@.len() >= 2,
        cs@.map_values(|c: (usize, String)| cand_view(c)) == candidates(blocks_view(blocks@)),
    ensures
        ({
            let ls = lines@.map_values(|l: Vec<char>| l@);
            let bs = blocks_view(blocks@);
            let cv = candidates(bs);
            match r {
                Some(t) => {
                    &&& pick < cv.len()
                    &&& first_label_from(bs, cv[pick as int].1, 0) matches Some(pi)
                    &&& triple_view(t) == (
                        join(with_back_edge(ls, bs[cv[pick as int].0 as int], bs[pi]), "\n"@),
                        bs[cv[pick as int].0 as int].label,
                        cv[pick as int].1,
                    )
                },
                None => pick >= cv.len() || first_label_from(bs, cv[pick as int].1, 0) is None,
            }
        }),
{
    let ghost ls = lines@.map_values(|l: Vec<char>| l@);
    let ghost bs = blocks_view(blocks@);
    let ghost cv = candidates(bs);
    if pick >= cs.len() {
        return None;
    }
    assert(cv[pick as int] == cand_view(cs@[pick as int]));
    assert(ls.len() == lines.len());
    assert(bs.len() == blocks.len());
    proof {
        lemma_blocks_indices(ls, ls.len() as int);
        lemma_candidates_ok(bs, bs.len() as int, pick as int);
    }
    let bi = cs[pick].0;
    let p_label = &cs[pick].1;
    let mut pi: usize = 0;
    while pi < blocks.len()
        invariant
            pi <= blocks.len(),
            bs == blocks_view(blocks@),
            first_label_from(bs, p_label@, 0) == first_label_from(bs, p_label@, pi as int),
        ensures
            pi < blocks.len() ==> first_label_from(bs, p_label@, 0) == Some(pi as int),
            pi >= blocks.len() ==> first_label_from(bs, p_label@, 0) is None,
        decreases blocks.len() - pi,
    {
        assert(blocks@[pi as int]@ == bs[pi as int]);
        if blocks[pi].label == *p_label {
            break;
        }
        pi += 1;
    }
    if pi >= blocks.len() {
        return None;
    }
    let b = &blocks[bi];
    let p = &blocks[pi];
    assert(b@ == bs[bi as int]);
    assert(p@ == bs[pi as int]);
    assert(forall|m: int| 0 <= m < p.phi_lines@.len() ==> p.phi_lines@[m] == bs[pi as int].phi_lines[m]);
    let new_lines = apply_back_edge(lines, b, p);
    let nl = chars_of("\n");
    let joined = join_chars(&new_lines, &nl);
    Some((string_of(&joined), b.label.clone(), p_label.clone()))
}

/// Add the back-edge of candidate number `pick` (see `back_edge`); `None`
/// when the IR has fewer than two blocks or `pick` is not below the number
/// of candidates.
pub fn add_back_edge_with(ir: &str, pick: usize) -> (r: Option<(String, String, String)>)
    ensures
        match r {
            Some(t) => back_edge(ir@, pick as int) == Some(triple_view(t)),
            None => back_edge(ir@, pick as int) is None,
        },
{
    let text = chars_of(ir);
    let lines = split_lines(&text);
    let line_strs = strings_of(&lines);
    let blocks = parse_blocks(&line_strs);
    if blocks.len() < 2 {
        return None;
    }
    let cs = back_edge_candidates(&blocks);
    finish_back_edge(&lines, &blocks, &cs, pick)
}

/// Add a random back-edge B → P to create a CFG cycle (a loop).
///
/// B is a block whose terminator is an unconditional branch to some X and
/// P a direct predecessor of B other than the entry block and B itself.
/// B's terminator becomes `br i1 %backedge_N, label %P, label %X` after a
/// new `%backedge_N = freeze i1 poison`, and each PHI of P gains the arm
/// `[ undef, %B ]`.  Only the first function of the IR is read.  Returns
/// the new IR with the labels of B and P, or `None`, without drawing from
/// `rng`, when the IR offers no such pair.
pub fn add_back_edge(ir: &str, rng: &mut ThreadRng) -> (r: Option<(String, String, String)>)
    ensures
        r is None <==> back_edge_count(ir@) == 0,
        r is None ==> *final(rng) == *old(rng),
        r matches Some(t) ==> exists|k: int|
            0 <= k < back_edge_count(ir@) && back_edge(ir@, k) == Some(triple_view(t)),
{
    let text = chars_of(ir);
    let lines = split_lines(&text);
    let line_strs = strings_of(&lines);
    let blocks = parse_blocks(&line_strs);
    if blocks.len() < 2 {
        return None;
    }
    let cs = back_edge_candidates(&blocks);
    if cs.len() == 0 {
        return None;
    }
    let pick = random_below(rng, cs.len());
    let r = finish_back_edge(&lines, &blocks, &cs, pick);
    assert(lines@.map_values(|l: Vec<char>| l@).len() == lines.len());
    proof {
        lemma_back_edge_defined(ir@, pick as int);
    }
    r
}

// ---------------------------------------------------------------------------
// Comment stripping
// ---------------------------------------------------------------------------

/// A line with its comment (from the first `;` on) removed, and the
/// whitespace before the comment trimmed; lines without `;` are unchanged.
pub open spec fn strip_comment_line(l: Seq<char>) -> Seq<char> {
    let pos = char_pos_from(l, ';', 0);
    if pos < l.len() {
        trim_end(l.take(pos))
    } else {
        l
    }
}

/// The lines of the text with comments stripped, joined by `\n`.
pub open spec fn stripped(text: Seq<char>) -> Seq<char> {
    join(lines(text).map_values(|l: Seq<char>| strip_comment_line(l)), "\n"@)
}

fn strip_comment_line_exec(l: &Vec<char>) -> (r: Vec<char>)
    ensures
        r@ == strip_comment_line(l@),
{
    let pos = char_pos(l, ';', 0);
    proof {
        lemma_char_pos_bounds(l@, ';', 0);
    }
    if pos < l.len() {
        let head = copy_range(l, 0, pos);
        trim_end_chars(&head)
    } else {
        copy_line(l)
    }
}

/// Strip LLVM IR comments (`;` to end of line) so that cosmetic changes such
/// as reordered `; preds = ...` annotations do not count as differences.
pub fn strip_comments(ir: &str) -> (r: String)
    ensures
        r@ == stripped(ir@),
{
    let text = chars_of(ir);
    let ls = split_lines(&text);
    let ghost lv = ls@.map_values(|l: Vec<char>| l@);
    let mut out: Vec<Vec<char>> = Vec::new();
    let mut i: usize = 0;
    while i < ls.len()
        invariant
            i <= ls.len(),
            lv == ls@.map_values(|l: Vec<char>| l@),
            out@.map_values(|l: Vec<char>| l@) == lv.take(i as int).map_values(
                |l: Seq<char>| strip_comment_line(l),
            ),
        decreases ls.len() - i,
    {
        let c = strip_comment_line_exec(&ls[i]);
        let ghost before = out@.map_values(|l: Vec<char>| l@);
        out.push(c);
        assert(out@.map_values(|l: Vec<char>| l@) =~= before.push(c@));
        assert(lv.take(i + 1).map_values(|l: Seq<char>| strip_comment_line(l)) =~= lv.take(
            i as int,
        ).map_values(|l: Seq<char>| strip_comment_line(l)).push(strip_comment_line(lv[i as int])));
        i += 1;
    }
    assert(lv.take(ls.len() as int) =~= lv);
    let nl = chars_of("\n");
    let joined = join_chars(&out, &nl);
    string_of(&joined)
}

/// Whether loop fusion changed the IR beyond its comments.
pub fn fusion_fired(before: &str, after: &str) -> (b: bool)
    ensures
        b == (stripped(before@) != stripped(after@)),
{
    let a = strip_comments(before);
    let c = strip_comments(after);
    !(a == c)
}

proof fn lemma_join_no_char(parts: Seq<Seq<char>>, sep: Seq<char>, c: char)
    requires
        !sep.contains(c),
        forall|k: int| 0 <= k < parts.len() ==> !(#[trigger] parts[k]).contains(c),
    ensures
        !join(parts, sep).contains(c),
    decreases parts.len(),
{
    if parts.len() == 1 {
        assert(!parts[0].contains(c));
    } else if parts.len() > 1 {
        let init = parts.drop_last();
        assert forall|k: int| 0 <= k < init.len() implies !(#[trigger] init[k]).contains(c) by {
            assert(init[k] == parts[k]);
        }
        lemma_join_no_char(init, sep, c);
        let j = join(init, sep);
        let last = parts[parts.len() - 1];
        assert(!last.contains(c));
        assert forall|m: int| 0 <= m < (j + sep + last).len() implies (j + sep + last)[m] != c by {
            if m < j.len() {
                assert((j + sep + last)[m] == j[m]);
            } else if m < j.len() + sep.len() {
                assert((j + sep + last)[m] == sep[m - j.len()]);
            } else {
                assert((j + sep + last)[m] == last[m - j.len() - sep.len()]);
            }
        }
    }
}

/// Law: stripped text holds no `;`, so no comment survives.
pub proof fn lemma_stripped_has_no_comment(text: Seq<char>)
    ensures
        !stripped(text).contains(';'),
{
    let parts = lines(text).map_values(|l: Seq<char>| strip_comment_line(l));
    assert forall|k: int| 0 <= k < parts.len() implies !(#[trigger] parts[k]).contains(';') by {
        let l = lines(text)[k];
        assert(parts[k] == strip_comment_line(l));
        lemma_char_pos_bounds(l, ';', 0);
        let pos = char_pos_from(l, ';', 0);
        if pos < l.len() {
            let h = l.take(pos);
            lemma_ws_run_start_bounds(h, h.len() as int);
            let r = trim_end(h);
            assert forall|m: int| 0 <= m < r.len() implies r[m] != ';' by {
                assert(r[m] == l[m]);
            }
        } else {
            assert forall|m: int| 0 <= m < l.len() implies l[m] != ';' by {}
        }
    }
    reveal_strlit("\n");
    lemma_join_no_char(parts, "\n"@, ';');
}

/// The code part of a line: the text before its first `;`.
pub open spec fn code_part(l: Seq<char>) -> Seq<char> {
    l.take(char_pos_from(l, ';', 0))
}

/// Law: changes confined to comments do not count as a fusion.  When the
/// two texts have the same number of lines and each pair of lines is equal,
/// or both carry a comment and agree before it up to trailing whitespace,
/// the stripped texts are equal, so `fusion_fired` reports no change.
pub proof fn lemma_comment_changes_ignored(a: Seq<char>, b: Seq<char>)
    requires
        lines(a).len() == lines(b).len(),
        forall|i: int|
            0 <= i < lines(a).len() ==> {
                ||| #[trigger] lines(a)[i] == lines(b)[i]
                ||| {
                    &&& lines(a)[i].contains(';')
                    &&& lines(b)[i].contains(';')
                    &&& trim_end(code_part(lines(a)[i])) == trim_end(code_part(lines(b)[i]))
                }
            },
    ensures
        stripped(a) == stripped(b),
{
    let pa = lines(a).map_values(|l: Seq<char>| strip_comment_line(l));
    let pb = lines(b).map_values(|l: Seq<char>| strip_comment_line(l));
    assert forall|i: int| 0 <= i < pa.len() implies pa[i] == pb[i] by {
        let la = lines(a)[i];
        let lb = lines(b)[i];
        if la != lb {
            lemma_char_pos_bounds(la, ';', 0);
            lemma_char_pos_bounds(lb, ';', 0);
            let ka = choose|k: int| 0 <= k < la.len() && la[k] == ';';
            let kb = choose|k: int| 0 <= k < lb.len() && lb[k] == ';';
            assert(char_pos_from(la, ';', 0) <= ka);
            assert(char_pos_from(lb, ';', 0) <= kb);
        }
    }
    assert(pa =~= pb);
}

} // verus!
