//! Conversion of a normalised LLVM IR loop into a loop-IR term for
//! equality saturation.
//!
//! A term is a flat list of nodes; each node names its children by their
//! index in the list, and children always come before their parent (the
//! last node is the root).  The operators mirror the s-expression language
//! `loop`, `phis`, `phi`, `seq`, `body`, `fused-body`, numbers and symbols.

use vstd::prelude::*;

use crate::pred_map::{pred_lookup, PredMap};
use crate::scan::{
    block_label_exec, block_label_of, label_refs, label_refs_exec, label_refs_from,
    lemma_label_refs_shape,
};
use crate::text::{
    all_label_chars, chars_eq, contains, contains_exec, lines, split_lines, starts_with, starts_with_exec,
    char_pos, char_pos_from, chars_of, copy_range, find, find_from_exec, lemma_char_pos_bounds,
    lemma_find_from_props, string_of, trim, trim_chars, trim_start_char, trim_start_char_exec,
};

verus! {

// ---------------------------------------------------------------------------
// Terms
// ---------------------------------------------------------------------------

/// One node of a loop-IR term.
#[derive(Debug, PartialEq, Eq)]
pub enum LoopNode {
    /// `(loop header preheader latch exit phis body)`
    Loop([usize; 6]),
    /// `(phis p1 .. pn)`
    Phis(Vec<usize>),
    /// `(phi var init init_pred step step_pred)`
    Phi([usize; 5]),
    /// `(seq first second)`
    Sequence([usize; 2]),
    /// `(body b)`
    Body(usize),
    /// `(fused-body b1 b2)`
    FusedBody([usize; 2]),
    /// A number leaf.
    Num(i64),
    /// A symbol leaf.
    Symbol(String),
}

/// The mathematical content of a `LoopNode`.
pub enum NodeView {
    Loop(Seq<usize>),
    Phis(Seq<usize>),
    Phi(Seq<usize>),
    Sequence(Seq<usize>),
    Body(usize),
    FusedBody(Seq<usize>),
    Num(i64),
    Symbol(Seq<char>),
}

impl View for LoopNode {
    type V = NodeView;

    open spec fn view(&self) -> NodeView {
        match self {
            LoopNode::Loop(c) => NodeView::Loop(c@),
            LoopNode::Phis(c) => NodeView::Phis(c@),
            LoopNode::Phi(c) => NodeView::Phi(c@),
            LoopNode::Sequence(c) => NodeView::Sequence(c@),
            LoopNode::Body(c) => NodeView::Body(*c),
            LoopNode::FusedBody(c) => NodeView::FusedBody(c@),
            LoopNode::Num(n) => NodeView::Num(*n),
            LoopNode::Symbol(s) => NodeView::Symbol(s@),
        }
    }
}

impl NodeView {
    /// The child indices of the node, in order.
    pub open spec fn children(self) -> Seq<usize> {
        match self {
            NodeView::Loop(c) => c,
            NodeView::Phis(c) => c,
            NodeView::Phi(c) => c,
            NodeView::Sequence(c) => c,
            NodeView::Body(c) => seq![c],
            NodeView::FusedBody(c) => c,
            NodeView::Num(_) => seq![],
            NodeView::Symbol(_) => seq![],
        }
    }
}

/// Every node refers only to nodes before it.
pub open spec fn children_before(nodes: Seq<NodeView>) -> bool {
    forall|k: int, m: int|
        0 <= k < nodes.len() && 0 <= m < (#[trigger] nodes[k]).children().len() ==> (
        #[trigger] nodes[k].children()[m]) < k
}

/// A loop-IR term: its nodes, children before parents, the root last.
#[derive(Debug)]
pub struct LoopExpr {
    pub nodes: Vec<LoopNode>,
}

impl LoopExpr {
    pub open spec fn nodes_view(&self) -> Seq<NodeView> {
        self.nodes@.map_values(|n: LoopNode| n@)
    }

    /// An empty term.
    pub fn new() -> (e: LoopExpr)
        ensures
            e.nodes_view() == Seq::<NodeView>::empty(),
    {
        let e = LoopExpr { nodes: Vec::new() };
        assert(e.nodes_view() =~= Seq::<NodeView>::empty());
        e
    }

    /// Append a node; its index is returned.
    pub fn add(&mut self, n: LoopNode) -> (id: usize)
        ensures
            final(self).nodes_view() == old(self).nodes_view().push(n@),
            id == old(self).nodes_view().len(),
    {
        let ghost before = self.nodes_view();
        let id = self.nodes.len();
        self.nodes.push(n);
        assert(self.nodes_view() =~= before.push(n@));
        id
    }
}

// ---------------------------------------------------------------------------
// Number leaves
// ---------------------------------------------------------------------------

/// Value of a non-empty string of decimal digits.
pub open spec fn digits_value(d: Seq<char>) -> int
    decreases d.len(),
{
    if d.len() == 0 {
        0
    } else {
        digits_value(d.drop_last()) * 10 + (d.last() as int - 48)
    }
}

/// What `i64`'s `FromStr` accepts: an optional `+` or `-`, then one or more
/// ASCII digits, with a value in range.
pub open spec fn parse_i64_spec(s: Seq<char>) -> Option<i64> {
    let signed = s.len() > 0 && (s[0] == '+' || s[0] == '-');
    let neg = s.len() > 0 && s[0] == '-';
    let d = if signed {
        s.drop_first()
    } else {
        s
    };
    let v = if neg {
        -digits_value(d)
    } else {
        digits_value(d)
    };
    if d.len() > 0 && (forall|k: int| 0 <= k < d.len() ==> '0' <= #[trigger] d[k] <= '9')
        && i64::MIN <= v <= i64::MAX {
        Some(v as i64)
    } else {
        None
    }
}

/// `str::parse::<i64>`: accepts an optional sign followed by decimal digits
/// whose value fits in an `i64`, and rejects everything else.
#[verifier::external_body]
fn parse_i64(s: &str) -> (r: Option<i64>)
    ensures
        r == parse_i64_spec(s@),
{
    s.parse::<i64>().ok()
}

/// The leaf for an operand: a `%name` becomes the symbol `name`, a decimal
/// number a number, anything else a symbol of its trimmed text.
pub open spec fn val_node(v: Seq<char>) -> NodeView {
    let t = trim(v);
    if t.len() > 0 && t[0] == '%' {
        NodeView::Symbol(trim_start_char(t, '%'))
    } else if parse_i64_spec(t) is Some {
        NodeView::Num(parse_i64_spec(t)->0)
    } else {
        NodeView::Symbol(t)
    }
}

/// Add the leaf for an operand value (see `val_node`).
pub fn val_id(expr: &mut LoopExpr, val: &str) -> (id: usize)
    ensures
        final(expr).nodes_view() == old(expr).nodes_view().push(val_node(val@)),
        id == old(expr).nodes_view().len(),
{
    let v = trim_chars(&chars_of(val));
    if v.len() > 0 && v[0] == '%' {
        let name = trim_start_char_exec(&v, '%');
        expr.add(LoopNode::Symbol(string_of(&name)))
    } else {
        let vs = string_of(&v);
        match parse_i64(vs.as_str()) {
            Some(n) => expr.add(LoopNode::Num(n)),
            None => expr.add(LoopNode::Symbol(vs)),
        }
    }
}

// ---------------------------------------------------------------------------
// PHI parsing
// ---------------------------------------------------------------------------

/// The `[ value, %pred ]` arms found from position `i` on; `None` when an
/// arm lacks its `]` or its `,`.
pub open spec fn arms_from(s: Seq<char>, i: int) -> Option<Seq<(Seq<char>, Seq<char>)>>
    decreases s.len() - i,
{
    if i < 0 || i >= s.len() {
        Some(seq![])
    } else if s[i] == '[' {
        let close = char_pos_from(s, ']', i + 1);
        if close >= s.len() || close < i + 1 {
            None
        } else {
            let inner = trim(s.subrange(i + 1, close));
            let comma = char_pos_from(inner, ',', 0);
            if comma >= inner.len() {
                None
            } else {
                let val = trim_start_char(trim(inner.take(comma)), '%');
                let pred = trim_start_char(trim(inner.skip(comma + 1)), '%');
                match arms_from(s, close + 1) {
                    None => None,
                    Some(rest) => Some(seq![(val, pred)] + rest),
                }
            }
        }
    } else {
        arms_from(s, i + 1)
    }
}

/// The `(value, pred)` pairs of the arms of a PHI (the text after its type),
/// with `%` prefixes removed; `None` if an arm is malformed or there is none.
pub open spec fn phi_arms_spec(s: Seq<char>) -> Option<Seq<(Seq<char>, Seq<char>)>> {
    match arms_from(s, 0) {
        Some(a) => if a.len() > 0 {
            Some(a)
        } else {
            None
        },
        None => None,
    }
}

pub open spec fn pair_view(p: (String, String)) -> (Seq<char>, Seq<char>) {
    (p.0@, p.1@)
}

/// Extract `(value, pred)` pairs from the part of a PHI line after the type.
///
/// Input `i32 [ 0, %pre1 ], [ %i_next, %body1 ]` gives
/// `[("0", "pre1"), ("i_next", "body1")]`.
pub fn phi_arms(s: &str) -> (r: Option<Vec<(String, String)>>)
    ensures
        match r {
            Some(v) => phi_arms_spec(s@) == Some(v@.map_values(|p: (String, String)| pair_view(p))),
            None => phi_arms_spec(s@) is None,
        },
{
    let v = chars_of(s);
    match arms_exec(&v) {
        None => None,
        Some(a) => {
            if a.len() == 0 {
                None
            } else {
                Some(a)
            }
        },
    }
}

fn arms_exec(s: &[char]) -> (r: Option<Vec<(String, String)>>)
    ensures
        match r {
            Some(v) => arms_from(s@, 0) == Some(v@.map_values(|p: (String, String)| pair_view(p))),
            None => arms_from(s@, 0) is None,
        },
{
    let mut arms: Vec<(String, String)> = Vec::new();
    let mut i: usize = 0;
    while i < s.len()
        invariant
            i <= s.len(),
            arms_from(s@, 0) == match arms_from(s@, i as int) {
                None => None,
                Some(rest) => Some(arms@.map_values(|p: (String, String)| pair_view(p)) + rest),
            },
        decreases s.len() - i,
    {
        if s[i] == '[' {
            let close = char_pos(s, ']', i + 1);
            proof {
                lemma_char_pos_bounds(s@, ']', i + 1);
            }
            if close >= s.len() {
                return None;
            }
            let raw = copy_range(s, i + 1, close);
            let inner = trim_chars(&raw);
            let comma = char_pos(&inner, ',', 0);
            proof {
                lemma_char_pos_bounds(inner@, ',', 0);
            }
            if comma >= inner.len() {
                return None;
            }
            let head = copy_range(&inner, 0, comma);
            let tail = copy_range(&inner, comma + 1, inner.len());
            assert(head@ =~= inner@.take(comma as int));
            assert(tail@ =~= inner@.skip(comma + 1));
            let val = trim_start_char_exec(&trim_chars(&head), '%');
            let pred = trim_start_char_exec(&trim_chars(&tail), '%');
            let ghost before = arms@.map_values(|p: (String, String)| pair_view(p));
            let pair = (string_of(&val), string_of(&pred));
            arms.push(pair);
            assert(arms@.map_values(|p: (String, String)| pair_view(p)) =~= before.push(
                (val@, pred@),
            ));
            proof {
                match arms_from(s@, close + 1) {
                    None => {},
                    Some(rest) => {
                        assert(before + (seq![(val@, pred@)] + rest) =~= before.push(
                            (val@, pred@),
                        ) + rest);
                    },
                }
            }
            i = close + 1;
        } else {
            i += 1;
        }
    }
    proof {
        match arms_from(s@, i as int) {
            None => {},
            Some(rest) => {
                assert(rest =~= Seq::<(Seq<char>, Seq<char>)>::empty());
                assert(arms@.map_values(|p: (String, String)| pair_view(p)) + rest =~= arms@.map_values(
                    |p: (String, String)| pair_view(p),
                ));
            },
        }
    }
    Some(arms)
}

/// The operands of one loop-header PHI.
#[derive(Debug)]
pub struct PhiInfo {
    /// The defined value, without `%`.
    pub var: String,
    /// The value incoming from the preheader.
    pub init: String,
    /// The value incoming from the latch.
    pub step: String,
}

pub struct PhiView {
    pub var: Seq<char>,
    pub init: Seq<char>,
    pub step: Seq<char>,
}

impl View for PhiInfo {
    type V = PhiView;

    open spec fn view(&self) -> PhiView {
        PhiView { var: self.var@, init: self.init@, step: self.step@ }
    }
}

/// The value of the first arm whose predecessor is `p`, from arm `i` on;
/// `undef` when there is none.
pub open spec fn arm_value_from(arms: Seq<(Seq<char>, Seq<char>)>, p: Seq<char>, i: int) -> Seq<
    char,
>
    decreases arms.len() - i,
{
    if i < 0 || i >= arms.len() {
        "undef"@
    } else if arms[i].1 == p {
        arms[i].0
    } else {
        arm_value_from(arms, p, i + 1)
    }
}

/// The PHI defined on a line: its variable (text before `= phi `, trimmed,
/// without `%`), and the values incoming from `pre` and `latch`.
pub open spec fn parse_phi_spec(line: Seq<char>, pre: Seq<char>, latch: Seq<char>) -> Option<
    PhiView,
> {
    match find(line, "= phi "@) {
        None => None,
        Some(off) => {
            let var = trim_start_char(trim(line.take(off)), '%');
            let rest = line.skip(off + 6);
            match phi_arms_spec(rest) {
                None => None,
                Some(arms) => Some(
                    PhiView {
                        var,
                        init: arm_value_from(arms, pre, 0),
                        step: arm_value_from(arms, latch, 0),
                    },
                ),
            }
        },
    }
}

/// `v` is the value of the first arm whose predecessor label is exactly
/// `p`, or `undef` when no arm has that label.
pub open spec fn first_value_is(arms: Seq<(Seq<char>, Seq<char>)>, p: Seq<char>, v: Seq<char>) -> bool {
    &&& forall|i: int|
        0 <= i < arms.len() && #[trigger] arms[i].1 == p && (forall|j: int|
            0 <= j < i ==> #[trigger] arms[j].1 != p) ==> v == arms[i].0
    &&& (forall|i: int| 0 <= i < arms.len() ==> #[trigger] arms[i].1 != p) ==> v == "undef"@
}

proof fn lemma_arm_value(arms: Seq<(Seq<char>, Seq<char>)>, p: Seq<char>, i0: int)
    requires
        0 <= i0 <= arms.len(),
    ensures
        forall|i: int|
            i0 <= i < arms.len() && #[trigger] arms[i].1 == p && (forall|j: int|
                i0 <= j < i ==> #[trigger] arms[j].1 != p) ==> arm_value_from(arms, p, i0)
                == arms[i].0,
        (forall|i: int| i0 <= i < arms.len() ==> #[trigger] arms[i].1 != p) ==> arm_value_from(
            arms,
            p,
            i0,
        ) == "undef"@,
    decreases arms.len() - i0,
{
    if i0 < arms.len() {
        lemma_arm_value(arms, p, i0 + 1);
        assert forall|i: int|
            i0 <= i < arms.len() && #[trigger] arms[i].1 == p && (forall|j: int|
                i0 <= j < i ==> #[trigger] arms[j].1 != p) implies arm_value_from(arms, p, i0)
            == arms[i].0 by {
            if i > i0 {
                assert(arms[i0].1 != p);
            }
        }
    }
}

/// Law: a PHI's variable is the trimmed text before its first `= phi `,
/// without `%`; its value from the preheader (its init) and from the latch
/// (its step) are each the value of the first arm whose predecessor label
/// equals that block's label exactly, or `undef` when no arm names it.  An
/// arm whose label only starts with the name is never chosen.
pub proof fn lemma_phi_values(line: Seq<char>, pre: Seq<char>, latch: Seq<char>)
    ensures
        parse_phi_spec(line, pre, latch) matches Some(ph) ==> ({
            let off = find(line, "= phi "@)->0;
            let arms = phi_arms_spec(line.skip(off + 6))->0;
            &&& ph.var == trim_start_char(trim(line.take(off)), '%')
            &&& first_value_is(arms, pre, ph.init)
            &&& first_value_is(arms, latch, ph.step)
        }),
{
    if parse_phi_spec(line, pre, latch) is Some {
        let arms = phi_arms_spec(line.skip(find(line, "= phi "@)->0 + 6))->0;
        lemma_arm_value(arms, pre, 0);
        lemma_arm_value(arms, latch, 0);
    }
}

/// The value of the first arm from predecessor `p`, or `undef`.
fn arm_value(arms: &Vec<(String, String)>, p: &str) -> (r: String)
    ensures
        r@ == arm_value_from(arms@.map_values(|a: (String, String)| pair_view(a)), p@, 0),
{
    let ghost av = arms@.map_values(|a: (String, String)| pair_view(a));
    let pv = chars_of(p);
    let mut i: usize = 0;
    while i < arms.len()
        invariant
            i <= arms.len(),
            pv@ == p@,
            av == arms@.map_values(|a: (String, String)| pair_view(a)),
            arm_value_from(av, p@, 0) == arm_value_from(av, p@, i as int),
        decreases arms.len() - i,
    {
        assert(av[i as int] == pair_view(arms@[i as int]));
        if crate::text::chars_eq(&chars_of(arms[i].1.as_str()), &pv) {
            return arms[i].0.clone();
        }
        i += 1;
    }
    let u = chars_of("undef");
    string_of(&u)
}

/// Parse one PHI line of a loop header (see `parse_phi_spec`).
pub fn parse_phi(line: &str, preheader: &str, latch: &str) -> (r: Option<PhiInfo>)
    ensures
        match r {
            Some(p) => parse_phi_spec(line@, preheader@, latch@) == Some(p@),
            None => parse_phi_spec(line@, preheader@, latch@) is None,
        },
{
    let v = chars_of(line);
    let marker = chars_of("= phi ");
    proof {
        reveal_strlit("= phi ");
    }
    let off = match find_from_exec(&v, &marker, 0) {
        None => {
            return None;
        },
        Some(off) => off,
    };
    proof {
        lemma_find_from_props(v@, marker@, 0);
    }
    let head = copy_range(&v, 0, off);
    assert(head@ =~= v@.take(off as int));
    let var = trim_start_char_exec(&trim_chars(&head), '%');
    let rest = copy_range(&v, off + 6, v.len());
    assert(rest@ =~= v@.skip(off + 6));
    let rest_s = string_of(&rest);
    let arms = match phi_arms(rest_s.as_str()) {
        None => {
            return None;
        },
        Some(a) => a,
    };
    let init = arm_value(&arms, preheader);
    let step = arm_value(&arms, latch);
    Some(PhiInfo { var: string_of(&var), init, step })
}

// ---------------------------------------------------------------------------
// Term construction
// ---------------------------------------------------------------------------

/// The nodes for the PHIs: per PHI, the symbols and values of
/// `(phi var init preheader step latch)` followed by the `phi` node.
pub open spec fn phi_nodes(phis: Seq<PhiView>, pre: Seq<char>, latch: Seq<char>) -> Seq<NodeView>
    decreases phis.len(),
{
    if phis.len() == 0 {
        seq![]
    } else {
        let prev = phi_nodes(phis.drop_last(), pre, latch);
        let b = 4 + prev.len();
        let p = phis.last();
        prev + seq![
            NodeView::Symbol(p.var),
            val_node(p.init),
            NodeView::Symbol(pre),
            val_node(p.step),
            NodeView::Symbol(latch),
            NodeView::Phi(
                seq![b as usize, (b + 1) as usize, (b + 2) as usize, (b + 3) as usize, (b + 4) as usize],
            ),
        ]
    }
}

/// Index of the `phi` node of PHI number `k`.
pub open spec fn phi_id(k: int) -> usize {
    (9 + 6 * k) as usize
}

/// The loop term: the four block symbols, the PHIs, the `phis` node, the
/// body `(body header)` and the root `loop` node.
pub open spec fn loop_nodes(
    header: Seq<char>,
    pre: Seq<char>,
    latch: Seq<char>,
    exit: Seq<char>,
    phis: Seq<PhiView>,
) -> Seq<NodeView> {
    let n6 = 4 + 6 * phis.len();
    seq![
        NodeView::Symbol(header),
        NodeView::Symbol(pre),
        NodeView::Symbol(latch),
        NodeView::Symbol(exit),
    ] + phi_nodes(phis, pre, latch) + seq![
        NodeView::Phis(Seq::new(phis.len(), |k: int| phi_id(k))),
        NodeView::Symbol(header),
        NodeView::Body((n6 + 1) as usize),
        NodeView::Loop(
            seq![0usize, 1usize, 2usize, 3usize, n6 as usize, (n6 + 2) as usize],
        ),
    ]
}

proof fn lemma_phi_nodes_len(phis: Seq<PhiView>, pre: Seq<char>, latch: Seq<char>)
    ensures
        phi_nodes(phis, pre, latch).len() == 6 * phis.len(),
    decreases phis.len(),
{
    if phis.len() > 0 {
        lemma_phi_nodes_len(phis.drop_last(), pre, latch);
    }
}

proof fn lemma_phi_nodes_children(phis: Seq<PhiView>, pre: Seq<char>, latch: Seq<char>)
    requires
        6 * phis.len() + 8 <= usize::MAX,
    ensures
        forall|k: int, m: int|
            0 <= k < phi_nodes(phis, pre, latch).len() && 0 <= m < (#[trigger] phi_nodes(
                phis,
                pre,
                latch,
            )[k]).children().len() ==> (#[trigger] phi_nodes(phis, pre, latch)[k].children()[m])
                < 4 + k,
    decreases phis.len(),
{
    lemma_phi_nodes_len(phis, pre, latch);
    if phis.len() > 0 {
        let prev = phi_nodes(phis.drop_last(), pre, latch);
        lemma_phi_nodes_children(phis.drop_last(), pre, latch);
        lemma_phi_nodes_len(phis.drop_last(), pre, latch);
        let all = phi_nodes(phis, pre, latch);
        let p = phis.last();
        assert(val_node(p.init).children().len() == 0);
        assert(val_node(p.step).children().len() == 0);
        assert forall|k: int, m: int|
            0 <= k < all.len() && 0 <= m < (#[trigger] all[k]).children().len() implies (
            #[trigger] all[k].children()[m]) < 4 + k by {
            if k < prev.len() {
                assert(all[k] == prev[k]);
            }
        }
    }
}

/// Law: the loop term is well formed: it has `6 * phis + 8` nodes, every
/// node refers only to earlier nodes, and the root (the last node) is the
/// `loop` node.
pub proof fn lemma_loop_nodes_well_formed(
    header: Seq<char>,
    pre: Seq<char>,
    latch: Seq<char>,
    exit: Seq<char>,
    phis: Seq<PhiView>,
)
    requires
        6 * phis.len() + 8 <= usize::MAX,
    ensures
        loop_nodes(header, pre, latch, exit, phis).len() == 6 * phis.len() + 8,
        children_before(loop_nodes(header, pre, latch, exit, phis)),
        loop_nodes(header, pre, latch, exit, phis).last() is Loop,
{
    let all = loop_nodes(header, pre, latch, exit, phis);
    let pn = phi_nodes(phis, pre, latch);
    lemma_phi_nodes_len(phis, pre, latch);
    lemma_phi_nodes_children(phis, pre, latch);
    let n6 = 4 + 6 * phis.len();
    assert forall|k: int, m: int|
        0 <= k < all.len() && 0 <= m < (#[trigger] all[k]).children().len() implies (
        #[trigger] all[k].children()[m]) < k by {
        if 4 <= k < n6 {
            assert(all[k] == pn[k - 4]);
        } else if k == n6 {
            let c = Seq::new(phis.len(), |j: int| phi_id(j));
            assert(all[k] == NodeView::Phis(c));
            assert(c[m] == phi_id(m));
        }
    }
}

pub open spec fn phis_view(phis: Seq<PhiInfo>) -> Seq<PhiView> {
    phis.map_values(|p: PhiInfo| p@)
}

/// Build the loop term for a loop with the given blocks and header PHIs.
///
/// The body is an opaque `(body header)` placeholder: the header label
/// identifies the loop, so two loops get distinct bodies.
pub fn build_loopir(
    header: &str,
    preheader: &str,
    latch: &str,
    exit: &str,
    phis: &Vec<PhiInfo>,
) -> (e: LoopExpr)
    requires
        6 * phis@.len() + 8 <= usize::MAX,
    ensures
        e.nodes_view() == loop_nodes(header@, preheader@, latch@, exit@, phis_view(phis@)),
{
    let ghost pv = phis_view(phis@);
    let mut expr = LoopExpr::new();
    let id_hdr = expr.add(LoopNode::Symbol(string_of(&chars_of(header))));
    let id_pre = expr.add(LoopNode::Symbol(string_of(&chars_of(preheader))));
    let id_lat = expr.add(LoopNode::Symbol(string_of(&chars_of(latch))));
    let id_exit = expr.add(LoopNode::Symbol(string_of(&chars_of(exit))));
    let ghost head4 = seq![
        NodeView::Symbol(header@),
        NodeView::Symbol(preheader@),
        NodeView::Symbol(latch@),
        NodeView::Symbol(exit@),
    ];
    assert(expr.nodes_view() =~= head4);
    let mut phi_ids: Vec<usize> = Vec::new();
    let mut k: usize = 0;
    while k < phis.len()
        invariant
            k <= phis.len(),
            6 * phis@.len() + 8 <= usize::MAX,
            pv == phis_view(phis@),
            head4 == seq![
                NodeView::Symbol(header@),
                NodeView::Symbol(preheader@),
                NodeView::Symbol(latch@),
                NodeView::Symbol(exit@),
            ],
            expr.nodes_view() == head4 + phi_nodes(pv.take(k as int), preheader@, latch@),
            phi_ids@ == Seq::new(k as nat, |j: int| phi_id(j)),
        decreases phis.len() - k,
    {
        proof {
            lemma_phi_nodes_len(pv.take(k as int), preheader@, latch@);
        }
        let phi = &phis[k];
        let ghost before = expr.nodes_view();
        assert(pv.take(k as int).len() == k);
        assert(head4.len() == 4);
        assert(phi_nodes(pv.take(k as int), preheader@, latch@).len() == 6 * k);
        assert(before.len() == 4 + 6 * k);
        let id_var = expr.add(LoopNode::Symbol(phi.var.clone()));
        let id_init = val_id(&mut expr, phi.init.as_str());
        let id_ipre = expr.add(LoopNode::Symbol(string_of(&chars_of(preheader))));
        let id_step = val_id(&mut expr, phi.step.as_str());
        let id_slat = expr.add(LoopNode::Symbol(string_of(&chars_of(latch))));
        let id_phi = expr.add(LoopNode::Phi([id_var, id_init, id_ipre, id_step, id_slat]));
        phi_ids.push(id_phi);
        proof {
            let t = pv.take(k + 1);
            assert(t.drop_last() =~= pv.take(k as int));
            assert(t.last() == phi@);
            assert(id_var == 4 + 6 * k);
            assert([id_var, id_init, id_ipre, id_step, id_slat]@ =~= seq![
                id_var,
                id_init,
                id_ipre,
                id_step,
                id_slat,
            ]);
            assert(expr.nodes_view() =~= head4 + phi_nodes(t, preheader@, latch@));
            assert(phi_ids@ =~= Seq::new((k + 1) as nat, |j: int| phi_id(j)));
        }
        k += 1;
    }
    assert(pv.take(phis.len() as int) =~= pv);
    proof {
        lemma_phi_nodes_len(pv, preheader@, latch@);
    }
    let id_phis = expr.add(LoopNode::Phis(phi_ids));
    let id_bsym = expr.add(LoopNode::Symbol(string_of(&chars_of(header))));
    let id_body = expr.add(LoopNode::Body(id_bsym));
    let root = [id_hdr, id_pre, id_lat, id_exit, id_phis, id_body];
    expr.add(LoopNode::Loop(root));
    assert(root@ =~= seq![0usize, 1usize, 2usize, 3usize, id_phis, id_body]);
    assert(expr.nodes_view() =~= loop_nodes(header@, preheader@, latch@, exit@, pv));
    expr
}

// ---------------------------------------------------------------------------
// IR structure
// ---------------------------------------------------------------------------

/// A block label together with the successors named by its `br`.
#[derive(Debug)]
pub struct SimpleBlock {
    pub label: String,
    pub successors: Vec<String>,
}

impl View for SimpleBlock {
    type V = (Seq<char>, Seq<Seq<char>>);

    open spec fn view(&self) -> (Seq<char>, Seq<Seq<char>>) {
        (self.label@, self.successors@.map_values(|s: String| s@))
    }
}

pub open spec fn simple_view(v: Seq<SimpleBlock>) -> Seq<(Seq<char>, Seq<Seq<char>>)> {
    v.map_values(|b: SimpleBlock| b@)
}

/// One step of the structure reader: inside a function, a label line opens
/// a block and a `br` line sets the successors of the latest block.
pub open spec fn structure_step(
    st: (bool, Seq<(Seq<char>, Seq<Seq<char>>)>),
    line: Seq<char>,
) -> (bool, Seq<(Seq<char>, Seq<Seq<char>>)>) {
    let t = trim(line);
    if !st.0 {
        (starts_with(t, "define "@), st.1)
    } else if t == seq!['}'] {
        (false, st.1)
    } else if block_label_of(line) is Some {
        (true, st.1.push((block_label_of(line)->0, seq![])))
    } else if starts_with(t, "br "@) && st.1.len() > 0 {
        (true, st.1.update(st.1.len() - 1, (st.1.last().0, label_refs(t))))
    } else {
        st
    }
}

pub open spec fn structure_upto(lines: Seq<Seq<char>>, n: int) -> (
    bool,
    Seq<(Seq<char>, Seq<Seq<char>>)>,
)
    decreases n,
{
    if n <= 0 {
        (false, seq![])
    } else {
        structure_step(structure_upto(lines, n - 1), lines[n - 1])
    }
}

/// The blocks (label and `br` successors) of the functions in `lines`.
pub open spec fn ir_structure(lines: Seq<Seq<char>>) -> Seq<(Seq<char>, Seq<Seq<char>>)> {
    structure_upto(lines, lines.len() as int).1
}

/// What every block read so far satisfies: it is named by a label line, and
/// its successors are empty or are the targets of one `br` line.
pub open spec fn structure_sourced(
    ls: Seq<Seq<char>>,
    bs: Seq<(Seq<char>, Seq<Seq<char>>)>,
) -> bool {
    forall|k: int|
        0 <= k < bs.len() ==> {
            &&& exists|h: int|
                0 <= h < ls.len() && block_label_of(ls[h]) == Some((#[trigger] bs[k]).0)
            &&& bs[k].1.len() == 0 || exists|i: int|
                0 <= i < ls.len() && starts_with(trim(ls[i]), "br "@) && bs[k].1 == label_refs(
                    trim(ls[i]),
                )
        }
}

proof fn lemma_structure_sourced_upto(ls: Seq<Seq<char>>, n: int)
    requires
        0 <= n <= ls.len(),
    ensures
        structure_sourced(ls, structure_upto(ls, n).1),
    decreases n,
{
    if n > 0 {
        lemma_structure_sourced_upto(ls, n - 1);
        let prev = structure_upto(ls, n - 1).1;
        let cur = structure_upto(ls, n).1;
        let line = ls[n - 1];
        assert forall|k: int| 0 <= k < cur.len() implies {
            &&& exists|h: int|
                0 <= h < ls.len() && block_label_of(ls[h]) == Some((#[trigger] cur[k]).0)
            &&& cur[k].1.len() == 0 || exists|i: int|
                0 <= i < ls.len() && starts_with(trim(ls[i]), "br "@) && cur[k].1 == label_refs(
                    trim(ls[i]),
                )
        } by {
            if k < prev.len() && cur[k] == prev[k] {
                assert(0 <= k < prev.len());
                let pk = prev[k];
                assert(exists|h: int|
                    0 <= h < ls.len() && block_label_of(ls[h]) == Some(pk.0));
            } else if k < prev.len() {
                let pk = prev[k];
                assert(exists|h: int|
                    0 <= h < ls.len() && block_label_of(ls[h]) == Some(pk.0));
                assert(cur[k].0 == pk.0);
                assert(cur[k].1 == label_refs(trim(line)));
                assert(starts_with(trim(ls[n - 1]), "br "@));
            } else {
                assert(block_label_of(ls[n - 1]) == Some(cur[k].0));
                assert(cur[k].1.len() == 0);
            }
        }
    }
}

/// Law: every block the structure reader finds is named by a label line of
/// the text, and its successors are either empty or exactly the targets that
/// one `br` line of the text names, each a non-empty run of label
/// characters.
pub proof fn lemma_structure_sources(ls: Seq<Seq<char>>)
    ensures
        structure_sourced(ls, ir_structure(ls)),
        forall|k: int, m: int|
            0 <= k < ir_structure(ls).len() && 0 <= m < ir_structure(ls)[k].1.len() ==> {
                &&& (#[trigger] ir_structure(ls)[k].1[m]).len() > 0
                &&& all_label_chars(ir_structure(ls)[k].1[m])
            },
{
    let bs = ir_structure(ls);
    lemma_structure_sourced_upto(ls, ls.len() as int);
    assert forall|k: int, m: int| 0 <= k < bs.len() && 0 <= m < bs[k].1.len() implies {
        &&& (#[trigger] bs[k].1[m]).len() > 0
        &&& all_label_chars(bs[k].1[m])
    } by {
        let i = choose|i: int|
            0 <= i < ls.len() && starts_with(trim(ls[i]), "br "@) && bs[k].1 == label_refs(
                trim(ls[i]),
            );
        let t = trim(ls[i]);
        lemma_label_refs_shape(t, 0);
        assert(bs[k].1[m] == label_refs_from(t, 0)[m]);
    }
}

/// Line `i` is read as a `br` of the latest block: it lies inside a
/// function, is neither its end nor a label line, and starts with `br `.
pub open spec fn br_read(ls: Seq<Seq<char>>, i: int) -> bool {
    let t = trim(ls[i]);
    &&& structure_upto(ls, i).0
    &&& t != seq!['}']
    &&& block_label_of(ls[i]) is None
    &&& starts_with(t, "br "@)
}

/// The last of the first `n` lines read as a `br` while block `k` was the
/// latest block.
pub open spec fn last_br(ls: Seq<Seq<char>>, k: int, n: int) -> Option<int>
    decreases n,
{
    if n <= 0 {
        None
    } else if br_read(ls, n - 1) && structure_upto(ls, n - 1).1.len() - 1 == k {
        Some(n - 1)
    } else {
        last_br(ls, k, n - 1)
    }
}

proof fn lemma_structure_grows(ls: Seq<Seq<char>>, i: int, j: int)
    requires
        0 <= i <= j <= ls.len(),
    ensures
        structure_upto(ls, i).1.len() <= structure_upto(ls, j).1.len(),
    decreases j - i,
{
    if i < j {
        lemma_structure_grows(ls, i, j - 1);
    }
}

proof fn lemma_last_br_bounds(ls: Seq<Seq<char>>, k: int, n: int)
    requires
        0 <= n <= ls.len(),
    ensures
        last_br(ls, k, n) matches Some(m) ==> 0 <= m < n && k == structure_upto(ls, m).1.len() - 1,
    decreases n,
{
    if n > 0 {
        lemma_last_br_bounds(ls, k, n - 1);
    }
}

proof fn lemma_structure_successors_upto(ls: Seq<Seq<char>>, n: int)
    requires
        0 <= n <= ls.len(),
    ensures
        forall|k: int|
            0 <= k < structure_upto(ls, n).1.len() ==> (#[trigger] structure_upto(ls, n).1[k]).1
                == match last_br(ls, k, n) {
                Some(m) => label_refs(trim(ls[m])),
                None => seq![],
            },
    decreases n,
{
    if n > 0 {
        lemma_structure_successors_upto(ls, n - 1);
        let o = structure_upto(ls, n - 1);
        let c = structure_upto(ls, n);
        assert forall|k: int| 0 <= k < c.1.len() implies (#[trigger] c.1[k]).1 == match last_br(
            ls,
            k,
            n,
        ) {
            Some(m) => label_refs(trim(ls[m])),
            None => seq![],
        } by {
            if k >= o.1.len() {
                lemma_last_br_bounds(ls, k, n - 1);
                if last_br(ls, k, n - 1) is Some {
                    let m = last_br(ls, k, n - 1)->0;
                    lemma_structure_grows(ls, m, n - 1);
                }
            } else if br_read(ls, n - 1) && o.1.len() - 1 == k {
            } else {
                assert(c.1[k] == o.1[k]);
            }
        }
    }
}

/// Law: each block's successors are the targets of the last `br` line read
/// while it was the latest block, or none when there was no such line.
pub proof fn lemma_structure_successors(ls: Seq<Seq<char>>)
    ensures
        forall|k: int|
            0 <= k < ir_structure(ls).len() ==> (#[trigger] ir_structure(ls)[k]).1 == match last_br(
                ls,
                k,
                ls.len() as int,
            ) {
                Some(m) => label_refs(trim(ls[m])),
                None => seq![],
            },
{
    lemma_structure_successors_upto(ls, ls.len() as int);
}

/// The label a line declares, if any (see `block_label_of`).
pub fn block_label(line: &str) -> (r: Option<String>)
    ensures
        match r {
            Some(l) => block_label_of(line@) == Some(l@),
            None => block_label_of(line@) is None,
        },
{
    match block_label_exec(&chars_of(line)) {
        Some(l) => Some(string_of(&l)),
        None => None,
    }
}

/// The labels named after each `label %` in a branch line.
pub fn br_targets(line: &str) -> (r: Vec<String>)
    ensures
        r@.map_values(|s: String| s@) == label_refs(line@),
{
    let refs = label_refs_exec(&chars_of(line));
    crate::cfg::strings_of(&refs)
}

proof fn lemma_lookup_push(
    es: Seq<(Seq<char>, Seq<Seq<char>>)>,
    e: (Seq<char>, Seq<Seq<char>>),
    k: Seq<char>,
)
    ensures
        pred_lookup(es.push(e), k) == crate::pred_map::merged(
            pred_lookup(es, k),
            crate::pred_map::hits(e.1, k, e.0),
        ),
{
    assert(es.push(e).drop_last() =~= es);
    let h = crate::pred_map::hits(e.1, k, e.0);
    if crate::pred_map::preds_of(es, k).len() == 0 {
        assert(crate::pred_map::preds_of(es, k) + h =~= h);
    }
}

/// Read the blocks of the functions in `lines` and the map from each branch
/// target to the blocks that branch to it.
pub fn parse_ir_structure(lines: &[String]) -> (r: (Vec<SimpleBlock>, PredMap))
    ensures
        simple_view(r.0@) == ir_structure(lines@.map_values(|l: String| l@)),
        r.1.wf(),
        forall|k: Seq<char>|
            #![trigger r.1.lookup(k)]
            r.1.lookup(k) == pred_lookup(ir_structure(lines@.map_values(|l: String| l@)), k),
{
    let ghost lv = lines@.map_values(|l: String| l@);
    let mut blocks: Vec<SimpleBlock> = Vec::new();
    let mut in_fn = false;
    let define = chars_of("define ");
    let br = chars_of("br ");
    let mut i: usize = 0;
    while i < lines.len()
        invariant
            i <= lines.len(),
            lv == lines@.map_values(|l: String| l@),
            define@ == "define "@,
            br@ == "br "@,
            (in_fn, simple_view(blocks@)) == structure_upto(lv, i as int),
        decreases lines.len() - i,
    {
        let line = chars_of(lines[i].as_str());
        assert(line@ == lv[i as int]);
        let tr = trim_chars(&line);
        let ghost prev = simple_view(blocks@);
        if !in_fn {
            if starts_with_exec(&tr, &define) {
                in_fn = true;
            }
        } else if chars_eq(&tr, &['}']) {
            assert(seq!['}'] =~= ['}']@);
            in_fn = false;
        } else {
            assert(seq!['}'] =~= ['}']@);
            match block_label_exec(&line) {
                Some(label) => {
                    let b = SimpleBlock { label: string_of(&label), successors: Vec::new() };
                    blocks.push(b);
                    assert(b@.1 =~= Seq::<Seq<char>>::empty());
                    assert(simple_view(blocks@) =~= prev.push(b@));
                },
                None => {
                    if starts_with_exec(&tr, &br) && blocks.len() > 0 {
                        let mut b = blocks.pop().unwrap();
                        assert(b@ == prev.last());
                        let refs = label_refs_exec(&tr);
                        b.successors = crate::cfg::strings_of(&refs);
                        blocks.push(b);
                        assert(simple_view(blocks@) =~= prev.update(
                            prev.len() - 1,
                            (prev.last().0, label_refs(tr@)),
                        ));
                    }
                },
            }
        }
        i += 1;
    }
    let ghost es = simple_view(blocks@);
    let mut pm = PredMap::new();
    let mut j: usize = 0;
    while j < blocks.len()
        invariant
            j <= blocks.len(),
            es == simple_view(blocks@),
            pm.wf(),
            forall|k: Seq<char>|
                #![trigger pm.lookup(k)]
                pm.lookup(k) == pred_lookup(es.take(j as int), k),
        decreases blocks.len() - j,
    {
        pm.add_block(&blocks[j].label, &blocks[j].successors);
        proof {
            assert(es.take(j + 1) =~= es.take(j as int).push(es[j as int]));
            assert forall|k: Seq<char>| #![trigger pm.lookup(k)] pm.lookup(k) == pred_lookup(
                es.take(j + 1),
                k,
            ) by {
                lemma_lookup_push(es.take(j as int), es[j as int], k);
            }
        }
        j += 1;
    }
    assert(es.take(blocks.len() as int) =~= es);
    (blocks, pm)
}

// ---------------------------------------------------------------------------
// Header PHIs
// ---------------------------------------------------------------------------

/// One step of the header-PHI collector.  The state is whether the current
/// block is the header, whether collection has stopped (at the header's
/// first non-PHI instruction), and the PHIs found.
pub open spec fn phi_step(
    st: (bool, bool, Seq<PhiView>),
    line: Seq<char>,
    header: Seq<char>,
    pre: Seq<char>,
    latch: Seq<char>,
) -> (bool, bool, Seq<PhiView>) {
    let t = trim(line);
    if st.1 {
        st
    } else if block_label_of(line) is Some {
        (block_label_of(line)->0 == header, false, st.2)
    } else if !st.0 {
        st
    } else if t.len() == 0 || t[0] == ';' {
        st
    } else if contains(t, "= phi "@) {
        match parse_phi_spec(t, pre, latch) {
            Some(p) => (true, false, st.2.push(p)),
            None => st,
        }
    } else {
        (true, true, st.2)
    }
}

pub open spec fn phis_upto(
    lines: Seq<Seq<char>>,
    n: int,
    header: Seq<char>,
    pre: Seq<char>,
    latch: Seq<char>,
) -> (bool, bool, Seq<PhiView>)
    decreases n,
{
    if n <= 0 {
        (false, false, seq![])
    } else {
        phi_step(phis_upto(lines, n - 1, header, pre, latch), lines[n - 1], header, pre, latch)
    }
}

/// The PHIs that lead the header block, read with `parse_phi_spec`.
pub open spec fn header_phis(
    lines: Seq<Seq<char>>,
    header: Seq<char>,
    pre: Seq<char>,
    latch: Seq<char>,
) -> Seq<PhiView> {
    phis_upto(lines, lines.len() as int, header, pre, latch).2
}

/// Number of lines of at least six characters.
pub open spec fn long_lines(q: Seq<Seq<char>>) -> nat
    decreases q.len(),
{
    if q.len() == 0 {
        0
    } else {
        long_lines(q.drop_last()) + if q.last().len() >= 6 {
            1nat
        } else {
            0nat
        }
    }
}

/// A line whose trimmed text holds `= phi ` has at least six characters.
proof fn lemma_phi_line_len(l: Seq<char>)
    requires
        contains(trim(l), "= phi "@),
    ensures
        l.len() >= 6,
{
    reveal_strlit("= phi ");
    lemma_find_from_props(trim(l), "= phi "@, 0);
    crate::text::lemma_ws_run_end_bounds(l, 0);
    let y = l.skip(crate::text::ws_run_end(l, 0));
    crate::text::lemma_ws_run_start_bounds(y, y.len() as int);
}

/// Each header PHI comes from its own line of at least six characters.
proof fn lemma_phis_len(
    lines: Seq<Seq<char>>,
    n: int,
    header: Seq<char>,
    pre: Seq<char>,
    latch: Seq<char>,
)
    requires
        0 <= n <= lines.len(),
    ensures
        phis_upto(lines, n, header, pre, latch).2.len() <= long_lines(lines.take(n)),
    decreases n,
{
    if n > 0 {
        lemma_phis_len(lines, n - 1, header, pre, latch);
        assert(lines.take(n).drop_last() =~= lines.take(n - 1));
        assert(lines.take(n).last() == lines[n - 1]);
        let t = trim(lines[n - 1]);
        if contains(t, "= phi "@) {
            lemma_phi_line_len(lines[n - 1]);
        }
    }
}

/// Collect the PHIs that lead the header block (see `header_phis`).
pub fn collect_header_phis(
    lines: &[String],
    header: &str,
    preheader: &str,
    latch: &str,
) -> (phis: Vec<PhiInfo>)
    ensures
        phis_view(phis@) == header_phis(
            lines@.map_values(|l: String| l@),
            header@,
            preheader@,
            latch@,
        ),
{
    let ghost lv = lines@.map_values(|l: String| l@);
    let hv = chars_of(header);
    let marker = chars_of("= phi ");
    let mut phis: Vec<PhiInfo> = Vec::new();
    let mut in_hdr = false;
    let mut i: usize = 0;
    while i < lines.len()
        invariant
            i <= lines.len(),
            lv == lines@.map_values(|l: String| l@),
            hv@ == header@,
            marker@ == "= phi "@,
            (in_hdr, false, phis_view(phis@)) == phis_upto(
                lv,
                i as int,
                header@,
                preheader@,
                latch@,
            ),
        ensures
            ({
                let st = phis_upto(lv, lines.len() as int, header@, preheader@, latch@);
                st.2 == phis_view(phis@)
            }),
        decreases lines.len() - i,
    {
        let line = chars_of(lines[i].as_str());
        assert(line@ == lv[i as int]);
        let ghost prev = phis_view(phis@);
        match block_label_exec(&line) {
            Some(lbl) => {
                in_hdr = chars_eq(&lbl, &hv);
            },
            None => {
                if in_hdr {
                    let t = trim_chars(&line);
                    if t.len() == 0 || t[0] == ';' {
                    } else if contains_exec(&t, &marker) {
                        let ts = string_of(&t);
                        match parse_phi(ts.as_str(), preheader, latch) {
                            Some(p) => {
                                phis.push(p);
                                assert(phis_view(phis@) =~= prev.push(p@));
                            },
                            None => {},
                        }
                    } else {
                        proof {
                            lemma_stopped(lv, i + 1, header@, preheader@, latch@);
                        }
                        break;
                    }
                }
            },
        }
        i += 1;
    }
    phis
}

/// Once collection has stopped, later lines change nothing.
proof fn lemma_stopped(
    lines: Seq<Seq<char>>,
    n: int,
    header: Seq<char>,
    pre: Seq<char>,
    latch: Seq<char>,
)
    requires
        1 <= n <= lines.len(),
        phis_upto(lines, n, header, pre, latch).1,
    ensures
        phis_upto(lines, lines.len() as int, header, pre, latch) == phis_upto(
            lines,
            n,
            header,
            pre,
            latch,
        ),
    decreases lines.len() - n,
{
    if n < lines.len() {
        assert(phis_upto(lines, n + 1, header, pre, latch) == phis_upto(
            lines,
            n,
            header,
            pre,
            latch,
        ));
        lemma_stopped(lines, n + 1, header, pre, latch);
    }
}

// ---------------------------------------------------------------------------
// Whole conversion
// ---------------------------------------------------------------------------

/// The first element of `s` that differs from `x`.
pub open spec fn first_other(s: Seq<Seq<char>>, x: Seq<char>, i: int) -> Option<Seq<char>>
    decreases s.len() - i,
{
    if i < 0 || i >= s.len() {
        None
    } else if s[i] != x {
        Some(s[i])
    } else {
        first_other(s, x, i + 1)
    }
}

/// Index of the first block labelled `l`.
pub open spec fn first_block(bs: Seq<(Seq<char>, Seq<Seq<char>>)>, l: Seq<char>, i: int) -> Option<
    int,
>
    decreases bs.len() - i,
{
    if i < 0 || i >= bs.len() {
        None
    } else if bs[i].0 == l {
        Some(i)
    } else {
        first_block(bs, l, i + 1)
    }
}

/// The loop term for the loop with the given header and latch: the
/// preheader is the first predecessor of the header other than the latch,
/// the exit the first successor of the latch other than the header.
pub open spec fn loop_of(ir: Seq<char>, header: Seq<char>, latch: Seq<char>) -> Option<
    Seq<NodeView>,
> {
    let ls = lines(ir);
    let st = ir_structure(ls);
    match pred_lookup(st, header) {
        None => None,
        Some(preds) => match first_other(preds, latch, 0) {
            None => None,
            Some(pre) => match first_block(st, latch, 0) {
                None => None,
                Some(li) => match first_other(st[li].1, header, 0) {
                    None => None,
                    Some(exit) => Some(
                        loop_nodes(header, pre, latch, exit, header_phis(ls, header, pre, latch)),
                    ),
                },
            },
        },
    }
}

/// The first string of `v` that differs from `x`.
fn first_other_exec(v: &Vec<String>, x: &str) -> (r: Option<String>)
    ensures
        match r {
            Some(s) => first_other(v@.map_values(|s: String| s@), x@, 0) == Some(s@),
            None => first_other(v@.map_values(|s: String| s@), x@, 0) is None,
        },
{
    let ghost sv = v@.map_values(|s: String| s@);
    let xv = chars_of(x);
    let mut i: usize = 0;
    while i < v.len()
        invariant
            i <= v.len(),
            xv@ == x@,
            sv == v@.map_values(|s: String| s@),
            first_other(sv, x@, 0) == first_other(sv, x@, i as int),
        decreases v.len() - i,
    {
        assert(sv[i as int] == v@[i as int]@);
        if !chars_eq(&chars_of(v[i].as_str()), &xv) {
            return Some(v[i].clone());
        }
        i += 1;
    }
    None
}

proof fn lemma_long_lines_front(a: Seq<char>, q: Seq<Seq<char>>)
    ensures
        long_lines(seq![a] + q) == long_lines(q) + if a.len() >= 6 {
            1nat
        } else {
            0nat
        },
    decreases q.len(),
{
    if q.len() > 0 {
        lemma_long_lines_front(a, q.drop_last());
        let aq = seq![a] + q;
        assert(aq.drop_last() =~= seq![a] + q.drop_last());
        assert(aq.last() == q.last());
        assert(long_lines(aq) == long_lines(aq.drop_last()) + if aq.last().len() >= 6 {
            1nat
        } else {
            0nat
        });
        assert(long_lines(q) == long_lines(q.drop_last()) + if q.last().len() >= 6 {
            1nat
        } else {
            0nat
        });
    } else {
        let aq = seq![a] + q;
        assert(aq =~= seq![a]);
        assert(aq.drop_last() =~= Seq::<Seq<char>>::empty());
        assert(aq.last() == a);
        assert(long_lines(aq.drop_last()) == 0);
        assert(long_lines(q) == 0);
    }
}

/// Every long line takes up seven characters of the text, its line break
/// included, but for the last one.
proof fn lemma_long_lines_bound(s: Seq<char>, i: int)
    requires
        0 <= i,
    ensures
        7 * long_lines(crate::text::lines_from(s, i)) <= if i <= s.len() {
            s.len() - i + 1
        } else {
            0
        },
    decreases s.len() + 1 - i,
{
    if i < s.len() {
        let e = char_pos_from(s, '\n', i);
        lemma_char_pos_bounds(s, '\n', i);
        lemma_long_lines_bound(s, e + 1);
        let raw = s.subrange(i, e);
        let line = if e < s.len() && raw.len() > 0 && raw.last() == '\r' {
            raw.drop_last()
        } else {
            raw
        };
        lemma_long_lines_front(line, crate::text::lines_from(s, e + 1));
    } else {
        assert(crate::text::lines_from(s, i) =~= Seq::<Seq<char>>::empty());
    }
}

/// Convert a normalised LLVM IR loop, identified by its header and latch,
/// into a loop term (see `loop_of`).
pub fn ir_to_loopir(ir: &str, header: &str, latch: &str) -> (r: Option<LoopExpr>)
    ensures
        match r {
            Some(e) => loop_of(ir@, header@, latch@) == Some(e.nodes_view()),
            None => loop_of(ir@, header@, latch@) is None,
        },
{
    let text = chars_of(ir);
    let ls = crate::cfg::strings_of(&split_lines(&text));
    let ghost lv = ls@.map_values(|l: String| l@);
    assert(lv == lines(ir@));
    let (blocks, pred_map) = parse_ir_structure(&ls);
    let ghost st = simple_view(blocks@);
    let preds = match pred_map.get(&chars_of(header)) {
        None => {
            return None;
        },
        Some(p) => p,
    };
    let preheader = match first_other_exec(preds, latch) {
        None => {
            return None;
        },
        Some(p) => p,
    };
    let lv_chars = chars_of(latch);
    let mut li: usize = 0;
    while li < blocks.len()
        invariant
            li <= blocks.len(),
            st == simple_view(blocks@),
            lv_chars@ == latch@,
            first_block(st, latch@, 0) == first_block(st, latch@, li as int),
        ensures
            li < blocks.len() ==> first_block(st, latch@, 0) == Some(li as int),
            li >= blocks.len() ==> first_block(st, latch@, 0) is None,
        decreases blocks.len() - li,
    {
        assert(st[li as int] == blocks@[li as int]@);
        if chars_eq(&chars_of(blocks[li].label.as_str()), &lv_chars) {
            break;
        }
        li += 1;
    }
    if li >= blocks.len() {
        return None;
    }
    assert(st[li as int] == blocks@[li as int]@);
    let exit = match first_other_exec(&blocks[li].successors, header) {
        None => {
            return None;
        },
        Some(x) => x,
    };
    let phis = collect_header_phis(&ls, header, preheader.as_str(), latch);
    proof {
        lemma_phis_len(lv, lv.len() as int, header@, preheader@, latch@);
        assert(lv.take(lv.len() as int) =~= lv);
        lemma_long_lines_bound(ir@, 0);
        assert(text@.len() <= usize::MAX);
    }
    Some(build_loopir(header, preheader.as_str(), latch, exit.as_str(), &phis))
}

} // verus!
