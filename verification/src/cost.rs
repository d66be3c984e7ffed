//! Node costs for extracting loop terms.
//!
//! A `loop` node carries a base overhead of 100 so that extraction prefers
//! fewer loops (the fused form) over more; `fused-body` (3) is cheaper than
//! `seq` (5) to break ties in favour of the fused form; every other node
//! costs 1.  A node's cost is its base plus the costs of its children, with
//! saturating addition.

use vstd::prelude::*;

use crate::loop_ir::{LoopNode, NodeView};

verus! {

/// The base cost of a node, before its children are added.
pub open spec fn base_cost(n: NodeView) -> nat {
    match n {
        NodeView::Loop(_) => 100,
        NodeView::Sequence(_) => 5,
        NodeView::FusedBody(_) => 3,
        _ => 1,
    }
}

/// Sum of a sequence of costs.
pub open spec fn cost_sum(cs: Seq<usize>) -> int
    decreases cs.len(),
{
    if cs.len() == 0 {
        0
    } else {
        cost_sum(cs.drop_last()) + cs.last()
    }
}

/// The cost of a node with the given child costs, saturating at `usize::MAX`.
pub open spec fn node_cost(n: NodeView, child_costs: Seq<usize>) -> int {
    let c = base_cost(n) + cost_sum(child_costs);
    if c > usize::MAX {
        usize::MAX as int
    } else {
        c
    }
}

/// The cost of `enode` given the costs of its children, in child order.
pub fn raw_cost(enode: &LoopNode, child_costs: &[usize]) -> (c: usize)
    ensures
        c == node_cost(enode@, child_costs@),
{
    let base: usize = match enode {
        LoopNode::Loop(_) => 100,
        LoopNode::Sequence(_) => 5,
        LoopNode::FusedBody(_) => 3,
        _ => 1,
    };
    let mut acc = base;
    let mut i: usize = 0;
    while i < child_costs.len()
        invariant
            i <= child_costs.len(),
            base == base_cost(enode@),
            acc == node_cost(enode@, child_costs@.take(i as int)),
        decreases child_costs.len() - i,
    {
        assert(child_costs@.take(i + 1).drop_last() =~= child_costs@.take(i as int));
        proof {
            lemma_cost_sum_nonneg(child_costs@.take(i as int));
        }
        acc = acc.saturating_add(child_costs[i]);
        i += 1;
    }
    assert(child_costs@.take(child_costs.len() as int) =~= child_costs@);
    acc
}

proof fn lemma_cost_sum_nonneg(cs: Seq<usize>)
    ensures
        cost_sum(cs) >= 0,
    decreases cs.len(),
{
    if cs.len() > 0 {
        lemma_cost_sum_nonneg(cs.drop_last());
    }
}

/// Law: with the same children, a `fused-body` never costs more than a
/// `seq`, and costs strictly less unless the cost saturates.
pub proof fn lemma_fused_body_cheaper_than_seq(b1: usize, b2: usize, cs: Seq<usize>)
    ensures
        node_cost(NodeView::FusedBody(seq![b1, b2]), cs) <= node_cost(
            NodeView::Sequence(seq![b1, b2]),
            cs,
        ),
        node_cost(NodeView::Sequence(seq![b1, b2]), cs) < usize::MAX ==> node_cost(
            NodeView::FusedBody(seq![b1, b2]),
            cs,
        ) < node_cost(NodeView::Sequence(seq![b1, b2]), cs),
{
    lemma_cost_sum_nonneg(cs);
}

/// Law: rewriting two adjacent loops `(seq (loop h1 p1 l1 m s1 b1) (loop h2
/// m l2 x s2 b2))` into the fused `(loop h1 p1 l2 x s1 (fused-body b1 b2))`
/// lowers the cost, as long as no cost saturates.  The arguments are the
/// costs of the subterms.
pub proof fn lemma_fusion_lowers_cost(
    h1: usize,
    p1: usize,
    l1: usize,
    m: usize,
    s1: usize,
    b1: usize,
    h2: usize,
    l2: usize,
    x: usize,
    s2: usize,
    b2: usize,
)
    requires
        100 + h1 + p1 + l1 + m + s1 + b1 <= usize::MAX,
        100 + h2 + m + l2 + x + s2 + b2 <= usize::MAX,
        5 + (100 + h1 + p1 + l1 + m + s1 + b1) + (100 + h2 + m + l2 + x + s2 + b2) <= usize::MAX,
    ensures
        ({
            let loop1 = node_cost(NodeView::Loop(seq![0, 1, 2, 3, 4, 5]), seq![h1, p1, l1, m, s1, b1]);
            let loop2 = node_cost(NodeView::Loop(seq![0, 1, 2, 3, 4, 5]), seq![h2, m, l2, x, s2, b2]);
            let before = node_cost(
                NodeView::Sequence(seq![0, 1]),
                seq![loop1 as usize, loop2 as usize],
            );
            let fused_body = node_cost(NodeView::FusedBody(seq![0, 1]), seq![b1, b2]);
            let after = node_cost(
                NodeView::Loop(seq![0, 1, 2, 3, 4, 5]),
                seq![h1, p1, l2, x, s1, fused_body as usize],
            );
            after < before
        }),
{
    let six = seq![h1, p1, l1, m, s1, b1];
    assert(cost_sum(six) == h1 + p1 + l1 + m + s1 + b1) by {
        reveal_with_fuel(cost_sum, 7);
    }
    let six2 = seq![h2, m, l2, x, s2, b2];
    assert(cost_sum(six2) == h2 + m + l2 + x + s2 + b2) by {
        reveal_with_fuel(cost_sum, 7);
    }
    let loop1 = node_cost(NodeView::Loop(seq![0, 1, 2, 3, 4, 5]), six);
    let loop2 = node_cost(NodeView::Loop(seq![0, 1, 2, 3, 4, 5]), six2);
    assert(cost_sum(seq![loop1 as usize, loop2 as usize]) == loop1 + loop2) by {
        reveal_with_fuel(cost_sum, 3);
    }
    assert(cost_sum(seq![b1, b2]) == b1 + b2) by {
        reveal_with_fuel(cost_sum, 3);
    }
    let fused_body = node_cost(NodeView::FusedBody(seq![0, 1]), seq![b1, b2]);
    let six3 = seq![h1, p1, l2, x, s1, fused_body as usize];
    assert(cost_sum(six3) == h1 + p1 + l2 + x + s1 + fused_body) by {
        reveal_with_fuel(cost_sum, 7);
    }
}

} // verus!
