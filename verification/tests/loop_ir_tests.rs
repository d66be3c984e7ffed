use eqsat_loop_fuzz::cost::raw_cost;
use eqsat_loop_fuzz::loop_ir::{
    block_label, br_targets, build_loopir, collect_header_phis, ir_to_loopir,
    parse_ir_structure, parse_phi, phi_arms, val_id, LoopExpr, LoopNode, PhiInfo,
};

const LOOP: &str = "define void @f() {
entry:
  br label %header
header:                    ; preds = %entry, %latch
  %i = phi i32 [ 0, %entry ], [ %n, %latch ]
  %j = phi i64 [ 5, %entry ], [ 7, %latch ]
  br label %latch
latch:
  %n = add i32 %i, 1
  %c = icmp eq i32 %n, 10
  br i1 %c, label %header, label %exit
exit:
  ret void
}
";

fn lines_of(s: &str) -> Vec<String> {
    s.lines().map(|l| l.to_string()).collect()
}

fn pair(a: &str, b: &str) -> (String, String) {
    (a.to_string(), b.to_string())
}

#[test]
fn phi_arms_doc_example() {
    assert_eq!(
        phi_arms("i32 [ 0, %pre1 ], [ %i_next, %body1 ]"),
        Some(vec![pair("0", "pre1"), pair("i_next", "body1")])
    );
}

#[test]
fn phi_arms_malformed() {
    assert_eq!(phi_arms("i32 [ 0 %pre ]"), None);
    assert_eq!(phi_arms("i32"), None);
    assert_eq!(phi_arms("i32 [ a, b"), None);
    assert_eq!(phi_arms(""), None);
}

#[test]
fn parse_phi_reads_incoming_values() {
    let p = parse_phi("%i = phi i32 [ 0, %pre ], [ %n, %latch ]", "pre", "latch").unwrap();
    assert_eq!(p.var, "i");
    assert_eq!(p.init, "0");
    assert_eq!(p.step, "n");
}

#[test]
fn parse_phi_missing_arm_is_undef() {
    let p = parse_phi("%k = phi i32 [ 1, %other ]", "pre", "latch").unwrap();
    assert_eq!(p.var, "k");
    assert_eq!(p.init, "undef");
    assert_eq!(p.step, "undef");
    assert!(parse_phi("%k = add i32 1, 2", "pre", "latch").is_none());
    assert!(parse_phi("%k = phi i32", "pre", "latch").is_none());
}

#[test]
fn block_labels() {
    assert_eq!(block_label("BB:"), Some("BB".to_string()));
    assert_eq!(block_label("BB: ; preds = %x"), Some("BB".to_string()));
    assert_eq!(block_label("  BB:"), None);
    assert_eq!(block_label("\tBB:"), None);
    assert_eq!(block_label("x = add"), None);
    assert_eq!(block_label("BB: br"), None);
    assert_eq!(block_label("; c:"), None);
    assert_eq!(block_label(":"), Some(String::new()));
}

#[test]
fn br_targets_scan_whole_line() {
    assert_eq!(
        br_targets("br i1 %c, label %header, label %exit"),
        vec!["header".to_string(), "exit".to_string()]
    );
    assert!(br_targets("ret void").is_empty());
}

#[test]
fn ir_structure_and_predecessors() {
    let (blocks, preds) = parse_ir_structure(&lines_of(LOOP));
    let labels: Vec<&str> = blocks.iter().map(|b| b.label.as_str()).collect();
    assert_eq!(labels, vec!["entry", "header", "latch", "exit"]);
    assert_eq!(blocks[2].successors, vec!["header".to_string(), "exit".to_string()]);
    assert!(blocks[3].successors.is_empty());
    let header: Vec<char> = "header".chars().collect();
    assert_eq!(
        preds.get(&header),
        Some(&vec!["entry".to_string(), "latch".to_string()])
    );
    let entry: Vec<char> = "entry".chars().collect();
    assert_eq!(preds.get(&entry), None);
}

#[test]
fn header_phis_stop_at_first_instruction() {
    let phis = collect_header_phis(&lines_of(LOOP), "header", "entry", "latch");
    assert_eq!(phis.len(), 2);
    assert_eq!((phis[0].var.as_str(), phis[0].init.as_str(), phis[0].step.as_str()), ("i", "0", "n"));
    assert_eq!((phis[1].var.as_str(), phis[1].init.as_str(), phis[1].step.as_str()), ("j", "5", "7"));
    assert!(collect_header_phis(&lines_of(LOOP), "nothere", "entry", "latch").is_empty());
}

#[test]
fn value_leaves() {
    let mut e = LoopExpr::new();
    assert_eq!(val_id(&mut e, " %x "), 0);
    assert_eq!(val_id(&mut e, "-12"), 1);
    assert_eq!(val_id(&mut e, "+7"), 2);
    assert_eq!(val_id(&mut e, "undef"), 3);
    assert_eq!(val_id(&mut e, "99999999999999999999"), 4);
    assert_eq!(
        e.nodes,
        vec![
            LoopNode::Symbol("x".to_string()),
            LoopNode::Num(-12),
            LoopNode::Num(7),
            LoopNode::Symbol("undef".to_string()),
            LoopNode::Symbol("99999999999999999999".to_string()),
        ]
    );
}

#[test]
fn build_loop_without_phis() {
    let e = build_loopir("h", "p", "l", "x", &Vec::new());
    assert_eq!(
        e.nodes,
        vec![
            LoopNode::Symbol("h".to_string()),
            LoopNode::Symbol("p".to_string()),
            LoopNode::Symbol("l".to_string()),
            LoopNode::Symbol("x".to_string()),
            LoopNode::Phis(vec![]),
            LoopNode::Symbol("h".to_string()),
            LoopNode::Body(5),
            LoopNode::Loop([0, 1, 2, 3, 4, 6]),
        ]
    );
}

#[test]
fn build_loop_with_one_phi() {
    let phis = vec![PhiInfo { var: "i".to_string(), init: "0".to_string(), step: "%n".to_string() }];
    let e = build_loopir("h", "p", "l", "x", &phis);
    assert_eq!(e.nodes.len(), 14);
    assert_eq!(e.nodes[4], LoopNode::Symbol("i".to_string()));
    assert_eq!(e.nodes[5], LoopNode::Num(0));
    assert_eq!(e.nodes[6], LoopNode::Symbol("p".to_string()));
    assert_eq!(e.nodes[7], LoopNode::Symbol("n".to_string()));
    assert_eq!(e.nodes[8], LoopNode::Symbol("l".to_string()));
    assert_eq!(e.nodes[9], LoopNode::Phi([4, 5, 6, 7, 8]));
    assert_eq!(e.nodes[10], LoopNode::Phis(vec![9]));
    assert_eq!(e.nodes[13], LoopNode::Loop([0, 1, 2, 3, 10, 12]));
}

#[test]
fn loop_term_of_normalised_ir() {
    let e = ir_to_loopir(LOOP, "header", "latch").expect("loop");
    assert_eq!(e.nodes.len(), 20);
    assert_eq!(e.nodes[1], LoopNode::Symbol("entry".to_string()));
    assert_eq!(e.nodes[3], LoopNode::Symbol("exit".to_string()));
    assert_eq!(e.nodes[5], LoopNode::Num(0));
    assert_eq!(e.nodes[7], LoopNode::Symbol("n".to_string()));
    assert_eq!(e.nodes[13], LoopNode::Num(7));
    assert_eq!(e.nodes[16], LoopNode::Phis(vec![9, 15]));
    assert_eq!(e.nodes[18], LoopNode::Body(17));
    assert_eq!(e.nodes[19], LoopNode::Loop([0, 1, 2, 3, 16, 18]));
}

#[test]
fn loop_term_needs_preheader_and_exit() {
    assert!(ir_to_loopir(LOOP, "entry", "latch").is_none());
    assert!(ir_to_loopir(LOOP, "header", "nolatch").is_none());
    assert!(ir_to_loopir(LOOP, "header", "exit").is_none());
}

#[test]
fn node_costs() {
    assert_eq!(raw_cost(&LoopNode::Loop([0, 1, 2, 3, 4, 5]), &[1, 2, 3, 4, 5, 6]), 121);
    assert_eq!(raw_cost(&LoopNode::Sequence([0, 1]), &[10, 20]), 35);
    assert_eq!(raw_cost(&LoopNode::FusedBody([0, 1]), &[10, 20]), 33);
    assert_eq!(raw_cost(&LoopNode::Symbol("a".to_string()), &[]), 1);
    assert_eq!(raw_cost(&LoopNode::Body(0), &[4]), 5);
    assert_eq!(raw_cost(&LoopNode::FusedBody([0, 1]), &[usize::MAX, 5]), usize::MAX);
}

#[test]
fn fused_loop_is_cheaper_than_two_loops() {
    let leaf = 1usize;
    let body = raw_cost(&LoopNode::Body(0), &[leaf]);
    let loop_cost = raw_cost(&LoopNode::Loop([0, 1, 2, 3, 4, 5]), &[leaf, leaf, leaf, leaf, leaf, body]);
    let two = raw_cost(&LoopNode::Sequence([0, 1]), &[loop_cost, loop_cost]);
    let fb = raw_cost(&LoopNode::FusedBody([0, 1]), &[body, body]);
    let fused = raw_cost(&LoopNode::Loop([0, 1, 2, 3, 4, 5]), &[leaf, leaf, leaf, leaf, leaf, fb]);
    assert!(fused < two);
}
