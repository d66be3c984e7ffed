use eqsat_loop_fuzz::cfg::{
    add_back_edge, add_back_edge_with, back_edge_candidates, fusion_fired, is_terminator,
    parse_blocks, parse_branch_targets, strip_comments,
};

const SAMPLE: &str = "; ModuleID = '/tmp/autogen.bc'
source_filename = \"/tmp/autogen.bc\"

define void @autogen_SD12345(ptr %0, ptr %1, ptr %2, i32 %3, i64 %4, i8 %5) {
BB:
  %A4 = alloca i32
  br label %CF

CF:                                               ; preds = %BB, %CF2
  %P = phi i32 [ 0, %BB ], [ %X, %CF2 ]
  %X = add i32 %P, 1
  br label %CF2

CF2:                                              ; preds = %CF
  %C = icmp eq i32 %X, 10
  br i1 %C, label %CF, label %CF3

CF3:                                              ; preds = %CF2
  br label %CF4

CF4:  ; preds = %CF3
  ret void
}
";

const CHAIN: &str = "define void @f() {
BB:
  br label %CF
CF:
  %P = phi i32 [ 0, %BB ]   
  br label %CF2
CF2:
\tbr label %CF3
CF3:
  ret void
}";

fn lines_of(s: &str) -> Vec<String> {
    s.lines().map(|l| l.to_string()).collect()
}

#[test]
fn branch_targets_of_conditional_branch() {
    assert_eq!(
        parse_branch_targets("  br i1 %c, label %a.b, label %x-1  "),
        vec!["a.b".to_string(), "x-1".to_string()]
    );
}

#[test]
fn branch_targets_of_unconditional_branch() {
    assert_eq!(parse_branch_targets("br label %BB"), vec!["BB".to_string()]);
}

#[test]
fn branch_targets_need_br_prefix() {
    assert!(parse_branch_targets("ret void").is_empty());
    assert!(parse_branch_targets("%x = add i32 1, 2 ; label %y").is_empty());
    assert!(parse_branch_targets("brx label %y").is_empty());
}

#[test]
fn branch_targets_skip_empty_names() {
    assert!(parse_branch_targets("br label %").is_empty());
    assert_eq!(
        parse_branch_targets("br i1 %c, label %, label %ok"),
        vec!["ok".to_string()]
    );
}

#[test]
fn terminators_are_recognised() {
    assert!(is_terminator("  ret void"));
    assert!(is_terminator("br label %x"));
    assert!(is_terminator("unreachable"));
    assert!(is_terminator("\tswitch i32 %x, label %d [ ]"));
    assert!(is_terminator("callbr void asm \"\", \"\"()"));
    assert!(is_terminator("indirectbr ptr %a, [label %b]"));
    assert!(is_terminator("invoke void @f() to label %a unwind label %b"));
    assert!(is_terminator("resume { ptr, i32 } %x"));
    assert!(!is_terminator("  %a = add i32 1, 2"));
    assert!(!is_terminator(""));
    assert!(!is_terminator("brx label %y"));
}

#[test]
fn blocks_of_sample() {
    let blocks = parse_blocks(&lines_of(SAMPLE));
    let labels: Vec<&str> = blocks.iter().map(|b| b.label.as_str()).collect();
    assert_eq!(labels, vec!["BB", "CF", "CF2", "CF3", "CF4"]);
    assert_eq!(blocks[1].phi_lines, vec![9]);
    assert_eq!(blocks[1].terminator_line, 11);
    assert_eq!(blocks[1].successors, vec!["CF2".to_string()]);
    assert_eq!(blocks[2].successors, vec!["CF".to_string(), "CF3".to_string()]);
    assert_eq!(blocks[4].terminator_line, 21);
    assert!(blocks[4].successors.is_empty());
    assert!(blocks[0].phi_lines.is_empty());
}

#[test]
fn blocks_outside_functions_are_ignored() {
    let text = "BB:\n  br label %x\ndefine void @g() {\nA:\n  ret void\n}\nC:\n  br label %A\n";
    let blocks = parse_blocks(&lines_of(text));
    assert_eq!(blocks.len(), 1);
    assert_eq!(blocks[0].label, "A");
    assert_eq!(blocks[0].terminator_line, 4);
}

#[test]
fn block_without_terminator_keeps_sentinel() {
    let text = "define void @g() {\nA:\n  %x = add i32 1, 2\n}\n";
    let blocks = parse_blocks(&lines_of(text));
    assert_eq!(blocks.len(), 1);
    assert_eq!(blocks[0].terminator_line, usize::MAX);
}

#[test]
fn labels_with_spaces_are_not_blocks() {
    let text = "define void @g() {\nA:\nB C:\n  ret void\n}\n";
    let blocks = parse_blocks(&lines_of(text));
    assert_eq!(blocks.len(), 1);
    assert_eq!(blocks[0].label, "A");
}

#[test]
fn candidates_of_sample() {
    let blocks = parse_blocks(&lines_of(SAMPLE));
    let cs = back_edge_candidates(&blocks);
    assert_eq!(cs, vec![(1, "CF2".to_string()), (3, "CF2".to_string())]);
}

#[test]
fn back_edge_at_first_candidate() {
    let (ir, b, p) = add_back_edge_with(SAMPLE, 0).expect("candidate");
    assert_eq!(b, "CF");
    assert_eq!(p, "CF2");
    let lines: Vec<&str> = ir.lines().collect();
    assert_eq!(lines.len(), 24);
    assert_eq!(lines[11], "  %backedge_11 = freeze i1 poison");
    assert_eq!(lines[12], "  br i1 %backedge_11, label %CF2, label %CF2");
    assert_eq!(lines[9], "  %P = phi i32 [ 0, %BB ], [ %X, %CF2 ]");
    assert!(!ir.ends_with('\n'));
}

#[test]
fn back_edge_at_second_candidate() {
    let (ir, b, p) = add_back_edge_with(SAMPLE, 1).expect("candidate");
    assert_eq!(b, "CF3");
    assert_eq!(p, "CF2");
    let lines: Vec<&str> = ir.lines().collect();
    assert_eq!(lines[18], "  %backedge_18 = freeze i1 poison");
    assert_eq!(lines[19], "  br i1 %backedge_18, label %CF2, label %CF4");
}

#[test]
fn back_edge_out_of_range_pick() {
    assert!(add_back_edge_with(SAMPLE, 2).is_none());
}

#[test]
fn back_edge_extends_phis_of_new_header() {
    let (ir, b, p) = add_back_edge_with(CHAIN, 0).expect("candidate");
    assert_eq!(b, "CF2");
    assert_eq!(p, "CF");
    let expected = "define void @f() {
BB:
  br label %CF
CF:
  %P = phi i32 [ 0, %BB ], [ undef, %CF2 ]
  br label %CF2
CF2:
\t%backedge_7 = freeze i1 poison
\tbr i1 %backedge_7, label %CF, label %CF3
CF3:
  ret void
}";
    assert_eq!(ir, expected);
}

#[test]
fn back_edge_needs_two_blocks() {
    let text = "define void @g() {\nA:\n  br label %A\n}\n";
    assert!(add_back_edge_with(text, 0).is_none());
    let mut rng = rand::thread_rng();
    assert!(add_back_edge(text, &mut rng).is_none());
}

#[test]
fn random_back_edge_is_a_candidate() {
    let mut rng = rand::thread_rng();
    for _ in 0..20 {
        let r = add_back_edge(SAMPLE, &mut rng).expect("candidate");
        let a = add_back_edge_with(SAMPLE, 0).unwrap();
        let c = add_back_edge_with(SAMPLE, 1).unwrap();
        assert!(r == a || r == c);
    }
}

#[test]
fn strip_comments_removes_comments() {
    assert_eq!(strip_comments("a ; c\nb\n;x"), "a\nb\n");
    assert_eq!(strip_comments("x  \r\ny ; z\r\n"), "x  \ny");
    assert_eq!(strip_comments(""), "");
}

#[test]
fn fusion_fired_ignores_comments() {
    assert!(!fusion_fired("a ; preds = %x, %y\nb", "a ; preds = %y, %x\nb"));
    assert!(fusion_fired("a\nb", "a\nc"));
}

#[test]
fn back_edge_keeps_all_other_lines() {
    let old: Vec<&str> = SAMPLE.lines().collect();
    let (ir, _, _) = add_back_edge_with(SAMPLE, 1).expect("candidate");
    let new: Vec<&str> = ir.lines().collect();
    assert_eq!(new.len(), old.len() + 1);
    for j in 0..18 {
        assert_eq!(new[j], old[j]);
    }
    for j in 19..old.len() {
        assert_eq!(new[j + 1], old[j]);
    }
    assert_eq!(
        parse_branch_targets(new[19]),
        vec!["CF2".to_string(), "CF4".to_string()]
    );
    assert!(is_terminator(new[19]));
}

#[test]
fn only_the_first_function_is_parsed() {
    let text = "define void @f() {\nA:\n  ret void\n}\ndefine void @g() {\nB:\n  ret void\n}\n";
    let blocks = parse_blocks(&lines_of(text));
    assert_eq!(blocks.len(), 1);
    assert_eq!(blocks[0].label, "A");
    assert_eq!(blocks[0].terminator_line, 2);
}

#[test]
fn back_edge_ignores_later_functions() {
    let text = "define void @f() {\nA:\n  ret void\n}\ndefine void @g() {\nB:\n  br label %C\nC:\n  br label %D\nD:\n  ret void\n}\n";
    assert!(add_back_edge_with(text, 0).is_none());
    let mut rng = rand::thread_rng();
    assert!(add_back_edge(text, &mut rng).is_none());
}

#[test]
fn reparsed_back_edge_keeps_blocks() {
    let old = parse_blocks(&lines_of(SAMPLE));
    let (ir, _, _) = add_back_edge_with(SAMPLE, 1).expect("candidate");
    let new = parse_blocks(&lines_of(&ir));
    assert_eq!(new.len(), old.len());
    for k in 0..old.len() {
        assert_eq!(new[k].label, old[k].label);
        if k == 3 {
            assert_eq!(new[k].successors, vec!["CF2".to_string(), "CF4".to_string()]);
        } else {
            assert_eq!(new[k].successors, old[k].successors);
            assert_eq!(new[k].phi_lines.len(), old[k].phi_lines.len());
        }
    }
}

#[test]
fn std_character_facts_hold() {
    assert!(eqsat_loop_fuzz::reparse::check_std_char_facts());
}
