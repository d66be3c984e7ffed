use eqsat_loop_fuzz::alive::{classify_alive_output, VerifyResult};
use eqsat_loop_fuzz::harness::{compare_outputs, parse_func_name, render_harness, ExecResult, BUF_SIZE};

#[test]
fn func_name_of_generated_ir() {
    let ir = "; ModuleID = 'x'\ndefine void @autogen_SD12345(ptr %0, ptr %1) {\nBB:\n  ret void\n}\n";
    assert_eq!(parse_func_name(ir), Some("autogen_SD12345".to_string()));
}

#[test]
fn func_name_first_matching_define() {
    assert_eq!(parse_func_name("declare void @g(i32)\ndefine i32 @h(i32 %x) {\n}"), Some("h".to_string()));
    assert_eq!(parse_func_name("define void f() {\ndefine void @k() {"), Some("k".to_string()));
}

#[test]
fn func_name_missing() {
    assert_eq!(parse_func_name("define void @f\ndefine void @g() {"), None);
    assert_eq!(parse_func_name("  define void @g() {"), None);
    assert_eq!(parse_func_name(""), None);
}

#[test]
fn harness_mentions_function_and_buffer_size() {
    let h = render_harness("autogen_SD7");
    assert!(h.contains("extern void autogen_SD7(void* p0"));
    assert!(h.contains("    autogen_SD7(buf0, buf1, buf2, 42, 100LL, 7);"));
    assert!(h.contains("static unsigned char buf0[4096];"));
    assert!(!h.contains("FUNC_NAME"));
    assert!(!h.contains("BUF_SIZE"));
    assert_eq!(h.matches("4096").count(), 6);
    assert_eq!(BUF_SIZE, 4096);
}

#[test]
fn outputs_compared() {
    assert!(matches!(compare_outputs("ab".to_string(), "ab".to_string()), ExecResult::Match));
    match compare_outputs("ab".to_string(), "ac".to_string()) {
        ExecResult::Mismatch { norm_out, fused_out } => {
            assert_eq!(norm_out, "ab");
            assert_eq!(fused_out, "ac");
        }
        other => panic!("unexpected {:?}", other),
    }
}

#[test]
fn alive_verified() {
    let out = "----\ndefine void @f() {\n}\nTransformation seems to be correct!\n\nSummary:\n";
    assert!(matches!(classify_alive_output(out), VerifyResult::Verified));
}

#[test]
fn alive_errors_win() {
    let out = "Transformation seems to be correct!\nERROR: Value mismatch\nfoo\nERROR: Source is more defined\n";
    match classify_alive_output(out) {
        VerifyResult::Rejected { reason } => {
            assert_eq!(reason, "ERROR: Value mismatch; ERROR: Source is more defined")
        }
        other => panic!("unexpected {:?}", other),
    }
}

#[test]
fn alive_nothing_verified() {
    match classify_alive_output("  nothing here \n") {
        VerifyResult::Rejected { reason } => assert_eq!(reason, "no functions verified; output: nothing here"),
        other => panic!("unexpected {:?}", other),
    }
}
