//! Differential execution of the IR before and after loop fusion: the
//! generated function's name, the C harness that calls it, and the verdict
//! from the two programs' outputs.

use vstd::prelude::*;

use crate::cfg::{decimal, decimal_exec};
use crate::text::{
    char_pos, char_pos_from, chars_of, copy_range, lemma_char_pos_bounds, lines, replace_all,
    replace_all_exec, split_lines, starts_with, starts_with_exec, string_of,
};

verus! {

/// Size of each of the three buffers the harness passes to the function.
pub const BUF_SIZE: usize = 4096;

/// How long each compiled program may run, in milliseconds.
pub const EXEC_TIMEOUT_MS: u64 = 100;

/// The C harness.  Generated functions always have the signature
/// `void @autogen_SD<seed>(ptr, ptr, ptr, i32, i64, i8)`, so only the
/// function name (and the buffer size) vary.
pub const HARNESS_TEMPLATE: &'static str = "
#include <stdio.h>
#include <string.h>
#include <stdint.h>

extern void FUNC_NAME(void* p0, void* p1, void* p2,
                      int32_t a3, int64_t a4, int8_t a5);

static unsigned char buf0[BUF_SIZE];
static unsigned char buf1[BUF_SIZE];
static unsigned char buf2[BUF_SIZE];

int main(void) {
    memset(buf0, 0xAA, sizeof(buf0));
    memset(buf1, 0xBB, sizeof(buf1));
    memset(buf2, 0xCC, sizeof(buf2));
    FUNC_NAME(buf0, buf1, buf2, 42, 100LL, 7);
    for (int i = 0; i < BUF_SIZE; i++) printf(\"%02x\", buf0[i]);
    for (int i = 0; i < BUF_SIZE; i++) printf(\"%02x\", buf1[i]);
    for (int i = 0; i < BUF_SIZE; i++) printf(\"%02x\", buf2[i]);
    printf(\"\\n\");
    return 0;
}
";

/// The first line at or after `i` that starts with `define ` and holds `@`.
pub open spec fn first_define_from(ls: Seq<Seq<char>>, i: int) -> Option<Seq<char>>
    decreases ls.len() - i,
{
    if i < 0 || i >= ls.len() {
        None
    } else if starts_with(ls[i], "define "@) && ls[i].contains('@') {
        Some(ls[i])
    } else {
        first_define_from(ls, i + 1)
    }
}

/// The name of the first function defined in the IR: the text between the
/// `@` and the next `(` of the first `define` line with an `@`; nothing when
/// that line has no `(` after the `@`.
pub open spec fn func_name_of(ir: Seq<char>) -> Option<Seq<char>> {
    match first_define_from(lines(ir), 0) {
        None => None,
        Some(l) => {
            let rest = l.skip(char_pos_from(l, '@', 0) + 1);
            let len = char_pos_from(rest, '(', 0);
            if len < rest.len() {
                Some(rest.take(len))
            } else {
                None
            }
        },
    }
}

fn has_char(v: &[char], c: char) -> (b: bool)
    ensures
        b == v@.contains(c),
{
    let k = char_pos(v, c, 0);
    proof {
        lemma_char_pos_bounds(v@, c, 0);
    }
    if k < v.len() {
        assert(v@[k as int] == c);
    }
    k < v.len()
}

/// Parse the generated function's name from an LLVM IR string.
pub fn parse_func_name(ir: &str) -> (r: Option<String>)
    ensures
        match r {
            Some(n) => func_name_of(ir@) == Some(n@),
            None => func_name_of(ir@) is None,
        },
{
    let text = chars_of(ir);
    let ls = split_lines(&text);
    let ghost lv = ls@.map_values(|l: Vec<char>| l@);
    assert(lv == lines(ir@));
    let define = chars_of("define ");
    let mut i: usize = 0;
    while i < ls.len()
        invariant
            i <= ls.len(),
            lv == ls@.map_values(|l: Vec<char>| l@),
            lv == lines(ir@),
            define@ == "define "@,
            first_define_from(lv, 0) == first_define_from(lv, i as int),
        decreases ls.len() - i,
    {
        let l = &ls[i];
        assert(l@ == lv[i as int]);
        if starts_with_exec(l, &define) && has_char(l, '@') {
            let at = char_pos(l, '@', 0);
            proof {
                lemma_char_pos_bounds(l@, '@', 0);
            }
            let rest = copy_range(l, at + 1, l.len());
            assert(rest@ =~= l@.skip(at + 1));
            let len = char_pos(&rest, '(', 0);
            proof {
                lemma_char_pos_bounds(rest@, '(', 0);
            }
            if len < rest.len() {
                let name = copy_range(&rest, 0, len);
                return Some(string_of(&name));
            } else {
                return None;
            }
        }
        i += 1;
    }
    None
}

/// The harness source for the function `name`.
pub open spec fn harness_text(name: Seq<char>) -> Seq<char> {
    replace_all(replace_all(HARNESS_TEMPLATE@, "FUNC_NAME"@, name), "BUF_SIZE"@, decimal(4096))
}

/// The C harness that calls the function `func_name` and prints its buffers.
pub fn render_harness(func_name: &str) -> (h: String)
    ensures
        h@ == harness_text(func_name@),
{
    let template = chars_of(HARNESS_TEMPLATE);
    let fname = chars_of("FUNC_NAME");
    let bsize = chars_of("BUF_SIZE");
    proof {
        reveal_strlit("FUNC_NAME");
        reveal_strlit("BUF_SIZE");
    }
    let step = replace_all_exec(&template, &fname, &chars_of(func_name));
    let size = decimal_exec(BUF_SIZE);
    let out = replace_all_exec(&step, &bsize, &size);
    string_of(&out)
}

/// Outcome of a differential execution.
#[derive(Debug)]
pub enum ExecResult {
    /// Both binaries produced identical output: no bug.
    Match,
    /// The outputs differ: a potential miscompilation.
    Mismatch { norm_out: String, fused_out: String },
    /// Compiling or running failed.
    Error(String),
}

/// The verdict on the outputs of the program before and after fusion.
pub fn compare_outputs(norm_out: String, fused_out: String) -> (r: ExecResult)
    ensures
        match r {
            ExecResult::Match => norm_out@ == fused_out@,
            ExecResult::Mismatch { norm_out: n, fused_out: f } => norm_out@ != fused_out@
                && n@ == norm_out@ && f@ == fused_out@,
            ExecResult::Error(_) => false,
        },
{
    if norm_out == fused_out {
        ExecResult::Match
    } else {
        ExecResult::Mismatch { norm_out, fused_out }
    }
}

proof fn lemma_char_pos_is(s: Seq<char>, c: char, i: int, j: int)
    requires
        0 <= i <= j <= s.len(),
        forall|k: int| i <= k < j ==> #[trigger] s[k] != c,
        j == s.len() || s[j] == c,
    ensures
        char_pos_from(s, c, i) == j,
    decreases j - i,
{
    if i < j {
        lemma_char_pos_is(s, c, i + 1, j);
    }
}

/// A line that starts with `define ` and holds `@`.
pub open spec fn is_define_with_name(l: Seq<char>) -> bool {
    starts_with(l, "define "@) && l.contains('@')
}

proof fn lemma_first_define(ls: Seq<Seq<char>>, i: int, j0: int)
    requires
        0 <= i <= j0 < ls.len(),
        is_define_with_name(ls[j0]),
        forall|j: int| i <= j < j0 ==> !is_define_with_name(#[trigger] ls[j]),
    ensures
        first_define_from(ls, i) == Some(ls[j0]),
    decreases j0 - i,
{
    if i < j0 {
        lemma_first_define(ls, i + 1, j0);
    }
}

proof fn lemma_no_define(ls: Seq<Seq<char>>, i: int)
    requires
        0 <= i,
        forall|j: int| i <= j < ls.len() ==> !is_define_with_name(#[trigger] ls[j]),
    ensures
        first_define_from(ls, i) is None,
    decreases ls.len() - i,
{
    if i < ls.len() {
        lemma_no_define(ls, i + 1);
    }
}

/// Law: the function name is read from the first line of the IR that starts
/// with `define ` and holds `@`, wherever it stands (lines before it, blank
/// or not, do not matter): it is the text between that line's first `@` and
/// the first `(` after it.  There is none when no line qualifies, or when
/// that line has no `(` after its first `@`.
pub proof fn lemma_func_name(ir: Seq<char>)
    ensures
        ({
            let ls = lines(ir);
            &&& (forall|j: int| 0 <= j < ls.len() ==> !is_define_with_name(#[trigger] ls[j]))
                ==> func_name_of(ir) is None
            &&& forall|j0: int, a: int|
                #![trigger ls[j0][a]]
                0 <= j0 < ls.len() && is_define_with_name(ls[j0]) && (forall|j: int|
                    0 <= j < j0 ==> !is_define_with_name(#[trigger] ls[j])) && 0 <= a < ls[j0].len()
                    && ls[j0][a] == '@' && (forall|k: int| 0 <= k < a ==> #[trigger] ls[j0][k] != '@')
                    ==> {
                    &&& (forall|b: int|
                        a < b < ls[j0].len() && ls[j0][b] == '(' && (forall|k: int|
                            a < k < b ==> #[trigger] ls[j0][k] != '(') ==> func_name_of(ir) == Some(
                            ls[j0].subrange(a + 1, b),
                        ))
                    &&& (forall|k: int| a < k < ls[j0].len() ==> #[trigger] ls[j0][k] != '(')
                        ==> func_name_of(ir) is None
                }
        }),
{
    let ls = lines(ir);
    if forall|j: int| 0 <= j < ls.len() ==> !is_define_with_name(#[trigger] ls[j]) {
        lemma_no_define(ls, 0);
    }
    assert forall|j0: int, a: int|
        #![trigger ls[j0][a]]
        0 <= j0 < ls.len() && is_define_with_name(ls[j0]) && (forall|j: int|
            0 <= j < j0 ==> !is_define_with_name(#[trigger] ls[j])) && 0 <= a < ls[j0].len()
            && ls[j0][a] == '@' && (forall|k: int| 0 <= k < a ==> #[trigger] ls[j0][k] != '@')
        implies {
        &&& (forall|b: int|
            a < b < ls[j0].len() && ls[j0][b] == '(' && (forall|k: int|
                a < k < b ==> #[trigger] ls[j0][k] != '(') ==> func_name_of(ir) == Some(
                ls[j0].subrange(a + 1, b),
            ))
        &&& (forall|k: int| a < k < ls[j0].len() ==> #[trigger] ls[j0][k] != '(')
            ==> func_name_of(ir) is None
    } by {
        let l = ls[j0];
        lemma_first_define(ls, 0, j0);
        lemma_char_pos_is(l, '@', 0, a);
        let rest = l.skip(a + 1);
        assert forall|b: int|
            a < b < l.len() && l[b] == '(' && (forall|k: int| a < k < b ==> #[trigger] l[k] != '(')
            implies func_name_of(ir) == Some(l.subrange(a + 1, b)) by {
            assert forall|k: int| 0 <= k < b - a - 1 implies #[trigger] rest[k] != '(' by {
                assert(rest[k] == l[a + 1 + k]);
            }
            assert(rest[b - a - 1] == l[b]);
            lemma_char_pos_is(rest, '(', 0, b - a - 1);
            assert(rest.take(b - a - 1) =~= l.subrange(a + 1, b));
        }
        if forall|k: int| a < k < l.len() ==> #[trigger] l[k] != '(' {
            assert forall|k: int| 0 <= k < rest.len() implies #[trigger] rest[k] != '(' by {
                assert(rest[k] == l[a + 1 + k]);
            }
            lemma_char_pos_is(rest, '(', 0, rest.len() as int);
        }
    }
}

} // verus!
