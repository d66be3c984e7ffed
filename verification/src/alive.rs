//! Reading the verdict of the alive-tv refinement checker.

use vstd::prelude::*;

use crate::text::{
    chars_of, contains, contains_exec, extend, join, join_chars, lines, split_lines, starts_with,
    starts_with_exec, string_of, trim, trim_chars,
};

verus! {

/// Result of an alive-tv verification run.
#[derive(Debug)]
pub enum VerifyResult {
    /// The transformation was validated.
    Verified,
    /// The transformation was rejected, or nothing was validated.
    Rejected { reason: String },
    /// alive-tv could not be run.
    Error(String),
}

/// The mathematical content of a `VerifyResult`.
pub enum VerifyView {
    Verified,
    Rejected(Seq<char>),
    Error(Seq<char>),
}

impl View for VerifyResult {
    type V = VerifyView;

    open spec fn view(&self) -> VerifyView {
        match self {
            VerifyResult::Verified => VerifyView::Verified,
            VerifyResult::Rejected { reason } => VerifyView::Rejected(reason@),
            VerifyResult::Error(e) => VerifyView::Error(e@),
        }
    }
}

/// The line alive-tv prints for each validated function.
pub open spec fn correct_marker() -> Seq<char> {
    "Transformation seems to be correct!"@
}

/// Number of lines that report a validated function.
pub open spec fn correct_count(ls: Seq<Seq<char>>) -> nat
    decreases ls.len(),
{
    if ls.len() == 0 {
        0
    } else {
        correct_count(ls.drop_last()) + if contains(ls.last(), correct_marker()) {
            1nat
        } else {
            0nat
        }
    }
}

/// The lines that start with `ERROR`, in order.
pub open spec fn error_lines(ls: Seq<Seq<char>>) -> Seq<Seq<char>>
    decreases ls.len(),
{
    if ls.len() == 0 {
        seq![]
    } else {
        error_lines(ls.drop_last()) + if starts_with(ls.last(), "ERROR"@) {
            seq![ls.last()]
        } else {
            seq![]
        }
    }
}

/// The verdict on alive-tv's combined output: rejected with the `ERROR`
/// lines joined by `; ` if there are any; otherwise verified if some line
/// reports a validated transformation; otherwise rejected, quoting the
/// trimmed output.
pub open spec fn alive_verdict(out: Seq<char>) -> VerifyView {
    let ls = lines(out);
    let errs = error_lines(ls);
    if errs.len() > 0 {
        VerifyView::Rejected(join(errs, "; "@))
    } else if correct_count(ls) > 0 {
        VerifyView::Verified
    } else {
        VerifyView::Rejected("no functions verified; output: "@ + trim(out))
    }
}

/// Classify alive-tv's combined stdout and stderr (see `alive_verdict`).
pub fn classify_alive_output(combined: &str) -> (r: VerifyResult)
    ensures
        r@ == alive_verdict(combined@),
{
    let text = chars_of(combined);
    let ls = split_lines(&text);
    let ghost lv = ls@.map_values(|l: Vec<char>| l@);
    assert(lv == lines(combined@));
    let marker = chars_of("Transformation seems to be correct!");
    let error = chars_of("ERROR");
    let mut verified: usize = 0;
    let mut errors: Vec<Vec<char>> = Vec::new();
    let mut i: usize = 0;
    while i < ls.len()
        invariant
            i <= ls.len(),
            lv == ls@.map_values(|l: Vec<char>| l@),
            marker@ == correct_marker(),
            error@ == "ERROR"@,
            verified == correct_count(lv.take(i as int)),
            verified <= i,
            errors@.map_values(|l: Vec<char>| l@) == error_lines(lv.take(i as int)),
        decreases ls.len() - i,
    {
        let l = &ls[i];
        assert(l@ == lv[i as int]);
        assert(lv.take(i + 1).drop_last() =~= lv.take(i as int));
        if contains_exec(l, &marker) {
            verified += 1;
        }
        let ghost before = errors@.map_values(|l: Vec<char>| l@);
        if starts_with_exec(l, &error) {
            let c = crate::text::copy_range(l, 0, l.len());
            errors.push(c);
            assert(c@ =~= l@);
            assert(errors@.map_values(|l: Vec<char>| l@) =~= before.push(l@));
        }
        i += 1;
    }
    assert(lv.take(ls.len() as int) =~= lv);
    if errors.len() > 0 {
        let sep = chars_of("; ");
        let reason = join_chars(&errors, &sep);
        VerifyResult::Rejected { reason: string_of(&reason) }
    } else if verified > 0 {
        VerifyResult::Verified
    } else {
        let mut reason = chars_of("no functions verified; output: ");
        extend(&mut reason, &trim_chars(&text));
        VerifyResult::Rejected { reason: string_of(&reason) }
    }
}

/// The lines of `ls` that start with `ERROR`, in order, as a filter.
proof fn lemma_error_lines_filter(ls: Seq<Seq<char>>)
    ensures
        error_lines(ls) == ls.filter(|l: Seq<char>| starts_with(l, "ERROR"@)),
    decreases ls.len(),
{
    reveal(Seq::filter);
    if ls.len() > 0 {
        lemma_error_lines_filter(ls.drop_last());
        let f = |l: Seq<char>| starts_with(l, "ERROR"@);
        if starts_with(ls.last(), "ERROR"@) {
            assert(error_lines(ls) =~= ls.drop_last().filter(f).push(ls.last()));
        } else {
            assert(error_lines(ls) =~= ls.drop_last().filter(f));
        }
    }
}

proof fn lemma_error_lines_empty(ls: Seq<Seq<char>>)
    ensures
        error_lines(ls).len() == 0 <==> forall|i: int|
            0 <= i < ls.len() ==> !starts_with(#[trigger] ls[i], "ERROR"@),
    decreases ls.len(),
{
    if ls.len() > 0 {
        lemma_error_lines_empty(ls.drop_last());
        if error_lines(ls).len() == 0 {
            assert forall|i: int| 0 <= i < ls.len() implies !starts_with(#[trigger] ls[i], "ERROR"@) by {
                if i < ls.len() - 1 {
                    assert(ls[i] == ls.drop_last()[i]);
                }
            }
        } else {
            if forall|i: int| 0 <= i < ls.len() ==> !starts_with(#[trigger] ls[i], "ERROR"@) {
                assert forall|i: int| 0 <= i < ls.drop_last().len() implies !starts_with(
                    #[trigger] ls.drop_last()[i],
                    "ERROR"@,
                ) by {
                    assert(ls.drop_last()[i] == ls[i]);
                }
                assert(!starts_with(ls[ls.len() - 1], "ERROR"@));
            }
        }
    }
}

proof fn lemma_correct_count_pos(ls: Seq<Seq<char>>)
    ensures
        correct_count(ls) > 0 <==> exists|i: int|
            0 <= i < ls.len() && contains(#[trigger] ls[i], "Transformation seems to be correct!"@),
    decreases ls.len(),
{
    if ls.len() > 0 {
        lemma_correct_count_pos(ls.drop_last());
        if correct_count(ls.drop_last()) > 0 {
            let i = choose|i: int|
                0 <= i < ls.drop_last().len() && contains(
                    #[trigger] ls.drop_last()[i],
                    "Transformation seems to be correct!"@,
                );
            assert(ls[i] == ls.drop_last()[i]);
        } else if contains(ls.last(), correct_marker()) {
            assert(contains(ls[ls.len() - 1], "Transformation seems to be correct!"@));
        } else {
            if exists|i: int|
                0 <= i < ls.len() && contains(#[trigger] ls[i], "Transformation seems to be correct!"@) {
                let i = choose|i: int|
                    0 <= i < ls.len() && contains(
                        #[trigger] ls[i],
                        "Transformation seems to be correct!"@,
                    );
                if i < ls.len() - 1 {
                    assert(ls.drop_last()[i] == ls[i]);
                }
            }
        }
    }
}

/// Law: a line of alive-tv's output is an error line exactly when it starts
/// with `ERROR`.  With no such line, the verdict is Verified exactly when
/// some line holds `Transformation seems to be correct!`, whatever the other
/// lines hold, and otherwise Rejected, quoting the trimmed output.  With an
/// `ERROR` line it is Rejected, the reason being the `ERROR` lines, in
/// order, joined by `; `.
pub proof fn lemma_alive_verdict(out: Seq<char>)
    ensures
        ({
            let ls = lines(out);
            let errs = ls.filter(|l: Seq<char>| starts_with(l, "ERROR"@));
            let no_error = forall|i: int| 0 <= i < ls.len() ==> !starts_with(#[trigger] ls[i], "ERROR"@);
            let correct = exists|i: int|
                0 <= i < ls.len() && contains(#[trigger] ls[i], "Transformation seems to be correct!"@);
            &&& no_error && correct ==> alive_verdict(out) == VerifyView::Verified
            &&& no_error && !correct ==> alive_verdict(out) == VerifyView::Rejected(
                "no functions verified; output: "@ + trim(out),
            )
            &&& !no_error ==> alive_verdict(out) == VerifyView::Rejected(join(errs, "; "@))
        }),
{
    let ls = lines(out);
    lemma_error_lines_filter(ls);
    lemma_error_lines_empty(ls);
    lemma_correct_count_pos(ls);
}

} // verus!
