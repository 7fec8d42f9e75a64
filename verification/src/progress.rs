//! The lines that tell how a run is going.
use crate::execute::ExecutionResult;
use crate::judge::{Judgment, JudgmentFailure, OrientationFailure};
use crate::text::{
    decimal, decimal_text, holds_inner, holds_its_end, holds_more, holds_part,
};
use vstd::prelude::*;

verus! {

/// Which phase of which task is under way.
pub fn phase_line(task_id: &str, phase: &str) -> (r: String)
    ensures
        r@ == "task "@ + task_id@ + "  "@ + phase@,
{
    let mut r: String = "task ".to_owned();
    r.push_str(task_id);
    r.push_str("  ");
    r.push_str(phase);
    r
}

/// That a candidate has answered.
pub fn candidate_line(result: &ExecutionResult) -> (r: String)
    ensures
        r@ == "exec  "@ + result.task_id@ + "  "@ + result.model@ + "  "@ + decimal(
            result.duration_ms as nat,
        ) + "ms"@,
{
    let mut r: String = "exec  ".to_owned();
    r.push_str(result.task_id.as_str());
    r.push_str("  ");
    r.push_str(result.model.as_str());
    r.push_str("  ");
    r.push_str(decimal_text(result.duration_ms).as_str());
    r.push_str("ms");
    r
}

/// That a pair has been judged.
pub fn judgment_line(judgment: &Judgment) -> (r: String)
    ensures
        r@ == "judge  "@ + judgment.task_id@ + "  "@ + judgment.model_a@ + " vs "@
            + judgment.model_b@ + "  "@ + decimal(judgment.duration_ms as nat) + "ms"@,
{
    let mut r: String = "judge  ".to_owned();
    r.push_str(judgment.task_id.as_str());
    r.push_str("  ");
    r.push_str(judgment.model_a.as_str());
    r.push_str(" vs ");
    r.push_str(judgment.model_b.as_str());
    r.push_str("  ");
    r.push_str(decimal_text(judgment.duration_ms).as_str());
    r.push_str("ms");
    r
}

/// The first `count` failed orientations, separated by commas.
pub open spec fn orientations_text(orientations: Seq<OrientationFailure>, count: int) -> Seq<char>
    decreases count,
{
    if count <= 0 {
        seq![]
    } else {
        let before = orientations_text(orientations, count - 1);
        let failure = orientations[count - 1];
        let last = failure.orientation.name() + " "@ + failure.kind.name();
        if count == 1 {
            last
        } else {
            before + ", "@ + last
        }
    }
}

fn orientations_line(orientations: &Vec<OrientationFailure>) -> (r: String)
    ensures
        r@ == orientations_text(orientations@, orientations@.len() as int),
{
    let mut r: String = String::new();
    let mut k: usize = 0;
    proof {
        assert(r@ =~= orientations_text(orientations@, 0));
    }
    while k < orientations.len()
        invariant
            k <= orientations@.len(),
            r@ == orientations_text(orientations@, k as int),
        decreases orientations@.len() - k,
    {
        let mut last: String = orientations[k].orientation.as_str().to_owned();
        last.push_str(" ");
        last.push_str(orientations[k].kind.as_str());
        if k == 0 {
            r = last;
        } else {
            r.push_str(", ");
            r.push_str(last.as_str());
        }
        k += 1;
    }
    r
}

/// That a pair could not be judged.
pub fn failure_line(failure: &JudgmentFailure) -> (r: String)
    ensures
        r@ == "judge  "@ + failure.task_id@ + "  "@ + failure.model_a@ + " vs "@ + failure.model_b@
            + "  failed  "@ + orientations_text(
            failure.orientations@,
            failure.orientations@.len() as int,
        ),
{
    let mut r: String = "judge  ".to_owned();
    r.push_str(failure.task_id.as_str());
    r.push_str("  ");
    r.push_str(failure.model_a.as_str());
    r.push_str(" vs ");
    r.push_str(failure.model_b.as_str());
    r.push_str("  failed  ");
    r.push_str(orientations_line(&failure.orientations).as_str());
    r
}

/// The lines about a pair name its models in their order.
pub proof fn lines_name_the_pair(
    judgment: &Judgment,
    failure: &JudgmentFailure,
    judged: String,
    failed: String,
)
    requires
        call_ensures(judgment_line, (judgment,), judged),
        call_ensures(failure_line, (failure,), failed),
    ensures
        holds_part(judged@, judgment.model_a@ + " vs "@ + judgment.model_b@),
        holds_part(failed@, failure.model_a@ + " vs "@ + failure.model_b@),
        "judge  "@.is_prefix_of(judged@) && "judge  "@.is_prefix_of(failed@),
        forall|k: int|
            0 <= k < failure.orientations@.len() ==> holds_part(
                failed@,
                (#[trigger] failure.orientations@[k]).orientation.name() + " "@
                    + failure.orientations@[k].kind.name(),
            ),
{
    let nothing = Seq::<char>::empty();
    let pair = judgment.model_a@ + " vs "@ + judgment.model_b@;
    assert(judged@ =~= ("judge  "@ + judgment.task_id@ + "  "@) + pair + ("  "@ + decimal(
        judgment.duration_ms as nat,
    ) + "ms"@));
    let other = failure.model_a@ + " vs "@ + failure.model_b@;
    let count = failure.orientations@.len() as int;
    let list = orientations_text(failure.orientations@, count);
    let head = "judge  "@ + failure.task_id@ + "  "@;
    assert(failed@ =~= head + other + ("  failed  "@ + list));
    assert(failed@ =~= (head + other + "  failed  "@) + list + nothing);
    assert("judge  "@ =~= judged@.subrange(0, "judge  "@.len() as int));
    assert("judge  "@ =~= failed@.subrange(0, "judge  "@.len() as int));
    orders_are_listed(failure.orientations@, count);
    assert forall|k: int| 0 <= k < count implies holds_part(
        failed@,
        (#[trigger] failure.orientations@[k]).orientation.name() + " "@
            + failure.orientations@[k].kind.name(),
    ) by {
        holds_inner(
            failed@,
            list,
            failure.orientations@[k].orientation.name() + " "@
                + failure.orientations@[k].kind.name(),
        );
    }
}

proof fn orders_are_listed(orientations: Seq<OrientationFailure>, count: int)
    requires
        0 <= count <= orientations.len(),
    ensures
        forall|k: int|
            0 <= k < count ==> holds_part(
                orientations_text(orientations, count),
                (#[trigger] orientations[k]).orientation.name() + " "@
                    + orientations[k].kind.name(),
            ),
    decreases count,
{
    broadcast use {holds_its_end, holds_more};

    if count > 0 {
        orders_are_listed(orientations, count - 1);
        let all = orientations_text(orientations, count);
        let failure = orientations[count - 1];
        let last = failure.orientation.name() + " "@ + failure.kind.name();
        if count == 1 {
            assert(all =~= Seq::<char>::empty() + last);
        } else {
            let before = orientations_text(orientations, count - 1);
            assert(all == before + ", "@ + last);
        }
        assert(holds_part(all, last));
    }
}

} // verus!
