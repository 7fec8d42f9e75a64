//! What can end a run.
use crate::execute::ExecutionError;
use crate::judge::JudgeError;
use crate::persist::PersistError;
use crate::provider::{ModelId, ProviderError};
use crate::task::TaskError;
use crate::text::{decimal, decimal_text, decimals_read_back, holds_part, number_read};
use vstd::prelude::*;

verus! {

/// Why a run could not be started, carried out or completed.
#[derive(Debug)]
pub enum Error {
    Provider(ProviderError),
    Execute(ExecutionError),
    Task(TaskError),
    Persist(PersistError),
    Judge(JudgeError),
    DuplicateModel(ModelId),
    JudgeIsCandidate(ModelId),
    IncompleteJudgments(usize),
    InconsistentPairCoverage { expected: usize, resolved: usize, failed: usize },
    NoCandidates,
    Json(String),
    Io(String),
}

impl Error {
    pub open spec fn message_spec(self) -> Seq<char> {
        match self {
            Error::Provider(source) => source.message_spec(),
            Error::Execute(source) => source.message_spec(),
            Error::Task(source) => source.message_spec(),
            Error::Persist(source) => source.message_spec(),
            Error::Judge(source) => source.message_spec(),
            Error::DuplicateModel(model) => "duplicate model id: "@ + model@,
            Error::JudgeIsCandidate(model) => "judge model is also a candidate: "@ + model@,
            Error::IncompleteJudgments(failed) => "incomplete run: "@ + decimal(failed as nat)
                + " judgment pair(s) failed"@,
            Error::InconsistentPairCoverage {
                expected,
                resolved,
                failed,
            } => "inconsistent pair coverage: expected "@ + decimal(expected as nat)
                + ", resolved "@ + decimal(resolved as nat) + ", failed "@ + decimal(failed as nat),
            Error::NoCandidates => "at least one candidate model is required"@,
            Error::Json(text) => text@,
            Error::Io(text) => text@,
        }
    }

    /// The error in words.
    pub fn message(&self) -> (r: String)
        ensures
            r@ == self.message_spec(),
    {
        match self {
            Error::Provider(source) => source.message(),
            Error::Execute(source) => source.message(),
            Error::Task(source) => source.message(),
            Error::Persist(source) => source.message(),
            Error::Judge(source) => source.message(),
            Error::DuplicateModel(model) => {
                let mut r: String = "duplicate model id: ".to_owned();
                r.push_str(model.as_str());
                r
            },
            Error::JudgeIsCandidate(model) => {
                let mut r: String = "judge model is also a candidate: ".to_owned();
                r.push_str(model.as_str());
                r
            },
            Error::IncompleteJudgments(failed) => {
                let mut r: String = "incomplete run: ".to_owned();
                r.push_str(decimal_text(*failed as u64).as_str());
                r.push_str(" judgment pair(s) failed");
                r
            },
            Error::InconsistentPairCoverage { expected, resolved, failed } => {
                let mut r: String = "inconsistent pair coverage: expected ".to_owned();
                r.push_str(decimal_text(*expected as u64).as_str());
                r.push_str(", resolved ");
                r.push_str(decimal_text(*resolved as u64).as_str());
                r.push_str(", failed ");
                r.push_str(decimal_text(*failed as u64).as_str());
                r
            },
            Error::NoCandidates => "at least one candidate model is required".to_owned(),
            Error::Json(text) => text.clone(),
            Error::Io(text) => text.clone(),
        }
    }
}

/// An error that another one caused says what that one says, and a count that is
/// told can be read back.
pub proof fn errors_say_what_happened(error: Error, r: String)
    requires
        call_ensures(Error::message, (&error,), r),
    ensures
        error matches Error::Provider(source) ==> r@ == source.message_spec(),
        error matches Error::Execute(source) ==> r@ == source.message_spec(),
        error matches Error::Task(source) ==> r@ == source.message_spec(),
        error matches Error::Persist(source) ==> r@ == source.message_spec(),
        error matches Error::Judge(source) ==> r@ == source.message_spec(),
        error matches Error::DuplicateModel(model) ==> holds_part(r@, ": "@ + model@),
        error matches Error::JudgeIsCandidate(model) ==> holds_part(r@, ": "@ + model@),
        error matches Error::IncompleteJudgments(failed) ==> holds_part(
            r@,
            decimal(failed as nat) + " judgment pair(s) failed"@,
        ) && number_read(decimal(failed as nat)) == failed,
        error matches Error::InconsistentPairCoverage { expected, resolved, failed } ==> holds_part(
            r@,
            "expected "@ + decimal(expected as nat) + ", resolved "@ + decimal(resolved as nat)
                + ", failed "@ + decimal(failed as nat),
        ),
{
    let nothing = Seq::<char>::empty();
    match error {
        Error::DuplicateModel(model) => {
            reveal_strlit("duplicate model id: ");
            reveal_strlit("duplicate model id");
            reveal_strlit(": ");
            assert("duplicate model id: "@ =~= "duplicate model id"@ + ": "@);
            let part = ": "@ + model@;
            assert(r@ =~= "duplicate model id"@ + part + nothing);
        },
        Error::JudgeIsCandidate(model) => {
            reveal_strlit("judge model is also a candidate: ");
            reveal_strlit("judge model is also a candidate");
            reveal_strlit(": ");
            assert("judge model is also a candidate: "@ =~= "judge model is also a candidate"@
                + ": "@);
            let part = ": "@ + model@;
            assert(r@ =~= "judge model is also a candidate"@ + part + nothing);
        },
        Error::IncompleteJudgments(failed) => {
            let part = decimal(failed as nat) + " judgment pair(s) failed"@;
            assert(r@ =~= "incomplete run: "@ + part + nothing);
            decimals_read_back(failed as nat);
        },
        Error::InconsistentPairCoverage { expected, resolved, failed } => {
            reveal_strlit("inconsistent pair coverage: expected ");
            reveal_strlit("inconsistent pair coverage: ");
            reveal_strlit("expected ");
            assert("inconsistent pair coverage: expected "@ =~= "inconsistent pair coverage: "@
                + "expected "@);
            let part = "expected "@ + decimal(expected as nat) + ", resolved "@ + decimal(
                resolved as nat,
            ) + ", failed "@ + decimal(failed as nat);
            assert(r@ =~= "inconsistent pair coverage: "@ + part + nothing);
        },
        _ => {},
    }
}

} // verus!
