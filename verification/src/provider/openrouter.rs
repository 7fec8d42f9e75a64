//! The OpenRouter API. Its requests are those of OpenAI's chat completions.
use crate::provider::http::{join_url, reject_length_limit, without_slashes, TRUNCATED};
use crate::provider::{missing_content, CompletionResponse, ProviderError, MISSING_CONTENT};
use vstd::prelude::*;

verus! {

pub const DEFAULT_BASE_URL: &'static str = "https://openrouter.ai/api/v1";

pub const API_KEY_ENV: &'static str = "ARENA_OPENROUTER_API_KEY";

/// Why a completion that hit its limit stops.
pub const LENGTH_REASON: &'static str = "length";

/// The address that prompts are sent to.
pub fn chat_completions_url(base_url: &str) -> (r: String)
    ensures
        r@ == without_slashes(base_url@) + "/chat/completions"@,
{
    join_url(base_url, "/chat/completions")
}

/// One of the answers.
#[derive(Debug)]
pub struct ChatChoice {
    pub finish_reason: Option<String>,
    pub content: Option<String>,
}

/// The completion in the first answer. One that was cut off is refused.
pub fn completion(choices: &Vec<ChatChoice>) -> (r: Result<CompletionResponse, ProviderError>)
    ensures
        ({
            let some = choices@.len() > 0;
            let first = choices@[0];
            let cut_off = some && (first.finish_reason matches Some(reason) && reason@
                == LENGTH_REASON@);
            match r {
                Ok(response) => some && !cut_off && (first.content matches Some(text) && text@
                    == response.text@),
                Err(ProviderError::InvalidResponse(message)) => if cut_off {
                    message@ == TRUNCATED@
                } else {
                    (!some || first.content is None) && message@ == MISSING_CONTENT@
                },
                Err(_) => false,
            }
        }),
{
    if choices.len() == 0 {
        return Err(missing_content());
    }
    let first: &ChatChoice = &choices[0];
    let reason: Option<&str> = match &first.finish_reason {
        Some(reason) => Some(reason.as_str()),
        None => None,
    };
    match reject_length_limit(reason, LENGTH_REASON) {
        Ok(()) => {},
        Err(error) => return Err(error),
    }
    match &first.content {
        Some(text) => Ok(CompletionResponse { text: text.clone() }),
        None => Err(missing_content()),
    }
}

/// Whatever `completion` returns is the whole text of the first answer; one that
/// was cut off is refused, whatever it holds.
pub proof fn cut_off_answers_are_refused(
    choices: &Vec<ChatChoice>,
    r: Result<CompletionResponse, ProviderError>,
)
    requires
        call_ensures(completion, (choices,), r),
    ensures
        choices@.len() == 0 ==> r is Err,
        choices@.len() > 0 ==> {
            let first = choices@[0];
            let cut_off = first.finish_reason is Some && first.finish_reason->Some_0@ == "length"@;
            &&& r is Ok <==> !cut_off && first.content is Some
            &&& r matches Ok(response) ==> response.text@ == first.content->Some_0@
        },
{
}

} // verus!
