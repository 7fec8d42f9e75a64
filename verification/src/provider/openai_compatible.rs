//! APIs that are compatible with OpenAI's chat completions.
use crate::judge::text_view;
use crate::provider::http::{join_url, without_slashes};
use crate::provider::{
    missing_content, CompletionRequest, CompletionResponse, ProviderError, MISSING_CONTENT,
};
use crate::text::is_empty_text;
use vstd::prelude::*;

verus! {

pub const DEFAULT_BASE_URL: &'static str = "https://api.openai.com/v1";

pub const API_KEY_ENV: &'static str = "ARENA_API_KEY";

pub const BASE_URL_ENV: &'static str = "ARENA_BASE_URL";

/// The address that prompts are sent to.
pub fn chat_completions_url(base_url: &str) -> (r: String)
    ensures
        r@ == without_slashes(base_url@) + "/chat/completions"@,
{
    join_url(base_url, "/chat/completions")
}

/// The address that lists the models.
pub fn models_url(base_url: &str) -> (r: String)
    ensures
        r@ == without_slashes(base_url@) + "/models"@,
{
    join_url(base_url, "/models")
}

/// The address to use: the one that is set, unless it is empty.
pub fn base_url_or_default(value: Option<String>) -> (r: String)
    ensures
        value matches Some(url) && url@.len() > 0 ==> r == value->Some_0,
        !(value matches Some(url) && url@.len() > 0) ==> r@ == DEFAULT_BASE_URL@,
{
    match value {
        Some(url) => if is_empty_text(url.as_str()) {
            DEFAULT_BASE_URL.to_owned()
        } else {
            url
        },
        None => DEFAULT_BASE_URL.to_owned(),
    }
}

/// Who speaks in a prompt.
pub const USER_ROLE: &'static str = "user";

/// A message with its role.
#[derive(Debug)]
pub struct ChatMessage {
    pub role: &'static str,
    pub content: String,
}

/// What is sent for a completion. The temperature is in thousandths; what is
/// absent is not sent.
#[derive(Debug)]
pub struct ChatBody {
    pub model: String,
    pub messages: Vec<ChatMessage>,
    pub temperature: Option<u32>,
    pub max_tokens: Option<u32>,
}

/// Puts a request into the form that is sent: its prompt is the only message.
pub fn chat_body(request: CompletionRequest) -> (r: ChatBody)
    ensures
        r.model == request.model.0,
        r.messages@.len() == 1,
        r.messages@[0].role@ == USER_ROLE@,
        r.messages@[0].content == request.prompt,
        r.temperature == request.temperature,
        r.max_tokens == request.max_tokens,
{
    let mut messages: Vec<ChatMessage> = Vec::new();
    messages.push(ChatMessage { role: USER_ROLE, content: request.prompt });
    ChatBody {
        model: request.model.0,
        messages,
        temperature: request.temperature,
        max_tokens: request.max_tokens,
    }
}

/// The text of the first answer, where `contents` holds the texts of all.
pub open spec fn first_text(contents: Seq<Option<String>>) -> Option<Seq<char>> {
    if contents.len() == 0 {
        None
    } else {
        text_view(contents[0])
    }
}

/// The completion in the first answer, where `contents` holds the texts of all.
pub fn completion(contents: &Vec<Option<String>>) -> (r: Result<CompletionResponse, ProviderError>)
    ensures
        match r {
            Ok(response) => first_text(contents@) == Some(response.text@),
            Err(ProviderError::InvalidResponse(message)) => first_text(contents@) is None
                && message@ == MISSING_CONTENT@,
            Err(_) => false,
        },
{
    if contents.len() == 0 {
        return Err(missing_content());
    }
    match &contents[0] {
        Some(text) => Ok(CompletionResponse { text: text.clone() }),
        None => Err(missing_content()),
    }
}

/// Whatever `completion` returns is the text of the first answer, as it is, and
/// an error exactly if there is none.
pub proof fn the_first_answer_is_the_completion(
    contents: &Vec<Option<String>>,
    r: Result<CompletionResponse, ProviderError>,
)
    requires
        call_ensures(completion, (contents,), r),
    ensures
        r is Ok <==> contents@.len() > 0 && contents@[0] is Some,
        r matches Ok(response) ==> response.text@ == contents@[0]->Some_0@,
        r matches Err(error) ==> (error matches ProviderError::InvalidResponse(message)
            && message@ == "missing completion content"@),
{
}

/// A request is sent as it is: its prompt, and nothing else, as the user's
/// message.
pub proof fn requests_are_sent_as_they_are(request: CompletionRequest, r: ChatBody)
    requires
        call_ensures(chat_body, (request,), r),
    ensures
        r.model@ == request.model@,
        r.messages@.len() == 1,
        r.messages@[0].role@ == "user"@,
        r.messages@[0].content@ == request.prompt@,
        r.temperature == request.temperature,
        r.max_tokens == request.max_tokens,
{
}

/// An address that is set and not empty is used as it is.
pub proof fn set_addresses_are_used(value: Option<String>, r: String)
    requires
        call_ensures(base_url_or_default, (value,), r),
    ensures
        value is Some && value->Some_0@.len() > 0 ==> r@ == value->Some_0@,
        value is None || value->Some_0@.len() == 0 ==> r@ == "https://api.openai.com/v1"@,
{
}

} // verus!
