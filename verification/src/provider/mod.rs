//! Models, the requests sent to them and what providers answer.
pub mod anthropic;
pub mod gemini;
pub mod http;
pub mod openai_compatible;
pub mod openrouter;

use crate::text::text_same;
use vstd::prelude::*;

verus! {

/// How many provider calls may be under way at once.
pub const PROVIDER_CONCURRENCY: usize = 8;

/// Seconds after which a provider request is given up.
pub const REQUEST_TIMEOUT_SECS: u64 = 120;

/// Seconds after which connecting to a provider is given up.
pub const CONNECT_TIMEOUT_SECS: u64 = 10;

/// Requested output-token budget for candidate and judge completions.
pub const DEFAULT_MAX_TOKENS: u32 = 4096;

/// The name by which a provider knows a model.
#[derive(Debug, Eq, Hash)]
pub struct ModelId(pub String);

impl View for ModelId {
    type V = Seq<char>;

    open spec fn view(&self) -> Seq<char> {
        self.0@
    }
}

impl ModelId {
    pub fn new(id: &str) -> (r: Self)
        ensures
            r@ == id@,
    {
        ModelId(id.to_owned())
    }

    /// The name as text.
    pub fn as_str(&self) -> (r: &str)
        ensures
            r@ == self@,
    {
        self.0.as_str()
    }
}

impl Clone for ModelId {
    fn clone(&self) -> (r: Self)
        ensures
            r == *self,
    {
        ModelId(self.0.clone())
    }
}

impl PartialEq for ModelId {
    fn eq(&self, other: &Self) -> (r: bool) {
        text_same(self.0.as_str(), other.0.as_str())
    }
}

impl vstd::std_specs::cmp::PartialEqSpecImpl for ModelId {
    open spec fn obeys_eq_spec() -> bool {
        true
    }

    open spec fn eq_spec(&self, other: &Self) -> bool {
        self@ == other@
    }
}

/// One completion asked of a model.
#[derive(Debug, PartialEq)]
pub struct CompletionRequest {
    pub model: ModelId,
    pub prompt: String,
    /// Sampling temperature in thousandths. `None` omits the field so the
    /// provider default applies.
    pub temperature: Option<u32>,
    /// Maximum number of output tokens. `None` omits the field so the provider
    /// default applies.
    pub max_tokens: Option<u32>,
}

impl Clone for CompletionRequest {
    fn clone(&self) -> (r: Self)
        ensures
            r == *self,
    {
        CompletionRequest {
            model: self.model.clone(),
            prompt: self.prompt.clone(),
            temperature: self.temperature,
            max_tokens: self.max_tokens,
        }
    }
}

/// The text a model answered with.
#[derive(Debug, PartialEq, Eq)]
pub struct CompletionResponse {
    pub text: String,
}

impl Clone for CompletionResponse {
    fn clone(&self) -> (r: Self)
        ensures
            r == *self,
    {
        CompletionResponse { text: self.text.clone() }
    }
}

/// Why a provider gave no completion.
#[derive(Debug, PartialEq, Eq)]
pub enum ProviderError {
    RequestFailed(String),
    InvalidResponse(String),
}

impl Clone for ProviderError {
    fn clone(&self) -> (r: Self)
        ensures
            r == *self,
    {
        match self {
            ProviderError::RequestFailed(text) => ProviderError::RequestFailed(text.clone()),
            ProviderError::InvalidResponse(text) => ProviderError::InvalidResponse(text.clone()),
        }
    }
}

impl ProviderError {
    /// The message that `message` writes.
    pub open spec fn message_spec(self) -> Seq<char> {
        match self {
            ProviderError::RequestFailed(text) => "provider request failed: "@ + text@,
            ProviderError::InvalidResponse(text) => "invalid provider response: "@ + text@,
        }
    }

    /// The error as a sentence for people.
    pub fn message(&self) -> (r: String)
        ensures
            r@ == self.message_spec(),
    {
        match self {
            ProviderError::RequestFailed(text) => {
                let mut r: String = "provider request failed: ".to_owned();
                r.push_str(text.as_str());
                r
            },
            ProviderError::InvalidResponse(text) => {
                let mut r: String = "invalid provider response: ".to_owned();
                r.push_str(text.as_str());
                r
            },
        }
    }
}

/// What is said when an answer holds no text.
pub const MISSING_CONTENT: &'static str = "missing completion content";

/// An answer without text.
pub fn missing_content() -> (r: ProviderError)
    ensures
        r matches ProviderError::InvalidResponse(text) && text@ == MISSING_CONTENT@,
{
    ProviderError::InvalidResponse(MISSING_CONTENT.to_owned())
}

/// An environment variable that has to be set and is not.
pub fn missing_variable(name: &str) -> (r: ProviderError)
    ensures
        r matches ProviderError::RequestFailed(text) && text@ == name@
            + " environment variable is not set"@,
{
    let mut text: String = name.to_owned();
    text.push_str(" environment variable is not set");
    ProviderError::RequestFailed(text)
}

/// The result is the text of an answer, or that it has none.
pub open spec fn is_answer(r: Result<String, ProviderError>, text: Option<Seq<char>>) -> bool {
    match r {
        Ok(answer) => text == Some(answer@),
        Err(ProviderError::InvalidResponse(message)) => text is None && message@
            == MISSING_CONTENT@,
        Err(_) => false,
    }
}

/// An answer is its text, and one without text is refused as invalid.
pub proof fn answers_are_their_text(r: Result<String, ProviderError>, text: Option<Seq<char>>)
    requires
        is_answer(r, text),
    ensures
        r is Ok <==> text is Some,
        r matches Ok(answer) ==> answer@ == text->Some_0,
        r matches Err(error) ==> (error matches ProviderError::InvalidResponse(message)
            && message@ == "missing completion content"@),
{
}

/// An error says what the provider or the request failed with, after a few words
/// of its own.
pub proof fn provider_errors_tell_their_cause(error: ProviderError, r: String)
    requires
        call_ensures(ProviderError::message, (&error,), r),
    ensures
        error matches ProviderError::RequestFailed(text) ==> r@ == "provider request failed: "@
            + text@,
        error matches ProviderError::InvalidResponse(text) ==> r@ == "invalid provider response: "@
            + text@,
{
}

} // verus!
