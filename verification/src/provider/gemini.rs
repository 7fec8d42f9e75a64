//! The Gemini API.
use crate::provider::http::{join_url, without_slashes};
use crate::provider::openai_compatible::USER_ROLE;
use crate::provider::{is_answer, missing_content, CompletionRequest, ProviderError};
use vstd::prelude::*;

verus! {

pub const DEFAULT_BASE_URL: &'static str = "https://generativelanguage.googleapis.com/v1beta";

pub const API_KEY_ENV: &'static str = "ARENA_GEMINI_API_KEY";

/// The address that prompts for a model are sent to.
pub fn generate_content_url(base_url: &str, model: &str) -> (r: String)
    ensures
        r@ == without_slashes(base_url@) + "/models/"@ + model@ + ":generateContent"@,
{
    let mut r: String = join_url(base_url, "/models/");
    r.push_str(model);
    r.push_str(":generateContent");
    r
}

/// How a completion is decoded. The temperature is in thousandths.
#[derive(Debug, Clone, Copy, PartialEq, Eq)]
pub struct GenerationConfig {
    pub temperature: Option<u32>,
    pub max_output_tokens: Option<u32>,
}

/// The decoding to ask for; nothing is asked if nothing is set.
pub fn generation_config(temperature: Option<u32>, max_tokens: Option<u32>) -> (r: Option<
    GenerationConfig,
>)
    ensures
        r == (if temperature is None && max_tokens is None {
            None
        } else {
            Some(GenerationConfig { temperature, max_output_tokens: max_tokens })
        }),
{
    if temperature.is_none() && max_tokens.is_none() {
        None
    } else {
        Some(GenerationConfig { temperature, max_output_tokens: max_tokens })
    }
}

/// What is sent for a completion.
#[derive(Debug)]
pub struct GenerateBody {
    pub role: &'static str,
    pub text: String,
    pub generation_config: Option<GenerationConfig>,
}

/// Puts a request into the form that is sent. Its model is part of the address.
pub fn generate_body(request: CompletionRequest) -> (r: GenerateBody)
    ensures
        r.role@ == USER_ROLE@,
        r.text == request.prompt,
        r.generation_config is None <==> request.temperature is None && request.max_tokens is None,
        r.generation_config matches Some(config) ==> config.temperature == request.temperature
            && config.max_output_tokens == request.max_tokens,
{
    GenerateBody {
        role: USER_ROLE,
        text: request.prompt,
        generation_config: generation_config(request.temperature, request.max_tokens),
    }
}

/// The headers of a request: the key.
pub fn headers(api_key: &str) -> (r: Vec<(&'static str, String)>)
    ensures
        r@.len() == 1,
        r@[0].0@ == "x-goog-api-key"@,
        r@[0].1@ == api_key@,
{
    let mut r: Vec<(&'static str, String)> = Vec::new();
    r.push(("x-goog-api-key", api_key.to_owned()));
    r
}

/// A piece of an answer.
#[derive(Debug)]
pub struct ResponsePart {
    pub text: Option<String>,
}

/// What an answer consists of.
#[derive(Debug)]
pub struct ResponseContent {
    pub parts: Option<Vec<ResponsePart>>,
}

/// One of the answers.
#[derive(Debug)]
pub struct Candidate {
    pub content: Option<ResponseContent>,
}

/// The texts of the parts, one after the other, if there are any.
pub open spec fn text_in(parts: Seq<ResponsePart>) -> Option<Seq<char>>
    decreases parts.len(),
{
    if parts.len() == 0 {
        None
    } else {
        let before = text_in(parts.drop_last());
        match (before, parts.last().text) {
            (Some(text), Some(piece)) => Some(text + piece@),
            (None, Some(piece)) => Some(piece@),
            (_, None) => before,
        }
    }
}

/// The text of the first answer.
pub open spec fn answer_in(candidates: Seq<Candidate>) -> Option<Seq<char>> {
    if candidates.len() == 0 {
        None
    } else {
        match candidates[0].content {
            Some(content) => match content.parts {
                Some(parts) => text_in(parts@),
                None => None,
            },
            None => None,
        }
    }
}

fn parts_text(parts: &Vec<ResponsePart>) -> (r: Result<String, ProviderError>)
    ensures
        is_answer(r, text_in(parts@)),
{
    let mut text: String = String::new();
    let mut saw_text: bool = false;
    let mut k: usize = 0;
    proof {
        assert(text@ =~= Seq::<char>::empty());
    }
    while k < parts.len()
        invariant
            k <= parts@.len(),
            saw_text ==> text_in(parts@.take(k as int)) == Some(text@),
            !saw_text ==> text_in(parts@.take(k as int)) is None && text@ == Seq::<char>::empty(),
        decreases parts@.len() - k,
    {
        proof {
            assert(parts@.take(k + 1).drop_last() =~= parts@.take(k as int));
            assert(parts@.take(k + 1).last() == parts@[k as int]);
        }
        if let Some(piece) = &parts[k].text {
            saw_text = true;
            text.push_str(piece.as_str());
            proof {
                assert(Seq::<char>::empty() + piece@ =~= piece@);
            }
        }
        k += 1;
    }
    proof {
        assert(parts@.take(parts@.len() as int) =~= parts@);
    }
    if saw_text {
        Ok(text)
    } else {
        Err(missing_content())
    }
}

/// The text of the first answer.
pub fn candidate_text(candidates: &Vec<Candidate>) -> (r: Result<String, ProviderError>)
    ensures
        is_answer(r, answer_in(candidates@)),
{
    if candidates.len() == 0 {
        return Err(missing_content());
    }
    match &candidates[0].content {
        Some(content) => match &content.parts {
            Some(parts) => parts_text(parts),
            None => Err(missing_content()),
        },
        None => Err(missing_content()),
    }
}

/// The texts of two parts of an answer, one after the other.
pub open spec fn texts_joined(one: Option<Seq<char>>, two: Option<Seq<char>>) -> Option<Seq<char>> {
    match (one, two) {
        (Some(one), Some(two)) => Some(one + two),
        (Some(one), None) => Some(one),
        (None, two) => two,
    }
}

/// The text of an answer is that of its first parts followed by that of the
/// others, each as it is.
pub proof fn answers_are_read_part_by_part(one: Seq<ResponsePart>, two: Seq<ResponsePart>)
    ensures
        text_in(one + two) == texts_joined(text_in(one), text_in(two)),
        one.len() == 1 ==> text_in(one) == (match one[0].text {
            Some(text) => Some(text@),
            None => None,
        }),
    decreases two.len(),
{
    if one.len() == 1 {
        assert(one.drop_last().len() == 0);
        reveal_with_fuel(text_in, 2);
    }
    if two.len() == 0 {
        assert(one + two =~= one);
    } else {
        answers_are_read_part_by_part(one, two.drop_last());
        assert((one + two).drop_last() =~= one + two.drop_last());
        if let (Some(x), Some(y)) = (text_in(one), text_in(two.drop_last())) {
            if let Some(piece) = two.last().text {
                assert(x + y + piece@ =~= x + (y + piece@));
            }
        }
    }
}

/// Only the first of several answers is read.
pub proof fn the_first_answer_counts(one: Seq<Candidate>, two: Seq<Candidate>)
    requires
        one.len() > 0,
    ensures
        answer_in(one + two) == answer_in(one),
        one[0].content is None ==> answer_in(one) is None,
        one[0].content matches Some(content) ==> (content.parts matches Some(parts) ==> answer_in(
            one,
        ) == text_in(parts@)),
{
}

/// Whatever `candidate_text` returns of an answer in one part is the text of that
/// part, as it is.
pub proof fn single_parts_are_the_answer(
    candidates: &Vec<Candidate>,
    r: Result<String, ProviderError>,
    parts: Seq<ResponsePart>,
)
    requires
        call_ensures(candidate_text, (candidates,), r),
        candidates@.len() > 0,
        candidates@[0].content is Some,
        candidates@[0].content->Some_0.parts is Some,
        parts == candidates@[0].content->Some_0.parts->Some_0@,
    ensures
        parts.len() == 1 && parts[0].text is Some ==> r is Ok && r->Ok_0@ == parts[0].text->Some_0@,
        parts.len() == 1 && parts[0].text is None ==> r is Err,
        parts.len() == 2 && parts[0].text is Some && parts[1].text is Some ==> r is Ok && r->Ok_0@
            == parts[0].text->Some_0@ + parts[1].text->Some_0@,
        parts.len() == 0 ==> r is Err,
{
    answers_are_read_part_by_part(parts, seq![]);
    if parts.len() == 2 {
        let (one, two) = (parts.take(1), parts.skip(1));
        assert(parts =~= one + two);
        answers_are_read_part_by_part(one, two);
        answers_are_read_part_by_part(two, seq![]);
    }
}

/// A prompt is sent as it is, and what is asked about decoding is what the
/// request asks for.
pub proof fn prompts_are_sent_as_they_are(request: CompletionRequest, r: GenerateBody)
    requires
        call_ensures(generate_body, (request,), r),
    ensures
        r.role@ == "user"@,
        r.text@ == request.prompt@,
        r.generation_config is None <==> request.temperature is None && request.max_tokens is None,
        r.generation_config is Some ==> r.generation_config->Some_0.temperature
            == request.temperature && r.generation_config->Some_0.max_output_tokens
            == request.max_tokens,
{
}

} // verus!
