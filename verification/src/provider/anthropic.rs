//! The Anthropic messages API.
use crate::provider::http::{join_url, reject_length_limit, without_slashes, TRUNCATED};
use crate::provider::{
    is_answer, missing_content, CompletionResponse, ProviderError, MISSING_CONTENT,
};
use crate::text::text_same;
use vstd::prelude::*;

verus! {

pub const DEFAULT_BASE_URL: &'static str = "https://api.anthropic.com/v1";

pub const API_KEY_ENV: &'static str = "ARENA_ANTHROPIC_API_KEY";

pub const ANTHROPIC_VERSION: &'static str = "2023-06-01";

/// Why a message that hit its limit stops.
pub const LENGTH_REASON: &'static str = "max_tokens";

/// The address that messages are sent to.
pub fn messages_url(base_url: &str) -> (r: String)
    ensures
        r@ == without_slashes(base_url@) + "/messages"@,
{
    join_url(base_url, "/messages")
}

/// The headers of a request: the key and the version of the API.
pub fn headers(api_key: &str) -> (r: Vec<(&'static str, String)>)
    ensures
        r@.len() == 2,
        r@[0].0@ == "x-api-key"@,
        r@[0].1@ == api_key@,
        r@[1].0@ == "anthropic-version"@,
        r@[1].1@ == ANTHROPIC_VERSION@,
{
    let mut r: Vec<(&'static str, String)> = Vec::new();
    r.push(("x-api-key", api_key.to_owned()));
    r.push(("anthropic-version", ANTHROPIC_VERSION.to_owned()));
    r
}

/// A piece of an answer.
#[derive(Debug)]
pub struct ContentBlock {
    pub kind: String,
    pub text: Option<String>,
}

/// An answer.
#[derive(Debug)]
pub struct MessagesReply {
    pub content: Vec<ContentBlock>,
    pub stop_reason: Option<String>,
}

/// The text of the blocks: what the blocks of text hold, one after the other,
/// if there are any.
pub open spec fn text_in(blocks: Seq<ContentBlock>) -> Option<Seq<char>>
    decreases blocks.len(),
{
    if blocks.len() == 0 {
        None
    } else {
        let before = text_in(blocks.drop_last());
        let block = blocks.last();
        match block.text {
            Some(piece) => if block.kind@ == "text"@ {
                match before {
                    Some(text) => Some(text + piece@),
                    None => Some(piece@),
                }
            } else {
                before
            },
            None => before,
        }
    }
}

/// The text of an answer.
pub fn message_text(blocks: &Vec<ContentBlock>) -> (r: Result<String, ProviderError>)
    ensures
        is_answer(r, text_in(blocks@)),
{
    let mut text: String = String::new();
    let mut saw_text: bool = false;
    let mut k: usize = 0;
    proof {
        assert(text@ =~= Seq::<char>::empty());
    }
    while k < blocks.len()
        invariant
            k <= blocks@.len(),
            saw_text ==> text_in(blocks@.take(k as int)) == Some(text@),
            !saw_text ==> text_in(blocks@.take(k as int)) is None && text@ == Seq::<char>::empty(),
        decreases blocks@.len() - k,
    {
        proof {
            assert(blocks@.take(k + 1).drop_last() =~= blocks@.take(k as int));
            assert(blocks@.take(k + 1).last() == blocks@[k as int]);
        }
        if text_same(blocks[k].kind.as_str(), "text") {
            if let Some(piece) = &blocks[k].text {
                saw_text = true;
                text.push_str(piece.as_str());
                proof {
                    assert(Seq::<char>::empty() + piece@ =~= piece@);
                }
            }
        }
        k += 1;
    }
    proof {
        assert(blocks@.take(blocks@.len() as int) =~= blocks@);
    }
    if saw_text {
        Ok(text)
    } else {
        Err(missing_content())
    }
}

/// The completion that an answer holds. One that was cut off is refused.
pub fn completion(reply: &MessagesReply) -> (r: Result<CompletionResponse, ProviderError>)
    ensures
        ({
            let cut_off = reply.stop_reason matches Some(reason) && reason@ == LENGTH_REASON@;
            match r {
                Ok(response) => !cut_off && text_in(reply.content@) == Some(response.text@),
                Err(ProviderError::InvalidResponse(message)) => if cut_off {
                    message@ == TRUNCATED@
                } else {
                    text_in(reply.content@) is None && message@ == MISSING_CONTENT@
                },
                Err(_) => false,
            }
        }),
{
    let reason: Option<&str> = match &reply.stop_reason {
        Some(reason) => Some(reason.as_str()),
        None => None,
    };
    match reject_length_limit(reason, LENGTH_REASON) {
        Ok(()) => {},
        Err(error) => return Err(error),
    }
    match message_text(&reply.content) {
        Ok(text) => Ok(CompletionResponse { text }),
        Err(error) => Err(error),
    }
}

/// The texts of two parts of an answer, one after the other.
pub open spec fn texts_joined(one: Option<Seq<char>>, two: Option<Seq<char>>) -> Option<Seq<char>> {
    match (one, two) {
        (Some(one), Some(two)) => Some(one + two),
        (Some(one), None) => Some(one),
        (None, two) => two,
    }
}

/// The text of an answer is that of its first blocks followed by that of the
/// others. A block of text gives its text as it is, and any other block gives
/// nothing.
pub proof fn answers_are_read_block_by_block(one: Seq<ContentBlock>, two: Seq<ContentBlock>)
    ensures
        text_in(one + two) == texts_joined(text_in(one), text_in(two)),
        one.len() == 1 && one[0].kind@ == "text"@ ==> text_in(one) == (match one[0].text {
            Some(text) => Some(text@),
            None => None,
        }),
        one.len() == 1 && one[0].kind@ != "text"@ ==> text_in(one) is None,
    decreases two.len(),
{
    if one.len() == 1 {
        assert(one.drop_last().len() == 0);
        reveal_with_fuel(text_in, 2);
    }
    if two.len() == 0 {
        assert(one + two =~= one);
    } else {
        answers_are_read_block_by_block(one, two.drop_last());
        assert((one + two).drop_last() =~= one + two.drop_last());
        if let (Some(x), Some(y)) = (text_in(one), text_in(two.drop_last())) {
            if let Some(piece) = two.last().text {
                assert(x + y + piece@ =~= x + (y + piece@));
            }
        }
    }
}

/// Whatever `completion` returns is the text that `message_text` finds in the
/// answer; one that was cut off is refused, whatever it holds.
pub proof fn cut_off_messages_are_refused(
    reply: &MessagesReply,
    text: Result<String, ProviderError>,
    r: Result<CompletionResponse, ProviderError>,
)
    requires
        call_ensures(completion, (reply,), r),
        call_ensures(message_text, (&reply.content,), text),
    ensures
        ({
            let cut_off = reply.stop_reason is Some && reply.stop_reason->Some_0@ == "max_tokens"@;
            &&& r is Ok <==> !cut_off && text is Ok
            &&& r matches Ok(response) ==> response.text@ == text->Ok_0@
        }),
        reply.content@.len() == 1 && reply.content@[0].kind@ == "text"@ && reply.content@[0].text
            is Some ==> text is Ok && text->Ok_0@ == reply.content@[0].text->Some_0@,
        reply.content@.len() == 0 ==> text is Err,
{
    answers_are_read_block_by_block(reply.content@, seq![]);
}

} // verus!
