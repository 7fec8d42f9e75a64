//! The command line, once it has been parsed.
use vstd::prelude::*;

verus! {

/// The provider that requests are sent to.
#[derive(Debug, Clone, Copy, PartialEq, Eq, Structural)]
pub enum ProviderChoice {
    Openai,
    Openrouter,
    Anthropic,
    Gemini,
}

impl Default for ProviderChoice {
    fn default() -> (r: Self)
        ensures
            r == ProviderChoice::Openai,
    {
        ProviderChoice::Openai
    }
}

impl ProviderChoice {
    pub open spec fn name_spec(self) -> Seq<char> {
        match self {
            ProviderChoice::Openai => "openai"@,
            ProviderChoice::Openrouter => "openrouter"@,
            ProviderChoice::Anthropic => "anthropic"@,
            ProviderChoice::Gemini => "gemini"@,
        }
    }

    /// The word for the provider on the command line.
    pub fn name(self) -> (r: &'static str)
        ensures
            r@ == self.name_spec(),
    {
        match self {
            ProviderChoice::Openai => "openai",
            ProviderChoice::Openrouter => "openrouter",
            ProviderChoice::Anthropic => "anthropic",
            ProviderChoice::Gemini => "gemini",
        }
    }
}

/// What to do.
#[allow(inconsistent_fields)]
#[derive(Debug)]
pub enum Command {
    Run { provider: ProviderChoice, model: String, prompt: String },
    Exec {
        provider: ProviderChoice,
        tasks: String,
        models: Vec<String>,
        output: Option<String>,
        judge: Option<String>,
        seed: u64,
    },
    Report { input: String, output: String },
    Web { port: u16 },
}

/// A command and how much to say about it.
#[derive(Debug)]
pub struct Cli {
    pub verbose: u8,
    pub command: Command,
}

/// Every provider has a word of its own.
pub proof fn providers_have_their_own_words(
    one: ProviderChoice,
    two: ProviderChoice,
    of_one: &'static str,
    of_two: &'static str,
)
    requires
        call_ensures(ProviderChoice::name, (one,), of_one),
        call_ensures(ProviderChoice::name, (two,), of_two),
    ensures
        of_one@ == of_two@ <==> one == two,
        one == ProviderChoice::Openai ==> of_one@ == "openai"@,
        one == ProviderChoice::Openrouter ==> of_one@ == "openrouter"@,
        one == ProviderChoice::Anthropic ==> of_one@ == "anthropic"@,
        one == ProviderChoice::Gemini ==> of_one@ == "gemini"@,
{
    reveal_strlit("openai");
    reveal_strlit("openrouter");
    reveal_strlit("anthropic");
    reveal_strlit("gemini");
    assert("openai"@.len() == 6 && "gemini"@.len() == 6);
    assert("openrouter"@.len() == 10 && "anthropic"@.len() == 9);
    assert("openai"@[0] == 'o' && "gemini"@[0] == 'g');
}

} // verus!
