use arena::cli::{Cli, Command, ProviderChoice};
use arena::config::{Config, Level};

fn cli_with_verbose(verbose: u8) -> Cli {
    Cli {
        verbose,
        command: Command::Run {
            provider: ProviderChoice::default(),
            model: String::new(),
            prompt: String::new(),
        },
    }
}

#[test]
fn maps_verbosity_to_log_level() {
    assert_eq!(Config::from_cli(&cli_with_verbose(0)).log_level, Level::INFO);
    assert_eq!(Config::from_cli(&cli_with_verbose(1)).log_level, Level::DEBUG);
    assert_eq!(Config::from_cli(&cli_with_verbose(2)).log_level, Level::TRACE);
    assert_eq!(Config::from_cli(&cli_with_verbose(5)).log_level, Level::TRACE);
}

#[test]
fn providers_have_names_and_a_default() {
    assert_eq!(ProviderChoice::default(), ProviderChoice::Openai);
    assert_eq!(ProviderChoice::Openai.name(), "openai");
    assert_eq!(ProviderChoice::Openrouter.name(), "openrouter");
    assert_eq!(ProviderChoice::Anthropic.name(), "anthropic");
    assert_eq!(ProviderChoice::Gemini.name(), "gemini");
}
