use lyrics::cli::{
    Options, SharedOptions, DEFAULT_DELAY_MS, DEFAULT_DURATION_TOLERANCE, DEFAULT_MAX_RETRIES,
};
use lyrics::config::{self, Config, Options as ConfigOptions, ProviderConfig, TuiConfig};
use lyrics::provider::ProviderKind;

fn config_with(options: ConfigOptions) -> Config {
    Config {
        options,
        lrclib: ProviderConfig::default(),
        lrcmux: ProviderConfig::default(),
        tui: TuiConfig::default(),
    }
}

fn resolve(cli: &SharedOptions, config: &Config) -> Options {
    cli.resolve(config)
}

#[test]
fn default_wins_when_nothing_is_set() {
    let resolved = resolve(&SharedOptions::default(), &Config::default());
    assert_eq!(resolved.duration_tolerance, DEFAULT_DURATION_TOLERANCE);
    assert_eq!(resolved.delay_ms, DEFAULT_DELAY_MS);
    assert_eq!(resolved.max_retries, DEFAULT_MAX_RETRIES);
    assert_eq!(resolved.provider, ProviderKind::Lrclib);
    assert!(!resolved.path_fallback);
    assert!(resolved.user_agent.is_none());
}

#[test]
fn config_beats_default() {
    let config = config_with(ConfigOptions {
        delay_ms: Some(500),
        path_fallback: Some(true),
        ..ConfigOptions::default()
    });
    let resolved = resolve(&SharedOptions::default(), &config);
    assert_eq!(resolved.delay_ms, 500);
    assert!(resolved.path_fallback);
}

#[test]
fn cli_beats_config() {
    let config = config_with(ConfigOptions {
        delay_ms: Some(500),
        ..ConfigOptions::default()
    });
    let cli = SharedOptions {
        delay_ms: Some(1_000),
        ..SharedOptions::default()
    };
    assert_eq!(cli.resolve(&config).delay_ms, 1_000);
}

#[test]
fn boolean_flag_set_in_config_alone_resolves_true() {
    let config = config_with(ConfigOptions {
        keep_plain: Some(true),
        ..ConfigOptions::default()
    });
    assert!(SharedOptions::default().resolve(&config).keep_plain);
}

#[test]
fn boolean_flag_set_on_the_cli_alone_resolves_true() {
    let cli = SharedOptions {
        keep_plain: true,
        ..SharedOptions::default()
    };
    assert!(cli.resolve(&Config::default()).keep_plain);
}

#[test]
fn provider_specific_user_agent_beats_general_options_user_agent() {
    let mut config = config_with(ConfigOptions {
        user_agent: Some("general".to_owned()),
        ..ConfigOptions::default()
    });
    config.lrclib.user_agent = Some("lrclib-specific".to_owned());

    let resolved = SharedOptions::default().resolve(&config);
    assert_eq!(resolved.user_agent.as_deref(), Some("lrclib-specific"));
}

#[test]
fn cli_user_agent_beats_every_config_source() {
    let mut config = config_with(ConfigOptions {
        user_agent: Some("general".to_owned()),
        ..ConfigOptions::default()
    });
    config.lrclib.user_agent = Some("lrclib-specific".to_owned());

    let cli = SharedOptions {
        user_agent: Some("cli".to_owned()),
        ..SharedOptions::default()
    };
    assert_eq!(cli.resolve(&config).user_agent.as_deref(), Some("cli"));
}

#[test]
fn the_chosen_providers_own_user_agent_is_the_one_used() {
    let mut config = config_with(ConfigOptions {
        provider: Some(ProviderKind::Lrcmux),
        ..ConfigOptions::default()
    });
    config.lrclib.user_agent = Some("lrclib-specific".to_owned());
    config.lrcmux.user_agent = Some("lrcmux-specific".to_owned());
    let resolved = SharedOptions::default().resolve(&config);
    assert_eq!(resolved.provider, ProviderKind::Lrcmux);
    assert_eq!(resolved.user_agent.as_deref(), Some("lrcmux-specific"));
}

#[test]
fn default_path_prefers_xdg_config_home_then_falls_back_to_home() {
    assert_eq!(
        config::default_path(Some("/xdg-home"), Some("/home/demo")).as_deref(),
        Some("/xdg-home/lyrics/config.toml")
    );
    assert_eq!(
        config::default_path(None, Some("/home/demo")).as_deref(),
        Some("/home/demo/.config/lyrics/config.toml")
    );
}

#[test]
fn an_empty_xdg_config_home_is_ignored() {
    assert_eq!(
        config::default_path(Some(""), Some("/home/demo")).as_deref(),
        Some("/home/demo/.config/lyrics/config.toml")
    );
    assert_eq!(config::default_path(None, None), None);
}

#[test]
fn the_config_dir_is_the_default_paths_directory() {
    assert_eq!(
        config::config_dir(Some("/xdg/"), None).as_deref(),
        Some("/xdg/lyrics")
    );
    assert_eq!(
        config::config_dir(None, Some("/home/demo")).as_deref(),
        Some("/home/demo/.config/lyrics")
    );
}
