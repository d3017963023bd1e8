//! The command line's model, and its merge with the config file.
//!
//! Parsing the arguments is the program's business; what it parses into, and how the
//! options it gives combine with the config file, is here.
use vstd::prelude::*;

use crate::config::{Config, ProviderConfig};
use crate::path::opt_string_view;
use crate::provider::ProviderKind;

verus! {

pub const DEFAULT_DURATION_TOLERANCE: u32 = 2;

pub const DEFAULT_DELAY_MS: u64 = 300;

pub const DEFAULT_MAX_RETRIES: u32 = 3;

/// The parsed command line.
#[derive(Debug)]
pub struct Cli {
    pub command: Command,
}

/// The subcommands.
#[derive(Debug)]
pub enum Command {
    /// Walk a directory tree and process every audio file found.
    Scan { dir: String, options: SharedOptions },
    /// Process a single audio file.
    Track { file: String, options: SharedOptions },
    /// Survey a directory tree's lyrics coverage.
    Stats { dir: String, verbose: u8 },
    /// Check .lrc files for format and sync problems.
    Lint { paths: Vec<String>, strict: bool, quiet: bool },
    /// Build an EPUB of the library's lyrics.
    Ebook {
        dir: String,
        output: Option<String>,
        title: Option<String>,
        author: Option<String>,
        verbose: u8,
        quiet: bool,
    },
    /// Look up lyrics by artist and track name and show them in a pager.
    Show { track: String, artist: String, album: Option<String>, options: SharedOptions },
    /// Follow along with synced lyrics, the current line centered.
    Tui {
        track: Option<String>,
        artist: Option<String>,
        album: Option<String>,
        file: Option<String>,
        counter: bool,
        theme: Option<String>,
        list_themes: bool,
        options: SharedOptions,
    },
}

/// The options the track-processing subcommands share, as given on the command line.
#[derive(Debug, Clone, Default)]
pub struct SharedOptions {
    pub force: bool,
    pub path_fallback: bool,
    pub no_search_fallback: bool,
    pub no_marker_fallback: bool,
    pub duration_tolerance: Option<u32>,
    pub dry_run: bool,
    pub keep_plain: bool,
    pub verbose: u8,
    pub quiet: bool,
    pub no_color: bool,
    pub provider: Option<ProviderKind>,
    pub delay_ms: Option<u64>,
    pub max_retries: Option<u32>,
    pub user_agent: Option<String>,
    pub config: Option<String>,
    pub no_config: bool,
}

/// The options in effect: command line over config file over default.
#[derive(Debug, Clone)]
pub struct Options {
    pub force: bool,
    pub path_fallback: bool,
    pub no_search_fallback: bool,
    pub no_marker_fallback: bool,
    pub duration_tolerance: u32,
    pub dry_run: bool,
    pub keep_plain: bool,
    pub verbose: u8,
    pub quiet: bool,
    pub no_color: bool,
    pub provider: ProviderKind,
    pub delay_ms: u64,
    pub max_retries: u32,
    pub user_agent: Option<String>,
}

pub open spec fn or_else<T>(a: Option<T>, b: Option<T>) -> Option<T> {
    match a {
        Some(x) => Some(x),
        None => b,
    }
}

pub open spec fn flag(cli: bool, config: Option<bool>) -> bool {
    cli || config == Some(true)
}

pub open spec fn value_or<T>(o: Option<T>, d: T) -> T {
    match o {
        Some(x) => x,
        None => d,
    }
}

impl SharedOptions {
    /// The options in effect for this command line and config file: a value given on the
    /// command line wins, then one in the config file, then the default; a switch is on when
    /// either turns it on. The User-Agent comes from the command line, else the chosen
    /// provider's own table, else the general options.
    pub fn resolve(&self, config: &Config) -> (r: Options)
        ensures
            r.provider == value_or(or_else(self.provider, config.options.provider), ProviderKind::Lrclib),
            r.force == self.force,
            r.path_fallback == flag(self.path_fallback, config.options.path_fallback),
            r.no_search_fallback == flag(self.no_search_fallback, config.options.no_search_fallback),
            r.no_marker_fallback == flag(self.no_marker_fallback, config.options.no_marker_fallback),
            r.duration_tolerance == value_or(or_else(self.duration_tolerance, config.options.duration_tolerance), DEFAULT_DURATION_TOLERANCE),
            r.dry_run == self.dry_run,
            r.keep_plain == flag(self.keep_plain, config.options.keep_plain),
            r.verbose == self.verbose,
            r.quiet == self.quiet,
            r.no_color == flag(self.no_color, config.options.no_color),
            r.delay_ms == value_or(or_else(self.delay_ms, config.options.delay_ms), DEFAULT_DELAY_MS),
            r.max_retries == value_or(or_else(self.max_retries, config.options.max_retries), DEFAULT_MAX_RETRIES),
            opt_string_view(r.user_agent) == or_else(
                opt_string_view(self.user_agent),
                or_else(
                    match r.provider {
                        ProviderKind::Lrclib => opt_string_view(config.lrclib.user_agent),
                        ProviderKind::Lrcmux => opt_string_view(config.lrcmux.user_agent),
                    },
                    opt_string_view(config.options.user_agent),
                ),
            ),
    {
        let provider = match self.provider {
            Some(p) => p,
            None => match config.options.provider {
                Some(p) => p,
                None => ProviderKind::Lrclib,
            },
        };
        let provider_table: &ProviderConfig = match provider {
            ProviderKind::Lrclib => &config.lrclib,
            ProviderKind::Lrcmux => &config.lrcmux,
        };
        let user_agent = match &self.user_agent {
            Some(u) => Some(u.clone()),
            None => match &provider_table.user_agent {
                Some(u) => Some(u.clone()),
                None => match &config.options.user_agent {
                    Some(u) => Some(u.clone()),
                    None => None,
                },
            },
        };
        Options {
            force: self.force,
            path_fallback: self.path_fallback || config.options.path_fallback == Some(true),
            no_search_fallback: self.no_search_fallback || config.options.no_search_fallback == Some(true),
            no_marker_fallback: self.no_marker_fallback || config.options.no_marker_fallback == Some(true),
            duration_tolerance: match self.duration_tolerance {
                Some(v) => v,
                None => match config.options.duration_tolerance {
                    Some(v) => v,
                    None => DEFAULT_DURATION_TOLERANCE,
                },
            },
            dry_run: self.dry_run,
            keep_plain: self.keep_plain || config.options.keep_plain == Some(true),
            verbose: self.verbose,
            quiet: self.quiet,
            no_color: self.no_color || config.options.no_color == Some(true),
            provider,
            delay_ms: match self.delay_ms {
                Some(v) => v,
                None => match config.options.delay_ms {
                    Some(v) => v,
                    None => DEFAULT_DELAY_MS,
                },
            },
            max_retries: match self.max_retries {
                Some(v) => v,
                None => match config.options.max_retries {
                    Some(v) => v,
                    None => DEFAULT_MAX_RETRIES,
                },
            },
            user_agent,
        }
    }
}

/// A value on the command line always wins over the config file, and the config file over
/// the default.
pub proof fn lemma_command_line_wins(cli: Option<u64>, config: Option<u64>, default: u64)
    ensures
        cli is Some ==> value_or(or_else(cli, config), default) == cli->0,
        cli is None && config is Some ==> value_or(or_else(cli, config), default) == config->0,
        cli is None && config is None ==> value_or(or_else(cli, config), default) == default,
{
}

} // verus!
