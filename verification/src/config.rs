//! The config file's shape, and where it lives.
//!
//! The file itself is TOML, read and parsed by the program around this library into these
//! types. Every setting is optional: an unset one defers to the command line or a default.
use vstd::prelude::*;

use crate::provider::ProviderKind;
use crate::text::push_str;

verus! {

/// The whole config file.
#[derive(Debug, Default)]
pub struct Config {
    pub options: Options,
    pub lrclib: ProviderConfig,
    pub lrcmux: ProviderConfig,
    pub tui: TuiConfig,
}

/// The `[tui]` table.
#[derive(Debug, Default)]
pub struct TuiConfig {
    pub theme: Option<String>,
}

/// The `[options]` table: defaults for the shared command-line options.
#[derive(Debug, Default)]
pub struct Options {
    pub provider: Option<ProviderKind>,
    pub delay_ms: Option<u64>,
    pub max_retries: Option<u32>,
    pub duration_tolerance: Option<u32>,
    pub user_agent: Option<String>,
    pub path_fallback: Option<bool>,
    pub keep_plain: Option<bool>,
    pub no_search_fallback: Option<bool>,
    pub no_marker_fallback: Option<bool>,
    pub no_color: Option<bool>,
}

/// A provider's own table, `[lrclib]` or `[lrcmux]`.
#[derive(Debug, Default)]
pub struct ProviderConfig {
    pub user_agent: Option<String>,
}

/// `PathBuf::join` of a relative name: the name alone onto an empty path, no separator
/// added after one already there.
pub open spec fn join(base: Seq<char>, name: Seq<char>) -> Seq<char> {
    if base.len() == 0 {
        name
    } else if base.last() == '/' {
        base + name
    } else {
        base + seq!['/'] + name
    }
}

fn join_exec(base: &str, name: &str) -> (r: String)
    ensures
        r@ == join(base@, name@),
{
    let cs = crate::text::chars_of(base);
    let mut out = String::new();
    push_str(&mut out, base);
    if cs.len() > 0 && cs[cs.len() - 1] != '/' {
        crate::text::push_char(&mut out, '/');
    }
    push_str(&mut out, name);
    proof {
        assert(out@ =~= join(base@, name@));
    }
    out
}

/// The directory the config lives in: `lyrics` under `$XDG_CONFIG_HOME` when that is set
/// and not empty, else under `$HOME/.config`; none without either.
pub open spec fn spec_config_dir(xdg: Option<Seq<char>>, home: Option<Seq<char>>) -> Option<Seq<char>> {
    match xdg {
        Some(x) if x.len() > 0 => Some(join(x, "lyrics"@)),
        _ => match home {
            Some(h) => Some(join(join(h, ".config"@), "lyrics"@)),
            None => None,
        },
    }
}

/// The config file's default location: `config.toml` in the config directory.
pub open spec fn spec_default_path(xdg: Option<Seq<char>>, home: Option<Seq<char>>) -> Option<Seq<char>> {
    match spec_config_dir(xdg, home) {
        Some(d) => Some(join(d, "config.toml"@)),
        None => None,
    }
}

/// The config directory, from the values of `XDG_CONFIG_HOME` and `HOME`.
pub fn config_dir(xdg: Option<&str>, home: Option<&str>) -> (r: Option<String>)
    ensures
        opt_view(r) == spec_config_dir(opt_str_view(xdg), opt_str_view(home)),
{
    match xdg {
        Some(x) => {
            if !x.is_empty() {
                return Some(join_exec(x, "lyrics"));
            }
        },
        None => {},
    }
    match home {
        Some(h) => {
            let c = join_exec(h, ".config");
            Some(join_exec(c.as_str(), "lyrics"))
        },
        None => None,
    }
}

/// The config file's default location, from the values of `XDG_CONFIG_HOME` and `HOME`.
pub fn default_path(xdg: Option<&str>, home: Option<&str>) -> (r: Option<String>)
    ensures
        opt_view(r) == spec_default_path(opt_str_view(xdg), opt_str_view(home)),
{
    match config_dir(xdg, home) {
        Some(d) => Some(join_exec(d.as_str(), "config.toml")),
        None => None,
    }
}

pub open spec fn opt_view(o: Option<String>) -> Option<Seq<char>> {
    match o {
        Some(s) => Some(s@),
        None => None,
    }
}

pub open spec fn opt_str_view(o: Option<&str>) -> Option<Seq<char>> {
    match o {
        Some(s) => Some(s@),
        None => None,
    }
}

/// The config file sits directly in the config directory.
pub proof fn lemma_default_path_is_in_config_dir(xdg: Option<Seq<char>>, home: Option<Seq<char>>)
    ensures
        spec_default_path(xdg, home) is Some <==> spec_config_dir(xdg, home) is Some,
        spec_default_path(xdg, home) is Some ==> spec_default_path(xdg, home)->0 == spec_config_dir(xdg, home)->0 + "/config.toml"@,
{
    reveal_strlit("lyrics");
    if let Some(d) = spec_config_dir(xdg, home) {
        assert(d.len() > 0 && d.last() == 's');
        assert(join(d, "config.toml"@) =~= d + "/config.toml"@) by {
            reveal_strlit("/config.toml");
            reveal_strlit("config.toml");
        }
    }
}

} // verus!
