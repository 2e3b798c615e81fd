//! Settings of the completion tool. Where they come from (a file, the
//! environment) is not decided here: the values found there are handed in.
use vstd::prelude::*;
use crate::completion::opt_text;
use crate::text::str_eq;

verus! {

/// The interactive selector to use.
#[derive(Debug, Clone, Copy, PartialEq, Eq, Structural)]
pub enum SelectorType {
    Dialoguer,
}

/// One source of candidates, as the settings name it.
#[derive(Debug, Clone, Copy, PartialEq, Eq, Structural)]
pub enum ProviderConfig {
    History { limit: Option<usize> },
    Carapace,
    Bash,
    EnvVar,
}

/// The settings.
#[derive(Debug, Clone)]
pub struct Config {
    pub selector_height: Option<String>,
    pub auto_common_prefix: bool,
    pub auto_common_prefix_part: bool,
    pub prompt: String,
    pub completion_sep: String,
    pub no_empty_cmd_completion: bool,
    pub selector_type: SelectorType,
    pub providers: Vec<ProviderConfig>,
}

/// The values of the environment variables that carry settings; `None` for a
/// variable that is not set.
#[derive(Debug, Clone)]
pub struct EnvSettings {
    pub selector_height: Option<String>,
    pub auto_common_prefix: Option<String>,
    pub auto_common_prefix_part: Option<String>,
    pub prompt: Option<String>,
    pub no_empty_cmd_completion: Option<String>,
    pub selector: Option<String>,
}

/// The sources in their default order.
pub open spec fn default_providers() -> Seq<ProviderConfig> {
    seq![
        ProviderConfig::Bash,
        ProviderConfig::History { limit: Some(20usize) },
        ProviderConfig::Carapace,
        ProviderConfig::EnvVar,
    ]
}

/// A switch read from the environment: on for `true` and `1`, off for any
/// other value, `default` when the variable is not set.
pub open spec fn switch_value(value: Option<Seq<char>>, default: bool) -> bool {
    match value {
        Some(v) => v == "true"@ || v == "1"@,
        None => default,
    }
}

/// The separator between the parts of a candidate line.
pub fn default_completion_sep() -> (s: String)
    ensures
        s@ == "\x01"@,
{
    "\x01".to_owned()
}

fn read_switch(value: &Option<String>, default: bool) -> (b: bool)
    ensures
        b == switch_value(opt_text(*value), default),
{
    match value {
        Some(v) => str_eq(v.as_str(), "true") || str_eq(v.as_str(), "1"),
        None => default,
    }
}

fn provider_defaults() -> (v: Vec<ProviderConfig>)
    ensures
        v@ == default_providers(),
{
    let mut v: Vec<ProviderConfig> = Vec::new();
    v.push(ProviderConfig::Bash);
    v.push(ProviderConfig::History { limit: Some(20) });
    v.push(ProviderConfig::Carapace);
    v.push(ProviderConfig::EnvVar);
    assert(v@ =~= default_providers());
    v
}

impl Default for Config {
    fn default() -> (c: Self)
        ensures
            opt_text(c.selector_height) == Some("40%"@),
            c.auto_common_prefix,
            !c.auto_common_prefix_part,
            c.prompt@ == "> "@,
            c.completion_sep@ == "\x01"@,
            !c.no_empty_cmd_completion,
            c.selector_type == SelectorType::Dialoguer,
            c.providers@ == default_providers(),
    {
        Config {
            selector_height: Some("40%".to_owned()),
            auto_common_prefix: true,
            auto_common_prefix_part: false,
            prompt: "> ".to_owned(),
            completion_sep: default_completion_sep(),
            no_empty_cmd_completion: false,
            selector_type: SelectorType::Dialoguer,
            providers: provider_defaults(),
        }
    }
}

impl Config {
    /// The settings to work with: those of the settings file when it gave
    /// any, else those of the environment.
    pub fn load(file: Option<Config>, env: &EnvSettings) -> (c: Self)
        ensures
            match file {
                Some(f) => c == f,
                None => c.is_from_env(env),
            },
    {
        match file {
            Some(f) => f,
            None => Config::from_env(env),
        }
    }

    /// These are the settings that the environment `env` gives.
    pub open spec fn is_from_env(&self, env: &EnvSettings) -> bool {
        &&& opt_text(self.selector_height) == opt_text(env.selector_height)
        &&& self.auto_common_prefix == switch_value(opt_text(env.auto_common_prefix), true)
        &&& self.auto_common_prefix_part == switch_value(
            opt_text(env.auto_common_prefix_part),
            false,
        )
        &&& self.prompt@ == match env.prompt {
            Some(p) => p@,
            None => "> "@,
        }
        &&& self.completion_sep@ == "\x01"@
        &&& self.no_empty_cmd_completion == switch_value(
            opt_text(env.no_empty_cmd_completion),
            false,
        )
        &&& self.selector_type == SelectorType::Dialoguer
        &&& self.providers@ == default_providers()
    }

    /// The settings that the environment gives. A switch is on for `true` and
    /// `1`; what is not set takes its default, except the selector's height,
    /// which then stays open. Whatever selector is named, the one selector
    /// that there is gets chosen.
    pub fn from_env(env: &EnvSettings) -> (c: Self)
        ensures
            c.is_from_env(env),
    {
        Config {
            selector_height: crate::completion::copy_opt(&env.selector_height),
            auto_common_prefix: read_switch(&env.auto_common_prefix, true),
            auto_common_prefix_part: read_switch(&env.auto_common_prefix_part, false),
            prompt: match &env.prompt {
                Some(p) => p.clone(),
                None => "> ".to_owned(),
            },
            completion_sep: default_completion_sep(),
            no_empty_cmd_completion: read_switch(&env.no_empty_cmd_completion, false),
            selector_type: SelectorType::Dialoguer,
            providers: provider_defaults(),
        }
    }
}

} // verus!
