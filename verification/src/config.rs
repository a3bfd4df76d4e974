//! The parts of Taplo's configuration file that associate schemas with files.
use vstd::prelude::*;
use crate::location::ParsedUrl;
use crate::rules::GlobRule;

verus! {

/// The schema settings of the configuration or of one of its rules.
pub struct SchemaOptions {
    /// Whether schemas are used at all; they are unless this says `false`.
    pub enabled: Option<bool>,
    /// The schema to use.
    pub url: Option<ParsedUrl>,
}

/// The settings of the configuration or of one of its rules.
pub struct Options {
    /// The schema settings.
    pub schema: Option<SchemaOptions>,
}

/// A rule of the configuration: the files it covers and its settings.
pub struct Rule {
    /// The files the rule covers, compiled from its patterns.
    pub file_rule: Option<GlobRule>,
    /// The rule's settings.
    pub options: Options,
}

/// The configuration: its rules, the files it covers, and its own settings.
pub struct Config {
    /// The rules.
    pub rule: Vec<Rule>,
    /// The files the configuration covers, compiled from its patterns.
    pub file_rule: Option<GlobRule>,
    /// The settings that hold for every file.
    pub global_options: Options,
}

/// The schema that settings ask for: their URL, unless schemas are switched off.
pub open spec fn enabled_schema(o: Option<SchemaOptions>) -> Option<ParsedUrl> {
    match o {
        Some(so) => match so.url {
            Some(u) => if so.enabled != Some(false) { Some(u) } else { None },
            None => None,
        },
        None => None,
    }
}

/// The URL of the schema that settings ask for, unless schemas are switched off.
pub fn schema_url_of(o: &Option<SchemaOptions>) -> (r: Option<&ParsedUrl>)
    ensures
        match r {
            Some(u) => enabled_schema(*o) == Some(*u),
            None => enabled_schema(*o) is None,
        },
{
    match o {
        Some(so) => match &so.url {
            Some(u) => {
                let enabled = match so.enabled {
                    Some(b) => b,
                    None => true,
                };
                if enabled {
                    Some(u)
                } else {
                    None
                }
            },
            None => None,
        },
        None => None,
    }
}

} // verus!
